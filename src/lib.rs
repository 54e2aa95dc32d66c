//! A GPS tracking service core: owner credentials, an append-only point store,
//! and read-time reconstruction of the most recent trip from a point stream.

pub mod point;
pub mod trip;
pub mod ids;
pub mod error;
pub mod query;
pub mod credential;
pub mod store;
