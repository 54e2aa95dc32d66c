use vstd::prelude::*;
use vstd::arithmetic::power::pow;

verus! {

/// The earliest instant chrono can represent (January 1, 262144 BCE), in
/// milliseconds since the Unix epoch.
pub const MIN_INSTANT_MILLIS: i64 = -8_334_601_228_800_000;

/// The last millisecond chrono can represent (December 31, 262142 CE).
pub const MAX_INSTANT_MILLIS: i64 = 8_210_266_876_799_999;

/// Number of characters in the text form of an identifier.
pub const ID_TEXT_LEN: usize = 26;

/// The Crockford base-32 digits, in order of value.
pub open spec fn crockford_digits() -> Seq<char> {
    seq![
        '0', '1', '2', '3', '4', '5', '6', '7', '8', '9', 'A', 'B', 'C', 'D', 'E', 'F',
        'G', 'H', 'J', 'K', 'M', 'N', 'P', 'Q', 'R', 'S', 'T', 'V', 'W', 'X', 'Y', 'Z',
    ]
}

/// The value of a Crockford base-32 digit, letters in either case.
pub open spec fn crockford_value(c: char) -> Option<int> {
    let u = if 'a' <= c && c <= 'z' {
        c as int - 32
    } else {
        c as int
    };
    if '0' as int <= u <= '9' as int {
        Some(u - '0' as int)
    } else if 'A' as int <= u <= 'H' as int {
        Some(u - 'A' as int + 10)
    } else if 'J' as int <= u <= 'K' as int {
        Some(u - 'J' as int + 18)
    } else if 'M' as int <= u <= 'N' as int {
        Some(u - 'M' as int + 20)
    } else if 'P' as int <= u <= 'T' as int {
        Some(u - 'P' as int + 22)
    } else if 'V' as int <= u <= 'Z' as int {
        Some(u - 'V' as int + 27)
    } else {
        None
    }
}

/// The number that a string of base-32 digits spells, most significant first.
pub open spec fn base32_number(s: Seq<char>) -> int
    decreases s.len(),
{
    if s.len() == 0 {
        0
    } else {
        base32_number(s.drop_last()) * 32 + match crockford_value(s.last()) {
            Some(d) => d,
            None => 0,
        }
    }
}

/// The text form of an identifier: 26 base-32 digits, most significant first.
pub open spec fn id_text(id: u128) -> Seq<char> {
    Seq::new(26, |i: int| crockford_digits()[(id as int / pow(32, (25 - i) as nat)) % 32])
}

/// The identifier a text spells, if it is 26 base-32 digits; digits above
/// 128 bits are dropped.
pub open spec fn id_of_text(s: Seq<char>) -> Option<u128> {
    if s.len() == 26 && forall|i: int| 0 <= i < s.len() ==> crockford_value(s[i]) is Some {
        Some((base32_number(s) % pow(2, 128)) as u128)
    } else {
        None
    }
}

/// Every digit of the text form is a letter or a decimal digit.
pub proof fn lemma_crockford_digits_alphanumeric(d: int)
    requires
        0 <= d < 32,
    ensures
        '0' <= crockford_digits()[d] <= '9' || 'A' <= crockford_digits()[d] <= 'Z',
{
}

/// The text form of an identifier starts with a base-32 digit, never with a
/// separator such as `$`.
pub proof fn lemma_id_text_starts_with_digit(id: u128)
    ensures
        id_text(id).len() == 26,
        id_text(id)[0] != '$',
{
    let d = (id as int / pow(32, 25)) % 32;
    assert(0 <= d < 32) by {
        vstd::arithmetic::power::lemma_pow_positive(32, 25);
        vstd::arithmetic::div_mod::lemma_div_pos_is_pos(id as int, pow(32, 25));
    }
    lemma_crockford_digits_alphanumeric(d);
}

/// Relies on ulid::Ulid::new: a fresh identifier made of the current time and
/// random bits. Nothing is known of its value.
#[verifier::external_body]
pub(crate) fn fresh_id() -> (r: u128) {
    ulid::Ulid::new().0
}

/// Relies on ulid::Ulid::to_string: the 26 Crockford base-32 digits of the
/// identifier.
#[verifier::external_body]
pub(crate) fn text_of_id(id: u128) -> (r: String)
    ensures
        r@ == id_text(id),
{
    ulid::Ulid(id).to_string()
}

/// Relies on ulid::Ulid::from_string: 26 Crockford base-32 digits, either
/// case, shifted in five bits at a time.
#[verifier::external_body]
pub(crate) fn id_from_text(s: &str) -> (r: Option<u128>)
    ensures
        r == id_of_text(s@),
{
    ulid::Ulid::from_string(s).ok().map(|u| u.0)
}

/// Relies on chrono::DateTime::from_timestamp_millis: it yields an instant
/// exactly for the milliseconds within chrono's range.
#[verifier::external_body]
pub(crate) fn instant_representable(millis: i64) -> (r: bool)
    ensures
        r == (MIN_INSTANT_MILLIS <= millis <= MAX_INSTANT_MILLIS),
{
    chrono::DateTime::from_timestamp_millis(millis).is_some()
}

/// Relies on chrono::Utc::now and DateTime::timestamp_millis: the current
/// instant, which chrono only hands out from the Unix epoch on and within its
/// range.
#[verifier::external_body]
pub(crate) fn now_millis() -> (r: i64)
    ensures
        0 <= r <= MAX_INSTANT_MILLIS,
{
    chrono::Utc::now().timestamp_millis()
}

} // verus!
