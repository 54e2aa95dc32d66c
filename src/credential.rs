use vstd::prelude::*;
use vstd::utf8::encode_utf8;
use argon2::{PasswordHasher, PasswordVerifier};
use crate::error::{AuthError, RegisterError};
use crate::ids::{fresh_id, lemma_id_text_starts_with_digit, now_millis, text_of_id, MAX_INSTANT_MILLIS};

verus! {

/// Whether the PHC-encoded Argon2 hash `encoded` parses and its digest
/// matches `secret` under the algorithm, parameters and salt it carries.
pub uninterp spec fn argon2_accepts(encoded: Seq<char>, secret: Seq<char>) -> bool;

/// Stored hashes whose memory, time or parallelism parameter is larger than
/// this are refused before any hashing.
pub const MAX_COST_PARAM: u64 = 65_536;

/// The number that the decimal digits of `s` from index `i` on spell, up to
/// the first byte that is not a digit, with `acc` as the digits before.
pub open spec fn digit_run_value(s: Seq<u8>, i: int, acc: int) -> int
    decreases s.len() - i,
{
    if 0 <= i < s.len() && 48 <= s[i] <= 57 {
        digit_run_value(s, i + 1, acc * 10 + (s[i] - 48))
    } else {
        acc
    }
}

/// Every `m=`, `t=` or `p=` in the UTF-8 bytes `s` of a stored hash is
/// followed by a number no larger than the cost limit.
pub open spec fn cost_params_bounded(s: Seq<u8>) -> bool {
    forall|i: int|
        0 <= i && i + 2 <= s.len() && (s[i] == 109u8 || s[i] == 116u8 || s[i] == 112u8)
            && s[i + 1] == 61u8 ==> #[trigger] digit_run_value(s, i + 2, 0) <= MAX_COST_PARAM
}

proof fn lemma_digit_run_grows(s: Seq<u8>, i: int, acc: int)
    requires
        acc >= 0,
    ensures
        digit_run_value(s, i, acc) >= acc,
    decreases s.len() - i,
{
    if 0 <= i < s.len() && 48 <= s[i] <= 57 {
        lemma_digit_run_grows(s, i + 1, acc * 10 + (s[i] - 48));
    }
}

/// Whether the cost parameters of the stored hash `encoded` are within the
/// limit.
pub fn cost_params_within_limit(encoded: &str) -> (r: bool)
    ensures
        r == cost_params_bounded(encode_utf8(encoded@)),
{
    let b = encoded.as_bytes();
    let n = b.len();
    let mut i: usize = 0;
    while n >= 2 && i <= n - 2
        invariant
            i <= n,
            b@ == encode_utf8(encoded@),
            n == b@.len(),
            forall|k: int|
                0 <= k < i && k + 2 <= n && (b@[k] == 109u8 || b@[k] == 116u8 || b@[k] == 112u8)
                    && b@[k + 1] == 61u8 ==> #[trigger] digit_run_value(b@, k + 2, 0) <= MAX_COST_PARAM,
        decreases n - i,
    {
        if (b[i] == 109u8 || b[i] == 116u8 || b[i] == 112u8) && b[i + 1] == 61u8 {
            let mut j: usize = i + 2;
            let mut acc: u64 = 0;
            while j < n && 48u8 <= b[j] && b[j] <= 57u8
                invariant
                    i + 2 <= j <= n,
                    n == b@.len(),
                    b@ == encode_utf8(encoded@),
                    b@[i as int] == 109u8 || b@[i as int] == 116u8 || b@[i as int] == 112u8,
                    b@[i + 1] == 61u8,
                    acc <= MAX_COST_PARAM,
                    digit_run_value(b@, i + 2, 0) == digit_run_value(b@, j as int, acc as int),
                decreases n - j,
            {
                let ghost j0 = j as int;
                let ghost acc0 = acc as int;
                acc = acc * 10 + (b[j] - 48u8) as u64;
                j += 1;
                assert(digit_run_value(b@, j0, acc0) == digit_run_value(b@, j as int, acc as int));
                if acc > MAX_COST_PARAM {
                    proof {
                        lemma_digit_run_grows(b@, j as int, acc as int);
                        assert(digit_run_value(b@, i + 2, 0) > MAX_COST_PARAM);
                        assert(!cost_params_bounded(encode_utf8(encoded@)));
                    }
                    return false;
                }
            }
            assert(digit_run_value(b@, i + 2, 0) <= MAX_COST_PARAM);
        }
        i += 1;
    }
    true
}

/// A stored hash accepts `secret`: its cost parameters are within the limit
/// and argon2 verifies `secret` against it.
pub open spec fn stored_hash_accepts(hash: Seq<char>, secret: Seq<char>) -> bool {
    cost_params_bounded(encode_utf8(hash)) && argon2_accepts(hash, secret)
}

/// Relies on argon2's PasswordHash::new and PasswordVerifier::verify_password:
/// the stored encoding is parsed, the secret hashed again with the salt and
/// parameters found there, and the digests compared. Parameters within the
/// cost limit keep argon2's parameter checks free of overflow.
#[verifier::external_body]
fn secret_matches(encoded: &str, secret: &str) -> (r: bool)
    requires
        cost_params_bounded(encode_utf8(encoded@)),
    ensures
        r == argon2_accepts(encoded@, secret@),
{
    match argon2::PasswordHash::new(encoded) {
        Ok(parsed) => argon2::Argon2::default().verify_password(secret.as_bytes(), &parsed).is_ok(),
        Err(_) => false,
    }
}

/// Relies on argon2's PasswordHasher::hash_password (Argon2id with default
/// parameters) over a salt made by SaltString::encode_b64 from the 16 bytes of
/// `salt`: the PHC string it returns records the salt and parameters, so
/// verifying `secret` against it recomputes the same digest. Hashing fails
/// only for a secret over 2^32 - 1 bytes or a salt outside 8 to 64 bytes (the
/// salt here is 16), and the PHC string begins with its `$` separator. Its
/// only parameters are `v=19` and the defaults `m=19456,t=2,p=1`; the base64
/// salt and digest hold no `=`.
#[verifier::external_body]
fn hash_secret(secret: &str, salt: u128) -> (r: Option<String>)
    ensures
        r matches Some(h) ==> argon2_accepts(h@, secret@) && h@.len() > 0 && h@[0] == '$'
            && cost_params_bounded(encode_utf8(h@)),
        secret@.len() < 0x4000_0000 ==> r is Some,
{
    let salt = argon2::password_hash::SaltString::encode_b64(&salt.to_be_bytes()).ok()?;
    argon2::Argon2::default().hash_password(secret.as_bytes(), &salt).ok().map(|h| h.to_string())
}

/// A registered owner. The plaintext secret is not part of it: only its
/// salted hash is kept.
pub struct Identity {
    pub id: u128,
    /// Display name, arbitrary.
    pub name: String,
    /// PHC encoding of the salted Argon2 hash of the owner's secret.
    pub credential_hash: String,
    /// Milliseconds since the Unix epoch.
    pub created_at: i64,
}

/// Checks a presented secret against an owner's stored hash, if the owner is
/// known. Every refusal is the same `Unauthorized`.
pub fn check_credential(stored_hash: Option<&str>, presented: Option<&str>) -> (r: Result<
    (),
    AuthError,
>)
    ensures
        r == (if stored_hash matches Some(h) && presented matches Some(p) && stored_hash_accepts(
            h@,
            p@,
        ) {
            Ok::<(), AuthError>(())
        } else {
            Err::<(), AuthError>(AuthError::Unauthorized)
        }),
{
    match (stored_hash, presented) {
        (Some(h), Some(p)) => {
            if cost_params_within_limit(h) && secret_matches(h, p) {
                Ok(())
            } else {
                Err(AuthError::Unauthorized)
            }
        },
        _ => Err(AuthError::Unauthorized),
    }
}

/// Creates a new identity named `name` with a fresh identifier and a fresh
/// secret, and returns the secret in plain text beside it: this is the only
/// place the plaintext ever appears.
pub fn issue_credential(name: String) -> (r: Result<(Identity, String), RegisterError>)
    ensures
        match r {
            Ok((identity, secret)) => identity.name == name && stored_hash_accepts(
                identity.credential_hash@,
                secret@,
            ) && identity.credential_hash@ != secret@ && secret@.len() == 26 && 0
                <= identity.created_at <= MAX_INSTANT_MILLIS,
            Err(_) => false,
        },
{
    let id = fresh_id();
    let secret_id = fresh_id();
    let secret = text_of_id(secret_id);
    proof {
        lemma_id_text_starts_with_digit(secret_id);
    }
    let salt = fresh_id();
    match hash_secret(secret.as_str(), salt) {
        Some(credential_hash) => {
            let created_at = now_millis();
            Ok((Identity { id, name, credential_hash, created_at }, secret))
        },
        None => Err(RegisterError::HashFailure),
    }
}


/// No two identities of `s` share an identifier.
pub open spec fn ids_distinct(s: Seq<Identity>) -> bool {
    forall|i: int, j: int| 0 <= i < j < s.len() ==> s[i].id != s[j].id
}

/// Some identity of `s` has identifier `id`.
pub open spec fn is_registered(s: Seq<Identity>, id: u128) -> bool {
    exists|i: int| 0 <= i < s.len() && s[i].id == id
}

/// `secret` is accepted by the stored hash of the identity `id` of `s`.
pub open spec fn credential_valid(s: Seq<Identity>, id: u128, secret: Seq<char>) -> bool {
    exists|i: int| 0 <= i < s.len() && s[i].id == id && stored_hash_accepts(s[i].credential_hash@, secret)
}

/// What verifying `secret` for `id` against the identities `s` yields.
pub open spec fn verify_outcome(s: Seq<Identity>, id: u128, secret: Seq<char>) -> Result<(), AuthError> {
    if credential_valid(s, id, secret) {
        Ok(())
    } else {
        Err(AuthError::Unauthorized)
    }
}

/// `after` is `before` with one more identity, `id`, that `before` did not
/// hold.
pub open spec fn registration(before: Seq<Identity>, after: Seq<Identity>, id: u128) -> bool {
    &&& !is_registered(before, id)
    &&& after.len() == before.len() + 1
    &&& after.drop_last() == before
    &&& after.last().id == id
}

/// The registered identities, in order of registration.
pub struct Registry {
    identities: Vec<Identity>,
}

impl View for Registry {
    type V = Seq<Identity>;

    closed spec fn view(&self) -> Seq<Identity> {
        self.identities@
    }
}

impl Registry {
    /// Identifiers are unique.
    pub open spec fn wf(&self) -> bool {
        ids_distinct(self@)
    }

    pub fn new() -> (r: Registry)
        ensures
            r@ == Seq::<Identity>::empty(),
            r.wf(),
    {
        Registry { identities: Vec::new() }
    }

    /// The number of registered identities.
    pub fn len(&self) -> (r: usize)
        ensures
            r == self@.len(),
    {
        self.identities.len()
    }

    fn position(&self, id: u128) -> (r: Option<usize>)
        ensures
            match r {
                Some(i) => i < self@.len() && self@[i as int].id == id,
                None => !is_registered(self@, id),
            },
    {
        let mut i: usize = 0;
        while i < self.identities.len()
            invariant
                i <= self@.len(),
                forall|k: int| 0 <= k < i ==> self@[k].id != id,
            decreases self@.len() - i,
        {
            if self.identities[i].id == id {
                return Some(i);
            }
            i += 1;
        }
        None
    }

    /// The identity registered under `id`, if any.
    pub fn lookup(&self, id: u128) -> (r: Option<&Identity>)
        ensures
            match r {
                Some(x) => x.id == id && self@.contains(*x),
                None => !is_registered(self@, id),
            },
    {
        match self.position(id) {
            Some(i) => Some(&self.identities[i]),
            None => None,
        }
    }

    /// Adds an identity unless its identifier is already taken.
    pub fn enroll(&mut self, identity: Identity) -> (r: Result<(), RegisterError>)
        requires
            old(self).wf(),
        ensures
            final(self).wf(),
            is_registered(old(self)@, identity.id) ==> r == Err::<(), RegisterError>(
                RegisterError::IdCollision,
            ) && final(self)@ == old(self)@,
            !is_registered(old(self)@, identity.id) ==> r == Ok::<(), RegisterError>(()) 
                && final(self)@ == old(self)@.push(identity),
    {
        match self.position(identity.id) {
            Some(_) => Err(RegisterError::IdCollision),
            None => {
                self.identities.push(identity);
                Ok(())
            },
        }
    }

    /// Registers a new owner named `name` and hands back its identifier and
    /// its plaintext secret, which is kept nowhere.
    pub fn register(&mut self, name: String) -> (r: Result<(u128, String), RegisterError>)
        requires
            old(self).wf(),
        ensures
            final(self).wf(),
            match r {
                Ok((id, secret)) => registration(old(self)@, final(self)@, id)
                    && final(self)@.last().name == name && stored_hash_accepts(
                    final(self)@.last().credential_hash@,
                    secret@,
                ) && final(self)@.last().credential_hash@ != secret@ && 0
                    <= final(self)@.last().created_at <= MAX_INSTANT_MILLIS,
                Err(e) => e == RegisterError::IdCollision && final(self)@ == old(self)@,
            },
    {
        let (identity, secret) = match issue_credential(name) {
            Ok(issued) => issued,
            Err(e) => return Err(e),
        };
        let id = identity.id;
        let ghost before = self@;
        match self.enroll(identity) {
            Ok(()) => {
                assert(self@.drop_last() =~= before);
                Ok((id, secret))
            },
            Err(e) => Err(e),
        }
    }

    /// Verifies a presented secret for `id`; every refusal is the same
    /// `Unauthorized`.
    pub fn verify(&self, id: u128, secret: &str) -> (r: Result<(), AuthError>)
        requires
            self.wf(),
        ensures
            r == verify_outcome(self@, id, secret@),
    {
        match self.position(id) {
            Some(i) => {
                let r = check_credential(Some(self.identities[i].credential_hash.as_str()), Some(secret));
                assert(credential_valid(self@, id, secret@) <==> stored_hash_accepts(
                    self@[i as int].credential_hash@,
                    secret@,
                ));
                r
            },
            None => Err(AuthError::Unauthorized),
        }
    }
}

/// Identifiers never repeat: an identifier registered at some point differs
/// from the one any later registration returns.
pub proof fn lemma_ids_never_repeat(
    earlier: Seq<Identity>,
    before: Seq<Identity>,
    after: Seq<Identity>,
    first: u128,
    second: u128,
)
    requires
        is_registered(earlier, first),
        earlier.len() <= before.len(),
        before.take(earlier.len() as int) == earlier,
        registration(before, after, second),
    ensures
        first != second,
{
    let i = choose|i: int| 0 <= i < earlier.len() && earlier[i].id == first;
    assert(before[i] == earlier[i]);
}

/// A registration keeps the registry's identifiers unique.
pub proof fn lemma_registration_keeps_ids_distinct(before: Seq<Identity>, after: Seq<Identity>, id: u128)
    requires
        ids_distinct(before),
        registration(before, after, id),
    ensures
        ids_distinct(after),
{
    assert forall|i: int, j: int| 0 <= i < j < after.len() implies after[i].id != after[j].id by {
        if j == after.len() - 1 {
            assert(before[i] == after[i]);
        } else {
            assert(before[i] == after[i] && before[j] == after[j]);
        }
    }
}

/// The secret handed out by a registration verifies for its identifier, then
/// and after any number of later registrations.
pub proof fn lemma_issued_secret_verifies(
    before: Seq<Identity>,
    after: Seq<Identity>,
    later: Seq<Identity>,
    id: u128,
    secret: Seq<char>,
)
    requires
        registration(before, after, id),
        stored_hash_accepts(after.last().credential_hash@, secret),
        after.len() <= later.len(),
        later.take(after.len() as int) == after,
    ensures
        verify_outcome(after, id, secret) == Ok::<(), AuthError>(()),
        verify_outcome(later, id, secret) == Ok::<(), AuthError>(()),
{
    let k = after.len() - 1;
    assert(after[k] == after.last());
    assert(later[k] == after[k]);
}

/// Verification succeeds only for a secret that the owner's stored hash
/// accepts.
pub proof fn lemma_verify_needs_stored_hash(s: Seq<Identity>, id: u128, secret: Seq<char>)
    requires
        ids_distinct(s),
        verify_outcome(s, id, secret) == Ok::<(), AuthError>(()),
    ensures
        exists|i: int|
            0 <= i < s.len() && s[i].id == id && stored_hash_accepts(s[i].credential_hash@, secret),
        forall|i: int| 0 <= i < s.len() && s[i].id == id ==> stored_hash_accepts(s[i].credential_hash@, secret),
{
    let w = choose|i: int|
        0 <= i < s.len() && s[i].id == id && stored_hash_accepts(s[i].credential_hash@, secret);
    assert forall|i: int| 0 <= i < s.len() && s[i].id == id implies stored_hash_accepts(
        s[i].credential_hash@,
        secret,
    ) by {
        if i != w {
            if i < w {
                assert(s[i].id != s[w].id);
            } else {
                assert(s[w].id != s[i].id);
            }
        }
    }
}

/// An unknown owner and a known owner with a wrong secret are refused with
/// the very same error.
pub proof fn lemma_refusals_alike(
    s: Seq<Identity>,
    unknown: u128,
    any_secret: Seq<char>,
    known: u128,
    wrong_secret: Seq<char>,
)
    requires
        !is_registered(s, unknown),
        is_registered(s, known),
        !credential_valid(s, known, wrong_secret),
    ensures
        verify_outcome(s, unknown, any_secret) == verify_outcome(s, known, wrong_secret),
        verify_outcome(s, unknown, any_secret) == Err::<(), AuthError>(AuthError::Unauthorized),
{
}

} // verus!
