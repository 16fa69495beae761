//! User identities and the credential engine: a secret is never stored;
//! what is stored is a fixed-length digest derived by salted, iterated key
//! derivation, and verification re-derives and compares. The salt couples an
//! installation-wide static component with the user's own key, so the same
//! secret hashes differently for different users and installations.

use vstd::prelude::*;
use vstd::utf8::{decode_utf8, encode_utf8};

verus! {

/// Length in bytes of a credential digest (a 256-bit digest).
pub const CREDENTIAL_LEN: usize = 32;

/// A fixed-length one-way digest of a secret; never the secret itself.
pub type Credential = [u8; 32];

/// Iteration count of the key derivation. Deliberately low: a development
/// profile; a production deployment must calibrate it to current hardware.
pub const ITERATIONS: u32 = 5;

/// Inputs handed to the key-derivation call must stay well under the
/// underlying digest's input limit, which the call would refuse by panic.
pub const DERIVE_INPUT_LIMIT: u64 = 0x1000_0000_0000_0000;

/// The installation-wide static component of every salt.
pub open spec fn spec_static_salt() -> Seq<u8> {
    seq![
        0xd6u8, 0x26u8, 0x98u8, 0xdau8, 0xf4u8, 0xdcu8, 0x50u8, 0x52u8, 0x24u8, 0xf2u8, 0x27u8,
        0xd1u8, 0xfeu8, 0x39u8, 0x01u8, 0x8au8,
    ]
}

/// The salt of a user: the static component, then the key's UTF-8 bytes.
pub open spec fn spec_salt(key: Seq<char>) -> Seq<u8> {
    spec_static_salt() + encode_utf8(key)
}

/// The 32-byte digest that PBKDF2 over HMAC-SHA-256 derives from a salt and
/// a secret at the given iteration count. A function of its arguments alone.
pub uninterp spec fn pbkdf2_sha256(iterations: u32, salt: Seq<u8>, secret: Seq<u8>) -> Seq<u8>;

/// Whether a byte string is small enough to hand to the derivation call.
pub open spec fn derive_input_fits(s: Seq<u8>) -> bool {
    s.len() < DERIVE_INPUT_LIMIT
}

/// Relies on `ring::pbkdf2::derive` with `PBKDF2_HMAC_SHA256`: it fills the
/// output with the PBKDF2 digest of the salt and secret, a deterministic
/// function of its arguments; with oversized inputs or zero iterations left
/// out, it does not panic.
#[verifier::external_body]
fn pbkdf2_derive(iterations: u32, salt: &[u8], secret: &[u8]) -> (out: Credential)
    requires
        iterations >= 1,
        derive_input_fits(salt@),
        derive_input_fits(secret@),
    ensures
        out@ == pbkdf2_sha256(iterations, salt@, secret@),
{
    let mut out = [0u8; 32];
    let iter = core::num::NonZeroU32::new(iterations).unwrap();
    ring::pbkdf2::derive(ring::pbkdf2::PBKDF2_HMAC_SHA256, iter, salt, secret, &mut out);
    out
}

/// Relies on `ring::pbkdf2::verify` with `PBKDF2_HMAC_SHA256`: for a
/// 32-byte expected value it re-derives the digest and reports whether the
/// two are equal, comparing without an early exit on a differing byte.
#[verifier::external_body]
fn pbkdf2_verify(iterations: u32, salt: &[u8], secret: &[u8], expected: &Credential) -> (r: bool)
    requires
        iterations >= 1,
        derive_input_fits(salt@),
        derive_input_fits(secret@),
    ensures
        r == (expected@ == pbkdf2_sha256(iterations, salt@, secret@)),
{
    let iter = core::num::NonZeroU32::new(iterations).unwrap();
    ring::pbkdf2::verify(ring::pbkdf2::PBKDF2_HMAC_SHA256, iter, salt, secret, expected).is_ok()
}

/// The digest stored for a user with this key and secret.
pub open spec fn spec_generate_hash(key: Seq<char>, secret: Seq<char>) -> Seq<u8> {
    pbkdf2_sha256(ITERATIONS, spec_salt(key), encode_utf8(secret))
}

/// What verification decides: whether the expected digest is the one this
/// key and secret derive.
pub open spec fn spec_verify(key: Seq<char>, secret: Seq<char>, expected: Seq<u8>) -> bool {
    expected == spec_generate_hash(key, secret)
}

/// Whether a key and secret are small enough for the derivation call.
pub open spec fn credential_inputs_fit(key: Seq<char>, secret: Seq<char>) -> bool {
    encode_utf8(key).len() + 16 < DERIVE_INPUT_LIMIT && encode_utf8(secret).len()
        < DERIVE_INPUT_LIMIT
}

/// The mathematical model of a [`User`].
pub struct UserView {
    pub uuid: Seq<char>,
    pub key: Seq<char>,
    pub hash: Seq<u8>,
    pub is_admin: bool,
}

/// An identity record: a stable identifier, the login key, the stored
/// credential digest, and the administrator bit.
#[derive(Debug)]
pub struct User {
    pub uuid: String,
    pub key: String,
    pub hash: Credential,
    is_admin: bool,
}

impl View for User {
    type V = UserView;

    closed spec fn view(&self) -> UserView {
        UserView { uuid: self.uuid@, key: self.key@, hash: self.hash@, is_admin: self.is_admin }
    }
}

impl User {
    /// Provisions a user: the secret is digested once, with the salt of
    /// `key`, and only the digest is kept.
    pub fn new(uuid: String, key: String, secret: String, is_admin: bool) -> (r: User)
        requires
            credential_inputs_fit(key@, secret@),
        ensures
            r@ == (UserView {
                uuid: uuid@,
                key: key@,
                hash: spec_generate_hash(key@, secret@),
                is_admin: is_admin,
            }),
    {
        let hash = User::generate_hash(key.as_str(), secret.as_str());
        User { uuid: uuid, key: key, hash: hash, is_admin: is_admin }
    }

    /// Rehydrates a user from its stored fields, digest included; used when
    /// a record read back from the store is turned into a value again.
    pub fn from_parts(uuid: String, key: String, hash: Credential, is_admin: bool) -> (r: User)
        ensures
            r@ == (UserView { uuid: uuid@, key: key@, hash: hash@, is_admin: is_admin }),
    {
        User { uuid: uuid, key: key, hash: hash, is_admin: is_admin }
    }

    pub fn uuid(&self) -> (r: &str)
        ensures
            r@ == self@.uuid,
    {
        self.uuid.as_str()
    }

    pub fn key(&self) -> (r: &str)
        ensures
            r@ == self@.key,
    {
        self.key.as_str()
    }

    pub fn hash(&self) -> (r: &Credential)
        ensures
            r@ == self@.hash,
    {
        &self.hash
    }

    pub fn is_admin(&self) -> (r: bool)
        ensures
            r == self@.is_admin,
    {
        self.is_admin
    }

    /// Derives the credential digest for a key and secret.
    pub fn generate_hash(key: &str, secret: &str) -> (r: Credential)
        requires
            credential_inputs_fit(key@, secret@),
        ensures
            r@ == spec_generate_hash(key@, secret@),
    {
        let salt = User::salt(key);
        pbkdf2_derive(ITERATIONS, salt.as_slice(), secret.as_bytes())
    }

    /// Re-derives with this user's salt and compares against the stored
    /// digest, without an early exit on a differing byte.
    pub fn verify_secret(&self, secret: &str) -> (r: bool)
        requires
            credential_inputs_fit(self@.key, secret@),
        ensures
            r == spec_verify(self@.key, secret@, self@.hash),
    {
        let salt = User::salt(self.key.as_str());
        pbkdf2_verify(ITERATIONS, salt.as_slice(), secret.as_bytes(), &self.hash)
    }

    /// The salt has a user-specific component so one cracked secret does not
    /// open every account with the same secret, and an installation-specific
    /// component so the same user's secret differs across installations.
    pub fn salt(key: &str) -> (r: Vec<u8>)
        ensures
            r@ == spec_salt(key@),
    {
        let mut salt: Vec<u8> = Vec::new();
        salt.push(0xd6);
        salt.push(0x26);
        salt.push(0x98);
        salt.push(0xda);
        salt.push(0xf4);
        salt.push(0xdc);
        salt.push(0x50);
        salt.push(0x52);
        salt.push(0x24);
        salt.push(0xf2);
        salt.push(0x27);
        salt.push(0xd1);
        salt.push(0xfe);
        salt.push(0x39);
        salt.push(0x01);
        salt.push(0x8a);
        assert(salt@ =~= spec_static_salt());
        let bytes = key.as_bytes();
        let mut i: usize = 0;
        while i < bytes.len()
            invariant
                i <= bytes.len(),
                bytes@ == encode_utf8(key@),
                salt@ == spec_static_salt() + bytes@.subrange(0, i as int),
            decreases bytes.len() - i,
        {
            salt.push(bytes[i]);
            assert(salt@ =~= spec_static_salt() + bytes@.subrange(0, i + 1));
            i = i + 1;
        }
        assert(salt@ =~= spec_salt(key@));
        salt
    }
}

/// Law: a digest derived from a key and secret always verifies against that
/// same key and secret.
pub proof fn lemma_verify_of_derive(key: Seq<char>, secret: Seq<char>)
    ensures
        spec_verify(key, secret, spec_generate_hash(key, secret)),
{
}

/// Law: two distinct keys derive with distinct salts, whatever their
/// secrets. (That the resulting digests differ as well rests on the
/// derivation's collision resistance, which is beyond what is stated here.)
pub proof fn lemma_salt_injective(k1: Seq<char>, k2: Seq<char>)
    requires
        k1 != k2,
    ensures
        spec_salt(k1) != spec_salt(k2),
{
    broadcast use vstd::utf8::encode_utf8_decode_utf8;

    if spec_salt(k1) == spec_salt(k2) {
        assert(encode_utf8(k1) =~= encode_utf8(k2)) by {
            assert(spec_salt(k1).len() == spec_salt(k2).len());
            assert(forall|i: int|
                0 <= i < encode_utf8(k1).len() ==> encode_utf8(k1)[i] == spec_salt(k1)[16 + i]
                    && encode_utf8(k2)[i] == spec_salt(k2)[16 + i]);
        }
        assert(decode_utf8(encode_utf8(k1)) == k1);
        assert(decode_utf8(encode_utf8(k2)) == k2);
    }
}

} // verus!
