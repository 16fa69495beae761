//! The threaded store abstraction: a keyed persistent store shared by all
//! request handlers. A backend files each `(path, key)` composite under a
//! single flat byte key derived so that distinct composites never collide,
//! and answers `get` / `upsert` / `delete` with the map semantics stated on
//! the trait. A backend that keeps its contents locally (the in-memory one)
//! models them exactly; a networked backend promises only what a remote
//! round trip can.

use crate::codec::{enc_str, str_encodable, Codec};
use vstd::prelude::*;
use vstd::utf8::{decode_utf8, encode_utf8};

verus! {

/// Store-level faults.
#[derive(Debug, Clone, Copy, PartialEq, Eq, Structural)]
pub enum BannerError {
    /// An entity would have serialized to the reserved sentinel.
    FailedToSerialize,
    /// Bytes read from the backend do not decode to the entity.
    FailedToDeserialize,
    /// The backend refused or lost a write.
    FailedToWriteToStore,
    /// The backend could not be read.
    FailedToReadFromStore,
}

/// The flat key a backend files a `(path, key)` composite under: the
/// length-prefixed path, then the key's bytes. The length prefix makes the
/// derivation injective, so two distinct composites never collide.
pub open spec fn spec_flat_key(path: Seq<char>, key: Seq<char>) -> Seq<u8> {
    enc_str(path) + encode_utf8(key)
}

/// Distinct `(path, key)` composites derive distinct flat keys.
pub proof fn lemma_flat_key_injective(p1: Seq<char>, k1: Seq<char>, p2: Seq<char>, k2: Seq<char>)
    requires
        str_encodable(p1),
        str_encodable(p2),
        spec_flat_key(p1, k1) == spec_flat_key(p2, k2),
    ensures
        p1 == p2,
        k1 == k2,
{
    broadcast use vstd::utf8::encode_utf8_decode_utf8;

    let s = spec_flat_key(p1, k1);
    assert(s.subrange(0, enc_str(p1).len() as int) =~= enc_str(p1));
    assert(s.subrange(0, enc_str(p2).len() as int) =~= enc_str(p2));
    crate::codec::lemma_parse_str_at(s, 0, p1);
    crate::codec::lemma_parse_str_at(s, 0, p2);
    assert(p1 == p2);
    assert(encode_utf8(k1) =~= encode_utf8(k2)) by {
        assert(enc_str(p1).len() == enc_str(p2).len());
        assert(forall|i: int|
            0 <= i < encode_utf8(k1).len() ==> encode_utf8(k1)[i] == s[enc_str(p1).len() + i]
                && encode_utf8(k2)[i] == s[enc_str(p1).len() + i]);
    }
    assert(decode_utf8(encode_utf8(k1)) == k1);
    assert(decode_utf8(encode_utf8(k2)) == k2);
}

/// Computes the flat key of a `(path, key)` composite.
pub fn flat_key(path: &str, key: &str) -> (r: Vec<u8>)
    ensures
        r@ == spec_flat_key(path@, key@),
        str_encodable(path@),
{
    let mut out: Vec<u8> = Vec::new();
    crate::codec::push_str_field(&mut out, path);
    let bytes = key.as_bytes();
    let mut i: usize = 0;
    while i < bytes.len()
        invariant
            i <= bytes.len(),
            bytes@ == encode_utf8(key@),
            out@ == enc_str(path@) + bytes@.subrange(0, i as int),
        decreases bytes.len() - i,
    {
        out.push(bytes[i]);
        assert(out@ =~= enc_str(path@) + bytes@.subrange(0, i + 1));
        i = i + 1;
    }
    assert(out@ =~= spec_flat_key(path@, key@));
    out
}

/// Byte-wise equality of two byte strings.
pub fn bytes_eq(a: &[u8], b: &[u8]) -> (r: bool)
    ensures
        r == (a@ == b@),
{
    if a.len() != b.len() {
        return false;
    }
    let mut i: usize = 0;
    while i < a.len()
        invariant
            i <= a@.len(),
            a@.len() == b@.len(),
            forall|k: int| 0 <= k < i ==> a@[k] == b@[k],
        decreases a.len() - i,
    {
        if a[i] != b[i] {
            return false;
        }
        i = i + 1;
    }
    proof {
        assert(a@ =~= b@);
    }
    true
}

/// A generic contract over a keyed persistent store, safe to share across
/// concurrent request handlers: each call is one self-contained operation on
/// the backend, and no caller-side locking is assumed.
pub trait ThreadedStore<V: Codec>: Sized {
    /// The entries the backend holds, as a map from flat key to entity view.
    spec fn contents(&self) -> Map<Seq<u8>, V::V>;

    /// Whether `contents` is an exact local model of the backend. True of
    /// the in-memory store; false of a networked backend, whose remote state
    /// this process cannot pin down.
    spec fn models_contents(&self) -> bool;

    /// Returns the entry at the composite, or nothing when absent. Takes the
    /// receiver mutably because a networked backend drives a connection; a
    /// modelled backend is left exactly as it was.
    fn get(&mut self, path: &str, key: &str) -> (r: Result<Option<V>, BannerError>)
        ensures
            old(self).models_contents() ==> *final(self) == *old(self) && (match r {
                Ok(Some(v)) => old(self).contents().contains_key(spec_flat_key(path@, key@))
                    && v@ == old(self).contents()[spec_flat_key(path@, key@)],
                Ok(None) => !old(self).contents().contains_key(spec_flat_key(path@, key@)),
                Err(_) => false,
            }),
    ;

    /// Writes or overwrites the entry at the composite. Idempotent: the
    /// resulting contents depend only on the final value written.
    fn upsert(&mut self, path: &str, key: &str, value: &V) -> (r: Result<(), BannerError>)
        ensures
            old(self).models_contents() ==> final(self).models_contents() && r is Ok
                && final(self).contents() == old(self).contents().insert(
                spec_flat_key(path@, key@),
                value@,
            ),
    ;

    /// Removes the entry at the composite and returns its prior value;
    /// removing an absent composite is not an error.
    fn delete(&mut self, path: &str, key: &str) -> (r: Result<Option<V>, BannerError>)
        ensures
            old(self).models_contents() ==> final(self).models_contents() && ({
                let fk = spec_flat_key(path@, key@);
                match r {
                    Ok(Some(v)) => old(self).contents().contains_key(fk)
                        && v@ == old(self).contents()[fk]
                        && final(self).contents() == old(self).contents().remove(fk),
                    Ok(None) => !old(self).contents().contains_key(fk) && final(self).contents()
                        == old(self).contents(),
                    Err(_) => false,
                }
            }),
    ;
}

/// Law: upserts are idempotent — writing the same value at the same
/// composite twice leaves the store exactly as one write does.
pub proof fn lemma_upsert_idempotent<T>(m: Map<Seq<u8>, T>, fk: Seq<u8>, v: T)
    ensures
        m.insert(fk, v).insert(fk, v) == m.insert(fk, v),
{
    assert(m.insert(fk, v).insert(fk, v) =~= m.insert(fk, v));
}

} // verus!
