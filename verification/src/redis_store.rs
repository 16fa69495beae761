//! The networked backend: every [`ThreadedStore`] call is one redis round
//! trip on the flat key. What the remote server holds cannot be modelled
//! locally, so this backend's `contents` model is switched off and its
//! verified work is at the edges: the flat-key derivation, the sentinel
//! check before any write, and decoding whatever bytes come back — a read
//! only ever hands out an entity whose bytes decode canonically.

use crate::codec::{sentinel, Codec, DecodeError};
use crate::store::{bytes_eq, flat_key, BannerError, ThreadedStore};
use vstd::prelude::*;

verus! {

#[verifier::external_type_specification]
#[verifier::external_body]
pub struct ExConnection(redis::Connection);

#[verifier::external_type_specification]
#[verifier::external_body]
pub struct ExRedisError(redis::RedisError);

/// Relies on redis's `GET`: one round trip; `None` when the key is absent
/// on the server. Nothing is assumed of the bytes a remote server returns.
#[verifier::external_body]
fn raw_get(con: &mut redis::Connection, key: &[u8]) -> Result<Option<Vec<u8>>, redis::RedisError> {
    redis::Commands::get(con, key)
}

/// Relies on redis's `SET`: one round trip writing the value verbatim.
#[verifier::external_body]
fn raw_set(con: &mut redis::Connection, key: &[u8], value: &[u8]) -> Result<
    (),
    redis::RedisError,
> {
    redis::Commands::set(con, key, value)
}

/// Relies on redis's `GETDEL`: one round trip removing the key and handing
/// back what it held, `None` when it was absent.
#[verifier::external_body]
fn raw_get_del(con: &mut redis::Connection, key: &[u8]) -> Result<
    Option<Vec<u8>>,
    redis::RedisError,
> {
    redis::Commands::get_del(con, key)
}

/// A store backed by one redis connection; entities travel as their
/// canonical encodings.
pub struct RedisStore<V> {
    con: redis::Connection,
    entity: core::marker::PhantomData<V>,
}

impl<V: Codec> RedisStore<V> {
    /// Wraps an established connection. Opening the connection is I/O and
    /// stays with the caller.
    pub fn new(con: redis::Connection) -> RedisStore<V> {
        RedisStore { con: con, entity: core::marker::PhantomData }
    }

    /// Whether these bytes are the reserved failure sentinel that must never
    /// be written as an entity.
    pub fn is_sentinel(bytes: &[u8]) -> (r: bool)
        ensures
            r == (bytes@ == sentinel()),
    {
        let mut f: Vec<u8> = Vec::new();
        f.push(102);
        f.push(97);
        f.push(105);
        f.push(108);
        proof {
            assert(f@ =~= sentinel());
        }
        bytes_eq(bytes, f.as_slice())
    }
}

impl<V: Codec> ThreadedStore<V> for RedisStore<V> {
    /// A networked backend has no local model of the server's state.
    open spec fn contents(&self) -> Map<Seq<u8>, V::V> {
        Map::empty()
    }

    open spec fn models_contents(&self) -> bool {
        false
    }

    /// Whatever bytes the server returns, an entity handed out decodes
    /// canonically from some byte string.
    fn get(&mut self, path: &str, key: &str) -> (r: Result<Option<V>, BannerError>)
        ensures
            match r {
                Ok(Some(v)) => exists|s: Seq<u8>| V::spec_decode(s) == Ok::<V::V, DecodeError>(
                    v@,
                ),
                _ => true,
            },
    {
        let fk = flat_key(path, key);
        match raw_get(&mut self.con, fk.as_slice()) {
            Ok(None) => Ok(None),
            Ok(Some(bytes)) => match V::decode(bytes.as_slice()) {
                Ok(v) => {
                    proof {
                        assert(exists|s: Seq<u8>| V::spec_decode(s) == Ok::<V::V, DecodeError>(
                            v@,
                        )) by {
                            assert(V::spec_decode(bytes@) == Ok::<V::V, DecodeError>(v@));
                        }
                    }
                    Ok(Some(v))
                },
                Err(_) => Err(BannerError::FailedToDeserialize),
            },
            Err(_) => Err(BannerError::FailedToReadFromStore),
        }
    }

    /// The sentinel check never fires: no entity encodes to the sentinel,
    /// so a serialization failure is never reported and no corrupt write is
    /// ever issued.
    fn upsert(&mut self, path: &str, key: &str, value: &V) -> (r: Result<(), BannerError>)
        ensures
            r != Err::<(), BannerError>(BannerError::FailedToSerialize),
    {
        let fk = flat_key(path, key);
        let bytes = value.encode();
        proof {
            V::lemma_not_sentinel(value@);
        }
        if RedisStore::<V>::is_sentinel(bytes.as_slice()) {
            return Err(BannerError::FailedToSerialize);
        }
        match raw_set(&mut self.con, fk.as_slice(), bytes.as_slice()) {
            Ok(()) => Ok(()),
            Err(_) => Err(BannerError::FailedToWriteToStore),
        }
    }

    /// As with `get`: a prior value handed back decodes canonically.
    fn delete(&mut self, path: &str, key: &str) -> (r: Result<Option<V>, BannerError>)
        ensures
            match r {
                Ok(Some(v)) => exists|s: Seq<u8>| V::spec_decode(s) == Ok::<V::V, DecodeError>(
                    v@,
                ),
                _ => true,
            },
    {
        let fk = flat_key(path, key);
        match raw_get_del(&mut self.con, fk.as_slice()) {
            Ok(None) => Ok(None),
            Ok(Some(bytes)) => match V::decode(bytes.as_slice()) {
                Ok(v) => {
                    proof {
                        assert(exists|s: Seq<u8>| V::spec_decode(s) == Ok::<V::V, DecodeError>(
                            v@,
                        )) by {
                            assert(V::spec_decode(bytes@) == Ok::<V::V, DecodeError>(v@));
                        }
                    }
                    Ok(Some(v))
                },
                Err(_) => Err(BannerError::FailedToDeserialize),
            },
            Err(_) => Err(BannerError::FailedToReadFromStore),
        }
    }
}

} // verus!
