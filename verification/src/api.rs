//! The flag access protocol: the create / read / update / delete state
//! transitions applied through a [`ThreadedStore`]. Each operation's
//! contract states, against a backend that models its contents, exactly
//! which composites succeed, which error comes back otherwise, and what the
//! store holds afterwards.

use crate::flag::{Flag, FlagPath, FlagPathView, FlagView, spec_scope_path};
use crate::store::{spec_flat_key, ThreadedStore};
use vstd::prelude::*;

verus! {

/// The discriminated outward failures of the protocol.
#[derive(Debug, Clone, Copy, PartialEq, Eq, Structural)]
pub enum ApiError {
    /// The request's path or key identifiers are missing or malformed.
    FailedToParseParams,
    /// The request's entity payload does not decode.
    FailedToParseBody,
    /// The read / update / delete target is absent.
    FailedToFind,
    /// The create target is already present.
    AlreadyExists,
    /// The backend failed the operation.
    FailedToWriteToStore,
    /// The response entity could not be serialized.
    FailedToSerialize,
}

/// The identifiers of one inbound flag operation: the scope, and the flag
/// key when the operation names one.
pub struct FlagReq {
    pub path: FlagPath,
    pub key: Option<String>,
}

impl FlagReq {
    /// Builds the request identifiers from extracted parameters: both `app`
    /// and `env` are required, the key is optional.
    pub fn from_parts(app: Option<&str>, env: Option<&str>, key: Option<&str>) -> (r: Result<
        FlagReq,
        ApiError,
    >)
        ensures
            match r {
                Ok(req) => app is Some && env is Some && req.path@ == (FlagPathView {
                    app: app->0@,
                    env: env->0@,
                }) && (match key {
                    Some(k) => req.key matches Some(s) && s@ == k@,
                    None => req.key is None,
                }),
                Err(e) => e == ApiError::FailedToParseParams && (app is None || env is None),
            },
    {
        match (app, env) {
            (Some(a), Some(e)) => Ok(
                FlagReq {
                    path: FlagPath::new(a, e),
                    key: match key {
                        Some(k) => Some(k.to_owned()),
                        None => None,
                    },
                },
            ),
            _ => Err(ApiError::FailedToParseParams),
        }
    }
}

/// The flat key under which a flag of scope `p` with key `key` is stored.
pub open spec fn flag_store_key(p: FlagPathView, key: Seq<char>) -> Seq<u8> {
    spec_flat_key(spec_scope_path(p.app, p.env), key)
}

/// Reads the flag at `(path, key)`: the stored flag unchanged, or
/// `FailedToFind` when the composite is absent.
pub fn read<S: ThreadedStore<Flag>>(store: &mut S, path: &FlagPath, key: &str) -> (r: Result<
    Flag,
    ApiError,
>)
    ensures
        old(store).models_contents() ==> *final(store) == *old(store) && ({
            let fk = flag_store_key(path@, key@);
            match r {
                Ok(f) => old(store).contents().contains_key(fk) && f@ == old(store).contents()[fk],
                Err(e) => e == ApiError::FailedToFind && !old(store).contents().contains_key(fk),
            }
        }),
{
    let p = path.path();
    match store.get(p.as_str(), key) {
        Ok(Some(f)) => Ok(f),
        _ => Err(ApiError::FailedToFind),
    }
}

/// Creates the flag at its own `(path, key)` composite: first-writer-wins.
/// At an absent composite the flag is stored verbatim; at a present one the
/// create fails with `AlreadyExists` and the stored value is untouched.
pub fn create<S: ThreadedStore<Flag>>(store: &mut S, path: &FlagPath, flag: &Flag) -> (r: Result<
    (),
    ApiError,
>)
    ensures
        old(store).models_contents() ==> final(store).models_contents() && ({
            let fk = flag_store_key(path@, flag@.key);
            match r {
                Ok(()) => !old(store).contents().contains_key(fk) && final(store).contents()
                    == old(store).contents().insert(fk, flag@),
                Err(e) => e == ApiError::AlreadyExists && old(store).contents().contains_key(fk)
                    && final(store).contents() == old(store).contents(),
            }
        }),
{
    let p = path.path();
    let exists = match store.get(p.as_str(), flag.key()) {
        Ok(Some(_)) => true,
        _ => false,
    };
    if exists {
        return Err(ApiError::AlreadyExists);
    }
    match store.upsert(p.as_str(), flag.key(), flag) {
        Ok(()) => Ok(()),
        Err(_) => Err(ApiError::FailedToWriteToStore),
    }
}

/// Updates the flag at `(path, key)`: only `value` and `enabled` are taken
/// from the incoming body; `key`, `app`, `env` and `version` stay those of
/// the stored flag. An absent composite fails with `FailedToFind`.
pub fn update<S: ThreadedStore<Flag>>(
    store: &mut S,
    path: &FlagPath,
    key: &str,
    body: &Flag,
) -> (r: Result<(), ApiError>)
    ensures
        old(store).models_contents() ==> final(store).models_contents() && ({
            let fk = flag_store_key(path@, key@);
            match r {
                Ok(()) => old(store).contents().contains_key(fk) && final(store).contents()
                    == old(store).contents().insert(
                    fk,
                    FlagView {
                        value: body@.value,
                        enabled: body@.enabled,
                        ..old(store).contents()[fk]
                    },
                ),
                Err(e) => e == ApiError::FailedToFind && !old(store).contents().contains_key(fk)
                    && final(store).contents() == old(store).contents(),
            }
        }),
{
    let p = path.path();
    let mut stored = match store.get(p.as_str(), key) {
        Ok(Some(f)) => f,
        _ => {
            return Err(ApiError::FailedToFind);
        },
    };
    stored.set_value(body.value());
    stored.toggle(body.is_enabled());
    match store.upsert(p.as_str(), key, &stored) {
        Ok(()) => Ok(()),
        Err(_) => Err(ApiError::FailedToWriteToStore),
    }
}

/// Deletes the flag at `(path, key)` and returns its last-stored state; an
/// absent composite fails with `FailedToFind` and changes nothing.
pub fn delete<S: ThreadedStore<Flag>>(store: &mut S, path: &FlagPath, key: &str) -> (r: Result<
    Flag,
    ApiError,
>)
    ensures
        old(store).models_contents() ==> final(store).models_contents() && ({
            let fk = flag_store_key(path@, key@);
            match r {
                Ok(f) => old(store).contents().contains_key(fk) && f@ == old(
                    store,
                ).contents()[fk] && final(store).contents() == old(store).contents().remove(fk),
                Err(e) => e == ApiError::FailedToFind && !old(store).contents().contains_key(fk)
                    && final(store).contents() == old(store).contents(),
            }
        }),
{
    let p = path.path();
    match store.delete(p.as_str(), key) {
        Ok(Some(f)) => Ok(f),
        Ok(None) => Err(ApiError::FailedToFind),
        Err(_) => Err(ApiError::FailedToWriteToStore),
    }
}

/// Law: a flag stored at an absent composite is exactly what a following
/// read of that composite returns, and a second create of the same
/// composite then finds it present with the original value unchanged.
pub proof fn lemma_create_then_read(m: Map<Seq<u8>, FlagView>, fk: Seq<u8>, f: FlagView)
    requires
        !m.contains_key(fk),
    ensures
        m.insert(fk, f).contains_key(fk),
        m.insert(fk, f)[fk] == f,
{
}

/// Law: after a delete of a composite, that composite is absent, so a
/// following read of it fails.
pub proof fn lemma_delete_then_read(m: Map<Seq<u8>, FlagView>, fk: Seq<u8>)
    ensures
        !m.remove(fk).contains_key(fk),
{
}

/// Law: storing or removing one composite leaves every other composite,
/// present or absent, exactly as it was.
pub proof fn lemma_ops_frame(m: Map<Seq<u8>, FlagView>, fk: Seq<u8>, f: FlagView, other: Seq<u8>)
    requires
        other != fk,
    ensures
        m.insert(fk, f).contains_key(other) == m.contains_key(other),
        m.contains_key(other) ==> m.insert(fk, f)[other] == m[other],
        m.remove(fk).contains_key(other) == m.contains_key(other),
        m.contains_key(other) ==> m.remove(fk)[other] == m[other],
{
}

} // verus!
