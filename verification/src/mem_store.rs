//! The in-memory backend: an association list of flat keys and entities,
//! verified to give [`ThreadedStore`]'s map semantics exactly. Reads hand the
//! caller a fresh entity by re-encoding and decoding the stored one through
//! the entity codec — the same canonical bytes a persistent backend would
//! round trip.

use crate::codec::Codec;
use crate::store::{bytes_eq, flat_key, BannerError, ThreadedStore};
use vstd::pervasive::VecAdditionalExecFns;
use vstd::prelude::*;

verus! {

/// The entries of an association list, read as a map from flat key to view.
pub open spec fn assoc_view<V: Codec>(s: Seq<(Vec<u8>, V)>) -> Map<Seq<u8>, V::V>
    decreases s.len(),
{
    if s.len() == 0 {
        Map::empty()
    } else {
        assoc_view(s.drop_last()).insert(s.last().0@, s.last().1@)
    }
}

/// Whether the list's keys are pairwise distinct.
pub open spec fn assoc_wf<V: Codec>(s: Seq<(Vec<u8>, V)>) -> bool {
    forall|i: int, j: int| 0 <= i < j < s.len() ==> #[trigger] s[i].0@ != #[trigger] s[j].0@
}

/// A key is in the map exactly when some entry holds it.
pub proof fn lemma_assoc_contains<V: Codec>(s: Seq<(Vec<u8>, V)>, k: Seq<u8>)
    ensures
        assoc_view(s).contains_key(k) <==> exists|i: int| 0 <= i < s.len() && (#[trigger] s[i]).0@
            == k,
    decreases s.len(),
{
    if s.len() > 0 {
        lemma_assoc_contains(s.drop_last(), k);
        if s.last().0@ == k {
            assert(s[s.len() - 1].0@ == k);
        } else if assoc_view(s).contains_key(k) {
            let i = choose|i: int| 0 <= i < s.drop_last().len() && (#[trigger] s.drop_last()[i]).0@
                == k;
            assert(s[i].0@ == k);
        } else {
            assert(forall|i: int|
                0 <= i < s.len() - 1 ==> (#[trigger] s[i]).0@ == s.drop_last()[i].0@);
        }
    }
}

/// In a well-formed list, the map's value at an entry's key is that entry's.
pub proof fn lemma_assoc_at<V: Codec>(s: Seq<(Vec<u8>, V)>, i: int)
    requires
        assoc_wf(s),
        0 <= i < s.len(),
    ensures
        assoc_view(s).contains_key(s[i].0@),
        assoc_view(s)[s[i].0@] == s[i].1@,
    decreases s.len(),
{
    if i == s.len() - 1 {
    } else {
        assert(forall|a: int, b: int|
            0 <= a < b < s.len() - 1 ==> (#[trigger] s.drop_last()[a]).0@ != (
            #[trigger] s.drop_last()[b]).0@) by {
            assert(forall|a: int|
                0 <= a < s.len() - 1 ==> (#[trigger] s.drop_last()[a]).0@ == s[a].0@);
        }
        lemma_assoc_at(s.drop_last(), i);
        assert(s[i].0@ != s.last().0@);
    }
}

/// Replacing the entry at `i` updates the map at that entry's key.
pub proof fn lemma_assoc_update<V: Codec>(s: Seq<(Vec<u8>, V)>, i: int, p: (Vec<u8>, V))
    requires
        assoc_wf(s),
        0 <= i < s.len(),
        p.0@ == s[i].0@,
    ensures
        assoc_view(s.update(i, p)) == assoc_view(s).insert(p.0@, p.1@),
        assoc_wf(s.update(i, p)),
    decreases s.len(),
{
    let t = s.update(i, p);
    if i == s.len() - 1 {
        assert(t.drop_last() =~= s.drop_last());
        assert(t.last() == p);
        assert(assoc_view(t) =~= assoc_view(s).insert(p.0@, p.1@));
    } else {
        assert(forall|a: int, b: int|
            0 <= a < b < s.len() - 1 ==> (#[trigger] s.drop_last()[a]).0@ != (
            #[trigger] s.drop_last()[b]).0@) by {
            assert(forall|a: int|
                0 <= a < s.len() - 1 ==> (#[trigger] s.drop_last()[a]).0@ == s[a].0@);
        }
        lemma_assoc_update(s.drop_last(), i, p);
        assert(t.drop_last() =~= s.drop_last().update(i, p));
        assert(t.last() == s.last());
        assert(s[i].0@ != s.last().0@);
        assert(assoc_view(t) =~= assoc_view(s).insert(p.0@, p.1@));
    }
    assert(forall|a: int, b: int|
        0 <= a < b < t.len() ==> (#[trigger] t[a]).0@ != (#[trigger] t[b]).0@);
}

/// Removing the entry at `i` removes exactly that entry's key from the map.
pub proof fn lemma_assoc_remove<V: Codec>(s: Seq<(Vec<u8>, V)>, i: int)
    requires
        assoc_wf(s),
        0 <= i < s.len(),
    ensures
        assoc_view(s.remove(i)) == assoc_view(s).remove(s[i].0@),
        assoc_wf(s.remove(i)),
    decreases s.len(),
{
    let t = s.remove(i);
    lemma_assoc_contains(s.drop_last(), s.last().0@);
    if i == s.len() - 1 {
        assert(t =~= s.drop_last());
        assert(!assoc_view(s.drop_last()).contains_key(s.last().0@)) by {
            assert(forall|a: int|
                0 <= a < s.len() - 1 ==> (#[trigger] s.drop_last()[a]).0@ == s[a].0@);
        }
        assert(assoc_view(t) =~= assoc_view(s).remove(s[i].0@));
    } else {
        assert(forall|a: int, b: int|
            0 <= a < b < s.len() - 1 ==> (#[trigger] s.drop_last()[a]).0@ != (
            #[trigger] s.drop_last()[b]).0@) by {
            assert(forall|a: int|
                0 <= a < s.len() - 1 ==> (#[trigger] s.drop_last()[a]).0@ == s[a].0@);
        }
        lemma_assoc_remove(s.drop_last(), i);
        assert(t.drop_last() =~= s.drop_last().remove(i));
        assert(t.last() == s.last());
        assert(s[i].0@ != s.last().0@);
        assert(assoc_view(t) =~= assoc_view(s).remove(s[i].0@));
    }
    assert(forall|a: int, b: int|
        0 <= a < b < t.len() ==> (#[trigger] t[a]).0@ != (#[trigger] t[b]).0@) by {
        assert(forall|a: int|
            0 <= a < t.len() ==> (#[trigger] t[a]).0@ == (if a < i {
                s[a].0@
            } else {
                s[a + 1].0@
            }));
    }
}

/// Appending a fresh key inserts it into the map.
pub proof fn lemma_assoc_push<V: Codec>(s: Seq<(Vec<u8>, V)>, p: (Vec<u8>, V))
    requires
        assoc_wf(s),
        forall|i: int| 0 <= i < s.len() ==> (#[trigger] s[i]).0@ != p.0@,
    ensures
        assoc_view(s.push(p)) == assoc_view(s).insert(p.0@, p.1@),
        assoc_wf(s.push(p)),
{
    assert(s.push(p).drop_last() =~= s);
    assert(s.push(p).last() == p);
    assert(forall|a: int, b: int|
        0 <= a < b < s.push(p).len() ==> (#[trigger] s.push(p)[a]).0@ != (
        #[trigger] s.push(p)[b]).0@);
}

/// The in-memory store: one entry per flat key, keys pairwise distinct.
pub struct MemStore<V> {
    entries: Vec<(Vec<u8>, V)>,
}

impl<V: Codec> MemStore<V> {
    /// Distinct keys, so the association list reads as a map.
    pub closed spec fn wf(&self) -> bool {
        assoc_wf(self.entries@)
    }

    pub fn new() -> (r: MemStore<V>)
        ensures
            r.models_contents(),
            r.contents() == Map::<Seq<u8>, V::V>::empty(),
    {
        let r = MemStore { entries: Vec::new() };
        proof {
            assert(r.entries@.len() == 0);
        }
        r
    }

    /// Index of the entry holding `k`, if any.
    fn find(&self, k: &[u8]) -> (r: Option<usize>)
        ensures
            r matches Some(i) ==> i < self.entries@.len() && self.entries@[i as int].0@ == k@,
            r is None ==> forall|i: int|
                0 <= i < self.entries@.len() ==> (#[trigger] self.entries@[i]).0@ != k@,
    {
        let mut i: usize = 0;
        while i < self.entries.len()
            invariant
                i <= self.entries@.len(),
                forall|j: int| 0 <= j < i ==> (#[trigger] self.entries@[j]).0@ != k@,
            decreases self.entries.len() - i,
        {
            if bytes_eq(self.entries[i].0.as_slice(), k) {
                return Some(i);
            }
            i = i + 1;
        }
        None
    }
}

impl<V: Codec> ThreadedStore<V> for MemStore<V> {
    closed spec fn contents(&self) -> Map<Seq<u8>, V::V> {
        assoc_view(self.entries@)
    }

    closed spec fn models_contents(&self) -> bool {
        self.wf()
    }

    fn get(&mut self, path: &str, key: &str) -> (r: Result<Option<V>, BannerError>) {
        let fk = flat_key(path, key);
        match self.find(fk.as_slice()) {
            None => {
                proof {
                    if self.models_contents() {
                        lemma_assoc_contains(self.entries@, fk@);
                    }
                }
                Ok(None)
            },
            Some(i) => {
                proof {
                    if self.models_contents() {
                        lemma_assoc_at(self.entries@, i as int);
                    }
                }
                let stored = &self.entries[i].1;
                let bytes = stored.encode();
                proof {
                    V::lemma_round_trip(stored@);
                }
                match V::decode(bytes.as_slice()) {
                    Ok(v) => Ok(Some(v)),
                    Err(_) => Err(BannerError::FailedToDeserialize),
                }
            },
        }
    }

    fn upsert(&mut self, path: &str, key: &str, value: &V) -> (r: Result<(), BannerError>) {
        let fk = flat_key(path, key);
        let bytes = value.encode();
        proof {
            V::lemma_round_trip(value@);
        }
        let fresh = match V::decode(bytes.as_slice()) {
            Ok(v) => v,
            Err(_) => {
                return Err(BannerError::FailedToSerialize);
            },
        };
        match self.find(fk.as_slice()) {
            Some(i) => {
                proof {
                    if old(self).models_contents() {
                        lemma_assoc_update(self.entries@, i as int, (fk, fresh));
                    }
                }
                self.entries.set(i, (fk, fresh));
                Ok(())
            },
            None => {
                proof {
                    if old(self).models_contents() {
                        lemma_assoc_push(self.entries@, (fk, fresh));
                    }
                }
                self.entries.push((fk, fresh));
                Ok(())
            },
        }
    }

    fn delete(&mut self, path: &str, key: &str) -> (r: Result<Option<V>, BannerError>) {
        let fk = flat_key(path, key);
        match self.find(fk.as_slice()) {
            None => {
                proof {
                    if old(self).models_contents() {
                        lemma_assoc_contains(self.entries@, fk@);
                    }
                }
                Ok(None)
            },
            Some(i) => {
                proof {
                    if old(self).models_contents() {
                        lemma_assoc_at(self.entries@, i as int);
                        lemma_assoc_remove(self.entries@, i as int);
                    }
                }
                let prior = self.entries.remove(i);
                let bytes = prior.1.encode();
                proof {
                    V::lemma_round_trip(prior.1@);
                }
                match V::decode(bytes.as_slice()) {
                    Ok(v) => Ok(Some(v)),
                    Err(_) => Err(BannerError::FailedToDeserialize),
                }
            },
        }
    }
}

} // verus!
