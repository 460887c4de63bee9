//! The tuning cache: which candidate won for each key, in memory and in the
//! persisted form that is checked against the hardware before it is trusted.
use vstd::prelude::*;

use crate::key::AutotuneKey;

verus! {

/// The decisions that a list of `(key, candidate index)` records makes, a
/// later record for a key replacing an earlier one.
pub open spec fn records_map(s: Seq<(AutotuneKey, usize)>) -> Map<AutotuneKey, usize>
    decreases s.len(),
{
    if s.len() == 0 {
        Map::empty()
    } else {
        records_map(s.drop_last()).insert(s.last().0, s.last().1)
    }
}

/// No key occurs twice.
pub open spec fn unique_keys(s: Seq<(AutotuneKey, usize)>) -> bool {
    forall|i: int, j: int| 0 <= i < j < s.len() ==> s[i].0 != s[j].0
}

proof fn lemma_records_map_dom(s: Seq<(AutotuneKey, usize)>, k: AutotuneKey)
    ensures
        records_map(s).dom().contains(k) <==> exists|i: int| 0 <= i < s.len() && s[i].0 == k,
    decreases s.len(),
{
    if s.len() > 0 {
        let init = s.drop_last();
        lemma_records_map_dom(init, k);
        if records_map(s).dom().contains(k) && k != s.last().0 {
            let i = choose|i: int| 0 <= i < init.len() && init[i].0 == k;
            assert(s[i].0 == k);
        }
        if exists|i: int| 0 <= i < s.len() && s[i].0 == k {
            let i = choose|i: int| 0 <= i < s.len() && s[i].0 == k;
            if i < s.len() - 1 {
                assert(init[i].0 == k);
            }
        }
    }
}

proof fn lemma_records_map_value(s: Seq<(AutotuneKey, usize)>, i: int)
    requires
        unique_keys(s),
        0 <= i < s.len(),
    ensures
        records_map(s).dom().contains(s[i].0),
        records_map(s)[s[i].0] == s[i].1,
    decreases s.len(),
{
    let init = s.drop_last();
    if i < s.len() - 1 {
        lemma_records_map_value(init, i);
        assert(init[i] == s[i]);
        assert(s.last().0 != s[i].0);
    }
}

/// Idempotence: after `put(key, index)` every lookup of `key` returns
/// `index`, and a second `put` of the same decision changes nothing.
pub proof fn lemma_put_idempotent(decisions: Map<AutotuneKey, usize>, key: AutotuneKey, index: usize)
    ensures
        decisions.insert(key, index).dom().contains(key),
        decisions.insert(key, index)[key] == index,
        decisions.insert(key, index).insert(key, index) == decisions.insert(key, index),
{
    assert(decisions.insert(key, index).insert(key, index) =~= decisions.insert(key, index));
}

/// A persisted tuning cache: the checksum of the hardware and driver that
/// produced it, then its records.
pub struct PersistedStore {
    pub checksum: u64,
    pub records: Vec<(AutotuneKey, usize)>,
}

/// Decisions of one device: which candidate index won for each key.
pub struct TuneCache {
    records: Vec<(AutotuneKey, usize)>,
}

impl View for TuneCache {
    type V = Map<AutotuneKey, usize>;

    closed spec fn view(&self) -> Map<AutotuneKey, usize> {
        records_map(self.records@)
    }
}

impl TuneCache {
    /// Keys are held once each.
    pub closed spec fn wf(&self) -> bool {
        unique_keys(self.records@)
    }

    /// An empty cache.
    pub fn new() -> (r: TuneCache)
        ensures
            r.wf(),
            r@ == Map::<AutotuneKey, usize>::empty(),
    {
        TuneCache { records: Vec::new() }
    }

    fn position(&self, key: &AutotuneKey) -> (r: Option<usize>)
        ensures
            r matches Some(i) ==> i < self.records@.len() && self.records@[i as int].0 == *key,
            r is None ==> forall|i: int| 0 <= i < self.records@.len() ==> self.records@[i].0 != *key,
    {
        let mut i: usize = 0;
        while i < self.records.len()
            invariant
                i <= self.records.len(),
                forall|j: int| 0 <= j < i ==> self.records@[j].0 != *key,
            decreases self.records.len() - i,
        {
            if self.records[i].0 == *key {
                return Some(i);
            }
            i = i + 1;
        }
        None
    }

    /// The candidate index recorded for `key`, if any.
    pub fn get(&self, key: &AutotuneKey) -> (r: Option<usize>)
        requires
            self.wf(),
        ensures
            r == (if self@.dom().contains(*key) {
                Some(self@[*key])
            } else {
                None::<usize>
            }),
    {
        proof {
            lemma_records_map_dom(self.records@, *key);
        }
        match self.position(key) {
            Some(i) => {
                proof {
                    lemma_records_map_value(self.records@, i as int);
                }
                Some(self.records[i].1)
            },
            None => None,
        }
    }

    /// Records `index` as the decision for `key`.
    pub fn put(&mut self, key: &AutotuneKey, index: usize)
        requires
            old(self).wf(),
        ensures
            final(self).wf(),
            final(self)@ == old(self)@.insert(*key, index),
    {
        let ghost before = self.records@;
        match self.position(key) {
            Some(i) => {
                self.records.set(i, (*key, index));
                proof {
                    let after = self.records@;
                    assert(after == before.update(i as int, (*key, index)));
                    assert forall|k: AutotuneKey|
                        #![trigger records_map(after).dom().contains(k)]
                        records_map(after).dom().contains(k) == records_map(before).insert(
                            *key,
                            index,
                        ).dom().contains(k) && (records_map(after).dom().contains(k)
                            ==> records_map(after)[k] == records_map(before).insert(
                            *key,
                            index,
                        )[k]) by {
                        lemma_records_map_dom(after, k);
                        lemma_records_map_dom(before, k);
                        if k == *key {
                            lemma_records_map_value(after, i as int);
                        } else if records_map(after).dom().contains(k) {
                            let j = choose|j: int| 0 <= j < after.len() && after[j].0 == k;
                            lemma_records_map_value(after, j);
                            lemma_records_map_value(before, j);
                        } else if records_map(before).dom().contains(k) {
                            let j = choose|j: int| 0 <= j < before.len() && before[j].0 == k;
                            assert(after[j].0 == k);
                        }
                    }
                    assert(records_map(after) =~= records_map(before).insert(*key, index));
                }
            },
            None => {
                self.records.push((*key, index));
                proof {
                    assert(self.records@.drop_last() =~= before);
                }
            },
        }
    }

    /// Rebuilds a cache from a persisted store. A store whose checksum is not
    /// `checksum` belongs to other hardware or another driver: none of its
    /// records is trusted and the cache starts empty.
    pub fn load(store: &PersistedStore, checksum: u64) -> (r: TuneCache)
        ensures
            r.wf(),
            store.checksum != checksum ==> r@ == Map::<AutotuneKey, usize>::empty(),
            store.checksum == checksum ==> r@ == records_map(store.records@),
    {
        let mut cache = TuneCache::new();
        if store.checksum != checksum {
            return cache;
        }
        let mut i: usize = 0;
        while i < store.records.len()
            invariant
                i <= store.records.len(),
                cache.wf(),
                cache@ == records_map(store.records@.take(i as int)),
            decreases store.records.len() - i,
        {
            let (key, index) = store.records[i];
            cache.put(&key, index);
            proof {
                assert(store.records@.take(i + 1).drop_last() =~= store.records@.take(i as int));
            }
            i = i + 1;
        }
        proof {
            assert(store.records@.take(i as int) =~= store.records@);
        }
        cache
    }

    /// The persisted form of this cache, stamped with `checksum`.
    pub fn to_store(&self, checksum: u64) -> (r: PersistedStore)
        requires
            self.wf(),
        ensures
            r.checksum == checksum,
            unique_keys(r.records@),
            records_map(r.records@) == self@,
    {
        let mut records: Vec<(AutotuneKey, usize)> = Vec::new();
        let mut i: usize = 0;
        while i < self.records.len()
            invariant
                i <= self.records.len(),
                records@ == self.records@.take(i as int),
            decreases self.records.len() - i,
        {
            records.push(self.records[i]);
            i = i + 1;
            proof {
                assert(records@ =~= self.records@.take(i as int));
            }
        }
        proof {
            assert(self.records@.take(i as int) =~= self.records@);
        }
        PersistedStore { checksum, records }
    }
}

} // verus!
