//! A map from 64-bit keys (partial masks, or packed population keys)
//! to accumulator buckets, with an index for lookup and dense storage
//! for draining.

use std::collections::HashMap;
use vstd::prelude::*;

use crate::bucket::{AOBucket, Entry, clip32, contains_code, entries_of, weight_of};

verus! {

broadcast use vstd::std_specs::hash::group_hash_axioms;

pub struct KeyedBuckets {
    pub keys: Vec<u64>,
    pub buckets: Vec<AOBucket>,
    pub index: HashMap<u64, usize>,
}

impl KeyedBuckets {
    pub open spec fn wf(self) -> bool {
        &&& self.keys@.len() == self.buckets@.len()
        &&& forall|k: u64| self.index@.contains_key(k) <==> self.keys@.contains(k)
        &&& forall|k: u64|
            self.index@.contains_key(k) ==> #[trigger] self.index@[k] < self.keys@.len()
                && self.keys@[self.index@[k] as int] == k
        &&& forall|i: int|
            0 <= i < self.keys@.len() ==> self.index@.contains_key(#[trigger] self.keys@[i])
                && self.index@[self.keys@[i]] == i
        &&& forall|i: int| 0 <= i < self.buckets@.len() ==> (#[trigger] self.buckets@[i]).wf()
    }

    pub open spec fn has_key(self, k: u64) -> bool {
        self.index@.contains_key(k)
    }

    /// The entries stored under key `k` (empty when the key is absent).
    pub open spec fn entries_for(self, k: u64) -> Seq<Entry> {
        if self.index@.contains_key(k) {
            self.buckets@[self.index@[k] as int].all_entries()
        } else {
            Seq::<Entry>::empty()
        }
    }

    pub fn new() -> (r: KeyedBuckets)
        ensures
            r.wf(),
            r.keys@.len() == 0,
            forall|k: u64| !r.has_key(k),
            forall|k: u64| r.entries_for(k) == Seq::<Entry>::empty(),
    {
        let r = KeyedBuckets { keys: Vec::new(), buckets: Vec::new(), index: HashMap::new() };
        r
    }

    /// Append a batch under `k`, creating the bucket on first use.
    pub fn append_to(&mut self, k: u64, codes: Vec<u128>, w: Vec<u32>, pend_flush: usize)
        requires
            old(self).wf(),
            codes@.len() == w@.len(),
        ensures
            final(self).wf(),
            forall|k2: u64| final(self).has_key(k2) <==> (old(self).has_key(k2) || k2 == k),
            forall|k2: u64|
                k2 != k ==> final(self).entries_for(k2) == old(self).entries_for(k2),
            forall|c: u128|
                contains_code(final(self).entries_for(k), c) <==> contains_code(
                    old(self).entries_for(k) + entries_of(codes@, w@),
                    c,
                ),
            forall|c: u128|
                #![trigger weight_of(final(self).entries_for(k), c)]
                clip32(weight_of(final(self).entries_for(k), c)) == clip32(
                    weight_of(old(self).entries_for(k) + entries_of(codes@, w@), c),
                ),
    {
        let pos: usize = match self.index.get(&k) {
            Some(p) => *p,
            None => {
                let p = self.buckets.len();
                let ghost pre = *self;
                self.keys.push(k);
                self.buckets.push(AOBucket::new());
                self.index.insert(k, p);
                proof {
                    assert forall|k2: u64|
                        self.index@.contains_key(k2) <==> self.keys@.contains(k2) by {
                        if k2 == k {
                            assert(self.keys@[self.keys@.len() - 1] == k);
                        } else {
                            if pre.keys@.contains(k2) {
                                let q = choose|q: int|
                                    0 <= q < pre.keys@.len() && pre.keys@[q] == k2;
                                assert(self.keys@[q] == k2);
                            }
                            if self.keys@.contains(k2) {
                                let q = choose|q: int|
                                    0 <= q < self.keys@.len() && self.keys@[q] == k2;
                                assert(q < pre.keys@.len());
                                assert(pre.keys@[q] == k2);
                            }
                        }
                    }
                    assert(self.entries_for(k) =~= Seq::<Entry>::empty());
                }
                p
            },
        };
        proof {
            assert(self.index@.contains_key(k) && self.index@[k] == pos);
        }
        let ghost mid = *self;
        let bref = &mut self.buckets[pos];
        bref.append_batch(codes, w, pend_flush);
        proof {
            assert(self.buckets@ == mid.buckets@.update(pos as int, self.buckets@[pos as int]));
            assert(self.keys@ == mid.keys@ && self.index@ == mid.index@);
            assert forall|k2: u64|
                k2 != k implies self.entries_for(k2) == mid.entries_for(k2) by {
                if self.index@.contains_key(k2) {
                    assert(self.index@[k2] != pos) by {
                        assert(self.keys@[self.index@[k2] as int] == k2);
                        assert(self.keys@[pos as int] == k);
                    }
                }
            }
        }
    }

    /// Flush every bucket.
    pub fn flush_all(&mut self)
        requires
            old(self).wf(),
        ensures
            final(self).wf(),
            final(self).keys@ == old(self).keys@,
            forall|k2: u64| final(self).has_key(k2) <==> old(self).has_key(k2),
            forall|i: int|
                0 <= i < final(self).buckets@.len() ==> (
                #[trigger] final(self).buckets@[i]).pend_codes@.len() == 0,
            forall|i: int|
                0 <= i < final(self).buckets@.len() ==> (
                #[trigger] final(self).buckets@[i]).codes@.len() <= old(self).buckets@[i].codes@.len()
                    + old(self).buckets@[i].pend_codes@.len(),
            forall|k2: u64, c: u128|
                #[trigger] contains_code(final(self).entries_for(k2), c) <==> contains_code(
                    old(self).entries_for(k2),
                    c,
                ),
            forall|k2: u64, c: u128|
                #[trigger] weight_of(final(self).entries_for(k2), c) == clip32(
                    weight_of(old(self).entries_for(k2), c),
                ),
    {
        let n = self.buckets.len();
        let mut i: usize = 0;
        while i < n
            invariant
                self.wf(),
                n == self.buckets@.len(),
                i <= n,
                self.keys@ == old(self).keys@,
                self.index@ == old(self).index@,
                self.buckets@.len() == old(self).buckets@.len(),
                forall|q: int|
                    0 <= q < i ==> (#[trigger] self.buckets@[q]).pend_codes@.len() == 0,
                forall|q: int|
                    0 <= q < i ==> (#[trigger] self.buckets@[q]).codes@.len()
                        <= old(self).buckets@[q].codes@.len()
                        + old(self).buckets@[q].pend_codes@.len(),
                forall|q: int, c: u128|
                    0 <= q < i ==> (#[trigger] contains_code(self.buckets@[q].all_entries(), c)
                        <==> contains_code(old(self).buckets@[q].all_entries(), c)),
                forall|q: int, c: u128|
                    0 <= q < i ==> #[trigger] weight_of(self.buckets@[q].all_entries(), c)
                        == clip32(weight_of(old(self).buckets@[q].all_entries(), c)),
                forall|q: int|
                    i <= q < n ==> #[trigger] self.buckets@[q] == old(self).buckets@[q],
            decreases n - i,
        {
            let ghost mid = *self;
            let bref = &mut self.buckets[i];
            bref.flush();
            proof {
                assert(self.buckets@ == mid.buckets@.update(i as int, self.buckets@[i as int]));
            }
            i = i + 1;
        }
        proof {
            assert forall|k2: u64, c: u128|
                #[trigger] contains_code(self.entries_for(k2), c) <==> contains_code(
                    old(self).entries_for(k2),
                    c,
                ) by {
                if self.index@.contains_key(k2) {
                    assert(self.index@[k2] < n);
                }
            }
            assert forall|k2: u64, c: u128|
                #[trigger] weight_of(self.entries_for(k2), c) == clip32(
                    weight_of(old(self).entries_for(k2), c),
                ) by {
                if self.index@.contains_key(k2) {
                    assert(self.index@[k2] < n);
                } else {
                    assert(weight_of(Seq::<Entry>::empty(), c) == 0);
                }
            }
        }
    }

    /// Drain: hand out all keys and buckets, leaving the map empty.
    pub fn take_all(&mut self) -> (r: (Vec<u64>, Vec<AOBucket>))
        requires
            old(self).wf(),
        ensures
            final(self).wf(),
            final(self).keys@.len() == 0,
            forall|k2: u64| !final(self).has_key(k2),
            r.0@ == old(self).keys@,
            r.1@ == old(self).buckets@,
    {
        let mut ks: Vec<u64> = Vec::new();
        let mut bs: Vec<AOBucket> = Vec::new();
        core::mem::swap(&mut ks, &mut self.keys);
        core::mem::swap(&mut bs, &mut self.buckets);
        self.index = HashMap::new();
        (ks, bs)
    }
}

} // verus!
