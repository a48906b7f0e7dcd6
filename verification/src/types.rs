//! Observable output types: CSR buckets of completed tilings, the
//! snapshot handed to the pair solver, and key normalisation helpers.

use std::collections::HashMap;
use vstd::prelude::*;

use crate::sorting::{sort_i32, sort_key_spec, sorted_nondec};

verus! {

/// An equivalence class of completed tilings: a CSR matrix of rows of
/// piece indices, one integer weight per row, and the sorted list of
/// piece populations that names the class.
pub struct Bucket {
    pub rows_data: Vec<i32>,
    pub indptr: Vec<i64>,
    pub weights: Vec<u64>,
    pub key: Vec<i32>,
}

impl Bucket {
    pub open spec fn n_rows_spec(self) -> nat {
        if self.indptr@.len() == 0 {
            0
        } else {
            (self.indptr@.len() - 1) as nat
        }
    }

    /// CSR validity: offsets start at zero, never decrease, and end at
    /// the data length; one weight per row.
    pub open spec fn wf(self) -> bool {
        &&& self.indptr@.len() >= 1
        &&& self.indptr@[0] == 0
        &&& forall|i: int, j: int|
            0 <= i <= j < self.indptr@.len() ==> self.indptr@[i] <= self.indptr@[j]
        &&& self.indptr@[self.indptr@.len() - 1] == self.rows_data@.len()
        &&& self.weights@.len() == self.n_rows_spec()
    }

    /// The piece indices of row `r`.
    pub open spec fn row_spec(self, r: int) -> Seq<i32> {
        self.rows_data@.subrange(self.indptr@[r] as int, self.indptr@[r + 1] as int)
    }

    pub fn n_rows(&self) -> (n: usize)
        ensures
            n == self.n_rows_spec(),
    {
        if self.indptr.len() == 0 {
            0
        } else {
            self.indptr.len() - 1
        }
    }

    /// The piece indices of row `r`, as a fresh vector.
    pub fn row_slice(&self, r: usize) -> (row: Vec<i32>)
        requires
            self.wf(),
            r < self.n_rows_spec(),
        ensures
            row@ == self.row_spec(r as int),
    {
        let nlen = self.indptr.len();
        let dlen = self.rows_data.len();
        let lo = self.indptr[r];
        let hi = self.indptr[r + 1];
        proof {
            assert(self.indptr@[0] <= self.indptr@[r as int]);
            assert(self.indptr@[r as int] <= self.indptr@[r + 1]);
            assert(self.indptr@[r + 1] <= self.indptr@[self.indptr@.len() - 1]);
            assert(0 <= lo <= hi <= dlen);
        }
        let lou = lo as usize;
        let hiu = hi as usize;
        proof {
            assert(lou == lo && hiu == hi);
        }
        let mut row: Vec<i32> = Vec::new();
        let mut i: usize = lou;
        while i < hiu
            invariant
                lou <= i <= hiu,
                hiu <= self.rows_data@.len(),
                row@.len() == i - lou,
                forall|q: int| 0 <= q < row@.len() ==> row@[q] == self.rows_data@[lou + q],
            decreases hiu - i,
        {
            row.push(self.rows_data[i]);
            i = i + 1;
        }
        proof {
            assert(row@ =~= self.row_spec(r as int));
        }
        row
    }
}

/// Everything the pair solver reads: the output buckets, the per-piece
/// populations, the board size, and the compatibility tables.
pub struct Snapshot {
    pub buckets: Vec<Bucket>,
    pub jbt_ref_pop: Vec<i32>,
    pub n_total: i32,
    pub compat: HashMap<i32, (Vec<i32>, Vec<i32>)>,
}

/// Total length of the first `t` buckets' key lists.
pub open spec fn key_total(buckets: Seq<Bucket>, t: int) -> int
    decreases t,
{
    if t <= 0 {
        0
    } else {
        key_total(buckets, t - 1) + buckets[t - 1].key@.len()
    }
}

proof fn lemma_key_total_mono(buckets: Seq<Bucket>, t: int, t2: int)
    requires
        0 <= t <= t2,
    ensures
        key_total(buckets, t) <= key_total(buckets, t2),
    decreases t2 - t,
{
    if t < t2 {
        lemma_key_total_mono(buckets, t, t2 - 1);
    }
}

/// Flatten the buckets' key lists into the archive's CSR pair, or
/// nothing when the total length leaves the offset type's range.
pub fn flatten_bucket_keys(buckets: &Vec<Bucket>) -> (r: Option<(Vec<i32>, Vec<i64>)>)
    ensures
        r.is_some() <==> key_total(buckets@, buckets@.len() as int) <= 0x7fff_ffff_ffff_ffff,
        r.is_some() ==> {
            let (data, indptr) = r.unwrap();
            &&& indptr@.len() == buckets@.len() + 1
            &&& indptr@[0] == 0
            &&& forall|t: int|
                0 <= t <= buckets@.len() ==> #[trigger] indptr@[t] == key_total(buckets@, t)
            &&& forall|t: int, q: int|
                0 <= t < buckets@.len() && 0 <= q < buckets@[t].key@.len()
                    ==> #[trigger] data@[indptr@[t] + q] == buckets@[t].key@[q]
            &&& data@.len() == key_total(buckets@, buckets@.len() as int)
        },
{
    let mut data: Vec<i32> = Vec::new();
    let mut indptr: Vec<i64> = Vec::new();
    indptr.push(0);
    let nb = buckets.len();
    let mut t: usize = 0;
    while t < nb
        invariant
            nb == buckets@.len(),
            t <= nb,
            indptr@.len() == t + 1,
            indptr@[0] == 0,
            forall|t2: int| 0 <= t2 <= t ==> #[trigger] indptr@[t2] == key_total(buckets@, t2),
            forall|t2: int, q: int|
                0 <= t2 < t && 0 <= q < buckets@[t2].key@.len() ==> #[trigger] data@[indptr@[t2]
                    + q] == buckets@[t2].key@[q],
            data@.len() == key_total(buckets@, t as int),
            key_total(buckets@, t as int) <= 0x7fff_ffff_ffff_ffff,
        decreases nb - t,
    {
        let key = &buckets[t].key;
        if key.len() as u64 > (0x7fff_ffff_ffff_ffffu64 - data.len() as u64) {
            proof {
                assert(key_total(buckets@, t + 1) > 0x7fff_ffff_ffff_ffff);
                lemma_key_total_mono(buckets@, t + 1, buckets@.len() as int);
            }
            return None;
        }
        let ghost pre_data = data@;
        let mut q: usize = 0;
        while q < key.len()
            invariant
                t < nb,
                nb == buckets@.len(),
                key == &buckets@[t as int].key,
                q <= key@.len(),
                data@.len() == pre_data.len() + q,
                forall|w: int| 0 <= w < pre_data.len() ==> #[trigger] data@[w] == pre_data[w],
                forall|w: int|
                    0 <= w < q ==> #[trigger] data@[pre_data.len() + w] == key@[w],
            decreases key@.len() - q,
        {
            data.push(key[q]);
            q = q + 1;
        }
        indptr.push(data.len() as i64);
        proof {
            assert(key_total(buckets@, t + 1) == pre_data.len() + buckets@[t as int].key@.len());
            assert forall|t2: int, q: int|
                0 <= t2 < t + 1 && 0 <= q < buckets@[t2].key@.len() implies #[trigger] data@[
            indptr@[t2] + q] == buckets@[t2].key@[q] by {
                if t2 < t {
                    lemma_key_total_mono(buckets@, t2 + 1, t as int);
                    lemma_key_total_mono(buckets@, 0, t2);
                    assert(pre_data.len() == key_total(buckets@, t as int));
                    assert(indptr@[t2] == key_total(buckets@, t2));
                    assert(indptr@[t2] + q < key_total(buckets@, t2 + 1));
                    assert(0 <= indptr@[t2] + q < pre_data.len());
                    assert(data@[indptr@[t2] + q] == pre_data[indptr@[t2] + q]);
                } else {
                    assert(indptr@[t2] == pre_data.len());
                    assert(data@[pre_data.len() + q] == buckets@[t as int].key@[q]);
                }
            }
        }
        t = t + 1;
    }
    Some((data, indptr))
}

/// A bucket key, sorted ascending.
pub fn key_sorted_vec(key: &Vec<i32>) -> (r: Vec<i32>)
    ensures
        r@ == sort_key_spec(key@),
        sorted_nondec(r@),
        r@.to_multiset() == key@.to_multiset(),
        r@.len() == key@.len(),
{
    sort_i32(key)
}

/// The complementary key as a value: each population replaced by
/// `n_total - p`, sorted ascending.
pub open spec fn comp_key_spec(key: Seq<i32>, n_total: i32) -> Seq<i32> {
    sort_key_spec(Seq::new(key.len(), |q: int| (n_total - key[q]) as i32))
}

/// The complementary key: each population replaced by `n_total - p`,
/// sorted ascending.
pub fn compat_key_sorted(key: &Vec<i32>, n_total: i32) -> (r: Vec<i32>)
    requires
        0 <= n_total <= 10,
        forall|q: int| 0 <= q < key@.len() ==> 0 <= #[trigger] key@[q] <= 15,
    ensures
        r@ == comp_key_spec(key@, n_total),
        sorted_nondec(r@),
        r@.to_multiset() == Seq::new(key@.len(), |q: int| (n_total - key@[q]) as i32).to_multiset(),
        r@.len() == key@.len(),
{
    let mut mapped: Vec<i32> = Vec::new();
    let mut i: usize = 0;
    while i < key.len()
        invariant
            0 <= n_total <= 10,
            forall|q: int| 0 <= q < key@.len() ==> 0 <= #[trigger] key@[q] <= 15,
            i <= key@.len(),
            mapped@.len() == i,
            forall|q: int| 0 <= q < i ==> #[trigger] mapped@[q] == n_total - key@[q],
        decreases key@.len() - i,
    {
        mapped.push(n_total - key[i]);
        i = i + 1;
    }
    proof {
        assert(mapped@ =~= Seq::new(key@.len(), |q: int| (n_total - key@[q]) as i32));
    }
    sort_i32(&mapped)
}

} // verus!
