//! The pair driver: find every pair of buckets whose population keys
//! are complementary, solve each pair once (doubling the subtotal for
//! distinct pairs), and add up the total.

use std::collections::HashMap;
use std::collections::HashSet;
use vstd::prelude::*;

use crate::popkey::{lemma_pack_key_injective, pack_key_spec, pack_pop_key};
use crate::sorting::{lemma_sort_pops_props, sort_pops};
use crate::solve::{
    build_rows_by_jbt, cand_index_ok, clip128, deep_cands, deep_rows, pair_subtotal_spec,
    precompute_candidates_for_bucket1, rows_index_ok, sat_add, sat_mul, subtotal_for_pair, wsum,
};
use crate::sorting::{lemma_sort_key_props, sort_key_spec};
use crate::types::{comp_key_spec, compat_key_sorted, key_sorted_vec, Bucket, Snapshot};

verus! {

broadcast use vstd::std_specs::hash::group_hash_axioms;

/// One solved pair: the two bucket indices (smaller row count on the
/// left), their keys and row counts, the doubled or plain subtotal,
/// and the doubling factor that was applied.
pub struct PairResult {
    pub left: usize,
    pub right: usize,
    pub key_left: Vec<i32>,
    pub key_right: Vec<i32>,
    pub rows1: usize,
    pub rows2: usize,
    pub subtotal: u128,
    pub factor: u32,
}

/// The key digits as the packing sees them.
pub open spec fn digits8(s: Seq<i32>) -> Seq<u8> {
    Seq::new(s.len(), |q: int| s[q] as u8)
}

/// Bucket `t`'s key, sorted.
pub open spec fn norm_key(snap: Snapshot, t: int) -> Seq<i32> {
    sort_key_spec(snap.buckets@[t].key@)
}

/// Bucket `t`'s sorted key, packed for lookup.
pub open spec fn norm_pack(snap: Snapshot, t: int) -> u64 {
    pack_key_spec(digits8(norm_key(snap, t)))
}

/// The two buckets' population keys complement each other under
/// p maps to n_total - p.
pub open spec fn complementary(snap: Snapshot, a: int, b: int) -> bool {
    ||| norm_key(snap, b) == comp_key_spec(norm_key(snap, a), snap.n_total)
    ||| norm_key(snap, a) == comp_key_spec(norm_key(snap, b), snap.n_total)
}

/// The result covers the unordered bucket pair {a, b}.
pub open spec fn pair_is(r: PairResult, a: int, b: int) -> bool {
    (r.left == a && r.right == b) || (r.left == b && r.right == a)
}

/// The subtotal is the pair's weighted matching count (doubled by the
/// factor), evaluated against the row and candidate indices that the
/// two index builders characterize uniquely.
pub open spec fn pair_value_ok(
    sub: u128,
    factor: u32,
    b1: Bucket,
    b2: Bucket,
    pop: Seq<i32>,
    n_total: i32,
    compat: Map<i32, (Vec<i32>, Vec<i32>)>,
) -> bool {
    exists|rb: Seq<Seq<usize>>, cd: Seq<Seq<i32>>|
        #![trigger rows_index_ok(rb, b2, pop.len()), cand_index_ok(cd, pop, n_total, compat, rb)]
        rows_index_ok(rb, b2, pop.len()) && cand_index_ok(cd, pop, n_total, compat, rb) && sub == (
        if b1.key@.len() == 0 {
            clip128(
                (factor as nat) * (wsum(b1.weights@, b1.weights@.len() as int) * wsum(
                    b2.weights@,
                    b2.weights@.len() as int,
                )),
            )
        } else {
            clip128((factor as nat) * pair_subtotal_spec(b1, b2, pop, cd, rb))
        })
}

/// A correct solved pair: a complementary bucket pair, the smaller row
/// count on the left, the two keys carried along, the factor 2 exactly
/// for distinct buckets, and the doubled subtotal.
pub open spec fn result_ok(r: PairResult, snap: Snapshot) -> bool {
    &&& (r.left as int) < snap.buckets@.len()
    &&& (r.right as int) < snap.buckets@.len()
    &&& complementary(snap, r.left as int, r.right as int)
    &&& r.rows1 == snap.buckets@[r.left as int].n_rows_spec()
    &&& r.rows2 == snap.buckets@[r.right as int].n_rows_spec()
    &&& r.rows1 <= r.rows2
    &&& r.key_left@ == snap.buckets@[r.left as int].key@
    &&& r.key_right@ == snap.buckets@[r.right as int].key@
    &&& r.factor == (if r.left == r.right {
        1u32
    } else {
        2u32
    })
    &&& pair_value_ok(
        r.subtotal,
        r.factor,
        snap.buckets@[r.left as int],
        snap.buckets@[r.right as int],
        snap.jbt_ref_pop@,
        snap.n_total,
        snap.compat@,
    )
}

/// The unordered pair, encoded for the dedup set.
pub open spec fn pair_code(l: int, r: int) -> int {
    if l <= r {
        l * 0x1_0000_0000 + r
    } else {
        r * 0x1_0000_0000 + l
    }
}

/// The structural conditions the solver relies on: a board size in
/// range, populations either neutral or below the board size, covered
/// compatibility tables with parallel arrays, and CSR buckets whose
/// rows hold ascending in-range piece indices under short keys.
pub open spec fn snapshot_ok(snap: Snapshot) -> bool {
    &&& 2 <= snap.n_total <= 10
    &&& snap.jbt_ref_pop@.len() <= 0x7fff_ffff
    &&& snap.buckets@.len() < 0x8000_0000
    &&& forall|p: i32| 1 <= p < snap.n_total ==> snap.compat@.contains_key(p)
    &&& forall|p: i32|
        1 <= p < snap.n_total ==> (#[trigger] snap.compat@[p].0)@.len() == snap.compat@[p].1@.len()
    &&& forall|t: int| 0 <= t < snap.buckets@.len() ==> (#[trigger] snap.buckets@[t]).wf()
    &&& forall|t: int, rr: int, q: int|
        0 <= t < snap.buckets@.len() && 0 <= rr < snap.buckets@[t].n_rows_spec() && 0 <= q
            < snap.buckets@[t].row_spec(rr).len() ==> 0 <= #[trigger] snap.buckets@[t].row_spec(
            rr,
        )[q] < snap.jbt_ref_pop@.len()
    &&& forall|t: int, rr: int, q: int, q2: int|
        0 <= t < snap.buckets@.len() && 0 <= rr < snap.buckets@[t].n_rows_spec() && 0 <= q < q2
            < snap.buckets@[t].row_spec(rr).len() ==> #[trigger] snap.buckets@[t].row_spec(rr)[q]
            < #[trigger] snap.buckets@[t].row_spec(rr)[q2]
    &&& forall|t: int|
        0 <= t < snap.buckets@.len() ==> (#[trigger] snap.buckets@[t].key@).len() <= 10
    &&& forall|t: int, q: int|
        0 <= t < snap.buckets@.len() && 0 <= q < snap.buckets@[t].key@.len() ==> 0
            <= #[trigger] snap.buckets@[t].key@[q] <= 15
    &&& forall|t: int, t2: int|
        0 <= t < t2 < snap.buckets@.len() ==> #[trigger] sort_key_spec(snap.buckets@[t].key@)
            != #[trigger] sort_key_spec(snap.buckets@[t2].key@)
}

/// A sorted key keeps its digits in the nibble range.
proof fn lemma_norm_digits(key: Seq<i32>)
    requires
        forall|q: int| 0 <= q < key.len() ==> 0 <= #[trigger] key[q] <= 15,
    ensures
        sort_key_spec(key).len() == key.len(),
        forall|q: int| 0 <= q < sort_key_spec(key).len() ==> 0 <= #[trigger] sort_key_spec(key)[q]
            <= 15,
{
    lemma_sort_key_props(key);
    let sk = sort_key_spec(key);
    assert forall|q: int| 0 <= q < sk.len() implies 0 <= #[trigger] sk[q] <= 15 by {
        vstd::seq_lib::to_multiset_contains::<i32>(sk, sk[q]);
        vstd::seq_lib::to_multiset_contains::<i32>(key, sk[q]);
        assert(sk.contains(sk[q]));
        assert(key.contains(sk[q]));
        let w = choose|w: int| 0 <= w < key.len() && key[w] == sk[q];
    }
}

/// Equal packs of two in-range keys force the keys themselves equal.
proof fn lemma_packed_keys_equal(k1: Seq<i32>, k2: Seq<i32>)
    requires
        k1.len() <= 10,
        k2.len() <= 10,
        forall|q: int| 0 <= q < k1.len() ==> 0 <= #[trigger] k1[q] <= 15,
        forall|q: int| 0 <= q < k2.len() ==> 0 <= #[trigger] k2[q] <= 15,
        pack_key_spec(digits8(k1)) == pack_key_spec(digits8(k2)),
    ensures
        k1 == k2,
{
    assert forall|q: int| 0 <= q < k1.len() implies #[trigger] digits8(k1)[q] <= 15 by {}
    assert forall|q: int| 0 <= q < k2.len() implies #[trigger] digits8(k2)[q] <= 15 by {}
    lemma_pack_key_injective(digits8(k1), digits8(k2));
    assert(k1.len() == k2.len());
    assert forall|q: int| 0 <= q < k1.len() implies k1[q] == k2[q] by {
        assert(digits8(k1)[q] == digits8(k2)[q]);
    }
    assert(k1 =~= k2);
}

/// Distinct buckets of a checked snapshot pack to distinct keys.
proof fn lemma_norm_pack_distinct(snap: Snapshot, t: int, t2: int)
    requires
        snapshot_ok(snap),
        0 <= t < snap.buckets@.len(),
        0 <= t2 < snap.buckets@.len(),
        t != t2,
    ensures
        norm_pack(snap, t) != norm_pack(snap, t2),
{
    lemma_norm_digits(snap.buckets@[t].key@);
    lemma_norm_digits(snap.buckets@[t2].key@);
    if norm_pack(snap, t) == norm_pack(snap, t2) {
        lemma_packed_keys_equal(norm_key(snap, t), norm_key(snap, t2));
    }
}

/// The u64 pair code decomposes uniquely.
proof fn lemma_pair_code_injective(a: u64, b: u64, a2: u64, b2: u64)
    by (bit_vector)
    requires
        a < 0x8000_0000,
        b < 0x8000_0000,
        a2 < 0x8000_0000,
        b2 < 0x8000_0000,
        a * 0x1_0000_0000 + b == a2 * 0x1_0000_0000 + b2,
    ensures
        a == a2 && b == b2,
{
}

/// Check the solver's structural preconditions on a loaded snapshot.
pub fn check_snapshot(snap: &Snapshot) -> (b: bool)
    ensures
        b == snapshot_ok(*snap),
{
    if snap.n_total < 2 || snap.n_total > 10 {
        return false;
    }
    if snap.jbt_ref_pop.len() > 0x7fff_ffff {
        return false;
    }
    if snap.buckets.len() >= 0x8000_0000 {
        return false;
    }
    let mut p: i32 = 1;
    while p < snap.n_total
        invariant
            2 <= snap.n_total <= 10,
            1 <= p,
            forall|p2: i32| 1 <= p2 < p ==> snap.compat@.contains_key(p2),
            forall|p2: i32|
                1 <= p2 < p ==> (#[trigger] snap.compat@[p2].0)@.len() == snap.compat@[p2].1@.len(),
        decreases snap.n_total - p,
    {
        match snap.compat.get(&p) {
            Some(tbl) => {
                if tbl.0.len() != tbl.1.len() {
                    return false;
                }
            },
            None => {
                return false;
            },
        }
        p = p + 1;
    }
    let mut t: usize = 0;
    while t < snap.buckets.len()
        invariant
            t <= snap.buckets@.len(),
            2 <= snap.n_total <= 10,
            snap.jbt_ref_pop@.len() <= 0x7fff_ffff,
            snap.buckets@.len() < 0x8000_0000,
            forall|p2: i32| 1 <= p2 < snap.n_total ==> snap.compat@.contains_key(p2),
            forall|p2: i32|
                1 <= p2 < snap.n_total ==> (#[trigger] snap.compat@[p2].0)@.len()
                    == snap.compat@[p2].1@.len(),
            forall|t2: int| 0 <= t2 < t ==> (#[trigger] snap.buckets@[t2]).wf(),
            forall|t2: int, rr: int, q2: int|
                0 <= t2 < t && 0 <= rr < snap.buckets@[t2].n_rows_spec() && 0 <= q2
                    < snap.buckets@[t2].row_spec(rr).len() ==> 0
                    <= #[trigger] snap.buckets@[t2].row_spec(rr)[q2] < snap.jbt_ref_pop@.len(),
            forall|t2: int, rr: int, qa: int, qb: int|
                0 <= t2 < t && 0 <= rr < snap.buckets@[t2].n_rows_spec() && 0 <= qa < qb
                    < snap.buckets@[t2].row_spec(rr).len()
                    ==> #[trigger] snap.buckets@[t2].row_spec(rr)[qa]
                    < #[trigger] snap.buckets@[t2].row_spec(rr)[qb],
            forall|t2: int|
                0 <= t2 < t ==> (#[trigger] snap.buckets@[t2].key@).len() <= 10,
            forall|t2: int, q2: int|
                0 <= t2 < t && 0 <= q2 < snap.buckets@[t2].key@.len() ==> 0
                    <= #[trigger] snap.buckets@[t2].key@[q2] <= 15,
        decreases snap.buckets@.len() - t,
    {
        let bk = &snap.buckets[t];
        if bk.indptr.len() < 1 {
            proof {
                if snapshot_ok(*snap) {
                    assert(snap.buckets@[t as int].wf());
                }
            }
            return false;
        }
        if bk.indptr[0] != 0 {
            proof {
                if snapshot_ok(*snap) {
                    assert(snap.buckets@[t as int].wf());
                }
            }
            return false;
        }
        let mut w: usize = 0;
        let mut prev: i64 = 0;
        while w < bk.indptr.len()
            invariant
                w <= bk.indptr@.len(),
                t < snap.buckets@.len(),
                bk == &snap.buckets@[t as int],
                bk.indptr@.len() >= 1,
                forall|a: int, b2: int| 0 <= a <= b2 < w ==> bk.indptr@[a] <= bk.indptr@[b2],
                w > 0 ==> prev == bk.indptr@[w - 1],
            decreases bk.indptr@.len() - w,
        {
            let v = bk.indptr[w];
            if w > 0 && v < prev {
                proof {
                    if snapshot_ok(*snap) {
                        assert(snap.buckets@[t as int].wf());
                        assert(bk.indptr@[w - 1] <= bk.indptr@[w as int]);
                    }
                }
                return false;
            }
            proof {
                assert forall|a: int, b2: int| 0 <= a <= b2 < w + 1 implies bk.indptr@[a]
                    <= bk.indptr@[b2] by {
                    if b2 == w && a < w {
                        assert(bk.indptr@[a] <= bk.indptr@[w - 1]);
                    }
                }
            }
            prev = v;
            w = w + 1;
        }
        if bk.indptr[bk.indptr.len() - 1] as u64 != bk.rows_data.len() as u64 || bk.indptr[
            bk.indptr.len() - 1] < 0 {
            proof {
                if snapshot_ok(*snap) {
                    assert(snap.buckets@[t as int].wf());
                }
            }
            return false;
        }
        if bk.weights.len() != bk.indptr.len() - 1 {
            proof {
                if snapshot_ok(*snap) {
                    assert(snap.buckets@[t as int].wf());
                }
            }
            return false;
        }
        let nrows = bk.n_rows();
        let mut rr: usize = 0;
        while rr < nrows
            invariant
                bk.wf(),
                bk == &snap.buckets@[t as int],
                t < snap.buckets@.len(),
                snap.jbt_ref_pop@.len() <= 0x7fff_ffff,
                nrows == bk.n_rows_spec(),
                rr <= nrows,
                forall|rr2: int, qa: int, qb: int|
                    0 <= rr2 < rr && 0 <= qa < qb < bk.row_spec(rr2).len()
                        ==> #[trigger] bk.row_spec(rr2)[qa] < #[trigger] bk.row_spec(rr2)[qb],
                forall|rr2: int, qa: int|
                    0 <= rr2 < rr && 0 <= qa < bk.row_spec(rr2).len() ==> 0
                        <= #[trigger] bk.row_spec(rr2)[qa] < snap.jbt_ref_pop@.len(),
            decreases nrows - rr,
        {
            let row = bk.row_slice(rr);
            let mut qz: usize = 0;
            while qz < row.len()
                invariant
                    row@ == bk.row_spec(rr as int),
                    t < snap.buckets@.len(),
                    bk == &snap.buckets@[t as int],
                    rr < bk.n_rows_spec(),
                    snap.jbt_ref_pop@.len() <= 0x7fff_ffff,
                    qz <= row@.len(),
                    forall|a: int|
                        0 <= a < qz ==> 0 <= #[trigger] row@[a] < snap.jbt_ref_pop@.len(),
                decreases row@.len() - qz,
            {
                let v = row[qz];
                if v < 0 || v as u64 >= snap.jbt_ref_pop.len() as u64 {
                    proof {
                        if snapshot_ok(*snap) {
                            assert(0 <= snap.buckets@[t as int].row_spec(rr as int)[qz as int]
                                < snap.jbt_ref_pop@.len());
                        }
                    }
                    return false;
                }
                qz = qz + 1;
            }
            let mut qa: usize = 1;
            while qa < row.len()
                invariant
                    row@ == bk.row_spec(rr as int),
                    t < snap.buckets@.len(),
                    bk == &snap.buckets@[t as int],
                    rr < bk.n_rows_spec(),
                    1 <= qa,
                    qa <= row@.len() || row@.len() == 0,
                    forall|a: int, b2: int| 0 <= a < b2 < qa && b2 < row@.len() ==> row@[a]
                        < row@[b2],
                decreases row@.len() - qa,
            {
                if row[qa - 1] >= row[qa] {
                    proof {
                        if snapshot_ok(*snap) {
                            assert(snap.buckets@[t as int].row_spec(rr as int)[qa - 1]
                                < snap.buckets@[t as int].row_spec(rr as int)[qa as int]);
                        }
                    }
                    return false;
                }
                proof {
                    assert forall|a: int, b2: int|
                        0 <= a < b2 < qa + 1 && b2 < row@.len() implies row@[a] < row@[b2] by {
                        if b2 == qa {
                            if a < qa - 1 {
                                assert(row@[a] < row@[qa - 1]);
                            }
                        }
                    }
                }
                qa = qa + 1;
            }
            rr = rr + 1;
        }
        if bk.key.len() > 10 {
            proof {
                if snapshot_ok(*snap) {
                    assert((snap.buckets@[t as int].key@).len() <= 10);
                }
            }
            return false;
        }
        let mut kq: usize = 0;
        while kq < bk.key.len()
            invariant
                kq <= bk.key@.len(),
                t < snap.buckets@.len(),
                bk == &snap.buckets@[t as int],
                forall|a: int| 0 <= a < kq ==> 0 <= #[trigger] bk.key@[a] <= 15,
            decreases bk.key@.len() - kq,
    {
            if bk.key[kq] < 0 || bk.key[kq] > 15 {
                proof {
                    if snapshot_ok(*snap) {
                        assert(0 <= snap.buckets@[t as int].key@[kq as int] <= 15);
                    }
                }
                return false;
            }
            kq = kq + 1;
        }
        t = t + 1;
    }
    let mut kset: HashSet<u64> = HashSet::new();
    let mut td: usize = 0;
    while td < snap.buckets.len()
        invariant
            td <= snap.buckets@.len(),
            forall|t: int|
                0 <= t < snap.buckets@.len() ==> (#[trigger] snap.buckets@[t].key@).len() <= 10,
            forall|t: int, q: int|
                0 <= t < snap.buckets@.len() && 0 <= q < snap.buckets@[t].key@.len() ==> 0
                    <= #[trigger] snap.buckets@[t].key@[q] <= 15,
            forall|x: u64|
                #[trigger] kset@.contains(x) <==> exists|t: int|
                    0 <= t < td && x == #[trigger] norm_pack(*snap, t),
            forall|t: int, t2: int|
                0 <= t < t2 < td ==> #[trigger] sort_key_spec(snap.buckets@[t].key@)
                    != #[trigger] sort_key_spec(snap.buckets@[t2].key@),
        decreases snap.buckets@.len() - td,
    {
        let ks = key_sorted_vec(&snap.buckets[td].key);
        proof {
            lemma_norm_digits(snap.buckets@[td as int].key@);
        }
        let pk = match pack_key_i32(&ks) {
            Some(p) => p,
            None => {
                proof {
                    assert(false);
                }
                unreached()
            },
        };
        proof {
            assert(pk == norm_pack(*snap, td as int));
        }
        if kset.contains(&pk) {
            proof {
                let t = choose|t: int| 0 <= t < td && pk == #[trigger] norm_pack(*snap, t);
                lemma_norm_digits(snap.buckets@[t].key@);
                lemma_packed_keys_equal(norm_key(*snap, t), norm_key(*snap, td as int));
                if snapshot_ok(*snap) {
                    assert(sort_key_spec(snap.buckets@[t].key@) != sort_key_spec(
                        snap.buckets@[td as int].key@,
                    ));
                }
            }
            return false;
        }
        let ghost pre_set = kset@;
        kset.insert(pk);
        proof {
            assert forall|x: u64|
                #[trigger] kset@.contains(x) <==> exists|t: int|
                    0 <= t < td + 1 && x == #[trigger] norm_pack(*snap, t) by {
                if kset@.contains(x) {
                    if x != pk {
                        assert(pre_set.contains(x));
                    } else {
                        assert(x == norm_pack(*snap, td as int));
                    }
                }
                if exists|t: int| 0 <= t < td + 1 && x == #[trigger] norm_pack(*snap, t) {
                    let t = choose|t: int|
                        0 <= t < td + 1 && x == #[trigger] norm_pack(*snap, t);
                    if t < td {
                        assert(pre_set.contains(x));
                    }
                }
            }
            assert forall|t: int|
                0 <= t < td implies #[trigger] sort_key_spec(snap.buckets@[t].key@)
                != #[trigger] sort_key_spec(snap.buckets@[td as int].key@) by {
                if sort_key_spec(snap.buckets@[t].key@) == sort_key_spec(
                    snap.buckets@[td as int].key@,
                ) {
                    assert(norm_pack(*snap, t) == pk);
                    assert(pre_set.contains(pk));
                }
            }
        }
        td = td + 1;
    }
    true
}

/// Sum of the subtotals of the first `i` results.
pub open spec fn results_total(rs: Seq<PairResult>, i: int) -> nat
    decreases i,
{
    if i <= 0 {
        0
    } else {
        results_total(rs, i - 1) + (rs[i - 1].subtotal as nat)
    }
}

/// Pack a sorted key into its 64-bit form for pair lookup; refuse a
/// key whose digits do not fit a nibble.
fn pack_key_i32(key: &Vec<i32>) -> (r: Option<u64>)
    requires
        key@.len() <= 10,
        forall|a: int, b: int| 0 <= a <= b < key@.len() ==> key@[a] <= key@[b],
    ensures
        (forall|q: int| 0 <= q < key@.len() ==> 0 <= #[trigger] key@[q] <= 15) ==> (r == Some(
            pack_key_spec(digits8(key@)),
        )),
        r.is_some() ==> ((forall|q: int| 0 <= q < key@.len() ==> 0 <= #[trigger] key@[q] <= 15)
            && r == Some(pack_key_spec(digits8(key@)))),
{
    let mut digits: Vec<u8> = Vec::new();
    let mut q: usize = 0;
    while q < key.len()
        invariant
            key@.len() <= 10,
            q <= key@.len(),
            digits@.len() == q,
            forall|w: int| 0 <= w < q ==> 0 <= #[trigger] key@[w] <= 15,
            forall|w: int| 0 <= w < q ==> #[trigger] digits@[w] == key@[w] as u8,
        decreases key@.len() - q,
    {
        let v = key[q];
        if v < 0 || v > 15 {
            return None;
        }
        digits.push(v as u8);
        q = q + 1;
    }
    proof {
        assert(digits@ =~= digits8(key@));
        let leq = |a: u8, b: u8| a <= b;
        assert(vstd::relations::total_ordering(leq));
        assert(vstd::relations::sorted_by(digits@, leq)) by {
            assert forall|a: int, b: int| 0 <= a < b < digits@.len() implies leq(
                digits@[a],
                digits@[b],
            ) by {
                assert(key@[a] <= key@[b]);
            }
        }
        lemma_sort_pops_props(digits@);
        assert(vstd::relations::sorted_by(sort_pops(digits@), leq)) by {
            digits@.lemma_sort_by_ensures(leq);
        }
        vstd::seq_lib::lemma_sorted_unique(digits@, sort_pops(digits@), leq);
        assert(sort_pops(digits@) == digits@);
    }
    Some(pack_pop_key(&digits))
}

/// Find every complementary bucket pair, solve each once, and add up
/// the grand total: a self-paired bucket counts once, a distinct pair
/// twice. Exactly one result is returned per unordered complementary
/// pair, each with the exact doubled matching count. The pairs are
/// solved one after another; the total does not depend on their order.
pub fn run_all_pairs_parallel(snap: &Snapshot) -> (r: (Vec<PairResult>, u128))
    requires
        snapshot_ok(*snap),
    ensures
        r.1 == clip128(results_total(r.0@, r.0@.len() as int)),
        forall|k: int| 0 <= k < r.0@.len() ==> result_ok(#[trigger] r.0@[k], *snap),
        forall|a: int, b: int|
            0 <= a <= b < snap.buckets@.len() && #[trigger] complementary(*snap, a, b)
                ==> exists|k: int| 0 <= k < r.0@.len() && pair_is(#[trigger] r.0@[k], a, b),
        forall|k: int, k2: int|
            0 <= k < k2 < r.0@.len() ==> !pair_is(
                #[trigger] r.0@[k],
                r.0@[k2].left as int,
                #[trigger] r.0@[k2].right as int,
            ),
{
    let nb = snap.buckets.len();
    let mut key_to_idx: HashMap<u64, usize> = HashMap::new();
    let mut i: usize = 0;
    while i < nb
        invariant
            snapshot_ok(*snap),
            nb == snap.buckets@.len(),
            i <= nb,
            forall|t: int|
                0 <= t < i ==> key_to_idx@.contains_key(#[trigger] norm_pack(*snap, t))
                    && key_to_idx@[norm_pack(*snap, t)] == t,
            forall|x: u64|
                #[trigger] key_to_idx@.contains_key(x) ==> exists|t: int|
                    0 <= t < i && x == #[trigger] norm_pack(*snap, t) && key_to_idx@[x] == t,
        decreases nb - i,
    {
        let ks = key_sorted_vec(&snap.buckets[i].key);
        proof {
            lemma_norm_digits(snap.buckets@[i as int].key@);
        }
        let pk = match pack_key_i32(&ks) {
            Some(p) => p,
            None => {
                proof {
                    assert(false);
                }
                unreached()
            },
        };
        proof {
            assert(pk == norm_pack(*snap, i as int));
            assert forall|t: int| 0 <= t < i implies #[trigger] norm_pack(*snap, t) != pk by {
                lemma_norm_pack_distinct(*snap, t, i as int);
            }
        }
        key_to_idx.insert(pk, i);
        proof {
            assert forall|t: int|
                0 <= t < i + 1 implies key_to_idx@.contains_key(#[trigger] norm_pack(*snap, t))
                && key_to_idx@[norm_pack(*snap, t)] == t by {}
        }
        i = i + 1;
    }
    let mut seen: HashSet<u64> = HashSet::new();
    let mut tasks: Vec<(usize, usize)> = Vec::new();
    let mut i2: usize = 0;
    while i2 < nb
        invariant
            snapshot_ok(*snap),
            nb == snap.buckets@.len(),
            i2 <= nb,
            forall|t: int|
                0 <= t < nb ==> key_to_idx@.contains_key(#[trigger] norm_pack(*snap, t))
                    && key_to_idx@[norm_pack(*snap, t)] == t,
            forall|x: u64|
                #[trigger] key_to_idx@.contains_key(x) ==> exists|t: int|
                    0 <= t < nb && x == #[trigger] norm_pack(*snap, t) && key_to_idx@[x] == t,
            forall|k: int|
                0 <= k < tasks@.len() ==> (#[trigger] tasks@[k]).0 < nb && tasks@[k].1 < nb
                    && complementary(*snap, tasks@[k].0 as int, tasks@[k].1 as int)
                    && snap.buckets@[tasks@[k].0 as int].n_rows_spec()
                    <= snap.buckets@[tasks@[k].1 as int].n_rows_spec(),
            forall|x: u64|
                #[trigger] seen@.contains(x) ==> exists|k: int|
                    0 <= k < tasks@.len() && x as int == #[trigger] pair_code(
                        tasks@[k].0 as int,
                        tasks@[k].1 as int,
                    ),
            forall|k: int|
                0 <= k < tasks@.len() ==> seen@.contains(
                    (#[trigger] pair_code(tasks@[k].0 as int, tasks@[k].1 as int)) as u64,
                ),
            forall|k: int, k2: int|
                0 <= k < k2 < tasks@.len() ==> !(((#[trigger] tasks@[k]).0 == (
                #[trigger] tasks@[k2]).0 && tasks@[k].1 == tasks@[k2].1) || (tasks@[k].0
                    == tasks@[k2].1 && tasks@[k].1 == tasks@[k2].0)),
            forall|a: int, b: int|
                0 <= a < i2 && 0 <= b < nb && #[trigger] norm_key(*snap, b) == comp_key_spec(
                    #[trigger] norm_key(*snap, a),
                    snap.n_total,
                ) ==> exists|k: int|
                    0 <= k < tasks@.len() && (((#[trigger] tasks@[k]).0 == a && tasks@[k].1 == b)
                        || (tasks@[k].0 == b && tasks@[k].1 == a)),
        decreases nb - i2,
    {
        let ks = key_sorted_vec(&snap.buckets[i2].key);
        proof {
            lemma_norm_digits(snap.buckets@[i2 as int].key@);
        }
        let comp = compat_key_sorted(&ks, snap.n_total);
        proof {
            assert(comp@ == comp_key_spec(norm_key(*snap, i2 as int), snap.n_total));
            lemma_sort_key_props(Seq::new(ks@.len(), |q: int| (snap.n_total - ks@[q]) as i32));
        }
        let ghost pre_tasks = tasks@;
        let ghost pre_seen = seen@;
        match pack_key_i32(&comp) {
            Some(ck) => {
                match key_to_idx.get(&ck) {
                    Some(jref) => {
                        let j = *jref;
                        proof {
                            assert(norm_pack(*snap, j as int) == ck);
                            lemma_norm_digits(snap.buckets@[j as int].key@);
                            lemma_packed_keys_equal(norm_key(*snap, j as int), comp@);
                            assert(norm_key(*snap, j as int) == comp_key_spec(
                                norm_key(*snap, i2 as int),
                                snap.n_total,
                            ));
                        }
                        let (a, b) = if i2 <= j {
                            (i2, j)
                        } else {
                            (j, i2)
                        };
                        let code: u64 = (a as u64) * 0x1_0000_0000u64 + (b as u64);
                        proof {
                            assert(code as int == pair_code(i2 as int, j as int));
                            assert(code as int == pair_code(a as int, b as int));
                        }
                        if !seen.contains(&code) {
                            seen.insert(code);
                            let (left, right) = if snap.buckets[a].n_rows() <= snap.buckets[
                                b].n_rows() {
                                (a, b)
                            } else {
                                (b, a)
                            };
                            tasks.push((left, right));
                            proof {
                                assert(tasks@ == pre_tasks.push((left, right)));
                                assert(pair_code(left as int, right as int) == pair_code(
                                    a as int,
                                    b as int,
                                ));
                                assert forall|k: int, k2: int|
                                    0 <= k < k2 < tasks@.len() implies !(((
                                #[trigger] tasks@[k]).0 == (#[trigger] tasks@[k2]).0 && tasks@[k].1
                                    == tasks@[k2].1) || (tasks@[k].0 == tasks@[k2].1 && tasks@[k].1
                                    == tasks@[k2].0)) by {
                                    if k2 == tasks@.len() - 1 {
                                        if (tasks@[k].0 == tasks@[k2].0 && tasks@[k].1
                                            == tasks@[k2].1) || (tasks@[k].0 == tasks@[k2].1
                                            && tasks@[k].1 == tasks@[k2].0) {
                                            assert(pair_code(
                                                pre_tasks[k].0 as int,
                                                pre_tasks[k].1 as int,
                                            ) == pair_code(left as int, right as int));
                                            assert(pre_seen.contains(code));
                                        }
                                    }
                                }
                                assert forall|x: u64|
                                    #[trigger] seen@.contains(x) implies exists|k: int|
                                    0 <= k < tasks@.len() && x as int == #[trigger] pair_code(
                                        tasks@[k].0 as int,
                                        tasks@[k].1 as int,
                                    ) by {
                                    if x == code {
                                        assert(tasks@[tasks@.len() - 1].0 == left);
                                    } else {
                                        assert(pre_seen.contains(x));
                                        let k = choose|k: int|
                                            0 <= k < pre_tasks.len() && x as int
                                                == #[trigger] pair_code(
                                                pre_tasks[k].0 as int,
                                                pre_tasks[k].1 as int,
                                            );
                                        assert(tasks@[k] == pre_tasks[k]);
                                    }
                                }
                            }
                        } else {
                            proof {
                                assert(pre_seen.contains(code));
                            }
                        }
                        proof {
                            assert forall|a0: int, b0: int|
                                0 <= a0 < i2 + 1 && 0 <= b0 < nb && #[trigger] norm_key(*snap, b0)
                                == comp_key_spec(
                                    #[trigger] norm_key(*snap, a0),
                                    snap.n_total,
                                ) implies exists|
                                k: int,
                            |
                                0 <= k < tasks@.len() && (((#[trigger] tasks@[k]).0 == a0
                                    && tasks@[k].1 == b0) || (tasks@[k].0 == b0 && tasks@[k].1
                                    == a0)) by {
                                if a0 == i2 {
                                    assert(norm_key(*snap, b0) == comp@);
                                    assert(norm_pack(*snap, b0) == ck) by {
                                        assert(digits8(norm_key(*snap, b0)) == digits8(comp@));
                                    }
                                    assert(b0 == j as int) by {
                                        if b0 != j as int {
                                            lemma_norm_pack_distinct(*snap, b0, j as int);
                                        }
                                    }
                                    assert(seen@.contains(pair_code(i2 as int, j as int) as u64));
                                    let k = choose|k: int|
                                        0 <= k < tasks@.len() && pair_code(
                                            i2 as int,
                                            j as int,
                                        ) == #[trigger] pair_code(
                                            tasks@[k].0 as int,
                                            tasks@[k].1 as int,
                                        );
                                    lemma_pair_code_cases(
                                        tasks@[k].0 as int,
                                        tasks@[k].1 as int,
                                        i2 as int,
                                        j as int,
                                        nb as int,
                                    );
                                } else {
                                    let k = choose|k: int|
                                        0 <= k < pre_tasks.len() && (((
                                        #[trigger] pre_tasks[k]).0 == a0 && pre_tasks[k].1 == b0)
                                            || (pre_tasks[k].0 == b0 && pre_tasks[k].1 == a0));
                                    assert(tasks@[k] == pre_tasks[k]);
                                }
                            }
                        }
                    },
                    None => {
                        proof {
                            assert forall|b0: int|
                                0 <= b0 < nb implies #[trigger] norm_key(*snap, b0) != comp@ by {
                                if norm_key(*snap, b0) == comp@ {
                                    lemma_norm_digits(snap.buckets@[b0].key@);
                                    assert(norm_pack(*snap, b0) == ck) by {
                                        assert(digits8(norm_key(*snap, b0)) == digits8(comp@));
                                    }
                                    assert(key_to_idx@.contains_key(ck));
                                }
                            }
                        }
                    },
                }
            },
            None => {
                proof {
                    assert forall|b0: int|
                        0 <= b0 < nb implies #[trigger] norm_key(*snap, b0) != comp@ by {
                        if norm_key(*snap, b0) == comp@ {
                            lemma_norm_digits(snap.buckets@[b0].key@);
                        }
                    }
                }
            },
        }
        i2 = i2 + 1;
    }
    let mut results: Vec<PairResult> = Vec::new();
    let mut omega: u128 = 0;
    let mut t: usize = 0;
    while t < tasks.len()
        invariant
            snapshot_ok(*snap),
            nb == snap.buckets@.len(),
            t <= tasks@.len(),
            forall|k: int|
                0 <= k < tasks@.len() ==> (#[trigger] tasks@[k]).0 < nb && tasks@[k].1 < nb
                    && complementary(*snap, tasks@[k].0 as int, tasks@[k].1 as int)
                    && snap.buckets@[tasks@[k].0 as int].n_rows_spec()
                    <= snap.buckets@[tasks@[k].1 as int].n_rows_spec(),
            forall|k: int, k2: int|
                0 <= k < k2 < tasks@.len() ==> !(((#[trigger] tasks@[k]).0 == (
                #[trigger] tasks@[k2]).0 && tasks@[k].1 == tasks@[k2].1) || (tasks@[k].0
                    == tasks@[k2].1 && tasks@[k].1 == tasks@[k2].0)),
            forall|a: int, b: int|
                0 <= a < nb && 0 <= b < nb && #[trigger] norm_key(*snap, b) == comp_key_spec(
                    #[trigger] norm_key(*snap, a),
                    snap.n_total,
                ) ==> exists|k: int|
                    0 <= k < tasks@.len() && (((#[trigger] tasks@[k]).0 == a && tasks@[k].1 == b)
                        || (tasks@[k].0 == b && tasks@[k].1 == a)),
            results@.len() == t,
            omega == clip128(results_total(results@, t as int)),
            forall|k: int| 0 <= k < t ==> result_ok(#[trigger] results@[k], *snap),
            forall|k: int|
                0 <= k < t ==> (#[trigger] results@[k]).left == tasks@[k].0 && results@[k].right
                    == tasks@[k].1,
        decreases tasks@.len() - t,
    {
        let (left, right) = tasks[t];
        let factor: u32 = if left != right {
            2
        } else {
            1
        };
        let m = snap.jbt_ref_pop.len();
        let rows_by = build_rows_by_jbt(&snap.buckets[right], m);
        let cand_map = precompute_candidates_for_bucket1(
            &snap.buckets[left],
            &rows_by,
            &snap.jbt_ref_pop,
            snap.n_total,
            &snap.compat,
        );
        let sub = subtotal_for_pair(
            &snap.buckets[left],
            &snap.buckets[right],
            &snap.jbt_ref_pop,
            snap.n_total,
            &snap.compat,
            &rows_by,
            &cand_map,
        );
        let scaled = sat_mul(sub, factor as u128);
        proof {
            let bl = snap.buckets@[left as int];
            let br = snap.buckets@[right as int];
            let rb = deep_rows(rows_by@);
            let cd = deep_cands(cand_map@);
            assert(rows_index_ok(rb, br, snap.jbt_ref_pop@.len() as nat));
            assert(cand_index_ok(cd, snap.jbt_ref_pop@, snap.n_total, snap.compat@, rb));
            if bl.key@.len() == 0 {
                let v = wsum(bl.weights@, bl.weights@.len() as int) * wsum(
                    br.weights@,
                    br.weights@.len() as int,
                );
                crate::solve::lemma_clip_mul(v, factor as nat);
                assert(scaled == clip128((factor as nat) * v)) by (nonlinear_arith)
                    requires
                        scaled == clip128((clip128(v) * (factor as nat)) as nat),
                        clip128((clip128(v) * (factor as nat)) as nat) == clip128(
                            (v * (factor as nat)) as nat,
                        ),
                ;
            } else {
                let v = pair_subtotal_spec(bl, br, snap.jbt_ref_pop@, cd, rb);
                crate::solve::lemma_clip_mul(v, factor as nat);
                assert(scaled == clip128((factor as nat) * v)) by (nonlinear_arith)
                    requires
                        scaled == clip128((clip128(v) * (factor as nat)) as nat),
                        clip128((clip128(v) * (factor as nat)) as nat) == clip128(
                            (v * (factor as nat)) as nat,
                        ),
                ;
            }
        }
        let res = PairResult {
            left,
            right,
            key_left: snap.buckets[left].key.clone(),
            key_right: snap.buckets[right].key.clone(),
            rows1: snap.buckets[left].n_rows(),
            rows2: snap.buckets[right].n_rows(),
            subtotal: scaled,
            factor,
        };
        let ghost pre = results@;
        results.push(res);
        proof {
            crate::solve::lemma_clip_add(results_total(pre, t as int), scaled as nat);
            assert(results_total(results@, t + 1) == results_total(pre, t as int) + (
            scaled as nat)) by {
                lemma_results_total_push(pre, results@[t as int], t as int);
            }
        }
        omega = sat_add(omega, scaled);
        t = t + 1;
    }
    proof {
        assert forall|a: int, b: int|
            0 <= a <= b < snap.buckets@.len() && #[trigger] complementary(*snap, a, b)
                implies exists|k: int|
            0 <= k < results@.len() && pair_is(#[trigger] results@[k], a, b) by {
            if norm_key(*snap, b) == comp_key_spec(norm_key(*snap, a), snap.n_total) {
                let k = choose|k: int|
                    0 <= k < tasks@.len() && (((#[trigger] tasks@[k]).0 == a && tasks@[k].1 == b)
                        || (tasks@[k].0 == b && tasks@[k].1 == a));
                assert(pair_is(results@[k], a, b));
            } else {
                let k = choose|k: int|
                    0 <= k < tasks@.len() && (((#[trigger] tasks@[k]).0 == b && tasks@[k].1 == a)
                        || (tasks@[k].0 == a && tasks@[k].1 == b));
                assert(pair_is(results@[k], a, b));
            }
        }
        assert forall|k: int, k2: int|
            0 <= k < k2 < results@.len() implies !pair_is(
            #[trigger] results@[k],
            results@[k2].left as int,
            #[trigger] results@[k2].right as int,
        ) by {
            assert(results@[k].left == tasks@[k].0 && results@[k].right == tasks@[k].1);
            assert(results@[k2].left == tasks@[k2].0 && results@[k2].right == tasks@[k2].1);
        }
    }
    (results, omega)
}

/// Two unordered pairs below the bucket count with the same code are
/// the same pair.
proof fn lemma_pair_code_cases(l: int, r: int, a: int, b: int, nb: int)
    requires
        0 <= l < nb,
        0 <= r < nb,
        0 <= a < nb,
        0 <= b < nb,
        nb <= 0x8000_0000,
        pair_code(l, r) == pair_code(a, b),
    ensures
        (l == a && r == b) || (l == b && r == a),
{
    let (lo, hi): (int, int) = if l <= r {
        (l, r)
    } else {
        (r, l)
    };
    let (lo2, hi2): (int, int) = if a <= b {
        (a, b)
    } else {
        (b, a)
    };
    assert(pair_code(l, r) == lo * 0x1_0000_0000 + hi);
    assert(pair_code(a, b) == lo2 * 0x1_0000_0000 + hi2);
    lemma_pair_code_injective(lo as u64, hi as u64, lo2 as u64, hi2 as u64);
}

proof fn lemma_results_total_push(pre: Seq<PairResult>, e: PairResult, t: int)
    requires
        t == pre.len(),
    ensures
        results_total(pre.push(e), t + 1) == results_total(pre, t) + (e.subtotal as nat),
    decreases t,
{
    lemma_results_total_prefix(pre.push(e), pre, t);
}

proof fn lemma_results_total_prefix(a: Seq<PairResult>, b: Seq<PairResult>, i: int)
    requires
        i <= a.len(),
        i <= b.len(),
        forall|q: int| 0 <= q < i ==> a[q] == b[q],
    ensures
        results_total(a, i) == results_total(b, i),
    decreases i,
{
    if i > 0 {
        lemma_results_total_prefix(a, b, i - 1);
    }
}

} // verus!
