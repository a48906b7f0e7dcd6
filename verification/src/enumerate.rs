//! The enumeration driver: advance root by root over the left half,
//! joining frontier partial tilings with the library pieces anchored at
//! the current root, pruning unfillable holes, and accumulating
//! completed tilings into population-keyed output buckets.

use vstd::prelude::*;

use crate::board::{
    detect_evil_pmask, evil_rec, find_root, find_root_spec, half_mask_spec, left_half_mask,
};
use crate::bucket::{clip32, contains_code, entries_of, weight_of, AOBucket, Entry};
use crate::code::{
    bitwidth, code_field, code_indices, code_insert, code_insert_spec, code_len_spec, code_seq,
    code_wf, fmask, sorted_insert, width_ok, lemma_sorted_insert_props,
};
use crate::bits::{lemma_fit128, lemma_mask128, lemma_mask64};
use crate::errors::MatcherError;
use crate::keyed::KeyedBuckets;
use crate::popkey::{decode_pop_key, key_digit, key_len, lemma_pack_key, pack_key_spec, pack_pop_key};
use crate::sorting::{lemma_sort_pops_props, sort_pops};
use crate::types::{Bucket, Snapshot};

verus! {

/// The piece library in CSR form: pieces grouped by anchor root.
#[derive(Debug)]
pub struct PreCsr {
    pub masks: Vec<u64>,
    pub pops: Vec<u8>,
    pub jidx: Vec<u32>,
    pub offsets: Vec<usize>,
    pub n_roots: usize,
}

impl PreCsr {
    pub open spec fn wf(self, m: nat, n: u32) -> bool {
        &&& self.offsets@.len() == self.n_roots + 1
        &&& forall|i: int, j: int|
            0 <= i <= j < self.offsets@.len() ==> self.offsets@[i] <= self.offsets@[j]
        &&& self.offsets@[self.offsets@.len() - 1] == self.masks@.len()
        &&& self.pops@.len() == self.masks@.len()
        &&& self.jidx@.len() == self.masks@.len()
        &&& forall|k: int| 0 <= k < self.jidx@.len() ==> (#[trigger] self.jidx@[k] as nat) < m
        &&& forall|k: int|
            0 <= k < self.masks@.len() ==> (#[trigger] self.masks@[k] & !half_mask_spec(n) == 0
                && self.masks@[k] != 0)
    }
}

/// The validated library tables.
#[derive(Debug)]
pub struct Inputs {
    pub n: u32,
    pub m: usize,
    pub pre: PreCsr,
    pub jbt_ref_pop: Vec<i32>,
    pub jbt_ref_comps: Vec<[u16; 3]>,
}

impl Inputs {
    pub open spec fn wf(self) -> bool {
        &&& 2 <= self.n <= 10
        &&& self.n % 2 == 0
        &&& self.m <= 4096
        &&& self.pre.wf(self.m as nat, self.n)
        &&& self.pre.n_roots == self.n * (self.n / 2)
        &&& self.jbt_ref_pop@.len() == self.m
        &&& forall|q: int|
            0 <= q < self.jbt_ref_pop@.len() ==> 0 <= #[trigger] self.jbt_ref_pop@[q] <= 15
        &&& self.jbt_ref_comps@.len() == self.m
    }
}

/// Everything the loaded arrays must satisfy before enumeration.
pub open spec fn arrays_ok(
    n_val: i32,
    m_val: i32,
    masks: Seq<u64>,
    pops: Seq<u8>,
    jidx: Seq<u32>,
    offsets: Seq<i64>,
    jpop: Seq<i32>,
    comps: Seq<[u16; 3]>,
) -> bool {
    &&& 2 <= n_val <= 10
    &&& n_val % 2 == 0
    &&& 0 <= m_val <= 4096
    &&& pops.len() == masks.len()
    &&& jidx.len() == masks.len()
    &&& jpop.len() == m_val
    &&& (comps.len() == m_val || comps.len() == 0)
    &&& offsets.len() == n_val * (n_val / 2) + 1
    &&& forall|i: int, j: int| 0 <= i <= j < offsets.len() ==> offsets[i] <= offsets[j]
    &&& offsets.len() > 0 ==> offsets[0] >= 0 && offsets[offsets.len() - 1] == masks.len()
    &&& forall|k: int| 0 <= k < jidx.len() ==> (#[trigger] jidx[k] as int) < m_val
    &&& forall|k: int|
        0 <= k < masks.len() ==> (#[trigger] masks[k] & !half_mask_spec(n_val as u32) == 0
            && masks[k] != 0)
    &&& forall|q: int| 0 <= q < jpop.len() ==> 0 <= #[trigger] jpop[q] <= 15
}

/// Validate the raw arrays of the piece library. Every structural fault
/// is fatal here, so enumeration itself never fails on its inputs.
pub fn inputs_from_arrays(
    n_val: i32,
    m_val: i32,
    masks: Vec<u64>,
    pops: Vec<u8>,
    jidx: Vec<u32>,
    offsets: Vec<i64>,
    jbt_ref_pop: Vec<i32>,
    jbt_ref_comps: Vec<[u16; 3]>,
) -> (r: Result<Inputs, MatcherError>)
    ensures
        r.is_ok() <==> arrays_ok(
            n_val,
            m_val,
            masks@,
            pops@,
            jidx@,
            offsets@,
            jbt_ref_pop@,
            jbt_ref_comps@,
        ),
        r.is_ok() ==> {
            let inp = r.unwrap();
            &&& inp.wf()
            &&& inp.n == n_val
            &&& inp.m == m_val
            &&& inp.pre.masks@ == masks@
            &&& inp.pre.pops@ == pops@
            &&& inp.pre.jidx@ == jidx@
            &&& inp.pre.offsets@.len() == offsets@.len()
            &&& forall|i: int|
                0 <= i < offsets@.len() ==> #[trigger] inp.pre.offsets@[i] == offsets@[i]
            &&& inp.jbt_ref_pop@ == jbt_ref_pop@
            &&& (jbt_ref_comps@.len() > 0 ==> inp.jbt_ref_comps@ == jbt_ref_comps@)
            &&& (jbt_ref_comps@.len() == 0 ==> forall|q: int|
                0 <= q < inp.jbt_ref_comps@.len() ==> #[trigger] inp.jbt_ref_comps@[q] == [
                    0u16,
                    0u16,
                    0u16,
                ])
        },
{
    if n_val < 2 || n_val > 10 || n_val % 2 != 0 {
        return Err(MatcherError::BoardSize);
    }
    if m_val < 0 || m_val > 4096 {
        return Err(MatcherError::CodeWidth);
    }
    let n = n_val as u32;
    let m = m_val as usize;
    if pops.len() != masks.len() || jidx.len() != masks.len() {
        return Err(MatcherError::MismatchedLengths);
    }
    if jbt_ref_pop.len() != m {
        return Err(MatcherError::MismatchedLengths);
    }
    if jbt_ref_comps.len() != m && jbt_ref_comps.len() != 0 {
        return Err(MatcherError::MismatchedLengths);
    }
    proof {
        assert((n as int) * ((n as int) / 2) <= 50) by (nonlinear_arith)
            requires
                2 <= n <= 10,
        ;
    }
    let total_roots: usize = (n as usize) * ((n as usize) / 2);
    if offsets.len() != total_roots + 1 {
        return Err(MatcherError::OffsetsInvalid);
    }
    let mut i: usize = 0;
    let mut prev: i64 = 0;
    while i < offsets.len()
        invariant
            i <= offsets@.len(),
            forall|q: int, q2: int| 0 <= q <= q2 < i ==> offsets@[q] <= offsets@[q2],
            i > 0 ==> prev == offsets@[i - 1] && offsets@[0] >= 0,
            i > 0 ==> 0 <= prev,
        decreases offsets@.len() - i,
    {
        let v = offsets[i];
        if v < 0 || (i > 0 && v < prev) {
            return Err(MatcherError::OffsetsInvalid);
        }
        proof {
            assert forall|q: int, q2: int| 0 <= q <= q2 < i + 1 implies offsets@[q]
                <= offsets@[q2] by {
                if q2 == i && q < i {
                    assert(offsets@[q] <= offsets@[i - 1]);
                }
            }
        }
        prev = v;
        i = i + 1;
    }
    let last = offsets[total_roots];
    if last < 0 || last as u64 != masks.len() as u64 {
        return Err(MatcherError::OffsetsInvalid);
    }
    proof {
        assert(offsets@[total_roots as int] == masks@.len());
    }
    let mut offs: Vec<usize> = Vec::new();
    let mut i3: usize = 0;
    while i3 < offsets.len()
        invariant
            i3 <= offsets@.len(),
            offs@.len() == i3,
            total_roots + 1 == offsets@.len(),
            forall|q: int, q2: int| 0 <= q <= q2 < offsets@.len() ==> offsets@[q] <= offsets@[q2],
            offsets@[0] >= 0,
            offsets@[total_roots as int] == masks@.len(),
            masks@.len() <= usize::MAX,
            forall|q: int| 0 <= q < i3 ==> #[trigger] offs@[q] == offsets@[q],
        decreases offsets@.len() - i3,
    {
        let v = offsets[i3];
        proof {
            assert(offsets@[0] <= offsets@[i3 as int]);
            assert(offsets@[i3 as int] <= offsets@[total_roots as int]);
        }
        offs.push(v as usize);
        i3 = i3 + 1;
    }
    let mut k: usize = 0;
    while k < jidx.len()
        invariant
            k <= jidx@.len(),
            forall|q: int| 0 <= q < k ==> (#[trigger] jidx@[q] as int) < m_val,
            m == m_val,
        decreases jidx@.len() - k,
    {
        if jidx[k] >= m as u32 {
            return Err(MatcherError::PieceIndexRange);
        }
        proof {
            assert(jidx@[k as int] < m);
        }
        k = k + 1;
    }
    let half = left_half_mask(n);
    let mut k2: usize = 0;
    while k2 < masks.len()
        invariant
            k2 <= masks@.len(),
            half == half_mask_spec(n),
            n == n_val,
            forall|q: int|
                0 <= q < k2 ==> (#[trigger] masks@[q] & !half_mask_spec(n) == 0 && masks@[q]
                    != 0),
        decreases masks@.len() - k2,
    {
        if masks[k2] & !half != 0 || masks[k2] == 0 {
            return Err(MatcherError::PieceMaskRange);
        }
        k2 = k2 + 1;
    }
    let mut q: usize = 0;
    while q < jbt_ref_pop.len()
        invariant
            q <= jbt_ref_pop@.len(),
            forall|t: int| 0 <= t < q ==> 0 <= #[trigger] jbt_ref_pop@[t] <= 15,
        decreases jbt_ref_pop@.len() - q,
    {
        if jbt_ref_pop[q] < 0 || jbt_ref_pop[q] > 15 {
            return Err(MatcherError::PopulationRange);
        }
        q = q + 1;
    }
    let comps: Vec<[u16; 3]> = if jbt_ref_comps.len() == 0 {
        let mut z: Vec<[u16; 3]> = Vec::new();
        let mut t: usize = 0;
        while t < m
            invariant
                t <= m,
                z@.len() == t,
                forall|w: int| 0 <= w < t ==> #[trigger] z@[w] == [0u16, 0u16, 0u16],
            decreases m - t,
        {
            z.push([0u16, 0u16, 0u16]);
            t = t + 1;
        }
        z
    } else {
        jbt_ref_comps
    };
    let pre = PreCsr { masks, pops, jidx, offsets: offs, n_roots: total_roots };
    Ok(Inputs { n, m, pre, jbt_ref_pop, jbt_ref_comps: comps })
}

/// The populations of the pieces named by a code.
pub open spec fn pops_of_code(c: u128, b: u32, pop: Seq<i32>) -> Seq<u8> {
    Seq::new(code_len_spec(c), |i: int| pop[code_field(c, i, b) as int] as u8)
}

/// The packed population key of a code.
pub open spec fn code_pop_key_spec(c: u128, b: u32, pop: Seq<i32>) -> u64 {
    pack_key_spec(sort_pops(pops_of_code(c, b, pop)))
}

/// Every field of `c` names a piece below `m`.
pub open spec fn code_indices_ok(c: u128, b: u32, m: nat) -> bool {
    forall|i: int| 0 <= i < code_len_spec(c) ==> (#[trigger] code_field(c, i, b) as nat) < m
}

/// Every code in a batch is well-formed and names pieces below `m`.
pub open spec fn codes_ok(s: Seq<Entry>, b: u32, m: nat) -> bool {
    forall|c: u128|
        #[trigger] contains_code(s, c) ==> code_wf(c, b) && code_indices_ok(c, b, m)
}

/// Pack the populations of the pieces in `c` into a key.
pub fn code_pop_key(c: u128, b: u32, jbt_ref_pop: &Vec<i32>) -> (key: u64)
    requires
        width_ok(b),
        code_len_spec(c) <= 10,
        code_indices_ok(c, b, jbt_ref_pop@.len() as nat),
        forall|q: int| 0 <= q < jbt_ref_pop@.len() ==> 0 <= #[trigger] jbt_ref_pop@[q] <= 15,
    ensures
        key == code_pop_key_spec(c, b, jbt_ref_pop@),
{
    let idxs = code_indices(c, b);
    let mut pops: Vec<u8> = Vec::new();
    let mut i: usize = 0;
    while i < idxs.len()
        invariant
            idxs@ == code_seq(c, b),
            width_ok(b),
            code_len_spec(c) <= 10,
            code_indices_ok(c, b, jbt_ref_pop@.len() as nat),
            forall|q: int| 0 <= q < jbt_ref_pop@.len() ==> 0 <= #[trigger] jbt_ref_pop@[q] <= 15,
            i <= idxs@.len(),
            pops@.len() == i,
            forall|q: int| 0 <= q < i ==> #[trigger] pops@[q] == pops_of_code(c, b, jbt_ref_pop@)[q],
        decreases idxs@.len() - i,
    {
        let j = idxs[i];
        proof {
            assert(code_field(c, i as int, b) == j);
        }
        let p = jbt_ref_pop[j as usize];
        pops.push(p as u8);
        i = i + 1;
    }
    proof {
        assert(pops@ =~= pops_of_code(c, b, jbt_ref_pop@));
    }
    pack_pop_key(&pops)
}

/// Join one library piece with a drained bucket's codes: the piece's
/// index is inserted into every code, unless the piece is a full-height
/// marker whose index is not recorded.
fn transform_codes(codes: &Vec<u128>, weights: &Vec<u32>, j_pre: u32, full: bool, b: u32, m: usize) -> (r: (Vec<u128>, Vec<u32>))
    requires
        codes@.len() == weights@.len(),
        width_ok(b),
        codes_ok(entries_of(codes@, weights@), b, m as nat),
        (j_pre as nat) < m || full,
        (m as u128) <= (1u128 << (b as u128)),
    ensures
        r.0@.len() == r.1@.len(),
        r.1@ == weights@,
        codes_ok(entries_of(r.0@, r.1@), b, m as nat),
        forall|q: int|
            0 <= q < r.0@.len() ==> code_len_spec(#[trigger] r.0@[q]) <= 10,
        forall|q: int|
            0 <= q < r.0@.len() ==> #[trigger] r.0@[q] == joined_code(codes@[q], j_pre, full, b),
{
    let mut out_c: Vec<u128> = Vec::new();
    let mut out_w: Vec<u32> = Vec::new();
    let mut i: usize = 0;
    while i < codes.len()
        invariant
            codes@.len() == weights@.len(),
            width_ok(b),
            codes_ok(entries_of(codes@, weights@), b, m as nat),
            (j_pre as nat) < m || full,
            (m as u128) <= (1u128 << (b as u128)),
            i <= codes@.len(),
            out_c@.len() == i,
            out_w@ == weights@.take(i as int),
            forall|q: int|
                0 <= q < out_c@.len() ==> #[trigger] out_c@[q] == joined_code(
                    codes@[q],
                    j_pre,
                    full,
                    b,
                ),
            codes_ok(entries_of(out_c@, out_w@), b, m as nat),
            forall|q: int|
                0 <= q < out_c@.len() ==> code_len_spec(#[trigger] out_c@[q]) <= 10,
        decreases codes@.len() - i,
    {
        let c = codes[i];
        proof {
            assert(contains_code(entries_of(codes@, weights@), c)) by {
                assert(entries_of(codes@, weights@)[i as int].0 == c);
            }
        }
        let c2: u128 = if full {
            c
        } else {
            proof {
                lemma_fit128(j_pre as u128, m as u128, b as u128);
            }
            let (cc, ins) = code_insert(c, j_pre, b);
            proof {
                if ins {
                    lemma_sorted_insert_props(code_seq(c, b), j_pre);
                    assert forall|q: int|
                        0 <= q < code_len_spec(cc) implies (#[trigger] code_field(cc, q, b) as nat)
                        < m by {
                        assert(code_seq(cc, b)[q] == code_field(cc, q, b));
                        assert(code_seq(cc, b).contains(code_field(cc, q, b)));
                        if code_field(cc, q, b) != j_pre {
                            assert(code_seq(c, b).contains(code_field(cc, q, b)));
                            let w = choose|w: int|
                                0 <= w < code_seq(c, b).len() && code_seq(c, b)[w] == code_field(
                                    cc,
                                    q,
                                    b,
                                );
                            assert(code_field(c, w, b) == code_field(cc, q, b));
                        }
                    }
                }
            }
            cc
        };
        let ghost pre_c = out_c@;
        let ghost pre_w = out_w@;
        out_c.push(c2);
        out_w.push(weights[i]);
        proof {
            assert(out_w@ =~= weights@.take(i as int + 1));
            assert forall|cx: u128|
                #[trigger] contains_code(entries_of(out_c@, out_w@), cx) implies code_wf(cx, b)
                && code_indices_ok(cx, b, m as nat) by {
                let q = choose|q: int|
                    0 <= q < entries_of(out_c@, out_w@).len() && entries_of(out_c@, out_w@)[q].0
                        == cx;
                if q < pre_c.len() {
                    assert(entries_of(pre_c, pre_w)[q].0 == cx);
                    assert(contains_code(entries_of(pre_c, pre_w), cx));
                } else {
                    assert(cx == c2);
                }
            }
        }
        i = i + 1;
    }
    proof {
        assert(out_w@ =~= weights@);
    }
    (out_c, out_w)
}

/// A non-empty subset of the half board has its lowest cell on the
/// half board.
proof fn lemma_root_in_range(cmask: u64, n: u32)
    requires
        2 <= n <= 10,
        cmask & !half_mask_spec(n) == 0,
        cmask != 0,
    ensures
        (vstd::std_specs::bits::u64_trailing_zeros(cmask) as int) < n * (n / 2),
{
    vstd::std_specs::bits::axiom_u64_trailing_zeros(cmask);
    let t = vstd::std_specs::bits::u64_trailing_zeros(cmask);
    let hbl: int = (n as int) * ((n as int) / 2);
    assert(2 <= hbl <= 50) by (nonlinear_arith)
        requires
            2 <= n <= 10 && hbl == (n as int) * ((n as int) / 2),
    ;
    let hb: u64 = hbl as u64;
    assert(t < hb) by (bit_vector)
        requires
            cmask & !((((1u128 << (hb as u128)) - 1) as u64)) == 0,
            (cmask >> (t as u64)) & 1 == 1,
            2 <= hb <= 50,
            t < 64,
    ;
}

/// The code a piece writes into a joined tiling: unchanged for a
/// full-height piece, else with the piece's index inserted.
pub open spec fn joined_code(c: u128, j: u32, full: bool, b: u32) -> u128 {
    if full {
        c
    } else {
        code_insert_spec(c, j, b).0
    }
}

/// The effective end of root `i`'s piece range: the opening root may
/// be capped by the configured limit.
pub open spec fn e_eff_spec(pre: PreCsr, i: int, first_limit: Option<usize>) -> int {
    let s = pre.offsets@[i] as int;
    let e = pre.offsets@[i + 1] as int;
    if i == 0 && first_limit.is_some() && (first_limit.unwrap() as int) < e - s {
        s + first_limit.unwrap()
    } else {
        e
    }
}

/// The drained frontier of the processed root, flushed: the same keys,
/// and per key the same codes with the clipped accumulated weights.
pub open spec fn drained_rep(pms: Seq<u64>, bks: Seq<AOBucket>, fr: KeyedBuckets) -> bool {
    &&& pms == fr.keys@
    &&& bks.len() == pms.len()
    &&& forall|q: int|
        0 <= q < bks.len() ==> ((#[trigger] bks[q]).wf() && bks[q].pend_codes@.len() == 0 && (
        forall|c: u128|
            #[trigger] contains_code(bks[q].all_entries(), c) <==> contains_code(
                fr.entries_for(pms[q]),
                c,
            )) && (forall|c: u128|
            #[trigger] weight_of(bks[q].all_entries(), c) == clip32(
                weight_of(fr.entries_for(pms[q]), c),
            )))
}

/// Weight that entry `t` of drained bucket `idx`, joined with library
/// piece `k`, contributes to output key `key` and code `c2`: its
/// weight when the piece is disjoint from the partial mask, the grown
/// mask is not pruned as unfillable, it covers the half, and the
/// joined code and its population key are the addressed ones.
pub open spec fn join_contrib(
    pms: Seq<u64>,
    bks: Seq<AOBucket>,
    pre: PreCsr,
    i: int,
    n: u32,
    b: u32,
    pop: Seq<i32>,
    total_roots: int,
    key: u64,
    c2: u128,
    k: int,
    idx: int,
    t: int,
) -> nat {
    let pm = pms[idx];
    let mk = pre.masks@[k];
    let nm = pm | mk;
    let full = pre.pops@[k] == n;
    let cj = joined_code(bks[idx].codes@[t], pre.jidx@[k], full, b);
    if pm & mk == 0 && !(i + n < total_roots && evil_rec(nm ^ half_mask_spec(n), n)) && nm
        ^ half_mask_spec(n) == 0 && cj == c2 && code_pop_key_spec(cj, b, pop) == key {
        bks[idx].weights@[t] as nat
    } else {
        0
    }
}

/// Total contribution to (`key`, `c2`) from position (k, idx, t) on:
/// pieces `k` to `e_eff`, all drained buckets, all their entries.
pub open spec fn join_from(
    pms: Seq<u64>,
    bks: Seq<AOBucket>,
    pre: PreCsr,
    i: int,
    n: u32,
    b: u32,
    pop: Seq<i32>,
    total_roots: int,
    key: u64,
    c2: u128,
    k: int,
    e_eff: int,
    idx: int,
    t: int,
) -> nat
    decreases e_eff - k, pms.len() - idx, (if 0 <= idx < bks.len() {
        bks[idx].codes@.len() - t
    } else {
        0int
    }),
{
    if k < 0 || k >= e_eff || idx < 0 || t < 0 || bks.len() != pms.len() {
        0
    } else if idx >= pms.len() {
        join_from(pms, bks, pre, i, n, b, pop, total_roots, key, c2, k + 1, e_eff, 0, 0)
    } else if t >= bks[idx].codes@.len() {
        join_from(pms, bks, pre, i, n, b, pop, total_roots, key, c2, k, e_eff, idx + 1, 0)
    } else {
        join_contrib(pms, bks, pre, i, n, b, pop, total_roots, key, c2, k, idx, t) + join_from(
            pms,
            bks,
            pre,
            i,
            n,
            b,
            pop,
            total_roots,
            key,
            c2,
            k,
            e_eff,
            idx,
            t + 1,
        )
    }
}

/// When every entry of bucket `idx` contributes nothing under piece
/// `k`, the running total passes straight to the next bucket.
proof fn lemma_join_skip_bucket(
    pms: Seq<u64>,
    bks: Seq<AOBucket>,
    pre: PreCsr,
    i: int,
    n: u32,
    b: u32,
    pop: Seq<i32>,
    total_roots: int,
    key: u64,
    c2: u128,
    k: int,
    e_eff: int,
    idx: int,
    t: int,
)
    requires
        0 <= k < e_eff,
        0 <= idx < pms.len(),
        bks.len() == pms.len(),
        0 <= t,
        forall|t2: int|
            t <= t2 < bks[idx].codes@.len() ==> join_contrib(
                pms,
                bks,
                pre,
                i,
                n,
                b,
                pop,
                total_roots,
                key,
                c2,
                k,
                idx,
                t2,
            ) == 0,
    ensures
        join_from(pms, bks, pre, i, n, b, pop, total_roots, key, c2, k, e_eff, idx, t)
            == join_from(pms, bks, pre, i, n, b, pop, total_roots, key, c2, k, e_eff, idx + 1, 0),
    decreases bks[idx].codes@.len() - t,
{
    if t < bks[idx].codes@.len() {
        lemma_join_skip_bucket(pms, bks, pre, i, n, b, pop, total_roots, key, c2, k, e_eff, idx, t + 1);
    }
}

/// The running totals agree: what the output holds now, plus the
/// contributions still to come from position (k, idx, t), equals what
/// it held at the start of the root plus the whole root's
/// contribution — all modulo weight clipping.
pub open spec fn join_acc_ok(
    st_out: KeyedBuckets,
    out0: KeyedBuckets,
    pms: Seq<u64>,
    bks: Seq<AOBucket>,
    pre: PreCsr,
    i: int,
    n: u32,
    b: u32,
    pop: Seq<i32>,
    total_roots: int,
    s: int,
    e_eff: int,
    k: int,
    idx: int,
    t: int,
) -> bool {
    forall|key: u64, c2: u128|
        #![trigger weight_of(st_out.entries_for(key), c2)]
        clip32(
            (weight_of(st_out.entries_for(key), c2) + join_from(
                pms,
                bks,
                pre,
                i,
                n,
                b,
                pop,
                total_roots,
                key,
                c2,
                k,
                e_eff,
                idx,
                t,
            )) as nat,
        ) == clip32(
            (weight_of(out0.entries_for(key), c2) + join_from(
                pms,
                bks,
                pre,
                i,
                n,
                b,
                pop,
                total_roots,
                key,
                c2,
                s,
                e_eff,
                0,
                0,
            )) as nat,
        )
}

/// Skipping a bucket whose entries all contribute nothing advances
/// the running-total position.
proof fn lemma_acc_skip(
    st_out: KeyedBuckets,
    out0: KeyedBuckets,
    pms: Seq<u64>,
    bks: Seq<AOBucket>,
    pre: PreCsr,
    i: int,
    n: u32,
    b: u32,
    pop: Seq<i32>,
    total_roots: int,
    s: int,
    e_eff: int,
    k: int,
    idx: int,
)
    requires
        join_acc_ok(st_out, out0, pms, bks, pre, i, n, b, pop, total_roots, s, e_eff, k, idx, 0),
        0 <= k < e_eff,
        0 <= idx < pms.len(),
        bks.len() == pms.len(),
        forall|key: u64, c2: u128, t2: int|
            0 <= t2 < bks[idx].codes@.len() ==> #[trigger] join_contrib(
                pms,
                bks,
                pre,
                i,
                n,
                b,
                pop,
                total_roots,
                key,
                c2,
                k,
                idx,
                t2,
            ) == 0,
    ensures
        join_acc_ok(
            st_out,
            out0,
            pms,
            bks,
            pre,
            i,
            n,
            b,
            pop,
            total_roots,
            s,
            e_eff,
            k,
            idx + 1,
            0,
        ),
{
    assert forall|key: u64, c2: u128|
        #![trigger weight_of(st_out.entries_for(key), c2)]
        clip32(
            (weight_of(st_out.entries_for(key), c2) + join_from(
                pms,
                bks,
                pre,
                i,
                n,
                b,
                pop,
                total_roots,
                key,
                c2,
                k,
                e_eff,
                idx + 1,
                0,
            )) as nat,
        ) == clip32(
        (weight_of(out0.entries_for(key), c2) + join_from(
            pms,
            bks,
            pre,
            i,
            n,
            b,
            pop,
            total_roots,
            key,
            c2,
            s,
            e_eff,
            0,
            0,
        )) as nat,
    ) by {
        lemma_join_skip_bucket(pms, bks, pre, i, n, b, pop, total_roots, key, c2, k, e_eff, idx, 0);
        assert(weight_of(st_out.entries_for(key), c2) == weight_of(
            st_out.entries_for(key),
            c2,
        ));
    }
}

/// A bucket whose entries are exhausted advances the position.
proof fn lemma_acc_next_bucket(
    st_out: KeyedBuckets,
    out0: KeyedBuckets,
    pms: Seq<u64>,
    bks: Seq<AOBucket>,
    pre: PreCsr,
    i: int,
    n: u32,
    b: u32,
    pop: Seq<i32>,
    total_roots: int,
    s: int,
    e_eff: int,
    k: int,
    idx: int,
)
    requires
        join_acc_ok(
            st_out,
            out0,
            pms,
            bks,
            pre,
            i,
            n,
            b,
            pop,
            total_roots,
            s,
            e_eff,
            k,
            idx,
            bks[idx].codes@.len() as int,
        ),
        0 <= k < e_eff,
        0 <= idx < pms.len(),
        bks.len() == pms.len(),
    ensures
        join_acc_ok(
            st_out,
            out0,
            pms,
            bks,
            pre,
            i,
            n,
            b,
            pop,
            total_roots,
            s,
            e_eff,
            k,
            idx + 1,
            0,
        ),
{
    assert forall|key: u64, c2: u128|
        #![trigger weight_of(st_out.entries_for(key), c2)]
        clip32(
            (weight_of(st_out.entries_for(key), c2) + join_from(
                pms,
                bks,
                pre,
                i,
                n,
                b,
                pop,
                total_roots,
                key,
                c2,
                k,
                e_eff,
                idx + 1,
                0,
            )) as nat,
        ) == clip32(
        (weight_of(out0.entries_for(key), c2) + join_from(
            pms,
            bks,
            pre,
            i,
            n,
            b,
            pop,
            total_roots,
            key,
            c2,
            s,
            e_eff,
            0,
            0,
        )) as nat,
    ) by {
        assert(join_from(
            pms,
            bks,
            pre,
            i,
            n,
            b,
            pop,
            total_roots,
            key,
            c2,
            k,
            e_eff,
            idx,
            bks[idx].codes@.len() as int,
        ) == join_from(
            pms,
            bks,
            pre,
            i,
            n,
            b,
            pop,
            total_roots,
            key,
            c2,
            k,
            e_eff,
            idx + 1,
            0,
        ));
        assert(weight_of(st_out.entries_for(key), c2) == weight_of(
            st_out.entries_for(key),
            c2,
        ));
    }
}

/// All buckets done under piece `k`: the position moves to the next
/// piece.
proof fn lemma_acc_next_piece(
    st_out: KeyedBuckets,
    out0: KeyedBuckets,
    pms: Seq<u64>,
    bks: Seq<AOBucket>,
    pre: PreCsr,
    i: int,
    n: u32,
    b: u32,
    pop: Seq<i32>,
    total_roots: int,
    s: int,
    e_eff: int,
    k: int,
)
    requires
        join_acc_ok(
            st_out,
            out0,
            pms,
            bks,
            pre,
            i,
            n,
            b,
            pop,
            total_roots,
            s,
            e_eff,
            k,
            pms.len() as int,
            0,
        ),
        0 <= k < e_eff,
        bks.len() == pms.len(),
    ensures
        join_acc_ok(st_out, out0, pms, bks, pre, i, n, b, pop, total_roots, s, e_eff, k + 1, 0, 0),
{
    assert forall|key: u64, c2: u128|
        #![trigger weight_of(st_out.entries_for(key), c2)]
        clip32(
            (weight_of(st_out.entries_for(key), c2) + join_from(
                pms,
                bks,
                pre,
                i,
                n,
                b,
                pop,
                total_roots,
                key,
                c2,
                k + 1,
                e_eff,
                0,
                0,
            )) as nat,
        ) == clip32(
        (weight_of(out0.entries_for(key), c2) + join_from(
            pms,
            bks,
            pre,
            i,
            n,
            b,
            pop,
            total_roots,
            key,
            c2,
            s,
            e_eff,
            0,
            0,
        )) as nat,
    ) by {
        assert(join_from(
            pms,
            bks,
            pre,
            i,
            n,
            b,
            pop,
            total_roots,
            key,
            c2,
            k,
            e_eff,
            pms.len() as int,
            0,
        ) == join_from(
            pms,
            bks,
            pre,
            i,
            n,
            b,
            pop,
            total_roots,
            key,
            c2,
            k + 1,
            e_eff,
            0,
            0,
        ));
        assert(weight_of(st_out.entries_for(key), c2) == weight_of(
            st_out.entries_for(key),
            c2,
        ));
    }
}

/// The running enumeration: one frontier of partial tilings per root,
/// and the output buckets of completed tilings.
pub struct EnumState {
    pub n: u32,
    pub m: usize,
    pub b: u32,
    pub pre: PreCsr,
    pub jbt_ref_pop: Vec<i32>,
    pub total_roots: usize,
    pub next_root: usize,
    pub frontiers: Vec<KeyedBuckets>,
    pub out: KeyedBuckets,
    pub pend_flush: usize,
    pub first_limit: Option<usize>,
    pub saturations: u64,
}

impl EnumState {
    pub open spec fn wf(self) -> bool {
        &&& 2 <= self.n <= 10
        &&& self.n % 2 == 0
        &&& self.m <= 4096
        &&& width_ok(self.b)
        &&& (self.m as u128) <= (1u128 << (self.b as u128))
        &&& self.total_roots == self.n * (self.n / 2)
        &&& 2 <= self.total_roots <= 50
        &&& self.next_root <= self.total_roots
        &&& self.frontiers@.len() == self.total_roots
        &&& self.pre.wf(self.m as nat, self.n)
        &&& self.pre.n_roots == self.total_roots
        &&& self.jbt_ref_pop@.len() == self.m
        &&& forall|q: int|
            0 <= q < self.jbt_ref_pop@.len() ==> 0 <= #[trigger] self.jbt_ref_pop@[q] <= 15
        &&& forall|i: int|
            0 <= i < self.frontiers@.len() ==> (#[trigger] self.frontiers@[i]).wf()
        &&& self.out.wf()
        &&& forall|i: int, k: u64|
            0 <= i < self.frontiers@.len() && (#[trigger] self.frontiers@[i].has_key(k)) ==> k
                & !half_mask_spec(self.n) == 0
        &&& forall|i: int, k: u64|
            0 <= i < self.frontiers@.len() ==> codes_ok(
                #[trigger] self.frontiers@[i].entries_for(k),
                self.b,
                self.m as nat,
            )
        &&& forall|k: u64| codes_ok(#[trigger] self.out.entries_for(k), self.b, self.m as nat)
        &&& forall|k: u64, c: u128|
            #[trigger] contains_code(self.out.entries_for(k), c) ==> code_pop_key_spec(
                c,
                self.b,
                self.jbt_ref_pop@,
            ) == k
        &&& forall|k: u64|
            #[trigger] self.out.has_key(k) ==> exists|c: u128|
                contains_code(self.out.entries_for(k), c)
    }

    /// Start an enumeration: every frontier empty but root 0, which is
    /// seeded with the empty tiling of weight 1.
    pub fn new(inputs: Inputs, pend_flush: usize, first_limit: Option<usize>) -> (st: EnumState)
        requires
            inputs.wf(),
        ensures
            st.wf(),
            st.next_root == 0,
            st.n == inputs.n,
            st.m == inputs.m,
            st.jbt_ref_pop@ == inputs.jbt_ref_pop@,
            st.pre == inputs.pre,
            st.total_roots == inputs.pre.n_roots,
            st.saturations == 0,
            forall|k: u64| #[trigger] st.frontiers@[0].has_key(k) <==> k == 0,
            forall|c: u128|
                #[trigger] contains_code(st.frontiers@[0].entries_for(0), c) <==> c == 0,
            weight_of(st.frontiers@[0].entries_for(0), 0) == 1,
            forall|i2: int, k: u64|
                1 <= i2 < st.frontiers@.len() ==> !(#[trigger] st.frontiers@[i2].has_key(k)),
            forall|k: u64| !(#[trigger] st.out.has_key(k)),
    {
        let n = inputs.n;
        let m = inputs.m;
        let b = bitwidth(m);
        proof {
            if b > 12 {
                let x: u128 = (b - 1) as u128;
                assert((1u128 << x) >= 4096) by (bit_vector)
                    requires
                        12 <= x < 64,
                ;
                assert(false);
            }
            assert(b <= 12);
            assert((n as int) * ((n as int) / 2) >= 2 && (n as int) * ((n as int) / 2)
                <= 50) by (nonlinear_arith)
                requires
                    2 <= n <= 10 && n % 2 == 0,
            ;
        }
        let total_roots = inputs.pre.n_roots;
        let mut frontiers: Vec<KeyedBuckets> = Vec::new();
        let mut i: usize = 0;
        while i < total_roots
            invariant
                i <= total_roots,
                frontiers@.len() == i,
                forall|q: int|
                    0 <= q < i ==> (#[trigger] frontiers@[q]).wf() && frontiers@[q].keys@.len()
                        == 0 && (forall|k: u64| !frontiers@[q].has_key(k)),
            decreases total_roots - i,
        {
            frontiers.push(KeyedBuckets::new());
            i = i + 1;
        }
        let mut st = EnumState {
            n,
            m,
            b,
            pre: inputs.pre,
            jbt_ref_pop: inputs.jbt_ref_pop,
            total_roots,
            next_root: 0,
            frontiers,
            out: KeyedBuckets::new(),
            pend_flush,
            first_limit,
            saturations: 0,
        };
        let seed_codes = vec![0u128];
        let seed_w = vec![1u32];
        proof {
            lemma_mask128(0xf, 0, 0, 4);
            lemma_mask64(half_mask_spec(n), 0, 0);
            assert(0u128 & 0xf == 0 && 0u128 >> 4u128 == 0 && 0u64 & !half_mask_spec(n) == 0);
            assert(code_len_spec(0) == 0);
            assert(code_wf(0, b));
        }
        let ghost pre0 = st.frontiers@[0];
        let ghost scv = seed_codes@;
        let ghost swv = seed_w@;
        proof {
            assert(scv =~= seq![0u128]);
            assert(swv =~= seq![1u32]);
        }
        let fr0 = &mut st.frontiers[0];
        fr0.append_to(0, seed_codes, seed_w, pend_flush);
        proof {
            assert forall|k: u64| #[trigger] st.frontiers@[0].has_key(k) <==> k == 0 by {}
            assert forall|c: u128|
                #[trigger] contains_code(st.frontiers@[0].entries_for(0), c) <==> c == 0 by {
                if contains_code(st.frontiers@[0].entries_for(0), c) {
                    assert(contains_code(
                        pre0.entries_for(0) + entries_of(scv, swv),
                        c,
                    ));
                    let q = choose|q: int|
                        0 <= q < (pre0.entries_for(0) + entries_of(scv, swv)).len()
                            && (pre0.entries_for(0) + entries_of(scv, swv))[q].0 == c;
                    assert(c == 0);
                }
                if c == 0 {
                    assert((pre0.entries_for(0) + entries_of(scv, swv))[0].0 == 0);
                    assert(contains_code(
                        pre0.entries_for(0) + entries_of(scv, swv),
                        0,
                    ));
                }
            }
            assert(weight_of(st.frontiers@[0].entries_for(0), 0) == 1) by {
                let tgt = pre0.entries_for(0) + entries_of(scv, swv);
                crate::bucket::lemma_weight_concat(
                    pre0.entries_for(0),
                    entries_of(scv, swv),
                    0,
                );
                assert(entries_of(scv, swv).len() == 1);
                assert(entries_of(scv, swv)[0] == (0u128, 1u32));
                assert(crate::bucket::weight_from(entries_of(scv, swv), 0, 1) == 0);
                assert(weight_of(entries_of(scv, swv), 0) == 1);
                assert(weight_of(pre0.entries_for(0), 0) == 0) by {
                    assert(pre0.entries_for(0) =~= Seq::<Entry>::empty());
                }
                assert(weight_of(tgt, 0) == 1);
                assert(clip32(weight_of(st.frontiers@[0].entries_for(0), 0)) == clip32(1));
            }
            assert forall|i2: int, k: u64|
                0 <= i2 < st.frontiers@.len() implies codes_ok(
                #[trigger] st.frontiers@[i2].entries_for(k),
                st.b,
                st.m as nat,
            ) by {
                assert forall|c: u128|
                    #[trigger] contains_code(st.frontiers@[i2].entries_for(k), c) implies code_wf(
                    c,
                    st.b,
                ) && code_indices_ok(c, st.b, st.m as nat) by {
                    if i2 == 0 && k == 0 {
                        assert(contains_code(
                            Seq::<Entry>::empty() + entries_of(seed_codes@, seed_w@),
                            c,
                        ));
                        let q = choose|q: int|
                            0 <= q < (Seq::<Entry>::empty() + entries_of(seed_codes@, seed_w@)).len()
                                && (Seq::<Entry>::empty() + entries_of(seed_codes@, seed_w@))[q].0
                                == c;
                        assert(c == 0);
                        assert(code_len_spec(0) == 0) by (bit_vector);
                    } else {
                        assert(!contains_code(st.frontiers@[i2].entries_for(k), c));
                    }
                }
            }
        }
        st
    }

    /// Facts that `step` preserves about the fixed part of the state.
    pub open spec fn same_shape(self, other: EnumState) -> bool {
        &&& self.n == other.n
        &&& self.m == other.m
        &&& self.b == other.b
        &&& self.pre == other.pre
        &&& self.jbt_ref_pop@ == other.jbt_ref_pop@
        &&& self.total_roots == other.total_roots
        &&& self.pend_flush == other.pend_flush
        &&& self.first_limit == other.first_limit
    }

    /// Process one root: drain its frontier, join every piece anchored
    /// there with every surviving partial mask, prune unfillable holes,
    /// and route the grown tilings to their next root or, when the half
    /// is covered, to the output buckets.
    pub fn step(&mut self) -> (done: bool)
        requires
            old(self).wf(),
        ensures
            final(self).wf(),
            done == (old(self).next_root >= old(self).total_roots),
            final(self).same_shape(*old(self)),
            !done ==> final(self).next_root == old(self).next_root + 1,
            done ==> *final(self) == *old(self),
            final(self).saturations >= old(self).saturations,
            !done ==> (forall|k: u64|
                #[trigger] final(self).frontiers@[old(self).next_root as int].has_key(k)
                    ==> exists|k0: u64|
                    old(self).frontiers@[old(self).next_root as int].has_key(k0) && k0 & !k == 0
                        && k0 != k),
            forall|k: u64, c: u128|
                #[trigger] contains_code(old(self).out.entries_for(k), c) ==> contains_code(
                    final(self).out.entries_for(k),
                    c,
                ),
            forall|k: u64, c: u128|
                clip32(#[trigger] weight_of(old(self).out.entries_for(k), c)) <= clip32(
                    weight_of(final(self).out.entries_for(k), c),
                ),
            !done ==> exists|pms: Seq<u64>, bks: Seq<AOBucket>|
                #![trigger drained_rep(pms, bks, old(self).frontiers@[old(self).next_root as int])]
                drained_rep(pms, bks, old(self).frontiers@[old(self).next_root as int]) && (forall|
                    key: u64,
                    c2: u128,
                |
                    #![trigger weight_of(final(self).out.entries_for(key), c2)]
                    clip32(weight_of(final(self).out.entries_for(key), c2)) == clip32(
                        (weight_of(old(self).out.entries_for(key), c2) + join_from(
                            pms,
                            bks,
                            old(self).pre,
                            old(self).next_root as int,
                            old(self).n,
                            old(self).b,
                            old(self).jbt_ref_pop@,
                            old(self).total_roots as int,
                            key,
                            c2,
                            old(self).pre.offsets@[old(self).next_root as int] as int,
                            e_eff_spec(old(self).pre, old(self).next_root as int, old(self).first_limit),
                            0,
                            0,
                        )) as nat,
                    )),
    {
        if self.next_root >= self.total_roots {
            return true;
        }
        let i = self.next_root;
        let n = self.n;
        let m = self.m;
        let b = self.b;
        let pend_flush = self.pend_flush;
        let ghost half = half_mask_spec(n);
        let fr = &mut self.frontiers[i];
        let ghost pre_fr = *fr;
        fr.flush_all();
        let ghost f1 = *fr;
        let (pmasks, bks) = fr.take_all();
        proof {
            assert(pre_fr == old(self).frontiers@[i as int]);
            assert forall|q: int| 0 <= q < bks@.len() implies (#[trigger] bks@[q]).wf()
                && bks@[q].pend_codes@.len() == 0 && codes_ok(
                bks@[q].all_entries(),
                b,
                m as nat,
            ) && pmasks@[q] & !half == 0 by {
                assert(bks@[q] == f1.buckets@[q]);
                assert(pmasks@[q] == f1.keys@[q]);
                assert(f1.entries_for(pmasks@[q]) == f1.buckets@[q].all_entries()) by {
                    assert(f1.index@.contains_key(f1.keys@[q]));
                    assert(f1.index@[f1.keys@[q]] == q);
                }
                assert(f1.has_key(pmasks@[q]) && pre_fr.has_key(pmasks@[q]));
                assert(codes_ok(pre_fr.entries_for(pmasks@[q]), b, m as nat));
                assert forall|c: u128|
                    #[trigger] contains_code(bks@[q].all_entries(), c) implies code_wf(c, b)
                    && code_indices_ok(c, b, m as nat) by {
                    assert(contains_code(f1.entries_for(pmasks@[q]), c));
                    assert(contains_code(pre_fr.entries_for(pmasks@[q]), c));
                }
            }
            assert forall|q: int|
                0 <= q < pmasks@.len() implies #[trigger] pmasks@[q] & !half == 0 by {
                assert(bks@[q].wf() && pmasks@[q] & !half == 0);
            }
            assert forall|i2: int, k: u64|
                0 <= i2 < self.frontiers@.len() implies codes_ok(
                #[trigger] self.frontiers@[i2].entries_for(k),
                b,
                m as nat,
            ) && (self.frontiers@[i2].has_key(k) ==> k & !half == 0) by {
                if i2 != i {
                    assert(self.frontiers@[i2] == old(self).frontiers@[i2]);
                } else {
                    assert(!self.frontiers@[i2].has_key(k));
                    assert forall|c: u128|
                        #[trigger] contains_code(
                            self.frontiers@[i2].entries_for(k),
                            c,
                        ) implies code_wf(c, b) && code_indices_ok(c, b, m as nat) by {}
                }
            }
            assert(self.wf());
        }
        let ghost out0 = old(self).out;
        let mut extra: u64 = 0;
        let mut sq: usize = 0;
        while sq < bks.len()
            invariant
                sq <= bks@.len(),
            decreases bks@.len() - sq,
        {
            let add = bks[sq].saturations;
            extra = if extra > 0xffff_ffff_ffff_ffff - add {
                0xffff_ffff_ffff_ffff
            } else {
                extra + add
            };
            sq = sq + 1;
        }
        let cur_sat = self.saturations;
        self.saturations = if cur_sat > 0xffff_ffff_ffff_ffff - extra {
            0xffff_ffff_ffff_ffff
        } else {
            cur_sat + extra
        };
        proof {
            assert(drained_rep(pmasks@, bks@, pre_fr)) by {
                assert(pmasks@ == f1.keys@ && f1.keys@ == pre_fr.keys@);
                assert forall|q: int|
                    0 <= q < bks@.len() implies ((#[trigger] bks@[q]).wf()
                    && bks@[q].pend_codes@.len() == 0 && (forall|c: u128|
                    #[trigger] contains_code(bks@[q].all_entries(), c) <==> contains_code(
                        pre_fr.entries_for(pmasks@[q]),
                        c,
                    )) && (forall|c: u128|
                    #[trigger] weight_of(bks@[q].all_entries(), c) == clip32(
                        weight_of(pre_fr.entries_for(pmasks@[q]), c),
                    ))) by {
                    assert(bks@[q] == f1.buckets@[q]);
                    assert(pmasks@[q] == f1.keys@[q]);
                    assert(f1.entries_for(pmasks@[q]) == f1.buckets@[q].all_entries()) by {
                        assert(f1.index@.contains_key(f1.keys@[q]));
                        assert(f1.index@[f1.keys@[q]] == q);
                    }
                    assert forall|c: u128|
                        #[trigger] contains_code(bks@[q].all_entries(), c) <==> contains_code(
                            pre_fr.entries_for(pmasks@[q]),
                            c,
                        ) by {
                        assert(contains_code(f1.entries_for(pmasks@[q]), c) <==> contains_code(
                            pre_fr.entries_for(pmasks@[q]),
                            c,
                        ));
                    }
                    assert forall|c: u128|
                        #[trigger] weight_of(bks@[q].all_entries(), c) == clip32(
                            weight_of(pre_fr.entries_for(pmasks@[q]), c),
                        ) by {
                        assert(weight_of(f1.entries_for(pmasks@[q]), c) == clip32(
                            weight_of(pre_fr.entries_for(pmasks@[q]), c),
                        ));
                    }
                }
            }
        }
        let s = self.pre.offsets[i];
        let e = self.pre.offsets[i + 1];
        proof {
            assert(self.pre.offsets@[i as int] <= self.pre.offsets@[i + 1]);
            assert(self.pre.offsets@[i + 1] <= self.pre.offsets@[self.pre.offsets@.len() - 1]);
        }
        let e_eff: usize = if i == 0 {
            match self.first_limit {
                Some(limit) => {
                    if limit < e - s {
                        s + limit
                    } else {
                        e
                    }
                },
                None => e,
            }
        } else {
            e
        };
        proof {
            assert(e_eff == e_eff_spec(self.pre, i as int, self.first_limit));
        }
        let mut k_pre = s;
        while k_pre < e_eff
            invariant
                self.wf(),
                self.same_shape(*old(self)),
                self.next_root == i,
                i < self.total_roots,
                n == self.n,
                m == self.m,
                b == self.b,
                pend_flush == self.pend_flush,
                half == half_mask_spec(n),
                self.saturations >= old(self).saturations,
                out0 == old(self).out,
                pre_fr == old(self).frontiers@[i as int],
                pmasks@ == pre_fr.keys@,
                forall|q: int| 0 <= q < pmasks@.len() ==> pre_fr.has_key(#[trigger] pmasks@[q]),
                forall|k: u64, c: u128|
                    #[trigger] contains_code(out0.entries_for(k), c) ==> contains_code(
                        self.out.entries_for(k),
                        c,
                    ),
                forall|k: u64, c: u128|
                    clip32(#[trigger] weight_of(out0.entries_for(k), c)) <= clip32(
                        weight_of(self.out.entries_for(k), c),
                    ),
                forall|k: u64|
                    #[trigger] self.frontiers@[i as int].has_key(k) ==> exists|q: int|
                        0 <= q < pmasks@.len() && pmasks@[q] & !k == 0 && pmasks@[q] != k,
                s <= k_pre,
                e_eff <= self.pre.masks@.len(),
                s == self.pre.offsets@[i as int],
                e_eff == e_eff_spec(self.pre, i as int, self.first_limit),
                drained_rep(pmasks@, bks@, pre_fr),
                join_acc_ok(
                    self.out,
                    out0,
                    pmasks@,
                    bks@,
                    self.pre,
                    i as int,
                    n,
                    b,
                    self.jbt_ref_pop@,
                    self.total_roots as int,
                    s as int,
                    e_eff as int,
                    k_pre as int,
                    0,
                    0,
                ),
                pmasks@.len() == bks@.len(),
                forall|q: int|
                    0 <= q < bks@.len() ==> (#[trigger] bks@[q]).wf() && bks@[q].pend_codes@.len()
                        == 0 && codes_ok(bks@[q].all_entries(), b, m as nat),
                forall|q: int| 0 <= q < pmasks@.len() ==> #[trigger] pmasks@[q] & !half == 0,
            decreases e_eff - k_pre,
        {
            let mask_pre = self.pre.masks[k_pre];
            let pop_pre = self.pre.pops[k_pre];
            let j_pre = self.pre.jidx[k_pre];
            let full = (pop_pre as u32) == n;
            let mut idx: usize = 0;
            while idx < pmasks.len()
                invariant
                    self.wf(),
                    self.same_shape(*old(self)),
                    self.next_root == i,
                    i < self.total_roots,
                    n == self.n,
                    m == self.m,
                    b == self.b,
                    pend_flush == self.pend_flush,
                    half == half_mask_spec(n),
                    self.saturations >= old(self).saturations,
                    out0 == old(self).out,
                    pre_fr == old(self).frontiers@[i as int],
                    pmasks@ == pre_fr.keys@,
                    forall|q: int| 0 <= q < pmasks@.len() ==> pre_fr.has_key(#[trigger] pmasks@[q]),
                    forall|k: u64, c: u128|
                        #[trigger] contains_code(out0.entries_for(k), c) ==> contains_code(
                            self.out.entries_for(k),
                            c,
                        ),
                    forall|k: u64, c: u128|
                        clip32(#[trigger] weight_of(out0.entries_for(k), c)) <= clip32(
                            weight_of(self.out.entries_for(k), c),
                        ),
                    forall|k: u64|
                        #[trigger] self.frontiers@[i as int].has_key(k) ==> exists|q: int|
                            0 <= q < pmasks@.len() && pmasks@[q] & !k == 0 && pmasks@[q] != k,
                    idx <= pmasks@.len(),
                    pmasks@.len() == bks@.len(),
                    mask_pre & !half == 0,
                    mask_pre != 0,
                    (j_pre as nat) < m,
                    s == self.pre.offsets@[i as int],
                    e_eff == e_eff_spec(self.pre, i as int, self.first_limit),
                    k_pre < e_eff,
                    e_eff <= self.pre.masks@.len(),
                    mask_pre == self.pre.masks@[k_pre as int],
                    j_pre == self.pre.jidx@[k_pre as int],
                    full == (self.pre.pops@[k_pre as int] == n),
                    drained_rep(pmasks@, bks@, pre_fr),
                    join_acc_ok(
                        self.out,
                        out0,
                        pmasks@,
                        bks@,
                        self.pre,
                        i as int,
                        n,
                        b,
                        self.jbt_ref_pop@,
                        self.total_roots as int,
                        s as int,
                        e_eff as int,
                        k_pre as int,
                        idx as int,
                        0,
                    ),
                    forall|q: int|
                        0 <= q < bks@.len() ==> (#[trigger] bks@[q]).wf()
                            && bks@[q].pend_codes@.len() == 0 && codes_ok(
                            bks@[q].all_entries(),
                            b,
                            m as nat,
                        ),
                    forall|q: int| 0 <= q < pmasks@.len() ==> #[trigger] pmasks@[q] & !half == 0,
                decreases pmasks@.len() - idx,
            {
                let pm = pmasks[idx];
                if pm & mask_pre == 0 {
                    let new_mask = pm | mask_pre;
                    proof {
                        lemma_mask64(pm, mask_pre, half);
                        assert(new_mask & !half == 0);
                    }
                    let mut pruned = false;
                    if i + (n as usize) < self.total_roots {
                        if detect_evil_pmask(new_mask, n) {
                            pruned = true;
                        }
                    }
                    if !pruned {
                        proof {
                            assert(bks@[idx as int].all_entries() =~= entries_of(
                                bks@[idx as int].codes@,
                                bks@[idx as int].weights@,
                            ));
                        }
                        let (codes2, ws2) = transform_codes(
                            &bks[idx].codes,
                            &bks[idx].weights,
                            j_pre,
                            full,
                            b,
                            m,
                        );
                        let rootc = find_root(new_mask, n);
                        match rootc {
                            None => {
                                let mut t: usize = 0;
                                while t < codes2.len()
                                    invariant
                                        self.wf(),
                                        self.same_shape(*old(self)),
                                        self.next_root == i,
                                        i < self.total_roots,
                                        n == self.n,
                                        m == self.m,
                                        b == self.b,
                                        pend_flush == self.pend_flush,
                                        self.saturations >= old(self).saturations,
                                        out0 == old(self).out,
                                        pre_fr == old(self).frontiers@[i as int],
                                        pmasks@ == pre_fr.keys@,
                                        forall|q: int| 0 <= q < pmasks@.len() ==> pre_fr.has_key(#[trigger] pmasks@[q]),
                                        forall|k: u64, c: u128|
                                            #[trigger] contains_code(out0.entries_for(k), c) ==> contains_code(
                                                self.out.entries_for(k),
                                                c,
                                            ),
                                        forall|k: u64, c: u128|
                                            clip32(#[trigger] weight_of(out0.entries_for(k), c)) <= clip32(
                                                weight_of(self.out.entries_for(k), c),
                                            ),
                                        forall|k: u64|
                                            #[trigger] self.frontiers@[i as int].has_key(k) ==> exists|q: int|
                                                0 <= q < pmasks@.len() && pmasks@[q] & !k == 0 && pmasks@[q] != k,
                                        t <= codes2@.len(),
                                        codes2@.len() == ws2@.len(),
                                        codes_ok(entries_of(codes2@, ws2@), b, m as nat),
                                        forall|q: int|
                                            0 <= q < codes2@.len() ==> code_len_spec(
                                                #[trigger] codes2@[q],
                                            ) <= 10,
                                        idx < pmasks@.len(),
                                        pmasks@.len() == bks@.len(),
                                        k_pre < e_eff,
                                        s == self.pre.offsets@[i as int],
                                        e_eff == e_eff_spec(self.pre, i as int, self.first_limit),
                                        drained_rep(pmasks@, bks@, pre_fr),
                                        codes2@.len() == bks@[idx as int].codes@.len(),
                                        ws2@ == bks@[idx as int].weights@,
                                        forall|q: int|
                                            0 <= q < codes2@.len() ==> #[trigger] codes2@[q]
                                                == joined_code(
                                                bks@[idx as int].codes@[q],
                                                self.pre.jidx@[k_pre as int],
                                                self.pre.pops@[k_pre as int] == n,
                                                b,
                                            ),
                                        pmasks@[idx as int] & self.pre.masks@[k_pre as int] == 0,
                                        (pmasks@[idx as int] | self.pre.masks@[k_pre as int])
                                            ^ half_mask_spec(n) == 0,
                                        !((i as int) + n < self.total_roots && evil_rec(
                                            (pmasks@[idx as int] | self.pre.masks@[k_pre as int])
                                                ^ half_mask_spec(n),
                                            n,
                                        )),
                                        join_acc_ok(
                                            self.out,
                                            out0,
                                            pmasks@,
                                            bks@,
                                            self.pre,
                                            i as int,
                                            n,
                                            b,
                                            self.jbt_ref_pop@,
                                            self.total_roots as int,
                                            s as int,
                                            e_eff as int,
                                            k_pre as int,
                                            idx as int,
                                            t as int,
                                        ),
                                    decreases codes2@.len() - t,
                                {
                                    let c2 = codes2[t];
                                    let w2 = ws2[t];
                                    proof {
                                        assert(contains_code(entries_of(codes2@, ws2@), c2)) by {
                                            assert(entries_of(codes2@, ws2@)[t as int].0 == c2);
                                        }
                                    }
                                    let key = code_pop_key(c2, b, &self.jbt_ref_pop);
                                    let bc = vec![c2];
                                    let bw = vec![w2];
                                    let ghost bcv = bc@;
                                    let ghost bwv = bw@;
                                    let ghost pre_out = self.out;
                                    let ob = &mut self.out;
                                    ob.append_to(key, bc, bw, pend_flush);
                                    proof {
                                        assert forall|k2: u64|
                                            codes_ok(
                                                #[trigger] self.out.entries_for(k2),
                                                b,
                                                m as nat,
                                            ) by {
                                            assert forall|c: u128|
                                                #[trigger] contains_code(
                                                    self.out.entries_for(k2),
                                                    c,
                                                ) implies code_wf(c, b) && code_indices_ok(
                                                c,
                                                b,
                                                m as nat,
                                            ) by {
                                                if k2 == key {
                                                    assert(contains_code(
                                                        pre_out.entries_for(key) + entries_of(
                                                            bcv,
                                                            bwv,
                                                        ),
                                                        c,
                                                    ));
                                                    let q = choose|q: int|
                                                        0 <= q < (pre_out.entries_for(key)
                                                            + entries_of(bcv, bwv)).len()
                                                            && (pre_out.entries_for(key)
                                                            + entries_of(bcv, bwv))[q].0
                                                            == c;
                                                    if q < pre_out.entries_for(key).len() {
                                                        assert(contains_code(
                                                            pre_out.entries_for(key),
                                                            c,
                                                        ));
                                                    } else {
                                                        assert(c == c2);
                                                        assert(contains_code(
                                                            entries_of(codes2@, ws2@),
                                                            c2,
                                                        ));
                                                    }
                                                } else {
                                                    assert(self.out.entries_for(k2)
                                                        == pre_out.entries_for(k2));
                                                }
                                            }
                                        }
                                        assert forall|k2: u64, c: u128|
                                            #[trigger] contains_code(
                                                out0.entries_for(k2),
                                                c,
                                            ) implies contains_code(
                                            self.out.entries_for(k2),
                                            c,
                                        ) by {
                                            assert(contains_code(pre_out.entries_for(k2), c));
                                            if k2 == key {
                                                let q = choose|q: int|
                                                    0 <= q < pre_out.entries_for(key).len()
                                                        && pre_out.entries_for(key)[q].0 == c;
                                                assert((pre_out.entries_for(key) + entries_of(
                                                    bcv,
                                                    bwv,
                                                ))[q].0 == c);
                                                assert(contains_code(
                                                    pre_out.entries_for(key) + entries_of(
                                                        bcv,
                                                        bwv,
                                                    ),
                                                    c,
                                                ));
                                            }
                                        }
                                        assert forall|k2: u64, c: u128|
                                            clip32(
                                                #[trigger] weight_of(out0.entries_for(k2), c),
                                            ) <= clip32(
                                            weight_of(self.out.entries_for(k2), c),
                                        ) by {
                                            if k2 == key {
                                                crate::bucket::lemma_weight_concat(
                                                    pre_out.entries_for(key),
                                                    entries_of(bcv, bwv),
                                                    c,
                                                );
                                                assert(clip32(
                                                    weight_of(self.out.entries_for(key), c),
                                                ) == clip32(
                                                    (weight_of(pre_out.entries_for(key), c)
                                                        + weight_of(entries_of(bcv, bwv), c)) as nat,
                                                ));
                                            }
                                        }
                                        assert forall|k2: u64|
                                            #[trigger] self.out.has_key(k2) implies exists|
                                            c: u128,
                                        | contains_code(self.out.entries_for(k2), c) by {
                                            if k2 == key {
                                                assert((pre_out.entries_for(key) + entries_of(
                                                    bcv,
                                                    bwv,
                                                ))[pre_out.entries_for(key).len() as int].0 == c2);
                                                assert(contains_code(
                                                    pre_out.entries_for(key) + entries_of(
                                                        bcv,
                                                        bwv,
                                                    ),
                                                    c2,
                                                ));
                                                assert(contains_code(
                                                    self.out.entries_for(key),
                                                    c2,
                                                ));
                                            } else {
                                                let c = choose|c: u128|
                                                    contains_code(pre_out.entries_for(k2), c);
                                                assert(contains_code(
                                                    self.out.entries_for(k2),
                                                    c,
                                                ));
                                            }
                                        }
                                        assert forall|k2: u64, c: u128|
                                            #[trigger] contains_code(
                                                self.out.entries_for(k2),
                                                c,
                                            ) implies code_pop_key_spec(c, b, self.jbt_ref_pop@)
                                            == k2 by {
                                            if k2 == key {
                                                assert(contains_code(
                                                    pre_out.entries_for(key) + entries_of(
                                                        bcv,
                                                        bwv,
                                                    ),
                                                    c,
                                                ));
                                                let q = choose|q: int|
                                                    0 <= q < (pre_out.entries_for(key) + entries_of(
                                                        bcv,
                                                        bwv,
                                                    )).len() && (pre_out.entries_for(key)
                                                        + entries_of(bcv, bwv))[q].0
                                                        == c;
                                                if q < pre_out.entries_for(key).len() {
                                                    assert(contains_code(
                                                        pre_out.entries_for(key),
                                                        c,
                                                    ));
                                                } else {
                                                    assert(c == c2);
                                                }
                                            } else {
                                                assert(self.out.entries_for(k2)
                                                    == pre_out.entries_for(k2));
                                            }
                                        }
                                        assert forall|keyq: u64, cq: u128|
                                            #![trigger weight_of(self.out.entries_for(keyq), cq)]
                                            clip32(
                                                (weight_of(self.out.entries_for(keyq), cq)
                                                    + join_from(
                                                    pmasks@,
                                                    bks@,
                                                    self.pre,
                                                    i as int,
                                                    n,
                                                    b,
                                                    self.jbt_ref_pop@,
                                                    self.total_roots as int,
                                                    keyq,
                                                    cq,
                                                    k_pre as int,
                                                    e_eff as int,
                                                    idx as int,
                                                    t + 1,
                                                )) as nat,
                                            ) == clip32(
                                            (weight_of(out0.entries_for(keyq), cq) + join_from(
                                                pmasks@,
                                                bks@,
                                                self.pre,
                                                i as int,
                                                n,
                                                b,
                                                self.jbt_ref_pop@,
                                                self.total_roots as int,
                                                keyq,
                                                cq,
                                                s as int,
                                                e_eff as int,
                                                0,
                                                0,
                                            )) as nat,
                                        ) by {
                                            let wprev = weight_of(
                                                pre_out.entries_for(keyq),
                                                cq,
                                            );
                                            let jnext = join_from(
                                                pmasks@,
                                                bks@,
                                                self.pre,
                                                i as int,
                                                n,
                                                b,
                                                self.jbt_ref_pop@,
                                                self.total_roots as int,
                                                keyq,
                                                cq,
                                                k_pre as int,
                                                e_eff as int,
                                                idx as int,
                                                t + 1,
                                            );
                                            let jc = join_contrib(
                                                pmasks@,
                                                bks@,
                                                self.pre,
                                                i as int,
                                                n,
                                                b,
                                                self.jbt_ref_pop@,
                                                self.total_roots as int,
                                                keyq,
                                                cq,
                                                k_pre as int,
                                                idx as int,
                                                t as int,
                                            );
                                            assert(joined_code(
                                                bks@[idx as int].codes@[t as int],
                                                self.pre.jidx@[k_pre as int],
                                                self.pre.pops@[k_pre as int] == n,
                                                b,
                                            ) == c2);
                                            assert(entries_of(bcv, bwv).len() == 1);
                                            assert(entries_of(bcv, bwv)[0] == (c2, w2));
                                            crate::bucket::lemma_weight_concat(
                                                pre_out.entries_for(key),
                                                entries_of(bcv, bwv),
                                                cq,
                                            );
                                            assert(crate::bucket::weight_from(
                                                entries_of(bcv, bwv),
                                                cq,
                                                1,
                                            ) == 0);
                                            if keyq == key && cq == c2 {
                                                assert(jc == ws2@[t as int] as nat);
                                                assert(weight_of(entries_of(bcv, bwv), cq)
                                                    == w2 as nat);
                                                assert(clip32(
                                                    weight_of(self.out.entries_for(keyq), cq),
                                                ) == clip32((wprev + jc) as nat));
                                            } else {
                                                assert(jc == 0);
                                                if keyq == key {
                                                    assert(weight_of(entries_of(bcv, bwv), cq)
                                                        == 0);
                                                    assert(clip32(
                                                        weight_of(
                                                            self.out.entries_for(keyq),
                                                            cq,
                                                        ),
                                                    ) == clip32((wprev + 0) as nat));
                                                } else {
                                                    assert(self.out.entries_for(keyq)
                                                        == pre_out.entries_for(keyq));
                                                    assert(clip32(
                                                        weight_of(
                                                            self.out.entries_for(keyq),
                                                            cq,
                                                        ),
                                                    ) == clip32((wprev + jc) as nat));
                                                }
                                            }
                                            crate::bucket::lemma_clip32_shift(
                                                weight_of(self.out.entries_for(keyq), cq),
                                                (wprev + jc) as nat,
                                                jnext,
                                            );
                                            assert(join_from(
                                                pmasks@,
                                                bks@,
                                                self.pre,
                                                i as int,
                                                n,
                                                b,
                                                self.jbt_ref_pop@,
                                                self.total_roots as int,
                                                keyq,
                                                cq,
                                                k_pre as int,
                                                e_eff as int,
                                                idx as int,
                                                t as int,
                                            ) == jc + jnext);
                                            assert(clip32(
                                                (weight_of(pre_out.entries_for(keyq), cq)
                                                    + (jc + jnext)) as nat,
                                            ) == clip32(
                                                (weight_of(out0.entries_for(keyq), cq)
                                                    + join_from(
                                                    pmasks@,
                                                    bks@,
                                                    self.pre,
                                                    i as int,
                                                    n,
                                                    b,
                                                    self.jbt_ref_pop@,
                                                    self.total_roots as int,
                                                    keyq,
                                                    cq,
                                                    s as int,
                                                    e_eff as int,
                                                    0,
                                                    0,
                                                )) as nat,
                                            )) by {
                                                assert(weight_of(pre_out.entries_for(keyq), cq)
                                                    == weight_of(
                                                    pre_out.entries_for(keyq),
                                                    cq,
                                                ));
                                            }
                                        }
                                        assert(self.wf());
                                    }
                                    t = t + 1;
                                }
                                proof {
                                    lemma_acc_next_bucket(
                        self.out,
                        out0,
                        pmasks@,
                        bks@,
                        self.pre,
                        i as int,
                        n,
                        b,
                        self.jbt_ref_pop@,
                        self.total_roots as int,
                        s as int,
                        e_eff as int,
                        k_pre as int,
                        idx as int,
                                    );
                                    assert(join_acc_ok(
                                    self.out,
                                                            out0,
                                                            pmasks@,
                                                            bks@,
                                                            self.pre,
                                                            i as int,
                                                            n,
                                                            b,
                                                            self.jbt_ref_pop@,
                                                            self.total_roots as int,
                                                            s as int,
                                                            e_eff as int,
                                                            k_pre as int,
                                                            idx as int + 1,
                                        0,
                                    ));
                                }
                            },
                            Some((x, y)) => {
                                proof {
                                    assert(new_mask ^ half != 0);
                                    lemma_mask64(new_mask, half, 0);
                                    assert((new_mask ^ half) & !half == 0);
                                    lemma_root_in_range(new_mask ^ half, n);
                                }
                                proof {
                                    let p = vstd::std_specs::bits::u64_trailing_zeros(
                                        new_mask ^ half,
                                    );
                                    assert(x == p / n && y == p % n);
                                    assert((p as int) < self.total_roots);
                                    assert((p / n) * n + p % n == p) by (nonlinear_arith)
                                        requires
                                            n >= 1,
                                    ;
                                    assert(x * n + y == p);
                                    assert((x as int) * (n as int) + (y as int) < 50);
                                }
                                let dst = (x as usize) * (n as usize) + (y as usize);
                                proof {
                                    assert(dst < self.total_roots);
                                }
                                let ghost pre_fs = self.frontiers@;
                                let fr2 = &mut self.frontiers[dst];
                                let ghost pre_dst = *fr2;
                                fr2.append_to(new_mask, codes2, ws2, pend_flush);
                                proof {
                                    assert(self.frontiers@ == pre_fs.update(
                                        dst as int,
                                        self.frontiers@[dst as int],
                                    ));
                                    assert forall|i2: int, k: u64|
                                        0 <= i2 < self.frontiers@.len() implies codes_ok(
                                        #[trigger] self.frontiers@[i2].entries_for(k),
                                        b,
                                        m as nat,
                                    ) && (self.frontiers@[i2].has_key(k) ==> k & !half
                                        == 0) by {
                                        if i2 == dst {
                                            if k != new_mask {
                                                assert(self.frontiers@[dst as int].entries_for(k)
                                                    == pre_dst.entries_for(k));
                                                assert(self.frontiers@[dst as int].has_key(k)
                                                    ==> (pre_dst.has_key(k) || k == new_mask));
                                            } else {
                                                assert forall|c: u128|
                                                    #[trigger] contains_code(
                                                        self.frontiers@[i2].entries_for(k),
                                                        c,
                                                    ) implies code_wf(c, b) && code_indices_ok(
                                                    c,
                                                    b,
                                                    m as nat,
                                                ) by {
                                                    assert(contains_code(
                                                        pre_dst.entries_for(new_mask) + entries_of(
                                                            codes2@,
                                                            ws2@,
                                                        ),
                                                        c,
                                                    ));
                                                    let q = choose|q: int|
                                                        0 <= q < (pre_dst.entries_for(new_mask)
                                                            + entries_of(codes2@, ws2@)).len() && (
                                                        pre_dst.entries_for(new_mask) + entries_of(
                                                            codes2@,
                                                            ws2@,
                                                        ))[q].0 == c;
                                                    if q < pre_dst.entries_for(new_mask).len() {
                                                        assert(contains_code(
                                                            pre_dst.entries_for(new_mask),
                                                            c,
                                                        ));
                                                    } else {
                                                        assert(contains_code(
                                                            entries_of(codes2@, ws2@),
                                                            c,
                                                        ));
                                                    }
                                                }
                                            }
                                        } else {
                                            assert(self.frontiers@[i2] == pre_fs[i2]);
                                        }
                                    }
                                    assert forall|k: u64|
                                        #[trigger] self.frontiers@[i as int].has_key(
                                            k,
                                        ) implies exists|q: int|
                                        0 <= q < pmasks@.len() && pmasks@[q] & !k == 0
                                            && pmasks@[q] != k by {
                                        if dst == i as usize {
                                            if k == new_mask {
                                                crate::bits::lemma_mask64(pm, mask_pre, 0);
                                                crate::bits::lemma_mask64(mask_pre, pm, 0);
                                                assert(pmasks@[idx as int] == pm);
                                                assert(pm & !new_mask == 0);
                                                assert(new_mask > pm);
                                            } else {
                                                assert(pre_fs[i as int].has_key(k));
                                            }
                                        } else {
                                            assert(self.frontiers@[i as int] == pre_fs[i as int]);
                                        }
                                    }
                                    assert(self.wf());
                                    assert forall|keyq: u64, cq: u128, t2: int|
                                        0 <= t2 < bks@[idx as int].codes@.len()
                                        implies #[trigger] join_contrib(
                        pmasks@,
                        bks@,
                        self.pre,
                        i as int,
                        n,
                        b,
                        self.jbt_ref_pop@,
                        self.total_roots as int,
                        keyq,
                        cq,
                        k_pre as int,
                        idx as int,
                        t2,
                                    ) == 0 by {
                                        assert((pmasks@[idx as int] | self.pre.masks@[k_pre as int])
                                            ^ half_mask_spec(n) != 0);
                                    }
                                    lemma_acc_skip(
                        self.out,
                        out0,
                        pmasks@,
                        bks@,
                        self.pre,
                        i as int,
                        n,
                        b,
                        self.jbt_ref_pop@,
                        self.total_roots as int,
                        s as int,
                        e_eff as int,
                        k_pre as int,
                        idx as int,
                                    );
                                    assert(join_acc_ok(
                                    self.out,
                                                            out0,
                                                            pmasks@,
                                                            bks@,
                                                            self.pre,
                                                            i as int,
                                                            n,
                                                            b,
                                                            self.jbt_ref_pop@,
                                                            self.total_roots as int,
                                                            s as int,
                                                            e_eff as int,
                                                            k_pre as int,
                                                            idx as int + 1,
                                        0,
                                    ));
                                }
                            },
                        }
                    }
                    proof {
                        if pruned {
                            assert forall|keyq: u64, cq: u128, t2: int|
                                0 <= t2 < bks@[idx as int].codes@.len()
                                implies #[trigger] join_contrib(
                        pmasks@,
                        bks@,
                        self.pre,
                        i as int,
                        n,
                        b,
                        self.jbt_ref_pop@,
                        self.total_roots as int,
                        keyq,
                        cq,
                        k_pre as int,
                        idx as int,
                        t2,
                            ) == 0 by {
                                assert((i as int) + n < self.total_roots && evil_rec(
                                    (pmasks@[idx as int] | self.pre.masks@[k_pre as int])
                                        ^ half_mask_spec(n),
                                    n,
                                ));
                            }
                            lemma_acc_skip(
                        self.out,
                        out0,
                        pmasks@,
                        bks@,
                        self.pre,
                        i as int,
                        n,
                        b,
                        self.jbt_ref_pop@,
                        self.total_roots as int,
                        s as int,
                        e_eff as int,
                        k_pre as int,
                        idx as int,
                            );
                        }
                        assert(join_acc_ok(
                        self.out,
                                                out0,
                                                pmasks@,
                                                bks@,
                                                self.pre,
                                                i as int,
                                                n,
                                                b,
                                                self.jbt_ref_pop@,
                                                self.total_roots as int,
                                                s as int,
                                                e_eff as int,
                                                k_pre as int,
                                                idx as int + 1,
                            0,
                        ));
                    }
                } else {
                    proof {
                        assert forall|keyq: u64, cq: u128, t2: int|
                            0 <= t2 < bks@[idx as int].codes@.len()
                            implies #[trigger] join_contrib(
                        pmasks@,
                        bks@,
                        self.pre,
                        i as int,
                        n,
                        b,
                        self.jbt_ref_pop@,
                        self.total_roots as int,
                        keyq,
                        cq,
                        k_pre as int,
                        idx as int,
                        t2,
                        ) == 0 by {
                            assert(pmasks@[idx as int] & self.pre.masks@[k_pre as int] != 0);
                        }
                        lemma_acc_skip(
                        self.out,
                        out0,
                        pmasks@,
                        bks@,
                        self.pre,
                        i as int,
                        n,
                        b,
                        self.jbt_ref_pop@,
                        self.total_roots as int,
                        s as int,
                        e_eff as int,
                        k_pre as int,
                        idx as int,
                        );
                        assert(join_acc_ok(
                        self.out,
                                                out0,
                                                pmasks@,
                                                bks@,
                                                self.pre,
                                                i as int,
                                                n,
                                                b,
                                                self.jbt_ref_pop@,
                                                self.total_roots as int,
                                                s as int,
                                                e_eff as int,
                                                k_pre as int,
                                                idx as int + 1,
                            0,
                        ));
                    }
                }
                idx = idx + 1;
            }
            proof {
                lemma_acc_next_piece(
                    self.out,
                    out0,
                    pmasks@,
                    bks@,
                    self.pre,
                    i as int,
                    n,
                    b,
                    self.jbt_ref_pop@,
                    self.total_roots as int,
                    s as int,
                    e_eff as int,
                    k_pre as int,
                );
            }
            k_pre = k_pre + 1;
        }
        proof {
            assert forall|k: u64|
                #[trigger] self.frontiers@[i as int].has_key(k) implies exists|k0: u64|
                old(self).frontiers@[i as int].has_key(k0) && k0 & !k == 0 && k0 != k by {
                let q = choose|q: int|
                    0 <= q < pmasks@.len() && pmasks@[q] & !k == 0 && pmasks@[q] != k;
                assert(pre_fr.has_key(pmasks@[q]));
            }
        }
        proof {
            assert forall|key: u64, c2: u128|
                #![trigger weight_of(self.out.entries_for(key), c2)]
                clip32(weight_of(self.out.entries_for(key), c2)) == clip32(
                    (weight_of(out0.entries_for(key), c2) + join_from(
                        pmasks@,
                        bks@,
                        self.pre,
                        i as int,
                        n,
                        b,
                        self.jbt_ref_pop@,
                        self.total_roots as int,
                        key,
                        c2,
                        s as int,
                        e_eff as int,
                        0,
                        0,
                    )) as nat,
                ) by {
                assert(join_from(
                    pmasks@,
                    bks@,
                    self.pre,
                    i as int,
                    n,
                    b,
                    self.jbt_ref_pop@,
                    self.total_roots as int,
                    key,
                    c2,
                    e_eff as int,
                    e_eff as int,
                    0,
                    0,
                ) == 0);
                assert(weight_of(self.out.entries_for(key), c2) == weight_of(
                    self.out.entries_for(key),
                    c2,
                ));
            }
            assert(self.pre == old(self).pre);
            assert(drained_rep(pmasks@, bks@, old(self).frontiers@[i as int]));
        }
        self.next_root = i + 1;
        false
    }
}

/// The populations of a CSR row's pieces.
pub open spec fn row_pops(pop: Seq<i32>, row: Seq<i32>) -> Seq<u8> {
    Seq::new(row.len(), |q: int| pop[row[q] as int] as u8)
}

/// The sorted populations of a row, as the key type stores them.
pub open spec fn sorted_pops_i32(pop: Seq<i32>, row: Seq<i32>) -> Seq<i32> {
    Seq::new(
        sort_pops(row_pops(pop, row)).len(),
        |q: int| sort_pops(row_pops(pop, row))[q] as i32,
    )
}

/// Decode one output bucket: each committed code becomes a CSR row of
/// its piece indices, with its merged weight; the packed key becomes
/// the sorted population list.
fn build_bucket(key: u64, bkt: &AOBucket, b: u32, m: usize, jbt_ref_pop: &Vec<i32>) -> (r: Result<
    Bucket,
    MatcherError,
>)
    requires
        bkt.wf(),
        bkt.pend_codes@.len() == 0,
        codes_ok(bkt.all_entries(), b, m as nat),
        width_ok(b),
        m <= 4096,
        jbt_ref_pop@.len() == m,
        forall|q: int| 0 <= q < jbt_ref_pop@.len() ==> 0 <= #[trigger] jbt_ref_pop@[q] <= 15,
        forall|c: u128|
            #[trigger] contains_code(bkt.all_entries(), c) ==> code_pop_key_spec(
                c,
                b,
                jbt_ref_pop@,
            ) == key,
    ensures
        bkt.codes@.len() * 10 <= 0x7fff_ffff_ffff_ffff ==> r.is_ok(),
        r.is_ok() ==> {
            let bk = r.unwrap();
            &&& bk.wf()
            &&& bk.n_rows_spec() == bkt.codes@.len()
            &&& forall|rr: int|
                0 <= rr < bk.n_rows_spec() ==> #[trigger] bk.row_spec(rr) == Seq::new(
                    code_seq(bkt.codes@[rr], b).len(),
                    |q: int| code_seq(bkt.codes@[rr], b)[q] as i32,
                )
            &&& bk.key@.len() == key_len(key)
            &&& forall|q: int|
                0 <= q < bk.key@.len() ==> #[trigger] bk.key@[q] == key_digit(key, q) as i32
            &&& bk.weights@.len() == bkt.weights@.len()
            &&& forall|rr: int|
                0 <= rr < bk.weights@.len() ==> #[trigger] bk.weights@[rr] == bkt.weights@[rr]
            &&& forall|rr: int, q: int, q2: int|
                0 <= rr < bk.n_rows_spec() && 0 <= q < q2 < bk.row_spec(rr).len()
                    ==> #[trigger] bk.row_spec(rr)[q] < #[trigger] bk.row_spec(rr)[q2]
            &&& forall|rr: int, q: int|
                0 <= rr < bk.n_rows_spec() && 0 <= q < bk.row_spec(rr).len() ==> 0
                    <= #[trigger] bk.row_spec(rr)[q] < m
            &&& forall|rr: int|
                0 <= rr < bk.n_rows_spec() ==> bk.key@ == sorted_pops_i32(
                    jbt_ref_pop@,
                    #[trigger] bk.row_spec(rr),
                )
        },
{
    let ghost pop = jbt_ref_pop@;
    let mut rows_data: Vec<i32> = Vec::new();
    let mut indptr: Vec<i64> = Vec::new();
    indptr.push(0);
    let mut weights: Vec<u64> = Vec::new();
    let nrows = bkt.codes.len();
    let mut ci: usize = 0;
    while ci < nrows
        invariant
            bkt.wf(),
            bkt.pend_codes@.len() == 0,
            codes_ok(bkt.all_entries(), b, m as nat),
            width_ok(b),
            m <= 4096,
            jbt_ref_pop@.len() == m,
            pop == jbt_ref_pop@,
            nrows == bkt.codes@.len(),
            ci <= nrows,
            indptr@.len() == ci + 1,
            indptr@[0] == 0,
            forall|a: int, b2: int| 0 <= a <= b2 < indptr@.len() ==> indptr@[a] <= indptr@[b2],
            indptr@[indptr@.len() - 1] == rows_data@.len(),
            weights@.len() == ci,
            forall|rr: int| 0 <= rr < ci ==> #[trigger] weights@[rr] == bkt.weights@[rr],
            forall|rr: int|
                0 <= rr < ci ==> #[trigger] rows_data@.subrange(
                    indptr@[rr] as int,
                    indptr@[rr + 1] as int,
                ) == Seq::new(
                    code_seq(bkt.codes@[rr], b).len(),
                    |q: int| code_seq(bkt.codes@[rr], b)[q] as i32,
                ),
            rows_data@.len() <= 10 * ci,
        decreases nrows - ci,
    {
        let c = bkt.codes[ci];
        proof {
            assert(contains_code(bkt.all_entries(), c)) by {
                assert(bkt.all_entries()[ci as int].0 == c);
            }
        }
        let idxs = code_indices(c, b);
        let ghost pre_rd = rows_data@;
        let ghost base = rows_data@.len() as int;
        let mut q: usize = 0;
        while q < idxs.len()
            invariant
                q <= idxs@.len(),
                idxs@.len() <= 10,
                ci < nrows,
                nrows == bkt.codes@.len(),
                idxs@ == code_seq(bkt.codes@[ci as int], b),
                m <= 4096,
                forall|t: int| 0 <= t < idxs@.len() ==> (#[trigger] idxs@[t] as nat) < m,
                rows_data@.len() == base + q,
                base >= 0,
                pre_rd.len() == base,
                forall|t: int| 0 <= t < q ==> #[trigger] rows_data@[base + t] == idxs@[t] as i32,
                forall|t: int| 0 <= t < base ==> #[trigger] rows_data@[t] == pre_rd[t],
            decreases idxs@.len() - q,
        {
            rows_data.push(idxs[q] as i32);
            q = q + 1;
        }
        if rows_data.len() as u64 > 0x7fff_ffff_ffff_ffffu64 {
            proof {
                assert(rows_data@.len() <= 10 * ci + 10);
                assert(bkt.codes@.len() * 10 > 0x7fff_ffff_ffff_ffff);
            }
            return Err(MatcherError::SnapshotInvalid);
        }
        let ghost pre_ip = indptr@;
        indptr.push(rows_data.len() as i64);
        weights.push(bkt.weights[ci] as u64);
        proof {
            assert forall|rr: int|
                0 <= rr < ci + 1 implies #[trigger] rows_data@.subrange(
                indptr@[rr] as int,
                indptr@[rr + 1] as int,
            ) == Seq::new(
                code_seq(bkt.codes@[rr], b).len(),
                |q2: int| code_seq(bkt.codes@[rr], b)[q2] as i32,
            ) by {
                if rr < ci {
                    assert(indptr@[rr] == pre_ip[rr] && indptr@[rr + 1] == pre_ip[rr + 1]);
                    assert(rows_data@.subrange(pre_ip[rr] as int, pre_ip[rr + 1] as int)
                        =~= pre_rd.subrange(pre_ip[rr] as int, pre_ip[rr + 1] as int));
                } else {
                    assert forall|t: int|
                        0 <= t < idxs@.len() implies rows_data@.subrange(
                        base,
                        base + idxs@.len(),
                    )[t] == idxs@[t] as i32 by {
                        assert(rows_data@[base + t] == idxs@[t] as i32);
                    }
                    assert(rows_data@.subrange(base, base + idxs@.len()) =~= Seq::new(
                        code_seq(bkt.codes@[ci as int], b).len(),
                        |q2: int| code_seq(bkt.codes@[ci as int], b)[q2] as i32,
                    ));
                }
            }
        }
        ci = ci + 1;
    }
    let key_vec = decode_pop_key(key);
    let bk = Bucket { rows_data, indptr, weights, key: key_vec };
    proof {
        assert(bk.wf());
        assert(bk.n_rows_spec() == nrows);
        assert forall|rr: int| 0 <= rr < bk.n_rows_spec() implies {
            &&& (forall|q: int, q2: int|
                0 <= q < q2 < bk.row_spec(rr).len() ==> #[trigger] bk.row_spec(rr)[q]
                    < #[trigger] bk.row_spec(rr)[q2])
            &&& (forall|q: int|
                0 <= q < bk.row_spec(rr).len() ==> 0 <= #[trigger] bk.row_spec(rr)[q] < m)
            &&& bk.key@ == sorted_pops_i32(pop, #[trigger] bk.row_spec(rr))
        } by {
            let c = bkt.codes@[rr];
            assert(contains_code(bkt.all_entries(), c)) by {
                assert(bkt.all_entries()[rr].0 == c);
            }
            assert(code_wf(c, b) && code_indices_ok(c, b, m as nat));
            assert(code_pop_key_spec(c, b, pop) == key);
            let row = bk.row_spec(rr);
            assert(row == Seq::new(
                code_seq(c, b).len(),
                |q2: int| code_seq(c, b)[q2] as i32,
            ));
            assert forall|q: int, q2: int|
                0 <= q < q2 < row.len() implies #[trigger] row[q] < #[trigger] row[q2] by {
                assert(code_seq(c, b)[q] < code_seq(c, b)[q2]);
            }
            assert forall|q: int| 0 <= q < row.len() implies 0 <= #[trigger] row[q] < m by {
                assert((code_field(c, q, b) as nat) < m);
            }
            let ps = pops_of_code(c, b, pop);
            assert(row_pops(pop, row) =~= ps);
            let sp = sort_pops(ps);
            lemma_sort_pops_props(ps);
            assert(ps.len() <= 10);
            assert forall|q: int| 0 <= q < sp.len() implies #[trigger] sp[q] <= 15 by {
                vstd::seq_lib::to_multiset_contains::<u8>(sp, sp[q]);
                vstd::seq_lib::to_multiset_contains::<u8>(ps, sp[q]);
                assert(sp.contains(sp[q]));
                assert(ps.contains(sp[q]));
                let w = choose|w: int| 0 <= w < ps.len() && ps[w] == sp[q];
                assert(0 <= pop[code_field(c, w, b) as int] <= 15);
            }
            lemma_pack_key(sp);
            assert(bk.key@ =~= sorted_pops_i32(pop, row));
        }
    }
    Ok(bk)
}


/// Union of the masks of a row's pieces, from position `i` on.
pub open spec fn row_mask_union(piece_masks: Seq<u64>, row: Seq<i32>, i: int) -> u64
    decreases row.len() - i,
{
    if i < 0 || i >= row.len() {
        0
    } else {
        piece_masks[row[i] as int] | row_mask_union(piece_masks, row, i + 1)
    }
}

/// Sum of the populations of a row's pieces, from position `i` on.
pub open spec fn row_pop_sum(pop: Seq<i32>, row: Seq<i32>, i: int) -> int
    decreases row.len() - i,
{
    if i < 0 || i >= row.len() {
        0
    } else {
        pop[row[i] as int] + row_pop_sum(pop, row, i + 1)
    }
}

/// Check that every row of a bucket covers the half board exactly:
/// the union of its pieces' masks is the half mask, and its piece
/// populations add up to the half board's cell count.
pub fn check_mask_code_consistency(
    bucket: &Bucket,
    piece_masks: &Vec<u64>,
    jbt_ref_pop: &Vec<i32>,
    n: u32,
) -> (b: bool)
    requires
        bucket.wf(),
        2 <= n <= 10,
        piece_masks@.len() == jbt_ref_pop@.len(),
        forall|q: int| 0 <= q < jbt_ref_pop@.len() ==> 0 <= #[trigger] jbt_ref_pop@[q] <= 15,
        forall|rr: int, q: int|
            0 <= rr < bucket.n_rows_spec() && 0 <= q < bucket.row_spec(rr).len() ==> 0
                <= #[trigger] bucket.row_spec(rr)[q] < piece_masks@.len(),
    ensures
        b == forall|rr: int|
            0 <= rr < bucket.n_rows_spec() ==> (#[trigger] row_mask_union(
                piece_masks@,
                bucket.row_spec(rr),
                0,
            ) == half_mask_spec(n) && row_pop_sum(jbt_ref_pop@, bucket.row_spec(rr), 0) == n * (n
                / 2)),
{
    let half = left_half_mask(n);
    proof {
        assert((n as int) * ((n as int) / 2) <= 50) by (nonlinear_arith)
            requires
                2 <= n <= 10,
        ;
    }
    let target: i128 = ((n as i128) * ((n as i128) / 2));
    let nrows = bucket.n_rows();
    let mut rr: usize = 0;
    while rr < nrows
        invariant
            bucket.wf(),
            2 <= n <= 10,
            half == half_mask_spec(n),
            target == n * (n / 2),
            piece_masks@.len() == jbt_ref_pop@.len(),
            forall|q: int| 0 <= q < jbt_ref_pop@.len() ==> 0 <= #[trigger] jbt_ref_pop@[q] <= 15,
            forall|rr2: int, q: int|
                0 <= rr2 < bucket.n_rows_spec() && 0 <= q < bucket.row_spec(rr2).len() ==> 0
                    <= #[trigger] bucket.row_spec(rr2)[q] < piece_masks@.len(),
            nrows == bucket.n_rows_spec(),
            rr <= nrows,
            forall|rr2: int|
                0 <= rr2 < rr ==> (#[trigger] row_mask_union(piece_masks@, bucket.row_spec(rr2), 0)
                    == half_mask_spec(n) && row_pop_sum(jbt_ref_pop@, bucket.row_spec(rr2), 0) == n
                    * (n / 2)),
        decreases nrows - rr,
    {
        let row = bucket.row_slice(rr);
        let mut union: u64 = 0;
        let mut psum: i128 = 0;
        let mut q: usize = row.len();
        while q > 0
            invariant
                q <= row@.len(),
                row@ == bucket.row_spec(rr as int),
                rr < bucket.n_rows_spec(),
                bucket.wf(),
                piece_masks@.len() == jbt_ref_pop@.len(),
                forall|q2: int|
                    0 <= q2 < jbt_ref_pop@.len() ==> 0 <= #[trigger] jbt_ref_pop@[q2] <= 15,
                forall|rr2: int, q2: int|
                    0 <= rr2 < bucket.n_rows_spec() && 0 <= q2 < bucket.row_spec(rr2).len() ==> 0
                        <= #[trigger] bucket.row_spec(rr2)[q2] < piece_masks@.len(),
                union == row_mask_union(piece_masks@, row@, q as int),
                psum == row_pop_sum(jbt_ref_pop@, row@, q as int),
                0 <= psum <= (row@.len() - q) * 15,
            decreases q,
        {
            q = q - 1;
            let j = row[q] as usize;
            union = piece_masks[j] | union;
            psum = psum + jbt_ref_pop[j] as i128;
        }
        if union != half || psum != target {
            return false;
        }
        proof {
            assert forall|rr2: int|
                0 <= rr2 < rr + 1 implies (#[trigger] row_mask_union(
                piece_masks@,
                bucket.row_spec(rr2),
                0,
            ) == half_mask_spec(n) && row_pop_sum(jbt_ref_pop@, bucket.row_spec(rr2), 0) == n * (n
                / 2)) by {
                if rr2 == rr {
                    assert(row@ == bucket.row_spec(rr as int));
                    assert(union == row_mask_union(piece_masks@, row@, 0));
                    assert(psum == row_pop_sum(jbt_ref_pop@, row@, 0));
                    assert(union == half_mask_spec(n));
                    assert(psum == n * (n / 2));
                }
            }
        }
        rr = rr + 1;
    }
    true
}

/// The bucket's rows decode, in ascending code order, exactly the
/// codes accumulated in `entries`, each row weighted with its code's
/// clipped total.
pub open spec fn bucket_decodes(bk: Bucket, entries: Seq<Entry>, b: u32) -> bool {
    exists|cs: Seq<u128>|
        #![trigger cs.len()]
        {
            &&& cs.len() == bk.n_rows_spec()
            &&& (forall|rr: int, rr2: int| 0 <= rr < rr2 < cs.len() ==> cs[rr] < cs[rr2])
            &&& (forall|rr: int|
                0 <= rr < cs.len() ==> (contains_code(entries, #[trigger] cs[rr]) && bk.row_spec(
                    rr,
                ) == Seq::new(code_seq(cs[rr], b).len(), |q: int| code_seq(cs[rr], b)[q] as i32)
                    && bk.weights@[rr] == clip32(weight_of(entries, cs[rr]))))
            &&& (forall|c: u128|
                #[trigger] contains_code(entries, c) ==> exists|rr: int|
                    0 <= rr < cs.len() && cs[rr] == c)
        }
}

/// The snapshot's buckets are the output buckets, ordered by strictly
/// ascending packed population key, every accumulated key present
/// exactly once, rows and weights decoded from the accumulated
/// entries, and each bucket's key list decoding its packed key.
pub open spec fn snapshot_matches_out(snap: Snapshot, out: KeyedBuckets, b: u32) -> bool {
    exists|ks: Seq<u64>|
        #![trigger ks.len()]
        {
            &&& ks.len() == snap.buckets@.len()
            &&& (forall|t: int, t2: int| 0 <= t < t2 < ks.len() ==> ks[t] < ks[t2])
            &&& (forall|k: u64|
                #[trigger] out.has_key(k) ==> exists|t: int| 0 <= t < ks.len() && ks[t] == k)
            &&& (forall|t: int|
                0 <= t < ks.len() ==> (out.has_key(#[trigger] ks[t]) && bucket_decodes(
                    snap.buckets@[t],
                    out.entries_for(ks[t]),
                    b,
                ) && snap.buckets@[t].key@.len() == key_len(ks[t]) && (forall|q: int|
                    0 <= q < snap.buckets@[t].key@.len() ==> #[trigger] snap.buckets@[t].key@[q]
                        == key_digit(ks[t], q) as i32)))
        }
}

/// One output entry is consistent: its bucket holds well-formed codes
/// whose population key is exactly `key`, and carries, flushed, the
/// very codes and clipped weights that `out` accumulated under `key`.
pub open spec fn pair_ok(
    key: u64,
    bkt: AOBucket,
    b: u32,
    m: nat,
    pop: Seq<i32>,
    out: KeyedBuckets,
) -> bool {
    &&& bkt.wf()
    &&& bkt.pend_codes@.len() == 0
    &&& codes_ok(bkt.all_entries(), b, m)
    &&& forall|c: u128|
        #[trigger] contains_code(bkt.all_entries(), c) ==> code_pop_key_spec(c, b, pop) == key
    &&& out.has_key(key)
    &&& forall|c: u128|
        #[trigger] contains_code(bkt.all_entries(), c) <==> contains_code(
            out.entries_for(key),
            c,
        )
    &&& forall|c: u128|
        #[trigger] weight_of(bkt.all_entries(), c) == clip32(weight_of(out.entries_for(key), c))
    &&& exists|j: int|
        0 <= j < out.buckets@.len() && #[trigger] out.keys@[j] == key && bkt.codes@.len()
            <= out.buckets@[j].codes@.len() + out.buckets@[j].pend_codes@.len()
}

impl EnumState {
    /// Flush the output buckets and decode them, ordered by packed
    /// population key, into the snapshot handed to the pair solver.
    /// The compatibility tables are left for the caller to attach.
    pub fn finish(self) -> (r: Result<(Snapshot, u64), MatcherError>)
        requires
            self.wf(),
        ensures
            (forall|j: int|
                0 <= j < self.out.buckets@.len() ==> ((#[trigger] self.out.buckets@[j]).codes@.len()
                    + self.out.buckets@[j].pend_codes@.len()) * 10 <= 0x7fff_ffff_ffff_ffff)
                ==> r.is_ok(),
            r.is_ok() ==> {
                let snap = r.unwrap().0;
                &&& snap.compat@ == Map::<i32, (Vec<i32>, Vec<i32>)>::empty()
                &&& snapshot_matches_out(snap, self.out, self.b)
                &&& forall|t: int, t2: int|
                    0 <= t < t2 < snap.buckets@.len() ==> (#[trigger] snap.buckets@[t]).key@ != (
                    #[trigger] snap.buckets@[t2]).key@
                &&& snap.n_total == self.n as i32
                &&& snap.jbt_ref_pop@ == self.jbt_ref_pop@
                &&& snap.buckets@.len() == self.out.keys@.len()
                &&& forall|t: int|
                    0 <= t < snap.buckets@.len() ==> (#[trigger] snap.buckets@[t]).wf()
                &&& forall|t: int, rr: int, q: int, q2: int|
                    0 <= t < snap.buckets@.len() && 0 <= rr < snap.buckets@[t].n_rows_spec() && 0
                        <= q < q2 < snap.buckets@[t].row_spec(rr).len()
                        ==> #[trigger] snap.buckets@[t].row_spec(rr)[q]
                        < #[trigger] snap.buckets@[t].row_spec(rr)[q2]
                &&& forall|t: int, rr: int, q: int|
                    0 <= t < snap.buckets@.len() && 0 <= rr < snap.buckets@[t].n_rows_spec() && 0
                        <= q < snap.buckets@[t].row_spec(rr).len() ==> 0
                        <= #[trigger] snap.buckets@[t].row_spec(rr)[q] < self.m
                &&& forall|t: int, rr: int|
                    0 <= t < snap.buckets@.len() && 0 <= rr
                        < snap.buckets@[t].n_rows_spec() ==> snap.buckets@[t].key@
                        == sorted_pops_i32(
                        self.jbt_ref_pop@,
                        #[trigger] snap.buckets@[t].row_spec(rr),
                    )
            },
    {
        let b = self.b;
        let m = self.m;
        let n = self.n;
        let ghost pop = self.jbt_ref_pop@;
        let base_sat = self.saturations;
        let mut st = self;
        let ob = &mut st.out;
        let ghost pre_out = *ob;
        ob.flush_all();
        let ghost f1 = *ob;
        let (mut keys, mut bkts) = ob.take_all();
        proof {
            assert(pre_out == self.out);
            assert forall|q: int, q2: int|
                0 <= q < q2 < keys@.len() implies keys@[q] != keys@[q2] by {
                assert(f1.index@[f1.keys@[q]] == q);
                assert(f1.index@[f1.keys@[q2]] == q2);
            }
            assert forall|q: int|
                0 <= q < bkts@.len() implies pair_ok(
                #[trigger] keys@[q],
                bkts@[q],
                b,
                m as nat,
                pop,
                pre_out,
            ) by {
                assert(bkts@[q] == f1.buckets@[q]);
                assert(keys@[q] == f1.keys@[q]);
                assert(f1.entries_for(keys@[q]) == f1.buckets@[q].all_entries()) by {
                    assert(f1.index@.contains_key(f1.keys@[q]));
                    assert(f1.index@[f1.keys@[q]] == q);
                }
                assert forall|c: u128|
                    #[trigger] contains_code(bkts@[q].all_entries(), c) implies code_wf(c, b)
                    && code_indices_ok(c, b, m as nat) && code_pop_key_spec(c, b, pop)
                    == keys@[q] by {
                    assert(contains_code(f1.entries_for(keys@[q]), c));
                    assert(contains_code(pre_out.entries_for(keys@[q]), c));
                }
                assert(pre_out.has_key(keys@[q]));
                assert forall|c: u128|
                    #[trigger] contains_code(bkts@[q].all_entries(), c) <==> contains_code(
                        pre_out.entries_for(keys@[q]),
                        c,
                    ) by {
                    assert(contains_code(f1.entries_for(keys@[q]), c) <==> contains_code(
                        pre_out.entries_for(keys@[q]),
                        c,
                    ));
                }
                assert forall|c: u128|
                    #[trigger] weight_of(bkts@[q].all_entries(), c) == clip32(
                        weight_of(pre_out.entries_for(keys@[q]), c),
                    ) by {
                    assert(weight_of(f1.entries_for(keys@[q]), c) == clip32(
                        weight_of(pre_out.entries_for(keys@[q]), c),
                    ));
                }
                assert(pre_out.keys@[q] == keys@[q] && bkts@[q].codes@.len()
                    <= pre_out.buckets@[q].codes@.len() + pre_out.buckets@[q].pend_codes@.len());
            }
            assert forall|k: u64|
                #[trigger] pre_out.has_key(k) implies exists|q: int|
                0 <= q < keys@.len() && keys@[q] == k by {
                assert(pre_out.keys@.contains(k));
                let q = choose|q: int| 0 <= q < pre_out.keys@.len() && pre_out.keys@[q] == k;
                assert(keys@[q] == k);
            }
        }
        // order the output by packed key
        let mut keys2: Vec<u64> = Vec::new();
        let mut bkts2: Vec<AOBucket> = Vec::new();
        let ghost total = keys@.len();
        while keys.len() > 0
            invariant
                keys@.len() == bkts@.len(),
                keys2@.len() == bkts2@.len(),
                keys2@.len() + keys@.len() == total,
                forall|q: int|
                    0 <= q < bkts@.len() ==> pair_ok(
                        #[trigger] keys@[q],
                        bkts@[q],
                        b,
                        m as nat,
                        pop,
                        pre_out,
                    ),
                forall|q: int|
                    0 <= q < bkts2@.len() ==> pair_ok(
                        #[trigger] keys2@[q],
                        bkts2@[q],
                        b,
                        m as nat,
                        pop,
                        pre_out,
                    ),
                forall|q: int, q2: int| 0 <= q <= q2 < keys2@.len() ==> keys2@[q] <= keys2@[q2],
                forall|q: int, q2: int| 0 <= q < q2 < keys@.len() ==> keys@[q] != keys@[q2],
                forall|q: int, q2: int| 0 <= q < q2 < keys2@.len() ==> keys2@[q] != keys2@[q2],
                forall|q: int, q2: int|
                    0 <= q < keys@.len() && 0 <= q2 < keys2@.len() ==> keys@[q] != keys2@[q2],
                forall|k: u64|
                    #[trigger] pre_out.has_key(k) ==> ((exists|q: int|
                        0 <= q < keys@.len() && keys@[q] == k) || (exists|q: int|
                        0 <= q < keys2@.len() && keys2@[q] == k)),
            decreases keys@.len(),
        {
            let ghost pks = keys@;
            let kv = keys.pop().unwrap();
            let bv = bkts.pop().unwrap();
            proof {
                assert(pks =~= keys@.push(kv));
            }
            let mut pos: usize = 0;
            while pos < keys2.len() && keys2[pos] <= kv
                invariant
                    pos <= keys2@.len(),
                    forall|q: int| 0 <= q < pos ==> keys2@[q] <= kv,
                    forall|q: int, q2: int|
                        0 <= q <= q2 < keys2@.len() ==> keys2@[q] <= keys2@[q2],
                decreases keys2@.len() - pos,
            {
                pos = pos + 1;
            }
            proof {
                assert forall|q: int| pos <= q < keys2@.len() implies keys2@[q] > kv by {
                    assert(keys2@[pos as int] <= keys2@[q]);
                }
            }
            let ghost pk2 = keys2@;
            let ghost pb2 = bkts2@;
            keys2.insert(pos, kv);
            bkts2.insert(pos, bv);
            proof {
                assert(keys2@ == pk2.insert(pos as int, kv));
                assert(bkts2@ == pb2.insert(pos as int, bv));
                assert forall|q: int, q2: int|
                    0 <= q <= q2 < keys2@.len() implies keys2@[q] <= keys2@[q2] by {
                    assert(keys2@ == pk2.insert(pos as int, kv));
                }
                assert forall|q: int|
                    0 <= q < bkts2@.len() implies pair_ok(
                    #[trigger] keys2@[q],
                    bkts2@[q],
                    b,
                    m as nat,
                    pop,
                    pre_out,
                ) by {
                    assert(keys2@ == pk2.insert(pos as int, kv));
                    assert(bkts2@ == pb2.insert(pos as int, bv));
                    if q < pos {
                        assert(keys2@[q] == pk2[q] && bkts2@[q] == pb2[q]);
                    } else if q > pos {
                        assert(keys2@[q] == pk2[q - 1] && bkts2@[q] == pb2[q - 1]);
                    }
                }
                assert(kv == pks[keys@.len() as int]);
                assert forall|q: int, q2: int|
                    0 <= q < q2 < keys2@.len() implies keys2@[q] != keys2@[q2] by {
                    assert(keys2@ == pk2.insert(pos as int, kv));
                }
                assert forall|q: int, q2: int|
                    0 <= q < keys@.len() && 0 <= q2 < keys2@.len() implies keys@[q]
                    != keys2@[q2] by {
                    assert(keys2@ == pk2.insert(pos as int, kv));
                    assert(keys@[q] == pks[q]);
                    if q2 != pos {
                        let q3: int = if q2 < pos {
                            q2
                        } else {
                            q2 - 1
                        };
                        assert(keys2@[q2] == pk2[q3]);
                    }
                }
                assert forall|k: u64|
                    #[trigger] pre_out.has_key(k) implies ((exists|q: int|
                        0 <= q < keys@.len() && keys@[q] == k) || (exists|q: int|
                        0 <= q < keys2@.len() && keys2@[q] == k)) by {
                    if exists|q: int| 0 <= q < pks.len() && pks[q] == k {
                        let q = choose|q: int| 0 <= q < pks.len() && pks[q] == k;
                        if q < keys@.len() {
                            assert(keys@[q] == k);
                        } else {
                            assert(k == kv);
                            assert(keys2@[pos as int] == k);
                        }
                    } else {
                        let q = choose|q: int| 0 <= q < pk2.len() && pk2[q] == k;
                        if q < pos {
                            assert(keys2@[q] == k);
                        } else {
                            assert(keys2@[q + 1] == k);
                        }
                    }
                }
            }
        }
        // decode every bucket
        let mut buckets: Vec<Bucket> = Vec::new();
        let mut t: usize = 0;
        while t < keys2.len()
            invariant
                keys2@.len() == bkts2@.len(),
                keys2@.len() == total,
                pop == st.jbt_ref_pop@,
                m == st.m,
                b == st.b,
                width_ok(b),
                m <= 4096,
                st.jbt_ref_pop@.len() == m,
                forall|q: int|
                    0 <= q < st.jbt_ref_pop@.len() ==> 0 <= #[trigger] st.jbt_ref_pop@[q] <= 15,
                t <= keys2@.len(),
                buckets@.len() == t,
                pre_out == self.out,
                forall|q: int|
                    0 <= q < bkts2@.len() ==> pair_ok(
                        #[trigger] keys2@[q],
                        bkts2@[q],
                        b,
                        m as nat,
                        pop,
                        pre_out,
                    ),
                forall|q: int, q2: int| 0 <= q <= q2 < keys2@.len() ==> keys2@[q] <= keys2@[q2],
                forall|q: int, q2: int| 0 <= q < q2 < keys2@.len() ==> keys2@[q] != keys2@[q2],
                forall|k: u64|
                    #[trigger] pre_out.has_key(k) ==> exists|q: int|
                        0 <= q < keys2@.len() && keys2@[q] == k,
                forall|t2: int|
                    0 <= t2 < t ==> (pre_out.has_key(#[trigger] keys2@[t2]) && bucket_decodes(
                        buckets@[t2],
                        pre_out.entries_for(keys2@[t2]),
                        b,
                    ) && buckets@[t2].key@.len() == key_len(keys2@[t2]) && (forall|q: int|
                        0 <= q < buckets@[t2].key@.len() ==> #[trigger] buckets@[t2].key@[q]
                            == key_digit(keys2@[t2], q) as i32)),
                forall|t2: int| 0 <= t2 < t ==> (#[trigger] buckets@[t2]).wf(),
                forall|t2: int, rr: int, q: int, q2: int|
                    0 <= t2 < t && 0 <= rr < buckets@[t2].n_rows_spec() && 0 <= q < q2
                        < buckets@[t2].row_spec(rr).len() ==> #[trigger] buckets@[t2].row_spec(
                        rr,
                    )[q] < #[trigger] buckets@[t2].row_spec(rr)[q2],
                forall|t2: int, rr: int, q: int|
                    0 <= t2 < t && 0 <= rr < buckets@[t2].n_rows_spec() && 0 <= q
                        < buckets@[t2].row_spec(rr).len() ==> 0 <= #[trigger] buckets@[
                        t2
                    ].row_spec(rr)[q] < m,
                forall|t2: int, rr: int|
                    0 <= t2 < t && 0 <= rr < buckets@[t2].n_rows_spec() ==> buckets@[t2].key@
                        == sorted_pops_i32(pop, #[trigger] buckets@[t2].row_spec(rr)),
            decreases keys2@.len() - t,
        {
            let bk = match build_bucket(keys2[t], &bkts2[t], b, m, &st.jbt_ref_pop) {
                Ok(bk) => bk,
                Err(e) => {
                    proof {
                        assert(bkts2@[t as int].codes@.len() * 10 > 0x7fff_ffff_ffff_ffff);
                        let j = choose|j: int|
                            0 <= j < pre_out.buckets@.len() && #[trigger] pre_out.keys@[j]
                                == keys2@[t as int] && bkts2@[t as int].codes@.len()
                                <= pre_out.buckets@[j].codes@.len()
                                + pre_out.buckets@[j].pend_codes@.len();
                        assert((pre_out.buckets@[j].codes@.len()
                            + pre_out.buckets@[j].pend_codes@.len()) * 10
                            > 0x7fff_ffff_ffff_ffff) by (nonlinear_arith)
                            requires
                                bkts2@[t as int].codes@.len() * 10 > 0x7fff_ffff_ffff_ffff,
                                bkts2@[t as int].codes@.len() <= pre_out.buckets@[j].codes@.len()
                                    + pre_out.buckets@[j].pend_codes@.len(),
                        ;
                    }
                    return Err(e);
                },
            };
            proof {
                let key = keys2@[t as int];
                let bkt = bkts2@[t as int];
                let ghost cs = bkt.codes@;
                assert(bkt.all_entries() =~= entries_of(bkt.codes@, bkt.weights@));
                assert forall|rr: int, rr2: int|
                    0 <= rr < rr2 < cs.len() implies cs[rr] < cs[rr2] by {
                    assert(entries_of(bkt.codes@, bkt.weights@)[rr].0 < entries_of(
                        bkt.codes@,
                        bkt.weights@,
                    )[rr2].0);
                }
                assert forall|rr: int|
                    0 <= rr < cs.len() implies (contains_code(
                        pre_out.entries_for(key),
                        #[trigger] cs[rr],
                    ) && bk.row_spec(rr) == Seq::new(
                        code_seq(cs[rr], b).len(),
                        |q: int| code_seq(cs[rr], b)[q] as i32,
                    ) && bk.weights@[rr] == clip32(
                        weight_of(pre_out.entries_for(key), cs[rr]),
                    )) by {
                    assert(contains_code(bkt.all_entries(), cs[rr])) by {
                        assert(bkt.all_entries()[rr].0 == cs[rr]);
                    }
                    crate::bucket::lemma_sorted_weight(
                        entries_of(bkt.codes@, bkt.weights@),
                        rr,
                    );
                    assert(weight_of(bkt.all_entries(), cs[rr]) == bkt.weights@[rr] as nat);
                    assert(bk.weights@[rr] == bkt.weights@[rr]);
                }
                assert forall|c: u128|
                    #[trigger] contains_code(pre_out.entries_for(key), c) implies exists|rr: int|
                    0 <= rr < cs.len() && cs[rr] == c by {
                    assert(contains_code(bkt.all_entries(), c));
                    let q = choose|q: int|
                        0 <= q < bkt.all_entries().len() && bkt.all_entries()[q].0 == c;
                    assert(cs[q] == c);
                }
                assert(bucket_decodes(bk, pre_out.entries_for(key), b)) by {
                    assert(cs.len() == bk.n_rows_spec());
                }
            }
            buckets.push(bk);
            t = t + 1;
        }
        let mut sat_total: u64 = base_sat;
        let mut sq: usize = 0;
        while sq < bkts2.len()
            invariant
                sq <= bkts2@.len(),
                sat_total >= base_sat,
            decreases bkts2@.len() - sq,
        {
            let add = bkts2[sq].saturations;
            sat_total = if sat_total > 0xffff_ffff_ffff_ffff - add {
                0xffff_ffff_ffff_ffff
            } else {
                sat_total + add
            };
            sq = sq + 1;
        }
        let snap = Snapshot {
            buckets,
            jbt_ref_pop: st.jbt_ref_pop,
            n_total: n as i32,
            compat: std::collections::HashMap::new(),
        };
        proof {
            assert(snap.compat@ =~= Map::<i32, (Vec<i32>, Vec<i32>)>::empty());
            let ghost ks = keys2@;
            assert(ks.len() == snap.buckets@.len());
            assert forall|t2: int, t3: int| 0 <= t2 < t3 < ks.len() implies ks[t2] < ks[t3] by {}
            assert(snapshot_matches_out(snap, self.out, b)) by {
                assert(pre_out == self.out);
            }
            assert forall|t2: int, t3: int|
                0 <= t2 < t3 < snap.buckets@.len() implies (#[trigger] snap.buckets@[t2]).key@
                != (#[trigger] snap.buckets@[t3]).key@ by {
                if snap.buckets@[t2].key@ == snap.buckets@[t3].key@ {
                    let k2 = ks[t2];
                    let k3 = ks[t3];
                    let c2 = choose|c: u128| contains_code(pre_out.entries_for(k2), c);
                    let c3 = choose|c: u128| contains_code(pre_out.entries_for(k3), c);
                    assert(code_pop_key_spec(c2, b, pop) == k2);
                    assert(code_pop_key_spec(c3, b, pop) == k3);
                    let s2 = sort_pops(pops_of_code(c2, b, pop));
                    let s3 = sort_pops(pops_of_code(c3, b, pop));
                    assert(codes_ok(pre_out.entries_for(k2), b, m as nat));
                    assert(codes_ok(pre_out.entries_for(k3), b, m as nat));
                    lemma_sorted_pop_digits(c2, b, pop, m as nat);
                    lemma_sorted_pop_digits(c3, b, pop, m as nat);
                    lemma_pack_key(s2);
                    lemma_pack_key(s3);
                    assert(snap.buckets@[t2].key@.len() == s2.len());
                    assert(snap.buckets@[t3].key@.len() == s3.len());
                    assert(s2 =~= s3) by {
                        assert forall|q: int| 0 <= q < s2.len() implies s2[q] == s3[q] by {
                            assert(snap.buckets@[t2].key@[q] == key_digit(k2, q) as i32);
                            assert(snap.buckets@[t3].key@[q] == key_digit(k3, q) as i32);
                            assert(key_digit(k2, q) == s2[q]);
                            assert(key_digit(k3, q) == s3[q]);
                        }
                    }
                    assert(k2 == k3);
                }
            }
        }
        Ok((snap, sat_total))
    }
}

/// The sorted populations of a code's pieces fit the key digits.
proof fn lemma_sorted_pop_digits(c: u128, b: u32, pop: Seq<i32>, m: nat)
    requires
        code_wf(c, b),
        code_indices_ok(c, b, m),
        pop.len() == m,
        forall|q: int| 0 <= q < pop.len() ==> 0 <= #[trigger] pop[q] <= 15,
    ensures
        sort_pops(pops_of_code(c, b, pop)).len() <= 10,
        forall|q: int|
            0 <= q < sort_pops(pops_of_code(c, b, pop)).len() ==> #[trigger] sort_pops(
                pops_of_code(c, b, pop),
            )[q] <= 15,
{
    let ps = pops_of_code(c, b, pop);
    lemma_sort_pops_props(ps);
    let sp = sort_pops(ps);
    assert forall|q: int| 0 <= q < sp.len() implies #[trigger] sp[q] <= 15 by {
        vstd::seq_lib::to_multiset_contains::<u8>(sp, sp[q]);
        vstd::seq_lib::to_multiset_contains::<u8>(ps, sp[q]);
        assert(sp.contains(sp[q]));
        assert(ps.contains(sp[q]));
        let w = choose|w: int| 0 <= w < ps.len() && ps[w] == sp[q];
        assert(0 <= pop[code_field(c, w, b) as int] <= 15);
    }
}

/// Run the whole enumeration: seed, drain every root in order, and
/// decode the output buckets. The caller attaches compatibility tables
/// afterwards.
pub fn enumerate_to_snapshot(
    inputs: Inputs,
    pend_flush: usize,
    first_limit: Option<usize>,
) -> (r: Result<(Snapshot, u64), MatcherError>)
    requires
        inputs.wf(),
    ensures
        r.is_ok() ==> {
            let snap = r.unwrap().0;
            &&& snap.compat@ == Map::<i32, (Vec<i32>, Vec<i32>)>::empty()
            &&& forall|t: int, t2: int|
                0 <= t < t2 < snap.buckets@.len() ==> (#[trigger] snap.buckets@[t]).key@ != (
                #[trigger] snap.buckets@[t2]).key@
            &&& snap.n_total == inputs.n as i32
            &&& snap.jbt_ref_pop@ == inputs.jbt_ref_pop@
            &&& forall|t: int|
                0 <= t < snap.buckets@.len() ==> (#[trigger] snap.buckets@[t]).wf()
            &&& forall|t: int, rr: int, q: int, q2: int|
                0 <= t < snap.buckets@.len() && 0 <= rr < snap.buckets@[t].n_rows_spec() && 0 <= q
                    < q2 < snap.buckets@[t].row_spec(rr).len()
                    ==> #[trigger] snap.buckets@[t].row_spec(rr)[q]
                    < #[trigger] snap.buckets@[t].row_spec(rr)[q2]
            &&& forall|t: int, rr: int, q: int|
                0 <= t < snap.buckets@.len() && 0 <= rr < snap.buckets@[t].n_rows_spec() && 0 <= q
                    < snap.buckets@[t].row_spec(rr).len() ==> 0
                    <= #[trigger] snap.buckets@[t].row_spec(rr)[q] < inputs.m
            &&& forall|t: int, rr: int|
                0 <= t < snap.buckets@.len() && 0 <= rr
                    < snap.buckets@[t].n_rows_spec() ==> snap.buckets@[t].key@ == sorted_pops_i32(
                    inputs.jbt_ref_pop@,
                    #[trigger] snap.buckets@[t].row_spec(rr),
                )
        },
{
    let ghost inp = inputs;
    let mut st = EnumState::new(inputs, pend_flush, first_limit);
    loop
        invariant
            st.wf(),
            st.n == inp.n,
            st.m == inp.m,
            st.jbt_ref_pop@ == inp.jbt_ref_pop@,
        decreases st.total_roots - st.next_root,
    {
        let done = st.step();
        if done {
            break;
        }
    }
    st.finish()
}

} // verus!
