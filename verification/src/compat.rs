//! Compatibility builder: derive the per-population compatibility
//! relation from the pieces' 3-mask components.

use std::collections::HashMap;
use vstd::prelude::*;
use vstd::std_specs::bits::u32_trailing_zeros;

verus! {

broadcast use vstd::std_specs::hash::group_hash_axioms;

/// True iff the bitwise overlap of `a` and `b` is a single contiguous
/// run of set bits.
pub open spec fn contiguous_overlap_spec(a: u16, b: u16) -> bool {
    let o = (a & b) as u32;
    o != 0 && {
        let s = o >> u32_trailing_zeros(o);
        s & ((s + 1) as u32) == 0
    }
}

pub fn contiguous_overlap(a: u16, b: u16) -> (r: bool)
    ensures
        r == contiguous_overlap_spec(a, b),
{
    let o = (a & b) as u32;
    if o == 0 {
        return false;
    }
    let tz = o.trailing_zeros();
    let s = o >> tz;
    proof {
        assert(o >> tz <= o) by (bit_vector);
    }
    (s & (s + 1)) == 0
}

/// The non-zero components of a piece, in order.
pub open spec fn nonzero_comps(c: [u16; 3]) -> Seq<u16> {
    (if c[0] != 0 {
        seq![c[0]]
    } else {
        Seq::<u16>::empty()
    }) + (if c[1] != 0 {
        seq![c[1]]
    } else {
        Seq::<u16>::empty()
    }) + (if c[2] != 0 {
        seq![c[2]]
    } else {
        Seq::<u16>::empty()
    })
}

/// The compatibility rule over the shorter list `a` and longer list `b`.
pub open spec fn compat_of_seqs(a: Seq<u16>, b: Seq<u16>) -> bool {
    if a.len() == 1 && b.len() == 3 {
        contiguous_overlap_spec(a[0], b[2]) && contiguous_overlap_spec(a[0], b[1])
            && contiguous_overlap_spec(a[0], b[0])
    } else if a.len() == 2 && b.len() == 2 {
        contiguous_overlap_spec(a[1], b[1]) && contiguous_overlap_spec(a[0], b[0]) && (
        contiguous_overlap_spec(a[1], b[0]) != contiguous_overlap_spec(a[0], b[1]))
    } else if a.len() == 1 && b.len() == 2 {
        contiguous_overlap_spec(a[0], b[1]) && contiguous_overlap_spec(a[0], b[0])
    } else if a.len() == 1 && b.len() == 1 {
        contiguous_overlap_spec(a[0], b[0])
    } else {
        false
    }
}

/// Whether two pieces' component triples are compatible.
pub open spec fn determine_compat_spec(c1: [u16; 3], c2: [u16; 3]) -> bool {
    let a = nonzero_comps(c1);
    let b = nonzero_comps(c2);
    if a.len() <= b.len() {
        compat_of_seqs(a, b)
    } else {
        compat_of_seqs(b, a)
    }
}

fn push_nonzeros(c: &[u16; 3]) -> (v: Vec<u16>)
    ensures
        v@ == nonzero_comps(*c),
{
    let mut v: Vec<u16> = Vec::new();
    if c[0] != 0 {
        v.push(c[0]);
    }
    if c[1] != 0 {
        v.push(c[1]);
    }
    if c[2] != 0 {
        v.push(c[2]);
    }
    proof {
        assert(v@ =~= nonzero_comps(*c));
    }
    v
}

pub fn determine_compatibility(c1: &[u16; 3], c2: &[u16; 3]) -> (r: bool)
    ensures
        r == determine_compat_spec(*c1, *c2),
{
    let v1 = push_nonzeros(c1);
    let v2 = push_nonzeros(c2);
    let (a, b) = if v1.len() <= v2.len() {
        (v1, v2)
    } else {
        (v2, v1)
    };
    if a.len() == 1 && b.len() == 3 {
        contiguous_overlap(a[0], b[2]) && contiguous_overlap(a[0], b[1]) && contiguous_overlap(
            a[0],
            b[0],
        )
    } else if a.len() == 2 && b.len() == 2 {
        let co11 = contiguous_overlap(a[1], b[1]);
        if !co11 {
            return false;
        }
        let co22 = contiguous_overlap(a[0], b[0]);
        if !co22 {
            return false;
        }
        let co12 = contiguous_overlap(a[1], b[0]);
        let co21 = contiguous_overlap(a[0], b[1]);
        co12 != co21
    } else if a.len() == 1 && b.len() == 2 {
        contiguous_overlap(a[0], b[1]) && contiguous_overlap(a[0], b[0])
    } else if a.len() == 1 && b.len() == 1 {
        contiguous_overlap(a[0], b[0])
    } else {
        false
    }
}

/// (i, j) is a compatible pair for populations (p, q).
pub open spec fn compat_pair_at(
    pop: Seq<i32>,
    comps: Seq<[u16; 3]>,
    p: i32,
    q: i32,
    i: int,
    j: int,
) -> bool {
    &&& 0 <= i < pop.len()
    &&& 0 <= j < pop.len()
    &&& pop[i] == p
    &&& pop[j] == q
    &&& determine_compat_spec(comps[i], comps[j])
}

/// `k1`/`k2` list exactly the compatible pairs for (p, q), each once,
/// in ascending lexicographic order.
pub open spec fn compat_table_ok(
    k1: Seq<i32>,
    k2: Seq<i32>,
    pop: Seq<i32>,
    comps: Seq<[u16; 3]>,
    p: i32,
    q: i32,
) -> bool {
    &&& k1.len() == k2.len()
    &&& forall|k: int|
        0 <= k < k1.len() ==> #[trigger] compat_pair_at(pop, comps, p, q, k1[k] as int, k2[k] as int)
    &&& forall|i: int, j: int|
        #[trigger] compat_pair_at(pop, comps, p, q, i, j) ==> exists|k: int|
            0 <= k < k1.len() && k1[k] == i && #[trigger] k2[k] == j
    &&& forall|k: int, l: int|
        0 <= k < l < k1.len() ==> (k1[k] < k1[l] || (k1[k] == k1[l] && k2[k] < k2[l]))
}

/// Build the two key arrays for the population pair `p` versus
/// `q = n_total - p`: all piece pairs (i, j) with `pop[i] == p`,
/// `pop[j] == q` whose components are compatible.
pub fn compat_for_pop_pair(
    jbt_ref_pop: &Vec<i32>,
    jbt_ref_comps: &Vec<[u16; 3]>,
    n_total: i32,
    p: i32,
) -> (r: (Vec<i32>, Vec<i32>))
    requires
        jbt_ref_comps@.len() == jbt_ref_pop@.len(),
        jbt_ref_pop@.len() <= 0x7fff_ffff,
        0 <= n_total <= 10,
    ensures
        r.0@.len() == r.1@.len(),
        (p <= 0 || n_total - p <= 0 || p >= n_total) ==> r.0@.len() == 0,
        (0 < p < n_total) ==> compat_table_ok(
            r.0@,
            r.1@,
            jbt_ref_pop@,
            jbt_ref_comps@,
            p,
            (n_total - p) as i32,
        ),
{
    let ghost pop = jbt_ref_pop@;
    let ghost comps = jbt_ref_comps@;
    if p <= 0 || n_total - p <= 0 {
        return (Vec::new(), Vec::new());
    }
    let q = n_total - p;
    let m = jbt_ref_pop.len();
    let mut k1: Vec<i32> = Vec::new();
    let mut k2: Vec<i32> = Vec::new();
    let mut i: usize = 0;
    while i < m
        invariant
            m == pop.len() == comps.len(),
            m <= 0x7fff_ffff,
            q == n_total - p,
            pop == jbt_ref_pop@,
            comps == jbt_ref_comps@,
            i <= m,
            k1@.len() == k2@.len(),
            forall|k: int|
                0 <= k < k1@.len() ==> #[trigger] compat_pair_at(
                    pop,
                    comps,
                    p,
                    q,
                    k1@[k] as int,
                    k2@[k] as int,
                ),
            forall|i0: int, j0: int|
                i0 < i && #[trigger] compat_pair_at(pop, comps, p, q, i0, j0) ==> exists|k: int|
                    0 <= k < k1@.len() && k1@[k] == i0 && #[trigger] k2@[k] == j0,
            forall|k: int| 0 <= k < k1@.len() ==> 0 <= #[trigger] k1@[k] < i,
            forall|k: int, l: int|
                0 <= k < l < k1@.len() ==> (k1@[k] < k1@[l] || (k1@[k] == k1@[l] && k2@[k]
                    < k2@[l])),
        decreases m - i,
    {
        if jbt_ref_pop[i] == p {
            let mut j: usize = 0;
            while j < m
                invariant
                    m == pop.len() == comps.len(),
                    m <= 0x7fff_ffff,
                    q == n_total - p,
                    pop == jbt_ref_pop@,
                    comps == jbt_ref_comps@,
                    i < m,
                    j <= m,
                    pop[i as int] == p,
                    k1@.len() == k2@.len(),
                    forall|k: int|
                        0 <= k < k1@.len() ==> #[trigger] compat_pair_at(
                            pop,
                            comps,
                            p,
                            q,
                            k1@[k] as int,
                            k2@[k] as int,
                        ),
                    forall|i0: int, j0: int|
                        i0 < i && #[trigger] compat_pair_at(pop, comps, p, q, i0, j0) ==> exists|
                            k: int,
                        | 0 <= k < k1@.len() && k1@[k] == i0 && #[trigger] k2@[k] == j0,
                    forall|j0: int|
                        j0 < j && #[trigger] compat_pair_at(pop, comps, p, q, i as int, j0)
                            ==> exists|k: int|
                            0 <= k < k1@.len() && k1@[k] == i as i32 && #[trigger] k2@[k] == j0,
                    forall|k: int| 0 <= k < k1@.len() ==> 0 <= #[trigger] k1@[k] <= i,
                    forall|k: int|
                        0 <= k < k1@.len() && #[trigger] k1@[k] == i as i32 ==> k2@[k] < j,
                    forall|k: int, l: int|
                        0 <= k < l < k1@.len() ==> (k1@[k] < k1@[l] || (k1@[k] == k1@[l] && k2@[k]
                            < k2@[l])),
                decreases m - j,
            {
                if jbt_ref_pop[j] == q {
                    let c1 = jbt_ref_comps[i];
                    let c2 = jbt_ref_comps[j];
                    if determine_compatibility(&c1, &c2) {
                        let ghost pk1 = k1@;
                        let ghost pk2 = k2@;
                        k1.push(i as i32);
                        k2.push(j as i32);
                        proof {
                            assert(compat_pair_at(pop, comps, p, q, i as int, j as int));
                            assert(k1@ == pk1.push(i as i32) && k2@ == pk2.push(j as i32));
                            assert(k1@[pk1.len() as int] == i as i32 && k2@[pk2.len() as int]
                                == j as i32);
                            assert forall|i0: int, j0: int|
                                i0 < i && #[trigger] compat_pair_at(
                                    pop,
                                    comps,
                                    p,
                                    q,
                                    i0,
                                    j0,
                                ) implies exists|k: int|
                                0 <= k < k1@.len() && k1@[k] == i0 && #[trigger] k2@[k] == j0 by {
                                let k = choose|k: int|
                                    0 <= k < pk1.len() && pk1[k] == i0 && #[trigger] pk2[k] == j0;
                                assert(k1@[k] == i0 && k2@[k] == j0);
                            }
                            assert forall|j0: int|
                                j0 < j + 1 && #[trigger] compat_pair_at(
                                    pop,
                                    comps,
                                    p,
                                    q,
                                    i as int,
                                    j0,
                                ) implies exists|k: int|
                                0 <= k < k1@.len() && k1@[k] == i as i32 && #[trigger] k2@[k]
                                    == j0 by {
                                if j0 < j {
                                    let k = choose|k: int|
                                        0 <= k < pk1.len() && pk1[k] == i as i32 && #[trigger] pk2[k]
                                            == j0;
                                    assert(k1@[k] == i as i32 && k2@[k] == j0);
                                } else {
                                    assert(k1@[pk1.len() as int] == i as i32 && k2@[pk1.len() as int]
                                        == j as i32);
                                }
                            }
                        }
                    }
                }
                j = j + 1;
            }
        }
        proof {
            assert forall|i0: int, j0: int|
                i0 < i + 1 && #[trigger] compat_pair_at(pop, comps, p, q, i0, j0) implies exists|
                k: int,
            | 0 <= k < k1@.len() && k1@[k] == i0 && #[trigger] k2@[k] == j0 by {
                if i0 == i {
                    assert(pop[i0] == p);
                }
            }
        }
        i = i + 1;
    }
    (k1, k2)
}

/// The compat table, fully covered and symmetric.
pub open spec fn compat_map_ok(
    m: Map<i32, (Vec<i32>, Vec<i32>)>,
    pop: Seq<i32>,
    comps: Seq<[u16; 3]>,
    n_total: i32,
) -> bool {
    &&& forall|r: i32| m.contains_key(r) <==> 1 <= r < n_total
    &&& forall|r: i32|
        1 <= r < n_total ==> (m[(n_total - r) as i32].0@ == #[trigger] m[r].1@ && m[(n_total
            - r) as i32].1@ == m[r].0@)
    &&& forall|r: i32|
        1 <= r <= (n_total - 1) / 2 ==> compat_table_ok(
            #[trigger] m[r].0@,
            m[r].1@,
            pop,
            comps,
            r,
            (n_total - r) as i32,
        )
    &&& (n_total % 2 == 0 && n_total >= 2) ==> (m[(n_total / 2) as i32].0@.len() == 0 && m[(
    n_total / 2) as i32].1@.len() == 0)
}

/// Build the full compat map for all populations `1 .. n_total`:
/// computed for `p` up to the midpoint, mirrored with swapped arrays
/// above it, the midpoint (never paired with a distinct population)
/// left empty.
pub fn build_compat_map(
    jbt_ref_pop: &Vec<i32>,
    jbt_ref_comps: &Vec<[u16; 3]>,
    n_total: i32,
) -> (m: HashMap<i32, (Vec<i32>, Vec<i32>)>)
    requires
        jbt_ref_comps@.len() == jbt_ref_pop@.len(),
        jbt_ref_pop@.len() <= 0x7fff_ffff,
        2 <= n_total <= 10,
    ensures
        compat_map_ok(m@, jbt_ref_pop@, jbt_ref_comps@, n_total),
{
    let ghost pop = jbt_ref_pop@;
    let ghost comps = jbt_ref_comps@;
    let mut out: HashMap<i32, (Vec<i32>, Vec<i32>)> = HashMap::new();
    let mut p: i32 = 1;
    while p <= (n_total - 1) / 2
        invariant
            jbt_ref_comps@.len() == jbt_ref_pop@.len(),
            jbt_ref_pop@.len() <= 0x7fff_ffff,
            2 <= n_total <= 10,
            pop == jbt_ref_pop@,
            comps == jbt_ref_comps@,
            1 <= p <= (n_total - 1) / 2 + 1,
            forall|r: i32|
                out@.contains_key(r) <==> (1 <= r < p || n_total - p < r < n_total),
            forall|r: i32|
                1 <= r < p ==> (out@[(n_total - r) as i32].0@ == #[trigger] out@[r].1@ && out@[(
                n_total - r) as i32].1@ == out@[r].0@),
            forall|r: i32|
                1 <= r < p ==> compat_table_ok(
                    #[trigger] out@[r].0@,
                    out@[r].1@,
                    pop,
                    comps,
                    r,
                    (n_total - r) as i32,
                ),
        decreases (n_total - 1) / 2 + 1 - p,
    {
        let (k1, k2) = compat_for_pop_pair(jbt_ref_pop, jbt_ref_comps, n_total, p);
        let q = n_total - p;
        let k1c = k1.clone();
        let k2c = k2.clone();
        proof {
            assert(k1c@ == k1@ && k2c@ == k2@);
        }
        out.insert(p, (k1, k2));
        out.insert(q, (k2c, k1c));
        p = p + 1;
    }
    if n_total % 2 == 0 {
        let mid = n_total / 2;
        if !out.contains_key(&mid) {
            out.insert(mid, (Vec::new(), Vec::new()));
        }
    }
    let mut p2: i32 = 1;
    while p2 < n_total
        invariant
            2 <= n_total <= 10,
            compat_map_ok(out@, pop, comps, n_total),
            1 <= p2,
        decreases n_total - p2,
    {
        if !out.contains_key(&p2) {
            out.insert(p2, (Vec::new(), Vec::new()));
        }
        p2 = p2 + 1;
    }
    out
}

/// Rebuild a compat map from listed per-population tables (as read
/// from an archive): listed tables are kept, the mirror of a listed
/// population fills its missing counterpart with the arrays swapped,
/// and every other population gets an empty table.
pub fn compat_from_entries(
    entries: &Vec<(i32, Vec<i32>, Vec<i32>)>,
    n_total: i32,
) -> (m: HashMap<i32, (Vec<i32>, Vec<i32>)>)
    requires
        2 <= n_total <= 10,
        forall|k: int| 0 <= k < entries@.len() ==> 1 <= (#[trigger] entries@[k]).0 < n_total,
        forall|k: int, l: int|
            0 <= k < l < entries@.len() ==> (#[trigger] entries@[k]).0 != (
            #[trigger] entries@[l]).0,
    ensures
        forall|r: i32| m@.contains_key(r) <==> 1 <= r < n_total,
        forall|k: int|
            0 <= k < entries@.len() ==> (m@[(#[trigger] entries@[k]).0].0@ == entries@[k].1@
                && m@[entries@[k].0].1@ == entries@[k].2@),
        forall|r: i32|
            #![trigger m@[r]]
            1 <= r < n_total && (forall|k: int|
                0 <= k < entries@.len() ==> (#[trigger] entries@[k]).0 != r) && (exists|k: int|
                0 <= k < entries@.len() && (#[trigger] entries@[k]).0 == n_total - r) ==> {
                let k = choose|k: int|
                    0 <= k < entries@.len() && (#[trigger] entries@[k]).0 == n_total - r;
                m@[r].0@ == entries@[k].2@ && m@[r].1@ == entries@[k].1@
            },
        forall|r: i32|
            #![trigger m@[r]]
            1 <= r < n_total && (forall|k: int|
                0 <= k < entries@.len() ==> (#[trigger] entries@[k]).0 != r && entries@[k].0
                    != n_total - r) ==> (m@[r].0@.len() == 0 && m@[r].1@.len() == 0),
{
    let mut out: HashMap<i32, (Vec<i32>, Vec<i32>)> = HashMap::new();
    let mut e: usize = 0;
    while e < entries.len()
        invariant
            2 <= n_total <= 10,
            forall|k: int| 0 <= k < entries@.len() ==> 1 <= (#[trigger] entries@[k]).0 < n_total,
            forall|k: int, l: int|
                0 <= k < l < entries@.len() ==> (#[trigger] entries@[k]).0 != (
                #[trigger] entries@[l]).0,
            e <= entries@.len(),
            forall|r: i32|
                out@.contains_key(r) <==> exists|k: int|
                    0 <= k < e && (#[trigger] entries@[k]).0 == r,
            forall|k: int|
                0 <= k < e ==> (out@[(#[trigger] entries@[k]).0].0@ == entries@[k].1@ && out@[
                entries@[k].0].1@ == entries@[k].2@),
        decreases entries@.len() - e,
    {
        let (pp, a, b) = (entries[e].0, entries[e].1.clone(), entries[e].2.clone());
        out.insert(pp, (a, b));
        proof {
            assert forall|r: i32| out@.contains_key(r) implies exists|k: int|
                0 <= k < e + 1 && (#[trigger] entries@[k]).0 == r by {
                if r != pp {
                    let k = choose|k: int| 0 <= k < e && (#[trigger] entries@[k]).0 == r;
                    assert(0 <= k < e + 1 && entries@[k].0 == r);
                } else {
                    assert(entries@[e as int].0 == r);
                }
            }
        }
        e = e + 1;
    }
    let mut e2: usize = 0;
    while e2 < entries.len()
        invariant
            2 <= n_total <= 10,
            forall|k: int| 0 <= k < entries@.len() ==> 1 <= (#[trigger] entries@[k]).0 < n_total,
            forall|k: int, l: int|
                0 <= k < l < entries@.len() ==> (#[trigger] entries@[k]).0 != (
                #[trigger] entries@[l]).0,
            e2 <= entries@.len(),
            forall|r: i32|
                out@.contains_key(r) ==> 1 <= r < n_total,
            forall|r: i32|
                (exists|k: int| 0 <= k < entries@.len() && (#[trigger] entries@[k]).0 == r)
                    ==> out@.contains_key(r),
            forall|r: i32|
                #![trigger out@.contains_key(r)]
                1 <= r < n_total && (exists|k: int|
                    0 <= k < e2 && (#[trigger] entries@[k]).0 == n_total - r)
                    ==> out@.contains_key(r),
            forall|k: int|
                0 <= k < entries@.len() ==> (out@[(#[trigger] entries@[k]).0].0@ == entries@[k].1@
                    && out@[entries@[k].0].1@ == entries@[k].2@),
            forall|r: i32|
                #![trigger out@[r]]
                out@.contains_key(r) && (forall|k: int|
                    0 <= k < entries@.len() ==> (#[trigger] entries@[k]).0 != r) ==> {
                    &&& exists|k: int|
                        0 <= k < e2 && (#[trigger] entries@[k]).0 == n_total - r
                    &&& {
                        let k = choose|k: int|
                            0 <= k < entries@.len() && (#[trigger] entries@[k]).0 == n_total - r;
                        out@[r].0@ == entries@[k].2@ && out@[r].1@ == entries@[k].1@
                    }
                },
        decreases entries@.len() - e2,
    {
        let pp = entries[e2].0;
        let q = n_total - pp;
        let ghost preout = out@;
        if !out.contains_key(&q) {
            let (a, b) = (entries[e2].1.clone(), entries[e2].2.clone());
            out.insert(q, (b, a));
            proof {
                assert(entries@[e2 as int].0 == n_total - q);
                assert forall|k: int|
                    0 <= k < entries@.len() && (#[trigger] entries@[k]).0 == n_total
                        - q implies k == e2 by {
                    if k != e2 {
                        assert(entries@[k].0 == entries@[e2 as int].0);
                    }
                }
                let k = choose|k: int|
                    0 <= k < entries@.len() && (#[trigger] entries@[k]).0 == n_total - q;
                assert(k == e2);
                assert(out@[q].0@ == entries@[k].2@ && out@[q].1@ == entries@[k].1@);
            }
        }
        let ghost olde2 = e2 as int;
        e2 = e2 + 1;
        proof {
            assert forall|r: i32|
                #![trigger out@[r]]
                out@.contains_key(r) && (forall|k: int|
                    0 <= k < entries@.len() ==> (#[trigger] entries@[k]).0 != r) implies ((exists|
                k: int,
            |
                0 <= k < e2 && (#[trigger] entries@[k]).0 == n_total - r) && {
                let k = choose|k: int|
                    0 <= k < entries@.len() && (#[trigger] entries@[k]).0 == n_total - r;
                out@[r].0@ == entries@[k].2@ && out@[r].1@ == entries@[k].1@
            }) by {
                if preout.contains_key(r) {
                    assert(out@[r] == preout[r]);
                    assert(exists|k: int|
                        0 <= k < olde2 && (#[trigger] entries@[k]).0 == n_total - r);
                    let k0 = choose|k: int|
                        0 <= k < olde2 && (#[trigger] entries@[k]).0 == n_total - r;
                    assert(0 <= k0 < e2 && entries@[k0].0 == n_total - r);
                } else {
                    assert(r == n_total - entries@[olde2].0);
                    assert(entries@[olde2].0 == n_total - r);
                    assert(0 <= olde2 < e2);
                }
            }
        }
    }
    let mut p2: i32 = 1;
    while p2 < n_total
        invariant
            2 <= n_total <= 10,
            1 <= p2 <= n_total,
            forall|k: int| 0 <= k < entries@.len() ==> 1 <= (#[trigger] entries@[k]).0 < n_total,
            forall|k: int, l: int|
                0 <= k < l < entries@.len() ==> (#[trigger] entries@[k]).0 != (
                #[trigger] entries@[l]).0,
            forall|r: i32| out@.contains_key(r) ==> 1 <= r < n_total,
            forall|r: i32| 1 <= r < p2 ==> out@.contains_key(r),
            forall|r: i32|
                (exists|k: int| 0 <= k < entries@.len() && (#[trigger] entries@[k]).0 == r)
                    ==> out@.contains_key(r),
            forall|r: i32|
                #![trigger out@.contains_key(r)]
                1 <= r < n_total && (exists|k: int|
                    0 <= k < entries@.len() && (#[trigger] entries@[k]).0 == n_total - r)
                    ==> out@.contains_key(r),
            forall|k: int|
                0 <= k < entries@.len() ==> (out@[(#[trigger] entries@[k]).0].0@ == entries@[k].1@
                    && out@[entries@[k].0].1@ == entries@[k].2@),
            forall|r: i32|
                #![trigger out@[r]]
                out@.contains_key(r) && (forall|k: int|
                    0 <= k < entries@.len() ==> (#[trigger] entries@[k]).0 != r) && (exists|k: int|
                    0 <= k < entries@.len() && (#[trigger] entries@[k]).0 == n_total - r) ==> {
                    let k = choose|k: int|
                        0 <= k < entries@.len() && (#[trigger] entries@[k]).0 == n_total - r;
                    out@[r].0@ == entries@[k].2@ && out@[r].1@ == entries@[k].1@
                },
            forall|r: i32|
                #![trigger out@[r]]
                out@.contains_key(r) && (forall|k: int|
                    0 <= k < entries@.len() ==> (#[trigger] entries@[k]).0 != r && entries@[k].0
                        != n_total - r) ==> (out@[r].0@.len() == 0 && out@[r].1@.len() == 0),
        decreases n_total - p2,
    {
        if !out.contains_key(&p2) {
            out.insert(p2, (Vec::new(), Vec::new()));
        }
        p2 = p2 + 1;
    }
    out
}

} // verus!
