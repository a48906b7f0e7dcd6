//! The pair solver: for two buckets with complementary population
//! keys, sum over all row pairs the number of ways to match the left
//! row's pieces to compatible pieces of the right row — positions
//! whose population is unique in the key count independently, the
//! rest must pick pairwise distinct candidates.

use std::collections::HashMap;
use vstd::prelude::*;

use crate::sorting::{sort_i32, sorted_nondec};
use crate::types::Bucket;

verus! {

broadcast use vstd::std_specs::hash::group_hash_axioms;

pub open spec fn clip128(w: nat) -> nat {
    if w > 0xffff_ffff_ffff_ffff_ffff_ffff_ffff_ffff {
        0xffff_ffff_ffff_ffff_ffff_ffff_ffff_ffff
    } else {
        w
    }
}

/// Saturating add, pinned to the clipped exact sum.
pub fn sat_add(a: u128, b: u128) -> (r: u128)
    ensures
        r == clip128((a + b) as nat),
{
    if a > 0xffff_ffff_ffff_ffff_ffff_ffff_ffff_ffff - b {
        0xffff_ffff_ffff_ffff_ffff_ffff_ffff_ffff
    } else {
        a + b
    }
}

/// Saturating multiply, pinned to the clipped exact product.
pub fn sat_mul(a: u128, b: u128) -> (r: u128)
    ensures
        r == clip128((a * b) as nat),
{
    if a == 0 {
        proof {
            assert(a * b == 0) by (nonlinear_arith)
                requires
                    a == 0,
            ;
        }
        0
    } else {
        let q = 0xffff_ffff_ffff_ffff_ffff_ffff_ffff_ffffu128 / a;
        if b > q {
            proof {
                assert(a * b > 0xffff_ffff_ffff_ffff_ffff_ffff_ffff_ffff) by (nonlinear_arith)
                    requires
                        a >= 1 && b > 0xffff_ffff_ffff_ffff_ffff_ffff_ffff_ffffu128 / a && b >= 0
                            && q == 0xffff_ffff_ffff_ffff_ffff_ffff_ffff_ffffu128 / a && b > q,
                ;
            }
            0xffff_ffff_ffff_ffff_ffff_ffff_ffff_ffff
        } else {
            proof {
                assert(a * b <= 0xffff_ffff_ffff_ffff_ffff_ffff_ffff_ffff) by (nonlinear_arith)
                    requires
                        a >= 1 && 0 <= b <= 0xffff_ffff_ffff_ffff_ffff_ffff_ffff_ffffu128 / a,
                ;
            }
            a * b
        }
    }
}

/// Clipping composes over addition.
pub proof fn lemma_clip_add(x: nat, y: nat)
    ensures
        clip128((clip128(x) + clip128(y)) as nat) == clip128((x + y) as nat),
{
}

/// Clipping composes over multiplication.
pub proof fn lemma_clip_mul(x: nat, y: nat)
    ensures
        clip128((clip128(x) * clip128(y)) as nat) == clip128((x * y) as nat),
{
    let mx = 0xffff_ffff_ffff_ffff_ffff_ffff_ffff_ffffu128 as nat;
    if x == 0 || y == 0 {
        assert(x * y == 0 && clip128(x) * clip128(y) == 0) by (nonlinear_arith)
            requires
                (x == 0 || y == 0) && clip128(x) == (if x > mx {
                    mx
                } else {
                    x
                }) && clip128(y) == (if y > mx {
                    mx
                } else {
                    y
                }) && mx > 0,
        ;
    } else if x > mx || y > mx {
        assert(clip128(x) * clip128(y) >= mx && x * y >= mx) by (nonlinear_arith)
            requires
                x >= 1 && y >= 1 && mx >= 1 && (x > mx || y > mx) && clip128(x) == (if x > mx {
                    mx
                } else {
                    x
                }) && clip128(y) == (if y > mx {
                    mx
                } else {
                    y
                }),
        ;
    } else {
        assert(clip128(x) == x && clip128(y) == y);
    }
}

/// Row `r2` appears in the sorted row list of piece `x`.
pub open spec fn row_has(rows_by: Seq<Seq<usize>>, x: int, r2: int) -> bool {
    0 <= x < rows_by.len() && exists|t: int| 0 <= t < rows_by[x].len() && rows_by[x][t] == r2
}

/// How many candidates of this list contain row `r2`, from index `i`.
pub open spec fn cnt_from(cands: Seq<i32>, rows_by: Seq<Seq<usize>>, r2: int, i: int) -> nat
    decreases cands.len() - i,
{
    if i < 0 || i >= cands.len() {
        0
    } else {
        (if row_has(rows_by, cands[i] as int, r2) {
            1nat
        } else {
            0nat
        }) + cnt_from(cands, rows_by, r2, i + 1)
    }
}

/// Number of occurrences of `v` in `s`.
pub open spec fn seq_count_i32(s: Seq<i32>, v: i32, i: int) -> nat
    decreases s.len() - i,
{
    if i < 0 || i >= s.len() {
        0
    } else {
        (if s[i] == v {
            1nat
        } else {
            0nat
        }) + seq_count_i32(s, v, i + 1)
    }
}

/// Number of injective assignments of the colliding pieces `rem[ri..]`
/// to distinct candidates whose rows contain `r2`, avoiding `used`.
pub open spec fn inj_from(
    rem: Seq<i32>,
    ri: int,
    used: Seq<i32>,
    cands: Seq<Seq<i32>>,
    rows_by: Seq<Seq<usize>>,
    r2: int,
) -> nat
    decreases rem.len() - ri, 1int, 0int,
{
    if ri < 0 || ri >= rem.len() {
        1
    } else if 0 <= rem[ri] < cands.len() {
        inj_branch(rem, ri, cands[rem[ri] as int], 0, used, cands, rows_by, r2)
    } else {
        0
    }
}

/// Sum over the candidate choices `xs[xi..]` for position `rem[ri]`.
pub open spec fn inj_branch(
    rem: Seq<i32>,
    ri: int,
    xs: Seq<i32>,
    xi: int,
    used: Seq<i32>,
    cands: Seq<Seq<i32>>,
    rows_by: Seq<Seq<usize>>,
    r2: int,
) -> nat
    decreases rem.len() - ri, 0int, xs.len() - xi,
{
    if ri < 0 || xi < 0 || xi >= xs.len() || ri >= rem.len() {
        0
    } else {
        (if !used.contains(xs[xi]) && row_has(rows_by, xs[xi] as int, r2) {
            inj_from(rem, ri + 1, used.push(xs[xi]), cands, rows_by, r2)
        } else {
            0
        }) + inj_branch(rem, ri, xs, xi + 1, used, cands, rows_by, r2)
    }
}

/// Product of the unique-population positions' candidate counts, over
/// positions `i..` of the row.
pub open spec fn prod_unique(
    row: Seq<i32>,
    key: Seq<i32>,
    pop: Seq<i32>,
    cands: Seq<Seq<i32>>,
    rows_by: Seq<Seq<usize>>,
    r2: int,
    i: int,
) -> nat
    decreases row.len() - i,
{
    if i < 0 || i >= row.len() {
        1
    } else {
        let rest = prod_unique(row, key, pop, cands, rows_by, r2, i + 1);
        if 0 <= row[i] < pop.len() && pop[row[i] as int] != 0 && seq_count_i32(
            key,
            pop[row[i] as int],
            0,
        ) <= 1 {
            (if 0 <= row[i] < cands.len() {
                cnt_from(cands[row[i] as int], rows_by, r2, 0)
            } else {
                0
            }) * rest
        } else {
            rest
        }
    }
}

/// The colliding positions' pieces, in row order, from position `i`.
pub open spec fn rem_of(row: Seq<i32>, key: Seq<i32>, pop: Seq<i32>, i: int) -> Seq<i32>
    decreases row.len() - i,
{
    if i < 0 || i >= row.len() {
        Seq::<i32>::empty()
    } else {
        let rest = rem_of(row, key, pop, i + 1);
        if 0 <= row[i] < pop.len() && pop[row[i] as int] != 0 && seq_count_i32(
            key,
            pop[row[i] as int],
            0,
        ) > 1 {
            seq![row[i]] + rest
        } else {
            rest
        }
    }
}

/// What one left row scores against right row `r2`.
pub open spec fn row_term(
    row: Seq<i32>,
    key: Seq<i32>,
    pop: Seq<i32>,
    cands: Seq<Seq<i32>>,
    rows_by: Seq<Seq<usize>>,
    w2: Seq<u64>,
    r2: int,
) -> nat {
    (w2[r2] as nat) * prod_unique(row, key, pop, cands, rows_by, r2, 0) * inj_from(
        rem_of(row, key, pop, 0),
        0,
        Seq::<i32>::empty(),
        cands,
        rows_by,
        r2,
    )
}

/// One left row summed against the right rows `0 .. r2`.
pub open spec fn row_sum(
    row: Seq<i32>,
    key: Seq<i32>,
    pop: Seq<i32>,
    cands: Seq<Seq<i32>>,
    rows_by: Seq<Seq<usize>>,
    w2: Seq<u64>,
    r2: int,
) -> nat
    decreases r2,
{
    if r2 <= 0 {
        0
    } else {
        row_sum(row, key, pop, cands, rows_by, w2, r2 - 1) + row_term(
            row,
            key,
            pop,
            cands,
            rows_by,
            w2,
            r2 - 1,
        )
    }
}

/// The pair's subtotal over the left rows `0 .. r1`.
pub open spec fn pair_sum(
    b1: Bucket,
    b2: Bucket,
    pop: Seq<i32>,
    cands: Seq<Seq<i32>>,
    rows_by: Seq<Seq<usize>>,
    r1: int,
) -> nat
    decreases r1,
{
    if r1 <= 0 {
        0
    } else {
        pair_sum(b1, b2, pop, cands, rows_by, r1 - 1) + (b1.weights@[r1 - 1] as nat) * row_sum(
            b1.row_spec(r1 - 1),
            b1.key@,
            pop,
            cands,
            rows_by,
            b2.weights@,
            b2.n_rows_spec() as int,
        )
    }
}

/// The weighted count of compatible matchings between two buckets.
pub open spec fn pair_subtotal_spec(
    b1: Bucket,
    b2: Bucket,
    pop: Seq<i32>,
    cands: Seq<Seq<i32>>,
    rows_by: Seq<Seq<usize>>,
) -> nat {
    pair_sum(b1, b2, pop, cands, rows_by, b1.n_rows_spec() as int)
}

/// Sum of a weight column.
pub open spec fn wsum(w: Seq<u64>, i: int) -> nat
    decreases i,
{
    if i <= 0 {
        0
    } else {
        wsum(w, i - 1) + (w[i - 1] as nat)
    }
}

/// The sequences inside a list of row lists.
pub open spec fn deep_rows(v: Seq<Vec<usize>>) -> Seq<Seq<usize>> {
    Seq::new(v.len(), |i: int| v[i]@)
}

/// The sequences inside a list of candidate lists.
pub open spec fn deep_cands(v: Seq<Vec<i32>>) -> Seq<Seq<i32>> {
    Seq::new(v.len(), |i: int| v[i]@)
}

/// A correct row index for `b2`: `rows_by[x]` lists, strictly
/// ascending, exactly the rows of `b2` in which piece `x` occurs.
pub open spec fn rows_index_ok(rows_by: Seq<Seq<usize>>, b2: Bucket, m: nat) -> bool {
    &&& rows_by.len() == m
    &&& forall|x: int, rr: int|
        #[trigger] row_has(rows_by, x, rr) <==> (0 <= x < m && 0 <= rr < b2.n_rows_spec()
            && b2.row_spec(rr).contains(x as i32))
    &&& forall|x: int, t: int, t2: int|
        0 <= x < rows_by.len() && 0 <= t < t2 < rows_by[x].len() ==> #[trigger] rows_by[x][t]
            < #[trigger] rows_by[x][t2]
}

/// Index the rows of the right bucket by the piece they contain:
/// `r[x]` lists, ascending, every row in which piece `x` occurs.
pub fn build_rows_by_jbt(bucket: &Bucket, m: usize) -> (r: Vec<Vec<usize>>)
    requires
        bucket.wf(),
        m <= 0x7fff_ffff,
        forall|rr: int, q: int|
            0 <= rr < bucket.n_rows_spec() && 0 <= q < bucket.row_spec(rr).len() ==> 0
                <= #[trigger] bucket.row_spec(rr)[q] < m,
        forall|rr: int, q: int, q2: int|
            0 <= rr < bucket.n_rows_spec() && 0 <= q < q2 < bucket.row_spec(rr).len()
                ==> #[trigger] bucket.row_spec(rr)[q] < #[trigger] bucket.row_spec(rr)[q2],
    ensures
        r@.len() == m,
        rows_index_ok(deep_rows(r@), *bucket, m as nat),
        forall|x: int, rr: int|
            #[trigger] row_has(deep_rows(r@), x, rr) <==> (0 <= x < m && 0 <= rr
                < bucket.n_rows_spec() && bucket.row_spec(rr).contains(x as i32)),
        forall|x: int, t: int, t2: int|
            0 <= x < m && 0 <= t < t2 < r@[x]@.len() ==> #[trigger] r@[x]@[t]
                < #[trigger] r@[x]@[t2],
{
    let mut out: Vec<Vec<usize>> = Vec::new();
    let mut z: usize = 0;
    while z < m
        invariant
            z <= m,
            out@.len() == z,
            forall|x: int| 0 <= x < z ==> (#[trigger] out@[x]@).len() == 0,
        decreases m - z,
    {
        out.push(Vec::new());
        z = z + 1;
    }
    let nrows = bucket.n_rows();
    let mut rr: usize = 0;
    while rr < nrows
        invariant
            bucket.wf(),
            m <= 0x7fff_ffff,
            nrows == bucket.n_rows_spec(),
            rr <= nrows,
            out@.len() == m,
            forall|rr2: int, q: int|
                0 <= rr2 < bucket.n_rows_spec() && 0 <= q < bucket.row_spec(rr2).len() ==> 0
                    <= #[trigger] bucket.row_spec(rr2)[q] < m,
            forall|rr2: int, q: int, q2: int|
                0 <= rr2 < bucket.n_rows_spec() && 0 <= q < q2 < bucket.row_spec(rr2).len()
                    ==> #[trigger] bucket.row_spec(rr2)[q] < #[trigger] bucket.row_spec(rr2)[q2],
            forall|x: int, t: int|
                0 <= x < m && 0 <= t < out@[x]@.len() ==> #[trigger] out@[x]@[t] < rr,
            forall|x: int, t: int, t2: int|
                0 <= x < m && 0 <= t < t2 < out@[x]@.len() ==> #[trigger] out@[x]@[t]
                    < #[trigger] out@[x]@[t2],
            forall|x: int, rr2: int|
                #[trigger] row_has(deep_rows(out@), x, rr2) <==> (0 <= x < m && 0 <= rr2 < rr
                    && bucket.row_spec(rr2).contains(x as i32)),
        decreases nrows - rr,
    {
        let row = bucket.row_slice(rr);
        let mut q: usize = 0;
        while q < row.len()
            invariant
                bucket.wf(),
                m <= 0x7fff_ffff,
                nrows == bucket.n_rows_spec(),
                rr < nrows,
                row@ == bucket.row_spec(rr as int),
                q <= row@.len(),
                out@.len() == m,
                forall|rr2: int, q2: int|
                    0 <= rr2 < bucket.n_rows_spec() && 0 <= q2 < bucket.row_spec(rr2).len() ==> 0
                        <= #[trigger] bucket.row_spec(rr2)[q2] < m,
                forall|rr2: int, qa: int, qb: int|
                    0 <= rr2 < bucket.n_rows_spec() && 0 <= qa < qb < bucket.row_spec(rr2).len()
                        ==> #[trigger] bucket.row_spec(rr2)[qa] < #[trigger] bucket.row_spec(
                        rr2,
                    )[qb],
                forall|x: int, t: int|
                    0 <= x < m && 0 <= t < out@[x]@.len() ==> #[trigger] out@[x]@[t] <= rr,
                forall|x: int, t: int, t2: int|
                    0 <= x < m && 0 <= t < t2 < out@[x]@.len() ==> #[trigger] out@[x]@[t]
                        < #[trigger] out@[x]@[t2],
                forall|x: int, rr2: int|
                    #[trigger] row_has(deep_rows(out@), x, rr2) <==> ((0 <= x < m && 0 <= rr2 < rr
                        && bucket.row_spec(rr2).contains(x as i32)) || (rr2 == rr && exists|t: int|
                        0 <= t < q && row@[t] == x)),
            decreases row@.len() - q,
        {
            let x = row[q];
            let xi = x as usize;
            let ghost pre = out@;
            proof {
                assert(row@[q as int] == bucket.row_spec(rr as int)[q as int]);
                assert(0 <= x < m);
                assert forall|t: int| 0 <= t < pre[xi as int]@.len() implies pre[xi as int]@[t]
                    < rr by {
                    if pre[xi as int]@[t] == rr {
                        assert(row_has(deep_rows(pre), xi as int, rr as int)) by {
                            assert(deep_rows(pre)[xi as int][t] == rr);
                        }
                        let t2 = choose|t2: int|
                            0 <= t2 < q && row@[t2] == xi as i32;
                        assert(bucket.row_spec(rr as int)[t2] == x);
                        assert(bucket.row_spec(rr as int)[q as int] == x);
                        assert(bucket.row_spec(rr as int)[t2] < bucket.row_spec(rr as int)[
                            q as int
                        ]);
                    }
                }
            }
            let lref = &mut out[xi];
            lref.push(rr);
            proof {
                assert(out@ == pre.update(xi as int, out@[xi as int]));
                assert(out@[xi as int]@ == pre[xi as int]@.push(rr));
                assert forall|x2: int, rr2: int|
                    #[trigger] row_has(deep_rows(out@), x2, rr2) <==> ((0 <= x2 < m && 0 <= rr2
                        < rr && bucket.row_spec(rr2).contains(x2 as i32)) || (rr2 == rr && exists|
                    t: int,
                |
                    0 <= t < q + 1 && row@[t] == x2)) by {
                    if row_has(deep_rows(out@), x2, rr2) {
                        let t = choose|t: int|
                            0 <= t < deep_rows(out@)[x2].len() && deep_rows(out@)[x2][t] == rr2;
                        if x2 == xi && t == pre[xi as int]@.len() {
                            assert(rr2 == rr);
                            assert(row@[q as int] == x2);
                        } else {
                            assert(deep_rows(pre)[x2][t] == rr2);
                            assert(row_has(deep_rows(pre), x2, rr2));
                        }
                    }
                    if (0 <= x2 < m && 0 <= rr2 < rr && bucket.row_spec(rr2).contains(x2 as i32))
                        || (rr2 == rr && exists|t: int| 0 <= t < q && row@[t] == x2) {
                        assert(row_has(deep_rows(pre), x2, rr2));
                        let t = choose|t: int|
                            0 <= t < deep_rows(pre)[x2].len() && deep_rows(pre)[x2][t] == rr2;
                        assert(deep_rows(out@)[x2][t] == rr2);
                    }
                    if rr2 == rr && exists|t: int| 0 <= t < q + 1 && row@[t] == x2 {
                        let t = choose|t: int| 0 <= t < q + 1 && row@[t] == x2;
                        if t < q {
                        } else {
                            assert(x2 == xi);
                            assert(deep_rows(out@)[x2][pre[xi as int]@.len() as int] == rr);
                        }
                    }
                }
            }
            q = q + 1;
        }
        proof {
            assert forall|x: int, rr2: int|
                #[trigger] row_has(deep_rows(out@), x, rr2) <==> (0 <= x < m && 0 <= rr2 < rr + 1
                    && bucket.row_spec(rr2).contains(x as i32)) by {
                if row_has(deep_rows(out@), x, rr2) && rr2 == rr {
                    let t = choose|t: int| 0 <= t < q && row@[t] == x;
                    assert(bucket.row_spec(rr as int)[t] == x as i32);
                    assert(bucket.row_spec(rr2).contains(x as i32));
                }
                if 0 <= x < m && rr2 == rr && bucket.row_spec(rr as int).contains(x as i32) {
                    let t = choose|t: int|
                        0 <= t < bucket.row_spec(rr as int).len() && bucket.row_spec(rr as int)[t]
                            == x as i32;
                    assert(0 <= bucket.row_spec(rr as int)[t] < m);
                    assert(row@[t] == x);
                    assert(exists|t2: int| 0 <= t2 < q && row@[t2] == x);
                }
            }
        }
        rr = rr + 1;
    }
    proof {
        assert forall|x: int, t: int, t2: int|
            0 <= x < deep_rows(out@).len() && 0 <= t < t2 < deep_rows(out@)[x].len() implies (
        #[trigger] deep_rows(out@)[x][t]) < (#[trigger] deep_rows(out@)[x][t2]) by {
            assert(deep_rows(out@)[x] == out@[x]@);
            assert(out@[x]@[t] < out@[x]@[t2]);
        }
    }
    out
}

/// The compat tables list piece `x` as a partner of piece `j`; for a
/// population past the midpoint the mirrored table is read with its
/// arrays swapped.
pub open spec fn cand_listed(
    compat: Map<i32, (Vec<i32>, Vec<i32>)>,
    pop: Seq<i32>,
    n_total: i32,
    j: int,
    x: i32,
) -> bool {
    if pop[j] > n_total / 2 {
        exists|i: int|
            0 <= i < compat[(n_total - pop[j]) as i32].1@.len() && compat[(n_total
                - pop[j]) as i32].1@[i] == j && #[trigger] compat[(n_total - pop[j]) as i32].0@[i]
                == x
    } else {
        exists|i: int|
            0 <= i < compat[pop[j]].0@.len() && compat[pop[j]].0@[i] == j
                && #[trigger] compat[pop[j]].1@[i] == x
    }
}

/// A correct candidate index: pieces with an in-range population get
/// exactly their listed partners that occur in the right bucket,
/// sorted ascending without duplicates; other pieces get nothing.
pub open spec fn cand_index_ok(
    cands: Seq<Seq<i32>>,
    pop: Seq<i32>,
    n_total: i32,
    compat: Map<i32, (Vec<i32>, Vec<i32>)>,
    rows_by: Seq<Seq<usize>>,
) -> bool {
    &&& cands.len() == pop.len()
    &&& forall|j: int|
        0 <= j < cands.len() && !(1 <= pop[j] < n_total) ==> (#[trigger] cands[j]).len() == 0
    &&& forall|j: int, t: int, t2: int|
        0 <= j < cands.len() && 0 <= t < t2 < cands[j].len() ==> #[trigger] cands[j][t]
            < #[trigger] cands[j][t2]
    &&& forall|j: int, x: i32|
        0 <= j < cands.len() && 1 <= pop[j] < n_total ==> ((#[trigger] cands[j].contains(x))
            <==> (cand_listed(compat, pop, n_total, j, x) && 0 <= x < rows_by.len() && rows_by[
            x as int].len() > 0))
}

/// For every piece, the candidate partners that occur in the right
/// bucket, sorted ascending without duplicates.
pub fn precompute_candidates_for_bucket1(
    bucket1: &Bucket,
    rows_by: &Vec<Vec<usize>>,
    jbt_ref_pop: &Vec<i32>,
    n_total: i32,
    compat: &HashMap<i32, (Vec<i32>, Vec<i32>)>,
) -> (r: Vec<Vec<i32>>)
    requires
        2 <= n_total <= 10,
        jbt_ref_pop@.len() == rows_by@.len(),
        jbt_ref_pop@.len() <= 0x7fff_ffff,
        forall|p: i32| 1 <= p < n_total ==> compat@.contains_key(p),
        forall|p: i32|
            1 <= p < n_total ==> (#[trigger] compat@[p].0)@.len() == compat@[p].1@.len(),
    ensures
        r@.len() == jbt_ref_pop@.len(),
        cand_index_ok(deep_cands(r@), jbt_ref_pop@, n_total, compat@, deep_rows(rows_by@)),
        forall|j: int|
            0 <= j < r@.len() && !(1 <= jbt_ref_pop@[j] < n_total) ==> (
            #[trigger] r@[j]@).len() == 0,
        forall|j: int, t: int, t2: int|
            0 <= j < r@.len() && 0 <= t < t2 < r@[j]@.len() ==> #[trigger] r@[j]@[t]
                < #[trigger] r@[j]@[t2],
        forall|j: int, x: i32|
            0 <= j < r@.len() && 1 <= jbt_ref_pop@[j] < n_total ==> ((
            #[trigger] r@[j]@.contains(x)) <==> (cand_listed(compat@, jbt_ref_pop@, n_total, j, x)
                && 0 <= x < rows_by@.len() && rows_by@[x as int]@.len() > 0)),
{
    broadcast use vstd::seq_lib::to_multiset_contains, vstd::seq_lib::to_multiset_insert, vstd::seq_lib::to_multiset_build;

    let m = jbt_ref_pop.len();
    let mut out: Vec<Vec<i32>> = Vec::new();
    let mut j: usize = 0;
    while j < m
        invariant
            2 <= n_total <= 10,
            m == jbt_ref_pop@.len(),
            jbt_ref_pop@.len() == rows_by@.len(),
            jbt_ref_pop@.len() <= 0x7fff_ffff,
            forall|p: i32| 1 <= p < n_total ==> compat@.contains_key(p),
            forall|p: i32|
                1 <= p < n_total ==> (#[trigger] compat@[p].0)@.len() == compat@[p].1@.len(),
            j <= m,
            out@.len() == j,
            forall|j2: int|
                0 <= j2 < j && !(1 <= jbt_ref_pop@[j2] < n_total) ==> (
                #[trigger] out@[j2]@).len() == 0,
            forall|j2: int, t: int, t2: int|
                0 <= j2 < j && 0 <= t < t2 < out@[j2]@.len() ==> #[trigger] out@[j2]@[t]
                    < #[trigger] out@[j2]@[t2],
            forall|j2: int, x: i32|
                0 <= j2 < j && 1 <= jbt_ref_pop@[j2] < n_total ==> ((
                #[trigger] out@[j2]@.contains(x)) <==> (cand_listed(
                    compat@,
                    jbt_ref_pop@,
                    n_total,
                    j2,
                    x,
                ) && 0 <= x < rows_by@.len() && rows_by@[x as int]@.len() > 0)),
        decreases m - j,
    {
        let p = jbt_ref_pop[j];
        if p < 1 || p >= n_total {
            out.push(Vec::new());
        } else {
            let sel: i32 = if p > n_total / 2 {
                n_total - p
            } else {
                p
            };
            let swapped = p > n_total / 2;
            let tbl = match compat.get(&sel) {
                Some(t) => t,
                None => {
                    proof {
                        assert(compat@.contains_key(sel));
                        assert(false);
                    }
                    unreached()
                },
            };
            let (k1, k2): (&Vec<i32>, &Vec<i32>) = if swapped {
                (&tbl.1, &tbl.0)
            } else {
                (&tbl.0, &tbl.1)
            };
            let mut tmp: Vec<i32> = Vec::new();
            let mut i: usize = 0;
            while i < k1.len()
                invariant
                    k1@.len() == (if swapped {
                        compat@[sel].1@.len()
                    } else {
                        compat@[sel].0@.len()
                    }),
                    k1@ == (if swapped {
                        compat@[sel].1@
                    } else {
                        compat@[sel].0@
                    }),
                    k2@ == (if swapped {
                        compat@[sel].0@
                    } else {
                        compat@[sel].1@
                    }),
                    k1@.len() == k2@.len(),
                    i <= k1@.len(),
                    jbt_ref_pop@.len() == rows_by@.len(),
                    jbt_ref_pop@.len() <= 0x7fff_ffff,
                    j < jbt_ref_pop@.len(),
                    forall|x: i32|
                        #[trigger] tmp@.contains(x) <==> (exists|t: int|
                            0 <= t < i && k1@[t] == j && #[trigger] k2@[t] == x && 0 <= x
                                < rows_by@.len() && rows_by@[x as int]@.len() > 0),
                decreases k1@.len() - i,
            {
                if k1[i] == j as i32 {
                    let x = k2[i];
                    if x >= 0 && (x as usize) < rows_by.len() {
                        let xl = &rows_by[x as usize];
                        if xl.len() > 0 {
                            let ghost pre = tmp@;
                            tmp.push(x);
                            proof {
                                assert forall|x2: i32| #[trigger] tmp@.contains(x2) <==> (exists|
                                    t: int,
                                |
                                    0 <= t < i + 1 && k1@[t] == j && #[trigger] k2@[t] == x2 && 0
                                        <= x2 < rows_by@.len() && rows_by@[x2 as int]@.len()
                                        > 0) by {
                                    if tmp@.contains(x2) {
                                        let w = choose|w: int|
                                            0 <= w < tmp@.len() && tmp@[w] == x2;
                                        if w < pre.len() {
                                            assert(pre.contains(x2));
                                        } else {
                                            assert(x2 == x);
                                            assert(k1@[i as int] == j && k2@[i as int] == x);
                                        }
                                    }
                                    if exists|t: int|
                                        0 <= t < i + 1 && k1@[t] == j && #[trigger] k2@[t] == x2
                                            && 0 <= x2 < rows_by@.len() && rows_by@[
                                        x2 as int]@.len() > 0 {
                                        let t = choose|t: int|
                                            0 <= t < i + 1 && k1@[t] == j && #[trigger] k2@[t]
                                                == x2 && 0 <= x2 < rows_by@.len() && rows_by@[
                                            x2 as int]@.len() > 0;
                                        if t < i {
                                            assert(pre.contains(x2));
                                            let w = choose|w: int|
                                                0 <= w < pre.len() && pre[w] == x2;
                                            assert(tmp@[w] == x2);
                                        } else {
                                            assert(x2 == x);
                                            assert(tmp@[pre.len() as int] == x);
                                        }
                                    }
                                }
                            }
                        }
                    }
                }
                i = i + 1;
            }
            let sorted = sort_i32(&tmp);
            proof {
                assert forall|x: i32|
                    #[trigger] sorted@.contains(x) <==> tmp@.contains(x) by {
                    vstd::seq_lib::to_multiset_contains::<i32>(sorted@, x);
                    vstd::seq_lib::to_multiset_contains::<i32>(tmp@, x);
                }
            }
            let mut ded: Vec<i32> = Vec::new();
            let mut t: usize = 0;
            while t < sorted.len()
                invariant
                    t <= sorted@.len(),
                    t == 0 ==> ded@.len() == 0,
                    sorted_nondec(sorted@),
                    forall|a: int, b: int| 0 <= a < b < ded@.len() ==> ded@[a] < ded@[b],
                    t > 0 ==> ded@.len() > 0 && ded@[ded@.len() - 1] == sorted@[t - 1],
                    forall|x: i32|
                        #[trigger] ded@.contains(x) <==> (exists|w: int|
                            0 <= w < t && sorted@[w] == x),
                decreases sorted@.len() - t,
            {
                let v = sorted[t];
                let push_it: bool = if ded.len() == 0 {
                    true
                } else {
                    ded[ded.len() - 1] != v
                };
                let ghost pre = ded@;
                if push_it {
                    proof {
                        if pre.len() > 0 {
                            assert(pre[pre.len() - 1] == sorted@[t - 1]);
                            assert(sorted@[t - 1] <= sorted@[t as int]);
                        }
                    }
                    ded.push(v);
                }
                proof {
                    assert forall|x: i32|
                        #[trigger] ded@.contains(x) <==> (exists|w: int|
                            0 <= w < t + 1 && sorted@[w] == x) by {
                        if ded@.contains(x) {
                            let w = choose|w: int| 0 <= w < ded@.len() && ded@[w] == x;
                            if push_it && w == ded@.len() - 1 {
                                assert(sorted@[t as int] == x);
                            } else {
                                assert(pre.contains(x));
                                let w2 = choose|w2: int| 0 <= w2 < t && sorted@[w2] == x;
                            }
                        }
                        if exists|w: int| 0 <= w < t + 1 && sorted@[w] == x {
                            let w = choose|w: int| 0 <= w < t + 1 && sorted@[w] == x;
                            if w < t {
                                assert(pre.contains(x));
                                if push_it {
                                    let w2 = choose|w2: int| 0 <= w2 < pre.len() && pre[w2] == x;
                                    assert(ded@[w2] == x);
                                }
                            } else {
                                if push_it {
                                    assert(ded@[ded@.len() - 1] == x);
                                } else {
                                    assert(pre[pre.len() - 1] == sorted@[t - 1]);
                                    assert(sorted@[t - 1] == v);
                                    assert(pre.contains(x));
                                }
                            }
                        }
                    }
                }
                t = t + 1;
            }
            proof {
                assert forall|x: i32|
                    #[trigger] ded@.contains(x) <==> (cand_listed(
                        compat@,
                        jbt_ref_pop@,
                        n_total,
                        j as int,
                        x,
                    ) && 0 <= x < rows_by@.len() && rows_by@[x as int]@.len() > 0) by {
                    assert(ded@.contains(x) <==> sorted@.contains(x)) by {
                        if sorted@.contains(x) {
                            let w = choose|w: int|
                                0 <= w < sorted@.len() && sorted@[w] == x;
                        }
                    }
                }
            }
            out.push(ded);
        }
        proof {
            assert forall|j2: int, x: i32|
                0 <= j2 < j + 1 && 1 <= jbt_ref_pop@[j2] < n_total implies ((
            #[trigger] out@[j2]@.contains(x)) <==> (cand_listed(
                compat@,
                jbt_ref_pop@,
                n_total,
                j2,
                x,
            ) && 0 <= x < rows_by@.len() && rows_by@[x as int]@.len() > 0)) by {}
        }
        j = j + 1;
    }
    proof {
        assert forall|j2: int, t: int, t2: int|
            0 <= j2 < deep_cands(out@).len() && 0 <= t < t2 < deep_cands(out@)[j2].len() implies (
        #[trigger] deep_cands(out@)[j2][t]) < (#[trigger] deep_cands(out@)[j2][t2]) by {
            assert(deep_cands(out@)[j2] == out@[j2]@);
            assert(out@[j2]@[t] < out@[j2]@[t2]);
        }
        assert forall|j2: int, x: i32|
            0 <= j2 < deep_cands(out@).len() && 1 <= jbt_ref_pop@[j2] < n_total implies ((
        #[trigger] deep_cands(out@)[j2].contains(x)) <==> (cand_listed(
            compat@,
            jbt_ref_pop@,
            n_total,
            j2,
            x,
        ) && 0 <= x < deep_rows(rows_by@).len() && deep_rows(rows_by@)[x as int].len() > 0)) by {
            assert(deep_cands(out@)[j2] == out@[j2]@);
            if 0 <= x < rows_by@.len() {
                assert(deep_rows(rows_by@)[x as int] == rows_by@[x as int]@);
            }
        }
        assert forall|j2: int|
            0 <= j2 < deep_cands(out@).len() && !(1 <= jbt_ref_pop@[j2] < n_total) implies (
        #[trigger] deep_cands(out@)[j2]).len() == 0 by {
            assert(deep_cands(out@)[j2] == out@[j2]@);
        }
    }
    out
}

/// Does this sorted row list contain `r2`?
fn list_has(list: &Vec<usize>, r2: usize) -> (b: bool)
    ensures
        b == exists|t: int| 0 <= t < list@.len() && list@[t] == r2,
{
    let mut t: usize = 0;
    while t < list.len()
        invariant
            t <= list@.len(),
            forall|w: int| 0 <= w < t ==> list@[w] != r2,
        decreases list@.len() - t,
    {
        if list[t] == r2 {
            proof {
                assert(list@[t as int] == r2);
            }
            return true;
        }
        t = t + 1;
    }
    false
}

/// Does the working list of taken candidates contain `x`?
fn used_has(used: &Vec<i32>, x: i32) -> (b: bool)
    ensures
        b == used@.contains(x),
{
    let mut t: usize = 0;
    while t < used.len()
        invariant
            t <= used@.len(),
            forall|w: int| 0 <= w < t ==> used@[w] != x,
        decreases used@.len() - t,
    {
        if used[t] == x {
            proof {
                assert(used@[t as int] == x);
            }
            return true;
        }
        t = t + 1;
    }
    proof {
        if used@.contains(x) {
            let w = choose|w: int| 0 <= w < used@.len() && used@[w] == x;
        }
    }
    false
}

/// How many candidates in the list lie in rows containing `r2`.
fn count_candidates(cands: &Vec<i32>, rows_by: &Vec<Vec<usize>>, r2: usize) -> (c: u128)
    ensures
        c == cnt_from(cands@, deep_rows(rows_by@), r2 as int, 0),
{
    let n = cands.len();
    let mut c: u128 = 0;
    let mut i: usize = n;
    while i > 0
        invariant
            i <= n,
            n == cands@.len(),
            c == cnt_from(cands@, deep_rows(rows_by@), r2 as int, i as int),
            c <= n - i,
        decreases i,
    {
        i = i - 1;
        let x = cands[i];
        let hit: bool = if x >= 0 && (x as usize) < rows_by.len() {
            list_has(&rows_by[x as usize], r2)
        } else {
            false
        };
        proof {
            if x >= 0 && (x as int) < rows_by@.len() {
                assert(deep_rows(rows_by@)[x as int] == rows_by@[x as int]@);
            }
            assert(hit == row_has(deep_rows(rows_by@), cands@[i as int] as int, r2 as int));
        }
        if hit {
            c = c + 1;
        }
    }
    c
}

/// How often `v` occurs in the key.
fn key_count(key: &Vec<i32>, v: i32) -> (c: usize)
    ensures
        c == seq_count_i32(key@, v, 0),
{
    let n = key.len();
    let mut c: usize = 0;
    let mut i: usize = n;
    while i > 0
        invariant
            i <= n,
            n == key@.len(),
            c == seq_count_i32(key@, v, i as int),
            c <= n - i,
        decreases i,
    {
        i = i - 1;
        if key[i] == v {
            c = c + 1;
        }
    }
    c
}

/// Count the injective assignments of `rem[ri..]`, avoiding `used`.
fn count_injective(
    rem: &Vec<i32>,
    ri: usize,
    used: &mut Vec<i32>,
    cands: &Vec<Vec<i32>>,
    rows_by: &Vec<Vec<usize>>,
    r2: usize,
) -> (c: u128)
    requires
        ri <= rem@.len(),
    ensures
        c == clip128(
            inj_from(rem@, ri as int, old(used)@, deep_cands(cands@), deep_rows(rows_by@), r2 as int),
        ),
        final(used)@ == old(used)@,
    decreases rem@.len() - ri,
{
    if ri == rem.len() {
        return 1;
    }
    let j = rem[ri];
    if j < 0 || (j as usize) >= cands.len() {
        return 0;
    }
    let ju = j as usize;
    let ghost xs = cands@[ju as int]@;
    let ghost dc = deep_cands(cands@);
    let ghost dr = deep_rows(rows_by@);
    let nx = cands[ju].len();
    let mut acc: u128 = 0;
    let mut xi: usize = 0;
    proof {
        assert(dc[ju as int] == xs);
    }
    while xi < nx
        invariant
            ri < rem@.len(),
            rem@.len() <= usize::MAX,
            rem@[ri as int] == j,
            0 <= j,
            (j as int) < cands@.len(),
            ju == j as usize,
            nx == xs.len(),
            xs == cands@[ju as int]@,
            dc == deep_cands(cands@),
            dr == deep_rows(rows_by@),
            xi <= nx,
            used@ == old(used)@,
            clip128(
                (acc + inj_branch(rem@, ri as int, xs, xi as int, used@, dc, dr, r2 as int)) as nat,
            ) == clip128(inj_branch(rem@, ri as int, xs, 0, used@, dc, dr, r2 as int)),
        decreases nx - xi,
    {
        let x = cands[ju][xi];
        proof {
            assert(xs[xi as int] == x);
        }
        let taken = used_has(used, x);
        let hit: bool = if x >= 0 && (x as usize) < rows_by.len() {
            list_has(&rows_by[x as usize], r2)
        } else {
            false
        };
        proof {
            if x >= 0 && (x as int) < rows_by@.len() {
                assert(dr[x as int] == rows_by@[x as int]@);
            }
            assert(hit == row_has(dr, x as int, r2 as int));
        }
        if !taken && hit {
            let ghost pre_used = used@;
            used.push(x);
            let sub = count_injective(rem, ri + 1, used, cands, rows_by, r2);
            used.pop();
            proof {
                assert(used@ =~= pre_used);
                let contr = inj_from(
                    rem@,
                    ri + 1,
                    pre_used.push(x),
                    dc,
                    dr,
                    r2 as int,
                );
                assert(sub == clip128(contr));
                let tail = inj_branch(rem@, ri as int, xs, xi + 1, pre_used, dc, dr, r2 as int);
                lemma_clip_add(acc as nat + tail, contr);
                assert(clip128((acc + sub + tail) as nat) == clip128(
                    ((acc + tail) + contr) as nat,
                )) by {
                    lemma_clip_add((acc + tail) as nat, contr);
                }
            }
            acc = sat_add(acc, sub);
        }
        xi = xi + 1;
    }
    proof {
        assert(inj_branch(rem@, ri as int, xs, nx as int, used@, dc, dr, r2 as int) == 0);
        assert(inj_from(rem@, ri as int, used@, dc, dr, r2 as int) == inj_branch(
            rem@,
            ri as int,
            xs,
            0,
            used@,
            dc,
            dr,
            r2 as int,
        ));
    }
    acc
}

/// Product of the unique-population positions' candidate counts.
fn unique_product(
    row: &Vec<i32>,
    key: &Vec<i32>,
    jbt_ref_pop: &Vec<i32>,
    cands: &Vec<Vec<i32>>,
    rows_by: &Vec<Vec<usize>>,
    r2: usize,
) -> (c: u128)
    ensures
        c == clip128(
            prod_unique(
                row@,
                key@,
                jbt_ref_pop@,
                deep_cands(cands@),
                deep_rows(rows_by@),
                r2 as int,
                0,
            ),
        ),
{
    let ghost dc = deep_cands(cands@);
    let ghost dr = deep_rows(rows_by@);
    let n = row.len();
    let mut c: u128 = 1;
    let mut i: usize = n;
    while i > 0
        invariant
            i <= n,
            n == row@.len(),
            dc == deep_cands(cands@),
            dr == deep_rows(rows_by@),
            c == clip128(prod_unique(row@, key@, jbt_ref_pop@, dc, dr, r2 as int, i as int)),
        decreases i,
    {
        i = i - 1;
        let j = row[i];
        let mut unique_pos = false;
        if j >= 0 && (j as usize) < jbt_ref_pop.len() {
            let p = jbt_ref_pop[j as usize];
            if p != 0 {
                if key_count(key, p) <= 1 {
                    unique_pos = true;
                }
            }
        }
        if unique_pos {
            let f: u128 = if j >= 0 && (j as usize) < cands.len() {
                count_candidates(&cands[j as usize], rows_by, r2)
            } else {
                0
            };
            proof {
                assert(f == (if 0 <= row@[i as int] < dc.len() {
                    cnt_from(dc[row@[i as int] as int], dr, r2 as int, 0)
                } else {
                    0nat
                })) by {
                    if 0 <= j && (j as int) < cands@.len() {
                        assert(dc[j as int] == cands@[j as int]@);
                        assert(cnt_from(cands@[j as int]@, dr, r2 as int, 0) <= cands@[
                            j as int]@.len()) by {
                            lemma_cnt_bound(cands@[j as int]@, dr, r2 as int, 0);
                        }
                    }
                }
                let rest = prod_unique(row@, key@, jbt_ref_pop@, dc, dr, r2 as int, i + 1);
                lemma_clip_mul(f as nat, rest);
            }
            c = sat_mul(f, c);
        }
    }
    c
}

proof fn lemma_cnt_bound(cands: Seq<i32>, rows_by: Seq<Seq<usize>>, r2: int, i: int)
    requires
        0 <= i <= cands.len(),
    ensures
        cnt_from(cands, rows_by, r2, i) <= cands.len() - i,
    decreases cands.len() - i,
{
    if i < cands.len() {
        lemma_cnt_bound(cands, rows_by, r2, i + 1);
    }
}

/// The pieces at colliding positions of the row, in order.
fn collect_rem(row: &Vec<i32>, key: &Vec<i32>, jbt_ref_pop: &Vec<i32>) -> (r: Vec<i32>)
    ensures
        r@ == rem_of(row@, key@, jbt_ref_pop@, 0),
{
    let n = row.len();
    let mut r: Vec<i32> = Vec::new();
    let mut i: usize = n;
    while i > 0
        invariant
            i <= n,
            n == row@.len(),
            r@ == rem_of(row@, key@, jbt_ref_pop@, i as int),
        decreases i,
    {
        i = i - 1;
        let j = row[i];
        let mut colliding = false;
        if j >= 0 && (j as usize) < jbt_ref_pop.len() {
            let p = jbt_ref_pop[j as usize];
            if p != 0 {
                if key_count(key, p) > 1 {
                    colliding = true;
                }
            }
        }
        if colliding {
            let ghost pre = r@;
            r.insert(0, j);
            proof {
                assert(r@ =~= seq![row@[i as int]] + pre);
            }
        }
    }
    r
}

/// Sum of a bucket's weight column, exactly.
fn sum_weights(w: &Vec<u64>) -> (c: u128)
    ensures
        c == wsum(w@, w@.len() as int),
{
    let n = w.len();
    let mut c: u128 = 0;
    let mut i: usize = 0;
    proof {
        assert(wsum(w@, 0) == 0);
    }
    while i < n
        invariant
            i <= n,
            n == w@.len(),
            c == wsum(w@, i as int),
            c <= i * 0xffff_ffff_ffff_ffff,
        decreases n - i,
    {
        c = c + w[i] as u128;
        i = i + 1;
    }
    c
}

/// The weighted matching count between a left and a right bucket: for
/// each pair of rows, the unique-population positions multiply their
/// candidate counts and the colliding positions are matched injectively.
/// A left bucket with the neutral (empty) key pairs freely: the result
/// is the product of the weight sums.
pub fn subtotal_for_pair(
    bucket1: &Bucket,
    bucket2: &Bucket,
    jbt_ref_pop: &Vec<i32>,
    _n_total: i32,
    _compat: &HashMap<i32, (Vec<i32>, Vec<i32>)>,
    rows_by: &Vec<Vec<usize>>,
    cand_map: &Vec<Vec<i32>>,
) -> (r: u128)
    requires
        bucket1.wf(),
        bucket2.wf(),
    ensures
        bucket1.key@.len() == 0 ==> r == clip128(
            wsum(bucket1.weights@, bucket1.weights@.len() as int) * wsum(
                bucket2.weights@,
                bucket2.weights@.len() as int,
            ),
        ),
        bucket1.key@.len() > 0 ==> r == clip128(
            pair_subtotal_spec(
                *bucket1,
                *bucket2,
                jbt_ref_pop@,
                deep_cands(cand_map@),
                deep_rows(rows_by@),
            ),
        ),
{
    let ghost dc = deep_cands(cand_map@);
    let ghost dr = deep_rows(rows_by@);
    if bucket1.key.len() == 0 {
        let s1 = sum_weights(&bucket1.weights);
        let s2 = sum_weights(&bucket2.weights);
        return sat_mul(s1, s2);
    }
    let n1 = bucket1.n_rows();
    let n2 = bucket2.n_rows();
    let mut subtotal: u128 = 0;
    let mut r1: usize = 0;
    proof {
        assert(pair_sum(*bucket1, *bucket2, jbt_ref_pop@, dc, dr, 0) == 0);
    }
    while r1 < n1
        invariant
            bucket1.wf(),
            bucket2.wf(),
            dc == deep_cands(cand_map@),
            dr == deep_rows(rows_by@),
            n1 == bucket1.n_rows_spec(),
            n2 == bucket2.n_rows_spec(),
            r1 <= n1,
            subtotal == clip128(
                pair_sum(*bucket1, *bucket2, jbt_ref_pop@, dc, dr, r1 as int),
            ),
        decreases n1 - r1,
    {
        let row = bucket1.row_slice(r1);
        let rem = collect_rem(&row, &bucket1.key, jbt_ref_pop);
        let mut rowsum: u128 = 0;
        let mut r2: usize = 0;
        proof {
            assert(row_sum(row@, bucket1.key@, jbt_ref_pop@, dc, dr, bucket2.weights@, 0) == 0);
        }
        while r2 < n2
            invariant
                bucket1.wf(),
                bucket2.wf(),
                dc == deep_cands(cand_map@),
                dr == deep_rows(rows_by@),
                n2 == bucket2.n_rows_spec(),
                r1 < n1,
                n1 == bucket1.n_rows_spec(),
                row@ == bucket1.row_spec(r1 as int),
                rem@ == rem_of(row@, bucket1.key@, jbt_ref_pop@, 0),
                r2 <= n2,
                rowsum == clip128(
                    row_sum(
                        row@,
                        bucket1.key@,
                        jbt_ref_pop@,
                        dc,
                        dr,
                        bucket2.weights@,
                        r2 as int,
                    ),
                ),
            decreases n2 - r2,
        {
            let w2 = bucket2.weights[r2];
            let pu = unique_product(&row, &bucket1.key, jbt_ref_pop, cand_map, rows_by, r2);
            let mut used: Vec<i32> = Vec::new();
            let inj = count_injective(&rem, 0, &mut used, cand_map, rows_by, r2);
            let term = sat_mul(sat_mul(w2 as u128, pu), inj);
            proof {
                let pue = prod_unique(row@, bucket1.key@, jbt_ref_pop@, dc, dr, r2 as int, 0);
                let inje = inj_from(rem@, 0, Seq::<i32>::empty(), dc, dr, r2 as int);
                lemma_clip_mul((w2 as nat) * pue, inje);
                lemma_clip_mul(w2 as nat, pue);
                assert(clip128(((w2 as nat) * clip128(pue)) as nat) == clip128(
                    ((w2 as nat) * pue) as nat,
                )) by {
                    lemma_clip_mul(w2 as nat, pue);
                }
                assert(term == clip128(
                    row_term(row@, bucket1.key@, jbt_ref_pop@, dc, dr, bucket2.weights@, r2 as int),
                )) by {
                    assert(clip128((clip128(((w2 as nat) * pue) as nat) * clip128(
                        inje,
                    )) as nat) == clip128(((w2 as nat) * pue * inje) as nat)) by {
                        lemma_clip_mul((w2 as nat) * pue, inje);
                    }
                }
                lemma_clip_add(
                    row_sum(row@, bucket1.key@, jbt_ref_pop@, dc, dr, bucket2.weights@, r2 as int),
                    row_term(row@, bucket1.key@, jbt_ref_pop@, dc, dr, bucket2.weights@, r2 as int),
                );
            }
            rowsum = sat_add(rowsum, term);
            r2 = r2 + 1;
        }
        let w1 = bucket1.weights[r1];
        let row_total = sat_mul(w1 as u128, rowsum);
        proof {
            let rs = row_sum(
                row@,
                bucket1.key@,
                jbt_ref_pop@,
                dc,
                dr,
                bucket2.weights@,
                n2 as int,
            );
            lemma_clip_mul(w1 as nat, rs);
            lemma_clip_add(
                pair_sum(*bucket1, *bucket2, jbt_ref_pop@, dc, dr, r1 as int),
                (w1 as nat) * rs,
            );
        }
        subtotal = sat_add(subtotal, row_total);
        r1 = r1 + 1;
    }
    subtotal
}

} // verus!
