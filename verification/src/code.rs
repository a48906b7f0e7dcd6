//! Packed-code arithmetic.
//!
//! A code stores a sorted set of at most 10 piece indices in a single
//! `u128`: the low 4 bits hold the length `k`, and `k` fields of width
//! `b` follow, least-significant first, in strictly ascending order.

use vstd::prelude::*;

use crate::bits::{
    lemma_mask128, lemma_nibble_high128, lemma_nibble_or128, lemma_nibble_shift128,
    lemma_small_mask128,
};

verus! {

/// Mask selecting one `b`-bit field.
pub open spec fn fmask(b: u32) -> u128 {
    ((1u128 << (b as u128)) - 1) as u128
}

/// Number of entries stored in `c` (the low nibble).
pub open spec fn code_len_spec(c: u128) -> nat {
    (c & 0xf) as nat
}

/// Bit position where field `i` starts.
pub open spec fn field_lsb(i: int, b: u32) -> int {
    4 + i * b
}

/// Value of field `i` of code `c`.
pub open spec fn code_field(c: u128, i: int, b: u32) -> u32 {
    ((c >> (field_lsb(i, b) as u128)) & fmask(b)) as u32
}

/// The sequence of indices stored in `c`.
pub open spec fn code_seq(c: u128, b: u32) -> Seq<u32> {
    Seq::new(code_len_spec(c), |i: int| code_field(c, i, b))
}

pub open spec fn seq_sorted_strict(s: Seq<u32>) -> bool {
    forall|i: int, j: int| 0 <= i < j < s.len() ==> s[i] < s[j]
}

/// Field width valid for a 128-bit code holding up to 10 entries.
pub open spec fn width_ok(b: u32) -> bool {
    1 <= b <= 12
}

/// A well-formed code: valid width, at most 10 entries, no stray bits
/// above the last field, and strictly ascending fields.
pub open spec fn code_wf(c: u128, b: u32) -> bool {
    &&& width_ok(b)
    &&& code_len_spec(c) <= 10
    &&& c >> ((4 + code_len_spec(c) * b) as u128) == 0
    &&& seq_sorted_strict(code_seq(c, b))
}

/// Insertion of `j` into a sorted sequence, keeping order.
pub open spec fn sorted_insert(s: Seq<u32>, j: u32) -> Seq<u32>
    decreases s.len(),
{
    if s.len() == 0 {
        seq![j]
    } else if j < s[0] {
        seq![j] + s
    } else {
        seq![s[0]] + sorted_insert(s.drop_first(), j)
    }
}

/// The low-to-high disjunction of the fields of `s` from index `i` on.
pub open spec fn encode_fields_from(s: Seq<u32>, b: u32, i: int) -> u128
    decreases s.len() - i,
{
    if i < 0 || i >= s.len() {
        0
    } else {
        ((s[i] as u128) << (field_lsb(i, b) as u128)) | encode_fields_from(s, b, i + 1)
    }
}

/// The canonical code holding exactly the entries of `s`.
pub open spec fn encode_spec(s: Seq<u32>, b: u32) -> u128 {
    (s.len() as u128) | encode_fields_from(s, b, 0)
}

/// What `code_insert` returns: the code unchanged when `j` is already
/// present or the code is full, else the canonical code of the grown set.
pub open spec fn code_insert_spec(c: u128, j: u32, b: u32) -> (u128, bool) {
    let s = code_seq(c, b);
    if s.contains(j) || s.len() >= 10 {
        (c, false)
    } else {
        (encode_spec(sorted_insert(s, j), b), true)
    }
}

/// Smallest field width that can hold indices `0 .. m`, at least 1.
pub fn bitwidth(m: usize) -> (b: u32)
    ensures
        1 <= b <= 64,
        (m as u128) <= (1u128 << (b as u128)),
        b > 1 ==> (1u128 << ((b - 1) as u128)) < m as u128,
{
    let mut b: u32 = 1;
    while (1u128 << b) < m as u128
        invariant
            1 <= b <= 64,
            b > 1 ==> (1u128 << ((b - 1) as u128)) < m as u128,
        decreases 64 - b,
    {
        proof {
            assert((1u128 << (b as u128)) < m as u128 && b == 64 ==> false) by (bit_vector);
        }
        b = b + 1;
    }
    b
}

pub fn code_len(c: u128) -> (k: u32)
    ensures
        k == code_len_spec(c),
{
    proof {
        lemma_mask128(c, 0, 0, 0);
    }
    (c & 0xf) as u32
}

pub fn code_get(c: u128, i: u32, b: u32) -> (v: u32)
    requires
        width_ok(b),
        i < code_len_spec(c),
        code_len_spec(c) <= 10,
    ensures
        v == code_field(c, i as int, b),
{
    proof {
        assert(i * b <= 108) by (nonlinear_arith)
            requires
                i <= 9 && b <= 12,
        ;
        lemma_small_mask128(b as u128);
    }
    let shift: u32 = 4 + i * b;
    let mask: u128 = (1u128 << b) - 1;
    let x: u128 = (c >> shift) & mask;
    proof {
        assert((c >> shift) & (((1u128 << b) - 1) as u128) <= (((1u128 << b) - 1) as u128))
            by (bit_vector);
    }
    x as u32
}

/// The field written at `s` reads back as itself when nothing sits in
/// or above its bit range.
#[verifier::rlimit(60)]
proof fn lemma_or_field_value(rest: u128, v: u128, si: u128, bw: u128)
    by (bit_vector)
    requires
        rest << ((128 - (si + bw)) as u128) == 0,
        v <= ((1u128 << bw) - 1) as u128,
        0 < bw < 128,
        si < 128,
        si + bw <= 128,
    ensures
        ((rest | (v << si)) >> si) & (((1u128 << bw) - 1) as u128) == v,
{
}

/// Reading a bit range strictly above the written field is unchanged.
#[verifier::rlimit(60)]
proof fn lemma_or_read_above(e: u128, v: u128, si: u128, wv: u128, sj: u128, w: u128)
    by (bit_vector)
    requires
        v <= ((1u128 << wv) - 1) as u128,
        0 < wv < 128,
        0 < w < 128,
        si + wv <= sj,
        sj + w <= 128,
        si < 128,
        sj < 128,
    ensures
        ((e | (v << si)) >> sj) & (((1u128 << w) - 1) as u128) == (e >> sj) & (((1u128 << w)
            - 1) as u128),
{
}

/// Writing a field whose bits end at or below `t` into a value with no
/// bits at or above `t` keeps everything at or above `t` zero.
#[verifier::rlimit(60)]
proof fn lemma_or_high_zero(e: u128, v: u128, si: u128, bw: u128, t: u128)
    by (bit_vector)
    requires
        e >> t == 0,
        v <= ((1u128 << bw) - 1) as u128,
        0 < bw < 128,
        si < 128,
        si + bw <= t,
        t < 128,
    ensures
        (e | (v << si)) >> t == 0,
{
}

/// Nothing below `si` appears once a field is written at `si` into a
/// value that had nothing below `si + bw`.
#[verifier::rlimit(60)]
proof fn lemma_or_low_zero(rest: u128, v: u128, si: u128, bw: u128)
    by (bit_vector)
    requires
        rest << ((128 - (si + bw)) as u128) == 0,
        0 < bw < 128,
        si < 128,
        si + bw <= 128,
    ensures
        (rest | (v << si)) << ((128 - si) as u128) == 0,
{
}

/// Bits of `encode_fields_from(s, b, i)`: nothing below field `i`,
/// field `jj` holds `s[jj]` for `i <= jj < len`, nothing at or above
/// the end of the last field.
proof fn lemma_encode_fields_from(s: Seq<u32>, b: u32, i: int)
    requires
        width_ok(b),
        s.len() <= 10,
        forall|q: int| 0 <= q < s.len() ==> (#[trigger] s[q] as u128) <= fmask(b),
        0 <= i <= s.len(),
    ensures
        encode_fields_from(s, b, i) << ((128 - field_lsb(i, b)) as u128) == 0,
        forall|jj: int|
            i <= jj < s.len() ==> ((encode_fields_from(s, b, i) >> (field_lsb(jj, b) as u128))
                & fmask(b)) == #[trigger] s[jj] as u128,
        encode_fields_from(s, b, i) >> (field_lsb(s.len() as int, b) as u128) == 0,
    decreases s.len() - i,
{
    assert(i * b <= 120 && (i + 1) * b <= 132 && s.len() * b <= 120) by (nonlinear_arith)
        requires
            0 <= i <= s.len() <= 10 && 1 <= b <= 12,
    ;
    if i == s.len() {
        let t1: u128 = (128 - field_lsb(i, b)) as u128;
        let t2: u128 = field_lsb(s.len() as int, b) as u128;
        lemma_mask128(0, 0, 0, t1);
        lemma_mask128(0, 0, 0, t2);
    } else {
        lemma_encode_fields_from(s, b, i + 1);
        let rest = encode_fields_from(s, b, i + 1);
        let v = s[i] as u128;
        let sil: int = field_lsb(i, b);
        let si1l: int = field_lsb(i + 1, b);
        let sendl: int = field_lsb(s.len() as int, b);
        assert(4 <= sil && sil + b == si1l && si1l <= sendl && sendl <= 124) by (nonlinear_arith)
            requires
                sil == 4 + i * b && si1l == 4 + (i + 1) * b && sendl == 4 + s.len() * b && 0
                    <= i < s.len() <= 10 && 1 <= b <= 12,
        ;
        let si: u128 = sil as u128;
        let send: u128 = sendl as u128;
        let bw: u128 = b as u128;
        let e = encode_fields_from(s, b, i);
        proof_or_comm(v << si, rest);
        assert(e == rest | (v << si));
        // no bits below field i: rest has none below field i+1, v << si none below si
        lemma_or_low_zero(rest, v, si, bw);
        // field i itself
        lemma_or_field_value(rest, v, si, bw);
        // higher fields unchanged by the disjunct at field i
        assert forall|jj: int| i + 1 <= jj < s.len() implies ((e >> (field_lsb(jj, b) as u128))
            & fmask(b)) == s[jj] as u128 by {
            let sjl: int = field_lsb(jj, b);
            assert(sil + b <= sjl && sjl + b <= 128) by (nonlinear_arith)
                requires
                    sil == 4 + i * b && sjl == 4 + jj * b && i < jj < s.len() <= 10 && 1 <= b
                        <= 12,
            ;
            let sj: u128 = sjl as u128;
            lemma_or_read_above(rest, v, si, bw, sj, bw);
        }
        // nothing at or above the end
        lemma_or_high_zero(rest, v, si, bw, send);
    }
}

/// The canonical encoding really stores `s`: its length nibble, its
/// fields, and nothing else.
pub proof fn lemma_encode_spec(s: Seq<u32>, b: u32)
    requires
        width_ok(b),
        s.len() <= 10,
        forall|q: int| 0 <= q < s.len() ==> (#[trigger] s[q] as u128) <= fmask(b),
    ensures
        code_len_spec(encode_spec(s, b)) == s.len(),
        code_seq(encode_spec(s, b), b) == s,
        encode_spec(s, b) >> ((4 + s.len() * b) as u128) == 0,
        seq_sorted_strict(s) ==> code_wf(encode_spec(s, b), b),
{
    lemma_encode_fields_from(s, b, 0);
    let ef = encode_fields_from(s, b, 0);
    let k: u128 = s.len() as u128;
    let e = encode_spec(s, b);
    let sendl: int = field_lsb(s.len() as int, b);
    assert(4 <= sendl <= 124) by (nonlinear_arith)
        requires
            sendl == 4 + s.len() * b && s.len() <= 10 && 1 <= b <= 12,
    ;
    let send: u128 = sendl as u128;
    lemma_nibble_or128(k, ef);
    assert((k | ef) & 0xf == k);
    assert forall|jj: int| 0 <= jj < s.len() implies #[trigger] code_field(e, jj, b) == s[jj] by {
        let sjl: int = field_lsb(jj, b);
        assert(4 <= sjl && sjl + b <= sendl) by (nonlinear_arith)
            requires
                sjl == 4 + jj * b && sendl == 4 + s.len() * b && 0 <= jj < s.len() <= 10 && 1
                    <= b <= 12,
        ;
        let sj: u128 = sjl as u128;
        lemma_nibble_shift128(k, ef, sj);
        assert((ef >> sj) & fmask(b) == s[jj] as u128);
        assert((s[jj] as u128) as u32 == s[jj]);
    }
    lemma_nibble_high128(k, ef, send);
    assert(code_seq(e, b) =~= s);
}

proof fn proof_or_comm(a: u128, b: u128)
    ensures
        a | b == b | a,
{
    lemma_mask128(a, b, 0, 0);
}

/// Every stored field fits under the field mask.
pub proof fn lemma_field_bound(c: u128, i: int, b: u32)
    requires
        width_ok(b),
    ensures
        (code_field(c, i, b) as u128) <= fmask(b),
{
    let s: u128 = field_lsb(i, b) as u128;
    assert(((c >> s) & (((1u128 << (b as u128)) - 1) as u128)) as u32 as u128 <= ((1u128 << (
    b as u128)) - 1) as u128) by (bit_vector)
        requires
            1 <= b <= 12,
    ;
}

/// Inserting keeps length, order, and membership as expected.
pub proof fn lemma_sorted_insert_props(s: Seq<u32>, j: u32)
    requires
        seq_sorted_strict(s),
        !s.contains(j),
    ensures
        sorted_insert(s, j).len() == s.len() + 1,
        seq_sorted_strict(sorted_insert(s, j)),
        forall|x: u32| sorted_insert(s, j).contains(x) <==> (s.contains(x) || x == j),
    decreases s.len(),
{
    let r = sorted_insert(s, j);
    if s.len() == 0 {
        assert forall|x: u32| r.contains(x) implies (s.contains(x) || x == j) by {
            let q = choose|q: int| 0 <= q < r.len() && r[q] == x;
            assert(r[q] == j);
        }
        assert(r.contains(j)) by {
            assert(r[0] == j);
        }
    } else if j < s[0] {
        assert(r == seq![j] + s);
        assert forall|x: u32| r.contains(x) implies (s.contains(x) || x == j) by {
            let q = choose|q: int| 0 <= q < r.len() && r[q] == x;
            if q > 0 {
                assert(s[q - 1] == x);
            }
        }
        assert forall|x: u32| s.contains(x) || x == j implies r.contains(x) by {
            if x == j {
                assert(r[0] == x);
            } else {
                let q = choose|q: int| 0 <= q < s.len() && s[q] == x;
                assert(r[q + 1] == x);
            }
        }
    } else {
        let t = s.drop_first();
        assert(s[0] < j) by {
            assert(s[0] <= j);
            assert(s[0] != j) by {
                assert(s.contains(s[0]));
            }
        }
        assert(seq_sorted_strict(t));
        assert(!t.contains(j)) by {
            if t.contains(j) {
                let q = choose|q: int| 0 <= q < t.len() && t[q] == j;
                assert(s[q + 1] == j);
                assert(s.contains(j));
            }
        }
        lemma_sorted_insert_props(t, j);
        let rt = sorted_insert(t, j);
        assert(r == seq![s[0]] + rt);
        assert(seq_sorted_strict(r)) by {
            assert forall|p: int, q: int| 0 <= p < q < r.len() implies r[p] < r[q] by {
                if p == 0 {
                    assert(r[0] == s[0]);
                    assert(rt.contains(rt[q - 1])) by {
                        assert(rt[q - 1] == rt[q - 1]);
                    }
                    assert(t.contains(rt[q - 1]) || rt[q - 1] == j);
                    if t.contains(rt[q - 1]) {
                        let w = choose|w: int| 0 <= w < t.len() && t[w] == rt[q - 1];
                        assert(s[w + 1] == rt[q - 1]);
                    }
                } else {
                    assert(r[p] == rt[p - 1] && r[q] == rt[q - 1]);
                }
            }
        }
        assert forall|x: u32| r.contains(x) implies (s.contains(x) || x == j) by {
            let q = choose|q: int| 0 <= q < r.len() && r[q] == x;
            if q == 0 {
                assert(s[0] == x);
            } else {
                assert(rt[q - 1] == x);
                assert(rt.contains(x));
                if t.contains(x) {
                    let w = choose|w: int| 0 <= w < t.len() && t[w] == x;
                    assert(s[w + 1] == x);
                }
            }
        }
        assert forall|x: u32| s.contains(x) || x == j implies r.contains(x) by {
            if s.contains(x) {
                let q = choose|q: int| 0 <= q < s.len() && s[q] == x;
                if q == 0 {
                    assert(r[0] == x);
                } else {
                    assert(t[q - 1] == x);
                    assert(t.contains(x));
                    assert(rt.contains(x));
                    let w = choose|w: int| 0 <= w < rt.len() && rt[w] == x;
                    assert(r[w + 1] == x);
                }
            } else {
                assert(rt.contains(j));
                let w = choose|w: int| 0 <= w < rt.len() && rt[w] == j;
                assert(r[w + 1] == x);
            }
        }
    }
}

/// Inserting at the boundary position equals the ordered insertion.
proof fn lemma_sorted_insert_at_pos(s: Seq<u32>, j: u32, pos: int)
    requires
        0 <= pos <= s.len(),
        forall|q: int| 0 <= q < pos ==> s[q] < j,
        forall|q: int| pos <= q < s.len() ==> s[q] > j,
    ensures
        sorted_insert(s, j) == s.insert(pos, j),
    decreases s.len(),
{
    if s.len() == 0 {
        assert(sorted_insert(s, j) =~= s.insert(0, j));
    } else if j < s[0] {
        assert(pos == 0) by {
            if pos > 0 {
                assert(s[0] < j);
            }
        }
        assert(seq![j] + s =~= s.insert(0, j));
    } else {
        assert(pos > 0) by {
            if pos == 0 {
                assert(s[0] > j);
            }
        }
        let t = s.drop_first();
        lemma_sorted_insert_at_pos(t, j, pos - 1);
        assert(seq![s[0]] + t.insert(pos - 1, j) =~= s.insert(pos, j));
    }
}

/// Two successful insertions commute: the packed code that results does
/// not depend on the order in which the two indices were added.
pub proof fn lemma_sorted_insert_comm(s: Seq<u32>, x: u32, y: u32)
    requires
        seq_sorted_strict(s),
        !s.contains(x),
        !s.contains(y),
        x != y,
    ensures
        sorted_insert(sorted_insert(s, x), y) == sorted_insert(sorted_insert(s, y), x),
    decreases s.len(),
{
    lemma_sorted_insert_props(s, x);
    lemma_sorted_insert_props(s, y);
    let ex = sorted_insert(s, x);
    let ey = sorted_insert(s, y);
    if s.len() == 0 {
        assert(ex == seq![x]);
        assert(ey == seq![y]);
        if y < x {
            assert(sorted_insert(ex, y) == seq![y] + ex);
            assert(ey.drop_first() =~= s);
            assert(sorted_insert(ey, x) == seq![y] + sorted_insert(s, x));
            assert(seq![y] + ex =~= seq![y] + sorted_insert(s, x));
        } else {
            assert(sorted_insert(ey, x) == seq![x] + ey);
            assert(ex.drop_first() =~= s);
            assert(sorted_insert(ex, y) == seq![x] + sorted_insert(s, y));
            assert(seq![x] + ey =~= seq![x] + sorted_insert(s, y));
        }
    } else {
        let h = s[0];
        assert(s.contains(h));
        let t = s.drop_first();
        assert(!t.contains(x) && !t.contains(y)) by {
            if t.contains(x) {
                let q = choose|q: int| 0 <= q < t.len() && t[q] == x;
                assert(s[q + 1] == x);
            }
            if t.contains(y) {
                let q = choose|q: int| 0 <= q < t.len() && t[q] == y;
                assert(s[q + 1] == y);
            }
        }
        if x < h && y < h {
            assert(ex == seq![x] + s);
            assert(ey == seq![y] + s);
            if y < x {
                assert(sorted_insert(ex, y) == seq![y] + ex);
                assert(ey.drop_first() =~= s);
                assert(sorted_insert(ey, x) == seq![y] + sorted_insert(s, x));
                assert(seq![y] + ex =~= seq![y] + sorted_insert(s, x));
            } else {
                assert(sorted_insert(ey, x) == seq![x] + ey);
                assert(ex.drop_first() =~= s);
                assert(sorted_insert(ex, y) == seq![x] + sorted_insert(s, y));
                assert(seq![x] + ey =~= seq![x] + sorted_insert(s, y));
            }
        } else if x < h {
            // y sits past the head, x in front
            assert(ex == seq![x] + s);
            assert(ex.drop_first() =~= s);
            assert(sorted_insert(ex, y) == seq![x] + sorted_insert(s, y));
            assert(ey == seq![h] + sorted_insert(t, y));
            assert(sorted_insert(ey, x) == seq![x] + ey);
            assert(seq![x] + sorted_insert(s, y) =~= seq![x] + ey);
        } else if y < h {
            assert(ey == seq![y] + s);
            assert(ey.drop_first() =~= s);
            assert(sorted_insert(ey, x) == seq![y] + sorted_insert(s, x));
            assert(ex == seq![h] + sorted_insert(t, x));
            assert(sorted_insert(ex, y) == seq![y] + ex);
            assert(seq![y] + sorted_insert(s, x) =~= seq![y] + ex);
        } else {
            // both sit past the head: recurse on the tail
            assert(seq_sorted_strict(t));
            lemma_sorted_insert_comm(t, x, y);
            assert(ex == seq![h] + sorted_insert(t, x));
            assert(ex.drop_first() =~= sorted_insert(t, x));
            assert(ex[0] == h);
            assert(sorted_insert(ex, y) == seq![h] + sorted_insert(sorted_insert(t, x), y));
            assert(ey == seq![h] + sorted_insert(t, y));
            assert(ey.drop_first() =~= sorted_insert(t, y));
            assert(ey[0] == h);
            assert(sorted_insert(ey, x) == seq![h] + sorted_insert(sorted_insert(t, y), x));
        }
    }
}

/// Decode the entries of `c`, in ascending field order.
pub fn code_indices(c: u128, b: u32) -> (v: Vec<u32>)
    requires
        width_ok(b),
        code_len_spec(c) <= 10,
    ensures
        v@ == code_seq(c, b),
{
    let k = code_len(c);
    let mut v: Vec<u32> = Vec::new();
    let mut i: u32 = 0;
    while i < k
        invariant
            width_ok(b),
            i <= k,
            k == code_len_spec(c),
            k <= 10,
            v@.len() == i,
            forall|q: int| 0 <= q < i ==> v@[q] == code_field(c, q, b),
        decreases k - i,
    {
        let x = code_get(c, i, b);
        v.push(x);
        i = i + 1;
    }
    proof {
        assert(v@ =~= code_seq(c, b));
    }
    v
}

/// Build the canonical code from a short list of small entries.
fn code_encode(vals: &Vec<u32>, b: u32) -> (c: u128)
    requires
        width_ok(b),
        vals@.len() <= 10,
        forall|q: int| 0 <= q < vals@.len() ==> (#[trigger] vals@[q] as u128) <= fmask(b),
    ensures
        c == encode_spec(vals@, b),
{
    let k = vals.len();
    let mut c: u128 = k as u128;
    let mut i: usize = 0;
    while i < k
        invariant
            width_ok(b),
            i <= k,
            k == vals@.len() <= 10,
            forall|q: int| 0 <= q < vals@.len() ==> (#[trigger] vals@[q] as u128) <= fmask(b),
            c | encode_fields_from(vals@, b, i as int) == encode_spec(vals@, b),
        decreases k - i,
    {
        proof {
            assert(i * b <= 108) by (nonlinear_arith)
                requires
                    0 <= i <= 9 && 1 <= b <= 12,
            ;
        }
        let shift: u32 = 4 + (i as u32) * b;
        let f: u128 = (vals[i] as u128) << shift;
        proof {
            let rest = encode_fields_from(vals@, b, i as int + 1);
            lemma_mask128(c, f, rest, 0);
            assert(encode_fields_from(vals@, b, i as int) == f | rest);
        }
        c = c | f;
        i = i + 1;
    }
    proof {
        lemma_mask128(c, 0, 0, 0);
    }
    c
}

/// Insert `j` into the sorted set held by `c`. Returns the new code and
/// `true`, or `c` unchanged and `false` when `j` is already present or
/// the code already holds 10 entries.
pub fn code_insert(c: u128, j: u32, b: u32) -> (r: (u128, bool))
    requires
        code_wf(c, b),
        (j as u128) <= fmask(b),
    ensures
        r == code_insert_spec(c, j, b),
        code_wf(r.0, b),
        r.1 <==> (!code_seq(c, b).contains(j) && code_len_spec(c) < 10),
        !r.1 ==> r.0 == c,
        r.1 ==> code_seq(r.0, b) == sorted_insert(code_seq(c, b), j),
{
    let ghost s = code_seq(c, b);
    let vals = code_indices(c, b);
    let k = vals.len();
    let mut pos: usize = 0;
    while pos < k && vals[pos] < j
        invariant
            k == vals@.len(),
            pos <= k,
            forall|q: int| 0 <= q < pos ==> vals@[q] < j,
        decreases k - pos,
    {
        pos = pos + 1;
    }
    if pos < k && vals[pos] == j {
        proof {
            assert(s.contains(j)) by {
                assert(s[pos as int] == j);
            }
        }
        return (c, false);
    }
    if k >= 10 {
        return (c, false);
    }
    proof {
        assert(!s.contains(j)) by {
            if s.contains(j) {
                let q = choose|q: int| 0 <= q < s.len() && s[q] == j;
                if q >= pos {
                    assert(s[pos as int] <= s[q]);
                }
            }
        }
        assert(forall|q: int| pos <= q < s.len() ==> s[q] > j) by {
            assert forall|q: int| pos <= q < s.len() implies s[q] > j by {
                assert(s[pos as int] <= s[q]);
                assert(s[pos as int] != j);
                assert(s[pos as int] >= j);
            }
        }
        lemma_sorted_insert_at_pos(s, j, pos as int);
        lemma_sorted_insert_props(s, j);
    }
    let mut new_vals = vals;
    new_vals.insert(pos, j);
    proof {
        assert(new_vals@ == sorted_insert(s, j));
        assert forall|q: int| 0 <= q < new_vals@.len() implies (#[trigger] new_vals@[q] as u128)
            <= fmask(b) by {
            assert(new_vals@.contains(new_vals@[q]));
            if new_vals@[q] != j {
                assert(s.contains(new_vals@[q]));
                let w = choose|w: int| 0 <= w < s.len() && s[w] == new_vals@[q];
                lemma_field_bound(c, w, b);
            }
        }
        lemma_encode_spec(new_vals@, b);
    }
    let c2 = code_encode(&new_vals, b);
    (c2, true)
}

/// Inserting two distinct new indices gives the same code in either
/// order.
pub proof fn lemma_code_insert_commutes(c: u128, x: u32, y: u32, b: u32)
    requires
        code_wf(c, b),
        (x as u128) <= fmask(b),
        (y as u128) <= fmask(b),
        x != y,
        !code_seq(c, b).contains(x),
        !code_seq(c, b).contains(y),
        code_len_spec(c) + 2 <= 10,
    ensures
        code_insert_spec(c, x, b).1,
        code_insert_spec(code_insert_spec(c, x, b).0, y, b).1,
        code_insert_spec(code_insert_spec(c, x, b).0, y, b).0 == code_insert_spec(
            code_insert_spec(c, y, b).0,
            x,
            b,
        ).0,
{
    let s = code_seq(c, b);
    lemma_sorted_insert_props(s, x);
    lemma_sorted_insert_props(s, y);
    assert forall|w: int| 0 <= w < sorted_insert(s, x).len() implies (
    #[trigger] sorted_insert(s, x)[w] as u128) <= fmask(b) by {
        assert(sorted_insert(s, x).contains(sorted_insert(s, x)[w]));
        if sorted_insert(s, x)[w] != x {
            assert(s.contains(sorted_insert(s, x)[w]));
            let q = choose|q: int| 0 <= q < s.len() && s[q] == sorted_insert(s, x)[w];
            lemma_field_bound(c, q, b);
        }
    }
    assert forall|w: int| 0 <= w < sorted_insert(s, y).len() implies (
    #[trigger] sorted_insert(s, y)[w] as u128) <= fmask(b) by {
        assert(sorted_insert(s, y).contains(sorted_insert(s, y)[w]));
        if sorted_insert(s, y)[w] != y {
            assert(s.contains(sorted_insert(s, y)[w]));
            let q = choose|q: int| 0 <= q < s.len() && s[q] == sorted_insert(s, y)[w];
            lemma_field_bound(c, q, b);
        }
    }
    lemma_encode_spec(sorted_insert(s, x), b);
    lemma_encode_spec(sorted_insert(s, y), b);
    let c1 = code_insert_spec(c, x, b).0;
    let c2 = code_insert_spec(c, y, b).0;
    assert(code_seq(c1, b) == sorted_insert(s, x));
    assert(code_seq(c2, b) == sorted_insert(s, y));
    lemma_sorted_insert_props(sorted_insert(s, x), y);
    lemma_sorted_insert_props(sorted_insert(s, y), x);
    lemma_sorted_insert_comm(s, x, y);
}

} // verus!
