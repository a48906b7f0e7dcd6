//! Accumulator buckets: committed (sorted, merged) code/weight pairs
//! plus a pending batch that a flush folds in, deduplicating by code
//! and summing weights with saturation.

use vstd::prelude::*;

verus! {

/// One entry: a packed code and its integer weight.
pub type Entry = (u128, u32);

pub open spec fn clip32(w: nat) -> nat {
    if w > 0xffff_ffff {
        0xffff_ffff
    } else {
        w
    }
}

/// Sum of the weights of the entries with code `c`, from index `i` on.
pub open spec fn weight_from(s: Seq<Entry>, c: u128, i: int) -> nat
    decreases s.len() - i,
{
    if i < 0 || i >= s.len() {
        0
    } else {
        (if s[i].0 == c {
            s[i].1 as nat
        } else {
            0
        }) + weight_from(s, c, i + 1)
    }
}

/// Total weight carried by code `c` in `s`.
pub open spec fn weight_of(s: Seq<Entry>, c: u128) -> nat {
    weight_from(s, c, 0)
}

pub open spec fn contains_code(s: Seq<Entry>, c: u128) -> bool {
    exists|i: int| 0 <= i < s.len() && s[i].0 == c
}

pub open spec fn entries_of(codes: Seq<u128>, ws: Seq<u32>) -> Seq<Entry> {
    Seq::new(codes.len(), |i: int| (codes[i], ws[i]))
}

pub open spec fn codes_sorted_strict(s: Seq<Entry>) -> bool {
    forall|i: int, j: int| 0 <= i < j < s.len() ==> s[i].0 < s[j].0
}

pub open spec fn codes_sorted_nondec(s: Seq<Entry>) -> bool {
    forall|i: int, j: int| 0 <= i <= j < s.len() ==> s[i].0 <= s[j].0
}

/// Appending an entry adds its contribution.
proof fn lemma_weight_push(s: Seq<Entry>, e: Entry, c: u128, i: int)
    requires
        0 <= i <= s.len(),
    ensures
        weight_from(s.push(e), c, i) == weight_from(s, c, i) + (if e.0 == c {
            e.1 as nat
        } else {
            0
        }),
    decreases s.len() - i,
{
    if i < s.len() {
        lemma_weight_push(s, e, c, i + 1);
    } else {
        assert(weight_from(s.push(e), c, i + 1) == 0);
        assert(weight_from(s, c, i) == 0);
    }
}

proof fn lemma_weight_insert_suffix(s: Seq<Entry>, e: Entry, c: u128, pos: int, j: int)
    requires
        0 <= pos <= j <= s.len(),
    ensures
        weight_from(s.insert(pos, e), c, j + 1) == weight_from(s, c, j),
    decreases s.len() - j,
{
    let t = s.insert(pos, e);
    if j < s.len() {
        assert(t[j + 1] == s[j]);
        lemma_weight_insert_suffix(s, e, c, pos, j + 1);
    }
}

proof fn lemma_weight_insert_prefix(s: Seq<Entry>, e: Entry, c: u128, pos: int, i: int)
    requires
        0 <= i <= pos <= s.len(),
    ensures
        weight_from(s.insert(pos, e), c, i) == weight_from(s, c, i) + (if e.0 == c {
            e.1 as nat
        } else {
            0
        }),
    decreases pos - i,
{
    let t = s.insert(pos, e);
    if i == pos {
        assert(t[pos] == e);
        lemma_weight_insert_suffix(s, e, c, pos, pos);
    } else {
        assert(t[i] == s[i]);
        lemma_weight_insert_prefix(s, e, c, pos, i + 1);
    }
}

/// Inserting an entry adds its contribution to each code's total.
proof fn lemma_weight_insert(s: Seq<Entry>, e: Entry, c: u128, pos: int)
    requires
        0 <= pos <= s.len(),
    ensures
        weight_of(s.insert(pos, e), c) == weight_of(s, c) + (if e.0 == c {
            e.1 as nat
        } else {
            0
        }),
{
    lemma_weight_insert_prefix(s, e, c, pos, 0);
}

/// Skipping a code-free prefix does not change the total.
proof fn lemma_weight_prefix_absent(s: Seq<Entry>, c: u128, i: int)
    requires
        0 <= i <= s.len(),
        forall|k: int| 0 <= k < i ==> (#[trigger] s[k]).0 != c,
    ensures
        weight_of(s, c) == weight_from(s, c, i),
    decreases i,
{
    if i > 0 {
        lemma_weight_prefix_absent_step(s, c, 0, i);
    }
}

proof fn lemma_weight_prefix_absent_step(s: Seq<Entry>, c: u128, k: int, i: int)
    requires
        0 <= k <= i <= s.len(),
        forall|q: int| k <= q < i ==> (#[trigger] s[q]).0 != c,
    ensures
        weight_from(s, c, k) == weight_from(s, c, i),
    decreases i - k,
{
    if k < i {
        lemma_weight_prefix_absent_step(s, c, k + 1, i);
    }
}

/// A code that never occurs from `i` on contributes nothing there.
proof fn lemma_weight_absent(s: Seq<Entry>, c: u128, i: int)
    requires
        0 <= i,
        forall|k: int| i <= k < s.len() ==> (#[trigger] s[k]).0 != c,
    ensures
        weight_from(s, c, i) == 0,
    decreases s.len() - i,
{
    if i < s.len() {
        lemma_weight_absent(s, c, i + 1);
    }
}

proof fn lemma_weight_concat_tail(a: Seq<Entry>, b: Seq<Entry>, c: u128, j: int)
    requires
        0 <= j <= b.len(),
    ensures
        weight_from(a + b, c, a.len() + j) == weight_from(b, c, j),
    decreases b.len() - j,
{
    if j < b.len() {
        assert((a + b)[a.len() + j] == b[j]);
        lemma_weight_concat_tail(a, b, c, j + 1);
    }
}

proof fn lemma_weight_concat_from(a: Seq<Entry>, b: Seq<Entry>, c: u128, i: int)
    requires
        0 <= i <= a.len(),
    ensures
        weight_from(a + b, c, i) == weight_from(a, c, i) + weight_of(b, c),
    decreases a.len() - i,
{
    if i < a.len() {
        assert((a + b)[i] == a[i]);
        lemma_weight_concat_from(a, b, c, i + 1);
    } else {
        lemma_weight_concat_tail(a, b, c, 0);
    }
}

/// A code's total over a concatenation splits over the parts.
pub proof fn lemma_weight_concat(a: Seq<Entry>, b: Seq<Entry>, c: u128)
    ensures
        weight_of(a + b, c) == weight_of(a, c) + weight_of(b, c),
{
    lemma_weight_concat_from(a, b, c, 0);
}

/// In a strictly sorted entry list, a stored code's total is its own
/// stored weight.
pub proof fn lemma_sorted_weight(s: Seq<Entry>, i: int)
    requires
        codes_sorted_strict(s),
        0 <= i < s.len(),
    ensures
        weight_of(s, s[i].0) == s[i].1 as nat,
{
    let c = s[i].0;
    assert forall|k: int| 0 <= k < i implies (#[trigger] s[k]).0 != c by {
        assert(s[k].0 < s[i].0);
    }
    assert forall|k: int| i < k < s.len() implies (#[trigger] s[k]).0 != c by {
        assert(s[i].0 < s[k].0);
    }
    lemma_weight_prefix_absent(s, c, i);
    lemma_weight_absent(s, c, i + 1);
}

/// Equal clipped totals stay equal under a common addition.
pub proof fn lemma_clip32_shift(x: nat, y: nat, s: nat)
    requires
        clip32(x) == clip32(y),
    ensures
        clip32((x + s) as nat) == clip32((y + s) as nat),
{
}

/// The accumulator: committed entries are strictly sorted by code and
/// merged; pending entries wait for the next flush.
pub struct AOBucket {
    pub codes: Vec<u128>,
    pub weights: Vec<u32>,
    pub pend_codes: Vec<u128>,
    pub pend_w: Vec<u32>,
    pub saturations: u64,
}

impl AOBucket {
    /// Committed and pending entries, in that order.
    pub open spec fn all_entries(self) -> Seq<Entry> {
        entries_of(self.codes@, self.weights@) + entries_of(self.pend_codes@, self.pend_w@)
    }

    pub open spec fn wf(self) -> bool {
        &&& self.codes@.len() == self.weights@.len()
        &&& self.pend_codes@.len() == self.pend_w@.len()
        &&& codes_sorted_strict(entries_of(self.codes@, self.weights@))
    }

    pub fn new() -> (b: AOBucket)
        ensures
            b.wf(),
            b.all_entries() == Seq::<Entry>::empty(),
            b.saturations == 0,
            b.pend_codes@.len() == 0,
    {
        let b = AOBucket {
            codes: Vec::new(),
            weights: Vec::new(),
            pend_codes: Vec::new(),
            pend_w: Vec::new(),
            saturations: 0,
        };
        proof {
            assert(b.all_entries() =~= Seq::<Entry>::empty());
        }
        b
    }

    /// Fold the pending batch into the committed entries: sort by code,
    /// merge equal codes by summing weights, clamp each sum at the
    /// weight type's maximum (counting every clamp).
    #[verifier::rlimit(60)]
    #[verifier::spinoff_prover]
    pub fn flush(&mut self)
        requires
            old(self).wf(),
        ensures
            final(self).wf(),
            final(self).pend_codes@.len() == 0,
            final(self).pend_w@.len() == 0,
            final(self).saturations >= old(self).saturations,
            forall|c: u128|
                contains_code(final(self).all_entries(), c) <==> contains_code(
                    old(self).all_entries(),
                    c,
                ),
            forall|c: u128|
                #![trigger weight_of(final(self).all_entries(), c)]
                weight_of(final(self).all_entries(), c) == clip32(
                    weight_of(old(self).all_entries(), c),
                ),
            (forall|c: u128| weight_of(old(self).all_entries(), c) <= 0xffff_ffff)
                ==> final(self).saturations == old(self).saturations,
            (old(self).saturations < 0xffff_ffff_ffff_ffff && exists|c: u128|
                weight_of(old(self).all_entries(), c) > 0xffff_ffff) ==> final(self).saturations
                > old(self).saturations,
            final(self).codes@.len() <= old(self).codes@.len() + old(self).pend_codes@.len(),
    {
        let ghost orig = self.all_entries();
        if self.pend_codes.len() == 0 {
            proof {
                assert(self.all_entries() =~= entries_of(self.codes@, self.weights@));
                let com = self.all_entries();
                assert forall|c: u128|
                    weight_of(com, c) == clip32(weight_of(com, c)) by {
                    if contains_code(com, c) {
                        let i = choose|i: int| 0 <= i < com.len() && com[i].0 == c;
                        assert forall|k: int| i < k < com.len() implies (#[trigger] com[k]).0
                            != c by {
                            assert(com[i].0 < com[k].0);
                        }
                        assert forall|k: int| 0 <= k < i implies (#[trigger] com[k]).0 != c by {
                            assert(com[k].0 < com[i].0);
                        }
                        lemma_weight_prefix_absent(com, c, i);
                        lemma_weight_absent(com, c, i + 1);
                        assert(weight_of(com, c) == com[i].1 as nat);
                    } else {
                        assert(forall|k: int|
                            0 <= k < com.len() ==> (#[trigger] com[k]).0 != c);
                        lemma_weight_absent(com, c, 0);
                    }
                }
            }
            return ;
        }
        // gather committed and pending entries into one list
        let mut all: Vec<(u128, u32)> = Vec::new();
        let mut i: usize = 0;
        while i < self.codes.len()
            invariant
                old(self) == self,
                self.codes@.len() == self.weights@.len(),
                i <= self.codes@.len(),
                all@.len() == i,
                forall|k: int|
                    0 <= k < i ==> #[trigger] all@[k] == (self.codes@[k], self.weights@[k]),
            decreases self.codes@.len() - i,
        {
            all.push((self.codes[i], self.weights[i]));
            i = i + 1;
        }
        let mut j: usize = 0;
        while j < self.pend_codes.len()
            invariant
                old(self) == self,
                self.codes@.len() == self.weights@.len(),
                self.pend_codes@.len() == self.pend_w@.len(),
                j <= self.pend_codes@.len(),
                all@.len() == self.codes@.len() + j,
                forall|k: int|
                    0 <= k < self.codes@.len() ==> #[trigger] all@[k] == (
                        self.codes@[k],
                        self.weights@[k],
                    ),
                forall|k: int|
                    0 <= k < j ==> #[trigger] all@[self.codes@.len() + k] == (
                        self.pend_codes@[k],
                        self.pend_w@[k],
                    ),
            decreases self.pend_codes@.len() - j,
        {
            all.push((self.pend_codes[j], self.pend_w[j]));
            j = j + 1;
        }
        proof {
            assert forall|t: int| 0 <= t < all@.len() implies all@[t] == orig[t] by {
                if t >= self.codes@.len() {
                    let k2 = t - self.codes@.len();
                    assert(all@[self.codes@.len() + k2] == (
                        self.pend_codes@[k2],
                        self.pend_w@[k2],
                    ));
                }
            }
            assert(all@ =~= orig);
        }
        // sort by code
        let mut srt: Vec<(u128, u32)> = Vec::new();
        let mut i2: usize = 0;
        proof {
            assert(all@.take(0) =~= Seq::<Entry>::empty());
            assert forall|c: u128| weight_of(srt@, c) == weight_of(all@.take(0), c) by {
                lemma_weight_absent(srt@, c, 0);
                lemma_weight_absent(all@.take(0), c, 0);
            }
        }
        while i2 < all.len()
            invariant
                i2 <= all@.len(),
                srt@.len() == i2,
                codes_sorted_nondec(srt@),
                forall|c: u128|
                    #![trigger weight_of(srt@, c)]
                    weight_of(srt@, c) == weight_of(all@.take(i2 as int), c),
                forall|c: u128|
                    contains_code(srt@, c) <==> contains_code(all@.take(i2 as int), c),
            decreases all@.len() - i2,
        {
            let e = all[i2];
            let mut pos: usize = 0;
            while pos < srt.len() && srt[pos].0 <= e.0
                invariant
                    pos <= srt@.len(),
                    forall|q: int| 0 <= q < pos ==> (#[trigger] srt@[q]).0 <= e.0,
                    codes_sorted_nondec(srt@),
                decreases srt@.len() - pos,
            {
                pos = pos + 1;
            }
            proof {
                assert forall|q: int| pos <= q < srt@.len() implies (#[trigger] srt@[q]).0
                    > e.0 by {
                    assert(srt@[pos as int].0 <= srt@[q].0);
                }
            }
            let ghost psrt = srt@;
            srt.insert(pos, e);
            proof {
                assert(srt@ == psrt.insert(pos as int, e));
                assert forall|a: int, b: int| 0 <= a <= b < srt@.len() implies (
                #[trigger] srt@[a]).0 <= (#[trigger] srt@[b]).0 by {
                    assert(srt@ == psrt.insert(pos as int, e));
                }
                assert(all@.take(i2 as int + 1) =~= all@.take(i2 as int).push(e));
                assert forall|c: u128|
                    #![trigger weight_of(srt@, c)]
                    weight_of(srt@, c) == weight_of(all@.take(i2 as int + 1), c) by {
                    lemma_weight_insert(psrt, e, c, pos as int);
                    lemma_weight_push(all@.take(i2 as int), e, c, 0);
                }
                assert forall|c: u128|
                    contains_code(srt@, c) <==> contains_code(
                        all@.take(i2 as int + 1),
                        c,
                    ) by {
                    if contains_code(srt@, c) {
                        let q = choose|q: int| 0 <= q < srt@.len() && (#[trigger] srt@[q]).0 == c;
                        if q == pos {
                            assert(all@.take(i2 as int + 1)[i2 as int].0 == c);
                        } else {
                            let q2: int = if q < pos {
                                q
                            } else {
                                q - 1
                            };
                            assert(psrt[q2].0 == c);
                            assert(contains_code(psrt, c));
                            let w = choose|w: int|
                                0 <= w < all@.take(i2 as int).len() && (#[trigger] all@.take(
                                    i2 as int,
                                )[w]).0 == c;
                            assert(all@.take(i2 as int + 1)[w].0 == c);
                        }
                    }
                    if contains_code(all@.take(i2 as int + 1), c) {
                        let w = choose|w: int|
                            0 <= w < all@.take(i2 as int + 1).len() && (#[trigger] all@.take(
                                i2 as int + 1,
                            )[w]).0 == c;
                        if w == i2 {
                            assert(srt@[pos as int].0 == c);
                        } else {
                            assert(all@.take(i2 as int)[w].0 == c);
                            assert(contains_code(psrt, c));
                            let q = choose|q: int|
                                0 <= q < psrt.len() && (#[trigger] psrt[q]).0 == c;
                            if q < pos {
                                assert(srt@[q].0 == c);
                            } else {
                                assert(srt@[q + 1].0 == c);
                            }
                        }
                    }
                }
            }
            i2 = i2 + 1;
        }
        proof {
            assert(all@.take(all@.len() as int) =~= all@);
        }
        // merge equal-code runs
        let mut new_codes: Vec<u128> = Vec::new();
        let mut new_w: Vec<u32> = Vec::new();
        let mut sat: u64 = self.saturations;
        let mut k: usize = 0;
        proof {
            assert(entries_of(new_codes@, new_w@) =~= Seq::<Entry>::empty());
        }
        while k < srt.len()
            invariant
                k <= srt@.len(),
                codes_sorted_nondec(srt@),
                forall|c: u128|
                    #![trigger weight_of(srt@, c)]
                    weight_of(srt@, c) == weight_of(orig, c),
                forall|c: u128| contains_code(srt@, c) <==> contains_code(orig, c),
                new_codes@.len() == new_w@.len(),
                codes_sorted_strict(entries_of(new_codes@, new_w@)),
                forall|c: u128|
                    contains_code(entries_of(new_codes@, new_w@), c) <==> contains_code(
                        srt@.take(k as int),
                        c,
                    ),
                forall|q: int|
                    0 <= q < new_codes@.len() && k < srt@.len() ==> (#[trigger] new_codes@[q])
                        < srt@[k as int].0,
                forall|c: u128|
                    #![trigger weight_of(entries_of(new_codes@, new_w@), c)]
                    contains_code(entries_of(new_codes@, new_w@), c) ==> weight_of(
                        entries_of(new_codes@, new_w@),
                        c,
                    ) == clip32(weight_of(srt@, c)),
                sat >= old(self).saturations,
                (forall|c: u128| weight_of(srt@, c) <= 0xffff_ffff) ==> sat == old(
                    self,
                ).saturations,
                new_codes@.len() <= k,
                forall|c: u128|
                    contains_code(srt@.take(k as int), c) && #[trigger] weight_of(srt@, c)
                        > 0xffff_ffff ==> (sat > old(self).saturations || old(self).saturations
                        == 0xffff_ffff_ffff_ffff),
            decreases srt@.len() - k,
        {
            let c0 = srt[k].0;
            let mut acc: u128 = 0;
            let mut r: usize = k;
            while r < srt.len() && srt[r].0 == c0
                invariant
                    k <= r <= srt@.len(),
                    acc + weight_from(srt@, c0, r as int) == weight_from(srt@, c0, k as int),
                    acc <= 0xffff_ffff * ((r - k) as int),
                    forall|q: int| k <= q < r ==> (#[trigger] srt@[q]).0 == c0,
                decreases srt@.len() - r,
            {
                acc = acc + srt[r].1 as u128;
                r = r + 1;
            }
            proof {
                assert forall|q: int| r <= q < srt@.len() implies (#[trigger] srt@[q]).0
                    != c0 by {
                    assert(srt@[k as int].0 <= srt@[q].0);
                    if r < srt@.len() {
                        assert(srt@[r as int].0 <= srt@[q].0);
                    }
                }
                lemma_weight_absent(srt@, c0, r as int);
                assert(acc == weight_from(srt@, c0, k as int));
                assert forall|q: int| 0 <= q < k implies (#[trigger] srt@[q]).0 != c0 by {
                    assert(contains_code(srt@.take(k as int), srt@[q].0)) by {
                        assert(srt@.take(k as int)[q].0 == srt@[q].0);
                    }
                    assert(contains_code(entries_of(new_codes@, new_w@), srt@[q].0));
                    let w = choose|w: int|
                        0 <= w < new_codes@.len() && (#[trigger] entries_of(new_codes@, new_w@)[w]).0
                            == srt@[q].0;
                    assert(new_codes@[w] < c0);
                }
                lemma_weight_prefix_absent(srt@, c0, k as int);
                assert(acc == weight_of(srt@, c0));
            }
            let w: u32 = if acc > 0xffff_ffff {
                if sat < 0xffff_ffff_ffff_ffff {
                    sat = sat + 1;
                }
                0xffff_ffffu32
            } else {
                acc as u32
            };
            let ghost pentries = entries_of(new_codes@, new_w@);
            let ghost pre_k = k as int;
            new_codes.push(c0);
            new_w.push(w);
            proof {
                assert forall|c: u128|
                    contains_code(srt@.take(r as int), c) && #[trigger] weight_of(srt@, c)
                        > 0xffff_ffff implies (sat > old(self).saturations || old(self).saturations
                        == 0xffff_ffff_ffff_ffff) by {
                    if !contains_code(srt@.take(pre_k), c) {
                        let w2 = choose|w2: int|
                            0 <= w2 < srt@.take(r as int).len() && srt@.take(r as int)[w2].0 == c;
                        assert(srt@[w2].0 == c);
                        assert(c == c0) by {
                            if w2 < pre_k {
                                assert(srt@.take(pre_k)[w2].0 == c);
                            }
                        }
                        assert(acc > 0xffff_ffff);
                    }
                }
                assert(entries_of(new_codes@, new_w@) =~= pentries.push((c0, w)));
                assert forall|c: u128|
                    contains_code(entries_of(new_codes@, new_w@), c) <==> contains_code(
                        srt@.take(r as int),
                        c,
                    ) by {
                    let cur = entries_of(new_codes@, new_w@);
                    if contains_code(cur, c) {
                        let q = choose|q: int| 0 <= q < cur.len() && (#[trigger] cur[q]).0 == c;
                        if q == cur.len() - 1 {
                            assert(srt@.take(r as int)[k as int].0 == c0);
                        } else {
                            assert(pentries[q].0 == c);
                            assert(contains_code(pentries, c));
                            let w2 = choose|w2: int|
                                0 <= w2 < srt@.take(k as int).len() && (#[trigger] srt@.take(
                                    k as int,
                                )[w2]).0 == c;
                            assert(srt@.take(r as int)[w2].0 == c);
                        }
                    }
                    if contains_code(srt@.take(r as int), c) {
                        let w2 = choose|w2: int|
                            0 <= w2 < srt@.take(r as int).len() && (#[trigger] srt@.take(
                                r as int,
                            )[w2]).0 == c;
                        if w2 < k {
                            assert(srt@.take(k as int)[w2].0 == c);
                            assert(contains_code(pentries, c));
                            let q = choose|q: int|
                                0 <= q < pentries.len() && (#[trigger] pentries[q]).0 == c;
                            assert(cur[q].0 == c);
                        } else {
                            assert(srt@[w2].0 == c0);
                            assert(cur[cur.len() - 1].0 == c0);
                        }
                    }
                }
                assert forall|c: u128|
                    #![trigger weight_of(entries_of(new_codes@, new_w@), c)]
                    contains_code(entries_of(new_codes@, new_w@), c) implies weight_of(
                    entries_of(new_codes@, new_w@),
                    c,
                ) == clip32(weight_of(srt@, c)) by {
                    lemma_weight_push(pentries, (c0, w), c, 0);
                    assert(entries_of(new_codes@, new_w@) == pentries.push((c0, w)));
                    assert(weight_of(entries_of(new_codes@, new_w@), c) == weight_of(pentries, c)
                        + (if c == c0 {
                        w as nat
                    } else {
                        0
                    }));
                    if c != c0 {
                        assert(contains_code(pentries, c)) by {
                            let cur = entries_of(new_codes@, new_w@);
                            let q = choose|q: int|
                                0 <= q < cur.len() && (#[trigger] cur[q]).0 == c;
                            assert(pentries[q].0 == c);
                        }
                        assert(weight_of(pentries, c) == clip32(weight_of(srt@, c)));
                    } else {
                        assert(!contains_code(pentries, c0)) by {
                            if contains_code(pentries, c0) {
                                let q = choose|q: int|
                                    0 <= q < pentries.len() && (#[trigger] pentries[q]).0 == c0;
                                assert(new_codes@[q] < c0);
                            }
                        }
                        lemma_weight_absent(pentries, c0, 0);
                        assert(weight_of(pentries, c0) == 0);
                        assert(acc == weight_of(srt@, c0));
                        assert(w as nat == clip32(acc as nat));
                    }
                }
            }
            k = r;
        }
        proof {
            assert(srt@.take(srt@.len() as int) =~= srt@);
        }
        self.codes = new_codes;
        self.weights = new_w;
        self.pend_codes = Vec::new();
        self.pend_w = Vec::new();
        self.saturations = sat;
        proof {
            if old(self).saturations < 0xffff_ffff_ffff_ffff && exists|c: u128|
                weight_of(orig, c) > 0xffff_ffff {
                let c = choose|c: u128| weight_of(orig, c) > 0xffff_ffff;
                assert(weight_of(srt@, c) > 0xffff_ffff);
                assert(contains_code(srt@, c)) by {
                    if !contains_code(srt@, c) {
                        assert(forall|q: int|
                            0 <= q < srt@.len() ==> (#[trigger] srt@[q]).0 != c);
                        lemma_weight_absent(srt@, c, 0);
                    }
                }
                assert(contains_code(srt@.take(srt@.len() as int), c)) by {
                    let q = choose|q: int| 0 <= q < srt@.len() && srt@[q].0 == c;
                    assert(srt@.take(srt@.len() as int)[q].0 == c);
                }
                assert(sat > old(self).saturations);
            }
            assert(self.all_entries() =~= entries_of(self.codes@, self.weights@));
            assert forall|c: u128|
                #![trigger weight_of(self.all_entries(), c)]
                weight_of(self.all_entries(), c) == clip32(weight_of(orig, c)) by {
                let cur = self.all_entries();
                if contains_code(cur, c) {
                    assert(contains_code(entries_of(self.codes@, self.weights@), c)) by {
                        let q = choose|q: int| 0 <= q < cur.len() && cur[q].0 == c;
                        assert(entries_of(self.codes@, self.weights@)[q].0 == c);
                    }
                    assert(weight_of(entries_of(self.codes@, self.weights@), c) == clip32(
                        weight_of(srt@, c),
                    ));
                    assert(weight_of(srt@, c) == weight_of(orig, c));
                } else {
                    assert(forall|q: int| 0 <= q < cur.len() ==> (#[trigger] cur[q]).0 != c);
                    lemma_weight_absent(cur, c, 0);
                    assert(!contains_code(srt@, c));
                    assert(forall|q: int| 0 <= q < srt@.len() ==> (#[trigger] srt@[q]).0 != c);
                    lemma_weight_absent(srt@, c, 0);
                }
            }
        }
    }

    /// Queue a batch of (code, weight) pairs; flush once the pending
    /// buffer reaches `pend_flush` entries.
    pub fn append_batch(&mut self, codes: Vec<u128>, w: Vec<u32>, pend_flush: usize)
        requires
            old(self).wf(),
            codes@.len() == w@.len(),
        ensures
            final(self).wf(),
            final(self).saturations >= old(self).saturations,
            forall|c: u128|
                contains_code(final(self).all_entries(), c) <==> contains_code(
                    old(self).all_entries() + entries_of(codes@, w@),
                    c,
                ),
            forall|c: u128|
                #![trigger weight_of(final(self).all_entries(), c)]
                clip32(weight_of(final(self).all_entries(), c)) == clip32(
                    weight_of(old(self).all_entries() + entries_of(codes@, w@), c),
                ),
            (forall|c: u128|
                weight_of(old(self).all_entries() + entries_of(codes@, w@), c) <= 0xffff_ffff)
                ==> (final(self).saturations == old(self).saturations && forall|c: u128|
                #![trigger weight_of(final(self).all_entries(), c)]
                weight_of(final(self).all_entries(), c) == weight_of(
                    old(self).all_entries() + entries_of(codes@, w@),
                    c,
                )),
            codes@.len() == 0 ==> *final(self) == *old(self),
            final(self).pend_codes@.len() == (if codes@.len() > 0 && old(self).pend_codes@.len()
                + codes@.len() >= pend_flush {
                0int
            } else {
                (old(self).pend_codes@.len() + codes@.len()) as int
            }),
    {
        let ghost target = old(self).all_entries() + entries_of(codes@, w@);
        if codes.len() == 0 {
            proof {
                assert(self.all_entries() =~= target);
            }
            return ;
        }
        let n = codes.len();
        let mut i: usize = 0;
        while i < n
            invariant
                i <= n,
                n == codes@.len(),
                codes@.len() == w@.len(),
                self.codes@ == old(self).codes@,
                self.weights@ == old(self).weights@,
                self.saturations == old(self).saturations,
                self.pend_codes@ == old(self).pend_codes@ + codes@.take(i as int),
                self.pend_w@ == old(self).pend_w@ + w@.take(i as int),
                old(self).wf(),
            decreases n - i,
        {
            self.pend_codes.push(codes[i]);
            self.pend_w.push(w[i]);
            proof {
                assert(codes@.take(i + 1) =~= codes@.take(i as int).push(codes@[i as int]));
                assert(w@.take(i + 1) =~= w@.take(i as int).push(w@[i as int]));
                assert(self.pend_codes@ =~= old(self).pend_codes@ + codes@.take(i + 1));
                assert(self.pend_w@ =~= old(self).pend_w@ + w@.take(i + 1));
            }
            i = i + 1;
        }
        proof {
            assert(codes@.take(n as int) =~= codes@);
            assert(w@.take(n as int) =~= w@);
            assert(self.all_entries() =~= target);
        }
        if self.pend_codes.len() >= pend_flush {
            self.flush();
        }
    }
}

} // verus!
