//! Small sorting helpers used for key normalisation.

use vstd::prelude::*;

verus! {

broadcast use vstd::seq_lib::to_multiset_insert, vstd::seq_lib::to_multiset_build, vstd::seq_lib::to_multiset_len;

/// The ascending rearrangement of a list of populations.
pub open spec fn sort_pops(s: Seq<u8>) -> Seq<u8> {
    s.sort_by(|a: u8, b: u8| a <= b)
}

pub proof fn lemma_sort_pops_props(s: Seq<u8>)
    ensures
        sort_pops(s).to_multiset() == s.to_multiset(),
        sort_pops(s).len() == s.len(),
        forall|i: int, j: int|
            0 <= i <= j < sort_pops(s).len() ==> sort_pops(s)[i] <= sort_pops(s)[j],
{
    let leq = |a: u8, b: u8| a <= b;
    assert(vstd::relations::total_ordering(leq));
    s.lemma_sort_by_ensures(leq);
    vstd::seq_lib::to_multiset_len::<u8>(s);
    vstd::seq_lib::to_multiset_len::<u8>(sort_pops(s));
    assert(s.to_multiset() =~= sort_pops(s).to_multiset());
    assert forall|i: int, j: int|
        0 <= i <= j < sort_pops(s).len() implies sort_pops(s)[i] <= sort_pops(s)[j] by {
        if i < j {
            assert(vstd::relations::sorted_by(sort_pops(s), leq));
            assert(leq(sort_pops(s)[i], sort_pops(s)[j]));
        }
    }
}

/// Sort a short list of populations ascending.
pub fn sort_u8(v: &Vec<u8>) -> (r: Vec<u8>)
    ensures
        r@ == sort_pops(v@),
{
    let mut r: Vec<u8> = Vec::new();
    let mut i: usize = 0;
    proof {
        assert(v@.take(0) =~= Seq::<u8>::empty());
        assert(Seq::<u8>::empty().to_multiset() =~= r@.to_multiset());
    }
    while i < v.len()
        invariant
            i <= v@.len(),
            forall|a: int, b: int| 0 <= a <= b < r@.len() ==> r@[a] <= r@[b],
            r@.to_multiset() == v@.take(i as int).to_multiset(),
            r@.len() == i,
        decreases v@.len() - i,
    {
        let x = v[i];
        let mut pos: usize = 0;
        while pos < r.len() && r[pos] <= x
            invariant
                pos <= r@.len(),
                forall|q: int| 0 <= q < pos ==> r@[q] <= x,
                forall|a: int, b: int| 0 <= a <= b < r@.len() ==> r@[a] <= r@[b],
            decreases r@.len() - pos,
        {
            pos = pos + 1;
        }
        proof {
            assert forall|q: int| pos <= q < r@.len() implies r@[q] > x by {
                assert(r@[pos as int] <= r@[q]);
            }
            assert(v@.take(i as int + 1) =~= v@.take(i as int).push(v@[i as int]));
        }
        let ghost old_r = r@;
        r.insert(pos, x);
        proof {
            assert(r@ == old_r.insert(pos as int, x));
            assert((old_r.insert(pos as int, x)).to_multiset() =~= old_r.to_multiset().insert(x));
            assert((v@.take(i as int).push(x)).to_multiset() =~= v@.take(
                i as int,
            ).to_multiset().insert(x));
            assert(v@.take(i as int + 1).to_multiset() =~= v@.take(
                i as int,
            ).to_multiset().insert(x));
            assert forall|a: int, b: int| 0 <= a <= b < r@.len() implies r@[a] <= r@[b] by {
                assert(r@ == old_r.insert(pos as int, x));
            }
        }
        i = i + 1;
    }
    proof {
        assert(v@.take(v@.len() as int) =~= v@);
        lemma_sort_pops_props(v@);
        let leq = |a: u8, b: u8| a <= b;
        assert(vstd::relations::total_ordering(leq));
        assert(vstd::relations::sorted_by(r@, leq));
        assert(vstd::relations::sorted_by(sort_pops(v@), leq)) by {
            v@.lemma_sort_by_ensures(leq);
        }
        vstd::seq_lib::lemma_sorted_unique(r@, sort_pops(v@), leq);
        assert(r@ == sort_pops(v@));
    }
    r
}

pub open spec fn sorted_nondec(s: Seq<i32>) -> bool {
    forall|i: int, j: int| 0 <= i <= j < s.len() ==> s[i] <= s[j]
}

/// The ascending rearrangement of a key.
pub open spec fn sort_key_spec(s: Seq<i32>) -> Seq<i32> {
    s.sort_by(|a: i32, b: i32| a <= b)
}

pub proof fn lemma_sort_key_props(s: Seq<i32>)
    ensures
        sort_key_spec(s).to_multiset() == s.to_multiset(),
        sort_key_spec(s).len() == s.len(),
        sorted_nondec(sort_key_spec(s)),
{
    let leq = |a: i32, b: i32| a <= b;
    assert(vstd::relations::total_ordering(leq));
    s.lemma_sort_by_ensures(leq);
    vstd::seq_lib::to_multiset_len::<i32>(s);
    vstd::seq_lib::to_multiset_len::<i32>(sort_key_spec(s));
    assert(s.to_multiset() =~= sort_key_spec(s).to_multiset());
    assert forall|i: int, j: int|
        0 <= i <= j < sort_key_spec(s).len() implies sort_key_spec(s)[i] <= sort_key_spec(
        s,
    )[j] by {
        if i < j {
            assert(vstd::relations::sorted_by(sort_key_spec(s), leq));
            assert(leq(sort_key_spec(s)[i], sort_key_spec(s)[j]));
        }
    }
}

/// Sort ascending, keeping multiplicities.
pub fn sort_i32(v: &Vec<i32>) -> (r: Vec<i32>)
    ensures
        r@ == sort_key_spec(v@),
        sorted_nondec(r@),
        r@.to_multiset() == v@.to_multiset(),
        r@.len() == v@.len(),
{
    let mut r: Vec<i32> = Vec::new();
    let mut i: usize = 0;
    proof {
        assert(v@.take(0) =~= Seq::<i32>::empty());
        assert(Seq::<i32>::empty().to_multiset() =~= r@.to_multiset());
    }
    while i < v.len()
        invariant
            i <= v@.len(),
            sorted_nondec(r@),
            r@.to_multiset() == v@.take(i as int).to_multiset(),
            r@.len() == i,
        decreases v@.len() - i,
    {
        let x = v[i];
        let mut pos: usize = 0;
        while pos < r.len() && r[pos] <= x
            invariant
                pos <= r@.len(),
                forall|q: int| 0 <= q < pos ==> r@[q] <= x,
                sorted_nondec(r@),
            decreases r@.len() - pos,
        {
            pos = pos + 1;
        }
        proof {
            assert forall|q: int| pos <= q < r@.len() implies r@[q] > x by {
                assert(r@[pos as int] <= r@[q]);
            }
            assert(v@.take(i as int + 1) =~= v@.take(i as int).push(v@[i as int]));
        }
        let ghost old_r = r@;
        r.insert(pos, x);
        proof {
            assert(r@ == old_r.insert(pos as int, x));
            assert((old_r.insert(pos as int, x)).to_multiset() =~= old_r.to_multiset().insert(x));
            assert((v@.take(i as int).push(x)).to_multiset() =~= v@.take(
                i as int,
            ).to_multiset().insert(x));
            assert(v@.take(i as int + 1).to_multiset() =~= v@.take(
                i as int,
            ).to_multiset().insert(x));
            assert forall|a: int, b: int| 0 <= a <= b < r@.len() implies r@[a] <= r@[b] by {
                assert(r@ == old_r.insert(pos as int, x));
            }
        }
        i = i + 1;
    }
    proof {
        assert(v@.take(v@.len() as int) =~= v@);
        lemma_sort_key_props(v@);
        let leq = |a: i32, b: i32| a <= b;
        assert(vstd::relations::total_ordering(leq));
        assert(vstd::relations::sorted_by(r@, leq));
        assert(vstd::relations::sorted_by(sort_key_spec(v@), leq)) by {
            v@.lemma_sort_by_ensures(leq);
        }
        vstd::seq_lib::lemma_sorted_unique(r@, sort_key_spec(v@), leq);
        assert(r@ == sort_key_spec(v@));
    }
    r
}

} // verus!
