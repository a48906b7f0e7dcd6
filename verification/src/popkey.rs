//! Packed population keys: a 64-bit word with a 4-bit length prefix
//! followed by one 4-bit digit per population, sorted ascending.

use vstd::prelude::*;

use crate::bits::lemma_mask64;

use crate::sorting::{sort_pops, sort_u8, lemma_sort_pops_props};

verus! {

/// The digits of `s` packed from index `i` on, low to high.
pub open spec fn pack_fields(s: Seq<u8>, i: int) -> u64
    decreases s.len() - i,
{
    if i < 0 || i >= s.len() {
        0
    } else {
        (((s[i] as u64) & 0xf) << ((4 + 4 * i) as u64)) | pack_fields(s, i + 1)
    }
}

/// The packed key of a (sorted) population list.
pub open spec fn pack_key_spec(s: Seq<u8>) -> u64 {
    ((s.len() as u64) & 0xf) | pack_fields(s, 0)
}

/// Digit `q` of a packed key.
pub open spec fn key_digit(key: u64, q: int) -> u8 {
    ((key >> ((4 + 4 * q) as u64)) & 0xf) as u8
}

pub open spec fn key_len(key: u64) -> nat {
    (key & 0xf) as nat
}

#[verifier::rlimit(60)]
proof fn lemma_or64_field_value(rest: u64, v: u64, si: u64)
    by (bit_vector)
    requires
        rest << ((64 - (si + 4)) as u64) == 0,
        v <= 0xf,
        si < 60,
    ensures
        ((rest | (v << si)) >> si) & 0xf == v,
{
}

#[verifier::rlimit(60)]
proof fn lemma_or64_read_above(e: u64, v: u64, si: u64, sj: u64)
    by (bit_vector)
    requires
        v <= 0xf,
        si + 4 <= sj,
        sj < 60,
        si < 60,
    ensures
        ((e | (v << si)) >> sj) & 0xf == (e >> sj) & 0xf,
{
}

#[verifier::rlimit(60)]
proof fn lemma_or64_low_zero(rest: u64, v: u64, si: u64)
    by (bit_vector)
    requires
        rest << ((64 - (si + 4)) as u64) == 0,
        v <= 0xf,
        si < 60,
    ensures
        (rest | (v << si)) << ((64 - si) as u64) == 0,
{
}

/// The packed fields decode digit-wise back to the list.
proof fn lemma_pack_fields(s: Seq<u8>, i: int)
    requires
        s.len() <= 10,
        0 <= i <= s.len(),
    ensures
        pack_fields(s, i) << ((64 - (4 + 4 * i)) as u64) == 0,
        forall|q: int|
            i <= q < s.len() ==> ((pack_fields(s, i) >> ((4 + 4 * q) as u64)) & 0xf) == (
            #[trigger] s[q] as u64) & 0xf,
    decreases s.len() - i,
{
    if i == s.len() {
        let t: u64 = (64 - (4 + 4 * i)) as u64;
        lemma_mask64(0, t, 0);
    } else {
        lemma_pack_fields(s, i + 1);
        let rest = pack_fields(s, i + 1);
        let raw: u64 = s[i] as u64;
        let v: u64 = raw & 0xf;
        let si: u64 = (4 + 4 * i) as u64;
        lemma_mask64(raw, 0, 0);
        lemma_mask64(v << si, rest, 0);
        lemma_or64_low_zero(rest, v, si);
        lemma_or64_field_value(rest, v, si);
        assert forall|q: int|
            i + 1 <= q < s.len() implies ((pack_fields(s, i) >> ((4 + 4 * q) as u64)) & 0xf) == (
        #[trigger] s[q] as u64) & 0xf by {
            let sq: u64 = (4 + 4 * q) as u64;
            lemma_or64_read_above(rest, v, si, sq);
        }
    }
}

/// A packed key reads back as its length and digits.
pub proof fn lemma_pack_key(s: Seq<u8>)
    requires
        s.len() <= 10,
        forall|q: int| 0 <= q < s.len() ==> #[trigger] s[q] <= 15,
    ensures
        key_len(pack_key_spec(s)) == s.len(),
        forall|q: int| 0 <= q < s.len() ==> #[trigger] key_digit(pack_key_spec(s), q) == s[q],
{
    lemma_pack_fields(s, 0);
    let ef = pack_fields(s, 0);
    let kl: u64 = s.len() as u64;
    let k: u64 = kl & 0xf;
    lemma_mask64(kl, 0, ef);
    assert(k == kl);
    assert((k | ef) & 0xf == k) by {
        lemma_mask64(k, 0, ef);
    }
    assert forall|q: int|
        0 <= q < s.len() implies #[trigger] key_digit(pack_key_spec(s), q) == s[q] by {
        let sq: u64 = (4 + 4 * q) as u64;
        lemma_or64_read_above(ef, k, 0, sq);
        assert((ef >> sq) & 0xf == (s[q] as u64) & 0xf);
        assert((k | ef) == (ef | (k << 0u64))) by {
            lemma_mask64(k, ef, 0);
        }
        let raw: u64 = s[q] as u64;
        assert(raw & 0xf == raw) by {
            lemma_mask64(raw, 0, 0);
        }
    }
}

/// Two digit lists with the same packed key are the same list.
pub proof fn lemma_pack_key_injective(s1: Seq<u8>, s2: Seq<u8>)
    requires
        s1.len() <= 10,
        s2.len() <= 10,
        forall|q: int| 0 <= q < s1.len() ==> #[trigger] s1[q] <= 15,
        forall|q: int| 0 <= q < s2.len() ==> #[trigger] s2[q] <= 15,
        pack_key_spec(s1) == pack_key_spec(s2),
    ensures
        s1 == s2,
{
    lemma_pack_key(s1);
    lemma_pack_key(s2);
    assert(s1.len() == s2.len());
    assert forall|q: int| 0 <= q < s1.len() implies s1[q] == s2[q] by {
        assert(key_digit(pack_key_spec(s1), q) == s1[q]);
        assert(key_digit(pack_key_spec(s2), q) == s2[q]);
    }
    assert(s1 =~= s2);
}

/// Pack a population list into its key: digits sorted ascending after
/// a 4-bit length prefix.
pub fn pack_pop_key(pops: &Vec<u8>) -> (key: u64)
    requires
        pops@.len() <= 10,
    ensures
        key == pack_key_spec(sort_pops(pops@)),
{
    let sorted = sort_u8(pops);
    proof {
        lemma_sort_pops_props(pops@);
    }
    let k = sorted.len();
    let mut key: u64 = (k as u64) & 0xf;
    let mut i: usize = 0;
    while i < k
        invariant
            i <= k,
            k == sorted@.len() <= 10,
            key | pack_fields(sorted@, i as int) == pack_key_spec(sorted@),
        decreases k - i,
    {
        let shift: u32 = 4 + 4 * (i as u32);
        let f: u64 = ((sorted[i] as u64) & 0xf) << shift;
        proof {
            let rest = pack_fields(sorted@, i as int + 1);
            lemma_mask64(key, f, rest);
            assert(pack_fields(sorted@, i as int) == f | rest);
        }
        key = key | f;
        i = i + 1;
    }
    proof {
        lemma_mask64(key, 0, 0);
    }
    key
}

/// Unpack a key's digits, ascending.
pub fn decode_pop_key(key: u64) -> (v: Vec<i32>)
    ensures
        v@.len() == key_len(key),
        forall|q: int| 0 <= q < v@.len() ==> #[trigger] v@[q] == key_digit(key, q) as i32,
{
    proof {
        lemma_mask64(key, 0, 0);
    }
    let k = (key & 0xf) as u32;
    let mut v: Vec<i32> = Vec::new();
    let mut i: u32 = 0;
    while i < k
        invariant
            i <= k <= 15,
            k == key_len(key),
            v@.len() == i,
            forall|q: int| 0 <= q < i ==> #[trigger] v@[q] == key_digit(key, q) as i32,
        decreases k - i,
    {
        let shift: u32 = 4 + 4 * i;
        proof {
            lemma_mask64(key >> shift, 0, 0);
        }
        let d = ((key >> shift) & 0xf) as u32;
        v.push(d as i32);
        i = i + 1;
    }
    v
}

} // verus!
