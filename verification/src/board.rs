//! Bitboard topology over the left half of an N x N board.
//!
//! Cells are numbered `x * N + y`; a `u64` holds one bit per cell.
//! Flood fill expands a seed through 4-connected neighbours inside a
//! domain; the evil test peels the components of the uncovered region
//! and flags any enclosed component whose area is not a multiple of N.

use vstd::prelude::*;

use crate::bits::lemma_mask64;

verus! {

/// Count of ones among the low `k` bits.
pub open spec fn popb(m: u64, k: nat) -> nat
    decreases k,
{
    if k == 0 {
        0
    } else {
        ((m & 1) as nat) + popb(m >> 1, (k - 1) as nat)
    }
}

/// Population count of a 64-bit mask.
pub open spec fn pop64(m: u64) -> nat {
    popb(m, 64)
}

pub fn popcount64(m: u64) -> (n: u32)
    ensures
        n == pop64(m),
{
    let mut x = m;
    let mut i: u32 = 0;
    let mut n: u32 = 0;
    proof {
        assert(m >> 0u32 == m) by (bit_vector);
    }
    while i < 64
        invariant
            i <= 64,
            n <= i,
            x == m >> i,
            n + popb(x, (64 - i) as nat) == pop64(m),
        decreases 64 - i,
    {
        proof {
            assert((m >> i) >> 1 == m >> ((i + 1) as u32) && (m >> i) & 1 <= 1) by (bit_vector)
                requires
                    i < 64,
            ;
        }
        n = n + (x & 1) as u32;
        x = x >> 1;
        i = i + 1;
    }
    n
}

/// Mask of the `n * (n / 2)` cells of the left half.
pub open spec fn half_mask_spec(n: u32) -> u64 {
    (((1u128 << ((n * (n / 2)) as u128)) - 1) as u64)
}

pub fn left_half_mask(n: u32) -> (m: u64)
    requires
        n <= 10,
    ensures
        m == half_mask_spec(n),
{
    proof {
        assert(n * (n / 2) <= 50) by (nonlinear_arith)
            requires
                n <= 10,
        ;
        assert(1u128 << (n * (n / 2)) >= 1) by (bit_vector)
            requires
                n * (n / 2) <= 50,
        ;
    }
    ((1u128 << (n * (n / 2))) - 1) as u64
}

/// Mask of column `x`.
pub open spec fn col_mask_spec(n: u32, x: u32) -> u64 {
    ((((1u64 << n) - 1) as u64) << ((x * n) as u64))
}

pub fn col_mask(n: u32, x: u32) -> (m: u64)
    requires
        1 <= n <= 10,
        x < n / 2,
    ensures
        m == col_mask_spec(n, x),
{
    proof {
        assert(x * n <= 40) by (nonlinear_arith)
            requires
                x < n / 2 && n <= 10,
        ;
        assert(1u64 << n >= 1) by (bit_vector)
            requires
                n <= 10,
        ;
    }
    ((1u64 << n) - 1) << (x * n)
}

/// Cells on the top row (y = n - 1) of columns `0 .. x`.
pub open spec fn edge_top_rec(n: u32, x: int) -> u64
    decreases x,
{
    if x <= 0 {
        0
    } else {
        edge_top_rec(n, x - 1) | (1u64 << (((x - 1) * n + (n - 1)) as u64))
    }
}

/// Cells on the bottom row (y = 0) of columns `0 .. x`.
pub open spec fn edge_bot_rec(n: u32, x: int) -> u64
    decreases x,
{
    if x <= 0 {
        0
    } else {
        edge_bot_rec(n, x - 1) | (1u64 << (((x - 1) * n) as u64))
    }
}

/// Masks of the top and bottom rows of the left half's columns, which
/// stop vertical shifts from wrapping between columns. Only the half
/// board's columns are guarded: every domain the library fills is a
/// subset of the half mask, and a wrap out of its rightmost column
/// lands outside the half, where the domain has no cells.
pub fn edge_masks(n: u32) -> (r: (u64, u64))
    requires
        1 <= n <= 10,
    ensures
        r.0 == edge_top_rec(n, (n / 2) as int),
        r.1 == edge_bot_rec(n, (n / 2) as int),
{
    let mut top: u64 = 0;
    let mut bot: u64 = 0;
    let mut x: u32 = 0;
    while x < n / 2
        invariant
            1 <= n <= 10,
            x <= n / 2,
            top == edge_top_rec(n, x as int),
            bot == edge_bot_rec(n, x as int),
        decreases n / 2 - x,
    {
        proof {
            assert(x * n + (n - 1) <= 49) by (nonlinear_arith)
                requires
                    x < n / 2 && n <= 10,
            ;
        }
        top = top | (1u64 << (x * n + (n - 1)));
        bot = bot | (1u64 << (x * n));
        x = x + 1;
    }
    (top, bot)
}

/// One step of 4-connected expansion inside the board's bit layout.
pub open spec fn expand_spec(f: u64, top: u64, bot: u64, n: u32) -> u64 {
    ((f & !top) << 1) | ((f & !bot) >> 1) | (f >> n) | (f << n)
}

/// The flood-fill fixed point, reached from an accumulated component
/// and a frontier still to expand.
pub open spec fn ff_rec(comp: u64, frontier: u64, domain: u64, top: u64, bot: u64, n: u32) -> u64
    decreases 0xffff_ffff_ffff_ffffu64 - comp,
    via ff_rec_decreases
{
    if frontier & !comp == 0 {
        comp | frontier
    } else {
        ff_rec(
            comp | frontier,
            expand_spec(frontier, top, bot, n) & domain & !(comp | frontier),
            domain,
            top,
            bot,
            n,
        )
    }
}

#[via_fn]
proof fn ff_rec_decreases(comp: u64, frontier: u64, domain: u64, top: u64, bot: u64, n: u32) {
    lemma_mask64(frontier, comp, 0);
}

/// The component of `domain` reached from `seed`, expanding through
/// 4-connected steps guarded by the half board's edge masks; for
/// domains inside the half mask this is exactly 4-connected
/// reachability.
pub open spec fn ff_spec(seed: u64, domain: u64, n: u32) -> u64 {
    ff_rec(
        0,
        seed & domain,
        domain,
        edge_top_rec(n, (n / 2) as int),
        edge_bot_rec(n, (n / 2) as int),
        n,
    )
}

pub fn flood_fill(seed: u64, domain: u64, n: u32) -> (comp: u64)
    requires
        1 <= n <= 10,
    ensures
        comp == ff_spec(seed, domain, n),
{
    if seed == 0 {
        proof {
            lemma_ff_zero_seed(domain, n);
        }
        return 0;
    }
    let (top_mask, bot_mask) = edge_masks(n);
    let mut comp: u64 = 0;
    let mut frontier: u64 = seed & domain;
    proof {
        lemma_mask64(seed & domain, 0, 0);
    }
    while frontier != 0
        invariant
            1 <= n <= 10,
            top_mask == edge_top_rec(n, (n / 2) as int),
            bot_mask == edge_bot_rec(n, (n / 2) as int),
            frontier & comp == 0,
            ff_rec(comp, frontier, domain, top_mask, bot_mask, n) == ff_spec(seed, domain, n),
        decreases 0xffff_ffff_ffff_ffffu64 - comp,
    {
        proof {
            lemma_mask64(frontier, comp, 0);
            lemma_mask64(expand_spec(frontier, top_mask, bot_mask, n) & domain, comp | frontier, 0);
        }
        let nc = comp | frontier;
        let up = (frontier & !top_mask) << 1u32;
        let down = (frontier & !bot_mask) >> 1u32;
        let left = frontier >> n;
        let right = frontier << n;
        frontier = (up | down | left | right) & domain & !nc;
        comp = nc;
    }
    proof {
        assert(ff_rec(comp, 0, domain, top_mask, bot_mask, n) == comp) by {
            lemma_mask64(comp, 0, 0);
            lemma_mask64(0, comp, 0);
        }
    }
    comp
}

proof fn lemma_expand_zero(top: u64, bot: u64, n: u32)
    by (bit_vector)
    ensures
        expand_spec(0, top, bot, n) == 0,
{
}

proof fn lemma_expand_mono(f: u64, s: u64, top: u64, bot: u64, n: u32)
    by (bit_vector)
    requires
        f & !s == 0,
    ensures
        expand_spec(f, top, bot, n) & !expand_spec(s, top, bot, n) == 0,
{
}

proof fn lemma_expand_or(a: u64, b: u64, top: u64, bot: u64, n: u32)
    by (bit_vector)
    ensures
        expand_spec(a | b, top, bot, n) == expand_spec(a, top, bot, n) | expand_spec(
            b,
            top,
            bot,
            n,
        ),
{
}

/// The flood-fill fixed point contains what it started from, stays in
/// the domain, is closed under expansion inside the domain, and is the
/// least such set.
proof fn lemma_ff_rec_props(comp: u64, frontier: u64, domain: u64, top: u64, bot: u64, n: u32)
    requires
        comp & !domain == 0,
        frontier & !domain == 0,
        expand_spec(comp, top, bot, n) & domain & !(comp | frontier) == 0,
    ensures
        (comp | frontier) & !ff_rec(comp, frontier, domain, top, bot, n) == 0,
        ff_rec(comp, frontier, domain, top, bot, n) & !domain == 0,
        expand_spec(ff_rec(comp, frontier, domain, top, bot, n), top, bot, n) & domain & !ff_rec(
            comp,
            frontier,
            domain,
            top,
            bot,
            n,
        ) == 0,
        forall|s: u64|
            (comp | frontier) & !s == 0 && expand_spec(s, top, bot, n) & domain & !s == 0
                ==> ff_rec(comp, frontier, domain, top, bot, n) & !s == 0,
    decreases 0xffff_ffff_ffff_ffffu64 - comp,
{
    let r = ff_rec(comp, frontier, domain, top, bot, n);
    if frontier & !comp == 0 {
        assert(r == comp | frontier);
        lemma_mask64(frontier, comp, domain);
        lemma_mask64(comp, frontier, domain);
        lemma_mask64(comp | frontier, comp | frontier, 0);
    } else {
        let nc = comp | frontier;
        let nf = expand_spec(frontier, top, bot, n) & domain & !nc;
        lemma_mask64(frontier, comp, 0);
        lemma_expand_or(comp, frontier, top, bot, n);
        assert(nc & !domain == 0 && nf & !domain == 0 && expand_spec(nc, top, bot, n) & domain
            & !(nc | nf) == 0) by (bit_vector)
            requires
                comp & !domain == 0,
                frontier & !domain == 0,
                expand_spec(comp, top, bot, n) & domain & !nc == 0,
                nc == comp | frontier,
                nf == expand_spec(frontier, top, bot, n) & domain & !nc,
                expand_spec(nc, top, bot, n) == expand_spec(comp, top, bot, n) | expand_spec(
                    frontier,
                    top,
                    bot,
                    n,
                ),
        ;
        lemma_ff_rec_props(nc, nf, domain, top, bot, n);
        assert(r == ff_rec(nc, nf, domain, top, bot, n));
        assert((comp | frontier) & !r == 0) by {
            lemma_mask64(nc, nf, r);
        }
        assert forall|s: u64|
            (comp | frontier) & !s == 0 && expand_spec(s, top, bot, n) & domain & !s
                == 0 implies r & !s == 0 by {
            lemma_mask64(comp, frontier, s);
            lemma_expand_mono(frontier, s, top, bot, n);
            assert((nc | nf) & !s == 0) by (bit_vector)
                requires
                    nc == comp | frontier,
                    nc & !s == 0,
                    nf == expand_spec(frontier, top, bot, n) & domain & !nc,
                    expand_spec(frontier, top, bot, n) & !expand_spec(s, top, bot, n) == 0,
                    expand_spec(s, top, bot, n) & domain & !s == 0,
            ;
        }
    }
}

/// `flood_fill` on its own result adds nothing.
pub proof fn lemma_flood_fill_idempotent(seed: u64, domain: u64, n: u32)
    ensures
        ff_spec(ff_spec(seed, domain, n), domain, n) == ff_spec(seed, domain, n),
{
    let top = edge_top_rec(n, (n / 2) as int);
    let bot = edge_bot_rec(n, (n / 2) as int);
    lemma_expand_zero(top, bot, n);
    lemma_ff_seed_pre(seed, domain);
    lemma_ff_rec_props(0, seed & domain, domain, top, bot, n);
    let r = ff_spec(seed, domain, n);
    assert(r & domain == r) by {
        lemma_mask64(r, domain, 0);
    }
    lemma_ff_seed_pre(r, domain);
    lemma_ff_rec_props(0, r & domain, domain, top, bot, n);
    let r2 = ff_spec(r, domain, n);
    assert(0u64 | (r & domain) == r) by {
        lemma_mask64(r & domain, 0, 0);
        lemma_mask64(0, r & domain, 0);
    }
    assert((0u64 | (r & domain)) & !r == 0) by {
        lemma_mask64(r, r, 0);
    }
    assert(r2 & !r == 0);
    assert(r & !r2 == 0);
    assert(r2 == r) by {
        lemma_mask64(r2, r, 0);
    }
}

/// The flood fill's starting accumulator and frontier satisfy its
/// step preconditions.
proof fn lemma_ff_seed_pre(seed: u64, d: u64)
    by (bit_vector)
    ensures
        0u64 & !d == 0,
        (seed & d) & !d == 0,
        0u64 & d & !(0u64 | (seed & d)) == 0,
{
}

proof fn lemma_ff_zero_seed(domain: u64, n: u32)
    requires
        n < 64,
    ensures
        ff_spec(0, domain, n) == 0,
{
    let top = edge_top_rec(n, (n / 2) as int);
    let bot = edge_bot_rec(n, (n / 2) as int);
    lemma_mask64(domain, 0, 0);
    lemma_mask64(0, 0, 0);
    assert(0u64 & domain == 0);
    assert(0u64 & !0 == 0 && 0u64 | 0 == 0);
    assert(ff_rec(0, 0, domain, top, bot, n) == 0);
}

/// Lowest set bit of `h` (zero when `h` is zero).
pub open spec fn lsb64(h: u64) -> u64 {
    h & ((!h + 1) as u64)
}

/// The next root to fill: the lowest cell of the half board that
/// `partial_mask` leaves uncovered, as column and row, or `None` when
/// the half is fully covered.
pub open spec fn find_root_spec(partial_mask: u64, n: u32) -> Option<(u32, u32)> {
    let c = partial_mask ^ half_mask_spec(n);
    if c == 0 {
        Option::None
    } else {
        let p = vstd::std_specs::bits::u64_trailing_zeros(c);
        Option::Some((p / n, p % n))
    }
}

pub fn find_root(partial_mask: u64, n: u32) -> (r: Option<(u32, u32)>)
    requires
        1 <= n <= 10,
    ensures
        r == find_root_spec(partial_mask, n),
{
    let left = left_half_mask(n);
    let complement = partial_mask ^ left;
    if complement == 0 {
        return None;
    }
    let bit_pos = complement.trailing_zeros();
    Some((bit_pos / n, bit_pos % n))
}

/// The column through which an uncovered region may still escape into
/// the right half: the rightmost column of the left half.
pub open spec fn escape_spec(n: u32) -> u64 {
    col_mask_spec(n, ((n / 2) - 1) as u32)
}

/// The evil test over the uncovered region `h`: peel connected
/// components from the lowest bit up; a component that cannot reach the
/// escape column and whose area is not a multiple of `n` is unfillable.
pub open spec fn evil_rec(h: u64, n: u32) -> bool
    decreases h,
    via evil_rec_decreases
{
    if h == 0 {
        false
    } else {
        let comp = ff_spec(lsb64(h), h, n);
        if comp & escape_spec(n) != 0 {
            evil_rec(h & !comp, n)
        } else if pop64(comp) % (n as nat) != 0 {
            true
        } else {
            evil_rec(h & !comp, n)
        }
    }
}

/// The component grown from the lowest bit of `h` takes at least that
/// bit out of `h`.
proof fn lemma_peel_shrinks(h: u64, n: u32)
    requires
        h != 0,
    ensures
        h & !ff_spec(lsb64(h), h, n) < h,
{
    let top = edge_top_rec(n, (n / 2) as int);
    let bot = edge_bot_rec(n, (n / 2) as int);
    lemma_expand_zero(top, bot, n);
    let seed = lsb64(h);
    lemma_ff_seed_pre(seed, h);
    lemma_ff_rec_props(0, seed & h, h, top, bot, n);
    let comp = ff_spec(seed, h, n);
    assert(h & !comp < h) by (bit_vector)
        requires
            h != 0,
            (0u64 | ((h & ((!h + 1) as u64)) & h)) & !comp == 0,
    ;
}

#[via_fn]
proof fn evil_rec_decreases(h: u64, n: u32) {
    if h != 0 {
        lemma_peel_shrinks(h, n);
    }
}

pub fn detect_evil_pmask(partial_mask: u64, n: u32) -> (evil: bool)
    requires
        2 <= n <= 10,
    ensures
        evil == evil_rec(partial_mask ^ half_mask_spec(n), n),
{
    let half = left_half_mask(n);
    let escape = col_mask(n, n / 2 - 1);
    let mut complement = partial_mask ^ half;
    let ghost h0 = partial_mask ^ half_mask_spec(n);
    while complement != 0
        invariant
            2 <= n <= 10,
            escape == escape_spec(n),
            h0 == partial_mask ^ half_mask_spec(n),
            evil_rec(h0, n) == evil_rec(complement, n),
        decreases complement,
    {
        proof {
            assert(!complement + 1 <= 0xffff_ffff_ffff_ffffu64) by (bit_vector)
                requires
                    complement != 0,
            ;
        }
        let seed = complement & (!complement + 1);
        let comp = flood_fill(seed, complement, n);
        proof {
            lemma_peel_shrinks(complement, n);
            let top = edge_top_rec(n, (n / 2) as int);
            let bot = edge_bot_rec(n, (n / 2) as int);
            lemma_expand_zero(top, bot, n);
            lemma_ff_seed_pre(lsb64(complement), complement);
            lemma_ff_rec_props(0, lsb64(complement) & complement, complement, top, bot, n);
            assert(complement ^ comp == complement & !comp) by {
                lemma_mask64(comp, complement, 0);
            }
        }
        if comp & escape != 0 {
            complement = complement ^ comp;
        } else {
            let p = popcount64(comp);
            if p % n != 0 {
                proof {
                    assert(comp == ff_spec(lsb64(complement), complement, n));
                    assert(comp & escape_spec(n) == 0);
                    assert(pop64(comp) % (n as nat) != 0);
                    assert(evil_rec(complement, n));
                }
                return true;
            }
            complement = complement ^ comp;
        }
    }
    false
}

} // verus!
