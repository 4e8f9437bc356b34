//! Site occupations encoded as bitmasks: bit `i` of a mask is the
//! occupation of lattice site `i`.

use vstd::prelude::*;
use vstd::arithmetic::power2::{pow2, lemma_pow2_unfold, lemma_pow2_pos, lemma2_to64};
use vstd::arithmetic::div_mod::{lemma_div_denominator, lemma_mod_breakdown, lemma_fundamental_div_mod, lemma_fundamental_div_mod_converse};

verus! {

/// Number of set bits of `x`.
pub open spec fn popcount(x: nat) -> nat
    decreases x,
{
    if x == 0 {
        0
    } else {
        (x % 2) + popcount(x / 2)
    }
}

/// Occupation (0 or 1) of site `i` in the mask `m`.
pub open spec fn bit(m: nat, i: nat) -> nat {
    (m / pow2(i)) % 2
}

/// A value below `2^k` has at most `k` set bits.
pub proof fn lemma_popcount_bound(x: nat, k: nat)
    requires
        x < pow2(k),
    ensures
        popcount(x) <= k,
    decreases k,
{
    if x != 0 {
        if k == 0 {
            assert(pow2(0) == 1) by { lemma2_to64(); }
        } else {
            lemma_pow2_unfold(k);
            lemma_popcount_bound(x / 2, (k - 1) as nat);
        }
    }
}

/// Splitting a mask at site `b`: the occupied sites below `b` plus
/// those at or above `b`.
pub proof fn lemma_popcount_split(x: nat, b: nat)
    ensures
        popcount(x) == popcount(x % pow2(b)) + popcount(x / pow2(b)),
    decreases b,
{
    lemma_pow2_pos(b);
    if b == 0 {
        lemma2_to64();
        assert(x % 1 == 0);
        assert(x / 1 == x);
    } else {
        let p = pow2((b - 1) as nat);
        lemma_pow2_unfold(b);
        lemma_pow2_pos((b - 1) as nat);
        let q = x / 2;
        lemma_popcount_split(q, (b - 1) as nat);
        lemma_mod_breakdown(x as int, 2, p as int);
        lemma_div_denominator(x as int, 2, p as int);
        let low = x % pow2(b);
        assert(low == 2 * (q % p) + x % 2);
        assert(x / pow2(b) == q / p);
        lemma_popcount_double((q % p) as nat, x % 2);
        if x == 0 {
            assert(popcount(0) == 0);
        }
    }
}

/// Appending a low bit `r` below the value `y` adds `r` set bits.
pub proof fn lemma_popcount_double(y: nat, r: nat)
    requires
        r < 2,
    ensures
        popcount(2 * y + r) == r + popcount(y),
{
    if 2 * y + r != 0 {
        assert((2 * y + r) % 2 == r);
        assert((2 * y + r) / 2 == y);
    }
}

/// Moving a particle between two neighbouring positions of the value
/// `4 h + 1` and `4 h + 2` keeps the number of set bits.
pub proof fn lemma_popcount_swap_pair(h: nat)
    ensures
        popcount(4 * h + 1) == popcount(4 * h + 2),
{
    lemma_popcount_double(2 * h, 1);
    lemma_popcount_double(h, 0);
    lemma_popcount_double(2 * h + 1, 0);
    lemma_popcount_double(h, 1);
    assert(4 * h + 1 == 2 * (2 * h) + 1);
    assert(4 * h + 2 == 2 * (2 * h + 1) + 0);
    assert(2 * h == 2 * h + 0);
}

/// The quotient `m / 2^b` seen two sites at a time: its lowest two bits
/// are the occupations of sites `b` and `b + 1`.
pub proof fn lemma_pair_quotient(m: nat, b: nat)
    ensures
        m / pow2(b) == 4 * ((m / pow2(b)) / 4) + bit(m, b) + 2 * bit(m, b + 1),
        m == pow2(b) * (m / pow2(b)) + m % pow2(b),
        m % pow2(b) < pow2(b),
{
    let p = pow2(b);
    lemma_pow2_pos(b);
    lemma_pow2_unfold(b + 1);
    let q = m / p;
    lemma_div_denominator(m as int, p as int, 2);
    assert(pow2(b + 1) == p * 2);
    assert(bit(m, b + 1) == (q / 2) % 2);
    lemma_div_denominator(q as int, 2, 2);
    assert(q == 2 * (q / 2) + q % 2);
    assert(q / 2 == 2 * ((q / 2) / 2) + (q / 2) % 2);
    lemma_fundamental_div_mod(m as int, p as int);
}

/// A particle hopping from site `b` to the empty site `b + 1` keeps the
/// particle number.
pub proof fn lemma_hop_up_keeps_popcount(m: nat, b: nat)
    requires
        bit(m, b) == 1,
        bit(m, b + 1) == 0,
    ensures
        popcount(m + pow2(b)) == popcount(m),
        (m + pow2(b)) % pow2(b) == m % pow2(b),
        (m + pow2(b)) / pow2(b) == m / pow2(b) + 1,
{
    let p = pow2(b);
    lemma_pow2_pos(b);
    lemma_pair_quotient(m, b);
    let q = m / p;
    let r = m % p;
    let h = q / 4;
    assert((m + p) as int == (q + 1) * p + r) by (nonlinear_arith)
        requires m == p * q + r;
    lemma_fundamental_div_mod_converse((m + p) as int, p as int, (q + 1) as int, r as int);
    lemma_popcount_split(m, b);
    lemma_popcount_split(m + p, b);
    lemma_popcount_swap_pair(h);
}

/// A particle hopping from site `b + 1` to the empty site `b` keeps the
/// particle number.
pub proof fn lemma_hop_down_keeps_popcount(m: nat, b: nat)
    requires
        bit(m, b) == 0,
        bit(m, b + 1) == 1,
    ensures
        m >= pow2(b),
        popcount((m - pow2(b)) as nat) == popcount(m),
        ((m - pow2(b)) as nat) % pow2(b) == m % pow2(b),
        ((m - pow2(b)) as nat) / pow2(b) == m / pow2(b) - 1,
{
    let p = pow2(b);
    lemma_pow2_pos(b);
    lemma_pair_quotient(m, b);
    let q = m / p;
    let r = m % p;
    let h = q / 4;
    assert(q >= 1);
    assert((m - p) as int == (q - 1) * p + r) by (nonlinear_arith)
        requires m == p * q + r;
    assert(m >= p) by (nonlinear_arith)
        requires m == p * q + r, q >= 1, r >= 0;
    lemma_fundamental_div_mod_converse((m - p) as int, p as int, (q - 1) as int, r as int);
    lemma_popcount_split(m, b);
    lemma_popcount_split((m - p) as nat, b);
    lemma_popcount_swap_pair(h);
}

/// Number of occupied sites of `mask`, i.e. its number of set bits.
pub fn count_ones(mask: u32) -> (r: u32)
    ensures
        r as nat == popcount(mask as nat),
        r <= 32,
{
    proof {
        lemma2_to64();
        lemma_popcount_bound(mask as nat, 32);
    }
    let mut v: u32 = mask;
    let mut c: u32 = 0;
    while v != 0
        invariant
            c as nat + popcount(v as nat) == popcount(mask as nat),
            popcount(mask as nat) <= 32,
        decreases v,
    {
        assert(v & 1 == v % 2) by (bit_vector);
        assert(v >> 1 == v / 2) by (bit_vector);
        c = c + (v & 1);
        v = v >> 1;
    }
    c
}

/// Number of doubly occupied sites of the joint state `(up, dn)`: the
/// set bits of `up & dn`.
pub fn double_occupancy(up: u32, dn: u32) -> (r: u32)
    ensures
        r as nat == popcount((up & dn) as nat),
        r <= 32,
{
    count_ones(up & dn)
}

/// Total occupation (0, 1 or 2) of site `i` in the joint state
/// `(up, dn)`.
pub fn site_occupation(up: u32, dn: u32, i: u32) -> (r: u32)
    requires
        i < 32,
    ensures
        r as nat == bit(up as nat, i as nat) + bit(dn as nat, i as nat),
        r <= 2,
{
    proof {
        vstd::bits::lemma_u32_shr_is_div(up, i);
        vstd::bits::lemma_u32_shr_is_div(dn, i);
    }
    let a = up >> i;
    let b = dn >> i;
    assert(a & 1 == a % 2) by (bit_vector);
    assert(b & 1 == b % 2) by (bit_vector);
    (a & 1) + (b & 1)
}

} // verus!
