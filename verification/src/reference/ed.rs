//! Occupation-bitmask basis of the many-body Hubbard chain.
//!
//! A basis state of one spin species on `L` sites is a mask
//! `|n_0 n_1 ... n_{L-1}> = (c+_0)^{n_0} ... (c+_{L-1})^{n_{L-1}} |0>`,
//! bit `i` holding `n_i`. The canonical sector with `n` particles is
//! spanned by the `C(L, n)` masks below `2^L` with exactly `n` bits set.

use vstd::prelude::*;
use vstd::arithmetic::power2::{pow2, lemma_pow2_unfold, lemma_pow2_pos, lemma2_to64};
use crate::occupation::{popcount, count_ones, bit, lemma_pair_quotient, lemma_hop_up_keeps_popcount, lemma_hop_down_keeps_popcount};
use vstd::arithmetic::div_mod::lemma_fundamental_div_mod_converse;
use std::collections::HashMap;
use crate::reference::high_t_expansion::binom;

verus! {

/// Masks below `k` with exactly `n` bits set, in ascending order.
pub open spec fn masks_below(k: nat, n: nat) -> Seq<u32>
    decreases k,
{
    if k == 0 {
        Seq::empty()
    } else {
        let s = masks_below((k - 1) as nat, n);
        if popcount((k - 1) as nat) == n {
            s.push((k - 1) as u32)
        } else {
            s
        }
    }
}

/// The canonical single-species basis on `l` sites with `n` particles.
pub open spec fn basis_spec(l: nat, n: nat) -> Seq<u32> {
    masks_below(pow2(l), n)
}

/// Occupying the site above every occupied one adds exactly one particle.
pub proof fn lemma_popcount_top(l: nat, m: nat)
    requires
        m < pow2(l),
    ensures
        popcount(pow2(l) + m) == 1 + popcount(m),
    decreases l,
{
    if l == 0 {
        lemma2_to64();
        assert(m == 0);
        assert(popcount(1) == 1nat % 2 + popcount(0));
    } else {
        lemma_pow2_unfold(l);
        let h = pow2((l - 1) as nat);
        assert((pow2(l) + m) % 2 == m % 2);
        assert((pow2(l) + m) / 2 == h + m / 2);
        lemma_popcount_top((l - 1) as nat, m / 2);
        assert(popcount(pow2(l) + m) == (pow2(l) + m) % 2 + popcount((pow2(l) + m) / 2));
        if m == 0 {
            assert(popcount(m / 2) == 0);
        }
    }
}

/// Entries of `masks_below(k, n)` are ascending, below `k`, carry `n`
/// bits, and every such value below `k` occurs.
pub proof fn lemma_masks_below_members(k: nat, n: nat)
    requires
        k <= 0x1_0000_0000,
    ensures
        forall|i: int| 0 <= i < masks_below(k, n).len() ==> (#[trigger] masks_below(k, n)[i]) < k
            && popcount(masks_below(k, n)[i] as nat) == n,
        forall|i: int, j: int|
            0 <= i < j < masks_below(k, n).len() ==> masks_below(k, n)[i] < masks_below(k, n)[j],
        forall|m: nat| m < k && popcount(m) == n ==> masks_below(k, n).contains(m as u32),
    decreases k,
{
    if k > 0 {
        lemma_masks_below_members((k - 1) as nat, n);
        let s = masks_below((k - 1) as nat, n);
        assert forall|m: nat| m < k && popcount(m) == n implies masks_below(k, n).contains(
            m as u32,
        ) by {
            if m < k - 1 {
                let i = choose|i: int| 0 <= i < s.len() && s[i] == m as u32;
                assert(masks_below(k, n)[i] == m as u32);
            } else {
                assert(masks_below(k, n)[masks_below(k, n).len() - 1] == m as u32);
            }
        }
    }
}

/// There are at most `k` masks below `k`.
pub proof fn lemma_masks_below_len(k: nat, n: nat)
    ensures
        masks_below(k, n).len() <= k,
    decreases k,
{
    if k > 0 {
        lemma_masks_below_len((k - 1) as nat, n);
    }
}

/// Counting the upper half of `[0, 2^(l+1))`: masks `2^l + m` carry one
/// more bit than `m`.
proof fn lemma_count_upper(l: nat, j: nat, n: nat)
    requires
        j <= pow2(l),
    ensures
        masks_below(pow2(l) + j, n).len() == masks_below(pow2(l), n).len() + (if n == 0 {
            0
        } else {
            masks_below(j, (n - 1) as nat).len()
        }),
    decreases j,
{
    if j > 0 {
        lemma_count_upper(l, (j - 1) as nat, n);
        lemma_popcount_top(l, (j - 1) as nat);
        assert((pow2(l) + j - 1) as nat == pow2(l) + (j - 1) as nat);
    }
}

/// The canonical basis has `C(l, n)` states.
pub proof fn lemma_basis_len(l: nat, n: nat)
    ensures
        basis_spec(l, n).len() == binom(l, n),
    decreases l,
{
    if l == 0 {
        lemma2_to64();
        assert(masks_below(0, n).len() == 0);
    } else {
        lemma_pow2_unfold(l);
        let h = pow2((l - 1) as nat);
        lemma_count_upper((l - 1) as nat, h, n);
        lemma_basis_len((l - 1) as nat, n);
        if n > 0 {
            lemma_basis_len((l - 1) as nat, (n - 1) as nat);
        }
        assert(pow2(l) == h + h);
    }
}

/// Enumerate the `C(l, n)` bitmasks below `2^l` with exactly `n` bits
/// set, in ascending order.
pub fn enumerate_basis(l: usize, n_electrons: usize) -> (r: Vec<u32>)
    requires
        l < 32,
    ensures
        r@ == basis_spec(l as nat, n_electrons as nat),
        r@.len() == binom(l as nat, n_electrons as nat),
        forall|i: int|
            0 <= i < r@.len() ==> (#[trigger] r@[i]) < pow2(l as nat) && popcount(r@[i] as nat)
                == n_electrons,
        forall|i: int, j: int| 0 <= i < j < r@.len() ==> r@[i] < r@[j],
        forall|m: nat| m < pow2(l as nat) && popcount(m) == n_electrons ==> r@.contains(m as u32),
{
    proof {
        vstd::bits::lemma_u32_pow2_no_overflow(l as nat);
        vstd::bits::lemma_u32_shl_is_mul(1, l as u32);
        lemma_basis_len(l as nat, n_electrons as nat);
        lemma_masks_below_members(pow2(l as nat), n_electrons as nat);
    }
    let end: u32 = 1u32 << (l as u32);
    let mut out: Vec<u32> = Vec::new();
    let mut m: u32 = 0;
    while m < end
        invariant
            m <= end,
            end == pow2(l as nat),
            out@ == masks_below(m as nat, n_electrons as nat),
        decreases end - m,
    {
        let c = count_ones(m);
        if c as usize == n_electrons {
            out.push(m);
        }
        m = m + 1;
        assert(((m - 1) as nat) as u32 == (m - 1) as u32);
    }
    out
}

/// Jordan-Wigner sign for creating or annihilating at `site` on the
/// state `mask`: `-1` when an odd number of the sites below `site` are
/// occupied, `+1` otherwise.
pub open spec fn jw_sign(mask: nat, site: nat) -> int {
    if popcount(mask % pow2(site)) % 2 == 0 {
        1
    } else {
        -1
    }
}

/// Jordan-Wigner sign for inserting or removing a particle at `site` on
/// state `mask`: counts the particles at sites `0..site`; `-1` if odd,
/// `+1` otherwise. Pass the state the operator actually acts on (for a
/// creation after a removal, the post-removal mask).
pub fn fermion_sign(mask: u32, site: usize) -> (r: i32)
    requires
        site < 32,
    ensures
        r == jw_sign(mask as nat, site as nat),
{
    proof {
        vstd::bits::lemma_u32_pow2_no_overflow(site as nat);
        vstd::bits::lemma_u32_shl_is_mul(1, site as u32);
        vstd::bits::lemma_u32_low_bits_mask_is_mod(mask, site as nat);
    }
    let lower = mask & ((1u32 << (site as u32)) - 1);
    if count_ones(lower) % 2 == 0 {
        1
    } else {
        -1
    }
}

/// One nonzero entry of the single-species hopping matrix: the state at
/// basis index `from` is carried to the state at basis index `to` with
/// the Jordan-Wigner sign `sign`.
#[derive(Clone, Copy, Debug, PartialEq, Eq, Structural)]
pub struct Hop {
    pub from: usize,
    pub to: usize,
    pub sign: i32,
}

/// The particle on site `b` can move to the empty site `b + 1`.
pub open spec fn can_hop_up(m: u32, b: nat) -> bool {
    bit(m as nat, b) == 1 && bit(m as nat, b + 1) == 0
}

/// The particle on site `b + 1` can move to the empty site `b`.
pub open spec fn can_hop_down(m: u32, b: nat) -> bool {
    bit(m as nat, b + 1) == 1 && bit(m as nat, b) == 0
}

/// State reached from `m` after the particle on `b` moves to `b + 1`.
pub open spec fn hop_up_target(m: u32, b: nat) -> u32 {
    (m + pow2(b)) as u32
}

/// State reached from `m` after the particle on `b + 1` moves to `b`.
pub open spec fn hop_down_target(m: u32, b: nat) -> u32 {
    (m - pow2(b)) as u32
}

/// Sign of the move `b -> b + 1`: remove at `b`, then create at `b + 1`
/// on the depleted state.
pub open spec fn hop_up_sign(m: u32, b: nat) -> int {
    jw_sign(m as nat, b) * jw_sign((m - pow2(b)) as nat, b + 1)
}

/// Sign of the move `b + 1 -> b`: remove at `b + 1`, then create at `b`
/// on the depleted state.
pub open spec fn hop_down_sign(m: u32, b: nat) -> int {
    jw_sign(m as nat, b + 1) * jw_sign((m - pow2(b + 1)) as nat, b)
}

/// Position of each mask in `basis`; a mask listed twice maps to its
/// last position.
pub open spec fn index_map(basis: Seq<u32>) -> Map<u32, usize>
    decreases basis.len(),
{
    if basis.len() == 0 {
        Map::empty()
    } else {
        index_map(basis.drop_last()).insert(basis.last(), (basis.len() - 1) as usize)
    }
}

/// Number of nearest-neighbour bonds of an open chain of `l` sites.
pub open spec fn bond_count(l: nat) -> nat {
    if l == 0 {
        0
    } else {
        (l - 1) as nat
    }
}

/// The entry for the move `b -> b + 1` out of basis state `col` (mask `m`).
pub open spec fn up_hop(m: u32, col: nat, b: nat, lookup: Map<u32, usize>) -> Hop {
    Hop { from: col as usize, to: lookup[hop_up_target(m, b)], sign: hop_up_sign(m, b) as i32 }
}

/// The entry for the move `b + 1 -> b` out of basis state `col` (mask `m`).
pub open spec fn down_hop(m: u32, col: nat, b: nat, lookup: Map<u32, usize>) -> Hop {
    Hop { from: col as usize, to: lookup[hop_down_target(m, b)], sign: hop_down_sign(m, b) as i32 }
}

/// The entry for the move `b -> b + 1`, if allowed.
pub open spec fn up_entry(m: u32, col: nat, b: nat, lookup: Map<u32, usize>) -> Seq<Hop> {
    if can_hop_up(m, b) {
        seq![up_hop(m, col, b, lookup)]
    } else {
        Seq::empty()
    }
}

/// The entry for the move `b + 1 -> b`, if allowed.
pub open spec fn down_entry(m: u32, col: nat, b: nat, lookup: Map<u32, usize>) -> Seq<Hop> {
    if can_hop_down(m, b) {
        seq![down_hop(m, col, b, lookup)]
    } else {
        Seq::empty()
    }
}

/// Entries out of the basis state `col` (mask `m`) over the first
/// `bonds` bonds, bond by bond, the upward move before the downward one.
pub open spec fn mask_hops(m: u32, col: nat, lookup: Map<u32, usize>, bonds: nat) -> Seq<Hop>
    decreases bonds,
{
    if bonds == 0 {
        Seq::empty()
    } else {
        let b = (bonds - 1) as nat;
        mask_hops(m, col, lookup, b) + up_entry(m, col, b, lookup) + down_entry(m, col, b, lookup)
    }
}

/// Entries out of the first `c` basis states, column by column.
pub open spec fn hops_upto(basis: Seq<u32>, lookup: Map<u32, usize>, bonds: nat, c: nat) -> Seq<Hop>
    decreases c,
{
    if c == 0 {
        Seq::empty()
    } else {
        hops_upto(basis, lookup, bonds, (c - 1) as nat) + mask_hops(
            basis[c - 1],
            (c - 1) as nat,
            lookup,
            bonds,
        )
    }
}

/// All nonzero entries of the single-species hopping matrix on `basis`.
pub open spec fn hopping_entries(basis: Seq<u32>, l: nat) -> Seq<Hop> {
    hops_upto(basis, index_map(basis), bond_count(l), basis.len())
}

/// Every state reached by one nearest-neighbour move out of `basis`
/// (on an `l`-site open chain) is itself listed in `basis`.
pub open spec fn closed_under_hops(basis: Seq<u32>, l: nat) -> bool {
    &&& forall|c: int, b: nat|
        0 <= c < basis.len() && b < bond_count(l) && #[trigger] can_hop_up(basis[c], b)
            ==> index_map(basis).contains_key(hop_up_target(basis[c], b))
    &&& forall|c: int, b: nat|
        0 <= c < basis.len() && b < bond_count(l) && #[trigger] can_hop_down(basis[c], b)
            ==> index_map(basis).contains_key(hop_down_target(basis[c], b))
}

proof fn lemma_shift_bit(x: u32, s: u32)
    requires
        s < 32,
    ensures
        ((x >> s) & 1) as nat == bit(x as nat, s as nat),
{
    vstd::bits::lemma_u32_shr_is_div(x, s);
    let y = x >> s;
    assert(y & 1 == y % 2) by (bit_vector);
}

/// Builds the position map of `basis` (last position wins).
fn build_index(basis: &[u32]) -> (lookup: HashMap<u32, usize>)
    ensures
        lookup@ == index_map(basis@),
{
    broadcast use vstd::std_specs::hash::group_hash_axioms;

    let mut lookup: HashMap<u32, usize> = HashMap::new();
    let mut i: usize = 0;
    while i < basis.len()
        invariant
            i <= basis.len(),
            lookup@ == index_map(basis@.take(i as int)),
        decreases basis.len() - i,
    {
        lookup.insert(basis[i], i);
        proof {
            assert(basis@.take(i + 1).drop_last() =~= basis@.take(i as int));
        }
        i = i + 1;
    }
    assert(basis@.take(basis.len() as int) =~= basis@);
    lookup
}

/// The nonzero entries of the single-species nearest-neighbour hopping
/// matrix on an `l`-site open chain in the occupation-bitmask basis
/// `basis`, each with its Jordan-Wigner sign. The matrix itself is
/// `M[to, from] = -J * sign` summed over the entries.
#[verifier::spinoff_prover]
pub fn single_spin_hops(basis: &[u32], l: usize) -> (r: Vec<Hop>)
    requires
        basis.len() > 0 ==> l <= 32,
        closed_under_hops(basis@, l as nat),
    ensures
        r@ == hopping_entries(basis@, l as nat),
{
    broadcast use vstd::std_specs::hash::group_hash_axioms;

    let lookup = build_index(basis);
    let ghost map = index_map(basis@);
    let bonds: usize = if l == 0 { 0 } else { l - 1 };
    let mut out: Vec<Hop> = Vec::new();
    let mut col: usize = 0;
    while col < basis.len()
        invariant
            col <= basis.len(),
            lookup@ == map,
            map == index_map(basis@),
            basis.len() > 0 ==> l <= 32,
            bonds == bond_count(l as nat),
            closed_under_hops(basis@, l as nat),
            out@ == hops_upto(basis@, map, bonds as nat, col as nat),
        decreases basis.len() - col,
    {
        let mask = basis[col];
        let mut bond: usize = 0;
        while bond < bonds
            invariant
                col < basis.len(),
                mask == basis@[col as int],
                l <= 32,
                bond <= bonds,
                lookup@ == map,
                map == index_map(basis@),
                bonds == bond_count(l as nat),
                closed_under_hops(basis@, l as nat),
                out@ == hops_upto(basis@, map, bonds as nat, col as nat) + mask_hops(
                    mask,
                    col as nat,
                    map,
                    bond as nat,
                ),
            decreases bonds - bond,
        {
            let b: u32 = bond as u32;
            proof {
                lemma_shift_bit(mask, b);
                lemma_shift_bit(mask, (b + 1) as u32);
                vstd::bits::lemma_u32_pow2_no_overflow(b as nat);
                vstd::bits::lemma_u32_pow2_no_overflow((b + 1) as nat);
                vstd::bits::lemma_u32_shl_is_mul(1, b);
                vstd::bits::lemma_u32_shl_is_mul(1, (b + 1) as u32);
            }
            let ghost before = out@;
            if (mask >> b) & 1 == 1 && (mask >> (b + 1)) & 1 == 0 {
                let after = mask & !(1u32 << b);
                let new_mask = after | (1u32 << (b + 1));
                assert(after == mask - (1u32 << b)) by (bit_vector)
                    requires
                        b < 31,
                        (mask >> b) & 1 == 1,
                        after == mask & !(1u32 << b),
                ;
                assert(new_mask == after + (1u32 << (b + 1))) by (bit_vector)
                    requires
                        b < 31,
                        (mask >> b) & 1 == 1,
                        (mask >> (b + 1)) & 1 == 0,
                        after == mask & !(1u32 << b),
                        new_mask == after | (1u32 << (b + 1)),
                ;
                proof {
                    vstd::arithmetic::power2::lemma_pow2_unfold((b + 1) as nat);
                    assert(new_mask == hop_up_target(mask, b as nat));
                    assert(can_hop_up(basis@[col as int], b as nat));
                    assert(map.contains_key(new_mask));
                }
                let s1 = fermion_sign(mask, bond);
                let s2 = fermion_sign(after, bond + 1);
                assert(s1 == 1 || s1 == -1);
                assert(s2 == 1 || s2 == -1);
                assert(after as nat == (mask - pow2(b as nat)) as nat);
                assert(s1 * s2 == hop_up_sign(mask, b as nat));
                let sign: i32 = if s1 == s2 { 1 } else { -1 };
                assert(sign == s1 * s2) by (nonlinear_arith)
                    requires
                        s1 == 1 || s1 == -1,
                        s2 == 1 || s2 == -1,
                        sign == (if s1 == s2 { 1i32 } else { -1i32 }),
                ;
                let row = *lookup.get(&new_mask).unwrap();
                assert(row == map[hop_up_target(mask, b as nat)]);
                out.push(Hop { from: col, to: row, sign });
            }
            proof {
                assert(out@ == before + up_entry(mask, col as nat, b as nat, map));
            }
            let ghost mid = out@;
            if (mask >> (b + 1)) & 1 == 1 && (mask >> b) & 1 == 0 {
                let after = mask & !(1u32 << (b + 1));
                let new_mask = after | (1u32 << b);
                assert(after == mask - (1u32 << (b + 1))) by (bit_vector)
                    requires
                        b < 31,
                        (mask >> (b + 1)) & 1 == 1,
                        after == mask & !(1u32 << (b + 1)),
                ;
                assert(new_mask == after + (1u32 << b)) by (bit_vector)
                    requires
                        b < 31,
                        (mask >> b) & 1 == 0,
                        (mask >> (b + 1)) & 1 == 1,
                        after == mask & !(1u32 << (b + 1)),
                        new_mask == after | (1u32 << b),
                ;
                proof {
                    vstd::arithmetic::power2::lemma_pow2_unfold((b + 1) as nat);
                    assert(new_mask == hop_down_target(mask, b as nat));
                    assert(can_hop_down(basis@[col as int], b as nat));
                    assert(map.contains_key(new_mask));
                }
                let s1 = fermion_sign(mask, bond + 1);
                let s2 = fermion_sign(after, bond);
                assert(s1 == 1 || s1 == -1);
                assert(s2 == 1 || s2 == -1);
                assert(after as nat == (mask - pow2((b + 1) as nat)) as nat);
                assert(s1 * s2 == hop_down_sign(mask, b as nat));
                let sign: i32 = if s1 == s2 { 1 } else { -1 };
                assert(sign == s1 * s2) by (nonlinear_arith)
                    requires
                        s1 == 1 || s1 == -1,
                        s2 == 1 || s2 == -1,
                        sign == (if s1 == s2 { 1i32 } else { -1i32 }),
                ;
                let row = *lookup.get(&new_mask).unwrap();
                assert(row == map[hop_down_target(mask, b as nat)]);
                out.push(Hop { from: col, to: row, sign });
            }
            proof {
                assert(out@ == mid + down_entry(mask, col as nat, b as nat, map));
            }
            bond = bond + 1;
        }
        col = col + 1;
    }
    out
}

/// Both nearest-neighbour moves on bond `b` out of mask `m`, where
/// allowed, land on a state listed in `map`.
pub open spec fn moves_stay_in(m: u32, b: nat, map: Map<u32, usize>) -> bool {
    &&& can_hop_up(m, b) ==> map.contains_key(hop_up_target(m, b))
    &&& can_hop_down(m, b) ==> map.contains_key(hop_down_target(m, b))
}

/// Whether every state one nearest-neighbour move away from a state of
/// `basis` (on an `l`-site open chain) is itself in `basis`: the
/// condition under which the hopping matrix on `basis` exists.
#[verifier::spinoff_prover]
pub fn hops_stay_in_basis(basis: &[u32], l: usize) -> (r: bool)
    requires
        basis.len() > 0 ==> l <= 32,
    ensures
        r == closed_under_hops(basis@, l as nat),
{
    broadcast use vstd::std_specs::hash::group_hash_axioms;

    let lookup = build_index(basis);
    let ghost map = index_map(basis@);
    let bonds: usize = if l == 0 { 0 } else { l - 1 };
    let mut col: usize = 0;
    while col < basis.len()
        invariant
            col <= basis.len(),
            lookup@ == map,
            map == index_map(basis@),
            basis.len() > 0 ==> l <= 32,
            bonds == bond_count(l as nat),
            forall|c: int, b: nat|
                0 <= c < col && b < bonds ==> #[trigger] moves_stay_in(basis@[c], b, map),
        decreases basis.len() - col,
    {
        let mask = basis[col];
        let mut bond: usize = 0;
        while bond < bonds
            invariant
                col < basis.len(),
                mask == basis@[col as int],
                l <= 32,
                bond <= bonds,
                lookup@ == map,
                map == index_map(basis@),
                bonds == bond_count(l as nat),
                forall|b: nat| b < bond ==> #[trigger] moves_stay_in(mask, b, map),
            decreases bonds - bond,
        {
            let b: u32 = bond as u32;
            proof {
                lemma_shift_bit(mask, b);
                lemma_shift_bit(mask, (b + 1) as u32);
                vstd::bits::lemma_u32_pow2_no_overflow(b as nat);
                vstd::bits::lemma_u32_pow2_no_overflow((b + 1) as nat);
                vstd::bits::lemma_u32_shl_is_mul(1, b);
                vstd::bits::lemma_u32_shl_is_mul(1, (b + 1) as u32);
                vstd::arithmetic::power2::lemma_pow2_unfold((b + 1) as nat);
            }
            if (mask >> b) & 1 == 1 && (mask >> (b + 1)) & 1 == 0 {
                let after = mask & !(1u32 << b);
                let new_mask = after | (1u32 << (b + 1));
                assert(after == mask - (1u32 << b)) by (bit_vector)
                    requires
                        b < 31,
                        (mask >> b) & 1 == 1,
                        after == mask & !(1u32 << b),
                ;
                assert(new_mask == after + (1u32 << (b + 1))) by (bit_vector)
                    requires
                        b < 31,
                        (mask >> b) & 1 == 1,
                        (mask >> (b + 1)) & 1 == 0,
                        after == mask & !(1u32 << b),
                        new_mask == after | (1u32 << (b + 1)),
                ;
                assert(new_mask == hop_up_target(mask, b as nat));
                if !lookup.contains_key(&new_mask) {
                    proof {
                        assert(can_hop_up(basis@[col as int], b as nat));
                    }
                    return false;
                }
            }
            if (mask >> (b + 1)) & 1 == 1 && (mask >> b) & 1 == 0 {
                let after = mask & !(1u32 << (b + 1));
                let new_mask = after | (1u32 << b);
                assert(after == mask - (1u32 << (b + 1))) by (bit_vector)
                    requires
                        b < 31,
                        (mask >> (b + 1)) & 1 == 1,
                        after == mask & !(1u32 << (b + 1)),
                ;
                assert(new_mask == after + (1u32 << b)) by (bit_vector)
                    requires
                        b < 31,
                        (mask >> b) & 1 == 0,
                        (mask >> (b + 1)) & 1 == 1,
                        after == mask & !(1u32 << (b + 1)),
                        new_mask == after | (1u32 << b),
                ;
                assert(new_mask == hop_down_target(mask, b as nat));
                if !lookup.contains_key(&new_mask) {
                    proof {
                        assert(can_hop_down(basis@[col as int], b as nat));
                    }
                    return false;
                }
            }
            assert(moves_stay_in(mask, b as nat, map));
            bond = bond + 1;
        }
        col = col + 1;
    }
    assert forall|c: int, b: nat|
        0 <= c < basis@.len() && b < bond_count(l as nat) && #[trigger] can_hop_up(basis@[c], b)
            implies index_map(basis@).contains_key(hop_up_target(basis@[c], b)) by {
        assert(moves_stay_in(basis@[c], b, map));
    }
    assert forall|c: int, b: nat|
        0 <= c < basis@.len() && b < bond_count(l as nat) && #[trigger] can_hop_down(basis@[c], b)
            implies index_map(basis@).contains_key(hop_down_target(basis@[c], b)) by {
        assert(moves_stay_in(basis@[c], b, map));
    }
    true
}

/// Removing the particle at site `b` (occupied) leaves the occupations
/// below `b + 1` equal to those below `b`.
proof fn lemma_low_part_after_removal(m: nat, b: nat)
    requires
        bit(m, b) == 1,
    ensures
        m >= pow2(b),
        ((m - pow2(b)) as nat) % pow2(b + 1) == m % pow2(b),
{
    let p = pow2(b);
    lemma_pow2_pos(b);
    lemma_pow2_unfold(b + 1);
    lemma_pair_quotient(m, b);
    let q = m / p;
    let r = m % p;
    let h = q / 4;
    assert(m == p * (4 * h + 1 + 2 * bit(m, b + 1)) + r);
    let x: int = m - p;
    let d: int = (2 * p) as int;
    let k: int = (2 * h + bit(m, b + 1)) as int;
    assert(x == k * d + r) by (nonlinear_arith)
        requires
            m == p * (4 * h + 1 + 2 * bit(m, b + 1)) + r,
            x == m - p,
            d == 2 * p,
            k == 2 * h + bit(m, b + 1),
    ;
    assert(m >= p) by (nonlinear_arith)
        requires
            m == p * (4 * h + 1 + 2 * bit(m, b + 1)) + r,
            r >= 0,
            h >= 0,
    ;
    assert(0 <= r < d);
    lemma_fundamental_div_mod_converse(x, d, k, r as int);
}

/// An empty site `b` leaves the occupations below `b + 1` equal to those
/// below `b`.
proof fn lemma_low_part_empty_site(m: nat, b: nat)
    requires
        bit(m, b) == 0,
    ensures
        m % pow2(b + 1) == m % pow2(b),
{
    let p = pow2(b);
    lemma_pow2_pos(b);
    lemma_pow2_unfold(b + 1);
    lemma_pair_quotient(m, b);
    let q = m / p;
    let r = m % p;
    let h = q / 4;
    let d: int = (2 * p) as int;
    let k: int = (2 * h + bit(m, b + 1)) as int;
    assert(m == k * d + r) by (nonlinear_arith)
        requires
            m == p * (4 * h + 2 * bit(m, b + 1)) + r,
            d == 2 * p,
            k == 2 * h + bit(m, b + 1),
    ;
    assert(0 <= r < d);
    lemma_fundamental_div_mod_converse(m as int, d, k, r as int);
}

/// On an open chain a nearest-neighbour hop carries no Jordan-Wigner
/// sign: the two string factors of the removal and of the creation
/// cancel, in both directions.
pub proof fn lemma_neighbour_hop_sign(m: u32, b: nat)
    ensures
        can_hop_up(m, b) ==> hop_up_sign(m, b) == 1,
        can_hop_down(m, b) ==> hop_down_sign(m, b) == 1,
{
    if can_hop_up(m, b) {
        lemma_low_part_after_removal(m as nat, b);
    }
    if can_hop_down(m, b) {
        lemma_low_part_after_removal(m as nat, b + 1);
        lemma_pow2_unfold(b + 1);
        lemma_pow2_pos(b);
        let d = (m - pow2(b + 1)) as nat;
        // The depleted state keeps site `b` empty.
        lemma_pair_quotient(m as nat, b);
        lemma_pair_quotient(d, b);
        assert(m as nat == pow2(b) * (m as nat / pow2(b)) + (m as nat) % pow2(b));
        let q = (m as nat) / pow2(b);
        let r = (m as nat) % pow2(b);
        assert(d == pow2(b) * (q - 2) + r) by (nonlinear_arith)
            requires
                m as nat == pow2(b) * q + r,
                d == m - pow2(b + 1),
                pow2(b + 1) == 2 * pow2(b),
        ;
        assert(q >= 2) by (nonlinear_arith)
            requires
                m as nat == pow2(b) * q + r,
                m as nat >= pow2(b + 1),
                pow2(b + 1) == 2 * pow2(b),
                r < pow2(b),
                pow2(b) > 0,
        ;
        assert(d == (q - 2) * pow2(b) + r) by (nonlinear_arith)
            requires
                d == pow2(b) * (q - 2) + r,
        ;
        lemma_fundamental_div_mod_converse(d as int, pow2(b) as int, (q - 2) as int, r as int);
        assert(bit(d, b) == bit(m as nat, b));
        lemma_low_part_empty_site(d, b);
        lemma_low_part_empty_site(m as nat, b);
    }
}

/// Relates the position map to the listed masks: a mask is a key exactly
/// when it is listed, and its position is the last one holding it.
pub proof fn lemma_index_map(s: Seq<u32>)
    requires
        s.len() <= usize::MAX,
    ensures
        forall|x: u32| #[trigger] index_map(s).contains_key(x) <==> s.contains(x),
        forall|x: u32|
            #[trigger] index_map(s).contains_key(x) ==> {
                &&& index_map(s)[x] < s.len()
                &&& s[index_map(s)[x] as int] == x
                &&& forall|j: int| index_map(s)[x] < j < s.len() ==> s[j] != x
            },
    decreases s.len(),
{
    if s.len() > 0 {
        let t = s.drop_last();
        lemma_index_map(t);
        let last = s.last();
        assert(index_map(s) == index_map(t).insert(last, (s.len() - 1) as usize));
        assert forall|x: u32| #[trigger] index_map(s).contains_key(x) <==> s.contains(x) by {
            if x == last {
                assert(s[s.len() - 1] == x);
            } else {
                if s.contains(x) {
                    let i = choose|i: int| 0 <= i < s.len() && s[i] == x;
                    assert(i < s.len() - 1);
                    assert(t[i] == x);
                }
                if t.contains(x) {
                    let i = choose|i: int| 0 <= i < t.len() && t[i] == x;
                    assert(s[i] == x);
                }
            }
        }
        assert forall|x: u32| #[trigger] index_map(s).contains_key(x) implies {
            &&& index_map(s)[x] < s.len()
            &&& s[index_map(s)[x] as int] == x
            &&& forall|j: int| index_map(s)[x] < j < s.len() ==> s[j] != x
        } by {
            if x == last {
                assert(index_map(s)[x] == s.len() - 1);
                assert(s[s.len() - 1] == x);
            } else {
                assert(index_map(t).contains_key(x));
                let k = index_map(t)[x];
                assert(index_map(s)[x] == k);
                assert(s[k as int] == t[k as int]);
                assert forall|j: int| k < j < s.len() implies s[j] != x by {
                    if j < s.len() - 1 {
                        assert(s[j] == t[j]);
                    }
                }
            }
        }
    }
}

/// Particle number and chain length are kept by every nearest-neighbour
/// move: the canonical basis is closed under hopping.
pub proof fn lemma_canonical_basis_closed(l: nat, n: nat)
    requires
        l < 32,
    ensures
        closed_under_hops(basis_spec(l, n), l),
{
    let s = basis_spec(l, n);
    vstd::bits::lemma_u32_pow2_no_overflow(l);
    lemma2_to64();
    vstd::arithmetic::power2::lemma_pow2_strictly_increases(l, 32);
    lemma_masks_below_members(pow2(l), n);
    lemma_masks_below_len(pow2(l), n);
    lemma_index_map(s);
    assert forall|c: int, b: nat|
        0 <= c < s.len() && b < bond_count(l) && #[trigger] can_hop_up(s[c], b) implies index_map(
        s,
    ).contains_key(hop_up_target(s[c], b)) by {
        let m = s[c];
        lemma_hop_up_keeps_popcount(m as nat, b);
        lemma_target_below_chain_top(m, b, l);
        let t = (m + pow2(b)) as nat;
        assert(t < pow2(l));
        assert(s.contains(t as u32));
    }
    assert forall|c: int, b: nat|
        0 <= c < s.len() && b < bond_count(l) && #[trigger] can_hop_down(s[c], b)
            implies index_map(s).contains_key(hop_down_target(s[c], b)) by {
        let m = s[c];
        lemma_hop_down_keeps_popcount(m as nat, b);
        let t = (m - pow2(b)) as nat;
        assert(t < pow2(l));
        assert(s.contains(t as u32));
    }
}

/// Moving the particle on `b` up to the empty site `b + 1 < l` stays
/// below `2^l`.
proof fn lemma_target_below_chain_top(m: u32, b: nat, l: nat)
    requires
        can_hop_up(m, b),
        b + 1 < l,
        l < 32,
        (m as nat) < pow2(l),
    ensures
        m + pow2(b) < pow2(l),
{
    let bb = b as u32;
    let ll = l as u32;
    lemma_shift_bit(m, bb);
    lemma_shift_bit(m, (bb + 1) as u32);
    vstd::bits::lemma_u32_pow2_no_overflow(b);
    vstd::bits::lemma_u32_pow2_no_overflow(l);
    vstd::bits::lemma_u32_shl_is_mul(1, bb);
    vstd::bits::lemma_u32_shl_is_mul(1, ll);
    assert(m + (1u32 << bb) < (1u32 << ll)) by (bit_vector)
        requires
            bb + 1 < ll,
            ll < 32,
            m < (1u32 << ll),
            (m >> bb) & 1 == 1,
            (m >> (bb + 1)) & 1 == 0,
    ;
}

/// `e` is the entry of an allowed move on bond `b` out of basis state `c`.
pub open spec fn hop_origin(basis: Seq<u32>, lookup: Map<u32, usize>, e: Hop, c: int, b: nat) -> bool {
    ||| can_hop_up(basis[c], b) && e == up_hop(basis[c], c as nat, b, lookup)
    ||| can_hop_down(basis[c], b) && e == down_hop(basis[c], c as nat, b, lookup)
}

/// `e` is the entry of an allowed move on one of the first `bonds` bonds
/// out of basis state `c`.
pub open spec fn from_state(basis: Seq<u32>, lookup: Map<u32, usize>, e: Hop, c: int, bonds: nat) -> bool {
    exists|b: nat| b < bonds && #[trigger] hop_origin(basis, lookup, e, c, b)
}

/// `e` is the entry of an allowed move on one of the first `bonds` bonds
/// out of one of the first `c` basis states.
pub open spec fn from_states(basis: Seq<u32>, lookup: Map<u32, usize>, e: Hop, c: nat, bonds: nat) -> bool {
    exists|cc: int, b: nat| 0 <= cc < c && b < bonds && #[trigger] hop_origin(basis, lookup, e, cc, b)
}

/// Every entry of the first `bonds` bonds out of one basis state comes
/// from an allowed move, and every allowed move is listed.
proof fn lemma_mask_hops_members(
    basis: Seq<u32>,
    lookup: Map<u32, usize>,
    c: int,
    bonds: nat,
)
    requires
        0 <= c < basis.len(),
    ensures
        forall|i: int|
            0 <= i < mask_hops(basis[c], c as nat, lookup, bonds).len() ==> from_state(
                basis,
                lookup,
                #[trigger] mask_hops(basis[c], c as nat, lookup, bonds)[i],
                c,
                bonds,
            ),
        forall|b: nat|
            b < bonds && #[trigger] can_hop_up(basis[c], b) ==> mask_hops(
                basis[c],
                c as nat,
                lookup,
                bonds,
            ).contains(up_hop(basis[c], c as nat, b, lookup)),
        forall|b: nat|
            b < bonds && #[trigger] can_hop_down(basis[c], b) ==> mask_hops(
                basis[c],
                c as nat,
                lookup,
                bonds,
            ).contains(down_hop(basis[c], c as nat, b, lookup)),
    decreases bonds,
{
    if bonds > 0 {
        let m = basis[c];
        let nb = (bonds - 1) as nat;
        lemma_mask_hops_members(basis, lookup, c, nb);
        let prev = mask_hops(m, c as nat, lookup, nb);
        let up = up_entry(m, c as nat, nb, lookup);
        let down = down_entry(m, c as nat, nb, lookup);
        let all = mask_hops(m, c as nat, lookup, bonds);
        assert(all == prev + up + down);
        assert forall|i: int| 0 <= i < all.len() implies from_state(
            basis,
            lookup,
            #[trigger] all[i],
            c,
            bonds,
        ) by {
            if i < prev.len() {
                assert(all[i] == prev[i]);
                assert(from_state(basis, lookup, prev[i], c, nb));
                let b = choose|b: nat| b < nb && #[trigger] hop_origin(basis, lookup, prev[i], c, b);
                assert(hop_origin(basis, lookup, all[i], c, b));
            } else if i < prev.len() + up.len() {
                assert(all[i] == up[i - prev.len()]);
                assert(hop_origin(basis, lookup, all[i], c, nb));
            } else {
                assert(all[i] == down[i - prev.len() - up.len()]);
                assert(hop_origin(basis, lookup, all[i], c, nb));
            }
        }
        assert forall|b: nat| b < bonds && #[trigger] can_hop_up(basis[c], b) implies all.contains(
            up_hop(basis[c], c as nat, b, lookup),
        ) by {
            if b < nb {
                let k = choose|k: int| 0 <= k < prev.len() && prev[k] == up_hop(m, c as nat, b, lookup);
                assert(all[k] == prev[k]);
            } else {
                assert(all[prev.len() as int] == up[0]);
            }
        }
        assert forall|b: nat|
            b < bonds && #[trigger] can_hop_down(basis[c], b) implies all.contains(
            down_hop(basis[c], c as nat, b, lookup),
        ) by {
            if b < nb {
                let k = choose|k: int|
                    0 <= k < prev.len() && prev[k] == down_hop(m, c as nat, b, lookup);
                assert(all[k] == prev[k]);
            } else {
                assert(all[(prev.len() + up.len()) as int] == down[0]);
            }
        }
    } else {
        assert(mask_hops(basis[c], c as nat, lookup, bonds) =~= Seq::empty());
    }
}

/// Every entry out of the first `c` basis states comes from an allowed
/// move, and every allowed move out of them is listed.
pub proof fn lemma_hops_upto_members(basis: Seq<u32>, lookup: Map<u32, usize>, bonds: nat, c: nat)
    requires
        c <= basis.len(),
    ensures
        forall|i: int|
            0 <= i < hops_upto(basis, lookup, bonds, c).len() ==> from_states(
                basis,
                lookup,
                #[trigger] hops_upto(basis, lookup, bonds, c)[i],
                c,
                bonds,
            ),
        forall|cc: int, b: nat|
            0 <= cc < c && b < bonds && #[trigger] can_hop_up(basis[cc], b) ==> hops_upto(
                basis,
                lookup,
                bonds,
                c,
            ).contains(up_hop(basis[cc], cc as nat, b, lookup)),
        forall|cc: int, b: nat|
            0 <= cc < c && b < bonds && #[trigger] can_hop_down(basis[cc], b) ==> hops_upto(
                basis,
                lookup,
                bonds,
                c,
            ).contains(down_hop(basis[cc], cc as nat, b, lookup)),
    decreases c,
{
    if c > 0 {
        let pc = (c - 1) as nat;
        lemma_hops_upto_members(basis, lookup, bonds, pc);
        lemma_mask_hops_members(basis, lookup, pc as int, bonds);
        let prev = hops_upto(basis, lookup, bonds, pc);
        let tail = mask_hops(basis[pc as int], pc, lookup, bonds);
        let all = hops_upto(basis, lookup, bonds, c);
        assert(all == prev + tail);
        assert forall|i: int| 0 <= i < all.len() implies from_states(
            basis,
            lookup,
            #[trigger] all[i],
            c,
            bonds,
        ) by {
            if i < prev.len() {
                assert(all[i] == prev[i]);
                assert(from_states(basis, lookup, prev[i], pc, bonds));
                let (cc, b) = choose|cc: int, b: nat|
                    0 <= cc < pc && b < bonds && #[trigger] hop_origin(basis, lookup, prev[i], cc, b);
                assert(hop_origin(basis, lookup, all[i], cc, b));
            } else {
                assert(all[i] == tail[i - prev.len()]);
                assert(from_state(basis, lookup, tail[i - prev.len()], pc as int, bonds));
                let b = choose|b: nat|
                    b < bonds && #[trigger] hop_origin(
                        basis,
                        lookup,
                        tail[i - prev.len()],
                        pc as int,
                        b,
                    );
                assert(hop_origin(basis, lookup, all[i], pc as int, b));
            }
        }
        assert forall|cc: int, b: nat|
            0 <= cc < c && b < bonds && #[trigger] can_hop_up(basis[cc], b) implies all.contains(
            up_hop(basis[cc], cc as nat, b, lookup),
        ) by {
            let e = up_hop(basis[cc], cc as nat, b, lookup);
            if cc < pc {
                let k = choose|k: int| 0 <= k < prev.len() && prev[k] == e;
                assert(all[k] == prev[k]);
            } else {
                let k = choose|k: int| 0 <= k < tail.len() && tail[k] == e;
                assert(all[prev.len() + k] == tail[k]);
            }
        }
        assert forall|cc: int, b: nat|
            0 <= cc < c && b < bonds && #[trigger] can_hop_down(basis[cc], b) implies all.contains(
            down_hop(basis[cc], cc as nat, b, lookup),
        ) by {
            let e = down_hop(basis[cc], cc as nat, b, lookup);
            if cc < pc {
                let k = choose|k: int| 0 <= k < prev.len() && prev[k] == e;
                assert(all[k] == prev[k]);
            } else {
                let k = choose|k: int| 0 <= k < tail.len() && tail[k] == e;
                assert(all[prev.len() + k] == tail[k]);
            }
        }
    } else {
        assert(hops_upto(basis, lookup, bonds, c) =~= Seq::empty());
    }
}

/// `entries` also holds the transposed entry of `h`, with the same sign.
pub open spec fn has_mirror(entries: Seq<Hop>, h: Hop) -> bool {
    entries.contains(Hop { from: h.to, to: h.from, sign: h.sign })
}

/// Reading the occupations of sites `b` and `b + 1` off the quotient
/// `x / 2^b`.
proof fn lemma_bits_from_quotient(x: nat, b: nat, h: nat, low: nat)
    requires
        low < 4,
        x / pow2(b) == 4 * h + low,
    ensures
        bit(x, b) == low % 2,
        bit(x, b + 1) == low / 2,
{
    lemma_pair_quotient(x, b);
}

/// The hopping matrix of one spin species on the canonical basis is
/// symmetric (every entry has its transpose, with the same value), and
/// every entry carries the sign `+1`: the matrix is `-J` times the
/// adjacency of states that differ by one nearest-neighbour move.
pub proof fn lemma_canonical_hopping_symmetric(l: nat, n: nat)
    requires
        l < 32,
    ensures
        forall|i: int|
            0 <= i < hopping_entries(basis_spec(l, n), l).len() ==> (#[trigger] hopping_entries(
                basis_spec(l, n),
                l,
            )[i]).sign == 1,
        forall|i: int|
            0 <= i < hopping_entries(basis_spec(l, n), l).len() ==> has_mirror(
                hopping_entries(basis_spec(l, n), l),
                #[trigger] hopping_entries(basis_spec(l, n), l)[i],
            ),
{
    let s = basis_spec(l, n);
    let lookup = index_map(s);
    let bonds = bond_count(l);
    let e = hopping_entries(s, l);
    vstd::bits::lemma_u32_pow2_no_overflow(l);
    lemma_masks_below_members(pow2(l), n);
    lemma_masks_below_len(pow2(l), n);
    lemma_index_map(s);
    lemma_canonical_basis_closed(l, n);
    lemma_hops_upto_members(s, lookup, bonds, s.len());
    assert forall|i: int| 0 <= i < e.len() implies (#[trigger] e[i]).sign == 1 && has_mirror(
        e,
        e[i],
    ) by {
        assert(from_states(s, lookup, e[i], s.len(), bonds));
        let (cc, b) = choose|cc: int, b: nat|
            0 <= cc < s.len() && b < bonds && #[trigger] hop_origin(s, lookup, e[i], cc, b);
        let m = s[cc];
        lemma_neighbour_hop_sign(m, b);
        lemma_pow2_pos(b);
        if can_hop_up(m, b) && e[i] == up_hop(m, cc as nat, b, lookup) {
            let t = hop_up_target(m, b);
            lemma_target_below_chain_top(m, b, l);
            assert(t as nat == m + pow2(b));
            assert(lookup.contains_key(t));
            let idx = lookup[t];
            assert(s[idx as int] == t);
            // The target can move its particle back down on the same bond.
            lemma_pair_quotient(m as nat, b);
            lemma_hop_up_keeps_popcount(m as nat, b);
            let h = (m as nat / pow2(b)) / 4;
            lemma_bits_from_quotient(t as nat, b, h, 2);
            assert(can_hop_down(t, b));
            assert(hop_down_target(t, b) == m);
            lemma_neighbour_hop_sign(t, b);
            // Positions in a strictly ascending basis are unique.
            assert(lookup[m] == cc as usize) by {
                assert(lookup.contains_key(m));
                let k = lookup[m];
                if (k as int) < cc {
                    assert(s[k as int] < s[cc]);
                }
            }
            assert(down_hop(t, idx as nat, b, lookup) == Hop { from: e[i].to, to: e[i].from, sign: e[i].sign });
            assert(can_hop_down(s[idx as int], b));
        } else {
            assert(can_hop_down(m, b) && e[i] == down_hop(m, cc as nat, b, lookup));
            let t = hop_down_target(m, b);
            lemma_pair_quotient(m as nat, b);
            lemma_hop_down_keeps_popcount(m as nat, b);
            assert(t as nat == m - pow2(b));
            assert(lookup.contains_key(t));
            let idx = lookup[t];
            assert(s[idx as int] == t);
            let h = (m as nat / pow2(b)) / 4;
            lemma_bits_from_quotient(t as nat, b, h, 1);
            assert(can_hop_up(t, b));
            assert(hop_up_target(t, b) == m);
            lemma_neighbour_hop_sign(t, b);
            assert(lookup[m] == cc as usize) by {
                assert(lookup.contains_key(m));
                let k = lookup[m];
                if (k as int) < cc {
                    assert(s[k as int] < s[cc]);
                }
            }
            assert(up_hop(t, idx as nat, b, lookup) == Hop { from: e[i].to, to: e[i].from, sign: e[i].sign });
            assert(can_hop_up(s[idx as int], b));
        }
    }
}

/// Every entry of the hopping matrix on a basis closed under hopping
/// points between valid basis positions.
pub proof fn lemma_entries_in_range(basis: Seq<u32>, l: nat)
    requires
        closed_under_hops(basis, l),
        basis.len() <= usize::MAX,
    ensures
        forall|i: int|
            0 <= i < hopping_entries(basis, l).len() ==> (#[trigger] hopping_entries(basis, l)[i]).from
                < basis.len() && hopping_entries(basis, l)[i].to < basis.len(),
{
    let lookup = index_map(basis);
    let e = hopping_entries(basis, l);
    lemma_index_map(basis);
    lemma_hops_upto_members(basis, lookup, bond_count(l), basis.len());
    assert forall|i: int| 0 <= i < e.len() implies (#[trigger] e[i]).from < basis.len() && e[i].to
        < basis.len() by {
        assert(from_states(basis, lookup, e[i], basis.len(), bond_count(l)));
        let (cc, b) = choose|cc: int, b: nat|
            0 <= cc < basis.len() && b < bond_count(l) && #[trigger] hop_origin(
                basis,
                lookup,
                e[i],
                cc,
                b,
            );
        if can_hop_up(basis[cc], b) && e[i] == up_hop(basis[cc], cc as nat, b, lookup) {
            assert(lookup.contains_key(hop_up_target(basis[cc], b)));
        } else {
            assert(lookup.contains_key(hop_down_target(basis[cc], b)));
        }
    }
}

/// `to` is `from` with one particle moved across bond `b` (between sites
/// `b` and `b + 1`), in either direction.
pub open spec fn moved_across(from: u32, to: u32, b: nat) -> bool {
    ||| bit(from as nat, b) == 1 && bit(from as nat, b + 1) == 0 && to as int == from + pow2(b)
    ||| bit(from as nat, b + 1) == 1 && bit(from as nat, b) == 0 && to as int == from - pow2(b)
}

/// `to` is `from` with one particle moved across one bond of an `l`-site
/// open chain.
pub open spec fn one_hop_apart(from: u32, to: u32, l: nat) -> bool {
    exists|b: nat| b + 1 < l && #[trigger] moved_across(from, to, b)
}

/// `entries` lists the move across bond `b` out of basis state `c`.
pub open spec fn lists_move(entries: Seq<Hop>, basis: Seq<u32>, c: int, b: nat) -> bool {
    exists|k: int|
        0 <= k < entries.len() && (#[trigger] entries[k]).from == c && entries[k].to < basis.len()
            && moved_across(basis[c], basis[entries[k].to as int], b)
}

/// Moving the particle on site `b` to the empty site `b + 1 < 32` stays
/// within 32 bits.
proof fn lemma_up_move_fits(m: u32, b: nat)
    requires
        b + 1 < 32,
        bit(m as nat, b) == 1,
        bit(m as nat, b + 1) == 0,
    ensures
        m + pow2(b) <= u32::MAX,
{
    let bb = b as u32;
    lemma_shift_bit(m, bb);
    lemma_shift_bit(m, (bb + 1) as u32);
    vstd::bits::lemma_u32_pow2_no_overflow(b);
    vstd::bits::lemma_u32_shl_is_mul(1, bb);
    assert(m + (1u32 << bb) <= 0xffff_ffffu32) by (bit_vector)
        requires
            bb < 31,
            (m >> bb) & 1 == 1,
            (m >> (bb + 1)) & 1 == 0,
    ;
}

/// The entries of the hopping matrix on a basis closed under hopping are
/// exactly the nearest-neighbour moves of the open `l`-site chain, each
/// with sign `+1`: every entry joins two basis states one move apart,
/// and for every state and every bond `b` with `b + 1 < l` (all `l - 1`
/// bonds) on which a particle can move, that move is an entry.
pub proof fn lemma_hopping_entries_are_chain_moves(basis: Seq<u32>, l: nat)
    requires
        closed_under_hops(basis, l),
        basis.len() <= usize::MAX,
        l <= 32,
    ensures
        forall|k: int|
            0 <= k < hopping_entries(basis, l).len() ==> {
                let e = #[trigger] hopping_entries(basis, l)[k];
                &&& e.from < basis.len()
                &&& e.to < basis.len()
                &&& e.sign == 1
                &&& one_hop_apart(basis[e.from as int], basis[e.to as int], l)
            },
        forall|c: int, b: nat|
            0 <= c < basis.len() && b + 1 < l && ((bit(basis[c] as nat, b) == 1 && bit(
                basis[c] as nat,
                b + 1,
            ) == 0) || (bit(basis[c] as nat, b + 1) == 1 && bit(basis[c] as nat, b) == 0))
                ==> #[trigger] lists_move(hopping_entries(basis, l), basis, c, b),
{
    let lookup = index_map(basis);
    let bonds = bond_count(l);
    let e = hopping_entries(basis, l);
    lemma_index_map(basis);
    lemma_entries_in_range(basis, l);
    lemma_hops_upto_members(basis, lookup, bonds, basis.len());
    assert forall|k: int| 0 <= k < e.len() implies {
        let h = #[trigger] e[k];
        &&& h.from < basis.len()
        &&& h.to < basis.len()
        &&& h.sign == 1
        &&& one_hop_apart(basis[h.from as int], basis[h.to as int], l)
    } by {
        let h = e[k];
        assert(from_states(basis, lookup, h, basis.len(), bonds));
        let (cc, b) = choose|cc: int, b: nat|
            0 <= cc < basis.len() && b < bonds && #[trigger] hop_origin(basis, lookup, h, cc, b);
        let m = basis[cc];
        lemma_neighbour_hop_sign(m, b);
        if can_hop_up(m, b) && h == up_hop(m, cc as nat, b, lookup) {
            lemma_up_move_fits(m, b);
            assert(lookup.contains_key(hop_up_target(m, b)));
            assert(basis[h.to as int] == hop_up_target(m, b));
            assert(moved_across(m, basis[h.to as int], b));
        } else {
            assert(can_hop_down(m, b) && h == down_hop(m, cc as nat, b, lookup));
            lemma_hop_down_keeps_popcount(m as nat, b);
            assert(lookup.contains_key(hop_down_target(m, b)));
            assert(basis[h.to as int] == hop_down_target(m, b));
            assert(moved_across(m, basis[h.to as int], b));
        }
    }
    assert forall|c: int, b: nat|
        0 <= c < basis.len() && b + 1 < l && ((bit(basis[c] as nat, b) == 1 && bit(
            basis[c] as nat,
            b + 1,
        ) == 0) || (bit(basis[c] as nat, b + 1) == 1 && bit(basis[c] as nat, b) == 0)) implies #[trigger] lists_move(
        e,
        basis,
        c,
        b,
    ) by {
        let m = basis[c];
        assert(b < bonds);
        if bit(m as nat, b) == 1 && bit(m as nat, b + 1) == 0 {
            assert(can_hop_up(m, b));
            let u = up_hop(m, c as nat, b, lookup);
            assert(e.contains(u));
            let k = choose|k: int| 0 <= k < e.len() && e[k] == u;
            lemma_up_move_fits(m, b);
            assert(lookup.contains_key(hop_up_target(m, b)));
            assert(basis[u.to as int] == hop_up_target(m, b));
            assert(moved_across(m, basis[e[k].to as int], b));
        } else {
            assert(can_hop_down(m, b));
            let d = down_hop(m, c as nat, b, lookup);
            assert(e.contains(d));
            let k = choose|k: int| 0 <= k < e.len() && e[k] == d;
            lemma_hop_down_keeps_popcount(m as nat, b);
            assert(lookup.contains_key(hop_down_target(m, b)));
            assert(basis[d.to as int] == hop_down_target(m, b));
            assert(moved_across(m, basis[e[k].to as int], b));
        }
    }
}

} // verus!
