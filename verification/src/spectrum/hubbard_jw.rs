//! Jordan-Wigner basis of the inhomogeneous Hubbard chain for a
//! matrix-free Hamiltonian.
//!
//! Joint basis row `r = up_idx * m_dn + dn_idx` holds the pair of masks
//! `(basis_up[up_idx], basis_dn[dn_idx])`, with both species bases in
//! the ascending order of `enumerate_basis`. Hopping of one species acts
//! on its own index and leaves the other (the spectator) unchanged.

use vstd::prelude::*;
use crate::reference::ed::{
    basis_spec, enumerate_basis, single_spin_hops, hopping_entries, Hop, index_map, bond_count,
    hops_upto, from_states, hop_origin, lemma_hops_upto_members, lemma_canonical_basis_closed,
    lemma_index_map, lemma_masks_below_len, lemma_basis_len, up_hop, down_hop, can_hop_up,
    can_hop_down, lemma_entries_in_range, has_mirror, lemma_canonical_hopping_symmetric,
    moved_across, one_hop_apart, lists_move, lemma_hopping_entries_are_chain_moves,
};
use vstd::arithmetic::div_mod::{lemma_fundamental_div_mod, lemma_fundamental_div_mod_converse};
use crate::reference::high_t_expansion::binom;
use crate::occupation::bit;

verus! {

/// One term `target += sign * source` of a species' hopping operator on
/// the joint basis (the hopping amplitude `-J` is applied by the caller).
#[derive(Clone, Copy, Debug, PartialEq, Eq, Structural)]
pub struct JointHop {
    pub source: usize,
    pub target: usize,
    pub sign: i32,
}

/// The joint-basis terms of one single-species entry `h`, one per state
/// of the other (spectator) species.
pub open spec fn joint_block(h: Hop, other: nat, m_dn: nat, spin_up: bool) -> Seq<JointHop> {
    Seq::new(
        other,
        |sp: int|
            if spin_up {
                JointHop {
                    source: (h.from * m_dn + sp) as usize,
                    target: (h.to * m_dn + sp) as usize,
                    sign: h.sign,
                }
            } else {
                JointHop {
                    source: (sp * m_dn + h.from) as usize,
                    target: (sp * m_dn + h.to) as usize,
                    sign: h.sign,
                }
            },
    )
}

/// The joint-basis terms of all single-species entries `hops`, entry by
/// entry.
pub open spec fn joint_terms(hops: Seq<Hop>, other: nat, m_dn: nat, spin_up: bool) -> Seq<JointHop>
    decreases hops.len(),
{
    if hops.len() == 0 {
        Seq::empty()
    } else {
        joint_terms(hops.drop_last(), other, m_dn, spin_up) + joint_block(
            hops.last(),
            other,
            m_dn,
            spin_up,
        )
    }
}

/// Joint basis pairs `(up_mask, dn_mask)` in row order.
pub open spec fn joint_spec(up: Seq<u32>, dn: Seq<u32>) -> Seq<(u32, u32)> {
    Seq::new(up.len() * dn.len(), |r: int| (up[r / (dn.len() as int)], dn[r % (dn.len() as int)]))
}

/// Occupation-bitmask basis of the `(n_up, n_dn)` sector of an
/// `num_sites`-site chain.
#[derive(Debug)]
pub struct JwBasis {
    num_sites: usize,
    n_up: usize,
    n_dn: usize,
    basis_up: Vec<u32>,
    basis_dn: Vec<u32>,
    m_dn: usize,
}

impl JwBasis {
    /// The basis is the canonical sector basis of both species, and the
    /// joint dimension fits in `usize`.
    pub closed spec fn wf(&self) -> bool {
        &&& self.num_sites < 32
        &&& self.basis_up@ == basis_spec(self.num_sites as nat, self.n_up as nat)
        &&& self.basis_dn@ == basis_spec(self.num_sites as nat, self.n_dn as nat)
        &&& self.m_dn == self.basis_dn.len()
        &&& self.basis_up.len() * self.basis_dn.len() <= usize::MAX
    }

    pub closed spec fn sites(&self) -> nat {
        self.num_sites as nat
    }

    pub closed spec fn up_count(&self) -> nat {
        self.n_up as nat
    }

    pub closed spec fn dn_count(&self) -> nat {
        self.n_dn as nat
    }

    /// Masks of the spin-up species, ascending.
    pub open spec fn up(&self) -> Seq<u32> {
        basis_spec(self.sites(), self.up_count())
    }

    /// Masks of the spin-down species, ascending.
    pub open spec fn dn(&self) -> Seq<u32> {
        basis_spec(self.sites(), self.dn_count())
    }

    /// Build the basis of the `(n_up, n_dn)` sector on `num_sites` sites.
    pub fn new(num_sites: usize, n_up: usize, n_dn: usize) -> (r: Self)
        requires
            num_sites < 32,
            binom(num_sites as nat, n_up as nat) * binom(num_sites as nat, n_dn as nat)
                <= usize::MAX,
        ensures
            r.wf(),
            r.sites() == num_sites,
            r.up_count() == n_up,
            r.dn_count() == n_dn,
    {
        let basis_up = enumerate_basis(num_sites, n_up);
        let basis_dn = if n_up == n_dn {
            basis_up.clone()
        } else {
            enumerate_basis(num_sites, n_dn)
        };
        proof {
            lemma_basis_len(num_sites as nat, n_up as nat);
            lemma_basis_len(num_sites as nat, n_dn as nat);
        }
        let m_dn = basis_dn.len();
        JwBasis { num_sites, n_up, n_dn, basis_up, basis_dn, m_dn }
    }

    /// Number of lattice sites `L`.
    pub fn num_sites(&self) -> (r: usize)
        ensures
            r == self.sites(),
    {
        self.num_sites
    }

    /// Hilbert dimension `C(L, n_up) * C(L, n_dn)` of the joint basis.
    pub fn dim(&self) -> (r: usize)
        requires
            self.wf(),
        ensures
            r == binom(self.sites(), self.up_count()) * binom(self.sites(), self.dn_count()),
            r == self.up().len() * self.dn().len(),
    {
        proof {
            lemma_basis_len(self.num_sites as nat, self.n_up as nat);
            lemma_basis_len(self.num_sites as nat, self.n_dn as nat);
        }
        self.basis_up.len() * self.basis_dn.len()
    }

    /// Per-row joint masks `(up_mask, dn_mask)`; row `r = up_idx * m_dn
    /// + dn_idx`.
    pub fn joint_masks(&self) -> (r: Vec<(u32, u32)>)
        requires
            self.wf(),
        ensures
            r@ == joint_spec(self.up(), self.dn()),
    {
        let m_up = self.basis_up.len();
        let m_dn = self.basis_dn.len();
        let mut out: Vec<(u32, u32)> = Vec::new();
        let mut a: usize = 0;
        while a < m_up
            invariant
                self.wf(),
                m_up == self.up().len(),
                m_dn == self.dn().len(),
                a <= m_up,
                out@.len() == a * m_dn,
                forall|r: int|
                    0 <= r < out@.len() ==> #[trigger] out@[r] == joint_spec(self.up(), self.dn())[r],
            decreases m_up - a,
        {
            let up = self.basis_up[a];
            let mut b: usize = 0;
            while b < m_dn
                invariant
                    self.wf(),
                    m_up == self.up().len(),
                    m_dn == self.dn().len(),
                    a < m_up,
                    up == self.up()[a as int],
                    b <= m_dn,
                    out@.len() == a * m_dn + b,
                    forall|r: int|
                        0 <= r < out@.len() ==> #[trigger] out@[r] == joint_spec(
                            self.up(),
                            self.dn(),
                        )[r],
                decreases m_dn - b,
            {
                let dn = self.basis_dn[b];
                proof {
                    let r = a * m_dn + b;
                    assert(r / (m_dn as int) == a) by (nonlinear_arith)
                        requires r == a * m_dn + b, b < m_dn;
                    assert(r % (m_dn as int) == b) by (nonlinear_arith)
                        requires r == a * m_dn + b, b < m_dn;
                    assert(r < m_up * m_dn) by (nonlinear_arith)
                        requires r == a * m_dn + b, b < m_dn, a < m_up;
                }
                out.push((up, dn));
                b = b + 1;
            }
            proof {
                assert((a + 1) * m_dn == a * m_dn + m_dn) by (nonlinear_arith);
            }
            a = a + 1;
        }
        assert(out@ =~= joint_spec(self.up(), self.dn()));
        out
    }

    /// Masks of the species that hops (`spin_up` selects it).
    pub open spec fn active(&self, spin_up: bool) -> Seq<u32> {
        if spin_up {
            self.up()
        } else {
            self.dn()
        }
    }

    /// Number of states of the spectator species.
    pub open spec fn spectators(&self, spin_up: bool) -> nat {
        if spin_up {
            self.dn().len()
        } else {
            self.up().len()
        }
    }

    /// Terms of the nearest-neighbour hopping of one species on the
    /// joint basis: `y[target] += -J * sign * x[source]` over the
    /// returned terms applies that species' kinetic operator. Terms come
    /// in the order of the single-species entries, each repeated over the
    /// spectator states.
    pub fn hop_terms(&self, spin_up: bool) -> (r: Vec<JointHop>)
        requires
            self.wf(),
        ensures
            r@ == joint_terms(
                hopping_entries(self.active(spin_up), self.sites()),
                self.spectators(spin_up),
                self.dn().len(),
                spin_up,
            ),
            forall|k: int|
                0 <= k < r@.len() ==> (#[trigger] r@[k]).source < self.up().len() * self.dn().len()
                    && r@[k].target < self.up().len() * self.dn().len(),
            forall|k: int| 0 <= k < r@.len() ==> (#[trigger] r@[k]).sign == 1,
    {
        let m_up = self.basis_up.len();
        let m_dn = self.basis_dn.len();
        let active: &Vec<u32> = if spin_up { &self.basis_up } else { &self.basis_dn };
        let other: usize = if spin_up { m_dn } else { m_up };
        let m_active: usize = if spin_up { m_up } else { m_dn };
        let ghost n_active = if spin_up { self.n_up } else { self.n_dn };
        proof {
            lemma_canonical_basis_closed(self.num_sites as nat, n_active as nat);
            lemma_masks_below_len(vstd::arithmetic::power2::pow2(self.num_sites as nat), n_active as nat);
            vstd::bits::lemma_u32_pow2_no_overflow(self.num_sites as nat);
            lemma_entries_in_range(active@, self.num_sites as nat);
        }
        let hops = single_spin_hops(active.as_slice(), self.num_sites);
        let ghost terms = hops@;
        let mut out: Vec<JointHop> = Vec::new();
        let mut k: usize = 0;
        while k < hops.len()
            invariant
                self.wf(),
                m_up == self.up().len(),
                m_dn == self.dn().len(),
                m_dn == self.m_dn,
                active@ == self.active(spin_up),
                other == self.spectators(spin_up),
                m_active == active@.len(),
                terms == hops@,
                terms == hopping_entries(active@, self.num_sites as nat),
                forall|i: int|
                    0 <= i < terms.len() ==> (#[trigger] terms[i]).from < m_active && terms[i].to
                        < m_active,
                k <= hops.len(),
                out@ == joint_terms(terms.take(k as int), other as nat, m_dn as nat, spin_up),
                forall|j: int|
                    0 <= j < out@.len() ==> (#[trigger] out@[j]).source < m_up * m_dn
                        && out@[j].target < m_up * m_dn,
            decreases hops.len() - k,
        {
            let h = hops[k];
            let ghost base = out@;
            let mut sp: usize = 0;
            while sp < other
                invariant
                    self.wf(),
                    m_up == self.up().len(),
                    m_dn == self.dn().len(),
                    other == self.spectators(spin_up),
                    m_active == (if spin_up { m_up } else { m_dn }),
                    h.from < m_active,
                    h.to < m_active,
                    sp <= other,
                    out@ == base + joint_block(h, sp as nat, m_dn as nat, spin_up),
                    forall|j: int|
                        0 <= j < out@.len() ==> (#[trigger] out@[j]).source < m_up * m_dn
                            && out@[j].target < m_up * m_dn,
                decreases other - sp,
            {
                let t = if spin_up {
                    proof {
                        assert(h.from * m_dn + sp < m_up * m_dn) by (nonlinear_arith)
                            requires h.from < m_up, sp < m_dn;
                        assert(h.to * m_dn + sp < m_up * m_dn) by (nonlinear_arith)
                            requires h.to < m_up, sp < m_dn;
                    }
                    JointHop { source: h.from * m_dn + sp, target: h.to * m_dn + sp, sign: h.sign }
                } else {
                    proof {
                        assert(sp * m_dn + h.from < m_up * m_dn) by (nonlinear_arith)
                            requires sp < m_up, h.from < m_dn;
                        assert(sp * m_dn + h.to < m_up * m_dn) by (nonlinear_arith)
                            requires sp < m_up, h.to < m_dn;
                    }
                    JointHop { source: sp * m_dn + h.from, target: sp * m_dn + h.to, sign: h.sign }
                };
                out.push(t);
                proof {
                    assert(joint_block(h, (sp + 1) as nat, m_dn as nat, spin_up) =~= joint_block(
                        h,
                        sp as nat,
                        m_dn as nat,
                        spin_up,
                    ).push(t));
                }
                sp = sp + 1;
            }
            proof {
                assert(terms.take(k + 1).drop_last() =~= terms.take(k as int));
                assert(terms.take(k + 1).last() == h);
            }
            k = k + 1;
        }
        assert(terms.take(hops.len() as int) =~= terms);
        proof {
            lemma_basis_len(self.num_sites as nat, self.n_up as nat);
            lemma_basis_len(self.num_sites as nat, self.n_dn as nat);
            lemma_hop_terms_are_species_moves(
                self.num_sites as nat,
                self.n_up as nat,
                self.n_dn as nat,
                spin_up,
            );
            assert(out@ == species_terms(self.num_sites as nat, self.n_up as nat, self.n_dn as nat, spin_up));
            assert forall|k: int| 0 <= k < out@.len() implies (#[trigger] out@[k]).sign == 1 by {
                let t = species_terms(self.num_sites as nat, self.n_up as nat, self.n_dn as nat, spin_up)[k];
                assert(t.sign == 1);
            }
        }
        out
    }
}

/// The joint-basis term of single-species entry `h` for spectator
/// state `sp`.
pub open spec fn joint_of(h: Hop, sp: int, m_dn: nat, spin_up: bool) -> JointHop {
    if spin_up {
        JointHop { source: (h.from * m_dn + sp) as usize, target: (h.to * m_dn + sp) as usize, sign: h.sign }
    } else {
        JointHop { source: (sp * m_dn + h.from) as usize, target: (sp * m_dn + h.to) as usize, sign: h.sign }
    }
}

/// The term with source and target exchanged.
pub open spec fn transposed(t: JointHop) -> JointHop {
    JointHop { source: t.target, target: t.source, sign: t.sign }
}

/// Term `k * other + sp` of the joint terms is entry `k` for spectator
/// `sp`.
proof fn lemma_joint_terms_index(hops: Seq<Hop>, other: nat, m_dn: nat, spin_up: bool)
    ensures
        joint_terms(hops, other, m_dn, spin_up).len() == hops.len() * other,
        forall|k: int, sp: int|
            0 <= k < hops.len() && 0 <= sp < other ==> #[trigger] joint_terms(hops, other, m_dn, spin_up)[k
                * other + sp] == joint_of(hops[k], sp, m_dn, spin_up),
    decreases hops.len(),
{
    if hops.len() > 0 {
        let init = hops.drop_last();
        lemma_joint_terms_index(init, other, m_dn, spin_up);
        let prev = joint_terms(init, other, m_dn, spin_up);
        let all = joint_terms(hops, other, m_dn, spin_up);
        assert(prev.len() + other == hops.len() * other) by (nonlinear_arith)
            requires prev.len() == (hops.len() - 1) * other;
        assert forall|k: int, sp: int| 0 <= k < hops.len() && 0 <= sp < other implies #[trigger] all[k
            * other + sp] == joint_of(hops[k], sp, m_dn, spin_up) by {
            if k < hops.len() - 1 {
                assert(k * other + sp < (hops.len() - 1) * other) by (nonlinear_arith)
                    requires k < hops.len() - 1, sp < other, 0 <= sp;
                assert(init[k] == hops[k]);
            } else {
                assert(k * other == prev.len());
            }
        }
    }
}

/// Every joint term comes from some entry and spectator state.
proof fn lemma_joint_terms_origin(hops: Seq<Hop>, other: nat, m_dn: nat, spin_up: bool, j: int)
    requires
        0 <= j < joint_terms(hops, other, m_dn, spin_up).len(),
    ensures
        other > 0,
        0 <= j / (other as int) < hops.len(),
        joint_terms(hops, other, m_dn, spin_up)[j] == joint_of(
            hops[j / (other as int)],
            j % (other as int),
            m_dn,
            spin_up,
        ),
{
    lemma_joint_terms_index(hops, other, m_dn, spin_up);
    let o = other as int;
    assert(j < hops.len() * o);
    assert(o > 0) by (nonlinear_arith)
        requires 0 <= j < hops.len() * o, o >= 0, hops.len() >= 0;
    let k = j / o;
    let sp = j % o;
    assert(j == k * o + sp && 0 <= sp < o) by (nonlinear_arith)
        requires o > 0, k == j / o, sp == j % o;
    assert(0 <= k < hops.len()) by (nonlinear_arith)
        requires j == k * o + sp, 0 <= sp < o, 0 <= j < hops.len() * o;
}

/// The hopping terms of either species on the joint basis of the
/// `(n_up, n_dn)` sector describe a symmetric operator: the transpose of
/// every term, with the same sign, is a term too.
pub proof fn lemma_joint_hopping_symmetric(l: nat, n_up: nat, n_dn: nat, spin_up: bool)
    requires
        l < 32,
    ensures
        ({
            let active = if spin_up { basis_spec(l, n_up) } else { basis_spec(l, n_dn) };
            let other = if spin_up { basis_spec(l, n_dn).len() } else { basis_spec(l, n_up).len() };
            let terms = joint_terms(hopping_entries(active, l), other, basis_spec(l, n_dn).len(), spin_up);
            forall|i: int| 0 <= i < terms.len() ==> terms.contains(transposed(#[trigger] terms[i]))
        }),
{
    let n = if spin_up { n_up } else { n_dn };
    let active = basis_spec(l, n);
    let other = if spin_up { basis_spec(l, n_dn).len() } else { basis_spec(l, n_up).len() };
    let m_dn = basis_spec(l, n_dn).len();
    let e = hopping_entries(active, l);
    let terms = joint_terms(e, other, m_dn, spin_up);
    lemma_canonical_hopping_symmetric(l, n);
    lemma_joint_terms_index(e, other, m_dn, spin_up);
    assert forall|i: int| 0 <= i < terms.len() implies terms.contains(transposed(#[trigger] terms[i])) by {
        lemma_joint_terms_origin(e, other, m_dn, spin_up, i);
        let o = other as int;
        let k = i / o;
        let sp = i % o;
        assert(0 <= sp < o) by (nonlinear_arith)
            requires o > 0, sp == i % o;
        let h = e[k];
        assert(has_mirror(e, h));
        let mirror = Hop { from: h.to, to: h.from, sign: h.sign };
        let k2 = choose|k2: int| 0 <= k2 < e.len() && e[k2] == mirror;
        assert(0 <= k2 * o + sp < terms.len()) by (nonlinear_arith)
            requires 0 <= k2 < e.len(), 0 <= sp < o, terms.len() == e.len() * o;
        assert(terms[k2 * o + sp] == joint_of(mirror, sp, m_dn, spin_up));
        assert(joint_of(mirror, sp, m_dn, spin_up) == transposed(terms[i]));
    }
}

/// The mask of the hopping species in joint row `r` (`m_dn = dn.len()`).
pub open spec fn row_mask(up: Seq<u32>, dn: Seq<u32>, r: int, spin_up: bool) -> u32 {
    if spin_up {
        up[r / (dn.len() as int)]
    } else {
        dn[r % (dn.len() as int)]
    }
}

/// Rows `r1` and `r2` hold the same state of the spectator species.
pub open spec fn same_spectator(dn_len: nat, r1: int, r2: int, spin_up: bool) -> bool {
    if spin_up {
        r1 % (dn_len as int) == r2 % (dn_len as int)
    } else {
        r1 / (dn_len as int) == r2 / (dn_len as int)
    }
}

/// `terms` holds a term out of row `r` that moves the hopping species'
/// particle across bond `b` and keeps the spectator.
pub open spec fn joint_lists_move(
    terms: Seq<JointHop>,
    up: Seq<u32>,
    dn: Seq<u32>,
    r: int,
    b: nat,
    spin_up: bool,
) -> bool {
    exists|k: int|
        0 <= k < terms.len() && (#[trigger] terms[k]).source == r && same_spectator(
            dn.len(),
            r,
            terms[k].target as int,
            spin_up,
        ) && moved_across(row_mask(up, dn, r, spin_up), row_mask(up, dn, terms[k].target as int, spin_up), b)
}

/// The joint hopping terms of one species on the `(n_up, n_dn)` sector
/// of an `l`-site chain, as `JwBasis::hop_terms` lists them.
pub open spec fn species_terms(l: nat, n_up: nat, n_dn: nat, spin_up: bool) -> Seq<JointHop> {
    let up = basis_spec(l, n_up);
    let dn = basis_spec(l, n_dn);
    joint_terms(
        hopping_entries(if spin_up { up } else { dn }, l),
        if spin_up { dn.len() } else { up.len() },
        dn.len(),
        spin_up,
    )
}

/// `x = q * m + s` with `0 <= s < m` splits as quotient `q`, remainder `s`.
proof fn lemma_row_split(x: int, q: int, s: int, m: int)
    requires
        m > 0,
        0 <= s < m,
        x == q * m + s,
    ensures
        x / m == q,
        x % m == s,
{
    lemma_fundamental_div_mod_converse(x, m, q, s);
}

/// The joint hopping terms of a species on the `(n_up, n_dn)` sector are
/// exactly that species' nearest-neighbour moves with the other species
/// left in place, each with sign `+1` (so `-J` times each term is the
/// kinetic operator `-J sum c+_i c_j` of that species): every term joins
/// two rows whose spectator states agree and whose hopping-species states
/// are one move apart on the open chain; and out of every row, every
/// move of the hopping species across any bond `b < l - 1` is a term.
pub proof fn lemma_hop_terms_are_species_moves(l: nat, n_up: nat, n_dn: nat, spin_up: bool)
    requires
        l < 32,
        binom(l, n_up) * binom(l, n_dn) <= usize::MAX,
    ensures
        forall|k: int|
            0 <= k < species_terms(l, n_up, n_dn, spin_up).len() ==> {
                let t = #[trigger] species_terms(l, n_up, n_dn, spin_up)[k];
                let up = basis_spec(l, n_up);
                let dn = basis_spec(l, n_dn);
                &&& t.sign == 1
                &&& t.source < up.len() * dn.len()
                &&& t.target < up.len() * dn.len()
                &&& same_spectator(dn.len(), t.source as int, t.target as int, spin_up)
                &&& one_hop_apart(
                    row_mask(up, dn, t.source as int, spin_up),
                    row_mask(up, dn, t.target as int, spin_up),
                    l,
                )
            },
        forall|r: int, b: nat|
            0 <= r < basis_spec(l, n_up).len() * basis_spec(l, n_dn).len() && b + 1 < l && ((bit(
                row_mask(basis_spec(l, n_up), basis_spec(l, n_dn), r, spin_up) as nat,
                b,
            ) == 1 && bit(row_mask(basis_spec(l, n_up), basis_spec(l, n_dn), r, spin_up) as nat, b + 1)
                == 0) || (bit(row_mask(basis_spec(l, n_up), basis_spec(l, n_dn), r, spin_up) as nat, b + 1)
                == 1 && bit(row_mask(basis_spec(l, n_up), basis_spec(l, n_dn), r, spin_up) as nat, b) == 0))
                ==> #[trigger] joint_lists_move(
                species_terms(l, n_up, n_dn, spin_up),
                basis_spec(l, n_up),
                basis_spec(l, n_dn),
                r,
                b,
                spin_up,
            ),
{
    let up = basis_spec(l, n_up);
    let dn = basis_spec(l, n_dn);
    let n = if spin_up { n_up } else { n_dn };
    let active = basis_spec(l, n);
    let other = if spin_up { dn.len() } else { up.len() };
    let m = dn.len() as int;
    let o = other as int;
    let e = hopping_entries(active, l);
    let terms = joint_terms(e, other, dn.len(), spin_up);
    assert(terms == species_terms(l, n_up, n_dn, spin_up));
    lemma_basis_len(l, n_up);
    lemma_basis_len(l, n_dn);
    lemma_masks_below_len(vstd::arithmetic::power2::pow2(l), n);
    vstd::bits::lemma_u32_pow2_no_overflow(l);
    lemma_canonical_basis_closed(l, n);
    lemma_hopping_entries_are_chain_moves(active, l);
    lemma_joint_terms_index(e, other, dn.len(), spin_up);
    let dim = up.len() * dn.len();
    assert forall|k: int| 0 <= k < terms.len() implies {
        let t = #[trigger] terms[k];
        &&& t.sign == 1
        &&& t.source < dim
        &&& t.target < dim
        &&& same_spectator(dn.len(), t.source as int, t.target as int, spin_up)
        &&& one_hop_apart(row_mask(up, dn, t.source as int, spin_up), row_mask(up, dn, t.target as int, spin_up), l)
    } by {
        lemma_joint_terms_origin(e, other, dn.len(), spin_up, k);
        let q = k / o;
        let sp = k % o;
        assert(0 <= sp < o) by (nonlinear_arith)
            requires o > 0, sp == k % o;
        let h = e[q];
        assert(h.from < active.len() && h.to < active.len() && h.sign == 1);
        assert(one_hop_apart(active[h.from as int], active[h.to as int], l));
        let t = terms[k];
        if spin_up {
            let xs = h.from * m + sp;
            let xt = h.to * m + sp;
            assert(0 <= xs < up.len() * m && 0 <= xt < up.len() * m) by (nonlinear_arith)
                requires
                    0 <= h.from < up.len(),
                    0 <= h.to < up.len(),
                    0 <= sp < m,
                    xs == h.from * m + sp,
                    xt == h.to * m + sp,
            ;
            assert(t.source == xs && t.target == xt);
            lemma_row_split(xs, h.from as int, sp, m);
            lemma_row_split(xt, h.to as int, sp, m);
        } else {
            let xs = sp * m + h.from;
            let xt = sp * m + h.to;
            assert(0 <= xs < up.len() * m && 0 <= xt < up.len() * m) by (nonlinear_arith)
                requires
                    0 <= h.from < m,
                    0 <= h.to < m,
                    0 <= sp < up.len(),
                    xs == sp * m + h.from,
                    xt == sp * m + h.to,
            ;
            assert(t.source == xs && t.target == xt);
            lemma_row_split(xs, sp, h.from as int, m);
            lemma_row_split(xt, sp, h.to as int, m);
        }
    }
    assert forall|r: int, b: nat|
        0 <= r < dim && b + 1 < l && ((bit(row_mask(up, dn, r, spin_up) as nat, b) == 1 && bit(
            row_mask(up, dn, r, spin_up) as nat,
            b + 1,
        ) == 0) || (bit(row_mask(up, dn, r, spin_up) as nat, b + 1) == 1 && bit(
            row_mask(up, dn, r, spin_up) as nat,
            b,
        ) == 0)) implies #[trigger] joint_lists_move(terms, up, dn, r, b, spin_up) by {
        assert(m > 0) by (nonlinear_arith)
            requires 0 <= r < up.len() * m, m >= 0, up.len() >= 0;
        lemma_fundamental_div_mod(r, m);
        let a = r / m;
        let sp = r % m;
        assert(0 <= sp < m) by (nonlinear_arith)
            requires m > 0, sp == r % m;
        assert(0 <= a < up.len()) by (nonlinear_arith)
            requires 0 <= r < up.len() * m, m > 0, r == m * a + sp, 0 <= sp < m;
        let c: int = if spin_up { a } else { sp };
        let sp2: int = if spin_up { sp } else { a };
        assert(active[c] == row_mask(up, dn, r, spin_up));
        assert(lists_move(e, active, c, b));
        let k2 = choose|k2: int|
            0 <= k2 < e.len() && (#[trigger] e[k2]).from == c && e[k2].to < active.len()
                && moved_across(active[c], active[e[k2].to as int], b);
        let h = e[k2];
        assert(0 <= sp2 < o);
        let qi = k2 * o + sp2;
        assert(0 <= qi < e.len() * o) by (nonlinear_arith)
            requires 0 <= k2 < e.len(), 0 <= sp2 < o, qi == k2 * o + sp2;
        assert(terms[qi] == joint_of(h, sp2, dn.len(), spin_up));
        let t = terms[qi];
        if spin_up {
            let xs = h.from * m + sp;
            let xt = h.to * m + sp;
            assert(0 <= xs < up.len() * m && 0 <= xt < up.len() * m) by (nonlinear_arith)
                requires
                    0 <= h.from < up.len(),
                    0 <= h.to < up.len(),
                    0 <= sp < m,
                    xs == h.from * m + sp,
                    xt == h.to * m + sp,
            ;
            assert(xs == r) by (nonlinear_arith)
                requires xs == h.from * m + sp, h.from == a, r == m * a + sp;
            lemma_row_split(xt, h.to as int, sp, m);
            assert(t.source == r && t.target == xt);
        } else {
            let xs = sp2 * m + h.from;
            let xt = sp2 * m + h.to;
            assert(0 <= xs < up.len() * m && 0 <= xt < up.len() * m) by (nonlinear_arith)
                requires
                    0 <= h.from < m,
                    0 <= h.to < m,
                    0 <= sp2 < up.len(),
                    xs == sp2 * m + h.from,
                    xt == sp2 * m + h.to,
            ;
            assert(xs == r) by (nonlinear_arith)
                requires xs == sp2 * m + h.from, h.from == sp, sp2 == a, r == m * a + sp;
            lemma_row_split(xt, sp2, h.to as int, m);
            assert(t.source == r && t.target == xt);
        }
        assert(same_spectator(dn.len(), r, t.target as int, spin_up));
        assert(moved_across(row_mask(up, dn, r, spin_up), row_mask(up, dn, t.target as int, spin_up), b));
    }
}

} // verus!
