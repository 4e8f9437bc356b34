//! Hilbert-space dimensions of canonical sectors.
//!
//! The canonical sector `(N_up, N_dn)` of an `L`-site spinful chain has
//! dimension `D = C(L, N_up) * C(L, N_dn)`; the leading high-temperature
//! free energy `-T ln D` depends on nothing else.

use vstd::prelude::*;

verus! {

/// Binomial coefficient `C(n, k)` by Pascal's rule.
pub open spec fn binom(n: nat, k: nat) -> nat
    decreases n,
{
    if k == 0 {
        1
    } else if n == 0 {
        0
    } else {
        binom((n - 1) as nat, (k - 1) as nat) + binom((n - 1) as nat, k)
    }
}

/// The smaller of `k` and `n - k` (for `k <= n`).
pub open spec fn lesser_side(n: nat, k: nat) -> nat {
    if k <= n - k { k } else { (n - k) as nat }
}

/// `binomial(n, k)` computes without overflowing `u128`: its largest
/// intermediate product is `min(k, n - k) * C(n, k)`.
pub open spec fn binomial_fits(n: nat, k: nat) -> bool {
    k <= n ==> lesser_side(n, k) * binom(n, k) <= u128::MAX
}

/// There is no way to pick more items than there are.
pub proof fn lemma_binom_above(n: nat, k: nat)
    requires
        k > n,
    ensures
        binom(n, k) == 0,
    decreases n,
{
    if n > 0 {
        lemma_binom_above((n - 1) as nat, (k - 1) as nat);
        lemma_binom_above((n - 1) as nat, k);
    }
}

/// `C(n, n) == 1`.
pub proof fn lemma_binom_all(n: nat)
    ensures
        binom(n, n) == 1,
    decreases n,
{
    if n > 0 {
        lemma_binom_all((n - 1) as nat);
        lemma_binom_above((n - 1) as nat, n);
    }
}

/// Absorption identity: `(n - k) * C(n, k) == (k + 1) * C(n, k + 1)`.
pub proof fn lemma_binom_absorb(n: nat, k: nat)
    ensures
        (n - k) * binom(n, k) == (k + 1) * binom(n, k + 1),
    decreases n,
{
    if n == 0 {
        lemma_binom_above(0, k + 1);
        if k > 0 {
            lemma_binom_above(0, k);
            assert((n - k) * binom(n, k) == 0) by (nonlinear_arith)
                requires binom(n, k) == 0;
        }
        assert((k + 1) * binom(n, k + 1) == 0) by (nonlinear_arith)
            requires binom(n, k + 1) == 0;
    } else {
        let m = (n - 1) as nat;
        let b1 = binom(m, k);
        let b2 = binom(m, k + 1);
        lemma_binom_absorb(m, k);
        assert(binom(n, k + 1) == b1 + b2);
        assert((k + 1) * binom(n, k + 1) == n * b1) by (nonlinear_arith)
            requires
                binom(n, k + 1) == b1 + b2,
                (m - k) * b1 == (k + 1) * b2,
                m == n - 1,
        ;
        if k == 0 {
            assert(binom(n, 0) == 1);
            assert(binom(m, 0) == 1);
            assert((n - k) * binom(n, k) == n * b1) by (nonlinear_arith)
                requires
                    k == 0,
                    binom(n, k) == 1,
                    b1 == 1,
            ;
        } else {
            let b0 = binom(m, (k - 1) as nat);
            lemma_binom_absorb(m, (k - 1) as nat);
            assert(binom(n, k) == b0 + b1);
            assert((n - k) * binom(n, k) == n * b1) by (nonlinear_arith)
                requires
                    binom(n, k) == b0 + b1,
                    (m - (k - 1)) * b0 == k * b1,
                    m == n - 1,
            ;
        }
    }
}

/// Symmetry: `C(n, k) == C(n, n - k)`.
pub proof fn lemma_binom_symmetric(n: nat, k: nat)
    requires
        k <= n,
    ensures
        binom(n, k) == binom(n, (n - k) as nat),
    decreases n,
{
    if n > 0 {
        if k == 0 {
            lemma_binom_all(n);
        } else if k == n {
            lemma_binom_all(n);
        } else {
            let m = (n - 1) as nat;
            lemma_binom_symmetric(m, (k - 1) as nat);
            lemma_binom_symmetric(m, k);
            assert((n - k) as nat == ((m - k) as nat) + 1);
        }
    }
}

/// `j * C(n, j)` does not decrease while `2 * j <= n`.
proof fn lemma_weighted_binom_grows(n: nat, j: nat, top: nat)
    requires
        j <= top,
        2 * top <= n,
    ensures
        j * binom(n, j) <= top * binom(n, top),
    decreases top - j,
{
    if j < top {
        lemma_weighted_binom_grows(n, j + 1, top);
        lemma_binom_absorb(n, j);
        assert(j * binom(n, j) <= (j + 1) * binom(n, j + 1)) by (nonlinear_arith)
            requires
                (n - j) * binom(n, j) == (j + 1) * binom(n, j + 1),
                2 * j < n,
        ;
    }
}

/// Binomial coefficient `C(n, k)`; zero when `k > n`.
pub fn binomial(n: usize, k: usize) -> (r: u128)
    requires
        binomial_fits(n as nat, k as nat),
    ensures
        r == binom(n as nat, k as nat),
{
    if k > n {
        proof {
            lemma_binom_above(n as nat, k as nat);
        }
        return 0;
    }
    let kk: usize = if k < n - k { k } else { n - k };
    proof {
        lemma_binom_symmetric(n as nat, k as nat);
        lemma_binom_symmetric(n as nat, kk as nat);
        assert(binom(n as nat, kk as nat) == binom(n as nat, k as nat));
        assert(kk * binom(n as nat, k as nat) <= u128::MAX);
    }
    let mut acc: u128 = 1;
    let mut i: usize = 0;
    while i < kk
        invariant
            i <= kk,
            2 * kk <= n,
            acc == binom(n as nat, i as nat),
            kk * binom(n as nat, kk as nat) <= u128::MAX,
        decreases kk - i,
    {
        proof {
            lemma_binom_absorb(n as nat, i as nat);
            lemma_weighted_binom_grows(n as nat, (i + 1) as nat, kk as nat);
            assert(acc * (n - i) <= u128::MAX) by (nonlinear_arith)
                requires
                    (n - i) * binom(n as nat, i as nat) == (i + 1) * binom(n as nat, (i + 1) as nat),
                    acc == binom(n as nat, i as nat),
                    (i + 1) * binom(n as nat, (i + 1) as nat) <= kk * binom(n as nat, kk as nat),
                    kk * binom(n as nat, kk as nat) <= u128::MAX,
            ;
        }
        let t: u128 = acc * ((n - i) as u128);
        proof {
            vstd::arithmetic::div_mod::lemma_div_by_multiple(
                binom(n as nat, (i + 1) as nat) as int,
                (i + 1) as int,
            );
            assert(t == binom(n as nat, (i + 1) as nat) * (i + 1)) by (nonlinear_arith)
                requires
                    t == acc * (n - i),
                    (n - i) * binom(n as nat, i as nat) == (i + 1) * binom(n as nat, (i + 1) as nat),
                    acc == binom(n as nat, i as nat),
            ;
        }
        acc = t / ((i + 1) as u128);
        i = i + 1;
    }
    acc
}

/// Hilbert-space dimension `C(l, n_up) * C(l, n_dn)` of the canonical
/// sector `(n_up, n_dn)` on `l` sites.
pub fn canonical_hilbert_dim(l: usize, n_up: usize, n_dn: usize) -> (r: u128)
    requires
        binomial_fits(l as nat, n_up as nat),
        binomial_fits(l as nat, n_dn as nat),
        binom(l as nat, n_up as nat) * binom(l as nat, n_dn as nat) <= u128::MAX,
    ensures
        r == binom(l as nat, n_up as nat) * binom(l as nat, n_dn as nat),
{
    let a = binomial(l, n_up);
    let b = binomial(l, n_dn);
    a * b
}

} // verus!
