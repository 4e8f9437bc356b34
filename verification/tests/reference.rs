use scrapbox::occupation::{count_ones, double_occupancy, site_occupation};
use scrapbox::reference::bethe::LiebWuParams;
use scrapbox::reference::ed::{enumerate_basis, fermion_sign, hops_stay_in_basis, single_spin_hops, Hop};
use scrapbox::reference::high_t_expansion::{binomial, canonical_hilbert_dim};
use scrapbox::spectrum::hubbard_jw::JwBasis;

#[test]
fn enumerate_basis_l4_n2_yields_six_states_each_with_two_bits() {
    let b = enumerate_basis(4, 2);
    assert_eq!(b.len(), 6);
    for mask in &b {
        assert_eq!(mask.count_ones(), 2);
    }
}

#[test]
fn binomial_l_choose_zero_and_l_is_one() {
    for l in 0..10 {
        assert_eq!(binomial(l, 0), 1);
        assert_eq!(binomial(l, l), 1);
    }
}

#[test]
fn binomial_l4_k2_is_six() {
    assert_eq!(binomial(4, 2), 6);
}

#[test]
fn canonical_hilbert_dim_l4_half_filling_is_36() {
    assert_eq!(canonical_hilbert_dim(4, 2, 2), 36);
}

#[test]
fn canonical_hilbert_dim_l2_half_filling_is_4() {
    assert_eq!(canonical_hilbert_dim(2, 1, 1), 4);
}

#[test]
fn fermion_sign_counts_lower_occupied_bits() {
    assert_eq!(fermion_sign(0b0010, 1), 1);
    assert_eq!(fermion_sign(0b0011, 1), -1);
    assert_eq!(fermion_sign(0b0011, 2), 1);
}

/// The dense single-species hopping matrix `-J * sign` built from the
/// verified entry list.
fn hopping_matrix(basis: &[u32], l: usize, hopping_j: f64) -> Vec<Vec<f64>> {
    let dim = basis.len();
    let mut h = vec![vec![0.0_f64; dim]; dim];
    for hop in single_spin_hops(basis, l) {
        h[hop.to][hop.from] -= hopping_j * f64::from(hop.sign);
    }
    h
}

#[test]
fn single_spin_hopping_l2_matches_known_minus_t_form() {
    let basis = vec![0b01_u32, 0b10_u32];
    let h = hopping_matrix(&basis, 2, 1.0);
    assert!(h[0][0].abs() < 1e-14);
    assert!(h[1][1].abs() < 1e-14);
    assert!((h[0][1] - (-1.0)).abs() < 1e-14);
    assert!((h[1][0] - (-1.0)).abs() < 1e-14);
}

#[test]
fn l6_half_filling_hilbert_dim_is_400() {
    // L = 6, N_up = N_dn = 3: C(6, 3)^2 = 20^2 = 400 states.
    let basis = JwBasis::new(6, 3, 3);
    assert_eq!(basis.dim(), 400);
    assert_eq!(basis.joint_masks().len(), 400);
}

#[test]
fn dim_matches_dimer_ed_at_l2() {
    let basis = JwBasis::new(2, 1, 1);
    assert_eq!(canonical_hilbert_dim(2, 1, 1) as usize, basis.dim());
}

#[test]
fn enumerate_basis_is_ascending_and_counts_binomial() {
    let b = enumerate_basis(5, 2);
    assert_eq!(b, vec![3, 5, 6, 9, 10, 12, 17, 18, 20, 24]);
    assert_eq!(b.len() as u128, binomial(5, 2));
    assert_eq!(enumerate_basis(3, 0), vec![0]);
    assert_eq!(enumerate_basis(3, 4), Vec::<u32>::new());
}

#[test]
fn binomial_above_n_is_zero_and_symmetric() {
    assert_eq!(binomial(3, 5), 0);
    assert_eq!(binomial(10, 3), binomial(10, 7));
    assert_eq!(binomial(10, 3), 120);
    assert_eq!(binomial(60, 30), 118_264_581_564_861_424);
}

#[test]
fn canonical_hilbert_dim_spin_polarised() {
    assert_eq!(canonical_hilbert_dim(4, 2, 1), 24);
    assert_eq!(canonical_hilbert_dim(3, 4, 1), 0);
}

#[test]
fn hopping_entries_l3_one_particle() {
    // Basis 001, 010, 100: hops 0 <-> 1 and 1 <-> 2, all with sign +1.
    let hops = single_spin_hops(&[0b001, 0b010, 0b100], 3);
    assert_eq!(
        hops,
        vec![
            Hop { from: 0, to: 1, sign: 1 },
            Hop { from: 1, to: 0, sign: 1 },
            Hop { from: 1, to: 2, sign: 1 },
            Hop { from: 2, to: 1, sign: 1 },
        ]
    );
}

#[test]
fn hopping_matrix_is_symmetric_at_l4_half_filling() {
    let basis = enumerate_basis(4, 2);
    let h = hopping_matrix(&basis, 4, 1.0);
    for i in 0..basis.len() {
        for j in 0..basis.len() {
            assert_eq!(h[i][j], h[j][i]);
        }
    }
}

#[test]
fn joint_basis_rows_follow_up_major_order() {
    let basis = JwBasis::new(3, 1, 2);
    let joint = basis.joint_masks();
    assert_eq!(basis.num_sites(), 3);
    assert_eq!(joint.len(), 9);
    assert_eq!(joint[0], (0b001, 0b011));
    assert_eq!(joint[1], (0b001, 0b101));
    assert_eq!(joint[3], (0b010, 0b011));
    assert_eq!(joint[8], (0b100, 0b110));
}

#[test]
fn joint_hop_terms_are_symmetric_and_in_range() {
    let basis = JwBasis::new(4, 2, 1);
    for spin_up in [true, false] {
        let terms = basis.hop_terms(spin_up);
        assert!(!terms.is_empty());
        for t in &terms {
            assert!(t.source < basis.dim() && t.target < basis.dim());
            assert!(terms
                .iter()
                .any(|u| u.source == t.target && u.target == t.source && u.sign == t.sign));
        }
    }
}

#[test]
fn joint_hop_terms_dimer_up_species() {
    // Up basis {01, 10}, down basis {01, 10}: the up hop 0 -> 1 acts on
    // rows (0, dn) -> (1, dn) with stride m_dn = 2.
    let basis = JwBasis::new(2, 1, 1);
    let terms = basis.hop_terms(true);
    let pairs: Vec<(usize, usize)> = terms.iter().map(|t| (t.source, t.target)).collect();
    assert_eq!(pairs, vec![(0, 2), (1, 3), (2, 0), (3, 1)]);
    let down: Vec<(usize, usize)> = basis.hop_terms(false).iter().map(|t| (t.source, t.target)).collect();
    assert_eq!(down, vec![(0, 1), (2, 3), (1, 0), (3, 2)]);
}

#[test]
fn occupation_counts() {
    assert_eq!(count_ones(0b1011_0000), 3);
    assert_eq!(count_ones(u32::MAX), 32);
    assert_eq!(double_occupancy(0b0110, 0b0011), 1);
    assert_eq!(site_occupation(0b0110, 0b0011, 1), 2);
    assert_eq!(site_occupation(0b0110, 0b0011, 0), 1);
    assert_eq!(site_occupation(0b0110, 0b0011, 3), 0);
}

#[test]
fn lieb_wu_params_default_and_even_rounding() {
    let p = LiebWuParams::default();
    assert_eq!(p.simpson_intervals, 4096);
    assert_eq!(p.even_intervals(), 4096);
    assert_eq!(LiebWuParams { simpson_intervals: 7 }.even_intervals(), 8);
}

#[test]
fn hop_closure_of_bases() {
    assert!(hops_stay_in_basis(&enumerate_basis(4, 2), 4));
    assert!(hops_stay_in_basis(&[], 40));
    assert!(!hops_stay_in_basis(&[0b01], 2));
    assert!(hops_stay_in_basis(&[0b01], 1));
    assert!(!hops_stay_in_basis(&[0b001, 0b010], 3));
}
