use ark_bls12_381::Fr;
use ark_ff::{BigInt, Field, PrimeField};
use ark_poly::univariate::DensePolynomial;
use ark_poly::{DenseUVPolynomial, EvaluationDomain, GeneralEvaluationDomain, Polynomial};
use cq::error::CqError;
use cq::field::{scalars_from, Scalar};
use cq::poly::poly_evaluate;
use cq::group::{G1, G2};
use cq::kzg::Srs;
use cq::preprocess::PreprocessedElements;
use cq::prover::{batch_open_g1, get_m, Phi};
use cq::transcript::Transcript;
use cq::verify::{check_all, verify, Checks};
use cq::{cq, cq_with, cqfalse, cqfalse_with};

fn to_fr(s: &Scalar) -> Fr {
    Fr::from(BigInt::new(s.to_limbs()))
}

fn to_scalar(x: Fr) -> Scalar {
    Scalar::from_limbs(x.into_bigint().0).unwrap()
}

fn to_scalars(v: &[Fr]) -> Vec<Scalar> {
    v.iter().map(|x| to_scalar(*x)).collect()
}

fn table() -> Vec<Scalar> {
    scalars_from(&vec![1, 2, 3, 4, 5, 6, 7, 8])
}

fn fixed_transcript() -> Transcript {
    Transcript::from_challenges(
        Scalar::from_u64(1_000_003),
        Scalar::from_u64(77_777),
        Scalar::from_u64(424_242),
    )
}

fn fixed_elements() -> PreprocessedElements {
    let srs = Srs::from_trapdoor(8, &Scalar::from_u64(123_456_789));
    PreprocessedElements::from_srs(srs, 8, &table())
}

const ALL: Checks =
    Checks { membership: true, degree_bound: true, batched_opening: true, zero_opening: true };

#[test]
fn protocol() {
    assert_eq!(cq(), Ok(true));
}

#[test]
fn another_input_at_the_verifier_is_rejected() {
    assert_eq!(cqfalse(), Ok(false));
}

#[test]
fn test_get_m() {
    let tf = table();
    let ff = scalars_from(&vec![2, 2, 2, 2, 4, 4, 3]);
    let m = get_m(tf, ff).unwrap();
    assert_eq!(*m.get(&1).unwrap(), 4);
    assert_eq!(*m.get(&3).unwrap(), 2);
    assert_eq!(*m.get(&2).unwrap(), 1);
    assert_eq!(m.len(), 3);
    assert_eq!(m.values().sum::<u64>(), 7);
}

#[test]
fn multiplicity_goes_to_the_last_of_equal_table_values() {
    let tf = scalars_from(&vec![5, 9, 5, 7]);
    let ff = scalars_from(&vec![5, 5, 7]);
    let m = get_m(tf, ff).unwrap();
    assert_eq!(m.get(&0), None);
    assert_eq!(m.get(&2), Some(&2));
    assert_eq!(m.get(&3), Some(&1));
    assert_eq!(m.len(), 2);
}

#[test]
fn multiplicity_of_an_empty_input_is_empty() {
    let m = get_m(table(), Vec::new()).unwrap();
    assert!(m.is_empty());
}

#[test]
fn multiplicity_fails_for_a_value_outside_the_table() {
    let ff = scalars_from(&vec![1, 2, 3, 9]);
    assert_eq!(get_m(table(), ff), Err(CqError::ValueNotInTable));
}

#[test]
fn prover_fails_for_a_value_outside_the_table() {
    let pre = fixed_elements();
    let ff = scalars_from(&vec![1, 2, 3, 9]);
    let r = Phi::prover(&fixed_transcript(), &pre, table(), ff);
    assert_eq!(r, Err(CqError::ValueNotInTable));
}

#[test]
fn prover_fails_where_beta_cancels_an_entry() {
    let pre = fixed_elements();
    let beta = Scalar::zero().sub(&Scalar::from_u64(3));
    let transcript =
        Transcript::from_challenges(beta, Scalar::from_u64(5), Scalar::from_u64(6));
    let ff = scalars_from(&vec![1, 2, 3, 4]);
    assert_eq!(Phi::prover(&transcript, &pre, table(), ff), Err(CqError::NotInvertible));
    // an entry of the table alone, which the input lacks, does no harm
    let ff = scalars_from(&vec![1, 2, 4, 4]);
    assert!(Phi::prover(&transcript, &pre, table(), ff).is_ok());
}

#[test]
fn valid_proof_passes_every_check() {
    let pre = fixed_elements();
    let transcript = fixed_transcript();
    let phi = Phi::prover(&transcript, &pre, table(), table()).unwrap();
    assert_eq!(check_all(&transcript, &phi, &pre, &table()), ALL);
    assert!(verify(&transcript, phi, &pre, table()));
}

#[test]
fn fresh_challenges_and_key_give_an_accepted_proof() {
    let pre = PreprocessedElements::gen(8, table());
    let transcript = Transcript::initiate();
    let ff = scalars_from(&vec![2, 2, 2, 2, 4, 4, 3, 8]);
    let phi = Phi::prover(&transcript, &pre, table(), ff.clone()).unwrap();
    assert!(verify(&transcript, phi, &pre, ff));
}

#[test]
fn proof_shown_with_an_input_of_another_length_is_rejected() {
    let pre = fixed_elements();
    let transcript = fixed_transcript();
    let phi = Phi::prover(&transcript, &pre, table(), table()).unwrap();
    let other = scalars_from(&vec![1, 2, 3, 1]);
    let checks = check_all(&transcript, &phi, &pre, &other);
    assert!(!checks.degree_bound);
    assert!(!verify(&transcript, phi, &pre, other));
}

#[test]
fn proof_under_other_challenges_is_rejected() {
    let pre = fixed_elements();
    let transcript = fixed_transcript();
    let phi = Phi::prover(&transcript, &pre, table(), table()).unwrap();
    let other = Transcript::from_challenges(
        Scalar::from_u64(1_000_004),
        Scalar::from_u64(77_777),
        Scalar::from_u64(424_242),
    );
    let checks = check_all(&other, &phi, &pre, &table());
    assert!(!checks.membership);
    assert!(!verify(&other, phi, &pre, table()));
}

#[test]
fn tampered_evaluation_fails_the_batched_opening() {
    let pre = fixed_elements();
    let transcript = fixed_transcript();
    let mut phi = Phi::prover(&transcript, &pre, table(), table()).unwrap();
    phi.f_gamma = phi.f_gamma.add(&Scalar::one());
    let checks = check_all(&transcript, &phi, &pre, &table());
    assert_eq!(
        checks,
        Checks { membership: true, degree_bound: true, batched_opening: false, zero_opening: true }
    );
    assert_eq!(checks.outcome(), Err(CqError::VerificationFailed));
    assert_eq!(ALL.outcome(), Ok(()));
    assert!(ALL.accepted());
    assert!(!checks.accepted());
}

#[test]
fn tampered_value_at_zero_fails_the_zero_opening() {
    let pre = fixed_elements();
    let transcript = fixed_transcript();
    let mut phi = Phi::prover(&transcript, &pre, table(), table()).unwrap();
    phi.a0 = phi.a0.add(&Scalar::one());
    let checks = check_all(&transcript, &phi, &pre, &table());
    assert_eq!(
        checks,
        Checks { membership: true, degree_bound: true, batched_opening: true, zero_opening: false }
    );
}

#[test]
fn degree_bound_detects_a_polynomial_of_higher_degree() {
    let pre = fixed_elements();
    let transcript = fixed_transcript();
    let ff = scalars_from(&vec![1, 2, 3, 4]);
    let mut phi = Phi::prover(&transcript, &pre, table(), ff.clone()).unwrap();
    assert_eq!(check_all(&transcript, &phi, &pre, &ff), ALL);
    // a polynomial of degree seven in the place of the shifted one
    let high = scalars_from(&vec![1, 1, 1, 1, 1, 1, 1, 1]);
    phi.com_p = Srs::commit_g1(&pre.srs.srs_g1, &high).unwrap();
    let checks = check_all(&transcript, &phi, &pre, &ff);
    assert_eq!(
        checks,
        Checks { membership: true, degree_bound: false, batched_opening: true, zero_opening: true }
    );
    assert!(!verify(&transcript, phi, &pre, ff));
}

#[test]
fn preprocessed_elements_serve_inputs_of_every_length() {
    let pre = fixed_elements();
    let kept = pre.clone();
    let inputs: Vec<Vec<u64>> = vec![
        vec![1, 2, 3, 4, 5, 6, 7, 8],
        vec![8, 8, 1, 1, 3, 3, 3, 3],
        vec![2, 4, 6, 8],
        vec![7, 7, 7, 7],
        vec![5, 1],
        vec![6],
    ];
    for (round, numbers) in inputs.iter().enumerate() {
        let transcript = Transcript::from_challenges(
            Scalar::from_u64(900 + round as u64),
            Scalar::from_u64(31 + round as u64),
            Scalar::from_u64(17 + round as u64),
        );
        let ff = scalars_from(numbers);
        let phi = Phi::prover(&transcript, &pre, table(), ff.clone()).unwrap();
        assert_eq!(check_all(&transcript, &phi, &pre, &ff), ALL);
        assert!(verify(&transcript, phi, &pre, ff));
        assert_eq!(pre, kept);
    }
}

#[test]
fn vanishing_commitment_is_the_commitment_to_the_coefficients() {
    let pre = fixed_elements();
    let minus_one = Scalar::zero().sub(&Scalar::one());
    let mut zv = vec![Scalar::zero(); 9];
    zv[0] = minus_one;
    zv[8] = Scalar::one();
    assert_eq!(
        pre.com2_vanishingpoly_big_n,
        Srs::commit_g2(&pre.srs.srs_g2, &zv).unwrap()
    );
    assert_eq!(pre.com2_vanishingpoly_big_n, pre.srs.srs_g2[8].sub(&G2::generator()));
}

#[test]
fn table_commitment_is_the_commitment_to_the_interpolation() {
    let pre = fixed_elements();
    let domain = GeneralEvaluationDomain::<Fr>::new(8).unwrap();
    let evals: Vec<Fr> = table().iter().map(to_fr).collect();
    let coeffs = to_scalars(&domain.ifft(&evals));
    assert_ne!(coeffs, table());
    assert_eq!(pre.com2_t_x, Srs::commit_g2(&pre.srs.srs_g2, &coeffs).unwrap());
    // the interpolation takes the table's values on the domain
    let poly = DensePolynomial::from_coefficients_vec(domain.ifft(&evals));
    for i in 0..8 {
        assert_eq!(poly.evaluate(&domain.element(i)), Fr::from((i + 1) as u64));
    }
}

#[test]
fn lagrange_basis_is_one_at_its_own_point_and_zero_at_the_others() {
    let pre = fixed_elements();
    let domain = GeneralEvaluationDomain::<Fr>::new(8).unwrap();
    assert_eq!(pre.big_n, 8);
    assert_eq!(pre.li_x.len(), 8);
    assert_eq!(pre.com1_li_x.len(), 8);
    assert_eq!(pre.com1_li_0.len(), 8);
    let eighth = Scalar::from_u64(8).inverse().unwrap();
    assert_eq!(*pre.li_x.get(&0).unwrap(), vec![eighth; 8]);
    for i in 0..8usize {
        let li = pre.li_x.get(&(i as u64)).unwrap();
        assert_eq!(li.len(), 8);
        let poly = DensePolynomial::from_coefficients_vec(li.iter().map(to_fr).collect());
        for j in 0..8usize {
            let expected = if i == j { Fr::from(1u64) } else { Fr::from(0u64) };
            assert_eq!(poly.evaluate(&domain.element(j)), expected);
        }
        assert_eq!(
            *pre.com1_li_x.get(&(i as u64)).unwrap(),
            Srs::commit_g1(&pre.srs.srs_g1, li).unwrap()
        );
        assert_eq!(
            *pre.com1_li_0.get(&(i as u64)).unwrap(),
            Srs::commit_g1(&pre.srs.srs_g1, &li[1..]).unwrap()
        );
    }
}

#[test]
fn cached_quotient_is_the_scaled_commitment_to_the_quotient() {
    let pre = fixed_elements();
    let domain = GeneralEvaluationDomain::<Fr>::new(8).unwrap();
    let evals: Vec<Fr> = table().iter().map(to_fr).collect();
    let t_poly = DensePolynomial::from_coefficients_vec(domain.ifft(&evals));
    let n_inv = Fr::from(8u64).inverse().unwrap();
    assert_eq!(pre.com1_qi.len(), 8);
    for i in 0..8usize {
        let w = domain.element(i);
        // (T(x) - T(w^i)) / (x - w^i), by long division
        let mut numerator = t_poly.coeffs().to_vec();
        numerator[0] -= evals[i];
        let numerator = DensePolynomial::from_coefficients_vec(numerator);
        let divisor = DensePolynomial::from_coefficients_vec(vec![-w, Fr::from(1u64)]);
        let quotient = &numerator / &divisor;
        let plain = Srs::commit_g1(&pre.srs.srs_g1, &to_scalars(quotient.coeffs())).unwrap();
        let scaled = plain.mul(&to_scalar(w * n_inv));
        assert_eq!(*pre.com1_qi.get(&(i as u64)).unwrap(), scaled);
    }
}

#[test]
fn proof_holds_the_commitments_and_evaluations_of_the_input() {
    let pre = fixed_elements();
    let transcript = fixed_transcript();
    let numbers = vec![3u64, 3, 5, 8];
    let ff = scalars_from(&numbers);
    let phi = Phi::prover(&transcript, &pre, table(), ff.clone()).unwrap();
    let domain = GeneralEvaluationDomain::<Fr>::new(4).unwrap();
    let beta = to_fr(&transcript.beta);
    let gamma = to_fr(&transcript.gamma);
    // F
    let f_evals: Vec<Fr> = ff.iter().map(to_fr).collect();
    let f_coeff = domain.ifft(&f_evals);
    assert_eq!(phi.com1_f, Srs::commit_g1(&pre.srs.srs_g1, &to_scalars(&f_coeff)).unwrap());
    let f_poly = DensePolynomial::from_coefficients_vec(f_coeff);
    assert_eq!(to_fr(&phi.f_gamma), f_poly.evaluate(&gamma));
    // B and B0
    let b_evals: Vec<Fr> = f_evals.iter().map(|x| (*x + beta).inverse().unwrap()).collect();
    let b_coeff = domain.ifft(&b_evals);
    let b0 = to_scalars(&b_coeff[1..]);
    assert_eq!(phi.com1_b_0, Srs::commit_g1(&pre.srs.srs_g1, &b0).unwrap());
    let b0_poly = DensePolynomial::from_coefficients_vec(b_coeff[1..].to_vec());
    assert_eq!(to_fr(&phi.b0_gamma), b0_poly.evaluate(&gamma));
    // the shifted B0: five zeros, then the three coefficients
    let mut shifted = vec![Scalar::zero(); 5];
    shifted.extend_from_slice(&b0);
    assert_eq!(phi.com_p, Srs::commit_g1(&pre.srs.srs_g1, &shifted).unwrap());
    // QB = (B (F + beta) - 1) / (x^4 - 1), by long division
    let b_poly = DensePolynomial::from_coefficients_vec(b_coeff.clone());
    let mut shifted_f = f_poly.coeffs().to_vec();
    shifted_f[0] += beta;
    let shifted_f = DensePolynomial::from_coefficients_vec(shifted_f);
    let mut numerator = b_poly.naive_mul(&shifted_f).coeffs().to_vec();
    numerator[0] -= Fr::from(1u64);
    let numerator = DensePolynomial::from_coefficients_vec(numerator);
    let mut vanishing = vec![Fr::from(0u64); 5];
    vanishing[0] = -Fr::from(1u64);
    vanishing[4] = Fr::from(1u64);
    let vanishing = DensePolynomial::from_coefficients_vec(vanishing);
    let qb_poly = &numerator / &vanishing;
    assert_eq!(qb_poly.naive_mul(&vanishing), numerator);
    assert!(!qb_poly.coeffs().is_empty());
    assert_eq!(phi.com1_qb, Srs::commit_g1(&pre.srs.srs_g1, &to_scalars(qb_poly.coeffs())).unwrap());
    assert_eq!(to_fr(&phi.q_b_gamma), qb_poly.evaluate(&gamma));
    // the identity at gamma: B(gamma) (F(gamma) + beta) - 1 = QB(gamma) (gamma^4 - 1)
    let b_gamma = gamma * to_fr(&phi.b0_gamma) + b_coeff[0];
    assert_eq!(
        b_gamma * (to_fr(&phi.f_gamma) + beta) - Fr::from(1u64),
        to_fr(&phi.q_b_gamma) * (gamma.pow([4u64]) - Fr::from(1u64))
    );
    // M, A and the value of A at zero
    let li = |i: u64| *pre.com1_li_x.get(&i).unwrap();
    let m = li(2).mul(&Scalar::from_u64(2)).add(&li(4)).add(&li(7));
    assert_eq!(phi.com1_m, m);
    let a = |t: u64, count: u64| to_scalar(Fr::from(count) * (Fr::from(t) + beta).inverse().unwrap());
    let com_a = li(2).mul(&a(3, 2)).add(&li(4).mul(&a(5, 1))).add(&li(7).mul(&a(8, 1)));
    assert_eq!(phi.com1_a, com_a);
    let qi = |i: u64| *pre.com1_qi.get(&i).unwrap();
    let com_qa = qi(2).mul(&a(3, 2)).add(&qi(4).mul(&a(5, 1))).add(&qi(7).mul(&a(8, 1)));
    assert_eq!(phi.com1_qa, com_qa);
    let l0 = |i: u64| pre.li_x.get(&i).unwrap()[0];
    let a0 = a(3, 2).mul(&l0(2)).add(&a(5, 1).mul(&l0(4))).add(&a(8, 1).mul(&l0(7)));
    assert_eq!(phi.a0, a0);
    let l0c = |i: u64| *pre.com1_li_0.get(&i).unwrap();
    let com_a0 = l0c(2).mul(&a(3, 2)).add(&l0c(4).mul(&a(5, 1))).add(&l0c(7).mul(&a(8, 1)));
    assert_eq!(phi.com1_a0, com_a0);
}

#[test]
fn batched_opening_commits_to_the_quotient_of_the_combination() {
    let srs = Srs::from_trapdoor(8, &Scalar::from_u64(99));
    let first = vec![Fr::from(3u64), Fr::from(1u64), Fr::from(4u64)];
    let second = vec![Fr::from(1u64), Fr::from(5u64), Fr::from(9u64), Fr::from(2u64)];
    let third = vec![Fr::from(6u64), Fr::from(5u64)];
    let gamma = Fr::from(11u64);
    let eta = Fr::from(13u64);
    // the combination first + eta second + eta^2 third, and its quotient by x - gamma
    let mut combined = vec![Fr::from(0u64); 4];
    for i in 0..4 {
        if i < first.len() {
            combined[i] += first[i];
        }
        combined[i] += eta * second[i];
        if i < third.len() {
            combined[i] += eta * eta * third[i];
        }
    }
    let combined = DensePolynomial::from_coefficients_vec(combined);
    let value = combined.evaluate(&gamma);
    let divisor = DensePolynomial::from_coefficients_vec(vec![-gamma, Fr::from(1u64)]);
    let quotient = &combined / &divisor;
    assert_eq!(quotient.coeffs().len(), 3);
    let expected = Srs::commit_g1(&srs.srs_g1, &to_scalars(quotient.coeffs())).unwrap();
    let polys = vec![to_scalars(&first), to_scalars(&second), to_scalars(&third)];
    let h = batch_open_g1(&srs.srs_g1, &polys, to_scalar(gamma), to_scalar(eta)).unwrap();
    assert_eq!(h, expected);
    // the opening identity at the trapdoor: q(tau) * (tau - gamma) = p(tau) - p(gamma)
    let tau = Fr::from(99u64);
    let lhs = h.mul(&to_scalar(tau - gamma));
    let rhs = G1::generator().mul(&to_scalar(combined.evaluate(&tau) - value));
    assert_eq!(lhs, rhs);
}

#[test]
fn batched_opening_needs_a_key_of_the_quotient_length() {
    let srs = Srs::from_trapdoor(2, &Scalar::from_u64(99));
    let polys = vec![scalars_from(&vec![1, 2, 3, 4])];
    let r = batch_open_g1(&srs.srs_g1, &polys, Scalar::from_u64(5), Scalar::from_u64(7));
    assert_eq!(r, Err(CqError::KeyTooSmall));
    let polys = vec![scalars_from(&vec![1, 2, 3])];
    let r = batch_open_g1(&srs.srs_g1, &polys, Scalar::from_u64(5), Scalar::from_u64(7));
    // (3 x^2 + 2 x + 1) / (x - 5) = 3 x + 17
    let expected = Srs::commit_g1(&srs.srs_g1, &scalars_from(&vec![17, 3])).unwrap();
    assert_eq!(r, Ok(expected));
    // zeros at the high end do not count
    let polys = vec![scalars_from(&vec![1, 2, 3, 0, 0])];
    let r = batch_open_g1(&srs.srs_g1, &polys, Scalar::from_u64(5), Scalar::from_u64(7));
    assert_eq!(r, Ok(expected));
}

#[test]
fn transcript_keeps_its_challenges() {
    let t = fixed_transcript();
    assert_eq!(t.beta, Scalar::from_u64(1_000_003));
    assert_eq!(t.gamma, Scalar::from_u64(77_777));
    assert_eq!(t.eta, Scalar::from_u64(424_242));
    let drawn = Transcript::initiate();
    assert!(Scalar::from_limbs(drawn.beta.to_limbs()).is_some());
    assert!(Scalar::from_limbs(drawn.gamma.to_limbs()).is_some());
    assert!(Scalar::from_limbs(drawn.eta.to_limbs()).is_some());
}

#[test]
fn table_of_one_value() {
    let srs = Srs::from_trapdoor(1, &Scalar::from_u64(5));
    let t = scalars_from(&vec![42]);
    let pre = PreprocessedElements::from_srs(srs, 1, &t);
    let transcript = fixed_transcript();
    let phi = Phi::prover(&transcript, &pre, t.clone(), t.clone()).unwrap();
    assert_eq!(check_all(&transcript, &phi, &pre, &t), ALL);
}

#[test]
fn whole_table_is_accepted_under_a_given_key_and_challenges() {
    let srs = Srs::from_trapdoor(8, &Scalar::from_u64(123_456_789));
    assert_eq!(cq_with(srs, &fixed_transcript()), Ok(true));
    let srs = Srs::from_trapdoor(8, &Scalar::one());
    assert_eq!(cq_with(srs, &fixed_transcript()), Ok(true));
}

#[test]
fn whole_table_fails_where_beta_cancels_a_table_value() {
    for value in 1..=8u64 {
        let beta = Scalar::zero().sub(&Scalar::from_u64(value));
        let transcript =
            Transcript::from_challenges(beta, Scalar::from_u64(5), Scalar::from_u64(6));
        let srs = Srs::from_trapdoor(8, &Scalar::from_u64(123_456_789));
        assert_eq!(cq_with(srs, &transcript), Err(CqError::NotInvertible));
        let srs = Srs::from_trapdoor(8, &Scalar::from_u64(123_456_789));
        assert_eq!(cqfalse_with(srs, &transcript), Err(CqError::NotInvertible));
    }
    // the negative of nine cancels nothing
    let beta = Scalar::zero().sub(&Scalar::from_u64(9));
    let transcript = Transcript::from_challenges(beta, Scalar::from_u64(5), Scalar::from_u64(6));
    let srs = Srs::from_trapdoor(8, &Scalar::from_u64(123_456_789));
    assert_eq!(cq_with(srs, &transcript), Ok(true));
}

#[test]
fn shorter_input_at_the_verifier_fails_the_degree_bound() {
    let srs = Srs::from_trapdoor(8, &Scalar::from_u64(123_456_789));
    assert_eq!(cqfalse_with(srs, &fixed_transcript()), Ok(false));
    let srs = Srs::from_trapdoor(8, &Scalar::from_u64(2));
    assert_eq!(cqfalse_with(srs, &fixed_transcript()), Ok(false));
}

#[test]
fn shorter_input_passes_where_the_fifth_power_of_the_trapdoor_is_the_trapdoor() {
    // with the trapdoor one every power of it is one
    let srs = Srs::from_trapdoor(8, &Scalar::one());
    assert_eq!(cqfalse_with(srs, &fixed_transcript()), Ok(true));
    // and with the trapdoor zero every power from the first on is zero
    let srs = Srs::from_trapdoor(8, &Scalar::zero());
    assert_eq!(cqfalse_with(srs, &fixed_transcript()), Ok(true));
}

#[test]
fn quotient_of_a_short_input_is_a_constant() {
    // for the input 1, 2 and beta zero, B = 3/4 + x/4 and F = 3/2 - x/2, so
    // that B F - 1 = -(x^2 - 1)/8
    let pre = fixed_elements();
    let transcript =
        Transcript::from_challenges(Scalar::zero(), Scalar::from_u64(5), Scalar::from_u64(6));
    let ff = scalars_from(&vec![1, 2]);
    let phi = Phi::prover(&transcript, &pre, table(), ff.clone()).unwrap();
    let minus_eighth = Scalar::zero().sub(&Scalar::from_u64(8).inverse().unwrap());
    assert_eq!(phi.q_b_gamma, minus_eighth);
    assert_eq!(phi.com1_qb, G1::generator().mul(&minus_eighth));
    assert_eq!(check_all(&transcript, &phi, &pre, &ff), ALL);
}

#[test]
fn quotient_of_one_entry_is_empty() {
    let pre = fixed_elements();
    let transcript = fixed_transcript();
    let ff = scalars_from(&vec![6]);
    let phi = Phi::prover(&transcript, &pre, table(), ff).unwrap();
    assert_eq!(phi.com1_qb, G1::zero());
    assert_eq!(phi.q_b_gamma, Scalar::zero());
}

#[test]
fn polynomial_value_by_horner() {
    // 7 + 2 x + 5 x^3 at 10 is 5027
    let coeffs = scalars_from(&vec![7, 2, 0, 5]);
    assert_eq!(poly_evaluate(&coeffs, &Scalar::from_u64(10)), Scalar::from_u64(5027));
    assert_eq!(poly_evaluate(&coeffs, &Scalar::zero()), Scalar::from_u64(7));
    assert_eq!(poly_evaluate(&coeffs, &Scalar::one()), Scalar::from_u64(14));
    assert_eq!(poly_evaluate(&[], &Scalar::from_u64(10)), Scalar::zero());
    let x = to_fr(&Scalar::from_u64(123_456_789));
    let poly = DensePolynomial::from_coefficients_vec(coeffs.iter().map(to_fr).collect());
    assert_eq!(to_fr(&poly_evaluate(&coeffs, &to_scalar(x))), poly.evaluate(&x));
}

#[test]
fn transcript_from_drawn_keeps_the_order() {
    let drawn = scalars_from(&vec![11, 22, 33]);
    let t = Transcript::from_drawn(&drawn);
    assert_eq!(t.beta, Scalar::from_u64(11));
    assert_eq!(t.gamma, Scalar::from_u64(22));
    assert_eq!(t.eta, Scalar::from_u64(33));
    assert_eq!(
        t,
        Transcript::from_challenges(
            Scalar::from_u64(11),
            Scalar::from_u64(22),
            Scalar::from_u64(33)
        )
    );
}

#[test]
fn cached_quotients_of_tables_of_other_sizes() {
    for size in [2usize, 4, 16] {
        let numbers: Vec<u64> = (0..size as u64).map(|i| 3 * i + 5).collect();
        let t = scalars_from(&numbers);
        let srs = Srs::from_trapdoor(size, &Scalar::from_u64(987_654_321));
        let pre = PreprocessedElements::from_srs(srs, size, &t);
        let domain = GeneralEvaluationDomain::<Fr>::new(size).unwrap();
        let evals: Vec<Fr> = t.iter().map(to_fr).collect();
        let t_poly = DensePolynomial::from_coefficients_vec(domain.ifft(&evals));
        let n_inv = Fr::from(size as u64).inverse().unwrap();
        assert_eq!(pre.com1_qi.len(), size);
        for i in 0..size {
            let w = domain.element(i);
            let mut numerator = t_poly.coeffs().to_vec();
            numerator[0] -= evals[i];
            let numerator = DensePolynomial::from_coefficients_vec(numerator);
            let divisor = DensePolynomial::from_coefficients_vec(vec![-w, Fr::from(1u64)]);
            let quotient = &numerator / &divisor;
            let plain =
                Srs::commit_g1(&pre.srs.srs_g1, &to_scalars(quotient.coeffs())).unwrap();
            assert_eq!(*pre.com1_qi.get(&(i as u64)).unwrap(), plain.mul(&to_scalar(w * n_inv)));
        }
        let transcript = fixed_transcript();
        let phi = Phi::prover(&transcript, &pre, t.clone(), t.clone()).unwrap();
        assert_eq!(check_all(&transcript, &phi, &pre, &t), ALL);
    }
}
