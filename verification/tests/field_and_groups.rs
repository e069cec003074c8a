use cq::error::CqError;
use cq::field::{scalars_from, Scalar};
use cq::group::{pairing, G1, G2};
use cq::kzg::Srs;
use cq::poly::{domain_exists, is_power_of_two};

const R_MINUS_1: [u64; 4] =
    [0xffffffff00000000, 0x53bda402fffe5bfe, 0x3339d80809a1d805, 0x73eda753299d7d48];
const R_MINUS_2: [u64; 4] =
    [0xfffffffeffffffff, 0x53bda402fffe5bfe, 0x3339d80809a1d805, 0x73eda753299d7d48];
const MODULUS: [u64; 4] =
    [0xffffffff00000001, 0x53bda402fffe5bfe, 0x3339d80809a1d805, 0x73eda753299d7d48];

#[test]
fn scalar_from_u64_holds_the_number() {
    assert_eq!(Scalar::from_u64(77).to_limbs(), [77, 0, 0, 0]);
    assert_eq!(Scalar::zero().to_limbs(), [0, 0, 0, 0]);
    assert_eq!(Scalar::one().to_limbs(), [1, 0, 0, 0]);
    assert!(Scalar::zero().is_zero());
    assert!(!Scalar::one().is_zero());
}

#[test]
fn scalar_from_limbs_wants_a_reduced_number() {
    assert_eq!(Scalar::from_limbs(MODULUS), None);
    assert_eq!(Scalar::from_limbs([0, 0, 0, u64::MAX]), None);
    assert_eq!(Scalar::from_limbs(R_MINUS_1).unwrap().to_limbs(), R_MINUS_1);
    assert_eq!(Scalar::from_limbs([5, 0, 0, 0]), Some(Scalar::from_u64(5)));
}

#[test]
fn scalar_addition_wraps_at_the_order() {
    let a = Scalar::from_u64(4);
    let b = Scalar::from_u64(6);
    assert_eq!(a.add(&b), Scalar::from_u64(10));
    let top = Scalar::from_limbs(R_MINUS_1).unwrap();
    assert_eq!(top.add(&Scalar::one()), Scalar::zero());
    assert_eq!(top.add(&Scalar::from_u64(3)), Scalar::from_u64(2));
}

#[test]
fn scalar_subtraction_wraps_below_zero() {
    assert_eq!(Scalar::from_u64(9).sub(&Scalar::from_u64(4)), Scalar::from_u64(5));
    assert_eq!(Scalar::from_u64(3).sub(&Scalar::from_u64(5)).to_limbs(), R_MINUS_2);
    assert_eq!(Scalar::zero().sub(&Scalar::one()).to_limbs(), R_MINUS_1);
}

#[test]
fn scalar_multiplication_is_modular() {
    assert_eq!(Scalar::from_u64(6).mul(&Scalar::from_u64(7)), Scalar::from_u64(42));
    let x = Scalar::from_u64(u64::MAX);
    assert_eq!(x.mul(&x).to_limbs(), [1, 0xfffffffffffffffe, 0, 0]);
    let top = Scalar::from_limbs(R_MINUS_1).unwrap();
    assert_eq!(top.mul(&top), Scalar::one());
}

#[test]
fn scalar_inverse_of_two_and_seven() {
    let half = Scalar::from_u64(2).inverse().unwrap();
    assert_eq!(
        half.to_limbs(),
        [0x7fffffff80000001, 0xa9ded2017fff2dff, 0x199cec0404d0ec02, 0x39f6d3a994cebea4]
    );
    let seventh = Scalar::from_u64(7).inverse().unwrap();
    assert_eq!(
        seventh.to_limbs(),
        [0xdb6db6db24924925, 0xaa362edc49241a48, 0x57c7624b7077624a, 0x211f5460e7519182]
    );
    assert_eq!(seventh.mul(&Scalar::from_u64(7)), Scalar::one());
}

#[test]
fn scalar_zero_is_not_invertible() {
    assert_eq!(Scalar::zero().inverse(), Err(CqError::NotInvertible));
}

#[test]
fn scalar_equality_and_keys() {
    let a = Scalar::from_u64(12);
    let b = Scalar::from_u64(5).add(&Scalar::from_u64(7));
    assert!(a.equals(&b));
    assert!(!a.equals(&Scalar::from_u64(13)));
    assert_eq!(a.key(), (0, 0, 0, 12));
    assert_eq!(Scalar::from_limbs([1, 2, 3, 4]).unwrap().key(), (4, 3, 2, 1));
}

#[test]
fn scalars_from_numbers() {
    let v = scalars_from(&vec![3, 1, 4]);
    assert_eq!(v, vec![Scalar::from_u64(3), Scalar::from_u64(1), Scalar::from_u64(4)]);
}

#[test]
fn error_messages() {
    assert_eq!(CqError::ValueNotInTable.message(), "value not in table");
    assert_eq!(CqError::NotInvertible.message(), "not invertible");
    assert_eq!(CqError::KeyTooSmall.message(), "key too small");
    assert_eq!(CqError::VerificationFailed.message(), "verification failed");
}

#[test]
fn powers_of_two_are_recognised() {
    assert!(is_power_of_two(1));
    assert!(is_power_of_two(2));
    assert!(is_power_of_two(8));
    assert!(is_power_of_two(1 << 20));
    assert!(!is_power_of_two(0));
    assert!(!is_power_of_two(3));
    assert!(!is_power_of_two(12));
    assert!(domain_exists(8));
    assert!(domain_exists(1 << 32));
    assert!(!domain_exists(1 << 33));
    assert!(!domain_exists(6));
}

#[test]
fn g1_operations_follow_the_multiples() {
    let g = G1::generator();
    let two = g.add(&g);
    assert_eq!(two, g.mul(&Scalar::from_u64(2)));
    assert_ne!(two, g);
    assert_eq!(two.sub(&g), g);
    assert_eq!(g.sub(&g), G1::zero());
    assert_eq!(g.mul(&Scalar::zero()), G1::zero());
    assert_eq!(g.add(&G1::zero()), g);
    assert!(two.equals(&g.mul(&Scalar::from_u64(2))));
    assert!(!two.equals(&g));
    let five = g.mul(&Scalar::from_u64(5));
    assert_eq!(five.mul(&Scalar::from_u64(3)), g.mul(&Scalar::from_u64(15)));
    // the group has the order of the scalar field
    assert_eq!(g.mul(&Scalar::from_limbs(R_MINUS_1).unwrap()).add(&g), G1::zero());
}

#[test]
fn g2_operations_follow_the_multiples() {
    let g = G2::generator();
    let three = g.mul(&Scalar::from_u64(3));
    assert_eq!(three.sub(&g), g.mul(&Scalar::from_u64(2)));
    assert_ne!(three, g);
    assert!(three.equals(&g.mul(&Scalar::from_u64(3))));
    assert!(!three.equals(&g));
    assert_eq!(g.mul(&Scalar::from_limbs(R_MINUS_1).unwrap()), g.sub(&g).sub(&g));
}

#[test]
fn msm_is_the_weighted_sum() {
    let g = G1::generator();
    let bases = vec![g, g.mul(&Scalar::from_u64(5)), g.mul(&Scalar::from_u64(25))];
    let scalars = scalars_from(&vec![2, 3, 4]);
    // 2 + 3 * 5 + 4 * 25 = 117
    assert_eq!(G1::msm(&bases, &scalars), g.mul(&Scalar::from_u64(117)));
    assert_eq!(G1::msm(&[], &[]), G1::zero());
    let h = G2::generator();
    let bases2 = vec![h, h.mul(&Scalar::from_u64(5))];
    assert_eq!(
        G2::msm(&bases2, &scalars_from(&vec![7, 2])),
        h.mul(&Scalar::from_u64(17))
    );
}

#[test]
fn pairing_is_bilinear() {
    let g1 = G1::generator();
    let g2 = G2::generator();
    let a = Scalar::from_u64(6);
    let b = Scalar::from_u64(11);
    let lhs = pairing(&g1.mul(&a), &g2.mul(&b));
    let rhs = pairing(&g1.mul(&Scalar::from_u64(66)), &g2);
    assert_eq!(lhs, rhs);
    assert!(lhs.equals(&rhs));
    assert!(!lhs.equals(&pairing(&g1, &g2)));
    // the target group adds the multiples
    let sum = pairing(&g1.mul(&a), &g2).add(&pairing(&g1.mul(&b), &g2));
    assert_eq!(sum, pairing(&g1.mul(&Scalar::from_u64(17)), &g2));
}

#[test]
fn key_holds_the_powers_of_the_trapdoor() {
    let tau = Scalar::from_u64(3);
    let srs = Srs::from_trapdoor(4, &tau);
    assert_eq!(srs.srs_g1.len(), 4);
    assert_eq!(srs.srs_g2.len(), 5);
    let powers = [1u64, 3, 9, 27, 81];
    for i in 0..4 {
        assert_eq!(srs.srs_g1[i], G1::generator().mul(&Scalar::from_u64(powers[i])));
    }
    for i in 0..5 {
        assert_eq!(srs.srs_g2[i], G2::generator().mul(&Scalar::from_u64(powers[i])));
    }
}

#[test]
fn setup_gives_one_power_more_in_the_second_group() {
    let srs = Srs::setup(8);
    assert_eq!(srs.srs_g1.len(), 8);
    assert_eq!(srs.srs_g2.len(), 9);
    assert_eq!(srs.srs_g1[0], G1::generator());
    assert_eq!(srs.srs_g2[0], G2::generator());
    let empty = Srs::setup(0);
    assert_eq!(empty.srs_g1.len(), 0);
    assert_eq!(empty.srs_g2.len(), 1);
}

#[test]
fn com_add() {
    let srs = Srs::setup(8);
    let a = Scalar::from_u64(4);
    let b = Scalar::from_u64(6);
    let c = a.add(&b);
    let com_a = Srs::commit_g1(&srs.srs_g1, &[a]).unwrap();
    let com_b = Srs::commit_g1(&srs.srs_g1, &[b]).unwrap();
    let com_c = Srs::commit_g1(&srs.srs_g1, &[c]).unwrap();
    assert_eq!(com_c, com_a.add(&com_b));
}

#[test]
fn commitment_is_the_value_at_the_trapdoor() {
    let srs = Srs::from_trapdoor(4, &Scalar::from_u64(10));
    // 7 + 2 x + 5 x^3 at 10 is 5027
    let coeffs = scalars_from(&vec![7, 2, 0, 5]);
    assert_eq!(
        Srs::commit_g1(&srs.srs_g1, &coeffs).unwrap(),
        G1::generator().mul(&Scalar::from_u64(5027))
    );
    assert_eq!(
        Srs::commit_g2(&srs.srs_g2, &coeffs).unwrap(),
        G2::generator().mul(&Scalar::from_u64(5027))
    );
    assert_eq!(Srs::commit_g1(&srs.srs_g1, &[]).unwrap(), G1::zero());
}

#[test]
fn commitment_needs_a_key_of_the_length() {
    let srs = Srs::from_trapdoor(2, &Scalar::from_u64(10));
    let three = scalars_from(&vec![1, 2, 3]);
    assert_eq!(Srs::commit_g1(&srs.srs_g1, &three), Err(CqError::KeyTooSmall));
    assert!(Srs::commit_g2(&srs.srs_g2, &three).is_ok());
    let four = scalars_from(&vec![1, 2, 3, 4]);
    assert_eq!(Srs::commit_g2(&srs.srs_g2, &four), Err(CqError::KeyTooSmall));
}
