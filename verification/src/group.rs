use crate::field::{fadd, fmul, fsub, lemma_results_reduced, modulus, values, Scalar};
use crate::identities::lemma_inner_product_reduced;
use crate::poly::{
    domain_ok, domain_point, evaluations, inner_product, interpolation, poly_eval,
};
use ark_bls12_381::{Bls12_381, Fr, G1Projective, G2Projective};
use ark_ec::pairing::{Pairing, PairingOutput};
use ark_ec::{CurveGroup, Group, VariableBaseMSM};
use ark_ff::BigInt;
use ark_poly::{EvaluationDomain, GeneralEvaluationDomain};
use ark_std::Zero;
use vstd::arithmetic::div_mod::{lemma_mod_bound, lemma_small_mod};
use vstd::prelude::*;

verus! {

/// The first source group is cyclic of the prime order `modulus()`, so each of
/// its elements is exactly one multiple `k * g`, `0 <= k < modulus()`, of the
/// generator `g` that `ark_ec::Group::generator` returns. This names that `k`.
/// No program can compute it; it is what the contracts of the group
/// operations are stated over.
pub uninterp spec fn g1_exponent(p: G1) -> nat;

/// As `g1_exponent`, for the second source group and its generator.
pub uninterp spec fn g2_exponent(p: G2) -> nat;

/// As `g1_exponent`, for the target group, which the pairing of the two
/// generators generates.
pub uninterp spec fn gt_exponent(p: Gt) -> nat;

/// An element of the first source group of BLS12-381, held as a
/// `G1Projective` of `ark_bls12_381`. Values are made by this module's
/// functions only, so each lies in the subgroup of prime order.
#[verifier::external_body]
#[derive(Debug, PartialEq, Eq)]
pub struct G1 {
    point: G1Projective,
}

/// An element of the second source group of BLS12-381, held as a
/// `G2Projective` of `ark_bls12_381`.
#[verifier::external_body]
#[derive(Debug, PartialEq, Eq)]
pub struct G2 {
    point: G2Projective,
}

/// An element of the target group of the BLS12-381 pairing, held as a
/// `PairingOutput` of `ark_ec`.
#[verifier::external_body]
#[derive(Debug, PartialEq, Eq)]
pub struct Gt {
    value: PairingOutput<Bls12_381>,
}

impl Clone for G1 {
    /// Copies the `G1Projective`, which is `Copy`.
    #[verifier::external_body]
    fn clone(&self) -> (r: G1)
        ensures
            r == *self,
    {
        G1 { point: self.point }
    }
}

impl Copy for G1 {

}

impl Clone for G2 {
    /// Copies the `G2Projective`, which is `Copy`.
    #[verifier::external_body]
    fn clone(&self) -> (r: G2)
        ensures
            r == *self,
    {
        G2 { point: self.point }
    }
}

impl Copy for G2 {

}

impl Clone for Gt {
    /// Copies the `PairingOutput`, which is `Copy`.
    #[verifier::external_body]
    fn clone(&self) -> (r: Gt)
        ensures
            r == *self,
    {
        Gt { value: self.value }
    }
}

impl Copy for Gt {

}

impl View for G1 {
    type V = nat;

    /// The multiple of the generator that the element is, below the
    /// group's order.
    closed spec fn view(&self) -> nat {
        g1_exponent(*self) % modulus()
    }
}

impl View for G2 {
    type V = nat;

    /// The multiple of the generator that the element is, below the
    /// group's order.
    closed spec fn view(&self) -> nat {
        g2_exponent(*self) % modulus()
    }
}

impl View for Gt {
    type V = nat;

    /// The multiple of the generator that the element is, below the
    /// group's order.
    closed spec fn view(&self) -> nat {
        gt_exponent(*self) % modulus()
    }
}

/// The multiples of the generator that a sequence of elements are.
pub open spec fn exponents(s: Seq<G1>) -> Seq<nat> {
    s.map_values(|p: G1| p@)
}

/// As `exponents`, in the second source group.
pub open spec fn exponents2(s: Seq<G2>) -> Seq<nat> {
    s.map_values(|p: G2| p@)
}

impl G1 {
    /// The multiple that stands for an element is below the group's order.
    pub proof fn lemma_reduced(self)
        ensures
            self@ < modulus(),
    {
        lemma_mod_bound(g1_exponent(self) as int, modulus() as int);
    }

    /// The fixed generator.
    pub fn generator() -> (r: G1)
        ensures
            r@ == 1,
    {
        proof {
            lemma_small_mod(1, modulus());
        }
        g1_generator()
    }

    /// The identity.
    pub fn zero() -> (r: G1)
        ensures
            r@ == 0,
    {
        proof {
            lemma_small_mod(0, modulus());
        }
        g1_identity()
    }

    /// Sum of two elements.
    pub fn add(&self, other: &G1) -> (r: G1)
        ensures
            r@ == fadd(self@, other@),
    {
        proof {
            lemma_results_reduced(self@, other@);
            lemma_small_mod(fadd(self@, other@), modulus());
        }
        g1_add(self, other)
    }

    /// Difference of two elements.
    pub fn sub(&self, other: &G1) -> (r: G1)
        ensures
            r@ == fsub(self@, other@),
    {
        proof {
            lemma_results_reduced(self@, other@);
            lemma_small_mod(fsub(self@, other@), modulus());
        }
        g1_sub(self, other)
    }

    /// The multiple of an element by a scalar.
    pub fn mul(&self, s: &Scalar) -> (r: G1)
        ensures
            r@ == fmul(self@, s@),
    {
        proof {
            lemma_results_reduced(self@, s@);
            lemma_small_mod(fmul(self@, s@), modulus());
        }
        g1_mul(self, s)
    }

    /// The sum of the elements of `bases`, each multiplied by the scalar at
    /// its index.
    pub fn msm(bases: &[G1], scalars: &[Scalar]) -> (r: G1)
        requires
            bases@.len() == scalars@.len(),
        ensures
            r@ == inner_product(values(scalars@), exponents(bases@)),
    {
        proof {
            lemma_inner_product_reduced(values(scalars@), exponents(bases@));
            lemma_small_mod(inner_product(values(scalars@), exponents(bases@)), modulus());
        }
        g1_msm(bases, scalars)
    }

    /// Whether two values are the same group element.
    pub fn equals(&self, other: &G1) -> (r: bool)
        ensures
            r == (self@ == other@),
    {
        g1_eq(self, other)
    }
}

impl G2 {
    /// The multiple that stands for an element is below the group's order.
    pub proof fn lemma_reduced(self)
        ensures
            self@ < modulus(),
    {
        lemma_mod_bound(g2_exponent(self) as int, modulus() as int);
    }

    /// The fixed generator.
    pub fn generator() -> (r: G2)
        ensures
            r@ == 1,
    {
        proof {
            lemma_small_mod(1, modulus());
        }
        g2_generator()
    }

    /// Difference of two elements.
    pub fn sub(&self, other: &G2) -> (r: G2)
        ensures
            r@ == fsub(self@, other@),
    {
        proof {
            lemma_results_reduced(self@, other@);
            lemma_small_mod(fsub(self@, other@), modulus());
        }
        g2_sub(self, other)
    }

    /// The multiple of an element by a scalar.
    pub fn mul(&self, s: &Scalar) -> (r: G2)
        ensures
            r@ == fmul(self@, s@),
    {
        proof {
            lemma_results_reduced(self@, s@);
            lemma_small_mod(fmul(self@, s@), modulus());
        }
        g2_mul(self, s)
    }

    /// The sum of the elements of `bases`, each multiplied by the scalar at
    /// its index.
    pub fn msm(bases: &[G2], scalars: &[Scalar]) -> (r: G2)
        requires
            bases@.len() == scalars@.len(),
        ensures
            r@ == inner_product(values(scalars@), exponents2(bases@)),
    {
        proof {
            lemma_inner_product_reduced(values(scalars@), exponents2(bases@));
            lemma_small_mod(inner_product(values(scalars@), exponents2(bases@)), modulus());
        }
        g2_msm(bases, scalars)
    }

    /// Whether two values are the same group element.
    pub fn equals(&self, other: &G2) -> (r: bool)
        ensures
            r == (self@ == other@),
    {
        g2_eq(self, other)
    }
}

impl Gt {
    /// The multiple that stands for an element is below the group's order.
    pub proof fn lemma_reduced(self)
        ensures
            self@ < modulus(),
    {
        lemma_mod_bound(gt_exponent(self) as int, modulus() as int);
    }

    /// Sum of two elements, the target group written additively.
    pub fn add(&self, other: &Gt) -> (r: Gt)
        ensures
            r@ == fadd(self@, other@),
    {
        proof {
            lemma_results_reduced(self@, other@);
            lemma_small_mod(fadd(self@, other@), modulus());
        }
        gt_add(self, other)
    }

    /// Whether two values are the same group element.
    pub fn equals(&self, other: &Gt) -> (r: bool)
        ensures
            r == (self@ == other@),
    {
        gt_eq(self, other)
    }
}

/// The pairing of an element of the first source group with one of the second.
pub fn pairing(p: &G1, q: &G2) -> (r: Gt)
    ensures
        r@ == fmul(p@, q@),
{
    proof {
        lemma_results_reduced(p@, q@);
        lemma_small_mod(fmul(p@, q@), modulus());
    }
    bls_pairing(p, q)
}

/// Calls `ark_ec::Group::generator` for the first source group.
#[verifier::external_body]
fn g1_generator() -> (r: G1)
    ensures
        g1_exponent(r) == 1,
{
    G1 { point: G1Projective::generator() }
}

/// Calls `Zero::zero` for the first source group, which gives its identity.
#[verifier::external_body]
fn g1_identity() -> (r: G1)
    ensures
        g1_exponent(r) == 0,
{
    G1 { point: G1Projective::zero() }
}

/// Calls `+` of the first source group. Multiples of the generator add up
/// modulo the group's order.
#[verifier::external_body]
fn g1_add(a: &G1, b: &G1) -> (r: G1)
    ensures
        g1_exponent(r) == fadd(a@, b@),
{
    G1 { point: a.point + b.point }
}

/// Calls `-` of the first source group.
#[verifier::external_body]
fn g1_sub(a: &G1, b: &G1) -> (r: G1)
    ensures
        g1_exponent(r) == fsub(a@, b@),
{
    G1 { point: a.point - b.point }
}

/// Calls `*` of the first source group with a scalar, which multiplies the
/// element by the scalar.
#[verifier::external_body]
fn g1_mul(a: &G1, s: &Scalar) -> (r: G1)
    ensures
        g1_exponent(r) == fmul(a@, s@),
{
    G1 { point: a.point * Fr::from(BigInt::new(s.to_limbs())) }
}

/// Calls `==` of the first source group. Two elements are equal exactly when
/// they are the same multiple of the generator.
#[verifier::external_body]
fn g1_eq(a: &G1, b: &G1) -> (r: bool)
    ensures
        r == (a@ == b@),
{
    a.point == b.point
}

/// Calls `ark_ec::VariableBaseMSM::msm` for the first source group, on slices
/// of one length: the sum of the elements, each multiplied by its scalar.
#[verifier::external_body]
fn g1_msm(bases: &[G1], scalars: &[Scalar]) -> (r: G1)
    requires
        bases@.len() == scalars@.len(),
    ensures
        g1_exponent(r) == inner_product(values(scalars@), exponents(bases@)),
{
    let b: Vec<_> = bases.iter().map(|p| p.point.into_affine()).collect();
    let s: Vec<Fr> = scalars.iter().map(|x| Fr::from(BigInt::new(x.to_limbs()))).collect();
    G1 { point: G1Projective::msm(&b, &s).unwrap() }
}

/// Calls `ark_poly::EvaluationDomain::fft` on the domain of `size` points,
/// with group elements for coefficients: the `k`-th element of the result is
/// the sum of the given elements, the `j`-th multiplied by the `j`-th power
/// of the `k`-th point of the domain.
#[verifier::external_body]
pub(crate) fn fft_g1(size: usize, points: &Vec<G1>) -> (r: Vec<G1>)
    requires
        domain_ok(size as nat),
        points.len() <= size,
    ensures
        r.len() == size,
        exponents(r@) == evaluations(size as nat, exponents(points@)),
{
    let d = GeneralEvaluationDomain::<Fr>::new(size).unwrap();
    let v: Vec<G1Projective> = points.iter().map(|p| p.point).collect();
    d.fft(&v).iter().map(|p| G1 { point: *p }).collect()
}

/// Calls `ark_poly::EvaluationDomain::ifft` on the domain of `size` points,
/// with group elements for values. The function computes the `k`-th of the
/// `size` results as the sum of the given elements, the `j`-th multiplied by
/// the `j`-th power of the `k`-th power of the generator's inverse, over
/// `size`. The polynomial with these for coefficients takes the given
/// elements at the domain's points, in their order, and the identity at the
/// points for which none is given.
#[verifier::external_body]
pub(crate) fn ifft_g1(size: usize, points: &Vec<G1>) -> (r: Vec<G1>)
    requires
        domain_ok(size as nat),
        points.len() <= size,
    ensures
        r.len() == size,
        exponents(r@) == interpolation(size as nat, exponents(points@)),
        forall|k: nat|
            k < size ==> #[trigger] poly_eval(exponents(r@), domain_point(size as nat, k)) == (if k
                < points.len() {
                points[k as int]@
            } else {
                0
            }),
{
    let d = GeneralEvaluationDomain::<Fr>::new(size).unwrap();
    let v: Vec<G1Projective> = points.iter().map(|p| p.point).collect();
    d.ifft(&v).iter().map(|p| G1 { point: *p }).collect()
}

/// Calls `ark_ec::Group::generator` for the second source group.
#[verifier::external_body]
fn g2_generator() -> (r: G2)
    ensures
        g2_exponent(r) == 1,
{
    G2 { point: G2Projective::generator() }
}

/// Calls `-` of the second source group.
#[verifier::external_body]
fn g2_sub(a: &G2, b: &G2) -> (r: G2)
    ensures
        g2_exponent(r) == fsub(a@, b@),
{
    G2 { point: a.point - b.point }
}

/// Calls `*` of the second source group with a scalar.
#[verifier::external_body]
fn g2_mul(a: &G2, s: &Scalar) -> (r: G2)
    ensures
        g2_exponent(r) == fmul(a@, s@),
{
    G2 { point: a.point * Fr::from(BigInt::new(s.to_limbs())) }
}

/// Calls `==` of the second source group.
#[verifier::external_body]
fn g2_eq(a: &G2, b: &G2) -> (r: bool)
    ensures
        r == (a@ == b@),
{
    a.point == b.point
}

/// Calls `ark_ec::VariableBaseMSM::msm` for the second source group, on
/// slices of one length.
#[verifier::external_body]
fn g2_msm(bases: &[G2], scalars: &[Scalar]) -> (r: G2)
    requires
        bases@.len() == scalars@.len(),
    ensures
        g2_exponent(r) == inner_product(values(scalars@), exponents2(bases@)),
{
    let b: Vec<_> = bases.iter().map(|p| p.point.into_affine()).collect();
    let s: Vec<Fr> = scalars.iter().map(|x| Fr::from(BigInt::new(x.to_limbs()))).collect();
    G2 { point: G2Projective::msm(&b, &s).unwrap() }
}

/// Calls `ark_ec::pairing::Pairing::pairing` of BLS12-381. The map is
/// bilinear, and the pairing of the two generators generates the target group:
/// the multiples multiply.
#[verifier::external_body]
fn bls_pairing(p: &G1, q: &G2) -> (r: Gt)
    ensures
        gt_exponent(r) == fmul(p@, q@),
{
    Gt { value: Bls12_381::pairing(p.point, q.point) }
}

/// Calls `+` of `ark_ec::pairing::PairingOutput`, the target group's
/// operation.
#[verifier::external_body]
fn gt_add(a: &Gt, b: &Gt) -> (r: Gt)
    ensures
        gt_exponent(r) == fadd(a@, b@),
{
    Gt { value: a.value + b.value }
}

/// Calls `==` of `ark_ec::pairing::PairingOutput`.
#[verifier::external_body]
fn gt_eq(a: &Gt, b: &Gt) -> (r: bool)
    ensures
        r == (a@ == b@),
{
    a.value == b.value
}

} // verus!
