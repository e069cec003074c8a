use crate::field::{
    fadd, finv, fmul, fpow, fsub, lemma_fadd_zero, lemma_fmul_unit, lemma_fpow_step,
    lemma_results_reduced, modulus, values, Scalar,
};
use crate::ring::{congruent, lemma_congruent_reduced, lemma_lift_fadd, lemma_lift_fmul};
use ark_bls12_381::Fr;
use ark_ff::{BigInt, PrimeField};
use ark_poly::univariate::DensePolynomial;
use ark_poly::{DenseUVPolynomial, EvaluationDomain, GeneralEvaluationDomain};
use vstd::prelude::*;

verus! {

/// The sum of `a[i] * b[i]` over the indices of `a`, in the scalar field.
pub open spec fn inner_product(a: Seq<nat>, b: Seq<nat>) -> nat
    decreases a.len(),
{
    if a.len() == 0 {
        0
    } else {
        fadd(inner_product(a.drop_last(), b), fmul(a.last(), b[a.len() - 1]))
    }
}

/// The first `n` powers of `x`, from the power zero.
pub open spec fn powers(x: nat, n: nat) -> Seq<nat> {
    Seq::new(n, |i: int| fpow(x, i as nat))
}

/// The value at `x` of the polynomial with the coefficients `c`, lowest first.
pub open spec fn poly_eval(c: Seq<nat>, x: nat) -> nat {
    inner_product(c, powers(x, c.len()))
}

/// `n` is a power of two.
pub open spec fn is_pow2(n: nat) -> bool
    decreases n,
{
    n == 1 || (n >= 2 && n % 2 == 0 && is_pow2(n / 2))
}

/// An evaluation domain of `size` points exists in the scalar field: `size`
/// is a power of two that divides the order of the field's unit group.
pub open spec fn domain_ok(size: nat) -> bool {
    is_pow2(size) && size <= 0x1_0000_0000
}

/// The element that generates the evaluation domain of `size` points, as
/// `ark_poly::EvaluationDomain::group_gen` gives it for the domain that
/// `ark_poly::GeneralEvaluationDomain::new` makes for `size`.
pub uninterp spec fn root_of_unity(size: nat) -> nat;

/// The `i`-th point of the evaluation domain of `size` points.
pub open spec fn domain_point(size: nat, i: nat) -> nat {
    fpow(root_of_unity(size), i)
}


/// The `k`-th coefficient that the inverse transform on the domain of `size`
/// points makes of the values `evals`: their sum, the `j`-th multiplied by
/// the `j`-th power of the `k`-th power of the generator's inverse, over
/// `size`.
pub open spec fn inverse_transform(size: nat, evals: Seq<nat>, k: nat) -> nat {
    fmul(finv(size), poly_eval(evals, fpow(finv(root_of_unity(size)), k)))
}

/// The coefficients that the inverse transform on the domain of `size`
/// points makes of the values `evals`: those of the polynomial of degree
/// below `size` that takes the value `evals[k]` at the `k`-th point of the
/// domain, and zero at the points from `evals.len()` on.
pub open spec fn interpolation(size: nat, evals: Seq<nat>) -> Seq<nat> {
    Seq::new(size, |k: int| inverse_transform(size, evals, k as nat))
}

/// The values of the polynomial with the coefficients `c` at the points of the
/// domain of `size` points, in their order.
pub open spec fn evaluations(size: nat, c: Seq<nat>) -> Seq<nat> {
    Seq::new(size, |k: int| poly_eval(c, domain_point(size, k as nat)))
}

/// The coefficients of `x^size - 1`, lowest first.
pub open spec fn vanishing(size: nat) -> Seq<nat> {
    Seq::new(
        size + 1,
        |i: int|
            if i == 0 {
                (modulus() - 1) as nat
            } else if i == size {
                1nat
            } else {
                0nat
            },
    )
}

/// The coefficients without the zeros at the high end.
pub open spec fn strip_zeros(c: Seq<nat>) -> Seq<nat>
    decreases c.len(),
{
    if c.len() > 0 && c.last() == 0 {
        strip_zeros(c.drop_last())
    } else {
        c
    }
}

/// The quotient of the polynomial with the coefficients `a` by `x - z`: its
/// `i`-th coefficient is `a[i+1] + a[i+2] * z + a[i+3] * z^2 + ...`.
pub open spec fn linear_quotient(a: Seq<nat>, z: nat) -> Seq<nat> {
    Seq::new(
        if a.len() >= 1 {
            (a.len() - 1) as nat
        } else {
            0
        },
        |i: int| poly_eval(a.skip(i + 1), z),
    )
}

/// The powers of a number and of its reduction are the same.
pub proof fn lemma_powers_reduce(x: nat, n: nat)
    ensures
        powers(x % modulus(), n) =~= powers(x, n),
{
    assert forall|i: int| 0 <= i < n implies #[trigger] powers(x % modulus(), n)[i] == powers(
        x,
        n,
    )[i] by {
        lemma_fpow_step(x, i as nat);
    }
}

/// An inner product reads its second sequence at the indices of the first
/// only.
pub proof fn lemma_inner_product_prefix(a: Seq<nat>, b: Seq<nat>, c: Seq<nat>)
    requires
        forall|i: int| 0 <= i < a.len() ==> b[i] == c[i],
    ensures
        inner_product(a, b) == inner_product(a, c),
    decreases a.len(),
{
    if a.len() > 0 {
        lemma_inner_product_prefix(a.drop_last(), b, c);
    }
}

/// An inner product with the powers of `x` is the value of a polynomial at
/// `x`.
pub proof fn lemma_inner_product_powers(c: Seq<nat>, x: nat, n: nat)
    requires
        c.len() <= n,
    ensures
        inner_product(c, powers(x, n)) == poly_eval(c, x),
{
    lemma_inner_product_prefix(c, powers(x, n), powers(x, c.len()));
}

/// The inner product is additive in its first sequence.
pub proof fn lemma_inner_product_additive(a: Seq<nat>, b: Seq<nat>, key: Seq<nat>)
    requires
        a.len() == b.len(),
    ensures
        fadd(inner_product(a, key), inner_product(b, key)) == inner_product(
            Seq::new(a.len(), |i: int| fadd(a[i], b[i])),
            key,
        ),
    decreases a.len(),
{
    let sum = Seq::new(a.len(), |i: int| fadd(a[i], b[i]));
    if a.len() == 0 {
        assert(inner_product(a, key) == 0 && inner_product(b, key) == 0);
        assert(inner_product(sum, key) == 0);
        lemma_fadd_zero(0);
    } else {
        let (a0, b0) = (a.drop_last(), b.drop_last());
        let sum0 = Seq::new(a0.len(), |i: int| fadd(a0[i], b0[i]));
        lemma_inner_product_additive(a0, b0, key);
        assert(sum.drop_last() =~= sum0);
        let k = key[a.len() - 1];
        let (x, y) = (inner_product(a0, key), inner_product(b0, key));
        let (al, bl) = (a.last(), b.last());
        assert(sum.last() == fadd(al, bl));
        let left = fadd(inner_product(a, key), inner_product(b, key));
        let right = inner_product(sum, key);
        assert(inner_product(a, key) == fadd(x, fmul(al, k)));
        assert(inner_product(b, key) == fadd(y, fmul(bl, k)));
        assert(right == fadd(fadd(x, y), fmul(fadd(al, bl), k)));
        // left: (x + al k) + (y + bl k)
        lemma_lift_fmul(al, k, al as int, k as int);
        lemma_lift_fadd(x, fmul(al, k), x as int, (al * k) as int);
        lemma_lift_fmul(bl, k, bl as int, k as int);
        lemma_lift_fadd(y, fmul(bl, k), y as int, (bl * k) as int);
        lemma_lift_fadd(
            fadd(x, fmul(al, k)),
            fadd(y, fmul(bl, k)),
            (x + al * k) as int,
            (y + bl * k) as int,
        );
        assert(congruent(left as int, ((x + al * k) + (y + bl * k)) as int));
        // right: (x + y) + (al + bl) k
        lemma_lift_fadd(x, y, x as int, y as int);
        lemma_lift_fadd(al, bl, al as int, bl as int);
        lemma_lift_fmul(fadd(al, bl), k, (al + bl) as int, k as int);
        lemma_lift_fadd(
            fadd(x, y),
            fmul(fadd(al, bl), k),
            (x + y) as int,
            ((al + bl) * k) as int,
        );
        assert(congruent(right as int, ((x + y) + (al + bl) * k) as int));
        assert((x + al * k) + (y + bl * k) == (x + y) + (al + bl) * k) by (nonlinear_arith);
        lemma_results_reduced(inner_product(a, key), inner_product(b, key));
        lemma_results_reduced(fadd(x, y), fmul(fadd(al, bl), k));
        lemma_congruent_reduced(left, right);
    }
}

/// The first `k` coefficients of `x^n - 1`, `1 <= k <= n`, commit to the
/// constant alone.
pub proof fn lemma_vanishing_prefix(n: nat, key: Seq<nat>, k: nat)
    requires
        1 <= k <= n,
    ensures
        inner_product(vanishing(n).take(k as int), key) == fmul((modulus() - 1) as nat, key[0]),
    decreases k,
{
    let v = vanishing(n).take(k as int);
    let c = fmul((modulus() - 1) as nat, key[0]);
    assert(c < modulus()) by {
        vstd::arithmetic::div_mod::lemma_mod_bound(((modulus() - 1) * key[0]) as int, modulus() as int);
    }
    if k == 1 {
        assert(v.drop_last().len() == 0);
        assert(inner_product(v.drop_last(), key) == 0);
        lemma_fadd_zero(c);
    } else {
        lemma_vanishing_prefix(n, key, (k - 1) as nat);
        assert(v.drop_last() =~= vanishing(n).take(k - 1));
        lemma_fmul_unit(key[k - 1]);
        lemma_fadd_zero(c);
    }
}

/// Whether `n` is a power of two.
pub fn is_power_of_two(n: usize) -> (r: bool)
    ensures
        r == is_pow2(n as nat),
{
    if n == 0 {
        return false;
    }
    let mut m: usize = n;
    while m % 2 == 0
        invariant
            m >= 1,
            is_pow2(m as nat) == is_pow2(n as nat),
        decreases m,
    {
        m = m / 2;
    }
    m == 1
}

/// Whether an evaluation domain of `size` points exists.
pub fn domain_exists(size: usize) -> (r: bool)
    ensures
        r == domain_ok(size as nat),
{
    is_power_of_two(size) && (size as u64) <= 0x1_0000_0000u64
}

/// Calls `ark_poly::EvaluationDomain::element` on the domain of `size`
/// points: the `i`-th power of the domain's generator. The generator has the
/// order `size`: its power `size` is one, and no power between is.
#[verifier::external_body]
pub(crate) fn domain_element(size: usize, i: usize) -> (r: Scalar)
    requires
        domain_ok(size as nat),
    ensures
        r@ == fpow(root_of_unity(size as nat), i as nat),
        i == size ==> r@ == 1,
        0 < i < size ==> r@ != 1,
{
    let d = GeneralEvaluationDomain::<Fr>::new(size).unwrap();
    Scalar::from_reduced_limbs(d.element(i).into_bigint().0)
}

/// Calls `ark_poly::EvaluationDomain::fft` on the domain of `size` points: the
/// values at the domain's points, in their order, of the polynomial with the
/// given coefficients.
#[verifier::external_body]
pub(crate) fn fft(size: usize, coeffs: &[Scalar]) -> (r: Vec<Scalar>)
    requires
        domain_ok(size as nat),
        coeffs@.len() <= size,
    ensures
        r.len() == size,
        values(r@) == evaluations(size as nat, values(coeffs@)),
{
    let d = GeneralEvaluationDomain::<Fr>::new(size).unwrap();
    let v: Vec<Fr> = coeffs.iter().map(|x| Fr::from(BigInt::new(x.to_limbs()))).collect();
    d.fft(&v).iter().map(|x| Scalar::from_reduced_limbs(x.into_bigint().0)).collect()
}

/// Calls `ark_poly::EvaluationDomain::ifft` on the domain of `size` points.
/// The function computes the `k`-th of the `size` coefficients as the sum of
/// the values, the `j`-th multiplied by the `j`-th power of the `k`-th power
/// of the generator's inverse, over `size`. These are the coefficients of the
/// polynomial that takes the given values at the domain's points, in their
/// order, and zero at the points for which no value is given.
#[verifier::external_body]
pub(crate) fn ifft(size: usize, evals: &[Scalar]) -> (r: Vec<Scalar>)
    requires
        domain_ok(size as nat),
        evals@.len() <= size,
    ensures
        values(r@) == interpolation(size as nat, values(evals@)),
        r.len() == size,
        forall|k: nat|
            k < size ==> #[trigger] poly_eval(values(r@), domain_point(size as nat, k)) == (if k
                < evals@.len() {
                evals@[k as int]@
            } else {
                0
            }),
{
    let d = GeneralEvaluationDomain::<Fr>::new(size).unwrap();
    let v: Vec<Fr> = evals.iter().map(|x| Fr::from(BigInt::new(x.to_limbs()))).collect();
    d.ifft(&v).iter().map(|x| Scalar::from_reduced_limbs(x.into_bigint().0)).collect()
}

/// The value at `x` of the polynomial with the given coefficients, by
/// Horner's rule.
pub fn poly_evaluate(coeffs: &[Scalar], x: &Scalar) -> (r: Scalar)
    ensures
        r@ == poly_eval(values(coeffs@), x@),
{
    let ghost all = values(coeffs@);
    let mut acc = Scalar::zero();
    let mut i: usize = coeffs.len();
    while i > 0
        invariant
            i <= coeffs.len(),
            all == values(coeffs@),
            acc@ == poly_eval(all.skip(i as int), x@),
        decreases i,
    {
        i -= 1;
        proof {
            let c = all.skip(i as int);
            crate::identities::lemma_eval_split(c, x@);
            assert(c.skip(1) =~= all.skip(i + 1));
            assert(c[0] == coeffs@[i as int]@);
        }
        acc = coeffs[i].add(&x.mul(&acc));
    }
    proof {
        assert(all.skip(0) =~= all);
    }
    acc
}

/// Calls `/` of `ark_poly::univariate::DensePolynomial` with a divisor
/// `x - z`, given by its two coefficients: the quotient of the long division,
/// which leaves the remainder out. The dividend counts without the zeros at
/// its high end.
#[verifier::external_body]
pub(crate) fn poly_divide_linear(a: &Vec<Scalar>, divisor: &Vec<Scalar>) -> (r: Vec<Scalar>)
    requires
        divisor.len() == 2,
        divisor[1]@ == 1,
    ensures
        values(r@) == linear_quotient(strip_zeros(values(a@)), fsub(0, divisor[0]@)),
{
    let p: Vec<Fr> = a.iter().map(|c| Fr::from(BigInt::new(c.to_limbs()))).collect();
    let q: Vec<Fr> = divisor.iter().map(|c| Fr::from(BigInt::new(c.to_limbs()))).collect();
    let (p, q) = (DensePolynomial::from_coefficients_vec(p), DensePolynomial::from_coefficients_vec(q));
    (&p / &q).coeffs().iter().map(|x| Scalar::from_reduced_limbs(x.into_bigint().0)).collect()
}

} // verus!
