use crate::field::{fadd, finv, fmul, fpow, fsub, is_inverse, lemma_results_reduced, values};
use crate::membership::lemma_membership_complete;
use crate::group::exponents2;
use crate::identities::{
    lemma_division, lemma_eval_add_scaled, lemma_eval_shift, lemma_eval_split, lemma_eval_strip,
    lemma_inner_product_combination,
};
use crate::multiplicity::multiplicities;
use crate::poly::{interpolation, poly_eval, powers, strip_zeros};
use crate::preprocess::{lagrange, PreprocessedElements};
use crate::prover::{
    add_scaled, batched, inverse_values, lemma_batched_three, map_constants, map_exponents,
    opening_quotient, proof_values, quotient_weights,
};
use crate::ring::{
    congruent, lemma_congruent_reduced, lemma_lift_fadd, lemma_lift_fmul, lemma_lift_fpow,
    lemma_lift_fsub,
};
use crate::verify::{
    batched_opening_holds, checks, combined_commitment, combined_value, degree_bound_holds,
    zero_opening_holds,
};
use vstd::arithmetic::power::{lemma_pow1, lemma_square_is_pow2};
use vstd::prelude::*;

verus! {

/// The proof that the prover makes passes the degree bound check, whatever
/// the table and the input: the shifted commitment is the commitment to `B0`
/// moved up by as many places as the key's power has.
pub proof fn lemma_degree_bound_complete(
    beta: nat,
    gamma: nat,
    eta: nat,
    pre: PreprocessedElements,
    t: Seq<nat>,
    f: Seq<nat>,
)
    requires
        pre.well_formed(),
        t.len() == pre.big_n,
        1 <= f.len() <= t.len(),
    ensures
        degree_bound_holds(
            proof_values(beta, gamma, eta, pre, t, f),
            pre.srs.srs_g2@[pre.big_n + 1 - f.len()]@,
        ),
{
    let phi = proof_values(beta, gamma, eta, pre, t, f);
    let tau = pre.srs.tau();
    let k = (t.len() + 1 - f.len()) as nat;
    let b0 = interpolation(f.len(), inverse_values(f, beta)).skip(1);
    let key2 = exponents2(pre.srs.srs_g2@);
    assert(key2[k as int] == powers(tau, pre.srs.srs_g2@.len())[k as int]);
    let power = pre.srs.srs_g2@[k as int]@;
    assert(power == fpow(tau, k));
    lemma_eval_shift(k, b0, tau);
    let b = poly_eval(b0, tau);
    assert(phi.com1_b_0 == b);
    assert(phi.com_p == fmul(power, b));
    lemma_lift_fmul(b, power, b as int, power as int);
    lemma_lift_fmul(power, b, power as int, b as int);
    lemma_lift_fmul(fmul(power, b), 1, (power * b) as int, 1int);
    assert(b * power == (power * b) * 1) by (nonlinear_arith);
    lemma_results_reduced(b, power);
    lemma_results_reduced(fmul(power, b), 1);
    lemma_congruent_reduced(fmul(b, power), fmul(fmul(power, b), 1));
}

/// The proof that the prover makes passes the batched opening check,
/// whatever the table and the input: the opening commitment is the
/// commitment to the quotient of the combination by `x - gamma`.
pub proof fn lemma_batched_opening_complete(
    beta: nat,
    gamma: nat,
    eta: nat,
    pre: PreprocessedElements,
    t: Seq<nat>,
    f: Seq<nat>,
)
    ensures
        batched_opening_holds(
            gamma,
            eta,
            proof_values(beta, gamma, eta, pre, t, f),
            pre.srs.srs_g2@[1]@,
        ),
{
    let phi = proof_values(beta, gamma, eta, pre, t, f);
    let tau = pre.srs.tau();
    let n = f.len();
    let fc = interpolation(n, f);
    let b0 = interpolation(n, inverse_values(f, beta)).skip(1);
    let qb = crate::quotient::quotient_coefficients(f, beta);
    let polys = seq![b0, fc, qb];
    let all = batched(polys, eta);
    let inner = add_scaled(b0, fpow(eta, 1), fc);
    lemma_batched_three(polys, eta);
    assert(all == add_scaled(inner, fpow(eta, 2), qb));
    let h = poly_eval(opening_quotient(polys, gamma, eta), tau);
    assert(phi.com1_h == h);
    // the powers of eta
    lemma_lift_fpow(eta, 1, eta as int);
    lemma_lift_fpow(eta, 2, eta as int);
    lemma_pow1(eta as int);
    lemma_square_is_pow2(eta as int);
    let (e1, e2) = (fpow(eta, 1), fpow(eta, 2));
    assert(congruent(e1 as int, eta as int));
    assert(congruent(e2 as int, (eta * eta) as int));
    lemma_lift_fmul(eta, eta, eta as int, eta as int);
    // the combination at the trapdoor is the combined commitment
    let (bt, ft, qt) = (poly_eval(b0, tau), poly_eval(fc, tau), poly_eval(qb, tau));
    lemma_eval_add_scaled(inner, e2, qb, tau);
    lemma_eval_add_scaled(b0, e1, fc, tau);
    let at = poly_eval(all, tau);
    lemma_lift_fmul(e1, ft, eta as int, ft as int);
    lemma_lift_fadd(bt, fmul(e1, ft), bt as int, (eta * ft) as int);
    lemma_lift_fmul(e2, qt, (eta * eta) as int, qt as int);
    lemma_lift_fadd(
        fadd(bt, fmul(e1, ft)),
        fmul(e2, qt),
        (bt + eta * ft) as int,
        ((eta * eta) * qt) as int,
    );
    let c = combined_commitment(eta, phi);
    lemma_lift_fmul(ft, eta, ft as int, eta as int);
    lemma_lift_fadd(bt, fmul(ft, eta), bt as int, (ft * eta) as int);
    lemma_lift_fmul(qt, fmul(eta, eta), qt as int, (eta * eta) as int);
    lemma_lift_fadd(
        fadd(bt, fmul(ft, eta)),
        fmul(qt, fmul(eta, eta)),
        (bt + ft * eta) as int,
        (qt * (eta * eta)) as int,
    );
    assert((bt + eta * ft) + (eta * eta) * qt == (bt + ft * eta) + qt * (eta * eta))
        by (nonlinear_arith);
    assert(congruent(c as int, at as int));
    // the combination at gamma is the combined value
    let (bg, fg, qg) = (poly_eval(b0, gamma), poly_eval(fc, gamma), poly_eval(qb, gamma));
    lemma_eval_add_scaled(inner, e2, qb, gamma);
    lemma_eval_add_scaled(b0, e1, fc, gamma);
    let ag = poly_eval(all, gamma);
    lemma_lift_fmul(e1, fg, eta as int, fg as int);
    lemma_lift_fadd(bg, fmul(e1, fg), bg as int, (eta * fg) as int);
    lemma_lift_fmul(e2, qg, (eta * eta) as int, qg as int);
    lemma_lift_fadd(
        fadd(bg, fmul(e1, fg)),
        fmul(e2, qg),
        (bg + eta * fg) as int,
        ((eta * eta) * qg) as int,
    );
    let mu = combined_value(eta, phi);
    lemma_lift_fmul(eta, fg, eta as int, fg as int);
    lemma_lift_fadd(bg, fmul(eta, fg), bg as int, (eta * fg) as int);
    lemma_lift_fmul(fmul(eta, eta), qg, (eta * eta) as int, qg as int);
    lemma_lift_fadd(
        fadd(bg, fmul(eta, fg)),
        fmul(fmul(eta, eta), qg),
        (bg + eta * fg) as int,
        ((eta * eta) * qg) as int,
    );
    assert(congruent(mu as int, ag as int));
    // the division identity
    lemma_eval_strip(all, tau);
    lemma_eval_strip(all, gamma);
    lemma_division(strip_zeros(all), gamma, tau);
    assert(at == fadd(fmul(h, fsub(tau, gamma)), ag));
    lemma_lift_fsub(tau, gamma, tau as int, gamma as int);
    lemma_lift_fmul(h, fsub(tau, gamma), h as int, tau - gamma);
    lemma_lift_fadd(fmul(h, fsub(tau, gamma)), ag, h * (tau - gamma), ag as int);
    // the check
    lemma_lift_fmul(1, mu, 1int, ag as int);
    lemma_lift_fsub(c, fmul(1, mu), h * (tau - gamma) + ag, (1 * ag) as int);
    lemma_lift_fmul(phi.com1_h, gamma, h as int, gamma as int);
    lemma_lift_fadd(
        fsub(c, fmul(1, mu)),
        fmul(phi.com1_h, gamma),
        (h * (tau - gamma) + ag) - 1 * ag,
        (h * gamma) as int,
    );
    let lhs = fadd(fsub(c, fmul(1, mu)), fmul(phi.com1_h, gamma));
    lemma_lift_fmul(lhs, 1, ((h * (tau - gamma) + ag) - 1 * ag) + h * gamma, 1int);
    lemma_lift_fmul(phi.com1_h, tau, h as int, tau as int);
    assert((((h * (tau - gamma) + ag) - 1 * ag) + h * gamma) * 1 == h * tau) by (nonlinear_arith);
    lemma_results_reduced(lhs, 1);
    lemma_results_reduced(phi.com1_h, tau);
    lemma_congruent_reduced(fmul(lhs, 1), fmul(phi.com1_h, tau));
}

/// The proof that the prover makes passes the opening of `A` at zero, where
/// the preprocessed elements are those of a table: the opening commitment
/// combines the cached commitments to the Lagrange polynomials without their
/// constant coefficients.
pub proof fn lemma_zero_opening_complete(
    beta: nat,
    gamma: nat,
    eta: nat,
    pre: PreprocessedElements,
    table: Seq<nat>,
    t: Seq<nat>,
    f: Seq<nat>,
)
    requires
        pre.encodes(table),
        t.len() == pre.big_n,
    ensures
        zero_opening_holds(proof_values(beta, gamma, eta, pre, t, f), pre.srs.srs_g2@[1]@),
{
    let phi = proof_values(beta, gamma, eta, pre, t, f);
    let tau = pre.srs.tau();
    let n = pre.big_n as nat;
    let aw = quotient_weights(multiplicities(t, f), t, beta);
    let lc = map_exponents(pre.com1_li_x@, n);
    let l0 = map_constants(pre.li_x@, n);
    let l0c = map_exponents(pre.com1_li_0@, n);
    assert forall|i: int| 0 <= i < aw.len() implies #[trigger] lc[i] == fadd(
        l0[i],
        fmul(tau, l0c[i]),
    ) by {
        let k = i as u64;
        assert(pre.li_x@.contains_key(k));
        assert(pre.com1_li_x@.contains_key(k));
        assert(pre.com1_li_0@.contains_key(k));
        let li = lagrange(n, k as nat);
        assert(values(pre.li_x@[k]@) == li);
        assert(li.len() == pre.li_x@[k]@.len());
        assert(li[0] == pre.li_x@[k]@[0]@);
        lemma_eval_split(li, tau);
    }
    lemma_inner_product_combination(aw, l0, tau, l0c, lc);
    let (a, a0, a0c) = (phi.com1_a, phi.a0, phi.com1_a0);
    assert(a == fadd(a0, fmul(tau, a0c)));
    lemma_lift_fmul(tau, a0c, tau as int, a0c as int);
    lemma_lift_fadd(a0, fmul(tau, a0c), a0 as int, (tau * a0c) as int);
    lemma_lift_fmul(1, a0, 1int, a0 as int);
    lemma_lift_fsub(a, fmul(1, a0), (a0 + tau * a0c) as int, (1 * a0) as int);
    lemma_lift_fmul(fsub(a, fmul(1, a0)), 1, (a0 + tau * a0c) - 1 * a0, 1int);
    lemma_lift_fmul(a0c, tau, a0c as int, tau as int);
    assert(((a0 + tau * a0c) - 1 * a0) * 1 == a0c * tau) by (nonlinear_arith);
    lemma_results_reduced(fsub(a, fmul(1, a0)), 1);
    lemma_results_reduced(a0c, tau);
    lemma_congruent_reduced(fmul(fsub(a, fmul(1, a0)), 1), fmul(a0c, tau));
}

/// Completeness: the proof that the prover makes for an input, against
/// the preprocessed elements of its table, passes all four checks of the
/// verifier, whatever the challenges, as long as each table value with a
/// multiplicity, plus `beta`, has its inverse.
pub proof fn lemma_completeness(
    beta: nat,
    gamma: nat,
    eta: nat,
    pre: PreprocessedElements,
    t: Seq<nat>,
    f: Seq<nat>,
)
    requires
        pre.encodes(t),
        1 <= f.len() <= t.len(),
        forall|i: int|
            0 <= i < t.len() && multiplicities(t, f).contains_key(i as usize) ==> is_inverse(
                fadd(#[trigger] t[i], beta),
                finv(fadd(t[i], beta)),
            ),
    ensures
        checks(beta, gamma, eta, proof_values(beta, gamma, eta, pre, t, f), pre, f.len()).all_hold(),
{
    lemma_membership_complete(beta, gamma, eta, pre, t, f);
    lemma_degree_bound_complete(beta, gamma, eta, pre, t, f);
    lemma_batched_opening_complete(beta, gamma, eta, pre, t, f);
    lemma_zero_opening_complete(beta, gamma, eta, pre, t, t, f);
}

} // verus!
