use crate::error::CqError;
use crate::field::{fadd, finv, fmul, fsub, is_inverse, modulus, Scalar};
use crate::ring::{lemma_cong_mul, lemma_congruent_reduced, lemma_lift_fmul};
use vstd::arithmetic::div_mod::lemma_small_mod;
use crate::group::{pairing, G1, G2};
use crate::preprocess::PreprocessedElements;
use crate::prover::{Phi, PhiValues};
use crate::transcript::Transcript;
use vstd::prelude::*;

verus! {

/// The membership relation `A * (T + beta) - M = QA * Z` over the
/// commitments: the pairing of `A` with the table commitment `t2` is the
/// pairing of `QA` with the vanishing commitment `z2` plus the pairing of
/// `M - beta * A` with the generator.
pub open spec fn membership_holds(beta: nat, phi: PhiValues, t2: nat, z2: nat) -> bool {
    fmul(phi.com1_a, t2) == fadd(
        fmul(phi.com1_qa, z2),
        fmul(fsub(phi.com1_m, fmul(phi.com1_a, beta)), 1),
    )
}

/// The degree bound: the pairing of the commitment to `B0` with the key's
/// power `key_power` is the pairing of the shifted commitment with the
/// generator.
pub open spec fn degree_bound_holds(phi: PhiValues, key_power: nat) -> bool {
    fmul(phi.com1_b_0, key_power) == fmul(phi.com_p, 1)
}

/// The claimed value of the combination `B0 + eta * F + eta^2 * QB` at
/// `gamma`.
pub open spec fn combined_value(eta: nat, phi: PhiValues) -> nat {
    fadd(fadd(phi.b0_gamma, fmul(eta, phi.f_gamma)), fmul(fmul(eta, eta), phi.q_b_gamma))
}

/// The commitment to the combination `B0 + eta * F + eta^2 * QB`.
pub open spec fn combined_commitment(eta: nat, phi: PhiValues) -> nat {
    fadd(fadd(phi.com1_b_0, fmul(phi.com1_f, eta)), fmul(phi.com1_qb, fmul(eta, eta)))
}

/// The batched opening at `gamma`: the pairing of `C - mu * g + gamma * H`
/// with the generator is the pairing of `H` with the key's first power
/// `tau`.
pub open spec fn batched_opening_holds(gamma: nat, eta: nat, phi: PhiValues, tau: nat) -> bool {
    fmul(
        fadd(
            fsub(combined_commitment(eta, phi), fmul(1, combined_value(eta, phi))),
            fmul(phi.com1_h, gamma),
        ),
        1,
    ) == fmul(phi.com1_h, tau)
}

/// The opening of `A` at zero: the pairing of `A - A(0) * g` with the
/// generator is the pairing of the opening commitment with the key's first
/// power `tau`.
pub open spec fn zero_opening_holds(phi: PhiValues, tau: nat) -> bool {
    fmul(fsub(phi.com1_a, fmul(1, phi.a0)), 1) == fmul(phi.com1_a0, tau)
}

/// The outcome of each of the four pairing checks.
#[derive(Debug, Clone, Copy, PartialEq, Eq, Structural)]
pub struct Checks {
    pub membership: bool,
    pub degree_bound: bool,
    pub batched_opening: bool,
    pub zero_opening: bool,
}

impl Checks {
    /// Every check holds.
    pub open spec fn all_hold(&self) -> bool {
        self.membership && self.degree_bound && self.batched_opening && self.zero_opening
    }

    /// Whether every check holds.
    pub fn accepted(&self) -> (r: bool)
        ensures
            r == self.all_hold(),
    {
        self.membership && self.degree_bound && self.batched_opening && self.zero_opening
    }

    /// Nothing where every check holds, `VerificationFailed` else.
    pub fn outcome(&self) -> (r: Result<(), CqError>)
        ensures
            self.all_hold() <==> r is Ok,
            !self.all_hold() <==> r == Err::<(), CqError>(CqError::VerificationFailed),
    {
        if self.accepted() {
            Ok(())
        } else {
            Err(CqError::VerificationFailed)
        }
    }
}

/// The outcome of the four checks of the proof `phi` for an input of `n`
/// entries, under the challenges and the preprocessed elements.
pub open spec fn checks(
    beta: nat,
    gamma: nat,
    eta: nat,
    phi: PhiValues,
    pre: PreprocessedElements,
    n: nat,
) -> Checks {
    Checks {
        membership: membership_holds(
            beta,
            phi,
            pre.com2_t_x@,
            pre.com2_vanishingpoly_big_n@,
        ),
        degree_bound: degree_bound_holds(phi, pre.srs.srs_g2@[pre.big_n + 1 - n]@),
        batched_opening: batched_opening_holds(gamma, eta, phi, pre.srs.srs_g2@[1]@),
        zero_opening: zero_opening_holds(phi, pre.srs.srs_g2@[1]@),
    }
}

/// Evaluates the four pairing checks of the proof `phi` for the input `f`,
/// of which only the number of entries counts.
pub fn check_all(transcript: &Transcript, phi: &Phi, pre: &PreprocessedElements, f: &Vec<Scalar>) -> (r:
    Checks)
    requires
        pre.well_formed(),
        1 <= f.len() <= pre.big_n,
    ensures
        r == checks(transcript.beta@, transcript.gamma@, transcript.eta@, phi@, *pre, f.len() as nat),
{
    let beta = transcript.beta;
    let gamma = transcript.gamma;
    let eta = transcript.eta;
    let g1 = G1::generator();
    let g2 = G2::generator();
    // the membership relation
    let lhs = pairing(&phi.com1_a, &pre.com2_t_x);
    let rhs = pairing(&phi.com1_qa, &pre.com2_vanishingpoly_big_n).add(
        &pairing(&phi.com1_m.sub(&phi.com1_a.mul(&beta)), &g2),
    );
    let membership = lhs.equals(&rhs);
    // the degree bound
    let small_n = f.len();
    let lhs = pairing(&phi.com1_b_0, &pre.srs.srs_g2[pre.big_n + 1 - small_n]);
    let rhs = pairing(&phi.com_p, &g2);
    let degree_bound = lhs.equals(&rhs);
    // the batched opening
    let eta2 = eta.mul(&eta);
    let mu = phi.b0_gamma.add(&eta.mul(&phi.f_gamma)).add(&eta2.mul(&phi.q_b_gamma));
    let c = phi.com1_b_0.add(&phi.com1_f.mul(&eta)).add(&phi.com1_qb.mul(&eta2));
    let lhs = pairing(&c.sub(&g1.mul(&mu)).add(&phi.com1_h.mul(&gamma)), &g2);
    let rhs = pairing(&phi.com1_h, &pre.srs.srs_g2[1]);
    let batched_opening = lhs.equals(&rhs);
    // the opening at zero
    let lhs = pairing(&phi.com1_a.sub(&g1.mul(&phi.a0)), &g2);
    let rhs = pairing(&phi.com1_a0, &pre.srs.srs_g2[1]);
    let zero_opening = lhs.equals(&rhs);
    Checks { membership, degree_bound, batched_opening, zero_opening }
}

/// Whether the proof `phi` is accepted for the input `f`: whether all four
/// pairing checks hold.
pub fn verify(transcript: &Transcript, phi: Phi, pre: &PreprocessedElements, f: Vec<Scalar>) -> (accept:
    bool)
    requires
        pre.well_formed(),
        1 <= f.len() <= pre.big_n,
    ensures
        accept == checks(
            transcript.beta@,
            transcript.gamma@,
            transcript.eta@,
            phi@,
            *pre,
            f.len() as nat,
        ).all_hold(),
{
    check_all(transcript, &phi, pre, &f).accepted()
}

/// Only the degree bound reads the shifted commitment: with another
/// commitment in its place the other three checks come out as before, and
/// the degree bound, if it held, fails for every other group element.
pub proof fn lemma_degree_bound_alone_reads_shift(
    beta: nat,
    gamma: nat,
    eta: nat,
    phi: PhiValues,
    pre: PreprocessedElements,
    n: nat,
    replacement: nat,
)
    requires
        phi.com_p < modulus(),
        replacement < modulus(),
    ensures
        ({
            let before = checks(beta, gamma, eta, phi, pre, n);
            let after = checks(beta, gamma, eta, (PhiValues { com_p: replacement, ..phi }), pre, n);
            &&& after.membership == before.membership
            &&& after.batched_opening == before.batched_opening
            &&& after.zero_opening == before.zero_opening
            &&& before.degree_bound && replacement != phi.com_p ==> !after.degree_bound
        }),
{
    crate::field::lemma_fmul_unit(replacement);
    crate::field::lemma_fmul_unit(phi.com_p);
}

/// Only the degree bound reads the shifted commitment: in a proof with
/// another group element in its place the other three checks come out as
/// before, and the degree bound, if it held, fails.
pub proof fn lemma_shift_replaced(
    beta: nat,
    gamma: nat,
    eta: nat,
    phi: Phi,
    replacement: G1,
    pre: PreprocessedElements,
    n: nat,
)
    ensures
        ({
            let before = checks(beta, gamma, eta, phi@, pre, n);
            let after = checks(beta, gamma, eta, (Phi { com_p: replacement, ..phi })@, pre, n);
            &&& after.membership == before.membership
            &&& after.batched_opening == before.batched_opening
            &&& after.zero_opening == before.zero_opening
            &&& before.degree_bound && replacement@ != phi.com_p@ ==> !after.degree_bound
        }),
{
    phi.com_p.lemma_reduced();
    replacement.lemma_reduced();
    lemma_degree_bound_alone_reads_shift(beta, gamma, eta, phi@, pre, n, replacement@);
    assert((Phi { com_p: replacement, ..phi })@ == (PhiValues { com_p: replacement@, ..phi@ }));
}

/// A proof that passes the degree bound for an input of `n` entries fails
/// it for an input of `other` entries, where the key's powers for the two
/// lengths differ and the commitment to `B0` is a multiple of the generator
/// that has its inverse.
pub proof fn lemma_other_length_rejected(
    beta: nat,
    gamma: nat,
    eta: nat,
    phi: Phi,
    pre: PreprocessedElements,
    n: nat,
    other: nat,
)
    requires
        checks(beta, gamma, eta, phi@, pre, n).degree_bound,
        pre.srs.srs_g2@[pre.big_n + 1 - other]@ != pre.srs.srs_g2@[pre.big_n + 1 - n]@,
        is_inverse(phi.com1_b_0@, finv(phi.com1_b_0@)),
    ensures
        !checks(beta, gamma, eta, phi@, pre, other).degree_bound,
{
    let b0 = phi.com1_b_0@;
    let inv = finv(b0);
    let p = pre.srs.srs_g2@[pre.big_n + 1 - n]@;
    let o = pre.srs.srs_g2@[pre.big_n + 1 - other]@;
    pre.srs.srs_g2@[pre.big_n + 1 - n].lemma_reduced();
    pre.srs.srs_g2@[pre.big_n + 1 - other].lemma_reduced();
    if fmul(b0, o) == fmul(b0, p) {
        let (bi, ii, pi, oi) = (b0 as int, inv as int, p as int, o as int);
        lemma_lift_fmul(b0, o, bi, oi);
        lemma_lift_fmul(b0, p, bi, pi);
        lemma_lift_fmul(b0, inv, bi, ii);
        lemma_small_mod(1, modulus());
        lemma_cong_mul(ii, ii, bi * oi, bi * pi);
        lemma_cong_mul(bi * ii, 1, oi, oi);
        lemma_cong_mul(bi * ii, 1, pi, pi);
        assert(ii * (bi * oi) == (bi * ii) * oi && ii * (bi * pi) == (bi * ii) * pi)
            by (nonlinear_arith);
        assert(1 * oi == oi && 1 * pi == pi);
        lemma_congruent_reduced(o, p);
    }
}

} // verus!
