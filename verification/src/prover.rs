use crate::error::CqError;
use crate::completeness::lemma_completeness;
use crate::field::{
    fadd, finv, fmul, fpow, is_inverse, lemma_fadd_zero, lemma_fmul_assoc, lemma_fmul_unit,
    lemma_fpow_step, lemma_fsub_twice, lemma_results_reduced, modulus, values, Scalar,
};
use crate::group::{exponents, G1};
use crate::kzg::{lemma_commit_is_evaluation, Srs};
use crate::multiplicity::{
    all_in_table, count_matches, last_index_of, lemma_counted_is_matched, lemma_last_index_of,
    multiplicities, multiplicity_map,
};
use crate::poly::{
    domain_point, ifft, inner_product, interpolation, is_pow2, linear_quotient,
    poly_divide_linear, poly_eval, poly_evaluate, strip_zeros,
};
use crate::quotient::{
    inverse_polynomial, lemma_quotient_identity_everywhere, quotient_coefficients,
    quotient_identity, quotient_polynomial, separate_domain,
};
use crate::preprocess::PreprocessedElements;
use crate::transcript::Transcript;
use crate::verify::checks;
use std::collections::BTreeMap;
use vstd::prelude::*;
use vstd::slice::{slice_subrange, slice_to_vec};

verus! {

/// The proof bundle: nine commitments and four evaluations.
#[derive(Debug, Clone, Copy, PartialEq, Eq)]
pub struct Phi {
    pub com1_m: G1,
    pub com1_f: G1,
    pub com1_a: G1,
    pub com1_qa: G1,
    pub com1_b_0: G1,
    pub com1_qb: G1,
    pub com_p: G1,
    pub a0: Scalar,
    pub b0_gamma: Scalar,
    pub q_b_gamma: Scalar,
    pub f_gamma: Scalar,
    pub com1_h: G1,
    pub com1_a0: G1,
}

/// What a proof bundle holds: the scalars by their values, the commitments
/// as multiples of the generator.
pub struct PhiValues {
    pub com1_m: nat,
    pub com1_f: nat,
    pub com1_a: nat,
    pub com1_qa: nat,
    pub com1_b_0: nat,
    pub com1_qb: nat,
    pub com_p: nat,
    pub a0: nat,
    pub b0_gamma: nat,
    pub q_b_gamma: nat,
    pub f_gamma: nat,
    pub com1_h: nat,
    pub com1_a0: nat,
}

impl View for Phi {
    type V = PhiValues;

    open spec fn view(&self) -> PhiValues {
        PhiValues {
            com1_m: self.com1_m@,
            com1_f: self.com1_f@,
            com1_a: self.com1_a@,
            com1_qa: self.com1_qa@,
            com1_b_0: self.com1_b_0@,
            com1_qb: self.com1_qb@,
            com_p: self.com_p@,
            a0: self.a0@,
            b0_gamma: self.b0_gamma@,
            q_b_gamma: self.q_b_gamma@,
            f_gamma: self.f_gamma@,
            com1_h: self.com1_h@,
            com1_a0: self.com1_a0@,
        }
    }
}

/// The elements that a map holds for the positions below `n`, as multiples
/// of the generator.
pub open spec fn map_exponents(m: Map<u64, G1>, n: nat) -> Seq<nat> {
    Seq::new(n, |i: int| m[i as u64]@)
}

/// The constant coefficients of the coefficient vectors that a map holds for
/// the positions below `n`.
pub open spec fn map_constants(m: Map<u64, Vec<Scalar>>, n: nat) -> Seq<nat> {
    Seq::new(n, |i: int| m[i as u64]@[0]@)
}

/// The multiplicities of the positions below `n`, zero where the map holds
/// none.
pub open spec fn multiplicity_weights(m: Map<usize, u64>, n: nat) -> Seq<nat> {
    Seq::new(
        n,
        |i: int|
            if m.contains_key(i as usize) {
                m[i as usize] as nat
            } else {
                0
            },
    )
}

/// For each table position its multiplicity over the table value plus
/// `beta`, zero where the map holds no multiplicity.
pub open spec fn quotient_weights(m: Map<usize, u64>, t: Seq<nat>, beta: nat) -> Seq<nat> {
    Seq::new(
        t.len(),
        |i: int|
            if m.contains_key(i as usize) {
                fmul(m[i as usize] as nat, finv(fadd(t[i], beta)))
            } else {
                0
            },
    )
}

/// The inverses of the input's entries plus `beta`.
pub open spec fn inverse_values(f: Seq<nat>, beta: nat) -> Seq<nat> {
    Seq::new(f.len(), |j: int| finv(fadd(f[j], beta)))
}

/// `k` zeros.
pub open spec fn zeros(k: nat) -> Seq<nat> {
    Seq::new(k, |i: int| 0nat)
}

/// The `i`-th coefficient, zero from the length on.
pub open spec fn coefficient(a: Seq<nat>, i: int) -> nat {
    if 0 <= i < a.len() {
        a[i]
    } else {
        0
    }
}

/// The coefficients of `a + c * p`.
pub open spec fn add_scaled(a: Seq<nat>, c: nat, p: Seq<nat>) -> Seq<nat> {
    Seq::new(
        if a.len() >= p.len() {
            a.len()
        } else {
            p.len()
        },
        |i: int| fadd(coefficient(a, i), fmul(c, coefficient(p, i))),
    )
}

/// The combination of the polynomials with the powers of `eta` for weights:
/// the first plus `eta` times the second plus `eta^2` times the third, and so
/// on.
pub open spec fn batched(polys: Seq<Seq<nat>>, eta: nat) -> Seq<nat>
    decreases polys.len(),
{
    if polys.len() == 0 {
        Seq::empty()
    } else if polys.len() == 1 {
        polys[0]
    } else {
        add_scaled(
            batched(polys.drop_last(), eta),
            fpow(eta, (polys.len() - 1) as nat),
            polys.last(),
        )
    }
}

/// The coefficients of the quotient that opens the combination of the
/// polynomials at `gamma`.
pub open spec fn opening_quotient(polys: Seq<Seq<nat>>, gamma: nat, eta: nat) -> Seq<nat> {
    linear_quotient(strip_zeros(batched(polys, eta)), gamma)
}

/// The coefficient vectors, each by its values.
pub open spec fn polys_values(polys: Seq<Vec<Scalar>>) -> Seq<Seq<nat>> {
    polys.map_values(|p: Vec<Scalar>| values(p@))
}

/// The proof bundle for the table `t` and the input `f` under the
/// challenges `beta`, `gamma` and `eta` and the preprocessed elements `pre`.
pub open spec fn proof_values(
    beta: nat,
    gamma: nat,
    eta: nat,
    pre: PreprocessedElements,
    t: Seq<nat>,
    f: Seq<nat>,
) -> PhiValues {
    let n = f.len();
    let big_n = t.len();
    let tau = pre.srs.tau();
    let m = multiplicities(t, f);
    let mw = multiplicity_weights(m, big_n);
    let aw = quotient_weights(m, t, beta);
    let f_coeff = interpolation(n, f);
    let b0 = interpolation(n, inverse_values(f, beta)).skip(1);
    let qb_coeff = quotient_coefficients(f, beta);
    PhiValues {
        com1_m: inner_product(mw, map_exponents(pre.com1_li_x@, big_n)),
        com1_f: poly_eval(f_coeff, tau),
        com1_a: inner_product(aw, map_exponents(pre.com1_li_x@, big_n)),
        com1_qa: inner_product(aw, map_exponents(pre.com1_qi@, big_n)),
        com1_b_0: poly_eval(b0, tau),
        com1_qb: poly_eval(qb_coeff, tau),
        com_p: poly_eval(zeros((big_n + 1 - n) as nat) + b0, tau),
        a0: inner_product(aw, map_constants(pre.li_x@, big_n)),
        b0_gamma: poly_eval(b0, gamma),
        q_b_gamma: poly_eval(qb_coeff, gamma),
        f_gamma: poly_eval(f_coeff, gamma),
        com1_h: poly_eval(opening_quotient(seq![b0, f_coeff, qb_coeff], gamma, eta), tau),
        com1_a0: inner_product(aw, map_exponents(pre.com1_li_0@, big_n)),
    }
}

impl Phi {
    /// The proof that every entry of the input `f` occurs in the table `t`,
    /// under the transcript's challenges.
    pub fn prover(
        transcript: &Transcript,
        pre: &PreprocessedElements,
        t: Vec<Scalar>,
        f: Vec<Scalar>,
    ) -> (r: Result<Phi, CqError>)
        requires
            pre.well_formed(),
            t.len() == pre.big_n,
            1 <= f.len() <= t.len(),
            2 * f.len() <= usize::MAX,
            is_pow2(f.len() as nat),
        ensures
            !all_in_table(values(t@), values(f@)) <==> r == Err::<Phi, CqError>(
                CqError::ValueNotInTable,
            ),
            (all_in_table(values(t@), values(f@)) && exists|j: int|
                0 <= j < f.len() && fadd(#[trigger] values(f@)[j], transcript.beta@) == 0) <==> r
                == Err::<Phi, CqError>(CqError::NotInvertible),
            (all_in_table(values(t@), values(f@)) && forall|j: int|
                0 <= j < f.len() ==> fadd(#[trigger] values(f@)[j], transcript.beta@) != 0)
                ==> r is Ok,
            r matches Ok(phi) ==> phi@ == proof_values(
                transcript.beta@,
                transcript.gamma@,
                transcript.eta@,
                *pre,
                values(t@),
                values(f@),
            ),
            r is Ok ==> forall|x: nat| #[trigger]
                quotient_identity(values(f@), transcript.beta@, x),
            pre.encodes(values(t@)) ==> (r matches Ok(phi) ==> checks(
                transcript.beta@,
                transcript.gamma@,
                transcript.eta@,
                phi@,
                *pre,
                f.len() as nat,
            ).all_hold()),
    {
        let ghost tv = values(t@);
        let ghost fv = values(f@);
        let ghost tau = pre.srs.tau();
        let ghost key1 = exponents(pre.srs.srs_g1@);
        let n = f.len();
        let big_n = t.len();
        let beta = transcript.beta;
        let gamma = transcript.gamma;
        let eta = transcript.eta;
        proof {
            assert(pre.well_formed());
            assert forall|k: u64| k < pre.big_n implies #[trigger] pre.li_x@.contains_key(k)
                && pre.li_x@[k]@.len() >= 1 by {
                assert(pre.li_x@.contains_key(k));
                assert(pre.li_x@[k].len() == pre.big_n);
            }
        }
        // first round: the multiplicities and the input polynomial
        let m = match multiplicity_map(&t, &f) {
            Ok(m) => m,
            Err(e) => {
                return Err(e);
            },
        };
        let f_coeff = ifft(n, f.as_slice());
        let com1_f = Srs::commit_g1(&pre.srs.srs_g1, f_coeff.as_slice()).unwrap();
        // second round: the quotient weights and the inverse argument
        let (mw, aw) = match weights(&m, &t, &beta) {
            Ok(w) => w,
            Err(e) => {
                proof {
                    lemma_weights_fail(tv, fv, beta@);
                }
                return Err(e);
            },
        };
        proof {
            lemma_weights_succeed(tv, fv, beta@);
        }
        let com1_m = combine(&mw, &pre.com1_li_x);
        let com1_a = combine(&aw, &pre.com1_li_x);
        let com1_qa = combine(&aw, &pre.com1_qi);
        let b_eval = inverse_evaluations(&f, &beta).unwrap();
        let b_coeff = ifft(n, b_eval.as_slice());
        let b0 = slice_to_vec(slice_subrange(b_coeff.as_slice(), 1, n));
        let com1_b_0 = Srs::commit_g1(&pre.srs.srs_g1, b0.as_slice()).unwrap();
        separate_domain(n);
        let qb_coeff = quotient_polynomial(&f_coeff, &b_coeff, &beta);
        proof {
            assert(values(f_coeff@) == interpolation(n as nat, fv));
            assert(values(b_coeff@) == inverse_polynomial(fv, beta@));
            assert forall|j: nat| j < fv.len() implies #[trigger] poly_eval(
                interpolation(fv.len(), fv),
                domain_point(fv.len(), j),
            ) == fv[j as int] by {
                assert(poly_eval(values(f_coeff@), domain_point(n as nat, j)) == f@[j as int]@);
            }
            assert forall|j: nat| j < fv.len() implies #[trigger] poly_eval(
                inverse_polynomial(fv, beta@),
                domain_point(fv.len(), j),
            ) == inverse_values(fv, beta@)[j as int] by {
                assert(poly_eval(values(b_coeff@), domain_point(n as nat, j))
                    == b_eval@[j as int]@);
                assert(values(b_eval@)[j as int] == b_eval@[j as int]@);
            }
            lemma_quotient_identity_everywhere(fv, beta@);
            assert(values(qb_coeff@) == quotient_coefficients(fv, beta@));
        }
        let com1_qb = Srs::commit_g1(&pre.srs.srs_g1, qb_coeff.as_slice()).unwrap();
        let shifted_coeffs = shift(&b0, big_n + 1 - n);
        let com_p = Srs::commit_g1(&pre.srs.srs_g1, shifted_coeffs.as_slice()).unwrap();
        // third round: the evaluations and the openings
        let b0_gamma = poly_evaluate(b0.as_slice(), &gamma);
        let f_gamma = poly_evaluate(f_coeff.as_slice(), &gamma);
        let q_b_gamma = poly_evaluate(qb_coeff.as_slice(), &gamma);
        assert(aw.len() == pre.big_n);
        let a0 = combine_constants(&aw, &pre.li_x);
        let com1_a0 = combine(&aw, &pre.com1_li_0);
        let mut polys: Vec<Vec<Scalar>> = Vec::new();
        polys.push(b0);
        polys.push(f_coeff);
        polys.push(qb_coeff);
        let ghost pv = polys_values(polys@);
        proof {
            assert(values(b0@) =~= values(b_coeff@).skip(1));
            assert(pv =~= seq![values(b0@), values(f_coeff@), values(qb_coeff@)]);
            lemma_batched_three(pv, eta@);
            lemma_strip_shorter(batched(pv, eta@));
            lemma_commit_is_evaluation(key1, tau, values(f_coeff@));
            lemma_commit_is_evaluation(key1, tau, values(b0@));
            lemma_commit_is_evaluation(key1, tau, values(qb_coeff@));
            lemma_commit_is_evaluation(key1, tau, values(shifted_coeffs@));
            lemma_commit_is_evaluation(key1, tau, opening_quotient(pv, gamma@, eta@));
        }
        let com1_h = batch_open_g1(&pre.srs.srs_g1, &polys, gamma, eta).unwrap();
        proof {
            if pre.encodes(tv) {
                lemma_completeness(beta@, gamma@, eta@, *pre, tv, fv);
            }
        }
        Ok(
            Phi {
                com1_m,
                com1_f,
                com1_a,
                com1_qa,
                com1_b_0,
                com1_qb,
                com_p,
                a0,
                b0_gamma,
                q_b_gamma,
                f_gamma,
                com1_h,
                com1_a0,
            },
        )
    }
}

/// The multiplicity map of the input against the table: for each table
/// position that stands for an entry of the input, the number of entries it
/// stands for. Of several positions with one value the last one stands for
/// the entries.
pub fn get_m(table: Vec<Scalar>, input: Vec<Scalar>) -> (r: Result<BTreeMap<usize, u64>, CqError>)
    ensures
        !all_in_table(values(table@), values(input@)) <==> r == Err::<
            BTreeMap<usize, u64>,
            CqError,
        >(CqError::ValueNotInTable),
        all_in_table(values(table@), values(input@)) ==> r is Ok,
        r matches Ok(m) ==> m@ == multiplicities(values(table@), values(input@)),
{
    multiplicity_map(&table, &input)
}

/// The commitment that opens, at `opening_challenge`, the combination of the
/// polynomials with the powers of `separation_challenge` for weights: the
/// commitment to the quotient of the combination by `x - opening_challenge`.
pub fn batch_open_g1(
    srs: &Vec<G1>,
    polys: &Vec<Vec<Scalar>>,
    opening_challenge: Scalar,
    separation_challenge: Scalar,
) -> (r: Result<G1, CqError>)
    requires
        polys.len() >= 1,
    ensures
        opening_quotient(polys_values(polys@), opening_challenge@, separation_challenge@).len()
            > srs.len() <==> r == Err::<G1, CqError>(CqError::KeyTooSmall),
        opening_quotient(polys_values(polys@), opening_challenge@, separation_challenge@).len()
            <= srs.len() ==> r is Ok,
        r matches Ok(c) ==> c@ == inner_product(
            opening_quotient(polys_values(polys@), opening_challenge@, separation_challenge@),
            exponents(srs@),
        ),
{
    let ghost pv = polys_values(polys@);
    let ghost eta = separation_challenge@;
    let mut combined = slice_to_vec(polys[0].as_slice());
    let mut weight = separation_challenge;
    proof {
        use_type_invariant(&separation_challenge);
        separation_challenge.lemma_reduced();
        use_type_invariant(&opening_challenge);
        opening_challenge.lemma_reduced();
        lemma_fpow_step(eta, 0);
        lemma_fmul_unit(eta);
        assert(pv.take(1) =~= seq![values(polys[0]@)]);
    }
    let mut k: usize = 1;
    while k < polys.len()
        invariant
            1 <= k <= polys.len(),
            pv == polys_values(polys@),
            eta == separation_challenge@,
            weight@ == fpow(eta, k as nat),
            values(combined@) == batched(pv.take(k as int), eta),
        decreases polys.len() - k,
    {
        combined = scaled_sum(&combined, &weight, &polys[k]);
        proof {
            assert(pv.take(k + 1).drop_last() =~= pv.take(k as int));
            assert(pv.take(k + 1).last() == values(polys[k as int]@));
            lemma_fpow_step(eta, k as nat);
        }
        weight = weight.mul(&separation_challenge);
        k += 1;
    }
    proof {
        assert(pv.take(k as int) =~= pv);
        lemma_fsub_twice(opening_challenge@);
        vstd::arithmetic::div_mod::lemma_small_mod(opening_challenge@, modulus());
    }
    let mut divisor: Vec<Scalar> = Vec::new();
    divisor.push(Scalar::zero().sub(&opening_challenge));
    divisor.push(Scalar::one());
    let q = poly_divide_linear(&combined, &divisor);
    Srs::commit_g1(srs, q.as_slice())
}

/// The combination of three polynomials, written out.
pub proof fn lemma_batched_three(polys: Seq<Seq<nat>>, eta: nat)
    requires
        polys.len() == 3,
    ensures
        batched(polys, eta) == add_scaled(
            add_scaled(polys[0], fpow(eta, 1), polys[1]),
            fpow(eta, 2),
            polys[2],
        ),
{
    reveal_with_fuel(batched, 3);
    assert(polys.drop_last().drop_last() =~= seq![polys[0]]);
    assert(polys.drop_last().last() == polys[1]);
}

/// Leaving out the zeros at the high end makes a sequence no longer.
pub proof fn lemma_strip_shorter(c: Seq<nat>)
    ensures
        strip_zeros(c).len() <= c.len(),
    decreases c.len(),
{
    if c.len() > 0 && c.last() == 0 {
        lemma_strip_shorter(c.drop_last());
    }
}

/// The coefficients of `acc + c * p`.
pub(crate) fn scaled_sum(acc: &Vec<Scalar>, c: &Scalar, p: &Vec<Scalar>) -> (r: Vec<Scalar>)
    ensures
        values(r@) == add_scaled(values(acc@), c@, values(p@)),
{
    let len = if acc.len() >= p.len() {
        acc.len()
    } else {
        p.len()
    };
    let mut r: Vec<Scalar> = Vec::new();
    let mut i: usize = 0;
    while i < len
        invariant
            i <= len,
            len == (if acc.len() >= p.len() {
                acc.len()
            } else {
                p.len()
            }),
            r.len() == i,
            values(r@) =~= add_scaled(values(acc@), c@, values(p@)).take(i as int),
        decreases len - i,
    {
        let a_i = if i < acc.len() {
            acc[i]
        } else {
            Scalar::zero()
        };
        let p_i = if i < p.len() {
            p[i]
        } else {
            Scalar::zero()
        };
        let ghost before = r@;
        r.push(a_i.add(&c.mul(&p_i)));
        proof {
            assert(values(r@) =~= values(before).push(r[i as int]@));
        }
        i += 1;
    }
    r
}

/// The multiplicities and the quotient weights of the table positions, as
/// scalars, or `NotInvertible` where a table value with a multiplicity is
/// the negative of `beta`.
fn weights(m: &BTreeMap<usize, u64>, t: &Vec<Scalar>, beta: &Scalar) -> (r: Result<
    (Vec<Scalar>, Vec<Scalar>),
    CqError,
>)
    ensures
        (exists|i: int|
            0 <= i < t.len() && m@.contains_key(i as usize) && fadd(
                #[trigger] values(t@)[i],
                beta@,
            ) == 0) <==> r == Err::<(Vec<Scalar>, Vec<Scalar>), CqError>(CqError::NotInvertible),
        r is Err ==> r == Err::<(Vec<Scalar>, Vec<Scalar>), CqError>(CqError::NotInvertible),
        r matches Ok(w) ==> values(w.0@) == multiplicity_weights(m@, t.len() as nat) && values(
            w.1@,
        ) == quotient_weights(m@, values(t@), beta@) && w.0.len() == t.len() && w.1.len()
            == t.len(),
        r is Ok ==> forall|i: int|
            0 <= i < t.len() && m@.contains_key(i as usize) ==> is_inverse(
                fadd(#[trigger] values(t@)[i], beta@),
                finv(fadd(values(t@)[i], beta@)),
            ),
{
    let ghost tv = values(t@);
    let mut mw: Vec<Scalar> = Vec::new();
    let mut aw: Vec<Scalar> = Vec::new();
    let mut i: usize = 0;
    while i < t.len()
        invariant
            i <= t.len(),
            tv == values(t@),
            mw.len() == i,
            aw.len() == i,
            values(mw@) =~= multiplicity_weights(m@, t.len() as nat).take(i as int),
            values(aw@) =~= quotient_weights(m@, tv, beta@).take(i as int),
            forall|x: int|
                0 <= x < i && m@.contains_key(x as usize) ==> fadd(#[trigger] tv[x], beta@) != 0,
            forall|x: int|
                0 <= x < i && m@.contains_key(x as usize) ==> is_inverse(
                    fadd(#[trigger] tv[x], beta@),
                    finv(fadd(tv[x], beta@)),
                ),
        decreases t.len() - i,
    {
        let ghost (before_m, before_a) = (mw@, aw@);
        match m.get(&i) {
            Some(count) => {
                let m_i = Scalar::from_u64(*count);
                let inv = match t[i].add(beta).inverse() {
                    Ok(inv) => inv,
                    Err(e) => {
                        proof {
                            assert(fadd(tv[i as int], beta@) == 0);
                        }
                        return Err(e);
                    },
                };
                mw.push(m_i);
                aw.push(m_i.mul(&inv));
            },
            None => {
                mw.push(Scalar::zero());
                aw.push(Scalar::zero());
            },
        }
        proof {
            assert(values(mw@) =~= values(before_m).push(mw[i as int]@));
            assert(values(aw@) =~= values(before_a).push(aw[i as int]@));
        }
        i += 1;
    }
    proof {
        assert(multiplicity_weights(m@, t.len() as nat).take(i as int) =~= multiplicity_weights(
            m@,
            t.len() as nat,
        ));
        assert(quotient_weights(m@, tv, beta@).take(i as int) =~= quotient_weights(m@, tv, beta@));
    }
    Ok((mw, aw))
}

/// A table position with a multiplicity holds an entry of the input, so a
/// failing weight means that an entry of the input is the negative of `beta`.
proof fn lemma_weights_fail(t: Seq<nat>, f: Seq<nat>, beta: nat)
    requires
        t.len() <= usize::MAX,
        exists|i: int|
            0 <= i < t.len() && multiplicities(t, f).contains_key(i as usize) && fadd(
                #[trigger] t[i],
                beta,
            ) == 0,
    ensures
        exists|j: int| 0 <= j < f.len() && fadd(#[trigger] f[j], beta) == 0,
{
    let i = choose|i: int|
        0 <= i < t.len() && multiplicities(t, f).contains_key(i as usize) && fadd(
            #[trigger] t[i],
            beta,
        ) == 0;
    lemma_counted_is_matched(t, f, i);
    let j = choose|j: int| 0 <= j < f.len() && last_index_of(t, #[trigger] f[j]) == i;
    lemma_last_index_of(t, f[j]);
    assert(fadd(f[j], beta) == 0);
}

/// Every entry of the input is held by a table position with a
/// multiplicity, so where the weights succeed no entry of the input is the
/// negative of `beta`.
proof fn lemma_weights_succeed(t: Seq<nat>, f: Seq<nat>, beta: nat)
    requires
        all_in_table(t, f),
        t.len() <= usize::MAX,
        !(exists|i: int|
            0 <= i < t.len() && multiplicities(t, f).contains_key(i as usize) && fadd(
                #[trigger] t[i],
                beta,
            ) == 0),
    ensures
        forall|j: int| 0 <= j < f.len() ==> fadd(#[trigger] f[j], beta) != 0,
{
    assert forall|j: int| 0 <= j < f.len() implies fadd(#[trigger] f[j], beta) != 0 by {
        let i = last_index_of(t, f[j]);
        lemma_last_index_of(t, f[j]);
        lemma_matched_is_counted(t, f, j);
        assert(multiplicities(t, f).contains_key(i as usize));
        assert(t[i] == f[j]);
    }
}

/// The position that stands for an entry of the input counts it.
proof fn lemma_matched_is_counted(t: Seq<nat>, f: Seq<nat>, j: int)
    requires
        0 <= j < f.len(),
    ensures
        count_matches(t, f, last_index_of(t, f[j])) > 0,
    decreases f.len(),
{
    if j < f.len() - 1 {
        lemma_matched_is_counted(t, f.drop_last(), j);
    }
}

/// The sum of the elements that the map holds for the positions below the
/// number of weights, each multiplied by the weight at its position.
fn combine(weights: &Vec<Scalar>, points: &BTreeMap<u64, G1>) -> (r: G1)
    requires
        forall|i: u64| i < weights.len() ==> #[trigger] points@.contains_key(i),
    ensures
        r@ == inner_product(values(weights@), map_exponents(points@, weights.len() as nat)),
{
    let ghost w = values(weights@);
    let ghost e = map_exponents(points@, weights.len() as nat);
    let mut acc = G1::zero();
    let mut i: usize = 0;
    while i < weights.len()
        invariant
            i <= weights.len(),
            w == values(weights@),
            e == map_exponents(points@, weights.len() as nat),
            forall|i: u64| i < weights.len() ==> #[trigger] points@.contains_key(i),
            acc@ < modulus(),
            acc@ == inner_product(w.take(i as int), e),
        decreases weights.len() - i,
    {
        proof {
            assert(w.take(i + 1).drop_last() =~= w.take(i as int));
            assert(w.take(i + 1).last() == weights[i as int]@);
            assert(points@.contains_key(i as u64));
            lemma_fmul_unit(e[i as int]);
            lemma_fadd_zero(acc@);
            lemma_fmul_assoc(weights[i as int]@, e[i as int], 1);
        }
        if !weights[i].is_zero() {
            let p = points.get(&(i as u64)).unwrap();
            let term = p.mul(&weights[i]);
            proof {
                lemma_results_reduced(acc@, term@);
            }
            acc = acc.add(&term);
        }
        i += 1;
    }
    proof {
        assert(w.take(i as int) =~= w);
    }
    acc
}

/// The sum of the constant coefficients that the map holds for the positions
/// below the number of weights, each multiplied by the weight at its
/// position.
fn combine_constants(weights: &Vec<Scalar>, polys: &BTreeMap<u64, Vec<Scalar>>) -> (r: Scalar)
    requires
        forall|k: u64|
            k < weights.len() ==> #[trigger] polys@.contains_key(k) && polys@[k]@.len() >= 1,
    ensures
        r@ == inner_product(values(weights@), map_constants(polys@, weights.len() as nat)),
{
    let ghost w = values(weights@);
    let ghost e = map_constants(polys@, weights.len() as nat);
    let mut acc = Scalar::zero();
    let mut i: usize = 0;
    while i < weights.len()
        invariant
            i <= weights.len(),
            w == values(weights@),
            e == map_constants(polys@, weights.len() as nat),
            forall|k: u64|
                k < weights.len() ==> #[trigger] polys@.contains_key(k) && polys@[k]@.len() >= 1,
            acc@ == inner_product(w.take(i as int), e),
        decreases weights.len() - i,
    {
        proof {
            assert(w.take(i + 1).drop_last() =~= w.take(i as int));
            assert(w.take(i + 1).last() == weights[i as int]@);
            assert(polys@.contains_key(i as u64));
        }
        let p = polys.get(&(i as u64)).unwrap();
        acc = acc.add(&weights[i].mul(&p[0]));
        i += 1;
    }
    proof {
        assert(w.take(i as int) =~= w);
    }
    acc
}

/// The inverses of the input's entries plus `beta`, or `NotInvertible` where
/// an entry is the negative of `beta`.
fn inverse_evaluations(f: &Vec<Scalar>, beta: &Scalar) -> (r: Result<Vec<Scalar>, CqError>)
    ensures
        (exists|j: int| 0 <= j < f.len() && fadd(#[trigger] values(f@)[j], beta@) == 0) <==> r
            == Err::<Vec<Scalar>, CqError>(CqError::NotInvertible),
        (forall|j: int| 0 <= j < f.len() ==> fadd(#[trigger] values(f@)[j], beta@) != 0) ==> r
            is Ok,
        r matches Ok(b) ==> values(b@) == inverse_values(values(f@), beta@) && b.len() == f.len(),
        r is Ok ==> forall|j: int|
            0 <= j < f.len() ==> is_inverse(
                fadd(#[trigger] values(f@)[j], beta@),
                finv(fadd(values(f@)[j], beta@)),
            ),
{
    let ghost fv = values(f@);
    let mut b: Vec<Scalar> = Vec::new();
    let mut j: usize = 0;
    while j < f.len()
        invariant
            j <= f.len(),
            fv == values(f@),
            b.len() == j,
            values(b@) =~= inverse_values(fv, beta@).take(j as int),
            forall|x: int| 0 <= x < j ==> fadd(#[trigger] fv[x], beta@) != 0,
            forall|x: int|
                0 <= x < j ==> is_inverse(
                    fadd(#[trigger] fv[x], beta@),
                    finv(fadd(fv[x], beta@)),
                ),
        decreases f.len() - j,
    {
        let inv = match f[j].add(beta).inverse() {
            Ok(inv) => inv,
            Err(e) => {
                proof {
                    assert(fadd(fv[j as int], beta@) == 0);
                }
                return Err(e);
            },
        };
        let ghost before = b@;
        b.push(inv);
        proof {
            assert(values(b@) =~= values(before).push(inv@));
        }
        j += 1;
    }
    proof {
        assert(inverse_values(fv, beta@).take(j as int) =~= inverse_values(fv, beta@));
    }
    Ok(b)
}

/// `k` zero coefficients, and then the coefficients `c`.
pub(crate) fn shift(c: &Vec<Scalar>, k: usize) -> (r: Vec<Scalar>)
    requires
        c.len() + k <= usize::MAX,
    ensures
        r.len() == c.len() + k,
        values(r@) == zeros(k as nat) + values(c@),
{
    let mut r: Vec<Scalar> = Vec::new();
    let mut i: usize = 0;
    while i < k
        invariant
            i <= k,
            r.len() == i,
            values(r@) =~= zeros(i as nat),
        decreases k - i,
    {
        let ghost before = r@;
        r.push(Scalar::zero());
        proof {
            assert(values(r@) =~= values(before).push(0));
        }
        i += 1;
    }
    let mut j: usize = 0;
    while j < c.len()
        invariant
            j <= c.len(),
            c.len() + k <= usize::MAX,
            r.len() == k + j,
            values(r@) =~= zeros(k as nat) + values(c@).take(j as int),
        decreases c.len() - j,
    {
        let ghost before = r@;
        r.push(c[j]);
        proof {
            assert(values(r@) =~= values(before).push(c[j as int]@));
        }
        j += 1;
    }
    proof {
        assert(values(c@).take(j as int) =~= values(c@));
    }
    r
}

} // verus!
