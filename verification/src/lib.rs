pub mod completeness;
pub mod error;
pub mod field;
pub mod group;
pub mod identities;
pub mod kzg;
pub mod membership;
pub mod multiplicity;
pub mod poly;
pub mod preprocess;
pub mod prover;
pub mod quotient;
pub mod ring;
pub mod toeplitz;
pub mod transcript;
pub mod verify;

use crate::error::CqError;
use crate::field::{
    fadd, fmul, fpow, lemma_fmul_unit, lemma_results_reduced, scalars_from, values, Scalar,
};
use crate::group::exponents2;
use crate::identities::lemma_eval_shift;
use crate::kzg::Srs;
use crate::multiplicity::{all_in_table, lemma_last_index_of};
use crate::poly::{interpolation, is_pow2, poly_eval, powers};
use crate::preprocess::PreprocessedElements;
use crate::prover::{inverse_values, proof_values, zeros, Phi};
use crate::transcript::Transcript;
use crate::verify::checks;
use vstd::prelude::*;

verus! {

/// The table of the two demonstrations: the numbers one to eight.
fn demo_table() -> (r: Vec<Scalar>)
    ensures
        r.len() == 8,
        forall|i: int| 0 <= i < 8 ==> (#[trigger] r[i])@ == i + 1,
{
    let mut numbers: Vec<u64> = Vec::new();
    let mut i: u64 = 1;
    while i <= 8
        invariant
            1 <= i <= 9,
            numbers.len() == i - 1,
            forall|j: int| 0 <= j < numbers.len() ==> #[trigger] numbers[j] == j + 1,
        decreases 9 - i,
    {
        numbers.push(i);
        i += 1;
    }
    scalars_from(&numbers)
}

/// Every entry of a sequence occurs in the sequence.
proof fn lemma_table_holds_itself(t: Seq<nat>)
    ensures
        all_in_table(t, t),
{
    assert forall|j: int| 0 <= j < t.len() implies crate::multiplicity::last_index_of(
        t,
        #[trigger] t[j],
    ) >= 0 by {
        lemma_last_index_of(t, t[j]);
    }
}

/// The values of the table of the two demonstrations.
pub open spec fn demo_values() -> Seq<nat> {
    Seq::new(8, |i: int| (i + 1) as nat)
}

/// `beta` is the negative of one of the values, so that the value plus
/// `beta` has no inverse.
pub open spec fn cancelled(entries: Seq<nat>, beta: nat) -> bool {
    exists|j: int| 0 <= j < entries.len() && fadd(#[trigger] entries[j], beta) == 0
}

/// Whether a proof for the whole demonstration table as input passes the
/// degree bound where the verifier is told of four entries: the commitment
/// to `B0`, at the trapdoor `tau`, times the fifth power of `tau` is that
/// commitment times `tau`.
pub open spec fn short_input_accepted(tau: nat, beta: nat) -> bool {
    let b0 = poly_eval(interpolation(8, inverse_values(demo_values(), beta)).skip(1), tau);
    fmul(b0, fpow(tau, 5)) == fmul(fpow(tau, 1), b0)
}

/// Runs the protocol on the table of the numbers one to eight with the
/// table itself for input, under the given key and challenges, and returns
/// the verifier's verdict, which is to accept. The prover fails where the
/// first challenge is the negative of a table value, and only there.
pub fn cq_with(srs: Srs, transcript: &Transcript) -> (r: Result<bool, CqError>)
    requires
        srs.well_formed(),
        srs.srs_g1.len() == 8,
    ensures
        cancelled(demo_values(), transcript.beta@) <==> r == Err::<bool, CqError>(
            CqError::NotInvertible,
        ),
        !cancelled(demo_values(), transcript.beta@) <==> r == Ok::<bool, CqError>(true),
{
    let tf = demo_table();
    let ff = demo_table();
    let f_seen = demo_table();
    proof {
        reveal_with_fuel(is_pow2, 5);
        assert(values(tf@) =~= demo_values());
        assert(values(ff@) =~= demo_values());
        lemma_table_holds_itself(demo_values());
    }
    let pre = PreprocessedElements::from_srs(srs, 8, &tf);
    match Phi::prover(transcript, &pre, tf, ff) {
        Ok(phi) => Ok(crate::verify::verify(transcript, phi, &pre, f_seen)),
        Err(e) => Err(e),
    }
}

/// Runs the protocol as `cq_with` does, but shows the verifier another input
/// than the one that was proved, of four entries, and returns the verdict.
/// Of the four checks only the degree bound reads the number of entries, so
/// the verdict is whether the proof passes the degree bound for four
/// entries.
pub fn cqfalse_with(srs: Srs, transcript: &Transcript) -> (r: Result<bool, CqError>)
    requires
        srs.well_formed(),
        srs.srs_g1.len() == 8,
    ensures
        cancelled(demo_values(), transcript.beta@) <==> r == Err::<bool, CqError>(
            CqError::NotInvertible,
        ),
        !cancelled(demo_values(), transcript.beta@) ==> r == Ok::<bool, CqError>(
            short_input_accepted(srs.tau(), transcript.beta@),
        ),
{
    let tf = demo_table();
    let ff = demo_table();
    let mut other: Vec<u64> = Vec::new();
    other.push(1);
    other.push(2);
    other.push(3);
    other.push(1);
    let ff_false = scalars_from(&other);
    let ghost tau = srs.tau();
    let ghost key2 = exponents2(srs.srs_g2@);
    proof {
        reveal_with_fuel(is_pow2, 5);
        assert(values(tf@) =~= demo_values());
        assert(values(ff@) =~= demo_values());
        lemma_table_holds_itself(demo_values());
        assert(key2[5] == powers(tau, 9)[5]);
    }
    let pre = PreprocessedElements::from_srs(srs, 8, &tf);
    match Phi::prover(transcript, &pre, tf, ff) {
        Ok(phi) => {
            let accept = crate::verify::verify(transcript, phi, &pre, ff_false);
            proof {
                let (beta, gamma, eta) = (transcript.beta@, transcript.gamma@, transcript.eta@);
                let whole = checks(beta, gamma, eta, phi@, pre, 8);
                let short = checks(beta, gamma, eta, phi@, pre, 4);
                assert(whole.all_hold());
                assert(short.membership == whole.membership);
                assert(short.batched_opening == whole.batched_opening);
                assert(short.zero_opening == whole.zero_opening);
                // the degree bound for four entries
                let b0 = interpolation(8, inverse_values(demo_values(), beta)).skip(1);
                assert(phi@ == proof_values(beta, gamma, eta, pre, demo_values(), demo_values()));
                assert(phi@.com1_b_0 == poly_eval(b0, tau));
                assert(phi@.com_p == poly_eval(zeros(1) + b0, tau));
                lemma_eval_shift(1, b0, tau);
                lemma_results_reduced(fpow(tau, 1), poly_eval(b0, tau));
                lemma_fmul_unit(phi@.com_p);
                assert(pre.srs.srs_g2@[5]@ == fpow(tau, 5));
                assert(short.degree_bound == short_input_accepted(tau, beta));
            }
            Ok(accept)
        },
        Err(e) => Err(e),
    }
}

/// Runs the protocol on the table of the numbers one to eight with the
/// table itself for input, under a key and challenges that are drawn here,
/// and returns the verifier's verdict, which is to accept. The prover fails
/// only where the first challenge is the negative of a table value.
pub fn cq() -> (r: Result<bool, CqError>)
    ensures
        r == Ok::<bool, CqError>(true) || r == Err::<bool, CqError>(CqError::NotInvertible),
{
    let srs = Srs::setup(8);
    let transcript = Transcript::initiate();
    cq_with(srs, &transcript)
}

/// Runs the protocol as `cq` does, but shows the verifier another input than
/// the one that was proved, of four entries, and returns the verdict.
pub fn cqfalse() -> (r: Result<bool, CqError>)
    ensures
        r is Err ==> r == Err::<bool, CqError>(CqError::NotInvertible),
{
    let srs = Srs::setup(8);
    let transcript = Transcript::initiate();
    cqfalse_with(srs, &transcript)
}

} // verus!
