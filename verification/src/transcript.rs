use crate::field::{modulus, sample_scalars, Scalar};
use vstd::prelude::*;

verus! {

/// The three challenges of one proof session, which the prover and the
/// verifier share.
#[derive(Debug, Clone, Copy, PartialEq, Eq)]
pub struct Transcript {
    pub beta: Scalar,
    pub gamma: Scalar,
    pub eta: Scalar,
}

impl Transcript {
    /// The transcript with the given challenges.
    pub fn from_challenges(beta: Scalar, gamma: Scalar, eta: Scalar) -> (r: Transcript)
        ensures
            r.beta == beta,
            r.gamma == gamma,
            r.eta == eta,
    {
        Transcript { beta, gamma, eta }
    }

    /// The transcript whose challenges are the three scalars drawn, in the
    /// order in which they were drawn.
    pub fn from_drawn(drawn: &Vec<Scalar>) -> (r: Transcript)
        requires
            drawn.len() == 3,
        ensures
            r.beta == drawn[0],
            r.gamma == drawn[1],
            r.eta == drawn[2],
    {
        Transcript::from_challenges(drawn[0], drawn[1], drawn[2])
    }

    /// A transcript whose three challenges are drawn here, one after the
    /// other, from one generator. Each is a reduced scalar; nothing more
    /// holds of every draw.
    pub fn initiate() -> (r: Transcript)
        ensures
            r.beta@ < modulus(),
            r.gamma@ < modulus(),
            r.eta@ < modulus(),
    {
        let drawn = sample_scalars(3);
        let (beta, gamma, eta) = (drawn[0], drawn[1], drawn[2]);
        proof {
            use_type_invariant(&beta);
            use_type_invariant(&gamma);
            use_type_invariant(&eta);
            beta.lemma_reduced();
            gamma.lemma_reduced();
            eta.lemma_reduced();
        }
        Transcript::from_drawn(&drawn)
    }
}

} // verus!
