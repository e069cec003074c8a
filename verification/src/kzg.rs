use crate::error::CqError;
use crate::field::{
    fadd, fpow, lemma_fmul_unit, lemma_fpow_step, sample_scalars, values, Scalar,
};
use crate::group::{exponents, exponents2, G1, G2};
use crate::poly::{
    inner_product, lemma_inner_product_additive, lemma_inner_product_powers,
    lemma_inner_product_prefix, lemma_powers_reduce, poly_eval, powers,
};
use vstd::prelude::*;
use vstd::slice::slice_subrange;

verus! {

/// The commitment key: the powers of a secret scalar, the trapdoor, in both
/// source groups. The second group holds one power more.
#[derive(Debug, Clone, PartialEq, Eq)]
pub struct Srs {
    pub srs_g1: Vec<G1>,
    pub srs_g2: Vec<G2>,
}

impl Srs {
    /// The key holds the powers of `tau`: `srs_g1[i]` and `srs_g2[i]` are the
    /// generators multiplied by `tau^i`.
    pub open spec fn has_trapdoor(&self, tau: nat) -> bool {
        &&& self.srs_g2.len() == self.srs_g1.len() + 1
        &&& exponents(self.srs_g1@) =~= powers(tau, self.srs_g1@.len())
        &&& exponents2(self.srs_g2@) =~= powers(tau, self.srs_g2@.len())
    }

    /// The trapdoor of a key that has one, read off the second power.
    pub open spec fn tau(&self) -> nat {
        self.srs_g2@[1]@
    }

    /// The key holds the powers of some trapdoor.
    pub open spec fn well_formed(&self) -> bool {
        self.has_trapdoor(self.tau())
    }

    /// A key with a trapdoor is well formed, and `tau()` is the trapdoor,
    /// reduced.
    pub proof fn lemma_trapdoor(&self, tau: nat)
        requires
            self.has_trapdoor(tau),
        ensures
            self.well_formed(),
            self.srs_g1.len() >= 1 ==> self.tau() == fpow(tau, 1),
    {
        let n2 = self.srs_g2@.len();
        if self.srs_g1.len() >= 1 {
            assert(exponents2(self.srs_g2@)[1] == powers(tau, n2)[1]);
            lemma_fpow_step(tau, 0);
            lemma_fmul_unit(tau);
            lemma_powers_reduce(tau, n2);
            lemma_powers_reduce(tau, self.srs_g1@.len());
        } else {
            lemma_fpow_step(tau, 0);
            lemma_fpow_step(self.tau(), 0);
            assert(powers(self.tau(), n2) =~= powers(tau, n2));
            assert(powers(self.tau(), 0) =~= powers(tau, 0));
        }
    }

    /// The key of `big_n` powers in the first group and `big_n + 1` in the
    /// second, for the trapdoor `tau`.
    pub fn from_trapdoor(big_n: usize, tau: &Scalar) -> (srs: Srs)
        requires
            big_n < usize::MAX,
        ensures
            srs.has_trapdoor(tau@),
            srs.well_formed(),
            srs.srs_g1.len() == big_n,
    {
        let mut srs_g1: Vec<G1> = Vec::new();
        let mut srs_g2: Vec<G2> = Vec::new();
        let g1 = G1::generator();
        let g2 = G2::generator();
        let mut buf = Scalar::one();
        proof {
            lemma_fpow_step(tau@, 0);
        }
        let mut i: usize = 0;
        while i < big_n
            invariant
                i <= big_n,
                g1@ == 1,
                g2@ == 1,
                buf@ == fpow(tau@, i as nat),
                srs_g1.len() == i,
                srs_g2.len() == i,
                exponents(srs_g1@) =~= powers(tau@, i as nat),
                exponents2(srs_g2@) =~= powers(tau@, i as nat),
            decreases big_n - i,
        {
            proof {
                lemma_fpow_step(tau@, i as nat);
                lemma_fmul_unit(buf@);
            }
            let ghost (old_g1, old_g2) = (srs_g1@, srs_g2@);
            srs_g1.push(g1.mul(&buf));
            srs_g2.push(g2.mul(&buf));
            proof {
                assert(exponents(srs_g1@) =~= exponents(old_g1).push(buf@));
                assert(exponents2(srs_g2@) =~= exponents2(old_g2).push(buf@));
                assert(powers(tau@, (i + 1) as nat) =~= powers(tau@, i as nat).push(buf@));
            }
            buf = buf.mul(tau);
            i += 1;
        }
        proof {
            lemma_fpow_step(tau@, i as nat);
            lemma_fmul_unit(buf@);
        }
        let ghost old_g2 = srs_g2@;
        srs_g2.push(g2.mul(&buf));
        proof {
            assert(exponents2(srs_g2@) =~= exponents2(old_g2).push(buf@));
            assert(powers(tau@, (i + 1) as nat) =~= powers(tau@, i as nat).push(buf@));
        }
        let srs = Srs { srs_g1, srs_g2 };
        proof {
            srs.lemma_trapdoor(tau@);
        }
        srs
    }

    /// A key of `big_n` powers in the first group and `big_n + 1` in the
    /// second, for a trapdoor that is drawn here and dropped.
    pub fn setup(big_n: usize) -> (srs: Srs)
        requires
            big_n < usize::MAX,
        ensures
            srs.well_formed(),
            srs.srs_g1.len() == big_n,
    {
        let drawn = sample_scalars(1);
        Srs::from_trapdoor(big_n, &drawn[0])
    }

    /// The commitment to the polynomial with the coefficients `poly_coeff`
    /// under the key `srs_g1`: the sum of the key's elements, each multiplied
    /// by the coefficient at its index.
    pub fn commit_g1(srs_g1: &Vec<G1>, poly_coeff: &[Scalar]) -> (r: Result<G1, CqError>)
        ensures
            poly_coeff@.len() > srs_g1.len() <==> r == Err::<G1, CqError>(CqError::KeyTooSmall),
            poly_coeff@.len() <= srs_g1.len() ==> r is Ok,
            r matches Ok(c) ==> c@ == inner_product(values(poly_coeff@), exponents(srs_g1@)),
    {
        if poly_coeff.len() > srs_g1.len() {
            return Err(CqError::KeyTooSmall);
        }
        let bases = slice_subrange(srs_g1.as_slice(), 0, poly_coeff.len());
        let c = G1::msm(bases, poly_coeff);
        proof {
            lemma_inner_product_prefix(
                values(poly_coeff@),
                exponents(bases@),
                exponents(srs_g1@),
            );
        }
        Ok(c)
    }

    /// As `commit_g1`, in the second source group.
    pub fn commit_g2(srs_g2: &Vec<G2>, poly_coeff: &[Scalar]) -> (r: Result<G2, CqError>)
        ensures
            poly_coeff@.len() > srs_g2.len() <==> r == Err::<G2, CqError>(CqError::KeyTooSmall),
            poly_coeff@.len() <= srs_g2.len() ==> r is Ok,
            r matches Ok(c) ==> c@ == inner_product(values(poly_coeff@), exponents2(srs_g2@)),
    {
        if poly_coeff.len() > srs_g2.len() {
            return Err(CqError::KeyTooSmall);
        }
        let bases = slice_subrange(srs_g2.as_slice(), 0, poly_coeff.len());
        let c = G2::msm(bases, poly_coeff);
        proof {
            lemma_inner_product_prefix(
                values(poly_coeff@),
                exponents2(bases@),
                exponents2(srs_g2@),
            );
        }
        Ok(c)
    }
}

/// What a commitment under a well-formed key is: the polynomial's value at
/// the trapdoor, as a multiple of the generator.
pub proof fn lemma_commit_is_evaluation(key: Seq<nat>, tau: nat, coeffs: Seq<nat>)
    requires
        coeffs.len() <= key.len(),
        key =~= powers(tau, key.len()),
    ensures
        inner_product(coeffs, key) == poly_eval(coeffs, tau),
{
    lemma_inner_product_powers(coeffs, tau, key.len());
}

/// Commitments are additive: the commitment to the sum of two polynomials
/// with as many coefficients each is the sum of their commitments, under any
/// key.
pub proof fn lemma_commit_additive(key: Seq<nat>, a: Seq<nat>, b: Seq<nat>)
    requires
        a.len() == b.len(),
    ensures
        fadd(inner_product(a, key), inner_product(b, key)) == inner_product(
            Seq::new(a.len(), |i: int| fadd(a[i], b[i])),
            key,
        ),
{
    lemma_inner_product_additive(a, b, key);
}

/// Commitments to constants add up: for all scalars `a` and `b`, the
/// commitment to `[a]` plus the commitment to `[b]` is the commitment to
/// `[a + b]`.
pub proof fn lemma_commit_linear(key: Seq<nat>, a: nat, b: nat)
    ensures
        fadd(inner_product(seq![a], key), inner_product(seq![b], key)) == inner_product(
            seq![fadd(a, b)],
            key,
        ),
{
    lemma_inner_product_additive(seq![a], seq![b], key);
    assert(Seq::new(1, |i: int| fadd(seq![a][i], seq![b][i])) =~= seq![fadd(a, b)]);
}

} // verus!
