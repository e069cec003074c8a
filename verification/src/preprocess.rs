use crate::field::{
    fadd, finv, fmul, fpow, fsub, is_inverse, lemma_fmul_assoc, lemma_fmul_unit, lemma_fpow_step,
    modulus, values, Scalar,
};
use crate::group::{exponents, exponents2, fft_g1, ifft_g1, G1, G2};
use crate::quotient::{
    lemma_domain_points_apart, lemma_eval_product, lemma_product_len, lemma_product_reduced,
    poly_product, separate_domain,
};
use crate::prover::coefficient;
use crate::toeplitz::{lemma_agree_on_roots, lemma_product_upper};
use crate::kzg::{lemma_commit_is_evaluation, Srs};
use crate::poly::{
    domain_element, domain_ok, domain_point, evaluations, fft, ifft, inner_product, interpolation,
    lemma_vanishing_prefix, poly_eval, powers, root_of_unity, vanishing,
};
use std::collections::BTreeMap;
use vstd::arithmetic::div_mod::lemma_mod_multiples_vanish;
use vstd::prelude::*;
use vstd::slice::{slice_subrange, slice_to_vec};

verus! {

/// The values of the `i`-th Lagrange basis polynomial at the `n` points of
/// the domain: one at the `i`-th point, zero at the others.
pub open spec fn one_hot(n: nat, i: nat) -> Seq<nat> {
    Seq::new(
        n,
        |j: int|
            if j == i {
                1nat
            } else {
                0nat
            },
    )
}

/// The coefficients of the `i`-th Lagrange basis polynomial of the domain of
/// `n` points.
pub open spec fn lagrange(n: nat, i: nat) -> Seq<nat> {
    interpolation(n, one_hot(n, i))
}

/// The commitments, as multiples of the generator, to the polynomials that
/// the coefficients from the index `k + 1` on make, for each `k` below the
/// number of coefficients: the product of the upper-triangular Toeplitz
/// matrix of the coefficients with the key's powers.
pub open spec fn shifted_commitments(coeffs: Seq<nat>, tau: nat) -> Seq<nat> {
    Seq::new(coeffs.len(), |k: int| poly_eval(coeffs.skip(k + 1), tau))
}

/// The cached quotient commitment for the table position `i`, as a multiple
/// of the generator: the `i`-th value of the transform of the shifted
/// commitments, scaled by the `i`-th domain point over `n`.
pub open spec fn cached_quotient(n: nat, table: Seq<nat>, tau: nat, i: nat) -> nat {
    fmul(
        poly_eval(shifted_commitments(interpolation(n, table), tau), domain_point(n, i)),
        fmul(domain_point(n, i), finv(n)),
    )
}

/// The `k`-th coefficient of the `i`-th Lagrange polynomial of the domain of
/// `n` points, as the inverse transform computes it.
pub open spec fn lagrange_coefficient(n: nat, i: nat, k: nat) -> nat {
    fmul(finv(n), fpow(fpow(finv(root_of_unity(n)), k), i))
}

/// What preprocessing finds of the domain of `n` points: the `n`-th power of
/// its generator is one, and each Lagrange polynomial has `n` coefficients,
/// those that the inverse transform computes, and is one at its own point of
/// the domain and zero at the others.
pub open spec fn domain_facts(n: nat) -> bool {
    &&& fpow(root_of_unity(n), n) == 1
    &&& forall|i: nat| i < n ==> (#[trigger] lagrange(n, i)).len() == n
    &&& forall|i: nat, k: nat|
        i < n && k < n ==> #[trigger] lagrange(n, i)[k as int] == lagrange_coefficient(n, i, k)
    &&& forall|i: nat, j: nat|
        i < n && j < n ==> #[trigger] poly_eval(lagrange(n, i), domain_point(n, j)) == (if i == j {
            1nat
        } else {
            0nat
        })
}

/// What preprocessing finds of the table polynomial: it has `n`
/// coefficients, and at each point of the domain the table's value.
pub open spec fn table_facts(n: nat, table: Seq<nat>) -> bool {
    &&& interpolation(n, table).len() == n
    &&& forall|i: nat|
        i < n ==> #[trigger] poly_eval(interpolation(n, table), domain_point(n, i))
            == table[i as int]
}

/// All that depends on the table alone, made once and used by every proof
/// for the table.
#[derive(Debug, Clone, PartialEq, Eq)]
pub struct PreprocessedElements {
    pub srs: Srs,
    pub big_n: usize,
    pub com2_vanishingpoly_big_n: G2,
    pub com2_t_x: G2,
    pub li_x: BTreeMap<u64, Vec<Scalar>>,
    pub com1_li_x: BTreeMap<u64, G1>,
    pub com1_li_0: BTreeMap<u64, G1>,
    pub com1_qi: BTreeMap<u64, G1>,
}

impl PreprocessedElements {
    /// The parts fit together: the key is well formed and has `big_n` powers
    /// in the first group, `big_n` is the size of a domain, and each map
    /// holds an entry for each table position and for nothing else, the
    /// Lagrange coefficients `big_n` of them.
    pub open spec fn well_formed(&self) -> bool {
        &&& domain_ok(self.big_n as nat)
        &&& self.srs.well_formed()
        &&& self.srs.srs_g1.len() == self.big_n
        &&& forall|i: u64|
            i < self.big_n ==> #[trigger] self.li_x@.contains_key(i) && self.li_x@[i].len()
                == self.big_n
        &&& forall|i: u64| i < self.big_n ==> #[trigger] self.com1_li_x@.contains_key(i)
        &&& forall|i: u64| i < self.big_n ==> #[trigger] self.com1_li_0@.contains_key(i)
        &&& forall|i: u64| i < self.big_n ==> #[trigger] self.com1_qi@.contains_key(i)
        &&& forall|i: u64| #[trigger] self.li_x@.contains_key(i) ==> i < self.big_n
        &&& forall|i: u64| #[trigger] self.com1_li_x@.contains_key(i) ==> i < self.big_n
        &&& forall|i: u64| #[trigger] self.com1_li_0@.contains_key(i) ==> i < self.big_n
        &&& forall|i: u64| #[trigger] self.com1_qi@.contains_key(i) ==> i < self.big_n
    }

    /// The parts are those of the table with the values `table`, under the
    /// key's trapdoor.
    pub open spec fn encodes(&self, table: Seq<nat>) -> bool {
        let n = self.big_n as nat;
        let tau = self.srs.tau();
        &&& self.well_formed()
        &&& table.len() == n
        &&& domain_facts(n)
        &&& table_facts(n, table)
        &&& self.com2_vanishingpoly_big_n@ == fsub(fpow(tau, n), 1)
        &&& self.com2_vanishingpoly_big_n@ == inner_product(
            vanishing(n),
            exponents2(self.srs.srs_g2@),
        )
        &&& self.com2_t_x@ == poly_eval(interpolation(n, table), tau)
        &&& forall|i: u64|
            i < n ==> #[trigger] self.li_x@.contains_key(i) && values(self.li_x@[i]@) == lagrange(
                n,
                i as nat,
            ) && poly_eval(lagrange(n, i as nat), domain_point(n, i as nat)) == 1
        &&& forall|i: u64|
            i < n ==> #[trigger] self.com1_li_x@.contains_key(i) && self.com1_li_x@[i]@
                == poly_eval(lagrange(n, i as nat), tau)
        &&& forall|i: u64|
            i < n ==> #[trigger] self.com1_li_0@.contains_key(i) && self.com1_li_0@[i]@
                == poly_eval(lagrange(n, i as nat).skip(1), tau)
        &&& forall|i: u64|
            i < n ==> #[trigger] self.com1_qi@.contains_key(i) && self.com1_qi@[i]@
                == cached_quotient(n, table, tau, i as nat)
    }

    /// The preprocessed elements of the table `t` of `big_n` values, under a
    /// key that is made here.
    pub fn gen(big_n: usize, t: Vec<Scalar>) -> (pre: PreprocessedElements)
        requires
            domain_ok(big_n as nat),
            2 * big_n <= usize::MAX,
            domain_ok((2 * big_n) as nat),
            t.len() == big_n,
        ensures
            pre.encodes(values(t@)),
            pre.big_n == big_n,
    {
        let srs = Srs::setup(big_n);
        PreprocessedElements::from_srs(srs, big_n, &t)
    }

    /// The preprocessed elements of the table `t` of `big_n` values, under
    /// the key `srs`.
    pub fn from_srs(srs: Srs, big_n: usize, t: &Vec<Scalar>) -> (pre: PreprocessedElements)
        requires
            domain_ok(big_n as nat),
            2 * big_n <= usize::MAX,
            domain_ok((2 * big_n) as nat),
            t.len() == big_n,
            srs.well_formed(),
            srs.srs_g1.len() == big_n,
        ensures
            pre.encodes(values(t@)),
            pre.big_n == big_n,
            pre.srs == srs,
    {
        let ghost n = big_n as nat;
        let ghost tau = srs.tau();
        let ghost key1 = exponents(srs.srs_g1@);
        let ghost key2 = exponents2(srs.srs_g2@);
        // the vanishing polynomial x^N - 1: its commitment is the last power
        // less the generator
        let g2 = G2::generator();
        let com2_vanishingpoly_big_n = srs.srs_g2[big_n].sub(&g2);
        proof {
            lemma_fpow_step(tau, 0);
            assert(key2[big_n as int] == fpow(tau, n));
            assert(key2[0] == 1);
            lemma_vanishing_commitment(n, key2);
        }
        // the domain: the generator's power N is one
        let _ = domain_element(big_n, big_n);
        assert(fpow(root_of_unity(n), n) == 1);
        // the table polynomial
        let t_coeff = ifft(big_n, t.as_slice());
        proof {
            assert(values(t_coeff@).len() == n);
            assert forall|i: nat| i < n implies #[trigger] poly_eval(
                interpolation(n, values(t@)),
                domain_point(n, i),
            ) == values(t@)[i as int] by {}
            assert(table_facts(n, values(t@)));
        }
        let com2_t_x = Srs::commit_g2(&srs.srs_g2, t_coeff.as_slice()).unwrap();
        proof {
            lemma_commit_is_evaluation(key2, tau, values(t_coeff@));
        }
        // the Lagrange basis
        let mut li_x: BTreeMap<u64, Vec<Scalar>> = BTreeMap::new();
        let mut com1_li_x: BTreeMap<u64, G1> = BTreeMap::new();
        let mut com1_li_0: BTreeMap<u64, G1> = BTreeMap::new();
        let mut i: usize = 0;
        while i < big_n
            invariant
                i <= big_n,
                n == big_n,
                domain_ok(n),
                srs.well_formed(),
                srs.srs_g1.len() == big_n,
                tau == srs.tau(),
                key1 == exponents(srs.srs_g1@),
                forall|j: u64|
                    j < i ==> #[trigger] li_x@.contains_key(j) && li_x@[j].len() == big_n
                        && values(li_x@[j]@) == lagrange(n, j as nat) && poly_eval(
                        lagrange(n, j as nat),
                        domain_point(n, j as nat),
                    ) == 1,
                forall|j: nat| j < i ==> (#[trigger] lagrange(n, j)).len() == n,
                forall|j: nat, k: nat|
                    j < i && k < n ==> #[trigger] lagrange(n, j)[k as int] == lagrange_coefficient(
                        n,
                        j,
                        k,
                    ),
                forall|j: u64| #[trigger] li_x@.contains_key(j) ==> j < i,
                forall|j: u64| #[trigger] com1_li_x@.contains_key(j) ==> j < i,
                forall|j: u64| #[trigger] com1_li_0@.contains_key(j) ==> j < i,
                forall|j: nat, k: nat|
                    j < i && k < n ==> #[trigger] poly_eval(lagrange(n, j), domain_point(n, k))
                        == (if j == k {
                        1nat
                    } else {
                        0nat
                    }),
                forall|j: u64|
                    j < i ==> #[trigger] com1_li_x@.contains_key(j) && com1_li_x@[j]@ == poly_eval(
                        lagrange(n, j as nat),
                        tau,
                    ),
                forall|j: u64|
                    j < i ==> #[trigger] com1_li_0@.contains_key(j) && com1_li_0@[j]@ == poly_eval(
                        lagrange(n, j as nat).skip(1),
                        tau,
                    ),
            decreases big_n - i,
        {
            let li_eval = unit_values(big_n, i);
            let li = ifft(big_n, li_eval.as_slice());
            // the consistency check: the i-th basis polynomial is one at the
            // i-th point
            assert(poly_eval(values(li@), domain_point(n, i as nat)) == 1);
            let com = Srs::commit_g1(&srs.srs_g1, li.as_slice()).unwrap();
            let tail = slice_subrange(li.as_slice(), 1, big_n);
            let com_0 = Srs::commit_g1(&srs.srs_g1, tail).unwrap();
            proof {
                lemma_commit_is_evaluation(key1, tau, values(li@));
                assert(values(tail@) =~= values(li@).skip(1));
                lemma_commit_is_evaluation(key1, tau, values(tail@));
                assert(values(li@) == lagrange(n, i as nat));
                assert(lagrange(n, i as nat).len() == n);
                assert forall|k: nat| k < n implies lagrange(n, i as nat)[k as int]
                    == lagrange_coefficient(n, i as nat, k) by {
                    assert(values(li@)[k as int] == li[k as int]@);
                    crate::membership::lemma_eval_one_hot(
                        n,
                        i as nat,
                        fpow(finv(root_of_unity(n)), k),
                    );
                }
                assert forall|j: nat, k: nat| j < i + 1 && k < n implies #[trigger] lagrange(
                    n,
                    j,
                )[k as int] == lagrange_coefficient(n, j, k) by {}
            }
            let ghost (old_li, old_com, old_com_0) = (li_x@, com1_li_x@, com1_li_0@);
            let ghost li_values = values(li@);
            let ghost li_len = li.len();
            li_x.insert(i as u64, li);
            com1_li_x.insert(i as u64, com);
            com1_li_0.insert(i as u64, com_0);
            proof {
                assert(li_values == lagrange(n, i as nat));
                assert(poly_eval(lagrange(n, i as nat), domain_point(n, i as nat)) == 1);
                assert forall|j: nat, k: nat| j < i + 1 && k < n implies #[trigger] poly_eval(
                    lagrange(n, j),
                    domain_point(n, k),
                ) == (if j == k {
                    1nat
                } else {
                    0nat
                }) by {
                    if j == i {
                        assert(poly_eval(li_values, domain_point(n, k)) == li_eval@[k as int]@);
                        assert(values(li_eval@)[k as int] == li_eval@[k as int]@);
                    }
                }
                assert forall|j: u64| #[trigger] li_x@.contains_key(j) implies j < i + 1 by {
                    if j != i {
                        assert(old_li.contains_key(j));
                    }
                }
                assert forall|j: u64| #[trigger] com1_li_x@.contains_key(j) implies j < i + 1 by {
                    if j != i {
                        assert(old_com.contains_key(j));
                    }
                }
                assert forall|j: u64| #[trigger] com1_li_0@.contains_key(j) implies j < i + 1 by {
                    if j != i {
                        assert(old_com_0.contains_key(j));
                    }
                }
                assert forall|j: u64| j < i + 1 implies #[trigger] li_x@.contains_key(j)
                    && li_x@[j].len() == big_n && values(li_x@[j]@) == lagrange(n, j as nat)
                    && poly_eval(lagrange(n, j as nat), domain_point(n, j as nat)) == 1 by {
                    if j < i {
                        assert(old_li.contains_key(j));
                    }
                }
                assert forall|j: u64| j < i + 1 implies #[trigger] com1_li_x@.contains_key(j)
                    && com1_li_x@[j]@ == poly_eval(lagrange(n, j as nat), tau) by {
                    if j < i {
                        assert(old_com.contains_key(j));
                    }
                }
                assert forall|j: u64| j < i + 1 implies #[trigger] com1_li_0@.contains_key(j)
                    && com1_li_0@[j]@ == poly_eval(lagrange(n, j as nat).skip(1), tau) by {
                    if j < i {
                        assert(old_com_0.contains_key(j));
                    }
                }
            }
            i += 1;
        }
        // the cached quotients
        let shifted = shifted_commits(&srs, &t_coeff);
        let kdash = fft_g1(big_n, &shifted);
        let n_inv = Scalar::from_u64(big_n as u64).inverse().unwrap();
        let mut com1_qi: BTreeMap<u64, G1> = BTreeMap::new();
        let mut i: usize = 0;
        while i < big_n
            invariant
                i <= big_n,
                n == big_n,
                domain_ok(n),
                kdash.len() == big_n,
                exponents(kdash@) == evaluations(n, exponents(shifted@)),
                exponents(shifted@) == shifted_commitments(
                    interpolation(n, values(t@)),
                    tau,
                ),
                n_inv@ == finv(n),
                forall|j: u64| #[trigger] com1_qi@.contains_key(j) ==> j < i,
                forall|j: u64|
                    j < i ==> #[trigger] com1_qi@.contains_key(j) && com1_qi@[j]@
                        == cached_quotient(n, values(t@), tau, j as nat),
            decreases big_n - i,
        {
            let w = domain_element(big_n, i);
            let scale = w.mul(&n_inv);
            let q = kdash[i].mul(&scale);
            let ghost before = com1_qi@;
            com1_qi.insert(i as u64, q);
            proof {
                let point = domain_point(n, i as nat);
                assert(w@ == point);
                assert(scale@ == fmul(point, finv(n)));
                assert(exponents(kdash@)[i as int] == kdash[i as int]@);
                assert(evaluations(n, exponents(shifted@))[i as int] == poly_eval(
                    exponents(shifted@),
                    point,
                ));
                assert(q@ == cached_quotient(n, values(t@), tau, i as nat));
                assert(com1_qi@ == before.insert(i as u64, q));
                assert forall|j: u64| #[trigger] com1_qi@.contains_key(j) implies j < i + 1 by {
                    if j != i {
                        assert(before.contains_key(j));
                    }
                }
                assert forall|j: u64| j < i + 1 implies #[trigger] com1_qi@.contains_key(j)
                    && com1_qi@[j]@ == cached_quotient(n, values(t@), tau, j as nat) by {
                    if j < i {
                        assert(before.contains_key(j));
                    }
                }
            }
            i += 1;
        }
        let pre = PreprocessedElements {
            srs,
            big_n,
            com2_vanishingpoly_big_n,
            com2_t_x,
            li_x,
            com1_li_x,
            com1_li_0,
            com1_qi,
        };
        proof {
            let table = values(t@);
            assert(pre.well_formed());
            assert(domain_facts(n));
            assert(table_facts(n, table));
            assert(pre.com2_t_x@ == poly_eval(interpolation(n, table), tau));
            assert forall|i: u64| i < n implies #[trigger] pre.li_x@.contains_key(i) && values(
                pre.li_x@[i]@,
            ) == lagrange(n, i as nat) && poly_eval(
                lagrange(n, i as nat),
                domain_point(n, i as nat),
            ) == 1 by {}
            assert forall|i: u64| i < n implies #[trigger] pre.com1_li_x@.contains_key(i)
                && pre.com1_li_x@[i]@ == poly_eval(lagrange(n, i as nat), tau) by {}
            assert forall|i: u64| i < n implies #[trigger] pre.com1_li_0@.contains_key(i)
                && pre.com1_li_0@[i]@ == poly_eval(lagrange(n, i as nat).skip(1), tau) by {}
            assert forall|i: u64| i < n implies #[trigger] pre.com1_qi@.contains_key(i)
                && pre.com1_qi@[i]@ == cached_quotient(n, table, tau, i as nat) by {}
        }
        pre
    }
}

/// The commitment to `x^n - 1` under a key is the key's `n`-th element less
/// its first.
pub proof fn lemma_vanishing_commitment(n: nat, key: Seq<nat>)
    requires
        n >= 1,
        key.len() > n,
    ensures
        inner_product(vanishing(n), key) == fsub(key[n as int], key[0]),
{
    let v = vanishing(n);
    lemma_vanishing_prefix(n, key, n);
    assert(v.drop_last() =~= v.take(n as int));
    let m = modulus() as int;
    let (k0, kn) = (key[0] as int, key[n as int] as int);
    lemma_fmul_unit(key[n as int]);
    assert(inner_product(v, key) == fadd(fmul((modulus() - 1) as nat, key[0]), fmul(1, key[n as int])));
    // ((r - 1) * k0 + kn) % r == (kn - k0) % r
    vstd::arithmetic::div_mod::lemma_add_mod_noop((m - 1) * k0, kn, m);
    vstd::arithmetic::div_mod::lemma_mod_twice(kn, m);
    assert((m - 1) * k0 + kn == m * k0 + (kn - k0)) by (nonlinear_arith);
    lemma_mod_multiples_vanish(k0, kn - k0, m);
}

/// The `n` values that are one at the index `i` and zero elsewhere.
fn unit_values(n: usize, i: usize) -> (r: Vec<Scalar>)
    requires
        i < n,
    ensures
        r.len() == n,
        values(r@) =~= one_hot(n as nat, i as nat),
        r[i as int]@ == 1,
{
    let mut r: Vec<Scalar> = Vec::new();
    let mut j: usize = 0;
    while j < n
        invariant
            j <= n,
            i < n,
            r.len() == j,
            values(r@) =~= one_hot(n as nat, i as nat).take(j as int),
            j > i ==> r[i as int]@ == 1,
        decreases n - j,
    {
        let ghost before = r@;
        if j == i {
            r.push(Scalar::one());
        } else {
            r.push(Scalar::zero());
        }
        proof {
            assert(values(r@) =~= values(before).push(r[j as int]@));
        }
        j += 1;
    }
    r
}

/// For each `k` below the number of coefficients, the commitment to the
/// polynomial that the coefficients from the index `k + 1` on make: the
/// Toeplitz product of the coefficients with the key's powers. It is taken
/// as the upper half of the product of the coefficient polynomial with the
/// reversed key, which two transforms on the domain of twice the size, a
/// product point by point and one inverse transform make.
fn shifted_commits(srs: &Srs, coeffs: &Vec<Scalar>) -> (r: Vec<G1>)
    requires
        srs.well_formed(),
        coeffs.len() == srs.srs_g1.len(),
        coeffs.len() >= 1,
        2 * coeffs.len() <= usize::MAX,
        domain_ok((2 * coeffs.len()) as nat),
    ensures
        r.len() == coeffs.len(),
        exponents(r@) == shifted_commitments(values(coeffs@), srs.tau()),
{
    let n = coeffs.len();
    let size = 2 * n;
    let ghost tau = srs.tau();
    let ghost a = values(coeffs@);
    separate_domain(size);
    // the key's powers, the highest first
    let mut reversed: Vec<G1> = Vec::new();
    let mut j: usize = 0;
    while j < n
        invariant
            j <= n,
            n == srs.srs_g1.len(),
            srs.well_formed(),
            tau == srs.tau(),
            reversed.len() == j,
            forall|x: int| 0 <= x < j ==> (#[trigger] reversed[x])@ == fpow(tau, (n - 1 - x) as nat),
        decreases n - j,
    {
        proof {
            assert(exponents(srs.srs_g1@)[n - 1 - j] == powers(tau, n as nat)[n - 1 - j]);
        }
        reversed.push(srs.srs_g1[n - 1 - j]);
        j += 1;
    }
    let ghost y = exponents(reversed@);
    let a_hat = fft(size, coeffs.as_slice());
    let y_hat = fft_g1(size, &reversed);
    // the product, point by point
    let mut u_hat: Vec<G1> = Vec::new();
    let mut k: usize = 0;
    while k < size
        invariant
            k <= size,
            a_hat.len() == size,
            y_hat.len() == size,
            u_hat.len() == k,
            forall|x: int| 0 <= x < k ==> (#[trigger] u_hat[x])@ == fmul(y_hat[x]@, a_hat[x]@),
        decreases size - k,
    {
        u_hat.push(y_hat[k].mul(&a_hat[k]));
        k += 1;
    }
    let w = ifft_g1(size, &u_hat);
    let upper = slice_subrange(w.as_slice(), n, size);
    let r = slice_to_vec(upper);
    proof {
        let wv = exponents(w@);
        let prod = poly_product(a, y);
        let roots = Seq::new(size as nat, |x: int| domain_point(size as nat, x as nat));
        lemma_product_len(a, y);
        // the transform of the product is the product of the transforms
        assert forall|x: int| 0 <= x < roots.len() implies poly_eval(wv, #[trigger] roots[x])
            == poly_eval(prod, roots[x]) by {
            let z = domain_point(size as nat, x as nat);
            assert(roots[x] == z);
            lemma_eval_product(a, y, z);
            assert(values(a_hat@)[x] == a_hat[x]@);
            assert(exponents(y_hat@)[x] == y_hat[x]@);
            assert(poly_eval(wv, domain_point(size as nat, x as nat)) == u_hat[x]@);
            lemma_fmul_assoc(y_hat[x]@, a_hat[x]@, 1);
        }
        assert forall|p: int, q: int| 0 <= p < q < roots.len() implies is_inverse(
            fsub(#[trigger] roots[q], #[trigger] roots[p]),
            finv(fsub(roots[q], roots[p])),
        ) by {
            lemma_domain_points_apart(size as nat, p as nat, q as nat);
        }
        assert forall|x: int| 0 <= x < wv.len() implies (#[trigger] wv[x]) < modulus() by {
            w@[x].lemma_reduced();
        }
        assert forall|x: int| 0 <= x < prod.len() implies (#[trigger] prod[x]) < modulus() by {
            lemma_product_reduced(a, y, x);
        }
        lemma_agree_on_roots(wv, prod, roots);
        // the upper half of the product
        assert forall|x: int| 0 <= x < y.len() implies #[trigger] y[x] == fpow(
            tau,
            (y.len() - 1 - x) as nat,
        ) by {
            assert(y[x] == reversed@[x]@);
        }
        assert(exponents(r@) =~= shifted_commitments(a, tau)) by {
            assert forall|x: int| 0 <= x < n implies exponents(r@)[x] == shifted_commitments(
                a,
                tau,
            )[x] by {
                assert(exponents(r@)[x] == r@[x]@);
                assert(r@[x] == w@[n + x]);
                assert(wv[n + x] == w@[n + x]@);
                assert(wv[n + x] == coefficient(prod, (n + x) as int));
                lemma_product_upper(a, y, tau, n as nat, x as nat);
                assert(a.take(n as int) =~= a);
                if n > x + 1 {
                    assert(a.subrange((x + 1) as int, n as int) =~= a.skip(x + 1));
                } else {
                    assert(a.skip(x + 1).len() == 0);
                }
            }
        }
    }
    r
}

} // verus!
