use crate::field::{
    fadd, finv, fmul, fpow, fsub, is_inverse, lemma_fadd_zero, lemma_fmul_unit,
    lemma_results_reduced, modulus,
};
use crate::identities::{
    lemma_division, lemma_eval_add_scaled, lemma_eval_split, lemma_inner_product_reduced,
};
use crate::poly::{
    inner_product, lemma_inner_product_powers, linear_quotient, poly_eval, powers,
};
use crate::prover::{add_scaled, coefficient, zeros};
use crate::quotient::{lemma_cancel, lemma_product_len, poly_product};
use crate::ring::{
    congruent, lemma_cong_add, lemma_congruent_reduced, lemma_lift_fadd, lemma_lift_fmul,
};
use vstd::arithmetic::div_mod::{lemma_mod_add_multiples_vanish, lemma_small_mod};
use vstd::prelude::*;

verus! {

/// The coefficients of a polynomial with no more coefficients than it has
/// roots that are apart are all zero.
pub proof fn lemma_roots_force_zero_coefficients(c: Seq<nat>, roots: Seq<nat>)
    requires
        c.len() <= roots.len(),
        forall|j: int| 0 <= j < roots.len() ==> poly_eval(c, #[trigger] roots[j]) == 0,
        forall|i: int, j: int|
            0 <= i < j < roots.len() ==> is_inverse(
                fsub(#[trigger] roots[j], #[trigger] roots[i]),
                finv(fsub(roots[j], roots[i])),
            ),
    ensures
        forall|i: int| 0 <= i < c.len() ==> (#[trigger] c[i]) % modulus() == 0,
    decreases c.len(),
{
    if c.len() > 0 {
        let z = roots[0];
        let q = linear_quotient(c, z);
        let tail = roots.skip(1);
        assert forall|j: int| 0 <= j < tail.len() implies poly_eval(q, #[trigger] tail[j]) == 0 by {
            let y = roots[j + 1];
            assert(tail[j] == y);
            lemma_division(c, z, y);
            assert(poly_eval(c, y) == 0 && poly_eval(c, z) == 0);
            let qy = poly_eval(q, y);
            lemma_inner_product_reduced(q, powers(y, q.len()));
            lemma_results_reduced(qy, fsub(y, z));
            lemma_fadd_zero(fmul(qy, fsub(y, z)));
            assert(is_inverse(fsub(roots[j + 1], roots[0]), finv(fsub(roots[j + 1], roots[0]))));
            lemma_cancel(qy, fsub(y, z));
        }
        assert forall|i: int, j: int| 0 <= i < j < tail.len() implies is_inverse(
            fsub(#[trigger] tail[j], #[trigger] tail[i]),
            finv(fsub(tail[j], tail[i])),
        ) by {
            assert(tail[j] == roots[j + 1] && tail[i] == roots[i + 1]);
            assert(is_inverse(fsub(roots[j + 1], roots[i + 1]), finv(fsub(roots[j + 1], roots[i + 1]))));
        }
        lemma_roots_force_zero_coefficients(q, tail);
        assert(poly_eval(c, roots[0]) == 0);
        assert forall|i: int| 0 <= i < c.len() implies (#[trigger] c[i]) % modulus() == 0 by {
            // the value at z of the coefficients from i on, and from i + 1 on
            let from_i = c.skip(i);
            let after_i = c.skip(i + 1);
            assert(from_i.skip(1) =~= after_i);
            assert(from_i[0] == c[i]);
            lemma_eval_split(from_i, z);
            assert(poly_eval(after_i, z) == 0) by {
                if i < c.len() - 1 {
                    assert(q[i] == poly_eval(after_i, z));
                    assert(q[i] % modulus() == 0);
                    lemma_inner_product_reduced(after_i, powers(z, after_i.len()));
                    lemma_small_mod(q[i], modulus());
                } else {
                    assert(after_i.len() == 0);
                }
            }
            assert(poly_eval(from_i, z) == 0) by {
                if i > 0 {
                    assert(q[i - 1] == poly_eval(c.skip(i - 1 + 1), z));
                    assert(q[i - 1] % modulus() == 0);
                    lemma_inner_product_reduced(from_i, powers(z, from_i.len()));
                    lemma_small_mod(q[i - 1], modulus());
                } else {
                    assert(from_i =~= c);
                }
            }
            lemma_fmul_unit(z);
            assert(fadd(c[i], 0) == 0);
        }
    }
}

/// Two polynomials that agree at as many points that are apart as the
/// longer of them has coefficients have the same coefficients.
pub proof fn lemma_agree_on_roots(w: Seq<nat>, p: Seq<nat>, roots: Seq<nat>)
    requires
        w.len() == roots.len(),
        p.len() <= w.len(),
        forall|j: int|
            0 <= j < roots.len() ==> poly_eval(w, #[trigger] roots[j]) == poly_eval(p, roots[j]),
        forall|i: int, j: int|
            0 <= i < j < roots.len() ==> is_inverse(
                fsub(#[trigger] roots[j], #[trigger] roots[i]),
                finv(fsub(roots[j], roots[i])),
            ),
        forall|i: int| 0 <= i < w.len() ==> (#[trigger] w[i]) < modulus(),
        forall|i: int| 0 <= i < p.len() ==> (#[trigger] p[i]) < modulus(),
    ensures
        forall|i: int| 0 <= i < w.len() ==> #[trigger] w[i] == coefficient(p, i),
{
    let minus = (modulus() - 1) as nat;
    let m = modulus() as int;
    let d = add_scaled(w, minus, p);
    lemma_mod_add_multiples_vanish(-1, m);
    assert(congruent(minus as int, -1));
    lemma_small_mod(0, modulus());
    assert forall|j: int| 0 <= j < roots.len() implies poly_eval(d, #[trigger] roots[j]) == 0 by {
        let x = roots[j];
        lemma_eval_add_scaled(w, minus, p, x);
        let v = poly_eval(p, x);
        lemma_lift_fmul(minus, v, -1, v as int);
        lemma_lift_fadd(v, fmul(minus, v), v as int, -1 * v);
        assert(v + -1 * v == 0) by (nonlinear_arith);
        lemma_results_reduced(v, fmul(minus, v));
        lemma_congruent_reduced(fadd(v, fmul(minus, v)), 0);
    }
    lemma_roots_force_zero_coefficients(d, roots);
    assert forall|i: int| 0 <= i < w.len() implies #[trigger] w[i] == coefficient(p, i) by {
        let c = coefficient(p, i);
        assert(d[i] == fadd(w[i], fmul(minus, c)));
        assert(d[i] % modulus() == 0);
        lemma_results_reduced(w[i], fmul(minus, c));
        lemma_small_mod(d[i], modulus());
        lemma_lift_fmul(minus, c, -1, c as int);
        lemma_lift_fadd(w[i], fmul(minus, c), w[i] as int, -1 * c);
        lemma_cong_add(w[i] + -1 * c, 0, c as int, c as int);
        assert((w[i] + -1 * c) + c == w[i]) by (nonlinear_arith);
        lemma_congruent_reduced(w[i], c);
    }
}

/// The upper coefficients of the product of a polynomial with the reversed
/// powers of `tau` are the values at `tau` of the polynomials that the
/// coefficients from an index on make: with `n` powers, the coefficient
/// `n + k` of the product of the first `i` coefficients is the value of the
/// coefficients from `k + 1` to `i`.
pub proof fn lemma_product_upper(a: Seq<nat>, y: Seq<nat>, tau: nat, i: nat, k: nat)
    requires
        i <= a.len(),
        y.len() == a.len(),
        k < a.len(),
        forall|j: int| 0 <= j < y.len() ==> #[trigger] y[j] == fpow(tau, (y.len() - 1 - j) as nat),
    ensures
        coefficient(poly_product(a.take(i as int), y), (a.len() + k) as int) == (if i > k + 1 {
            poly_eval(a.subrange((k + 1) as int, i as int), tau)
        } else {
            0
        }),
    decreases i,
{
    let n = a.len();
    let m = n + k;
    if i > 0 {
        let h = (i - 1) as nat;
        let cur = a.take(i as int);
        let before = poly_product(a.take(h as int), y);
        lemma_product_upper(a, y, tau, h, k);
        assert(cur.drop_last() =~= a.take(h as int));
        assert(cur.last() == a[h as int]);
        let moved = zeros(h) + y;
        let prod = poly_product(cur, y);
        assert(prod == add_scaled(before, a[h as int], moved));
        lemma_product_len(cur, y);
        if h > 0 {
            lemma_product_len(a.take(h as int), y);
        }
        if k < h {
            // the coefficient is within the product
            assert(prod[m as int] == fadd(
                coefficient(before, m as int),
                fmul(a[h as int], coefficient(moved, m as int)),
            ));
            assert(moved[m as int] == y[m - h]);
            assert(y[m - h] == fpow(tau, (h - k - 1) as nat));
            let sub = a.subrange((k + 1) as int, i as int);
            assert(sub.last() == a[h as int]);
            assert(powers(tau, sub.len())[sub.len() - 1] == fpow(tau, (h - k - 1) as nat));
            if h > k + 1 {
                assert(sub.drop_last() =~= a.subrange((k + 1) as int, h as int));
                lemma_inner_product_powers(a.subrange((k + 1) as int, h as int), tau, sub.len());
            } else {
                assert(sub.drop_last().len() == 0);
                assert(inner_product(sub.drop_last(), powers(tau, sub.len())) == 0);
            }
        } else {
            // the coefficient lies beyond the product
            assert(prod.len() <= m);
        }
    } else {
        assert(poly_product(a.take(0), y).len() == 0);
    }
}

} // verus!
