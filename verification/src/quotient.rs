use crate::field::{
    fadd, finv, fmul, fpow, fsub, is_inverse, lemma_fadd_zero, lemma_finv_is, lemma_fmul_unit,
    lemma_fpow_step, lemma_results_reduced, modulus, values, Scalar,
};
use crate::identities::{
    lemma_division, lemma_eval_add_scaled, lemma_eval_shift, lemma_inner_product_reduced,
};
use crate::membership::lemma_fpow_swap;
use crate::poly::{
    domain_element, domain_ok, domain_point, inner_product, interpolation,
    lemma_inner_product_powers,
    linear_quotient, poly_eval, powers, root_of_unity,
};
use crate::prover::{add_scaled, inverse_values, scaled_sum, shift, zeros};
use crate::ring::{
    congruent, lemma_cong_add, lemma_cong_mul, lemma_congruent_reduced, lemma_lift_fadd,
    lemma_lift_fmul, lemma_lift_fpow, lemma_lift_fsub,
};
use vstd::arithmetic::div_mod::{lemma_mod_add_multiples_vanish, lemma_small_mod};
use vstd::arithmetic::power::{lemma_pow_adds, pow};
use vstd::prelude::*;
use vstd::slice::{slice_subrange, slice_to_vec};

verus! {

/// The coefficients of the product of two polynomials: the sum over the
/// coefficients of the first, each times the second moved up by its index.
pub open spec fn poly_product(a: Seq<nat>, b: Seq<nat>) -> Seq<nat>
    decreases a.len(),
{
    if a.len() == 0 {
        Seq::empty()
    } else {
        add_scaled(poly_product(a.drop_last(), b), a.last(), zeros((a.len() - 1) as nat) + b)
    }
}

/// The coefficients of `B * (F + beta) - 1`.
pub open spec fn quotient_numerator(b: Seq<nat>, f: Seq<nat>, beta: nat) -> Seq<nat> {
    add_scaled(
        poly_product(b, add_scaled(f, beta, seq![1nat])),
        (modulus() - 1) as nat,
        seq![1nat],
    )
}

/// The polynomial `B` of the inverse argument: the interpolation of the
/// inverses of the input's entries plus `beta`.
pub open spec fn inverse_polynomial(f: Seq<nat>, beta: nat) -> Seq<nat> {
    interpolation(f.len(), inverse_values(f, beta))
}

/// The coefficients of the quotient `QB = (B * (F + beta) - 1) / (x^n - 1)`
/// for the input `f` of `n` entries, `F` and `B` the interpolations of the
/// entries and of the inverses of the entries plus `beta`: the coefficients
/// of the numerator from the index `n` on.
pub open spec fn quotient_coefficients(f: Seq<nat>, beta: nat) -> Seq<nat> {
    quotient_numerator(inverse_polynomial(f, beta), interpolation(f.len(), f), beta).skip(
        f.len() as int,
    )
}

/// The quotient identity at `x`: `B(x) * (F(x) + beta) - 1` is `QB(x)` times
/// `x^n - 1`.
pub open spec fn quotient_identity(f: Seq<nat>, beta: nat, x: nat) -> bool {
    fsub(
        fmul(
            poly_eval(inverse_polynomial(f, beta), x),
            fadd(poly_eval(interpolation(f.len(), f), x), beta),
        ),
        1,
    ) == fmul(poly_eval(quotient_coefficients(f, beta), x), fsub(fpow(x, f.len()), 1))
}

/// The points of the domain of `n` points are apart: the generator's `n`-th
/// power is one, and each power between, less one, has its inverse.
pub open spec fn domain_separated(n: nat) -> bool {
    &&& fpow(root_of_unity(n), n) == 1
    &&& forall|d: nat|
        0 < d < n ==> is_inverse(
            fsub(#[trigger] fpow(root_of_unity(n), d), 1),
            finv(fsub(fpow(root_of_unity(n), d), 1)),
        )
}

/// A product has one coefficient less than its factors together.
pub proof fn lemma_product_len(a: Seq<nat>, b: Seq<nat>)
    requires
        a.len() >= 1,
    ensures
        poly_product(a, b).len() == a.len() - 1 + b.len(),
    decreases a.len(),
{
    if a.len() > 1 {
        lemma_product_len(a.drop_last(), b);
    } else {
        assert(poly_product(a.drop_last(), b).len() == 0);
    }
}

/// The coefficients of a product are reduced.
pub proof fn lemma_product_reduced(a: Seq<nat>, b: Seq<nat>, i: int)
    requires
        0 <= i < poly_product(a, b).len(),
    ensures
        poly_product(a, b)[i] < modulus(),
{
    let prev = poly_product(a.drop_last(), b);
    let moved = zeros((a.len() - 1) as nat) + b;
    lemma_results_reduced(
        crate::prover::coefficient(prev, i),
        fmul(a.last(), crate::prover::coefficient(moved, i)),
    );
}

/// The value of a product is the product of the values.
pub proof fn lemma_eval_product(a: Seq<nat>, b: Seq<nat>, x: nat)
    ensures
        poly_eval(poly_product(a, b), x) == fmul(poly_eval(a, x), poly_eval(b, x)),
    decreases a.len(),
{
    let prod = poly_product(a, b);
    lemma_results_reduced(poly_eval(a, x), poly_eval(b, x));
    lemma_inner_product_reduced(prod, powers(x, prod.len()));
    let bx = poly_eval(b, x);
    if a.len() == 0 {
        lemma_fmul_unit(bx);
    } else {
        let ad = a.drop_last();
        let al = a.last();
        let k = (a.len() - 1) as nat;
        let prev = poly_product(ad, b);
        lemma_eval_product(ad, b, x);
        lemma_eval_add_scaled(prev, al, zeros(k) + b, x);
        lemma_eval_shift(k, b, x);
        lemma_inner_product_powers(ad, x, a.len());
        let ax = poly_eval(ad, x);
        let xk = fpow(x, k);
        assert(poly_eval(a, x) == fadd(ax, fmul(al, xk)));
        assert(poly_eval(prod, x) == fadd(fmul(ax, bx), fmul(al, fmul(xk, bx))));
        let (ai, bi, li, xi) = (ax as int, bx as int, al as int, xk as int);
        lemma_lift_fmul(ax, bx, ai, bi);
        lemma_lift_fmul(xk, bx, xi, bi);
        lemma_lift_fmul(al, fmul(xk, bx), li, xi * bi);
        lemma_lift_fadd(fmul(ax, bx), fmul(al, fmul(xk, bx)), ai * bi, li * (xi * bi));
        lemma_lift_fmul(al, xk, li, xi);
        lemma_lift_fadd(ax, fmul(al, xk), ai, li * xi);
        lemma_lift_fmul(fadd(ax, fmul(al, xk)), bx, ai + li * xi, bi);
        assert(ai * bi + li * (xi * bi) == (ai + li * xi) * bi) by (nonlinear_arith);
        lemma_congruent_reduced(poly_eval(prod, x), fmul(poly_eval(a, x), bx));
    }
}

/// The constant polynomial one has the value one.
pub proof fn lemma_eval_one(x: nat)
    ensures
        poly_eval(seq![1nat], x) == 1,
{
    let one = seq![1nat];
    assert(one.len() == 1);
    assert(one.drop_last().len() == 0);
    assert(one.last() == 1);
    assert(inner_product(one.drop_last(), powers(x, 1)) == 0);
    assert(powers(x, 1)[0] == fpow(x, 0));
    assert(poly_eval(one, x) == fadd(0, fmul(1, fpow(x, 0))));
    lemma_fpow_step(x, 0);
    lemma_fmul_unit(1);
    lemma_small_mod(1, modulus());
    lemma_fadd_zero(1);
}

/// The value of the numerator `B * (F + beta) - 1`.
pub proof fn lemma_numerator_eval(b: Seq<nat>, f: Seq<nat>, beta: nat, x: nat)
    ensures
        poly_eval(quotient_numerator(b, f, beta), x) == fsub(
            fmul(poly_eval(b, x), fadd(poly_eval(f, x), beta)),
            1,
        ),
{
    let one = seq![1nat];
    let g = add_scaled(f, beta, one);
    let prod = poly_product(b, g);
    let num = quotient_numerator(b, f, beta);
    let m = modulus() as int;
    lemma_eval_one(x);
    lemma_eval_add_scaled(f, beta, one, x);
    lemma_eval_product(b, g, x);
    lemma_eval_add_scaled(prod, (modulus() - 1) as nat, one, x);
    let (bx, fx) = (poly_eval(b, x), poly_eval(f, x));
    let (bi, fi, ci) = (bx as int, fx as int, beta as int);
    assert(poly_eval(num, x) == fadd(
        fmul(bx, fadd(fx, fmul(beta, 1))),
        fmul((modulus() - 1) as nat, 1),
    ));
    // left
    lemma_lift_fmul(beta, 1, ci, 1int);
    lemma_lift_fadd(fx, fmul(beta, 1), fi, ci * 1);
    lemma_lift_fmul(bx, fadd(fx, fmul(beta, 1)), bi, fi + ci * 1);
    lemma_mod_add_multiples_vanish(-1, m);
    assert(congruent(m - 1, -1));
    lemma_lift_fmul((modulus() - 1) as nat, 1, -1, 1int);
    lemma_lift_fadd(
        fmul(bx, fadd(fx, fmul(beta, 1))),
        fmul((modulus() - 1) as nat, 1),
        bi * (fi + ci * 1),
        -1 * 1,
    );
    // right
    lemma_lift_fadd(fx, beta, fi, ci);
    lemma_lift_fmul(bx, fadd(fx, beta), bi, fi + ci);
    lemma_lift_fsub(fmul(bx, fadd(fx, beta)), 1, bi * (fi + ci), 1int);
    assert(bi * (fi + ci * 1) + -1 * 1 == bi * (fi + ci) - 1) by (nonlinear_arith);
    lemma_inner_product_reduced(num, powers(x, num.len()));
    lemma_results_reduced(fmul(bx, fadd(fx, beta)), 1);
    lemma_congruent_reduced(poly_eval(num, x), fsub(fmul(bx, fadd(fx, beta)), 1));
}

/// The value of two coefficient sequences, one after the other, is the value
/// of the first plus that of the second times the power of `x` that the
/// length of the first gives.
pub proof fn lemma_eval_concat(a: Seq<nat>, b: Seq<nat>, x: nat)
    ensures
        poly_eval(a + b, x) == fadd(poly_eval(a, x), fmul(fpow(x, a.len()), poly_eval(b, x))),
    decreases b.len(),
{
    let s = a + b;
    let xa = fpow(x, a.len());
    let ax = poly_eval(a, x);
    lemma_inner_product_reduced(s, powers(x, s.len()));
    lemma_inner_product_reduced(a, powers(x, a.len()));
    lemma_results_reduced(ax, fmul(xa, poly_eval(b, x)));
    if b.len() == 0 {
        assert(s =~= a);
        lemma_fmul_unit(xa);
        lemma_fadd_zero(ax);
    } else {
        let d = b.drop_last();
        let last = b.last();
        let n = b.len();
        lemma_eval_concat(a, d, x);
        assert(s.drop_last() =~= a + d);
        lemma_inner_product_powers(a + d, x, s.len());
        lemma_inner_product_powers(d, x, n);
        let dx = poly_eval(d, x);
        let e = fpow(x, (n - 1) as nat);
        let top = fpow(x, (a.len() + n - 1) as nat);
        assert(poly_eval(b, x) == fadd(dx, fmul(last, e)));
        assert(poly_eval(s, x) == fadd(fadd(ax, fmul(xa, dx)), fmul(last, top)));
        lemma_pow_adds(x as int, a.len(), (n - 1) as nat);
        let (pk, pe) = (pow(x as int, a.len()), pow(x as int, (n - 1) as nat));
        lemma_lift_fpow(x, a.len(), x as int);
        lemma_lift_fpow(x, (n - 1) as nat, x as int);
        lemma_lift_fpow(x, (a.len() + n - 1) as nat, x as int);
        let (ai, di, li) = (ax as int, dx as int, last as int);
        // left: (a + xa d) + last x^(|a| + n - 1)
        lemma_lift_fmul(xa, dx, pk, di);
        lemma_lift_fadd(ax, fmul(xa, dx), ai, pk * di);
        lemma_lift_fmul(last, top, li, pk * pe);
        lemma_lift_fadd(fadd(ax, fmul(xa, dx)), fmul(last, top), ai + pk * di, li * (pk * pe));
        // right: a + xa (d + last e)
        lemma_lift_fmul(last, e, li, pe);
        lemma_lift_fadd(dx, fmul(last, e), di, li * pe);
        lemma_lift_fmul(xa, fadd(dx, fmul(last, e)), pk, di + li * pe);
        lemma_lift_fadd(ax, fmul(xa, fadd(dx, fmul(last, e))), ai, pk * (di + li * pe));
        assert((ai + pk * di) + li * (pk * pe) == ai + pk * (di + li * pe)) by (nonlinear_arith);
        lemma_congruent_reduced(
            poly_eval(s, x),
            fadd(ax, fmul(xa, poly_eval(b, x))),
        );
    }
}

/// Division by `x^n - 1`: a polynomial is its coefficients from the index `n`
/// on, times `x^n - 1`, plus the sum of its lower and its upper coefficients.
pub proof fn lemma_split_eval(p: Seq<nat>, n: nat, x: nat)
    requires
        n <= p.len(),
    ensures
        poly_eval(p, x) == fadd(
            fmul(poly_eval(p.skip(n as int), x), fsub(fpow(x, n), 1)),
            poly_eval(add_scaled(p.take(n as int), 1, p.skip(n as int)), x),
        ),
{
    let (lower, upper) = (p.take(n as int), p.skip(n as int));
    assert(p =~= lower + upper);
    lemma_eval_concat(lower, upper, x);
    lemma_eval_add_scaled(lower, 1, upper, x);
    let (lx, ux, xn) = (poly_eval(lower, x), poly_eval(upper, x), fpow(x, n));
    let (li, ui, xi) = (lx as int, ux as int, xn as int);
    // left: l + xn u
    lemma_lift_fmul(xn, ux, xi, ui);
    lemma_lift_fadd(lx, fmul(xn, ux), li, xi * ui);
    // right: u (xn - 1) + (l + 1 u)
    lemma_lift_fsub(xn, 1, xi, 1int);
    lemma_lift_fmul(ux, fsub(xn, 1), ui, xi - 1);
    lemma_lift_fmul(1, ux, 1int, ui);
    lemma_lift_fadd(lx, fmul(1, ux), li, 1 * ui);
    lemma_lift_fadd(
        fmul(ux, fsub(xn, 1)),
        fadd(lx, fmul(1, ux)),
        ui * (xi - 1),
        li + 1 * ui,
    );
    assert(li + xi * ui == ui * (xi - 1) + (li + 1 * ui)) by (nonlinear_arith);
    lemma_inner_product_reduced(p, powers(x, p.len()));
    lemma_results_reduced(fmul(ux, fsub(xn, 1)), fadd(lx, fmul(1, ux)));
    lemma_congruent_reduced(
        poly_eval(p, x),
        fadd(fmul(ux, fsub(xn, 1)), fadd(lx, fmul(1, ux))),
    );
}

/// A reduced number whose product with an invertible one is zero is zero.
pub proof fn lemma_cancel(y: nat, d: nat)
    requires
        y < modulus(),
        fmul(y, d) == 0,
        is_inverse(d, finv(d)),
    ensures
        y == 0,
{
    let e = finv(d);
    let (yi, di, ei) = (y as int, d as int, e as int);
    lemma_lift_fmul(y, d, yi, di);
    lemma_lift_fmul(d, e, di, ei);
    lemma_small_mod(1, modulus());
    lemma_small_mod(0, modulus());
    lemma_cong_mul(yi * di, 0, ei, ei);
    lemma_cong_mul(yi, yi, di * ei, 1);
    assert((yi * di) * ei == yi * (di * ei)) by (nonlinear_arith);
    assert(0 * ei == 0 && yi * 1 == yi) by (nonlinear_arith);
    lemma_congruent_reduced(y, 0);
}

/// A polynomial with no more coefficients than it has roots that are apart
/// has the value zero everywhere.
pub proof fn lemma_roots_force_zero(c: Seq<nat>, roots: Seq<nat>)
    requires
        c.len() <= roots.len(),
        forall|j: int| 0 <= j < roots.len() ==> poly_eval(c, #[trigger] roots[j]) == 0,
        forall|i: int, j: int|
            0 <= i < j < roots.len() ==> is_inverse(
                fsub(#[trigger] roots[j], #[trigger] roots[i]),
                finv(fsub(roots[j], roots[i])),
            ),
    ensures
        forall|x: nat| #[trigger] poly_eval(c, x) == 0,
    decreases c.len(),
{
    if c.len() == 0 {
        assert forall|x: nat| #[trigger] poly_eval(c, x) == 0 by {}
    } else {
        let z = roots[0];
        let q = linear_quotient(c, z);
        let tail = roots.skip(1);
        assert forall|j: int| 0 <= j < tail.len() implies poly_eval(q, #[trigger] tail[j]) == 0 by {
            let y = roots[j + 1];
            assert(tail[j] == y);
            lemma_division(c, z, y);
            assert(poly_eval(c, y) == 0 && poly_eval(c, z) == 0);
            let qy = poly_eval(q, y);
            lemma_inner_product_reduced(q, powers(y, q.len()));
            lemma_results_reduced(qy, fsub(y, z));
            lemma_fadd_zero(fmul(qy, fsub(y, z)));
            assert(is_inverse(fsub(roots[j + 1], roots[0]), finv(fsub(roots[j + 1], roots[0]))));
            lemma_cancel(qy, fsub(y, z));
        }
        assert forall|i: int, j: int| 0 <= i < j < tail.len() implies is_inverse(
            fsub(#[trigger] tail[j], #[trigger] tail[i]),
            finv(fsub(tail[j], tail[i])),
        ) by {
            assert(tail[j] == roots[j + 1] && tail[i] == roots[i + 1]);
            assert(is_inverse(fsub(roots[j + 1], roots[i + 1]), finv(fsub(roots[j + 1], roots[i + 1]))));
        }
        lemma_roots_force_zero(q, tail);
        assert forall|x: nat| #[trigger] poly_eval(c, x) == 0 by {
            lemma_division(c, z, x);
            assert(poly_eval(q, x) == 0);
            lemma_fmul_unit(fsub(x, z));
            lemma_fadd_zero(0);
        }
    }
}

/// Two points of a domain whose points are apart differ by a number that
/// has its inverse.
pub proof fn lemma_domain_points_apart(n: nat, i: nat, j: nat)
    requires
        domain_separated(n),
        i < j < n,
    ensures
        is_inverse(
            fsub(domain_point(n, j), domain_point(n, i)),
            finv(fsub(domain_point(n, j), domain_point(n, i))),
        ),
{
    let om = root_of_unity(n);
    let d = (j - i) as nat;
    let (zi, zj, wd, wr) = (fpow(om, i), fpow(om, j), fpow(om, d), fpow(om, (n - i) as nat));
    let e = finv(fsub(wd, 1));
    assert(is_inverse(fsub(fpow(root_of_unity(n), d), 1), e));
    let c = fmul(wr, e);
    let diff = fsub(zj, zi);
    let o = om as int;
    let (pi, pd, pr, ei) = (pow(o, i), pow(o, d), pow(o, (n - i) as nat), e as int);
    lemma_pow_adds(o, i, d);
    lemma_pow_adds(o, i, (n - i) as nat);
    lemma_lift_fpow(om, i, o);
    lemma_lift_fpow(om, j, o);
    lemma_lift_fpow(om, d, o);
    lemma_lift_fpow(om, (n - i) as nat, o);
    lemma_lift_fpow(om, n, o);
    lemma_small_mod(1, modulus());
    assert(congruent(pi * pr, 1));
    lemma_lift_fsub(zj, zi, pi * pd, pi);
    lemma_lift_fsub(wd, 1, pd, 1int);
    lemma_lift_fmul(fsub(wd, 1), e, pd - 1, ei);
    assert(congruent((pd - 1) * ei, 1));
    lemma_lift_fmul(wr, e, pr, ei);
    lemma_lift_fmul(diff, c, pi * pd - pi, pr * ei);
    assert((pi * pd - pi) * (pr * ei) == (pi * pr) * ((pd - 1) * ei)) by (nonlinear_arith);
    lemma_cong_mul(pi * pr, 1, (pd - 1) * ei, 1);
    lemma_results_reduced(diff, c);
    lemma_results_reduced(wr, e);
    lemma_congruent_reduced(fmul(diff, c), 1);
    lemma_finv_is(diff, c);
}

/// The quotient identity holds everywhere: `B * (F + beta) - 1` vanishes at
/// the points of the domain, which are apart, so that the division by
/// `x^n - 1` leaves no remainder.
pub proof fn lemma_quotient_identity_everywhere(f: Seq<nat>, beta: nat)
    requires
        f.len() >= 1,
        domain_separated(f.len()),
        forall|j: nat|
            j < f.len() ==> #[trigger] poly_eval(
                interpolation(f.len(), f),
                domain_point(f.len(), j),
            ) == f[j as int],
        forall|j: nat|
            j < f.len() ==> #[trigger] poly_eval(
                inverse_polynomial(f, beta),
                domain_point(f.len(), j),
            ) == inverse_values(f, beta)[j as int],
        forall|j: int|
            0 <= j < f.len() ==> is_inverse(
                fadd(#[trigger] f[j], beta),
                finv(fadd(f[j], beta)),
            ),
    ensures
        forall|x: nat| #[trigger] quotient_identity(f, beta, x),
{
    let n = f.len();
    let b = inverse_polynomial(f, beta);
    let fc = interpolation(n, f);
    let num = quotient_numerator(b, fc, beta);
    let upper = num.skip(n as int);
    let rem = add_scaled(num.take(n as int), 1, upper);
    let roots = Seq::new(n, |j: int| domain_point(n, j as nat));
    lemma_product_len(b, add_scaled(fc, beta, seq![1nat]));
    assert(num.len() == 2 * n - 1);
    assert(rem.len() == n);
    // the remainder vanishes on the domain
    assert forall|j: int| 0 <= j < roots.len() implies poly_eval(rem, #[trigger] roots[j]) == 0 by {
        let z = domain_point(n, j as nat);
        assert(roots[j] == z);
        lemma_numerator_eval(b, fc, beta, z);
        lemma_split_eval(num, n, z);
        // B(z) (F(z) + beta) is one
        let d = fadd(f[j], beta);
        assert(poly_eval(fc, domain_point(n, j as nat)) == f[j]);
        assert(poly_eval(b, domain_point(n, j as nat)) == finv(d));
        crate::field::lemma_fmul_assoc(d, finv(d), 1);
        assert(fmul(finv(d), d) == 1);
        lemma_small_mod(0, modulus());
        assert(poly_eval(num, z) == 0);
        // z^n is one
        lemma_fpow_swap(root_of_unity(n), j as nat, n);
        lemma_lift_fpow(1, j as nat, 1);
        vstd::arithmetic::power::lemma1_pow(j as nat);
        lemma_small_mod(1, modulus());
        assert(fpow(z, n) == 1);
        lemma_fmul_unit(poly_eval(upper, z));
        let r = poly_eval(rem, z);
        lemma_inner_product_reduced(rem, powers(z, rem.len()));
        lemma_fadd_zero(r);
    }
    assert forall|i: int, j: int| 0 <= i < j < roots.len() implies is_inverse(
        fsub(#[trigger] roots[j], #[trigger] roots[i]),
        finv(fsub(roots[j], roots[i])),
    ) by {
        lemma_domain_points_apart(n, i as nat, j as nat);
    }
    lemma_roots_force_zero(rem, roots);
    assert forall|x: nat| #[trigger] quotient_identity(f, beta, x) by {
        lemma_numerator_eval(b, fc, beta, x);
        lemma_split_eval(num, n, x);
        assert(poly_eval(rem, x) == 0);
        let v = fmul(poly_eval(upper, x), fsub(fpow(x, n), 1));
        lemma_results_reduced(poly_eval(upper, x), fsub(fpow(x, n), 1));
        lemma_fadd_zero(v);
    }
}

/// Makes sure that the points of the domain of `n` points are apart, by
/// inverting each power of the generator, below the `n`-th, less one.
pub(crate) fn separate_domain(n: usize)
    requires
        domain_ok(n as nat),
    ensures
        domain_separated(n as nat),
{
    let _ = domain_element(n, n);
    let one = Scalar::one();
    let mut d: usize = 1;
    while d < n
        invariant
            1 <= d,
            one@ == 1,
            domain_ok(n as nat),
            fpow(root_of_unity(n as nat), n as nat) == 1,
            forall|e: nat|
                0 < e < d ==> is_inverse(
                    fsub(#[trigger] fpow(root_of_unity(n as nat), e), 1),
                    finv(fsub(fpow(root_of_unity(n as nat), e), 1)),
                ),
        decreases n - d,
    {
        let w = domain_element(n, d);
        let diff = w.sub(&one);
        proof {
            if diff@ == 0 {
                let m = modulus() as int;
                lemma_results_reduced(root_of_unity(n as nat), d as nat);
                lemma_lift_fsub(w@, 1, w@ as int, 1int);
                lemma_small_mod(0, modulus());
                lemma_cong_add(w@ - 1, 0, 1, 1);
                lemma_congruent_reduced(w@, 1);
            }
        }
        let _ = diff.inverse().unwrap();
        d += 1;
    }
}

/// The coefficients of the product of two polynomials.
pub(crate) fn product(a: &Vec<Scalar>, b: &Vec<Scalar>) -> (r: Vec<Scalar>)
    requires
        a.len() + b.len() <= usize::MAX,
    ensures
        values(r@) == poly_product(values(a@), values(b@)),
{
    let ghost av = values(a@);
    let mut acc: Vec<Scalar> = Vec::new();
    let mut i: usize = 0;
    while i < a.len()
        invariant
            i <= a.len(),
            a.len() + b.len() <= usize::MAX,
            av == values(a@),
            values(acc@) == poly_product(av.take(i as int), values(b@)),
        decreases a.len() - i,
    {
        let moved = shift(b, i);
        acc = scaled_sum(&acc, &a[i], &moved);
        proof {
            assert(av.take(i + 1).drop_last() =~= av.take(i as int));
            assert(av.take(i + 1).last() == a[i as int]@);
        }
        i += 1;
    }
    proof {
        assert(av.take(i as int) =~= av);
    }
    acc
}

/// The coefficients of the quotient `(B * (F + beta) - 1) / (x^n - 1)`,
/// from the `n` coefficients of `F` and of `B`: those of the numerator from
/// the index `n` on.
pub(crate) fn quotient_polynomial(
    f_coeff: &Vec<Scalar>,
    b_coeff: &Vec<Scalar>,
    beta: &Scalar,
) -> (r: Vec<Scalar>)
    requires
        f_coeff.len() >= 1,
        b_coeff.len() == f_coeff.len(),
        2 * f_coeff.len() <= usize::MAX,
    ensures
        values(r@) == quotient_numerator(values(b_coeff@), values(f_coeff@), beta@).skip(
            f_coeff.len() as int,
        ),
        r.len() == f_coeff.len() - 1,
{
    let n = f_coeff.len();
    let mut one: Vec<Scalar> = Vec::new();
    one.push(Scalar::one());
    let minus_one = Scalar::zero().sub(&Scalar::one());
    proof {
        assert(values(one@) =~= seq![1nat]);
        let m = modulus() as int;
        lemma_mod_add_multiples_vanish(-1, m);
        lemma_small_mod((modulus() - 1) as nat, modulus());
        assert(minus_one@ == modulus() - 1);
    }
    let shifted = scaled_sum(f_coeff, beta, &one);
    assert(values(shifted@).len() == n);
    let prod = product(b_coeff, &shifted);
    let numerator = scaled_sum(&prod, &minus_one, &one);
    proof {
        lemma_product_len(values(b_coeff@), values(shifted@));
        assert(values(numerator@).len() == 2 * n - 1);
    }
    let upper = slice_subrange(numerator.as_slice(), n, numerator.len());
    proof {
        assert(values(upper@) =~= values(numerator@).skip(n as int));
    }
    slice_to_vec(upper)
}

} // verus!
