use crate::field::{fadd, fmul, fpow, fsub, lemma_fpow_step, lemma_results_reduced, modulus};
use crate::poly::{
    inner_product, lemma_inner_product_powers, linear_quotient, poly_eval, powers, strip_zeros,
};
use crate::prover::{add_scaled, coefficient, zeros};
use crate::ring::{lemma_congruent_reduced, lemma_lift_fadd, lemma_lift_fmul, lemma_lift_fsub};
use vstd::arithmetic::power::{lemma_pow_adds, pow};
use vstd::prelude::*;

verus! {

/// An inner product is reduced.
pub proof fn lemma_inner_product_reduced(a: Seq<nat>, b: Seq<nat>)
    ensures
        inner_product(a, b) < modulus(),
{
    if a.len() > 0 {
        lemma_results_reduced(inner_product(a.drop_last(), b), fmul(a.last(), b[a.len() - 1]));
    }
}

/// The value of a polynomial is its constant coefficient plus `x` times the
/// value of the polynomial that the other coefficients make.
pub proof fn lemma_eval_split(c: Seq<nat>, x: nat)
    requires
        c.len() >= 1,
    ensures
        poly_eval(c, x) == fadd(c[0], fmul(x, poly_eval(c.skip(1), x))),
    decreases c.len(),
{
    let n = c.len();
    let rest = c.skip(1);
    lemma_inner_product_reduced(c, powers(x, n));
    lemma_results_reduced(c[0], fmul(x, poly_eval(rest, x)));
    if n == 1 {
        assert(c.drop_last().len() == 0);
        assert(rest.len() == 0);
        lemma_fpow_step(x, 0);
        // c0 * 1 against c0 + x * 0
        lemma_lift_fmul(c[0], 1, c[0] as int, 1int);
        lemma_lift_fadd(0, fmul(c[0], 1), 0int, (c[0] * 1) as int);
        lemma_lift_fmul(x, 0, x as int, 0int);
        lemma_lift_fadd(c[0], fmul(x, 0), c[0] as int, (x * 0) as int);
        assert(0 + c[0] * 1 == c[0] + x * 0) by (nonlinear_arith);
        lemma_congruent_reduced(poly_eval(c, x), fadd(c[0], fmul(x, poly_eval(rest, x))));
    } else {
        let d = c.drop_last();
        let last = c.last();
        lemma_eval_split(d, x);
        lemma_inner_product_powers(d, x, n);
        assert(rest.drop_last() =~= d.skip(1));
        lemma_inner_product_powers(d.skip(1), x, (n - 1) as nat);
        let a = poly_eval(d.skip(1), x);
        let p = fpow(x, (n - 2) as nat);
        lemma_fpow_step(x, (n - 2) as nat);
        assert(fpow(x, (n - 1) as nat) == fmul(p, x));
        assert(poly_eval(rest, x) == fadd(a, fmul(last, p)));
        assert(poly_eval(c, x) == fadd(fadd(d[0], fmul(x, a)), fmul(last, fmul(p, x))));
        // left: (d0 + x a) + last (p x)
        lemma_lift_fmul(x, a, x as int, a as int);
        lemma_lift_fadd(d[0], fmul(x, a), d[0] as int, (x * a) as int);
        lemma_lift_fmul(p, x, p as int, x as int);
        lemma_lift_fmul(last, fmul(p, x), last as int, (p * x) as int);
        lemma_lift_fadd(fadd(d[0], fmul(x, a)), fmul(last, fmul(p, x)), (d[0] + x * a) as int, (last * (p * x)) as int);
        // right: c0 + x (a + last p)
        lemma_lift_fmul(last, p, last as int, p as int);
        lemma_lift_fadd(a, fmul(last, p), a as int, (last * p) as int);
        lemma_lift_fmul(x, fadd(a, fmul(last, p)), x as int, (a + last * p) as int);
        lemma_lift_fadd(c[0], fmul(x, fadd(a, fmul(last, p))), c[0] as int, (x * (a + last * p)) as int);
        assert((d[0] + x * a) + last * (p * x) == c[0] + x * (a + last * p)) by (nonlinear_arith)
            requires
                d[0] == c[0],
        ;
        lemma_congruent_reduced(poly_eval(c, x), fadd(c[0], fmul(x, poly_eval(rest, x))));
    }
}

/// Zeros at the high end do not change the value of a polynomial.
pub proof fn lemma_eval_strip(c: Seq<nat>, x: nat)
    ensures
        poly_eval(strip_zeros(c), x) == poly_eval(c, x),
    decreases c.len(),
{
    if c.len() > 0 && c.last() == 0 {
        let d = c.drop_last();
        lemma_eval_strip(d, x);
        lemma_inner_product_powers(d, x, c.len());
        lemma_inner_product_reduced(d, powers(x, c.len()));
        crate::field::lemma_fmul_unit(fpow(x, (c.len() - 1) as nat));
        crate::field::lemma_fadd_zero(poly_eval(d, x));
    }
}

/// The coefficients `c`, with zeros up to the length `len`.
pub open spec fn padded(c: Seq<nat>, len: nat) -> Seq<nat> {
    Seq::new(len, |i: int| coefficient(c, i))
}

/// Padding with zeros does not change the value of a polynomial.
pub proof fn lemma_eval_padded(c: Seq<nat>, len: nat, x: nat)
    requires
        c.len() <= len,
    ensures
        poly_eval(padded(c, len), x) == poly_eval(c, x),
    decreases len,
{
    if len == c.len() {
        assert(padded(c, len) =~= c);
    } else {
        let p = padded(c, len);
        assert(p.drop_last() =~= padded(c, (len - 1) as nat));
        lemma_eval_padded(c, (len - 1) as nat, x);
        lemma_inner_product_powers(p.drop_last(), x, len);
        lemma_inner_product_reduced(p.drop_last(), powers(x, len));
        crate::field::lemma_fmul_unit(fpow(x, (len - 1) as nat));
        crate::field::lemma_fadd_zero(poly_eval(p.drop_last(), x));
    }
}

/// The value of `a + c * p` is the value of `a` plus `c` times the value of
/// `p`, over the first `m` coefficients of sequences of one length.
proof fn lemma_eval_add_scaled_prefix(a: Seq<nat>, c: nat, p: Seq<nat>, key: Seq<nat>, m: nat)
    requires
        a.len() == p.len(),
        m <= a.len(),
    ensures
        inner_product(add_scaled(a, c, p).take(m as int), key) == fadd(
            inner_product(a.take(m as int), key),
            fmul(c, inner_product(p.take(m as int), key)),
        ),
    decreases m,
{
    let s = add_scaled(a, c, p);
    let (sm, am, pm) = (s.take(m as int), a.take(m as int), p.take(m as int));
    lemma_inner_product_reduced(sm, key);
    lemma_results_reduced(inner_product(am, key), fmul(c, inner_product(pm, key)));
    let (xa, xp) = (inner_product(am, key), inner_product(pm, key));
    if m == 0 {
        lemma_lift_fmul(c, 0, c as int, 0int);
        lemma_lift_fadd(0, fmul(c, 0), 0int, (c * 0) as int);
        assert(0 + c * 0 == 0) by (nonlinear_arith);
        lemma_congruent_reduced(inner_product(sm, key), fadd(xa, fmul(c, xp)));
    } else {
        let k = (m - 1) as nat;
        lemma_eval_add_scaled_prefix(a, c, p, key, k);
        assert(sm.drop_last() =~= s.take(k as int));
        assert(am.drop_last() =~= a.take(k as int));
        assert(pm.drop_last() =~= p.take(k as int));
        let (ya, yp) = (inner_product(a.take(k as int), key), inner_product(p.take(k as int), key));
        let w = key[k as int];
        let (ai, pi) = (a[k as int], p[k as int]);
        assert(s[k as int] == fadd(ai, fmul(c, pi)));
        // left: (ya + c yp) + (ai + c pi) w
        lemma_lift_fmul(c, yp, c as int, yp as int);
        lemma_lift_fadd(ya, fmul(c, yp), ya as int, (c * yp) as int);
        lemma_lift_fmul(c, pi, c as int, pi as int);
        lemma_lift_fadd(ai, fmul(c, pi), ai as int, (c * pi) as int);
        lemma_lift_fmul(fadd(ai, fmul(c, pi)), w, (ai + c * pi) as int, w as int);
        lemma_lift_fadd(fadd(ya, fmul(c, yp)), fmul(fadd(ai, fmul(c, pi)), w), (ya + c * yp) as int, ((ai + c * pi) * w) as int);
        // right: (ya + ai w) + c (yp + pi w)
        lemma_lift_fmul(ai, w, ai as int, w as int);
        lemma_lift_fadd(ya, fmul(ai, w), ya as int, (ai * w) as int);
        lemma_lift_fmul(pi, w, pi as int, w as int);
        lemma_lift_fadd(yp, fmul(pi, w), yp as int, (pi * w) as int);
        lemma_lift_fmul(c, fadd(yp, fmul(pi, w)), c as int, (yp + pi * w) as int);
        lemma_lift_fadd(fadd(ya, fmul(ai, w)), fmul(c, fadd(yp, fmul(pi, w))), (ya + ai * w) as int, (c * (yp + pi * w)) as int);
        assert((ya + c * yp) + (ai + c * pi) * w == (ya + ai * w) + c * (yp + pi * w))
            by (nonlinear_arith);
        lemma_congruent_reduced(inner_product(sm, key), fadd(xa, fmul(c, xp)));
    }
}

/// The value of `a + c * p` at `x` is the value of `a` plus `c` times the
/// value of `p`.
pub proof fn lemma_eval_add_scaled(a: Seq<nat>, c: nat, p: Seq<nat>, x: nat)
    ensures
        poly_eval(add_scaled(a, c, p), x) == fadd(poly_eval(a, x), fmul(c, poly_eval(p, x))),
{
    let len = add_scaled(a, c, p).len();
    let (pa, pp) = (padded(a, len), padded(p, len));
    assert(add_scaled(pa, c, pp) =~= add_scaled(a, c, p));
    lemma_eval_add_scaled_prefix(pa, c, pp, powers(x, len), len);
    assert(add_scaled(pa, c, pp).take(len as int) =~= add_scaled(pa, c, pp));
    assert(pa.take(len as int) =~= pa);
    assert(pp.take(len as int) =~= pp);
    lemma_eval_padded(a, len, x);
    lemma_eval_padded(p, len, x);
}

/// The division identity: a polynomial is its quotient by `x - z` times
/// `x - z`, plus its value at `z`.
pub proof fn lemma_division(a: Seq<nat>, z: nat, x: nat)
    ensures
        poly_eval(a, x) == fadd(
            fmul(poly_eval(linear_quotient(a, z), x), fsub(x, z)),
            poly_eval(a, z),
        ),
    decreases a.len(),
{
    let q = linear_quotient(a, z);
    let (px, pz, qx) = (poly_eval(a, x), poly_eval(a, z), poly_eval(q, x));
    lemma_inner_product_reduced(a, powers(x, a.len()));
    lemma_inner_product_reduced(a, powers(z, a.len()));
    lemma_results_reduced(fmul(qx, fsub(x, z)), pz);
    lemma_lift_fsub(x, z, x as int, z as int);
    if a.len() == 0 {
        lemma_lift_fmul(0, fsub(x, z), 0int, (x - z) as int);
        lemma_lift_fadd(fmul(0, fsub(x, z)), 0, (0 * (x - z)) as int, 0int);
        assert(0 * (x - z) + 0 == 0) by (nonlinear_arith);
        lemma_congruent_reduced(px, fadd(fmul(qx, fsub(x, z)), pz));
    } else {
        let rest = a.skip(1);
        let qr = linear_quotient(rest, z);
        lemma_division(rest, z, x);
        lemma_eval_split(a, x);
        lemma_eval_split(a, z);
        let (rx, rz, qrx) = (poly_eval(rest, x), poly_eval(rest, z), poly_eval(qr, x));
        // the quotient of the rest, as an integer expression
        lemma_lift_fmul(qrx, fsub(x, z), qrx as int, (x - z) as int);
        lemma_lift_fadd(fmul(qrx, fsub(x, z)), rz, (qrx * (x - z)) as int, rz as int);
        // the polynomial at x: a0 + x (qrx (x - z) + rz)
        lemma_lift_fmul(x, rx, x as int, (qrx * (x - z) + rz) as int);
        lemma_lift_fadd(a[0], fmul(x, rx), a[0] as int, (x * (qrx * (x - z) + rz)) as int);
        // the polynomial at z: a0 + z rz
        lemma_lift_fmul(z, rz, z as int, rz as int);
        lemma_lift_fadd(a[0], fmul(z, rz), a[0] as int, (z * rz) as int);
        if a.len() == 1 {
            assert(q.len() == 0);
            assert(qr.len() == 0);
            assert(rest.len() == 0);
            lemma_lift_fmul(0, fsub(x, z), 0int, (x - z) as int);
            lemma_lift_fadd(fmul(0, fsub(x, z)), pz, (0 * (x - z)) as int, (a[0] + z * rz) as int);
            assert(a[0] + x * (0 * (x - z) + 0) == 0 * (x - z) + (a[0] + z * 0))
                by (nonlinear_arith);
            lemma_congruent_reduced(px, fadd(fmul(qx, fsub(x, z)), pz));
        } else {
            assert(q[0] == rz);
            assert(q.skip(1) =~= qr) by {
                assert forall|i: int| 0 <= i < qr.len() implies q.skip(1)[i] == qr[i] by {
                    assert(a.skip(i + 2) =~= rest.skip(i + 1));
                }
            }
            lemma_eval_split(q, x);
            // the quotient at x: rz + x qrx
            lemma_lift_fmul(x, qrx, x as int, qrx as int);
            lemma_lift_fadd(rz, fmul(x, qrx), rz as int, (x * qrx) as int);
            lemma_lift_fmul(qx, fsub(x, z), (rz + x * qrx) as int, (x - z) as int);
            lemma_lift_fadd(fmul(qx, fsub(x, z)), pz, ((rz + x * qrx) * (x - z)) as int, (a[0] + z * rz) as int);
            assert(a[0] + x * (qrx * (x - z) + rz) == (rz + x * qrx) * (x - z) + (a[0] + z * rz))
                by (nonlinear_arith);
            lemma_congruent_reduced(px, fadd(fmul(qx, fsub(x, z)), pz));
        }
    }
}

/// `k` zero coefficients have the value zero.
pub proof fn lemma_eval_zeros(k: nat, x: nat)
    ensures
        poly_eval(zeros(k), x) == 0,
{
    assert(zeros(k) =~= padded(Seq::<nat>::empty(), k));
    lemma_eval_padded(Seq::<nat>::empty(), k, x);
}

/// Shifting the coefficients up by `k` places multiplies the value by the
/// `k`-th power of `x`.
pub proof fn lemma_eval_shift(k: nat, c: Seq<nat>, x: nat)
    ensures
        poly_eval(zeros(k) + c, x) == fmul(fpow(x, k), poly_eval(c, x)),
    decreases c.len(),
{
    let s = zeros(k) + c;
    lemma_inner_product_reduced(s, powers(x, s.len()));
    lemma_results_reduced(fpow(x, k), poly_eval(c, x));
    let xk = fpow(x, k);
    if c.len() == 0 {
        assert(s =~= zeros(k));
        lemma_eval_zeros(k, x);
        lemma_lift_fmul(xk, 0, xk as int, 0int);
        assert(xk * 0 == 0) by (nonlinear_arith);
        lemma_congruent_reduced(poly_eval(s, x), fmul(xk, poly_eval(c, x)));
    } else {
        let d = c.drop_last();
        let last = c.last();
        let n = c.len();
        lemma_eval_shift(k, d, x);
        assert(s.drop_last() =~= zeros(k) + d);
        lemma_inner_product_powers(zeros(k) + d, x, s.len());
        lemma_inner_product_powers(d, x, n);
        let e = fpow(x, (n - 1) as nat);
        let dx = poly_eval(d, x);
        assert(poly_eval(c, x) == fadd(dx, fmul(last, e)));
        assert(poly_eval(s, x) == fadd(fmul(xk, dx), fmul(last, fpow(x, (k + n - 1) as nat))));
        // x^(k + n - 1) = x^k * x^(n - 1)
        lemma_pow_adds(x as int, k, (n - 1) as nat);
        let (pk, pe) = (pow(x as int, k), pow(x as int, (n - 1) as nat));
        crate::ring::lemma_lift_fpow(x, k, x as int);
        crate::ring::lemma_lift_fpow(x, (n - 1) as nat, x as int);
        crate::ring::lemma_lift_fpow(x, (k + n - 1) as nat, x as int);
        // left: xk dx + last x^(k+n-1)
        lemma_lift_fmul(xk, dx, (pk) as int, dx as int);
        lemma_lift_fmul(last, fpow(x, (k + n - 1) as nat), last as int, (pk * pe) as int);
        lemma_lift_fadd(fmul(xk, dx), fmul(last, fpow(x, (k + n - 1) as nat)), (pk * dx) as int, (last * (pk * pe)) as int);
        // right: xk (dx + last e)
        lemma_lift_fmul(last, e, last as int, (pe) as int);
        lemma_lift_fadd(dx, fmul(last, e), dx as int, (last * pe) as int);
        lemma_lift_fmul(xk, fadd(dx, fmul(last, e)), (pk) as int, (dx + last * pe) as int);
        assert(pk * dx + last * (pk * pe) == pk * (dx + last * pe)) by (nonlinear_arith);
        lemma_congruent_reduced(poly_eval(s, x), fmul(xk, poly_eval(c, x)));
    }
}

/// The inner product with `u[i] + c * v[i]` is the inner product with `u`
/// plus `c` times the inner product with `v`.
pub proof fn lemma_inner_product_combination(
    w: Seq<nat>,
    u: Seq<nat>,
    c: nat,
    v: Seq<nat>,
    s: Seq<nat>,
)
    requires
        forall|i: int| 0 <= i < w.len() ==> #[trigger] s[i] == fadd(u[i], fmul(c, v[i])),
    ensures
        inner_product(w, s) == fadd(inner_product(w, u), fmul(c, inner_product(w, v))),
    decreases w.len(),
{
    lemma_inner_product_reduced(w, s);
    let (xu, xv) = (inner_product(w, u), inner_product(w, v));
    lemma_results_reduced(xu, fmul(c, xv));
    if w.len() == 0 {
        lemma_lift_fmul(c, 0, c as int, 0int);
        lemma_lift_fadd(0, fmul(c, 0), 0int, (c * 0) as int);
        assert(0 + c * 0 == 0) by (nonlinear_arith);
        lemma_congruent_reduced(inner_product(w, s), fadd(xu, fmul(c, xv)));
    } else {
        let d = w.drop_last();
        let k = w.len() - 1;
        lemma_inner_product_combination(d, u, c, v, s);
        let (yu, yv) = (inner_product(d, u), inner_product(d, v));
        let (wi, ui, vi) = (w[k], u[k], v[k]);
        assert(s[k] == fadd(ui, fmul(c, vi)));
        // left: (yu + c yv) + wi (ui + c vi)
        lemma_lift_fmul(c, yv, c as int, yv as int);
        lemma_lift_fadd(yu, fmul(c, yv), yu as int, (c * yv) as int);
        lemma_lift_fmul(c, vi, c as int, vi as int);
        lemma_lift_fadd(ui, fmul(c, vi), ui as int, (c * vi) as int);
        lemma_lift_fmul(wi, fadd(ui, fmul(c, vi)), wi as int, (ui + c * vi) as int);
        lemma_lift_fadd(fadd(yu, fmul(c, yv)), fmul(wi, fadd(ui, fmul(c, vi))), (yu + c * yv) as int, (wi * (ui + c * vi)) as int);
        // right: (yu + wi ui) + c (yv + wi vi)
        lemma_lift_fmul(wi, ui, wi as int, ui as int);
        lemma_lift_fadd(yu, fmul(wi, ui), yu as int, (wi * ui) as int);
        lemma_lift_fmul(wi, vi, wi as int, vi as int);
        lemma_lift_fadd(yv, fmul(wi, vi), yv as int, (wi * vi) as int);
        lemma_lift_fmul(c, fadd(yv, fmul(wi, vi)), c as int, (yv + wi * vi) as int);
        lemma_lift_fadd(fadd(yu, fmul(wi, ui)), fmul(c, fadd(yv, fmul(wi, vi))), (yu + wi * ui) as int, (c * (yv + wi * vi)) as int);
        assert((yu + c * yv) + wi * (ui + c * vi) == (yu + wi * ui) + c * (yv + wi * vi))
            by (nonlinear_arith);
        lemma_congruent_reduced(inner_product(w, s), fadd(xu, fmul(c, xv)));
    }
}

} // verus!
