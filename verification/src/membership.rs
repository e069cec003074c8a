use crate::field::{
    fadd, finv, fmul, fpow, fsub, is_inverse, lemma_fadd_zero, lemma_finv_is, lemma_fmul_assoc,
    lemma_fmul_unit, lemma_fpow_step, lemma_results_reduced, modulus,
};
use crate::identities::{
    lemma_division, lemma_eval_padded, lemma_inner_product_combination,
    lemma_inner_product_reduced, padded,
};
use crate::multiplicity::multiplicities;
use crate::poly::{
    domain_point, inner_product, interpolation, linear_quotient, poly_eval, powers, root_of_unity,
};
use crate::preprocess::{
    cached_quotient, domain_facts, lagrange, lagrange_coefficient, one_hot, shifted_commitments,
    table_facts, PreprocessedElements,
};
use crate::prover::{map_exponents, multiplicity_weights, proof_values, quotient_weights};
use crate::ring::{
    congruent, lemma_cong_add, lemma_cong_mul, lemma_cong_pow, lemma_congruent_reduced,
    lemma_lift_fadd, lemma_lift_fmul, lemma_lift_fpow, lemma_lift_fsub,
};
use crate::verify::membership_holds;
use vstd::arithmetic::div_mod::lemma_small_mod;
use vstd::arithmetic::power::{
    lemma1_pow, lemma_pow0, lemma_pow_distributes, lemma_pow_multiplies, pow,
};
use vstd::prelude::*;

verus! {

/// The first `m` of the values that are one at the index `i` and zero
/// elsewhere sum up, against the powers of `y`, to the `i`-th power once `i`
/// is among them.
proof fn lemma_one_hot_prefix(n: nat, i: nat, y: nat, m: nat)
    requires
        i < n,
        m <= n,
    ensures
        inner_product(one_hot(n, i).take(m as int), powers(y, n)) == (if m > i {
            fpow(y, i)
        } else {
            0
        }),
    decreases m,
{
    if m > 0 {
        let k = (m - 1) as nat;
        lemma_one_hot_prefix(n, i, y, k);
        let s = one_hot(n, i).take(m as int);
        assert(s.drop_last() =~= one_hot(n, i).take(k as int));
        assert(powers(y, n)[k as int] == fpow(y, k));
        lemma_fmul_unit(fpow(y, k));
        lemma_results_reduced(y, k);
        lemma_results_reduced(y, i);
        lemma_fadd_zero(fpow(y, i));
        lemma_fadd_zero(0);
    }
}

/// The polynomial whose coefficients are one at the index `i` and zero
/// elsewhere has the value `y^i` at `y`.
pub proof fn lemma_eval_one_hot(n: nat, i: nat, y: nat)
    requires
        i < n,
    ensures
        poly_eval(one_hot(n, i), y) == fpow(y, i),
{
    lemma_one_hot_prefix(n, i, y, n);
    assert(one_hot(n, i).take(n as int) =~= one_hot(n, i));
}

/// Powers of powers do not depend on the order of the exponents.
pub proof fn lemma_fpow_swap(b: nat, k: nat, i: nat)
    ensures
        fpow(fpow(b, k), i) == fpow(fpow(b, i), k),
{
    let bi = b as int;
    lemma_lift_fpow(b, k, bi);
    lemma_lift_fpow(fpow(b, k), i, pow(bi, k));
    lemma_lift_fpow(b, i, bi);
    lemma_lift_fpow(fpow(b, i), k, pow(bi, i));
    lemma_pow_multiplies(bi, k, i);
    lemma_pow_multiplies(bi, i, k);
    assert(k * i == i * k) by (nonlinear_arith);
    lemma_results_reduced(fpow(b, k), i);
    lemma_results_reduced(fpow(b, i), k);
    lemma_congruent_reduced(fpow(fpow(b, k), i), fpow(fpow(b, i), k));
}

/// The geometric sum: the polynomial with the coefficients `ninv * v^k`,
/// cut after `m` of them, times `v * tau - 1` is `ninv * ((v * tau)^m - 1)`.
proof fn lemma_geometric(c: Seq<nat>, ninv: nat, v: nat, tau: nat, m: nat)
    requires
        m <= c.len(),
        forall|k: int| 0 <= k < c.len() ==> #[trigger] c[k] == fmul(ninv, fpow(v, k as nat)),
    ensures
        congruent(
            inner_product(c.take(m as int), powers(tau, c.len())) * (v * tau - 1),
            ninv * (pow((v * tau) as int, m) - 1),
        ),
    decreases m,
{
    let key = powers(tau, c.len());
    let (vi, ti, ni) = (v as int, tau as int, ninv as int);
    let x = vi * ti - 1;
    let s_m = inner_product(c.take(m as int), key) as int;
    if m == 0 {
        lemma_pow0(vi * ti);
        assert(s_m == 0);
        assert(0 * x == ni * (1 - 1)) by (nonlinear_arith);
    } else {
        let k = (m - 1) as nat;
        lemma_geometric(c, ninv, v, tau, k);
        assert(c.take(m as int).drop_last() =~= c.take(k as int));
        let s_k = inner_product(c.take(k as int), key) as int;
        let p_k = pow(vi * ti, k);
        let (pv, pt) = (pow(vi, k), pow(ti, k));
        lemma_pow_distributes(vi, ti, k);
        assert(p_k == pv * pt);
        // the last term: ninv v^k tau^k
        assert(c[k as int] == fmul(ninv, fpow(v, k)));
        assert(key[k as int] == fpow(tau, k));
        lemma_lift_fpow(v, k, vi);
        lemma_lift_fpow(tau, k, ti);
        lemma_lift_fmul(ninv, fpow(v, k), ni, pv);
        lemma_lift_fmul(c[k as int], fpow(tau, k), ni * pv, pt);
        lemma_lift_fadd(
            inner_product(c.take(k as int), key),
            fmul(c[k as int], key[k as int]),
            s_k,
            (ni * pv) * pt,
        );
        assert(congruent(s_m, s_k + (ni * pv) * pt));
        lemma_cong_mul(s_m, s_k + (ni * pv) * pt, x, x);
        assert((s_k + (ni * pv) * pt) * x == s_k * x + (ni * p_k) * x) by (nonlinear_arith)
            requires
                p_k == pv * pt,
        ;
        lemma_cong_add(s_k * x, ni * (p_k - 1), (ni * p_k) * x, (ni * p_k) * x);
        assert(pow(vi * ti, m) == (vi * ti) * p_k) by {
            reveal(pow);
        }
        assert(ni * (p_k - 1) + (ni * p_k) * x == ni * ((vi * ti) * p_k - 1)) by (nonlinear_arith)
            requires
                x == vi * ti - 1,
        ;
    }
}

/// The closed form of a Lagrange polynomial: its value at `tau`, times
/// `tau - w`, is `w * (tau^n - 1) / n`, `w` the polynomial's own point of the
/// domain.
pub proof fn lemma_lagrange_closed(n: nat, i: nat, tau: nat)
    requires
        i < n,
        domain_facts(n),
    ensures
        congruent(
            poly_eval(lagrange(n, i), tau) * (tau - domain_point(n, i)),
            finv(n) * domain_point(n, i) * (pow(tau as int, n) - 1),
        ),
{
    let om = root_of_unity(n);
    let winv = finv(om);
    let v = fpow(winv, i);
    let w = domain_point(n, i);
    let ninv = finv(n);
    let c = lagrange(n, i);
    let (omi, wvi, vi, wi, ni, ti) = (
        om as int,
        winv as int,
        v as int,
        w as int,
        ninv as int,
        tau as int,
    );
    let l = poly_eval(c, tau) as int;
    let pt = pow(ti, n);
    // the coefficients are ninv * v^k
    assert(c.len() == n);
    assert forall|k: int| 0 <= k < c.len() implies #[trigger] c[k] == fmul(
        ninv,
        fpow(v, k as nat),
    ) by {
        assert(lagrange(n, i)[k as nat as int] == lagrange_coefficient(n, i, k as nat));
        lemma_fpow_swap(winv, k as nat, i);
    }
    lemma_geometric(c, ninv, v, tau, n);
    assert(c.take(n as int) =~= c);
    assert(congruent(l * (vi * ti - 1), ni * (pow(vi * ti, n) - 1)));
    // the generator times its inverse is one
    lemma_fpow_step(om, (n - 1) as nat);
    lemma_fmul_assoc(fpow(om, (n - 1) as nat), om, 1);
    lemma_results_reduced(om, (n - 1) as nat);
    lemma_finv_is(om, fpow(om, (n - 1) as nat));
    lemma_lift_fmul(om, winv, omi, wvi);
    lemma_small_mod(1, modulus());
    assert(congruent(omi * wvi, 1));
    // the point times v is one
    lemma_lift_fpow(om, i, omi);
    lemma_lift_fpow(winv, i, wvi);
    lemma_cong_mul(wi, pow(omi, i), vi, pow(wvi, i));
    lemma_pow_distributes(omi, wvi, i);
    lemma_cong_pow(omi * wvi, 1, i);
    lemma1_pow(i);
    assert(congruent(wi * vi, 1));
    // the n-th power of the generator's inverse is one, and so is that of v
    lemma_pow_distributes(omi, wvi, n);
    lemma_cong_pow(omi * wvi, 1, n);
    lemma1_pow(n);
    assert(congruent(pow(omi, n), 1)) by {
        assert(fpow(om, n) == 1);
    }
    lemma_cong_mul(pow(omi, n), 1, pow(wvi, n), pow(wvi, n));
    assert(1 * pow(wvi, n) == pow(wvi, n)) by (nonlinear_arith);
    assert(congruent(pow(wvi, n), 1));
    lemma_cong_pow(vi, pow(wvi, i), n);
    lemma_pow_multiplies(wvi, i, n);
    lemma_pow_multiplies(wvi, n, i);
    assert(i * n == n * i) by (nonlinear_arith);
    lemma_cong_pow(pow(wvi, n), 1, i);
    assert(congruent(pow(vi, n), 1));
    // (v tau)^n is tau^n
    lemma_pow_distributes(vi, ti, n);
    lemma_cong_mul(pow(vi, n), 1, pt, pt);
    assert(1 * pt == pt) by (nonlinear_arith);
    lemma_cong_add(pow(vi * ti, n), pt, 1, 1);
    lemma_cong_mul(ni, ni, pow(vi * ti, n) - 1, pt - 1);
    assert(congruent(l * (vi * ti - 1), ni * (pt - 1)));
    // times the point
    lemma_cong_mul(wi, wi, l * (vi * ti - 1), ni * (pt - 1));
    assert(wi * (l * (vi * ti - 1)) == l * ((wi * vi) * ti - wi)) by (nonlinear_arith);
    lemma_cong_mul(wi * vi, 1, ti, ti);
    lemma_cong_add((wi * vi) * ti, 1 * ti, wi, wi);
    lemma_cong_mul(l, l, (wi * vi) * ti - wi, 1 * ti - wi);
    assert(l * (1 * ti - wi) == l * (ti - wi)) by (nonlinear_arith);
    assert(wi * (ni * (pt - 1)) == ni * wi * (pt - 1)) by (nonlinear_arith);
}

/// The transform of the shifted commitments at a point of the domain is the
/// quotient of the table polynomial by `x - tau` there: the table's value at
/// the position is that quotient times the point less `tau`, plus the table
/// polynomial's value at `tau`.
pub proof fn lemma_table_quotient(n: nat, table: Seq<nat>, tau: nat, i: nat)
    requires
        i < n,
        table_facts(n, table),
    ensures
        congruent(
            table[i as int] as int,
            poly_eval(shifted_commitments(interpolation(n, table), tau), domain_point(n, i)) * (
            domain_point(n, i) - tau) + poly_eval(interpolation(n, table), tau),
        ),
{
    let tc = interpolation(n, table);
    let w = domain_point(n, i);
    let sh = shifted_commitments(tc, tau);
    let lq = linear_quotient(tc, tau);
    let q = poly_eval(sh, w);
    let tt = poly_eval(tc, tau);
    // the shifted commitments are the quotient by x - tau, with one zero more
    assert(sh =~= padded(lq, n)) by {
        assert(tc.len() == n);
        assert(tc.skip(n as int).len() == 0);
        assert(poly_eval(tc.skip(n as int), tau) == 0);
    }
    lemma_eval_padded(lq, n, w);
    lemma_division(tc, tau, w);
    assert(poly_eval(tc, w) == table[i as int]);
    lemma_lift_fsub(w, tau, w as int, tau as int);
    lemma_lift_fmul(q, fsub(w, tau), q as int, w - tau);
    lemma_lift_fadd(fmul(q, fsub(w, tau)), tt, q * (w - tau), tt as int);
}

/// What is cached for a table position: the cached quotient, times the
/// trapdoor less the position's point `w`, is the table polynomial's value at
/// the trapdoor less the table's value at the position, times `w / n`. So
/// the cached element is the commitment to `(T(x) - T(w)) / (x - w)`, scaled
/// by `w / n`.
pub proof fn lemma_cached_quotient_is_quotient(n: nat, table: Seq<nat>, tau: nat, i: nat)
    requires
        i < n,
        table_facts(n, table),
    ensures
        fmul(cached_quotient(n, table, tau, i), fsub(tau, domain_point(n, i))) == fmul(
            fmul(domain_point(n, i), finv(n)),
            fsub(poly_eval(interpolation(n, table), tau), table[i as int]),
        ),
{
    let tc = interpolation(n, table);
    let w = domain_point(n, i);
    let ninv = finv(n);
    let q = poly_eval(shifted_commitments(tc, tau), w);
    let tt = poly_eval(tc, tau);
    let t_i = table[i as int];
    let cq = cached_quotient(n, table, tau, i);
    let (qi, wi, ni, ti, tti, tii) = (
        q as int,
        w as int,
        ninv as int,
        tau as int,
        tt as int,
        t_i as int,
    );
    lemma_table_quotient(n, table, tau, i);
    // left: (q (w ninv)) (tau - w)
    lemma_lift_fmul(w, ninv, wi, ni);
    lemma_lift_fmul(q, fmul(w, ninv), qi, wi * ni);
    lemma_lift_fsub(tau, w, ti, wi);
    lemma_lift_fmul(cq, fsub(tau, w), qi * (wi * ni), ti - wi);
    // right: (w ninv) (T(tau) - (q (w - tau) + T(tau)))
    lemma_lift_fsub(tt, t_i, tti, qi * (wi - ti) + tti);
    lemma_lift_fmul(fmul(w, ninv), fsub(tt, t_i), wi * ni, tti - (qi * (wi - ti) + tti));
    assert((qi * (wi * ni)) * (ti - wi) == (wi * ni) * (tti - (qi * (wi - ti) + tti)))
        by (nonlinear_arith);
    lemma_results_reduced(cq, fsub(tau, w));
    lemma_results_reduced(fmul(w, ninv), fsub(tt, t_i));
    lemma_congruent_reduced(
        fmul(cq, fsub(tau, w)),
        fmul(fmul(w, ninv), fsub(tt, t_i)),
    );
}

/// The cached quotient of a table position is the quotient it is cached
/// for: the value of the table polynomial at the trapdoor, times that of the
/// position's Lagrange polynomial, is the table's value at the position
/// times that, plus the vanishing polynomial's value times the cached
/// quotient.
pub proof fn lemma_quotient_identity(n: nat, table: Seq<nat>, tau: nat, i: nat)
    requires
        i < n,
        domain_facts(n),
        table_facts(n, table),
    ensures
        fmul(poly_eval(interpolation(n, table), tau), poly_eval(lagrange(n, i), tau)) == fadd(
            fmul(table[i as int], poly_eval(lagrange(n, i), tau)),
            fmul(fsub(fpow(tau, n), 1), cached_quotient(n, table, tau, i)),
        ),
{
    let tc = interpolation(n, table);
    let w = domain_point(n, i);
    let sh = shifted_commitments(tc, tau);
    let ninv = finv(n);
    let l = poly_eval(lagrange(n, i), tau);
    let tt = poly_eval(tc, tau);
    let t_i = table[i as int];
    let z2 = fsub(fpow(tau, n), 1);
    let q = poly_eval(sh, w);
    let cq = cached_quotient(n, table, tau, i);
    let (li, tti, tii, wi, ni, ti, qi) = (
        l as int,
        tt as int,
        t_i as int,
        w as int,
        ninv as int,
        tau as int,
        q as int,
    );
    let pt = pow(ti, n);
    lemma_table_quotient(n, table, tau, i);
    assert(congruent(tii, qi * (wi - ti) + tti));
    // the closed form of the Lagrange polynomial
    lemma_lagrange_closed(n, i, tau);
    let a = li * (ti - wi);
    let b = ni * wi * (pt - 1);
    assert(congruent(a, b));
    lemma_cong_mul(qi, qi, a, b);
    // the left side
    lemma_lift_fmul(tt, l, tti, li);
    // the right side
    lemma_cong_mul(tii, qi * (wi - ti) + tti, li, li);
    lemma_lift_fmul(t_i, l, tii, li);
    lemma_lift_fpow(tau, n, ti);
    lemma_lift_fsub(fpow(tau, n), 1, pt, 1int);
    lemma_lift_fmul(w, ninv, wi, ni);
    lemma_lift_fmul(q, fmul(w, ninv), qi, wi * ni);
    assert(cq == fmul(q, fmul(w, ninv)));
    lemma_lift_fmul(z2, cq, pt - 1, qi * (wi * ni));
    lemma_lift_fadd(
        fmul(t_i, l),
        fmul(z2, cq),
        (qi * (wi - ti) + tti) * li,
        (pt - 1) * (qi * (wi * ni)),
    );
    assert((qi * (wi - ti) + tti) * li + (pt - 1) * (qi * (wi * ni)) == (tti * li - qi * a) + qi
        * b) by (nonlinear_arith)
        requires
            a == li * (ti - wi),
            b == ni * wi * (pt - 1),
    ;
    lemma_cong_add(tti * li - qi * a, tti * li - qi * a, qi * b, qi * a);
    assert((tti * li - qi * a) + qi * a == tti * li);
    lemma_results_reduced(tt, l);
    lemma_results_reduced(fmul(t_i, l), fmul(z2, cq));
    lemma_congruent_reduced(fmul(tt, l), fadd(fmul(t_i, l), fmul(z2, cq)));
}

/// Inner products whose terms are the same are the same.
pub proof fn lemma_inner_product_terms(w: Seq<nat>, u: Seq<nat>, w2: Seq<nat>, u2: Seq<nat>)
    requires
        w.len() == w2.len(),
        forall|i: int| 0 <= i < w.len() ==> fmul(#[trigger] w[i], u[i]) == fmul(w2[i], u2[i]),
    ensures
        inner_product(w, u) == inner_product(w2, u2),
    decreases w.len(),
{
    if w.len() > 0 {
        let (d, d2) = (w.drop_last(), w2.drop_last());
        assert forall|i: int| 0 <= i < d.len() implies fmul(#[trigger] d[i], u[i]) == fmul(
            d2[i],
            u2[i],
        ) by {
            assert(d[i] == w[i] && d2[i] == w2[i]);
            assert(fmul(w[i], u[i]) == fmul(w2[i], u2[i]));
        }
        lemma_inner_product_terms(d, u, d2, u2);
        assert(fmul(w[w.len() - 1], u[w.len() - 1]) == fmul(w2[w.len() - 1], u2[w.len() - 1]));
    }
}

/// The inner product with `c * v[i]` is `c` times the inner product with
/// `v`.
pub proof fn lemma_inner_product_scaled(w: Seq<nat>, c: nat, v: Seq<nat>, s: Seq<nat>)
    requires
        forall|i: int| 0 <= i < w.len() ==> #[trigger] s[i] == fmul(c, v[i]),
    ensures
        inner_product(w, s) == fmul(c, inner_product(w, v)),
    decreases w.len(),
{
    lemma_inner_product_reduced(w, s);
    let xv = inner_product(w, v);
    lemma_results_reduced(c, xv);
    if w.len() == 0 {
        lemma_fmul_unit(c);
    } else {
        let d = w.drop_last();
        let k = w.len() - 1;
        lemma_inner_product_scaled(d, c, v, s);
        let yv = inner_product(d, v);
        let (wi, vi) = (w[k], v[k]);
        assert(s[k] == fmul(c, vi));
        assert(inner_product(w, s) == fadd(fmul(c, yv), fmul(wi, fmul(c, vi))));
        assert(xv == fadd(yv, fmul(wi, vi)));
        lemma_lift_fmul(c, yv, c as int, yv as int);
        lemma_lift_fmul(c, vi, c as int, vi as int);
        lemma_lift_fmul(wi, fmul(c, vi), wi as int, (c * vi) as int);
        lemma_lift_fadd(
            fmul(c, yv),
            fmul(wi, fmul(c, vi)),
            (c * yv) as int,
            (wi * (c * vi)) as int,
        );
        lemma_lift_fmul(wi, vi, wi as int, vi as int);
        lemma_lift_fadd(yv, fmul(wi, vi), yv as int, (wi * vi) as int);
        lemma_lift_fmul(c, xv, c as int, (yv + wi * vi) as int);
        assert(c * yv + wi * (c * vi) == c * (yv + wi * vi)) by (nonlinear_arith);
        lemma_congruent_reduced(inner_product(w, s), fmul(c, xv));
    }
}

/// A multiplicity is the quotient weight times the table value plus `beta`:
/// the term of a position in the commitment to `M` is its term in the
/// commitment to `A * (T + beta)`.
proof fn lemma_weight_term(count: nat, d: nat, t_i: nat, beta: nat, l: nat)
    requires
        d == fadd(t_i, beta),
        is_inverse(d, finv(d)),
    ensures
        fmul(count, l) == fmul(
            fmul(count, finv(d)),
            fadd(fmul(t_i, l), fmul(beta, l)),
        ),
{
    let inv = finv(d);
    let (ci, di, ii, tii, bi, li) = (
        count as int,
        d as int,
        inv as int,
        t_i as int,
        beta as int,
        l as int,
    );
    lemma_lift_fadd(t_i, beta, tii, bi);
    lemma_lift_fmul(d, inv, tii + bi, ii);
    lemma_small_mod(1, modulus());
    assert(congruent((tii + bi) * ii, 1));
    lemma_lift_fmul(count, l, ci, li);
    lemma_lift_fmul(count, inv, ci, ii);
    lemma_lift_fmul(t_i, l, tii, li);
    lemma_lift_fmul(beta, l, bi, li);
    lemma_lift_fadd(fmul(t_i, l), fmul(beta, l), tii * li, bi * li);
    lemma_lift_fmul(
        fmul(count, inv),
        fadd(fmul(t_i, l), fmul(beta, l)),
        ci * ii,
        tii * li + bi * li,
    );
    assert((ci * ii) * (tii * li + bi * li) == (ci * li) * ((tii + bi) * ii)) by (nonlinear_arith);
    lemma_cong_mul(ci * li, ci * li, (tii + bi) * ii, 1);
    assert((ci * li) * 1 == ci * li) by (nonlinear_arith);
    lemma_results_reduced(count, l);
    lemma_results_reduced(fmul(count, inv), fadd(fmul(t_i, l), fmul(beta, l)));
    lemma_congruent_reduced(
        fmul(count, l),
        fmul(fmul(count, inv), fadd(fmul(t_i, l), fmul(beta, l))),
    );
}

/// The proof that the prover makes passes the membership check, where the
/// preprocessed elements are those of the prover's table and each table
/// value with a multiplicity, plus `beta`, has its inverse.
pub proof fn lemma_membership_complete(
    beta: nat,
    gamma: nat,
    eta: nat,
    pre: PreprocessedElements,
    t: Seq<nat>,
    f: Seq<nat>,
)
    requires
        pre.encodes(t),
        forall|i: int|
            0 <= i < t.len() && multiplicities(t, f).contains_key(i as usize) ==> is_inverse(
                fadd(#[trigger] t[i], beta),
                finv(fadd(t[i], beta)),
            ),
    ensures
        membership_holds(
            beta,
            proof_values(beta, gamma, eta, pre, t, f),
            pre.com2_t_x@,
            pre.com2_vanishingpoly_big_n@,
        ),
{
    let phi = proof_values(beta, gamma, eta, pre, t, f);
    let n = pre.big_n as nat;
    let tau = pre.srs.tau();
    let m = multiplicities(t, f);
    let mw = multiplicity_weights(m, n);
    let aw = quotient_weights(m, t, beta);
    let lc = map_exponents(pre.com1_li_x@, n);
    let qc = map_exponents(pre.com1_qi@, n);
    let tt = pre.com2_t_x@;
    let z2 = pre.com2_vanishingpoly_big_n@;
    let tl = Seq::new(n, |i: int| fmul(t[i], lc[i]));
    let s1 = Seq::new(n, |i: int| fadd(tl[i], fmul(beta, lc[i])));
    let x = Seq::new(n, |i: int| fadd(tl[i], fmul(z2, qc[i])));
    let tlc = Seq::new(n, |i: int| fmul(tt, lc[i]));
    let (a, qa, mm) = (phi.com1_a, phi.com1_qa, phi.com1_m);
    let u = inner_product(aw, tl);
    assert(a == inner_product(aw, lc));
    assert(qa == inner_product(aw, qc));
    assert(mm == inner_product(mw, lc));
    lemma_inner_product_combination(aw, tl, beta, lc, s1);
    lemma_inner_product_combination(aw, tl, z2, qc, x);
    lemma_inner_product_scaled(aw, tt, lc, tlc);
    // the cached quotients are the quotients
    assert(x =~= tlc) by {
        assert forall|i: int| 0 <= i < n implies x[i] == tlc[i] by {
            let k = i as u64;
            assert(pre.com1_li_x@.contains_key(k));
            assert(pre.com1_qi@.contains_key(k));
            lemma_quotient_identity(n, t, tau, i as nat);
        }
    }
    // the multiplicities are the quotient weights times the table values
    // plus beta
    assert forall|i: int| 0 <= i < mw.len() implies fmul(#[trigger] mw[i], lc[i]) == fmul(
        aw[i],
        s1[i],
    ) by {
        if m.contains_key(i as usize) {
            lemma_weight_term(m[i as usize] as nat, fadd(t[i], beta), t[i], beta, lc[i]);
        } else {
            lemma_fmul_unit(lc[i]);
            lemma_fmul_unit(s1[i]);
        }
    }
    lemma_inner_product_terms(mw, lc, aw, s1);
    assert(fmul(tt, a) == fadd(u, fmul(z2, qa)));
    assert(mm == fadd(u, fmul(beta, a)));
    // the check
    let (ai, qi, ui, ti, zi, bi) = (
        a as int,
        qa as int,
        u as int,
        tt as int,
        z2 as int,
        beta as int,
    );
    lemma_lift_fmul(tt, a, ti, ai);
    lemma_lift_fmul(z2, qa, zi, qi);
    lemma_lift_fadd(u, fmul(z2, qa), ui, zi * qi);
    assert(congruent(ti * ai, ui + zi * qi));
    lemma_lift_fmul(beta, a, bi, ai);
    lemma_lift_fadd(u, fmul(beta, a), ui, bi * ai);
    lemma_lift_fmul(a, tt, ai, ti);
    lemma_lift_fmul(qa, z2, qi, zi);
    lemma_lift_fmul(a, beta, ai, bi);
    lemma_lift_fsub(mm, fmul(a, beta), ui + bi * ai, ai * bi);
    lemma_lift_fmul(fsub(mm, fmul(a, beta)), 1, (ui + bi * ai) - ai * bi, 1int);
    lemma_lift_fadd(
        fmul(qa, z2),
        fmul(fsub(mm, fmul(a, beta)), 1),
        qi * zi,
        ((ui + bi * ai) - ai * bi) * 1,
    );
    assert(qi * zi + ((ui + bi * ai) - ai * bi) * 1 == ui + zi * qi) by (nonlinear_arith);
    assert(ai * ti == ti * ai) by (nonlinear_arith);
    lemma_results_reduced(a, tt);
    lemma_results_reduced(fmul(qa, z2), fmul(fsub(mm, fmul(a, beta)), 1));
    lemma_congruent_reduced(
        fmul(a, tt),
        fadd(fmul(qa, z2), fmul(fsub(mm, fmul(a, beta)), 1)),
    );
}

} // verus!
