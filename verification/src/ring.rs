use crate::field::{fadd, fmul, fpow, fsub, modulus};
use vstd::arithmetic::div_mod::{
    lemma_add_mod_noop, lemma_mod_twice, lemma_mul_mod_noop, lemma_small_mod, lemma_sub_mod_noop,
};
use vstd::arithmetic::power::{lemma_pow_mod_noop, pow};
use vstd::prelude::*;

verus! {

/// Two integers stand for one element of the scalar field.
pub open spec fn congruent(a: int, b: int) -> bool {
    a % (modulus() as int) == b % (modulus() as int)
}

/// A sum in the field stands for the sum of what its summands stand for.
pub proof fn lemma_lift_fadd(a: nat, b: nat, ia: int, ib: int)
    requires
        congruent(a as int, ia),
        congruent(b as int, ib),
    ensures
        congruent(fadd(a, b) as int, ia + ib),
{
    let m = modulus() as int;
    lemma_mod_twice(a as int + b as int, m);
    lemma_add_mod_noop(a as int, b as int, m);
    lemma_add_mod_noop(ia, ib, m);
}

/// A difference in the field stands for the difference of what its terms
/// stand for.
pub proof fn lemma_lift_fsub(a: nat, b: nat, ia: int, ib: int)
    requires
        congruent(a as int, ia),
        congruent(b as int, ib),
    ensures
        congruent(fsub(a, b) as int, ia - ib),
{
    let m = modulus() as int;
    lemma_mod_twice(a as int - b as int, m);
    lemma_sub_mod_noop(a as int, b as int, m);
    lemma_sub_mod_noop(ia, ib, m);
}

/// A product in the field stands for the product of what its factors stand
/// for.
pub proof fn lemma_lift_fmul(a: nat, b: nat, ia: int, ib: int)
    requires
        congruent(a as int, ia),
        congruent(b as int, ib),
    ensures
        congruent(fmul(a, b) as int, ia * ib),
{
    let m = modulus() as int;
    lemma_mod_twice((a * b) as int, m);
    lemma_mul_mod_noop(a as int, b as int, m);
    lemma_mul_mod_noop(ia, ib, m);
}

/// A power in the field stands for the power of what its base stands for.
pub proof fn lemma_lift_fpow(b: nat, e: nat, ib: int)
    requires
        congruent(b as int, ib),
    ensures
        congruent(fpow(b, e) as int, pow(ib, e)),
{
    let m = modulus() as int;
    lemma_mod_twice(pow(b as int, e), m);
    lemma_pow_mod_noop(b as int, e, m);
    lemma_pow_mod_noop(ib, e, m);
}

/// Sums of congruent integers are congruent.
pub proof fn lemma_cong_add(a: int, a2: int, b: int, b2: int)
    requires
        congruent(a, a2),
        congruent(b, b2),
    ensures
        congruent(a + b, a2 + b2),
        congruent(a - b, a2 - b2),
{
    let m = modulus() as int;
    lemma_add_mod_noop(a, b, m);
    lemma_add_mod_noop(a2, b2, m);
    lemma_sub_mod_noop(a, b, m);
    lemma_sub_mod_noop(a2, b2, m);
}

/// Products of congruent integers are congruent.
pub proof fn lemma_cong_mul(a: int, a2: int, b: int, b2: int)
    requires
        congruent(a, a2),
        congruent(b, b2),
    ensures
        congruent(a * b, a2 * b2),
{
    let m = modulus() as int;
    lemma_mul_mod_noop(a, b, m);
    lemma_mul_mod_noop(a2, b2, m);
}

/// Powers of congruent integers are congruent.
pub proof fn lemma_cong_pow(a: int, a2: int, e: nat)
    requires
        congruent(a, a2),
    ensures
        congruent(pow(a, e), pow(a2, e)),
{
    let m = modulus() as int;
    lemma_pow_mod_noop(a, e, m);
    lemma_pow_mod_noop(a2, e, m);
}

/// Reduced numbers that stand for one element are one number.
pub proof fn lemma_congruent_reduced(x: nat, y: nat)
    requires
        x < modulus(),
        y < modulus(),
        congruent(x as int, y as int),
    ensures
        x == y,
{
    lemma_small_mod(x, modulus());
    lemma_small_mod(y, modulus());
}

} // verus!
