use ark_bls12_381::Fr;
use ark_ff::{BigInt, Field, PrimeField};
use ark_std::UniformRand;
use vstd::arithmetic::div_mod::*;
use vstd::arithmetic::mul::*;
use vstd::arithmetic::power::*;
use vstd::prelude::*;

verus! {

/// The prime order `r` of the scalar field of BLS12-381. The two source groups
/// and the target group of the pairing have this order too.
pub open spec fn modulus() -> nat {
    52435875175126190479447740508185965837690552500527637822603658699938581184513nat
}

/// Sum in the scalar field.
pub open spec fn fadd(a: nat, b: nat) -> nat {
    (a + b) % modulus()
}

/// Difference in the scalar field.
pub open spec fn fsub(a: nat, b: nat) -> nat {
    ((a as int - b as int) % (modulus() as int)) as nat
}

/// Product in the scalar field.
pub open spec fn fmul(a: nat, b: nat) -> nat {
    (a * b) % modulus()
}

/// `e`-th power in the scalar field.
pub open spec fn fpow(b: nat, e: nat) -> nat {
    (pow(b as int, e) % (modulus() as int)) as nat
}

/// `r` is the reduced multiplicative inverse of `a`.
pub open spec fn is_inverse(a: nat, r: nat) -> bool {
    r < modulus() && fmul(a, r) == 1
}

/// The multiplicative inverse of `a` in the scalar field, where `a` has one.
pub open spec fn finv(a: nat) -> nat {
    choose|r: nat| is_inverse(a, r)
}

/// The number that four little-endian 64-bit limbs stand for.
pub open spec fn limbs_value(l: Seq<u64>) -> nat {
    (l[0] as nat + l[1] as nat * 0x1_0000_0000_0000_0000nat + l[2] as nat
        * 0x1_0000_0000_0000_0000_0000_0000_0000_0000nat + l[3] as nat
        * 0x1_0000_0000_0000_0000_0000_0000_0000_0000_0000_0000_0000_0000nat) as nat
}

/// The value of the scalar that has the key `k`.
pub open spec fn key_value(k: (u64, u64, u64, u64)) -> nat {
    limbs_value(seq![k.3, k.2, k.1, k.0])
}

/// Two keys of one value are one key.
pub proof fn lemma_key_injective(a: (u64, u64, u64, u64), b: (u64, u64, u64, u64))
    requires
        key_value(a) == key_value(b),
    ensures
        a == b,
{
    lemma_limbs_injective(seq![a.3, a.2, a.1, a.0], seq![b.3, b.2, b.1, b.0]);
    assert(seq![a.3, a.2, a.1, a.0][0] == seq![b.3, b.2, b.1, b.0][0]);
    assert(seq![a.3, a.2, a.1, a.0][1] == seq![b.3, b.2, b.1, b.0][1]);
    assert(seq![a.3, a.2, a.1, a.0][2] == seq![b.3, b.2, b.1, b.0][2]);
    assert(seq![a.3, a.2, a.1, a.0][3] == seq![b.3, b.2, b.1, b.0][3]);
}

/// The values of a sequence of scalars.
pub open spec fn values(s: Seq<Scalar>) -> Seq<nat> {
    s.map_values(|x: Scalar| x@)
}

/// Adding zero changes nothing but reduces.
pub proof fn lemma_fadd_zero(a: nat)
    ensures
        fadd(a, 0) == a % modulus(),
        fadd(0, a) == a % modulus(),
        a < modulus() ==> fadd(a, 0) == a && fadd(0, a) == a,
{
    if a < modulus() {
        lemma_small_mod(a, modulus());
    }
}

/// Multiplying by zero gives zero, and by one changes nothing but reduces.
pub proof fn lemma_fmul_unit(a: nat)
    ensures
        fmul(a, 0) == 0,
        fmul(0, a) == 0,
        fmul(a, 1) == a % modulus(),
        fmul(1, a) == a % modulus(),
        a < modulus() ==> fmul(a, 1) == a && fmul(1, a) == a,
{
    assert(a * 0 == 0 && 0 * a == 0 && a * 1 == a && 1 * a == a) by (nonlinear_arith);
    if a < modulus() {
        lemma_small_mod(a, modulus());
    }
}

/// Multiplication in the scalar field is commutative and associative.
pub proof fn lemma_fmul_assoc(a: nat, b: nat, c: nat)
    ensures
        fmul(a, b) == fmul(b, a),
        fmul(fmul(a, b), c) == fmul(a, fmul(b, c)),
        fmul(fmul(a, b), c) == (a * b * c) % modulus(),
{
    let m = modulus() as int;
    assert(a * b == b * a) by (nonlinear_arith);
    assert((a * b) * c == a * (b * c)) by (nonlinear_arith);
    lemma_mul_mod_noop_left((a * b) as int, c as int, m);
    lemma_mul_mod_noop_right(a as int, (b * c) as int, m);
}

/// Sums, differences, products and powers are reduced.
pub proof fn lemma_results_reduced(a: nat, b: nat)
    ensures
        fadd(a, b) < modulus(),
        fsub(a, b) < modulus(),
        fmul(a, b) < modulus(),
        fpow(a, b) < modulus(),
{
    let m = modulus() as int;
    lemma_mod_bound(a as int + b as int, m);
    lemma_mod_bound(a as int - b as int, m);
    lemma_mod_bound((a * b) as int, m);
    lemma_mod_bound(pow(a as int, b), m);
}

/// Negating twice gives the number back, reduced.
pub proof fn lemma_fsub_twice(a: nat)
    ensures
        fsub(0, fsub(0, a)) == a % modulus(),
{
    let m = modulus() as int;
    lemma_sub_mod_noop_right(0, -(a as int), m);
}

/// Powers in the scalar field: the power zero is one, and each further power
/// is one more factor.
pub proof fn lemma_fpow_step(b: nat, e: nat)
    ensures
        fpow(b, 0) == 1,
        fpow(b, e + 1) == fmul(fpow(b, e), b),
        fpow(b, e) < modulus(),
        fpow(b % modulus(), e) == fpow(b, e),
{
    let m = modulus() as int;
    lemma_pow0(b as int);
    reveal(pow);
    assert(pow(b as int, e + 1) == b * pow(b as int, e));
    lemma_pow_positive_or_zero(b, e);
    lemma_mul_mod_noop_right(b as int, pow(b as int, e), m);
    assert(b * (pow(b as int, e) % m) == (pow(b as int, e) % m) * b) by (nonlinear_arith);
    lemma_pow_mod_noop(b as int, e, m);
}

/// A power of a natural number is not negative.
pub proof fn lemma_pow_positive_or_zero(b: nat, e: nat)
    ensures
        pow(b as int, e) >= 0,
    decreases e,
{
    reveal(pow);
    if e > 0 {
        lemma_pow_positive_or_zero(b, (e - 1) as nat);
        assert(b * pow(b as int, (e - 1) as nat) >= 0) by (nonlinear_arith)
            requires
                b >= 0,
                pow(b as int, (e - 1) as nat) >= 0,
        ;
    }
}

/// Four limbs are determined by the number they stand for.
pub proof fn lemma_limbs_injective(a: Seq<u64>, b: Seq<u64>)
    requires
        a.len() == 4,
        b.len() == 4,
        limbs_value(a) == limbs_value(b),
    ensures
        a =~= b,
{
    let base = 0x1_0000_0000_0000_0000int;
    let (va, vb) = (limbs_value(a) as int, limbs_value(b) as int);
    let qa1 = a[1] as int + a[2] as int * base + a[3] as int * base * base;
    let qb1 = b[1] as int + b[2] as int * base + b[3] as int * base * base;
    lemma_fundamental_div_mod_converse(va, base, qa1, a[0] as int);
    lemma_fundamental_div_mod_converse(vb, base, qb1, b[0] as int);
    let qa2 = a[2] as int + a[3] as int * base;
    let qb2 = b[2] as int + b[3] as int * base;
    lemma_fundamental_div_mod_converse(qa1, base, qa2, a[1] as int);
    lemma_fundamental_div_mod_converse(qb1, base, qb2, b[1] as int);
    lemma_fundamental_div_mod_converse(qa2, base, a[3] as int, a[2] as int);
    lemma_fundamental_div_mod_converse(qb2, base, b[3] as int, b[2] as int);
}

/// An inverse, where there is one, is unique.
pub proof fn lemma_inverse_unique(a: nat, r: nat, s: nat)
    requires
        is_inverse(a, r),
        is_inverse(a, s),
    ensures
        r == s,
{
    let m = modulus() as int;
    let (ai, ri, si) = (a as int, r as int, s as int);
    // r = r * (a * s) = (r * a) * s = s, all modulo the order
    assert((ri * ((ai * si) % m)) % m == (ri * (ai * si)) % m) by {
        lemma_mul_mod_noop_right(ri, ai * si, m);
    }
    assert((((ri * ai) % m) * si) % m == ((ri * ai) * si) % m) by {
        lemma_mul_mod_noop_left(ri * ai, si, m);
    }
    assert(ri * (ai * si) == (ri * ai) * si) by {
        lemma_mul_is_associative(ri, ai, si);
    }
    assert(ri * ai == ai * ri) by {
        lemma_mul_is_commutative(ri, ai);
    }
    assert((ai * si) % m == 1);
    assert((ai * ri) % m == 1);
    assert(ri * 1 == ri && 1 * si == si);
    assert(ri % m == ri) by {
        lemma_small_mod(r, modulus());
    }
    assert(si % m == si) by {
        lemma_small_mod(s, modulus());
    }
}

/// The inverse that `finv` names is the only one.
pub proof fn lemma_finv_is(a: nat, r: nat)
    requires
        is_inverse(a, r),
    ensures
        finv(a) == r,
        fmul(a, finv(a)) == 1,
{
    lemma_inverse_unique(a, r, finv(a));
}

/// An element of the scalar field of BLS12-381, held as the four little-endian
/// limbs of its least non-negative representative.
#[derive(Clone, Copy, Debug, PartialEq, Eq)]
pub struct Scalar {
    limbs: [u64; 4],
}

impl View for Scalar {
    type V = nat;

    closed spec fn view(&self) -> nat {
        limbs_value(self.limbs@)
    }
}

impl Scalar {
    /// The limbs stand for a number below the field's order. Every scalar
    /// that the program holds is so.
    #[verifier::type_invariant]
    pub closed spec fn reduced(self) -> bool {
        limbs_value(self.limbs@) < modulus()
    }

    /// A reduced scalar's value is below the field's order.
    pub proof fn lemma_reduced(self)
        requires
            self.reduced(),
        ensures
            self@ < modulus(),
    {
    }

    /// The scalar that stands for `x`.
    pub fn from_u64(x: u64) -> (r: Scalar)
        ensures
            r@ == x,
    {
        Scalar { limbs: [x, 0, 0, 0] }
    }

    /// The scalar with the given limbs, which stand for a reduced number.
    pub(crate) fn from_reduced_limbs(limbs: [u64; 4]) -> (r: Scalar)
        requires
            limbs_value(limbs@) < modulus(),
        ensures
            r@ == limbs_value(limbs@),
    {
        Scalar { limbs }
    }

    /// The scalar with the given little-endian limbs, where they stand for a
    /// number below the field's order.
    pub fn from_limbs(limbs: [u64; 4]) -> (r: Option<Scalar>)
        ensures
            r is Some <==> limbs_value(limbs@) < modulus(),
            r matches Some(s) ==> s@ == limbs_value(limbs@),
    {
        let below = if limbs[3] != 0x73eda753299d7d48 {
            limbs[3] < 0x73eda753299d7d48
        } else if limbs[2] != 0x3339d80809a1d805 {
            limbs[2] < 0x3339d80809a1d805
        } else if limbs[1] != 0x53bda402fffe5bfe {
            limbs[1] < 0x53bda402fffe5bfe
        } else {
            limbs[0] < 0xffffffff00000001
        };
        if below {
            Some(Scalar { limbs })
        } else {
            None
        }
    }

    /// The additive identity.
    pub fn zero() -> (r: Scalar)
        ensures
            r@ == 0,
    {
        Scalar { limbs: [0, 0, 0, 0] }
    }

    /// The multiplicative identity.
    pub fn one() -> (r: Scalar)
        ensures
            r@ == 1,
    {
        Scalar { limbs: [1, 0, 0, 0] }
    }

    /// The four little-endian limbs of the reduced representative.
    pub fn to_limbs(&self) -> (r: [u64; 4])
        ensures
            limbs_value(r@) == self@,
            self@ < modulus(),
    {
        proof {
            use_type_invariant(self);
        }
        self.limbs
    }

    /// The limbs, highest first: a key by which scalars are found again, and
    /// whose order is that of the values.
    pub closed spec fn spec_key(&self) -> (u64, u64, u64, u64) {
        (self.limbs@[3], self.limbs@[2], self.limbs@[1], self.limbs@[0])
    }

    /// The key of the scalar.
    pub fn key(&self) -> (k: (u64, u64, u64, u64))
        ensures
            k == self.spec_key(),
            key_value(k) == self@,
    {
        (self.limbs[3], self.limbs[2], self.limbs[1], self.limbs[0])
    }

    /// Whether two scalars are the same field element.
    pub fn equals(&self, other: &Scalar) -> (r: bool)
        ensures
            r == (self@ == other@),
    {
        proof {
            if self@ == other@ {
                lemma_limbs_injective(self.limbs@, other.limbs@);
            }
        }
        self.limbs[0] == other.limbs[0] && self.limbs[1] == other.limbs[1] && self.limbs[2]
            == other.limbs[2] && self.limbs[3] == other.limbs[3]
    }

    /// Whether the scalar is the additive identity.
    pub fn is_zero(&self) -> (r: bool)
        ensures
            r == (self@ == 0),
    {
        self.limbs[0] == 0 && self.limbs[1] == 0 && self.limbs[2] == 0 && self.limbs[3] == 0
    }

    /// Sum of two scalars.
    pub fn add(&self, other: &Scalar) -> (r: Scalar)
        ensures
            r@ == fadd(self@, other@),
    {
        fr_add(self, other)
    }

    /// Difference of two scalars.
    pub fn sub(&self, other: &Scalar) -> (r: Scalar)
        ensures
            r@ == fsub(self@, other@),
    {
        fr_sub(self, other)
    }

    /// Product of two scalars.
    pub fn mul(&self, other: &Scalar) -> (r: Scalar)
        ensures
            r@ == fmul(self@, other@),
    {
        fr_mul(self, other)
    }

    /// The multiplicative inverse, or `NotInvertible` for zero.
    pub fn inverse(&self) -> (r: Result<Scalar, crate::error::CqError>)
        ensures
            self@ == 0 <==> r == Err::<Scalar, crate::error::CqError>(
                crate::error::CqError::NotInvertible,
            ),
            r matches Ok(inv) ==> is_inverse(self@, inv@) && inv@ == finv(self@),
            self@ != 0 ==> r is Ok,
    {
        match fr_inverse(self) {
            Some(inv) => {
                proof {
                    lemma_finv_is(self@, inv@);
                }
                Ok(inv)
            },
            None => Err(crate::error::CqError::NotInvertible),
        }
    }
}

/// The scalars that stand for the given numbers.
pub fn scalars_from(numbers: &Vec<u64>) -> (r: Vec<Scalar>)
    ensures
        r.len() == numbers.len(),
        forall|i: int| 0 <= i < r.len() ==> (#[trigger] r[i])@ == numbers[i],
{
    let mut r: Vec<Scalar> = Vec::new();
    let mut i: usize = 0;
    while i < numbers.len()
        invariant
            i <= numbers.len(),
            r.len() == i,
            forall|j: int| 0 <= j < i ==> (#[trigger] r[j])@ == numbers[j],
        decreases numbers.len() - i,
    {
        r.push(Scalar::from_u64(numbers[i]));
        i += 1;
    }
    r
}

/// Calls `+` of `ark_ff::Fp` on the two field elements. The result is the sum
/// modulo the field's order.
#[verifier::external_body]
fn fr_add(a: &Scalar, b: &Scalar) -> (r: Scalar)
    ensures
        r@ == fadd(a@, b@),
{
    let (x, y) = (Fr::from(BigInt::new(a.limbs)), Fr::from(BigInt::new(b.limbs)));
    Scalar { limbs: (x + y).into_bigint().0 }
}

/// Calls `-` of `ark_ff::Fp` on the two field elements. The result is the
/// difference modulo the field's order.
#[verifier::external_body]
fn fr_sub(a: &Scalar, b: &Scalar) -> (r: Scalar)
    ensures
        r@ == fsub(a@, b@),
{
    let (x, y) = (Fr::from(BigInt::new(a.limbs)), Fr::from(BigInt::new(b.limbs)));
    Scalar { limbs: (x - y).into_bigint().0 }
}

/// Calls `*` of `ark_ff::Fp` on the two field elements. The result is the
/// product modulo the field's order.
#[verifier::external_body]
fn fr_mul(a: &Scalar, b: &Scalar) -> (r: Scalar)
    ensures
        r@ == fmul(a@, b@),
{
    let (x, y) = (Fr::from(BigInt::new(a.limbs)), Fr::from(BigInt::new(b.limbs)));
    Scalar { limbs: (x * y).into_bigint().0 }
}

/// Calls `ark_ff::Field::inverse`. It gives nothing for zero, and for any other
/// element the one whose product with it is one.
#[verifier::external_body]
fn fr_inverse(a: &Scalar) -> (r: Option<Scalar>)
    ensures
        r is None <==> a@ == 0,
        r matches Some(inv) ==> is_inverse(a@, inv@),
{
    Fr::from(BigInt::new(a.limbs)).inverse().map(|x| Scalar { limbs: x.into_bigint().0 })
}

/// Draws `count` field elements, one after the other, from one generator of
/// `ark_std::test_rng`, each with `ark_std::UniformRand::rand`. Nothing is
/// known of the values drawn.
#[verifier::external_body]
pub(crate) fn sample_scalars(count: usize) -> (r: Vec<Scalar>)
    ensures
        r.len() == count,
{
    let mut rng = ark_std::test_rng();
    (0..count).map(|_| Scalar { limbs: Fr::rand(&mut rng).into_bigint().0 }).collect()
}

} // verus!
