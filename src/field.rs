//! The base field of the proof system and the interface shared by every field in which
//! constraints are evaluated.
use vstd::arithmetic::div_mod::{
    lemma_div_denominator, lemma_mul_mod_noop_left, lemma_mul_mod_noop_right,
};
use vstd::arithmetic::power::{lemma_pow_adds, lemma_pow_multiplies, pow};
use vstd::arithmetic::power2::{lemma_pow2_unfold, pow2};
use vstd::prelude::*;

verus! {

/// Order of the base field: 2^64 - 2^32 + 1.
pub const MODULUS: u64 = 18446744069414584321;

/// A generator of the multiplicative group of the base field.
pub const GENERATOR_VALUE: u64 = 7;

/// The largest k such that the multiplicative group holds a subgroup of order 2^k.
pub const TWO_ADICITY: u32 = 32;

/// The modulus as a mathematical integer.
pub open spec fn p() -> nat {
    MODULUS as nat
}

/// An element of the prime field of order `MODULUS`, kept in canonical form.
#[derive(Clone, Copy, Debug, PartialEq, Eq, Structural)]
pub struct BaseElement {
    value: u64,
}

impl View for BaseElement {
    type V = nat;

    /// The residue that this element stands for.
    closed spec fn view(&self) -> nat {
        (self.value as nat) % p()
    }
}

/// The element whose residue is `v mod MODULUS`.
pub closed spec fn elem(v: int) -> BaseElement {
    BaseElement { value: (v % (p() as int)) as u64 }
}

/// Residue of `a` raised to the power `n`.
pub open spec fn pow_mod(a: nat, n: nat) -> nat {
    (pow(a as int, n) % (p() as int)) as nat
}

pub broadcast proof fn lemma_elem_view(v: int)
    ensures
        #[trigger] elem(v)@ == v % (p() as int),
{
}

pub broadcast proof fn lemma_view_bound(a: BaseElement)
    ensures
        #[trigger] a@ < p(),
{
}

proof fn lemma_product_fits(a: u64, b: u64)
    ensures
        (a as int) * (b as int) < 0x1_0000_0000_0000_0000_0000_0000_0000_0000,
{
    assert((a as int) * (b as int) <= (a as int) * 0xffff_ffff_ffff_ffff) by (nonlinear_arith)
        requires
            b <= 0xffff_ffff_ffff_ffff,
            a >= 0,
    ;
    assert((a as int) * 0xffff_ffff_ffff_ffff <= 0xffff_ffff_ffff_ffff * 0xffff_ffff_ffff_ffff)
        by (nonlinear_arith)
        requires
            a <= 0xffff_ffff_ffff_ffff,
    ;
}

/// Two integers with the same residue name the same element.
pub proof fn lemma_elem_eq(x: int, y: int)
    requires
        x % (p() as int) == y % (p() as int),
    ensures
        elem(x) == elem(y),
{
}

pub broadcast group group_field {
    lemma_elem_view,
    lemma_view_bound,
}

impl BaseElement {
    #[verifier::type_invariant]
    spec fn canonical(self) -> bool {
        self.value < MODULUS
    }

    proof fn lemma_is_elem(self)
        requires
            self.canonical(),
        ensures
            self == elem(self@ as int),
            self@ == self.value,
    {
        vstd::arithmetic::div_mod::lemma_small_mod(self.value as nat, p());
    }

    /// Builds the element `v mod MODULUS`.
    pub fn new(v: u64) -> (r: BaseElement)
        ensures
            r == elem(v as int),
            r@ == v % MODULUS,
    {
        BaseElement { value: v % MODULUS }
    }

    /// Builds the element `v mod MODULUS` from a 128-bit integer.
    pub fn from_u128(v: u128) -> (r: BaseElement)
        ensures
            r == elem(v as int),
            r@ == v % (MODULUS as u128),
    {
        BaseElement { value: (v % (MODULUS as u128)) as u64 }
    }

    /// The canonical integer representative of this element.
    pub fn as_int(self) -> (r: u64)
        ensures
            r == self@,
    {
        proof {
            use_type_invariant(&self);
            self.lemma_is_elem();
        }
        self.value
    }

    /// The multiplicative generator of the field.
    pub fn generator() -> (r: BaseElement)
        ensures
            r == elem(GENERATOR_VALUE as int),
            r@ == GENERATOR_VALUE,
    {
        BaseElement { value: GENERATOR_VALUE }
    }

    /// Raises this element to the power `n` by repeated squaring.
    pub fn exp(self, n: u64) -> (r: BaseElement)
        ensures
            r@ == pow_mod(self@, n as nat),
            r == elem(pow(self@ as int, n as nat)),
    {
        proof {
            use_type_invariant(&self);
        }
        let ghost m = p() as int;
        let mut acc: u64 = 1;
        let mut base: u64 = self.value;
        let mut e: u64 = n;
        while e > 0
            invariant
                acc < MODULUS,
                base < MODULUS,
                (acc * pow(base as int, e as nat)) % m == pow(self@ as int, n as nat) % m,
                m == MODULUS,
                self@ == self.value,
            decreases e,
        {
            let ghost e0 = e as nat;
            let ghost b0 = base as int;
            let ghost a0 = acc as int;
            proof {
                lemma_pow_multiplies(b0, 2, e0 / 2);
                lemma_pow_adds(b0, 2 * (e0 / 2), e0 % 2);
                assert(pow(b0, 2) == b0 * b0) by {
                    vstd::arithmetic::power::lemma_square_is_pow2(b0);
                }
                assert(pow(b0, 1) == b0) by {
                    vstd::arithmetic::power::lemma_pow1(b0);
                }
                assert(pow(b0, 0) == 1) by {
                    vstd::arithmetic::power::lemma_pow0(b0);
                }
                assert(2 * (e0 / 2) + e0 % 2 == e0);
                vstd::arithmetic::power::lemma_pow_mod_noop(b0 * b0, e0 / 2, m);
            }
            proof {
                lemma_product_fits(base, base);
                lemma_product_fits(acc, base);
            }
            let sq: u128 = (base as u128) * (base as u128);
            let base2: u64 = (sq % (MODULUS as u128)) as u64;
            if e % 2 == 1 {
                let pr: u128 = (acc as u128) * (base as u128);
                let acc2: u64 = (pr % (MODULUS as u128)) as u64;
                proof {
                    let q = pow(b0 * b0, e0 / 2);
                    let qm = pow((b0 * b0) % m, e0 / 2);
                    assert(pow(b0, e0) == q * b0) by (nonlinear_arith)
                        requires
                            pow(b0, e0) == pow(b0, 2 * (e0 / 2)) * pow(b0, e0 % 2),
                            pow(b0, 2 * (e0 / 2)) == pow(pow(b0, 2), e0 / 2),
                            pow(b0, 2) == b0 * b0,
                            pow(b0, e0 % 2) == b0,
                            q == pow(b0 * b0, e0 / 2),
                    ;
                    // acc2 * qm ≡ (a0 * b0) * q ≡ a0 * pow(b0, e0)
                    lemma_mul_mod_noop_left(a0 * b0, qm, m);
                    lemma_mul_mod_noop_right(a0 * b0, qm, m);
                    lemma_mul_mod_noop_right(a0 * b0, q, m);
                    assert((a0 * b0) * q == a0 * (q * b0)) by (nonlinear_arith);
                    assert(acc2 as int == (a0 * b0) % m);
                    assert(base2 as int == (b0 * b0) % m);
                }
                acc = acc2;
            } else {
                proof {
                    let q = pow(b0 * b0, e0 / 2);
                    let qm = pow((b0 * b0) % m, e0 / 2);
                    assert(pow(b0, e0) == q) by (nonlinear_arith)
                        requires
                            pow(b0, e0) == pow(b0, 2 * (e0 / 2)) * pow(b0, e0 % 2),
                            pow(b0, 2 * (e0 / 2)) == pow(pow(b0, 2), e0 / 2),
                            pow(b0, 2) == b0 * b0,
                            pow(b0, e0 % 2) == 1,
                            q == pow(b0 * b0, e0 / 2),
                    ;
                    lemma_mul_mod_noop_right(a0, qm, m);
                    lemma_mul_mod_noop_right(a0, q, m);
                    assert(base2 as int == (b0 * b0) % m);
                }
            }
            base = base2;
            e = e / 2;
        }
        proof {
            vstd::arithmetic::power::lemma_pow0(base as int);
        }
        BaseElement { value: acc }
    }

    /// Returns `self^(MODULUS - 2)`, the multiplicative inverse of a non-zero element.
    pub fn inv(self) -> (r: BaseElement)
        ensures
            r@ == pow_mod(self@, (MODULUS - 2) as nat),
            r == elem(pow(self@ as int, (MODULUS - 2) as nat)),
    {
        self.exp(MODULUS - 2)
    }

    /// Returns `GENERATOR^((MODULUS - 1) / 2^k)`, a root of unity of order 2^k.
    pub fn get_root_of_unity(k: u32) -> (r: BaseElement)
        requires
            k <= TWO_ADICITY,
        ensures
            r@ == pow_mod(GENERATOR_VALUE as nat, ((MODULUS - 1) as nat / pow2(k as nat)) as nat),
            r == elem(pow(GENERATOR_VALUE as int, ((MODULUS - 1) as nat / pow2(k as nat)) as nat)),
    {
        let mut d: u64 = MODULUS - 1;
        let mut i: u32 = 0;
        proof {
            vstd::arithmetic::power2::lemma2_to64();
        }
        while i < k
            invariant
                i <= k,
                d as nat == (MODULUS - 1) as nat / pow2(i as nat),
            decreases k - i,
        {
            proof {
                lemma_pow2_unfold((i + 1) as nat);
                vstd::arithmetic::power2::lemma_pow2_pos(i as nat);
                lemma_div_denominator((MODULUS - 1) as int, pow2(i as nat) as int, 2);
            }
            d = d / 2;
            i = i + 1;
        }
        BaseElement::generator().exp(d)
    }
}

/// The arithmetic that constraint evaluation needs from a field, with each operation's
/// result given by a specification function of the field.
pub trait FieldElement: Sized + Copy {
    spec fn spec_zero() -> Self;

    spec fn spec_one() -> Self;

    spec fn spec_add(a: Self, b: Self) -> Self;

    spec fn spec_sub(a: Self, b: Self) -> Self;

    spec fn spec_mul(a: Self, b: Self) -> Self;

    spec fn spec_inv(a: Self) -> Self;

    spec fn spec_exp(a: Self, n: nat) -> Self;

    /// The image of a base field element in this field.
    spec fn spec_lift(b: BaseElement) -> Self;

    fn zero() -> (r: Self)
        ensures
            r == Self::spec_zero(),
    ;

    fn one() -> (r: Self)
        ensures
            r == Self::spec_one(),
    ;

    fn add(self, o: Self) -> (r: Self)
        ensures
            r == Self::spec_add(self, o),
    ;

    fn sub(self, o: Self) -> (r: Self)
        ensures
            r == Self::spec_sub(self, o),
    ;

    fn mul(self, o: Self) -> (r: Self)
        ensures
            r == Self::spec_mul(self, o),
    ;

    fn inv(self) -> (r: Self)
        ensures
            r == Self::spec_inv(self),
    ;

    fn exp(self, n: u64) -> (r: Self)
        ensures
            r == Self::spec_exp(self, n as nat),
    ;

    fn lift(b: BaseElement) -> (r: Self)
        ensures
            r == Self::spec_lift(b),
    ;
}

impl FieldElement for BaseElement {
    open spec fn spec_zero() -> Self {
        elem(0)
    }

    open spec fn spec_one() -> Self {
        elem(1)
    }

    open spec fn spec_add(a: Self, b: Self) -> Self {
        elem((a@ + b@) as int)
    }

    open spec fn spec_sub(a: Self, b: Self) -> Self {
        elem(a@ - b@)
    }

    open spec fn spec_mul(a: Self, b: Self) -> Self {
        elem((a@ * b@) as int)
    }

    open spec fn spec_inv(a: Self) -> Self {
        elem(pow(a@ as int, (MODULUS - 2) as nat))
    }

    open spec fn spec_exp(a: Self, n: nat) -> Self {
        elem(pow(a@ as int, n))
    }

    open spec fn spec_lift(b: BaseElement) -> Self {
        b
    }

    fn zero() -> (r: Self) {
        BaseElement { value: 0 }
    }

    fn one() -> (r: Self) {
        BaseElement { value: 1 }
    }

    fn add(self, o: Self) -> (r: Self) {
        proof {
            use_type_invariant(&self);
            use_type_invariant(&o);
        }
        let s: u128 = self.value as u128 + o.value as u128;
        BaseElement { value: (s % (MODULUS as u128)) as u64 }
    }

    fn sub(self, o: Self) -> (r: Self) {
        proof {
            use_type_invariant(&self);
            use_type_invariant(&o);
            let m = p() as int;
            vstd::arithmetic::div_mod::lemma_mod_add_multiples_vanish(
                self.value as int - o.value as int,
                m,
            );
        }
        let s: u128 = self.value as u128 + MODULUS as u128 - o.value as u128;
        BaseElement { value: (s % (MODULUS as u128)) as u64 }
    }

    fn mul(self, o: Self) -> (r: Self) {
        proof {
            use_type_invariant(&self);
            use_type_invariant(&o);
            assert(self.value * o.value < 0x1_0000_0000_0000_0000_0000_0000_0000_0000)
                by (nonlinear_arith)
                requires
                    self.value < MODULUS,
                    o.value < MODULUS,
            ;
        }
        let s: u128 = self.value as u128 * o.value as u128;
        BaseElement { value: (s % (MODULUS as u128)) as u64 }
    }

    fn inv(self) -> (r: Self) {
        BaseElement::inv(self)
    }

    fn exp(self, n: u64) -> (r: Self) {
        BaseElement::exp(self, n)
    }

    fn lift(b: BaseElement) -> (r: Self) {
        b
    }
}

} // verus!
