//! Boundary assertions: a register holding given values at one step, at every step of a
//! stride, or along a stride with one value per hit.
use crate::error::AirError;
use crate::field::BaseElement;
use crate::polynom::{is_pow2, is_power_of_two};
use vstd::prelude::*;

verus! {

/// What an assertion states: the register, the first asserted step, the stride between
/// asserted steps (0 for a single step), and the asserted values.
pub struct AssertionModel {
    pub register: nat,
    pub first_step: nat,
    pub stride: nat,
    pub values: Seq<BaseElement>,
}

impl AssertionModel {
    /// The shape rules: a single step carries one value; a stride is a power of two of
    /// at least 2 above the first step, and carries one value or a power of two of them.
    pub open spec fn well_formed(self) -> bool {
        if self.stride == 0 {
            self.values.len() == 1
        } else {
            &&& is_pow2(self.stride)
            &&& self.stride >= 2
            &&& self.first_step < self.stride
            &&& (self.values.len() == 1 || (is_pow2(self.values.len()) && self.values.len() >= 2))
        }
    }

    /// The register lies within a trace of width `width`.
    pub open spec fn fits_width(self, width: nat) -> bool {
        self.register < width
    }

    /// The first step lies within a trace of length `n`, and the stride divides `n`.
    pub open spec fn fits_steps(self, n: nat) -> bool {
        self.first_step < n && (self.stride != 0 ==> n % self.stride == 0)
    }

    /// A sequence of values has one value per asserted step of a trace of length `n`.
    pub open spec fn fits_values(self, n: nat) -> bool {
        self.values.len() > 1 ==> self.values.len() * self.stride == n
    }

    /// The assertion holds in a trace of width `width` and length `n`.
    pub open spec fn valid_for(self, width: nat, n: nat) -> bool {
        self.fits_width(width) && self.fits_steps(n) && self.fits_values(n)
    }

    /// The steps of a trace of length `n` at which the assertion constrains its register.
    pub open spec fn steps(self, n: nat) -> Set<nat> {
        Set::new(
            |t: nat|
                t < n && if self.stride == 0 {
                    t == self.first_step
                } else {
                    t % self.stride == self.first_step
                },
        )
    }

    /// The smaller of two strides, a stride of 0 standing for a single step.
    pub open spec fn common_stride(self, o: AssertionModel) -> nat {
        if self.stride == 0 {
            o.stride
        } else if o.stride == 0 || self.stride <= o.stride {
            self.stride
        } else {
            o.stride
        }
    }

    /// Two assertions overlap when they share the register and, for equal strides, the
    /// first step; for different strides, the first steps agree modulo the smaller one.
    pub open spec fn overlaps(self, o: AssertionModel) -> bool {
        &&& self.register == o.register
        &&& if self.stride == o.stride {
            self.first_step == o.first_step
        } else {
            self.first_step % self.common_stride(o) == o.first_step % self.common_stride(o)
        }
    }

    /// The canonical order: by stride, then by first step, then by register.
    pub open spec fn precedes(self, o: AssertionModel) -> bool {
        ||| self.stride < o.stride
        ||| (self.stride == o.stride && self.first_step < o.first_step)
        ||| (self.stride == o.stride && self.first_step == o.first_step && self.register
            < o.register)
    }
}

/// A boundary assertion against one register of the execution trace.
#[derive(Debug)]
pub struct Assertion {
    register: usize,
    first_step: usize,
    stride: usize,
    values: Vec<BaseElement>,
}

impl View for Assertion {
    type V = AssertionModel;

    closed spec fn view(&self) -> AssertionModel {
        AssertionModel {
            register: self.register as nat,
            first_step: self.first_step as nat,
            stride: self.stride as nat,
            values: self.values@,
        }
    }
}

impl Assertion {
    #[verifier::type_invariant]
    spec fn shape(self) -> bool {
        self@.well_formed()
    }

    /// Asserts that `register` holds `value` at `step`.
    pub fn single(register: usize, step: usize, value: BaseElement) -> (r: Assertion)
        ensures
            r@ == (AssertionModel {
                register: register as nat,
                first_step: step as nat,
                stride: 0,
                values: seq![value],
            }),
    {
        let mut values: Vec<BaseElement> = Vec::new();
        values.push(value);
        proof {
            assert(values@ =~= seq![value]);
        }
        Assertion { register, first_step: step, stride: 0, values }
    }

    /// Asserts that `register` holds `value` at `first_step` and every `stride` steps after.
    pub fn periodic(register: usize, first_step: usize, stride: usize, value: BaseElement) -> (r:
        Result<Assertion, AirError>)
        ensures
            is_pow2(stride as nat) && stride >= 2 && first_step < stride <==> r is Ok,
            r is Ok ==> r->Ok_0@ == (AssertionModel {
                register: register as nat,
                first_step: first_step as nat,
                stride: stride as nat,
                values: seq![value],
            }),
            r is Err ==> r->Err_0 == AirError::InvalidAssertionShape,
    {
        if !is_power_of_two(stride) || stride < 2 || first_step >= stride {
            return Err(AirError::InvalidAssertionShape);
        }
        let mut values: Vec<BaseElement> = Vec::new();
        values.push(value);
        proof {
            assert(values@ =~= seq![value]);
        }
        Ok(Assertion { register, first_step, stride, values })
    }

    /// Asserts that `register` holds `values[i]` at step `first_step + i * stride`.
    pub fn sequence(register: usize, first_step: usize, stride: usize, values: Vec<BaseElement>) -> (r:
        Result<Assertion, AirError>)
        ensures
            is_pow2(stride as nat) && stride >= 2 && first_step < stride && is_pow2(
                values@.len(),
            ) && values@.len() >= 2 <==> r is Ok,
            r is Ok ==> r->Ok_0@ == (AssertionModel {
                register: register as nat,
                first_step: first_step as nat,
                stride: stride as nat,
                values: values@,
            }),
            r is Err ==> r->Err_0 == AirError::InvalidAssertionShape,
    {
        if !is_power_of_two(stride) || stride < 2 || first_step >= stride || !is_power_of_two(
            values.len(),
        ) || values.len() < 2 {
            return Err(AirError::InvalidAssertionShape);
        }
        Ok(Assertion { register, first_step, stride, values })
    }

    /// Index of the register against which this assertion is placed.
    pub fn register(&self) -> (r: usize)
        ensures
            r == self@.register,
            self@.well_formed(),
    {
        proof {
            use_type_invariant(self);
        }
        self.register
    }

    /// The first step at which the assertion holds.
    pub fn first_step(&self) -> (r: usize)
        ensures
            r == self@.first_step,
            self@.well_formed(),
    {
        proof {
            use_type_invariant(self);
        }
        self.first_step
    }

    /// The number of steps between asserted steps; 0 for a single step.
    pub fn stride(&self) -> (r: usize)
        ensures
            r == self@.stride,
            self@.well_formed(),
    {
        proof {
            use_type_invariant(self);
        }
        self.stride
    }

    /// The asserted values.
    pub fn values(&self) -> (r: &Vec<BaseElement>)
        ensures
            r@ == self@.values,
            self@.well_formed(),
    {
        proof {
            use_type_invariant(self);
        }
        &self.values
    }

    /// Gives up the assertion for its values.
    pub fn into_values(self) -> (r: Vec<BaseElement>)
        ensures
            r@ == self@.values,
            self@.well_formed(),
    {
        proof {
            use_type_invariant(&self);
        }
        self.values
    }

    /// Checks that the register lies within a trace of width `width`.
    pub fn validate_trace_width(&self, width: usize) -> (r: Result<(), AirError>)
        ensures
            r is Ok <==> self@.fits_width(width as nat),
            r is Err ==> r->Err_0 == AirError::RegisterOutOfRange,
            self@.well_formed(),
    {
        proof {
            use_type_invariant(self);
        }
        if self.register >= width {
            Err(AirError::RegisterOutOfRange)
        } else {
            Ok(())
        }
    }

    /// Checks that the asserted steps lie within a trace of length `n`, and that a sequence
    /// carries one value per asserted step.
    pub fn validate_trace_length(&self, n: usize) -> (r: Result<(), AirError>)
        ensures
            r is Ok <==> self@.fits_steps(n as nat) && self@.fits_values(n as nat),
            r == Err::<(), AirError>(AirError::StepOutOfRange) <==> !self@.fits_steps(n as nat),
            r == Err::<(), AirError>(AirError::InvalidAssertionShape) <==> self@.fits_steps(
                n as nat,
            ) && !self@.fits_values(n as nat),
    {
        proof {
            use_type_invariant(self);
        }
        if self.first_step >= n || (self.stride != 0 && n % self.stride != 0) {
            return Err(AirError::StepOutOfRange);
        }
        if self.values.len() > 1 {
            let hits = n / self.stride;
            let ghost s = self.stride as int;
            let ghost len = self.values@.len() as int;
            proof {
                vstd::arithmetic::div_mod::lemma_fundamental_div_mod(n as int, s);
            }
            if self.values.len() != hits {
                proof {
                    if len * s == n {
                        vstd::arithmetic::div_mod::lemma_div_multiples_vanish(len, s);
                        assert(len * s == s * len) by (nonlinear_arith);
                    }
                }
                return Err(AirError::InvalidAssertionShape);
            }
            proof {
                assert(len * s == s * len) by (nonlinear_arith);
            }
        }
        Ok(())
    }

    /// Tells whether this assertion and `o` constrain a common register at a common step.
    pub fn overlaps_with(&self, o: &Assertion) -> (r: bool)
        ensures
            r == self@.overlaps(o@),
    {
        proof {
            use_type_invariant(self);
            use_type_invariant(o);
        }
        if self.register != o.register {
            return false;
        }
        if self.stride == o.stride {
            return self.first_step == o.first_step;
        }
        let s = if self.stride == 0 {
            o.stride
        } else if o.stride == 0 || self.stride <= o.stride {
            self.stride
        } else {
            o.stride
        };
        self.first_step % s == o.first_step % s
    }

    /// Tells whether this assertion comes before `o` in the canonical order.
    pub fn precedes(&self, o: &Assertion) -> (r: bool)
        ensures
            r == self@.precedes(o@),
    {
        self.stride < o.stride || (self.stride == o.stride && self.first_step < o.first_step) || (
        self.stride == o.stride && self.first_step == o.first_step && self.register < o.register)
    }
}

/// Of two powers of two, the smaller divides the larger.
pub proof fn lemma_pow2_divides(a: nat, b: nat)
    requires
        is_pow2(a),
        is_pow2(b),
        a <= b,
    ensures
        b % a == 0,
    decreases b,
{
    if a < b {
        crate::context::lemma_pow2_gap(b, a);
        assert(b % 2 == 0 && is_pow2(b / 2));
        lemma_pow2_divides(a, b / 2);
        vstd::arithmetic::div_mod::lemma_fundamental_div_mod((b / 2) as int, a as int);
        let k = (b / 2) / a;
        assert(b == a * (2 * k)) by (nonlinear_arith)
            requires
                b / 2 == a * k,
                b % 2 == 0,
                b == 2 * (b / 2) + b % 2,
        ;
        vstd::arithmetic::div_mod::lemma_mod_multiples_basic((2 * k) as int, a as int);
        assert((2 * k) * a == a * (2 * k)) by (nonlinear_arith);
    } else {
        vstd::arithmetic::div_mod::lemma_mod_self_0(a as int);
    }
}

proof fn lemma_nested_step(a: AssertionModel, b: AssertionModel, n: nat)
    requires
        a.well_formed(),
        b.well_formed(),
        a.fits_steps(n),
        b.fits_steps(n),
        a.stride != 0,
        a.stride < b.stride,
    ensures
        a.first_step % a.stride == b.first_step % a.stride <==> exists|t: nat|
            a.steps(n).contains(t) && b.steps(n).contains(t),
{
    let sa = a.stride;
    let sb = b.stride;
    lemma_pow2_divides(sa, sb);
    vstd::arithmetic::div_mod::lemma_small_mod(a.first_step, sa);
    vstd::arithmetic::div_mod::lemma_small_mod(b.first_step, sb);
    vstd::arithmetic::div_mod::lemma_fundamental_div_mod(sb as int, sa as int);
    let k = sb / sa;
    assert(sb == sa * k);
    if a.first_step % sa == b.first_step % sa {
        let t = b.first_step;
        assert(t < n) by {
            vstd::arithmetic::div_mod::lemma_fundamental_div_mod(n as int, sb as int);
            if n / sb == 0 {
                assert(n == sb * 0);
            }
            assert(sb <= n) by (nonlinear_arith)
                requires
                    n == sb * (n / sb),
                    n / sb >= 1,
            ;
        }
        assert(a.steps(n).contains(t));
        assert(b.steps(n).contains(t));
    }
    if exists|t: nat| a.steps(n).contains(t) && b.steps(n).contains(t) {
        let t = choose|t: nat| a.steps(n).contains(t) && b.steps(n).contains(t);
        vstd::arithmetic::div_mod::lemma_mod_mod(t as int, sa as int, k as int);
    }
}

/// For assertions that hold in a trace of length `n`, `overlaps` is exactly "same register
/// and a common asserted step".
pub proof fn lemma_overlap_iff_common_step(a: AssertionModel, b: AssertionModel, n: nat)
    requires
        a.well_formed(),
        b.well_formed(),
        a.fits_steps(n),
        b.fits_steps(n),
    ensures
        a.overlaps(b) <==> a.register == b.register && exists|t: nat|
            a.steps(n).contains(t) && b.steps(n).contains(t),
{
    if a.stride == b.stride {
        if a.stride != 0 {
            vstd::arithmetic::div_mod::lemma_small_mod(a.first_step, a.stride);
            vstd::arithmetic::div_mod::lemma_small_mod(b.first_step, b.stride);
        }
        if a.first_step == b.first_step {
            assert(a.steps(n).contains(a.first_step));
            assert(b.steps(n).contains(a.first_step));
        }
    } else if a.stride == 0 {
        if a.first_step % b.stride == b.first_step % b.stride {
            vstd::arithmetic::div_mod::lemma_small_mod(b.first_step, b.stride);
            assert(a.steps(n).contains(a.first_step));
            assert(b.steps(n).contains(a.first_step));
        }
        vstd::arithmetic::div_mod::lemma_small_mod(b.first_step, b.stride);
    } else if b.stride == 0 {
        if a.first_step % a.stride == b.first_step % a.stride {
            vstd::arithmetic::div_mod::lemma_small_mod(a.first_step, a.stride);
            assert(a.steps(n).contains(b.first_step));
            assert(b.steps(n).contains(b.first_step));
        }
        vstd::arithmetic::div_mod::lemma_small_mod(a.first_step, a.stride);
    } else if a.stride < b.stride {
        lemma_nested_step(a, b, n);
    } else {
        lemma_nested_step(b, a, n);
        assert(forall|t: nat|
            a.steps(n).contains(t) && b.steps(n).contains(t) <==> b.steps(n).contains(t)
                && a.steps(n).contains(t));
    }
}

} // verus!
