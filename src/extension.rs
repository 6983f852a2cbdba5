//! The quadratic extension of the base field, `B[y] / (y^2 - 7)`; 7 generates the
//! multiplicative group of the base field, so it is not a square there.
use crate::field::{elem, BaseElement, FieldElement};
use vstd::prelude::*;

verus! {

/// The non-square whose root extends the base field.
pub const NON_RESIDUE: u64 = 7;

/// An element `a0 + a1 * y` of the quadratic extension, where `y^2 = 7`.
#[derive(Clone, Copy, Debug, PartialEq, Eq, Structural)]
pub struct QuadElement {
    pub a0: BaseElement,
    pub a1: BaseElement,
}

/// `a^n` by binary powering: `(a * a)^(n / 2)`, times `a` when `n` is odd.
pub open spec fn quad_pow(a: QuadElement, n: nat) -> QuadElement
    decreases n,
{
    if n == 0 {
        QuadElement::spec_one()
    } else {
        let h = quad_pow(QuadElement::spec_mul(a, a), n / 2);
        if n % 2 == 1 {
            QuadElement::spec_mul(a, h)
        } else {
            h
        }
    }
}

impl QuadElement {
    /// Builds `a0 + a1 * y`.
    pub fn new(a0: BaseElement, a1: BaseElement) -> (r: QuadElement)
        ensures
            r.a0 == a0,
            r.a1 == a1,
    {
        QuadElement { a0, a1 }
    }
}

fn quad_exp(a: QuadElement, n: u64) -> (r: QuadElement)
    ensures
        r == quad_pow(a, n as nat),
    decreases n,
{
    if n == 0 {
        QuadElement::one()
    } else {
        let h = quad_exp(a.mul(a), n / 2);
        if n % 2 == 1 {
            a.mul(h)
        } else {
            h
        }
    }
}

impl FieldElement for QuadElement {
    open spec fn spec_zero() -> Self {
        QuadElement { a0: elem(0), a1: elem(0) }
    }

    open spec fn spec_one() -> Self {
        QuadElement { a0: elem(1), a1: elem(0) }
    }

    open spec fn spec_add(a: Self, b: Self) -> Self {
        QuadElement {
            a0: BaseElement::spec_add(a.a0, b.a0),
            a1: BaseElement::spec_add(a.a1, b.a1),
        }
    }

    open spec fn spec_sub(a: Self, b: Self) -> Self {
        QuadElement {
            a0: BaseElement::spec_sub(a.a0, b.a0),
            a1: BaseElement::spec_sub(a.a1, b.a1),
        }
    }

    /// `(a0 + a1 y)(b0 + b1 y) = (a0 b0 + 7 a1 b1) + (a0 b1 + a1 b0) y`.
    open spec fn spec_mul(a: Self, b: Self) -> Self {
        QuadElement {
            a0: BaseElement::spec_add(
                BaseElement::spec_mul(a.a0, b.a0),
                BaseElement::spec_mul(elem(NON_RESIDUE as int), BaseElement::spec_mul(a.a1, b.a1)),
            ),
            a1: BaseElement::spec_add(
                BaseElement::spec_mul(a.a0, b.a1),
                BaseElement::spec_mul(a.a1, b.a0),
            ),
        }
    }

    /// `(a0 - a1 y) / (a0^2 - 7 a1^2)`.
    open spec fn spec_inv(a: Self) -> Self {
        let norm = BaseElement::spec_sub(
            BaseElement::spec_mul(a.a0, a.a0),
            BaseElement::spec_mul(elem(NON_RESIDUE as int), BaseElement::spec_mul(a.a1, a.a1)),
        );
        let ninv = BaseElement::spec_inv(norm);
        QuadElement {
            a0: BaseElement::spec_mul(a.a0, ninv),
            a1: BaseElement::spec_sub(elem(0), BaseElement::spec_mul(a.a1, ninv)),
        }
    }

    open spec fn spec_exp(a: Self, n: nat) -> Self {
        quad_pow(a, n)
    }

    /// A base element `b` is `b + 0 * y`.
    open spec fn spec_lift(b: BaseElement) -> Self {
        QuadElement { a0: b, a1: elem(0) }
    }

    fn zero() -> (r: Self) {
        QuadElement { a0: BaseElement::zero(), a1: BaseElement::zero() }
    }

    fn one() -> (r: Self) {
        QuadElement { a0: BaseElement::one(), a1: BaseElement::zero() }
    }

    fn add(self, o: Self) -> (r: Self) {
        QuadElement { a0: self.a0.add(o.a0), a1: self.a1.add(o.a1) }
    }

    fn sub(self, o: Self) -> (r: Self) {
        QuadElement { a0: self.a0.sub(o.a0), a1: self.a1.sub(o.a1) }
    }

    fn mul(self, o: Self) -> (r: Self) {
        let nr = BaseElement::new(NON_RESIDUE);
        QuadElement {
            a0: self.a0.mul(o.a0).add(nr.mul(self.a1.mul(o.a1))),
            a1: self.a0.mul(o.a1).add(self.a1.mul(o.a0)),
        }
    }

    fn inv(self) -> (r: Self) {
        let nr = BaseElement::new(NON_RESIDUE);
        let norm = self.a0.mul(self.a0).sub(nr.mul(self.a1.mul(self.a1)));
        let ninv = BaseElement::inv(norm);
        QuadElement { a0: self.a0.mul(ninv), a1: BaseElement::zero().sub(self.a1.mul(ninv)) }
    }

    fn exp(self, n: u64) -> (r: Self) {
        quad_exp(self, n)
    }

    fn lift(b: BaseElement) -> (r: Self) {
        QuadElement { a0: b, a1: BaseElement::zero() }
    }
}

} // verus!
