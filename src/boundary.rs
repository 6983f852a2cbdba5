//! Boundary constraints built from assertions, and groups of them that share a divisor.
use crate::assertion::{Assertion, AssertionModel};
use crate::divisor::{ConstraintDivisor, DivisorModel};
use crate::field::{elem, BaseElement, FieldElement};
use crate::polynom::{
    eval, eval_spec, get_inv_twiddles, interpolate_poly, interpolate_spec, inv_twiddles_spec,
};
use std::collections::HashMap;
use vstd::arithmetic::power::pow;
use vstd::prelude::*;

verus! {

broadcast use {crate::field::group_field, vstd::std_specs::hash::group_hash_axioms};

/// Every cached entry holds the inverse twiddles for its number of points.
pub open spec fn twiddles_valid(m: Map<usize, Vec<BaseElement>>) -> bool {
    forall|k: usize| #[trigger] m.contains_key(k) ==> m[k]@ == inv_twiddles_spec(k as nat)
}

/// What a boundary constraint holds: its register, its polynomial, the shift of the
/// evaluation point (as a number of steps and the factor that achieves it), and its
/// composition coefficients.
pub struct ConstraintModel<E> {
    pub register: nat,
    pub poly: Seq<BaseElement>,
    pub poly_offset: (usize, BaseElement),
    pub cc: (E, E),
}

/// The polynomial of an assertion: its value when it has one; otherwise the interpolant of
/// its values over the roots of unity of their number.
pub open spec fn assertion_poly(a: AssertionModel) -> Seq<BaseElement> {
    if a.values.len() == 1 {
        a.values
    } else {
        interpolate_spec(a.values, inv_twiddles_spec(a.values.len()))
    }
}

/// The shift of an assertion's polynomial: a sequence that starts past step 0 is evaluated
/// at `x * inv_g^first_step`; any other assertion at `x` itself.
pub open spec fn assertion_offset(a: AssertionModel, inv_g: BaseElement) -> (usize, BaseElement) {
    if a.values.len() > 1 && a.first_step != 0 {
        (a.first_step as usize, elem(pow(inv_g@ as int, a.first_step)))
    } else {
        (0usize, elem(1))
    }
}

/// The boundary constraint built from assertion `a` with coefficients `cc`.
pub open spec fn constraint_of<E>(a: AssertionModel, inv_g: BaseElement, cc: (E, E)) -> ConstraintModel<E> {
    ConstraintModel {
        register: a.register,
        poly: assertion_poly(a),
        poly_offset: assertion_offset(a, inv_g),
        cc,
    }
}

impl<E: FieldElement> ConstraintModel<E> {
    /// `t - P(x')`, where `P` is the constraint's polynomial and `x'` is `x` shifted by the
    /// offset; a constant polynomial is its coefficient wherever it is evaluated.
    pub open spec fn value_at(self, x: E, t: E) -> E {
        if self.poly.len() == 1 {
            E::spec_sub(t, E::spec_lift(self.poly[0]))
        } else {
            E::spec_sub(t, eval_spec(self.poly, E::spec_mul(x, E::spec_lift(self.poly_offset.1))))
        }
    }
}

/// The numerator of one boundary constraint.
#[derive(Debug)]
pub struct BoundaryConstraint<E> {
    register: usize,
    poly: Vec<BaseElement>,
    poly_offset: (usize, BaseElement),
    cc: (E, E),
}

impl<E> View for BoundaryConstraint<E> {
    type V = ConstraintModel<E>;

    closed spec fn view(&self) -> ConstraintModel<E> {
        ConstraintModel {
            register: self.register as nat,
            poly: self.poly@,
            poly_offset: self.poly_offset,
            cc: self.cc,
        }
    }
}

impl<E> BoundaryConstraint<E> {
    #[verifier::type_invariant]
    spec fn nonempty_poly(self) -> bool {
        self.poly@.len() >= 1
    }
}

impl<E: FieldElement> BoundaryConstraint<E> {
    /// Builds the constraint of `assertion` with composition coefficients `cc`. The inverse
    /// twiddles for interpolation come from `twiddle_map`; those not yet there are built
    /// and added.
    pub fn new(
        assertion: Assertion,
        inv_g: BaseElement,
        twiddle_map: &mut HashMap<usize, Vec<BaseElement>>,
        cc: (E, E),
    ) -> (r: Self)
        requires
            twiddles_valid(old(twiddle_map)@),
            assertion@.values.len() <= 0x1_0000_0000,
        ensures
            r@ == constraint_of(assertion@, inv_g, cc),
            r@.poly.len() == assertion@.values.len(),
            twiddles_valid(final(twiddle_map)@),
            final(twiddle_map)@.dom() == if assertion@.values.len() > 1 {
                old(twiddle_map)@.dom().insert(assertion@.values.len() as usize)
            } else {
                old(twiddle_map)@.dom()
            },
            forall|k: usize| #[trigger]
                old(twiddle_map)@.contains_key(k) ==> final(twiddle_map)@[k] == old(twiddle_map)@[k],
    {
        let register = assertion.register();
        let first_step = assertion.first_step();
        let values = assertion.into_values();
        let n = values.len();
        if n == 1 {
            let r = BoundaryConstraint { register, poly: values, poly_offset: (0, BaseElement::one()), cc };
            proof {
                assert(twiddle_map@.dom() =~= old(twiddle_map)@.dom());
            }
            return r;
        }
        let poly = match twiddle_map.get(&n) {
            Some(twiddles) => interpolate_poly(&values, twiddles),
            None => {
                let twiddles = get_inv_twiddles(n);
                let poly = interpolate_poly(&values, &twiddles);
                twiddle_map.insert(n, twiddles);
                poly
            },
        };
        proof {
            assert(twiddle_map@.dom() =~= old(twiddle_map)@.dom().insert(n));
        }
        let poly_offset = if first_step != 0 {
            (first_step, inv_g.exp(first_step as u64))
        } else {
            (0, BaseElement::one())
        };
        BoundaryConstraint { register, poly, poly_offset, cc }
    }

    /// Index of the register that the constraint applies to.
    pub fn register(&self) -> (r: usize)
        ensures
            r == self@.register,
    {
        self.register
    }

    /// The constraint's polynomial; it has at least one coefficient.
    pub fn poly(&self) -> (r: &Vec<BaseElement>)
        ensures
            r@ == self@.poly,
            r@.len() >= 1,
    {
        proof {
            use_type_invariant(self);
        }
        &self.poly
    }

    /// The shift of the evaluation point: the number of steps, and the factor by which a
    /// domain element is multiplied to achieve it.
    pub fn poly_offset(&self) -> (r: (usize, BaseElement))
        ensures
            r == self@.poly_offset,
    {
        self.poly_offset
    }

    /// The composition coefficients.
    pub fn cc(&self) -> (r: &(E, E))
        ensures
            *r == self@.cc,
    {
        &self.cc
    }

    /// Evaluates the constraint at `x` as `trace_value - P(x')`, where `trace_value` is the
    /// trace polynomial's value at `x`.
    pub fn evaluate_at(&self, x: E, trace_value: E) -> (r: E)
        ensures
            r == self@.value_at(x, trace_value),
    {
        proof {
            use_type_invariant(self);
        }
        let assertion_value = if self.poly.len() == 1 {
            E::lift(self.poly[0])
        } else {
            let x = x.mul(E::lift(self.poly_offset.1));
            eval(self.poly.as_slice(), x)
        };
        trace_value.sub(assertion_value)
    }
}

/// What a group holds: its constraints, their shared divisor, and the degree adjustment.
pub struct GroupModel<E> {
    pub constraints: Seq<ConstraintModel<E>>,
    pub divisor: DivisorModel,
    pub degree_adjustment: nat,
}

/// The sum, over the first `m` constraints, of each constraint's value at `x` (against the
/// state of its register) times `c0 + c1 * xp`, accumulated in order.
pub open spec fn group_sum<E: FieldElement>(
    constraints: Seq<ConstraintModel<E>>,
    state: Seq<E>,
    x: E,
    xp: E,
    m: int,
) -> E
    decreases m,
{
    if m <= 0 {
        E::spec_zero()
    } else {
        let c = constraints[m - 1];
        E::spec_add(
            group_sum(constraints, state, x, xp, m - 1),
            E::spec_mul(
                c.value_at(x, state[c.register as int]),
                E::spec_add(c.cc.0, E::spec_mul(c.cc.1, xp)),
            ),
        )
    }
}

/// The largest polynomial length over the first `m` constraints (0 when `m` is 0).
pub open spec fn max_poly_len<E>(constraints: Seq<ConstraintModel<E>>, m: int) -> nat
    decreases m,
{
    if m <= 0 {
        0
    } else if constraints[m - 1].poly.len() > max_poly_len(constraints, m - 1) {
        constraints[m - 1].poly.len()
    } else {
        max_poly_len(constraints, m - 1)
    }
}

/// Boundary constraints that share a divisor.
#[derive(Debug)]
pub struct BoundaryConstraintGroup<E> {
    constraints: Vec<BoundaryConstraint<E>>,
    divisor: ConstraintDivisor,
    degree_adjustment: usize,
}

impl<E> View for BoundaryConstraintGroup<E> {
    type V = GroupModel<E>;

    closed spec fn view(&self) -> GroupModel<E> {
        GroupModel {
            constraints: self.constraints@.map_values(|c: BoundaryConstraint<E>| c@),
            divisor: self.divisor@,
            degree_adjustment: self.degree_adjustment as nat,
        }
    }
}

impl<E: FieldElement> BoundaryConstraintGroup<E> {
    /// An empty group with the given divisor. The degree adjustment makes each constraint,
    /// once divided by the divisor, reach the composition degree:
    /// `composition_degree + deg(divisor) - trace_poly_degree`.
    pub fn new(divisor: ConstraintDivisor, trace_poly_degree: usize, composition_degree: usize) -> (r:
        Self)
        requires
            trace_poly_degree <= composition_degree + divisor@.degree(),
            composition_degree + divisor@.degree() <= usize::MAX,
        ensures
            r@.constraints == Seq::<ConstraintModel<E>>::empty(),
            r@.divisor == divisor@,
            r@.degree_adjustment == composition_degree + divisor@.degree() - trace_poly_degree,
    {
        let target_degree = composition_degree + divisor.degree();
        let degree_adjustment = target_degree - trace_poly_degree;
        let r = BoundaryConstraintGroup { constraints: Vec::new(), divisor, degree_adjustment };
        proof {
            assert(r@.constraints =~= Seq::<ConstraintModel<E>>::empty());
        }
        r
    }

    /// The group's constraints.
    pub fn constraints(&self) -> (r: &Vec<BoundaryConstraint<E>>)
        ensures
            r@.map_values(|c: BoundaryConstraint<E>| c@) == self@.constraints,
    {
        &self.constraints
    }

    /// The divisor shared by the group's constraints.
    pub fn divisor(&self) -> (r: &ConstraintDivisor)
        ensures
            r@ == self@.divisor,
    {
        &self.divisor
    }

    /// The degree adjustment shared by the group's constraints.
    pub fn degree_adjustment(&self) -> (r: usize)
        ensures
            r == self@.degree_adjustment,
    {
        self.degree_adjustment
    }

    /// Degree of the largest constraint polynomial in the group.
    pub fn max_poly_degree(&self) -> (r: usize)
        requires
            self@.constraints.len() > 0,
        ensures
            r == max_poly_len(self@.constraints, self@.constraints.len() as int) - 1,
    {
        let mut poly_size: usize = 0;
        let mut i: usize = 0;
        while i < self.constraints.len()
            invariant
                i <= self@.constraints.len(),
                self@.constraints.len() == self.constraints@.len(),
                poly_size == max_poly_len(self@.constraints, i as int),
                i > 0 ==> poly_size >= 1,
            decreases self@.constraints.len() - i,
        {
            let len = self.constraints[i].poly().len();
            proof {
                assert(self@.constraints[i as int] == self.constraints@[i as int]@);
            }
            if len > poly_size {
                poly_size = len;
            }
            i = i + 1;
        }
        poly_size - 1
    }

    /// Builds the constraint of `assertion` with coefficients `cc` and adds it to the group.
    pub fn add(
        &mut self,
        assertion: Assertion,
        inv_g: BaseElement,
        twiddle_map: &mut HashMap<usize, Vec<BaseElement>>,
        cc: (E, E),
    )
        requires
            twiddles_valid(old(twiddle_map)@),
            assertion@.values.len() <= 0x1_0000_0000,
        ensures
            final(self)@.constraints == old(self)@.constraints.push(
                constraint_of(assertion@, inv_g, cc),
            ),
            final(self)@.divisor == old(self)@.divisor,
            final(self)@.degree_adjustment == old(self)@.degree_adjustment,
            twiddles_valid(final(twiddle_map)@),
            final(twiddle_map)@.dom() == if assertion@.values.len() > 1 {
                old(twiddle_map)@.dom().insert(assertion@.values.len() as usize)
            } else {
                old(twiddle_map)@.dom()
            },
            forall|k: usize| #[trigger]
                old(twiddle_map)@.contains_key(k) ==> final(twiddle_map)@[k] == old(twiddle_map)@[k],
    {
        let c = BoundaryConstraint::new(assertion, inv_g, twiddle_map, cc);
        self.constraints.push(c);
        proof {
            assert(self@.constraints =~= old(self)@.constraints.push(
                constraint_of(assertion@, inv_g, cc),
            ));
        }
    }

    /// Evaluates the group's constraints at `x` and merges them into one value: the sum of
    /// each constraint's value times `c0 + c1 * xp`, where `xp` is `x` raised to the degree
    /// adjustment.
    pub fn evaluate_at(&self, state: &[E], x: E, xp: E) -> (r: E)
        requires
            forall|i: int|
                0 <= i < self@.constraints.len() ==> #[trigger] self@.constraints[i].register
                    < state@.len(),
        ensures
            r == group_sum(self@.constraints, state@, x, xp, self@.constraints.len() as int),
    {
        let mut result = E::zero();
        let mut i: usize = 0;
        while i < self.constraints.len()
            invariant
                i <= self@.constraints.len(),
                self@.constraints.len() == self.constraints@.len(),
                forall|k: int|
                    0 <= k < self@.constraints.len() ==> #[trigger] self@.constraints[k].register
                        < state@.len(),
                result == group_sum(self@.constraints, state@, x, xp, i as int),
            decreases self@.constraints.len() - i,
        {
            let c = &self.constraints[i];
            proof {
                assert(self@.constraints[i as int] == c@);
            }
            let evaluation = c.evaluate_at(x, state[c.register()]);
            let (c0, c1) = *c.cc();
            result = result.add(evaluation.mul(c0.add(c1.mul(xp))));
            i = i + 1;
        }
        result
    }
}

/// A single-value assertion gives the constant polynomial of its value, evaluated at an
/// unshifted point: `poly == [value]` and `poly_offset == (0, 1)`.
pub proof fn lemma_single_value_constraint<E>(a: AssertionModel, inv_g: BaseElement, cc: (E, E))
    requires
        a.values.len() == 1,
    ensures
        constraint_of(a, inv_g, cc).poly == seq![a.values[0]],
        constraint_of(a, inv_g, cc).poly.len() == 1,
        constraint_of(a, inv_g, cc).poly_offset == (0usize, elem(1)),
{
    assert(a.values =~= seq![a.values[0]]);
}

/// A sequence assertion that starts past step 0 evaluates as `t - P(x * g^-first_step)`,
/// where `P` interpolates its values and `g^-first_step` is the inverse generator raised to
/// the first step.
pub proof fn lemma_shifted_sequence_value<E: FieldElement>(
    a: AssertionModel,
    inv_g: BaseElement,
    cc: (E, E),
    x: E,
    t: E,
)
    requires
        a.well_formed(),
        a.values.len() > 1,
        a.first_step != 0,
    ensures
        constraint_of(a, inv_g, cc).value_at(x, t) == E::spec_sub(
            t,
            eval_spec(
                interpolate_spec(a.values, inv_twiddles_spec(a.values.len())),
                E::spec_mul(x, E::spec_lift(elem(pow(inv_g@ as int, a.first_step)))),
            ),
        ),
{
}

/// Evaluation in the base field depends on the point only through its residue.
pub proof fn lemma_eval_residue(c: Seq<BaseElement>, x: BaseElement, y: BaseElement)
    requires
        x@ == y@,
    ensures
        eval_spec(c, x) == eval_spec(c, y),
    decreases c.len(),
{
    if c.len() > 0 {
        lemma_eval_residue(c.drop_first(), x, y);
    }
}

/// In the base field, a sequence assertion that starts at step 0 evaluates as `t - P(x)`,
/// where `P` interpolates its values over the roots of unity of their number.
pub proof fn lemma_unshifted_sequence_value(
    a: AssertionModel,
    inv_g: BaseElement,
    cc: (BaseElement, BaseElement),
    x: BaseElement,
    t: BaseElement,
)
    requires
        a.well_formed(),
        a.values.len() > 1,
        a.first_step == 0,
    ensures
        constraint_of(a, inv_g, cc).value_at(x, t) == BaseElement::spec_sub(
            t,
            eval_spec(interpolate_spec(a.values, inv_twiddles_spec(a.values.len())), x),
        ),
{
    let y = BaseElement::spec_mul(x, BaseElement::spec_lift(elem(1)));
    assert(elem(1)@ == 1);
    assert(x@ * 1 == x@);
    vstd::arithmetic::div_mod::lemma_small_mod(x@, crate::field::p());
    assert(y@ == x@);
    lemma_eval_residue(interpolate_spec(a.values, inv_twiddles_spec(a.values.len())), x, y);
}

} // verus!
