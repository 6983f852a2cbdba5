use stark_air::air::get_boundary_constraints;
use stark_air::assertion::Assertion;
use stark_air::context::ComputationContext;
use stark_air::divisor::ConstraintDivisor;
use stark_air::extension::QuadElement;
use stark_air::field::{BaseElement, FieldElement};
use stark_air::options::{FieldExtension, HashFunction, ProofOptions};
use stark_air::transition::TransitionConstraintDegree;

fn el(v: u64) -> BaseElement {
    BaseElement::new(v)
}

fn q(a0: u64, a1: u64) -> QuadElement {
    QuadElement::new(el(a0), el(a1))
}

#[test]
fn extension_arithmetic() {
    let y = q(0, 1);
    assert_eq!(q(7, 0), y.mul(y));
    assert_eq!(q(4, 6), q(1, 2).add(q(3, 4)));
    // (1 + 2y)(3 + 4y) = 3 + 56 + (4 + 6) y
    assert_eq!(q(59, 10), q(1, 2).mul(q(3, 4)));
    let a = q(12345, 678);
    assert_eq!(QuadElement::one(), a.mul(a.inv()));
    assert_eq!(a.mul(a).mul(a), a.exp(3));
    assert_eq!(QuadElement::one(), a.exp(0));
    assert_eq!(q(5, 0), QuadElement::lift(el(5)));
}

#[test]
fn constraints_evaluate_in_the_extension() {
    let options =
        ProofOptions::new(32, 8, 0, HashFunction::Blake3_256, FieldExtension::Quadratic).unwrap();
    let ctx = ComputationContext::new(1, 16, vec![TransitionConstraintDegree::new(2)], options);
    let cc = vec![(q(1, 0), q(0, 1)), (q(2, 3), q(4, 5))];
    let groups = get_boundary_constraints(
        vec![
            Assertion::single(0, 0, el(7)),
            Assertion::sequence(0, 1, 4, vec![el(1), el(2), el(3), el(4)]).unwrap(),
        ],
        &ctx,
        &cc,
    )
    .unwrap();
    assert_eq!(2, groups.len());
    // a point of the base field gives the base field's value, lifted
    let c = &groups[0].constraints()[0];
    let base_value = {
        let g: Vec<(BaseElement, BaseElement)> = vec![(el(1), el(0)), (el(0), el(0))];
        let base_groups = get_boundary_constraints(
            vec![
                Assertion::single(0, 0, el(7)),
                Assertion::sequence(0, 1, 4, vec![el(1), el(2), el(3), el(4)]).unwrap(),
            ],
            &ctx,
            &g,
        )
        .unwrap();
        base_groups[1].constraints()[0].evaluate_at(el(9), el(40))
    };
    let seq_constraint = &groups[1].constraints()[0];
    assert_eq!(
        QuadElement::lift(base_value),
        seq_constraint.evaluate_at(QuadElement::lift(el(9)), QuadElement::lift(el(40)))
    );
    // a single-value constraint gives t - v at any point of the extension
    assert_eq!(q(33, 5), c.evaluate_at(q(3, 8), q(40, 5)));
    // the divisor x - 1 at x = 3 + 8y
    let d = ConstraintDivisor::from_assertion(&Assertion::single(0, 0, el(7)), &ctx);
    assert_eq!(q(2, 8), d.evaluate_at(q(3, 8)));
}
