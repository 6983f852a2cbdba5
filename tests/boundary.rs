use stark_air::assertion::Assertion;
use stark_air::boundary::BoundaryConstraint;
use stark_air::field::{BaseElement, FieldElement};
use stark_air::polynom;
use std::collections::HashMap;

/// A deterministic stream of field elements standing in for the coefficient coin.
struct TestCoin {
    state: u64,
}

impl TestCoin {
    fn new(seed: u64) -> TestCoin {
        TestCoin { state: seed }
    }

    fn draw(&mut self) -> BaseElement {
        self.state = self
            .state
            .wrapping_mul(6364136223846793005)
            .wrapping_add(1442695040888963407);
        BaseElement::new(self.state)
    }

    fn draw_pair(&mut self) -> (BaseElement, BaseElement) {
        (self.draw(), self.draw())
    }
}

fn build_prng() -> TestCoin {
    TestCoin::new(42)
}

fn build_constraint_params(
    trace_length: usize,
) -> (BaseElement, HashMap<usize, Vec<BaseElement>>, TestCoin) {
    let inv_g = BaseElement::get_root_of_unity(polynom::log2(trace_length)).inv();
    let prng = build_prng();
    let twiddle_map = HashMap::<usize, Vec<BaseElement>>::new();
    (inv_g, twiddle_map, prng)
}

/// The polynomial that takes `values[i]` at the i-th power of the root of unity of order
/// `values.len()`, by Lagrange interpolation.
fn build_sequence_poly(values: &[BaseElement]) -> Vec<BaseElement> {
    let n = values.len();
    let w = BaseElement::get_root_of_unity(polynom::log2(n));
    let xs: Vec<BaseElement> = (0..n).map(|i| w.exp(i as u64)).collect();
    let mut result = vec![BaseElement::zero(); n];
    for i in 0..n {
        // basis polynomial for xs[i]
        let mut basis = vec![BaseElement::one()];
        let mut denom = BaseElement::one();
        for j in 0..n {
            if j != i {
                basis = polynom::mul(&basis, &[BaseElement::zero().sub(xs[j]), BaseElement::one()]);
                denom = denom.mul(xs[i].sub(xs[j]));
            }
        }
        let scaled = polynom::mul_by_const(&basis, values[i].mul(denom.inv()));
        result = polynom::add(&result, &scaled);
    }
    result
}

#[test]
fn boundary_constraint_from_single_assertion() {
    let mut test_prng = build_prng();
    let (inv_g, mut twiddle_map, mut prng) = build_constraint_params(16);
    let mut rand = TestCoin::new(7);

    // constraint should be built correctly for register 0, step 0
    let value = rand.draw();
    let assertion = Assertion::single(0, 0, value);
    let constraint = BoundaryConstraint::<BaseElement>::new(
        assertion,
        inv_g,
        &mut twiddle_map,
        prng.draw_pair(),
    );
    assert_eq!(0, constraint.register());
    assert_eq!(&vec![value], constraint.poly());
    assert_eq!((0, BaseElement::one()), constraint.poly_offset());
    assert_eq!(test_prng.draw_pair(), *constraint.cc());

    // single value constraints should evaluate to trace_value - value
    let trace_value = rand.draw();
    assert_eq!(
        trace_value.sub(value),
        constraint.evaluate_at(rand.draw(), trace_value)
    );

    // constraint is build correctly for register 1 step 8
    let value = rand.draw();
    let assertion = Assertion::single(1, 8, value);
    let constraint = BoundaryConstraint::<BaseElement>::new(
        assertion,
        inv_g,
        &mut twiddle_map,
        prng.draw_pair(),
    );
    assert_eq!(1, constraint.register());
    assert_eq!(&vec![value], constraint.poly());
    assert_eq!((0, BaseElement::one()), constraint.poly_offset());
    assert_eq!(test_prng.draw_pair(), *constraint.cc());

    // single value constraints should evaluate to trace_value - value
    let trace_value = rand.draw();
    assert_eq!(
        trace_value.sub(value),
        constraint.evaluate_at(rand.draw(), trace_value)
    );

    // twiddle map was not touched
    assert!(twiddle_map.is_empty());
}

#[test]
fn boundary_constraint_from_periodic_assertion() {
    let mut test_prng = build_prng();
    let (inv_g, mut twiddle_map, mut prng) = build_constraint_params(16);
    let mut rand = TestCoin::new(8);

    // constraint should be built correctly for register 0, step 0, stride 4
    let value = rand.draw();
    let assertion = Assertion::periodic(0, 0, 4, value).unwrap();
    let constraint = BoundaryConstraint::<BaseElement>::new(
        assertion,
        inv_g,
        &mut twiddle_map,
        prng.draw_pair(),
    );
    assert_eq!(0, constraint.register());
    assert_eq!(&vec![value], constraint.poly());
    assert_eq!((0, BaseElement::one()), constraint.poly_offset());
    assert_eq!(test_prng.draw_pair(), *constraint.cc());

    // periodic value constraints should evaluate to trace_value - value
    let trace_value = rand.draw();
    assert_eq!(
        trace_value.sub(value),
        constraint.evaluate_at(rand.draw(), trace_value)
    );

    // constraint should be built correctly for register 2, first step 3, stride 8
    let value = rand.draw();
    let assertion = Assertion::periodic(2, 3, 8, value).unwrap();
    let constraint = BoundaryConstraint::<BaseElement>::new(
        assertion,
        inv_g,
        &mut twiddle_map,
        prng.draw_pair(),
    );
    assert_eq!(2, constraint.register());
    assert_eq!(&vec![value], constraint.poly());
    assert_eq!((0, BaseElement::one()), constraint.poly_offset());
    assert_eq!(test_prng.draw_pair(), *constraint.cc());

    // periodic value constraints should evaluate to trace_value - value
    let trace_value = rand.draw();
    assert_eq!(
        trace_value.sub(value),
        constraint.evaluate_at(rand.draw(), trace_value)
    );

    // twiddle map was not touched
    assert!(twiddle_map.is_empty());
}

#[test]
fn boundary_constraint_from_sequence_assertion() {
    let mut test_prng = build_prng();
    let (inv_g, mut twiddle_map, mut prng) = build_constraint_params(16);
    let mut rand = TestCoin::new(9);

    // constraint should be built correctly for register 0, first step 0, stride 4
    let values: Vec<BaseElement> = (0..4).map(|_| rand.draw()).collect();
    let constraint_poly = build_sequence_poly(&values);
    let assertion = Assertion::sequence(0, 0, 4, values).unwrap();
    let constraint = BoundaryConstraint::<BaseElement>::new(
        assertion,
        inv_g,
        &mut twiddle_map,
        prng.draw_pair(),
    );
    assert_eq!(0, constraint.register());
    assert_eq!(&constraint_poly, constraint.poly());
    assert_eq!((0, BaseElement::one()), constraint.poly_offset());
    assert_eq!(test_prng.draw_pair(), *constraint.cc());
    assert_eq!(1, twiddle_map.len());

    // sequence value constraints with no offset should evaluate to
    // trace_value - constraint_poly(x)
    let x = rand.draw();
    let trace_value = rand.draw();
    assert_eq!(
        trace_value.sub(polynom::eval(&constraint_poly, x)),
        constraint.evaluate_at(x, trace_value)
    );

    // constraint should be built correctly for register 0, first step 3, stride 8
    let values: Vec<BaseElement> = (0..2).map(|_| rand.draw()).collect();
    let constraint_poly = build_sequence_poly(&values);
    let assertion = Assertion::sequence(0, 3, 8, values.clone()).unwrap();
    let constraint = BoundaryConstraint::<BaseElement>::new(
        assertion,
        inv_g,
        &mut twiddle_map,
        prng.draw_pair(),
    );
    assert_eq!(0, constraint.register());
    assert_eq!(&constraint_poly, constraint.poly());
    assert_eq!((3, inv_g.exp(3)), constraint.poly_offset());
    assert_eq!(test_prng.draw_pair(), *constraint.cc());
    assert_eq!(2, twiddle_map.len());

    // sequence value constraints with offset should evaluate to
    // trace_value - constraint_poly(x * offset)
    let x = rand.draw();
    let trace_value = rand.draw();
    assert_eq!(
        trace_value.sub(polynom::eval(&constraint_poly, x.mul(constraint.poly_offset().1))),
        constraint.evaluate_at(x, trace_value)
    );
}
