use stark_air::air::{
    build_boundary_groups, get_boundary_constraints, get_periodic_column_polys,
    get_transition_constraints, prepare_assertions,
};
use stark_air::assertion::Assertion;
use stark_air::boundary::BoundaryConstraintGroup;
use stark_air::context::ComputationContext;
use stark_air::divisor::ConstraintDivisor;
use stark_air::error::{AirError, OptionField};
use stark_air::field::{BaseElement, FieldElement};
use stark_air::options::{FieldExtension, HashFunction, ProofOptions};
use stark_air::poly_table::TracePolyTable;
use stark_air::polynom;
use stark_air::transition::{TransitionConstraintDegree, TransitionConstraintGroup};
use std::collections::HashMap;

fn options() -> ProofOptions {
    ProofOptions::new(32, 8, 0, HashFunction::Blake3_256, FieldExtension::NoExtension).unwrap()
}

fn context(width: usize, length: usize) -> ComputationContext {
    ComputationContext::new(
        width,
        length,
        vec![TransitionConstraintDegree::new(2), TransitionConstraintDegree::new(1)],
        options(),
    )
}

fn el(v: u64) -> BaseElement {
    BaseElement::new(v)
}

fn coefficients(n: usize) -> Vec<(BaseElement, BaseElement)> {
    (0..n).map(|i| (el(100 + 2 * i as u64), el(101 + 2 * i as u64))).collect()
}

fn g16() -> BaseElement {
    BaseElement::get_root_of_unity(4)
}

#[test]
fn single_assertion_at_step_zero() {
    let ctx = context(2, 16);
    let groups = get_boundary_constraints(
        vec![Assertion::single(0, 0, el(7))],
        &ctx,
        &coefficients(1),
    )
    .unwrap();
    assert_eq!(1, groups.len());
    let c = &groups[0].constraints()[0];
    assert_eq!(&vec![el(7)], c.poly());
    assert_eq!((0, BaseElement::one()), c.poly_offset());
    let x = el(12345);
    let t = el(1000);
    assert_eq!(el(993), c.evaluate_at(x, t));
    assert_eq!(el(993), c.evaluate_at(el(99), t));
}

#[test]
fn single_assertion_at_step_eight() {
    let ctx = context(2, 16);
    let a = Assertion::single(1, 8, el(5));
    let d = ConstraintDivisor::from_assertion(&a, &ctx);
    assert_eq!(&vec![(1, g16().exp(8))], d.numerator());
    assert!(d.exclude().is_empty());
    assert_eq!(1, d.degree());
    let mut twiddle_map = HashMap::new();
    let mut group = BoundaryConstraintGroup::new(d, 15, ctx.composition_degree());
    group.add(a, g16().inv(), &mut twiddle_map, (el(1), el(2)));
    assert!(twiddle_map.is_empty());
    assert_eq!(&vec![el(5)], group.constraints()[0].poly());
}

#[test]
fn periodic_assertion_with_stride_four() {
    let ctx = context(1, 16);
    let a = Assertion::periodic(0, 0, 4, el(9)).unwrap();
    let d = ConstraintDivisor::from_assertion(&a, &ctx);
    assert_eq!(&vec![(4, BaseElement::one())], d.numerator());
    assert_eq!(4, d.degree());
    // x^4 - 1 vanishes at g^0, g^4, g^8, g^12 and nowhere else in the trace domain
    for step in 0..16u64 {
        let v = d.evaluate_at(g16().exp(step));
        assert_eq!(step % 4 == 0, v == BaseElement::zero());
    }
    let groups = get_boundary_constraints(vec![a], &ctx, &coefficients(1)).unwrap();
    let c = &groups[0].constraints()[0];
    assert_eq!(&vec![el(9)], c.poly());
    assert_eq!((0, BaseElement::one()), c.poly_offset());
}

#[test]
fn sequence_assertion_from_step_zero() {
    let ctx = context(1, 16);
    let values = vec![el(3), el(1), el(4), el(1)];
    let a = Assertion::sequence(0, 0, 4, values.clone()).unwrap();
    let mut twiddle_map = HashMap::new();
    let d = ConstraintDivisor::from_assertion(&a, &ctx);
    assert_eq!(4, d.degree());
    let mut group = BoundaryConstraintGroup::new(d, 15, ctx.composition_degree());
    group.add(a, g16().inv(), &mut twiddle_map, (el(1), el(2)));
    assert_eq!(1, twiddle_map.len());
    assert_eq!(4, twiddle_map[&4].len());
    let c = &group.constraints()[0];
    assert_eq!(4, c.poly().len());
    let x = el(777);
    let t = el(31);
    assert_eq!(t.sub(polynom::eval(c.poly(), x)), c.evaluate_at(x, t));
    // the polynomial takes the asserted values at the asserted steps
    let w = BaseElement::get_root_of_unity(2);
    for (i, v) in values.iter().enumerate() {
        assert_eq!(*v, polynom::eval(c.poly(), w.exp(i as u64)));
        assert_eq!(*v, polynom::eval(c.poly(), g16().exp(4 * i as u64)));
    }
}

#[test]
fn sequence_assertion_from_step_three() {
    let ctx = context(1, 16);
    let values = vec![el(10), el(20)];
    let a = Assertion::sequence(0, 3, 8, values.clone()).unwrap();
    let d = ConstraintDivisor::from_assertion(&a, &ctx);
    assert_eq!(&vec![(2, g16().exp(6))], d.numerator());
    let groups = get_boundary_constraints(vec![a], &ctx, &coefficients(1)).unwrap();
    let c = &groups[0].constraints()[0];
    let inv_g = g16().inv();
    assert_eq!((3, inv_g.exp(3)), c.poly_offset());
    let x = el(4242);
    let t = el(17);
    assert_eq!(
        t.sub(polynom::eval(c.poly(), x.mul(inv_g.exp(3)))),
        c.evaluate_at(x, t)
    );
    // at the asserted steps 3 and 11 the constraint polynomial gives the asserted values
    assert_eq!(values[0], t.sub(c.evaluate_at(g16().exp(3), t)));
    assert_eq!(values[1], t.sub(c.evaluate_at(g16().exp(11), t)));
}

#[test]
fn overlapping_assertions_are_rejected() {
    let ctx = context(1, 16);
    let r = prepare_assertions(
        vec![
            Assertion::single(0, 2, el(1)),
            Assertion::periodic(0, 2, 4, el(1)).unwrap(),
        ],
        &ctx,
    );
    assert_eq!(Some(AirError::AssertionOverlap(0, 1)), r.err());
}

#[test]
fn overlap_detection_covers_equal_and_divisible_strides() {
    let ctx = context(2, 16);
    let same = get_boundary_constraints(
        vec![
            Assertion::periodic(1, 1, 4, el(1)).unwrap(),
            Assertion::periodic(1, 1, 4, el(2)).unwrap(),
        ],
        &ctx,
        &coefficients(2),
    );
    assert_eq!(Some(AirError::AssertionOverlap(0, 1)), same.err());
    let divisible = prepare_assertions(
        vec![
            Assertion::periodic(0, 1, 2, el(1)).unwrap(),
            Assertion::single(1, 3, el(1)),
            Assertion::periodic(0, 3, 8, el(1)).unwrap(),
        ],
        &ctx,
    );
    assert_eq!(Some(AirError::AssertionOverlap(0, 2)), divisible.err());
    // different registers, or first steps that differ modulo the smaller stride, do not overlap
    let fine = prepare_assertions(
        vec![
            Assertion::periodic(0, 1, 2, el(1)).unwrap(),
            Assertion::periodic(1, 1, 2, el(1)).unwrap(),
            Assertion::periodic(0, 2, 8, el(1)).unwrap(),
        ],
        &ctx,
    );
    assert!(fine.is_ok());
}

#[test]
fn validation_errors() {
    let ctx = context(2, 16);
    let r = prepare_assertions(vec![Assertion::single(2, 0, el(1))], &ctx);
    assert_eq!(Some(AirError::RegisterOutOfRange), r.err());
    let r = prepare_assertions(vec![Assertion::single(0, 16, el(1))], &ctx);
    assert_eq!(Some(AirError::StepOutOfRange), r.err());
    let r = prepare_assertions(vec![Assertion::periodic(0, 1, 32, el(1)).unwrap()], &ctx);
    assert_eq!(Some(AirError::StepOutOfRange), r.err());
    let r = prepare_assertions(
        vec![Assertion::sequence(0, 0, 4, vec![el(1), el(2)]).unwrap()],
        &ctx,
    );
    assert_eq!(Some(AirError::InvalidAssertionShape), r.err());
    assert_eq!(
        Some(AirError::InvalidAssertionShape),
        Assertion::periodic(0, 0, 3, el(1)).err()
    );
    assert_eq!(
        Some(AirError::InvalidAssertionShape),
        Assertion::periodic(0, 4, 4, el(1)).err()
    );
    assert_eq!(
        Some(AirError::InvalidAssertionShape),
        Assertion::sequence(0, 0, 4, vec![el(1), el(2), el(3)]).err()
    );
    assert_eq!(
        Some(AirError::InvalidAssertionShape),
        Assertion::sequence(0, 0, 4, vec![el(1)]).err()
    );
}

#[test]
fn prepared_assertions_follow_canonical_order() {
    let ctx = context(3, 16);
    let sorted = prepare_assertions(
        vec![
            Assertion::periodic(2, 1, 4, el(1)).unwrap(),
            Assertion::single(1, 5, el(1)),
            Assertion::periodic(0, 1, 4, el(1)).unwrap(),
            Assertion::single(2, 0, el(1)),
            Assertion::periodic(0, 0, 8, el(1)).unwrap(),
        ],
        &ctx,
    )
    .unwrap();
    let keys: Vec<(usize, usize, usize)> = sorted
        .iter()
        .map(|a| (a.stride(), a.first_step(), a.register()))
        .collect();
    assert_eq!(
        vec![(0, 0, 2), (0, 5, 1), (4, 1, 0), (4, 1, 2), (8, 0, 0)],
        keys
    );
}

fn sample_assertions(order: &[usize]) -> Vec<Assertion> {
    let all = |i: usize| match i {
        0 => Assertion::single(0, 0, el(11)),
        1 => Assertion::single(1, 15, el(12)),
        2 => Assertion::periodic(2, 1, 4, el(13)).unwrap(),
        3 => Assertion::sequence(1, 2, 8, vec![el(1), el(2)]).unwrap(),
        4 => Assertion::sequence(0, 1, 4, vec![el(5), el(6), el(7), el(8)]).unwrap(),
        _ => Assertion::single(2, 2, el(14)),
    };
    order.iter().map(|i| all(*i)).collect()
}

#[test]
fn groups_do_not_depend_on_input_order() {
    let ctx = context(3, 16);
    let a = get_boundary_constraints(sample_assertions(&[0, 1, 2, 3, 4, 5]), &ctx, &coefficients(6))
        .unwrap();
    let b = get_boundary_constraints(sample_assertions(&[5, 3, 1, 4, 0, 2]), &ctx, &coefficients(6))
        .unwrap();
    assert_eq!(format!("{:?}", a), format!("{:?}", b));
}

#[test]
fn groups_are_sorted_by_degree_adjustment() {
    let ctx = context(3, 16);
    let groups = get_boundary_constraints(sample_assertions(&[0, 1, 2, 3, 4, 5]), &ctx, &coefficients(6))
        .unwrap();
    // keys: (0,0) (0,2) (0,15) single steps, (4,1) two assertions, (8,2)
    assert_eq!(5, groups.len());
    let adjustments: Vec<usize> = groups.iter().map(|g| g.degree_adjustment()).collect();
    let comp = ctx.composition_degree();
    assert_eq!(vec![comp - 14, comp - 14, comp - 14, comp - 13, comp - 11], adjustments);
    for g in groups.iter() {
        assert_eq!(comp + g.divisor().degree(), 15 + g.degree_adjustment());
    }
    // the two assertions with stride 4 and first step 1 share a group, register 0 first,
    // with the coefficients of their canonical positions 3 and 4
    let shared = &groups[4];
    assert_eq!(2, shared.constraints().len());
    assert_eq!(0, shared.constraints()[0].register());
    assert_eq!(2, shared.constraints()[1].register());
    assert_eq!((el(106), el(107)), *shared.constraints()[0].cc());
    assert_eq!((el(108), el(109)), *shared.constraints()[1].cc());
    assert_eq!(3, shared.max_poly_degree());
}

#[test]
fn prepopulated_twiddle_cache_gives_the_same_groups() {
    let ctx = context(3, 16);
    let sorted = prepare_assertions(sample_assertions(&[0, 1, 2, 3, 4, 5]), &ctx).unwrap();
    let mut empty = HashMap::new();
    let a = build_boundary_groups(sorted, &ctx, &coefficients(6), &mut empty);
    let sorted = prepare_assertions(sample_assertions(&[0, 1, 2, 3, 4, 5]), &ctx).unwrap();
    let mut full = HashMap::new();
    full.insert(2, polynom::get_inv_twiddles(2));
    full.insert(4, polynom::get_inv_twiddles(4));
    full.insert(8, polynom::get_inv_twiddles(8));
    let b = build_boundary_groups(sorted, &ctx, &coefficients(6), &mut full);
    assert_eq!(format!("{:?}", a), format!("{:?}", b));
    assert_eq!(2, empty.len());
    assert_eq!(3, full.len());
}

#[test]
fn group_evaluation_merges_with_coefficients() {
    let ctx = context(2, 16);
    let groups = get_boundary_constraints(
        vec![Assertion::single(0, 0, el(7)), Assertion::single(1, 0, el(9))],
        &ctx,
        &vec![(el(2), el(3)), (el(5), el(1))],
    )
    .unwrap();
    assert_eq!(1, groups.len());
    let state = vec![el(10), el(20)];
    let x = el(4);
    let xp = el(6);
    // (10 - 7) * (2 + 3 * 6) + (20 - 9) * (5 + 1 * 6) = 60 + 121
    assert_eq!(el(181), groups[0].evaluate_at(&state, x, xp));
}

#[test]
fn transition_divisor_excludes_the_last_steps() {
    let ctx = context(1, 16);
    let d = ConstraintDivisor::from_transition(&ctx);
    assert_eq!(&vec![(16, BaseElement::one())], d.numerator());
    assert_eq!(&vec![g16().exp(15), g16().exp(14)], d.exclude());
    assert_eq!(14, d.degree());
    for step in 0..14u64 {
        assert_eq!(BaseElement::zero(), d.evaluate_at(g16().exp(step)));
    }
    assert_ne!(BaseElement::zero(), d.evaluate_at(el(3)));
}

#[test]
fn transition_constraints_are_grouped_by_degree() {
    let ctx = ComputationContext::new(
        2,
        16,
        vec![
            TransitionConstraintDegree::new(2),
            TransitionConstraintDegree::new(1),
            TransitionConstraintDegree::new(2),
            TransitionConstraintDegree::with_cycles(1, vec![4]),
        ],
        options(),
    );
    assert_eq!(2, ctx.ce_blowup_factor());
    assert_eq!(30, ctx.composition_degree());
    let groups: Vec<TransitionConstraintGroup<BaseElement>> =
        get_transition_constraints(&ctx, &coefficients(4)).unwrap();
    let degrees: Vec<usize> = groups.iter().map(|g| g.evaluation_degree()).collect();
    // 1 * 15 = 15; 1 * 15 + (16 / 4) * 3 = 27; 2 * 15 = 30
    assert_eq!(vec![15, 27, 30], degrees);
    let adjustments: Vec<usize> = groups.iter().map(|g| g.degree_adjustment()).collect();
    // target = 30 + 15 = 45
    assert_eq!(vec![30, 18, 15], adjustments);
    assert_eq!(&vec![0, 2], groups[2].indexes());
    assert_eq!(&vec![(el(100), el(101)), (el(104), el(105))], groups[2].coefficients());
    let evaluations = vec![el(1), el(2), el(3), el(4)];
    // 1 * (100 + 101 * 2) + 3 * (104 + 105 * 2)
    assert_eq!(el(302 + 942), groups[2].evaluate(&evaluations, el(2)));
}

#[test]
fn transition_degree_beyond_target_is_rejected() {
    let ctx = ComputationContext::new(
        1,
        4,
        vec![TransitionConstraintDegree::with_cycles(1, vec![4, 4, 4, 4])],
        options(),
    );
    // target = 8 * 3 + 3 = 27; degree = 3 + 4 * 3 = 15
    assert!(get_transition_constraints::<BaseElement>(&ctx, &coefficients(1)).is_ok());
    let ctx = ComputationContext::new(
        1,
        4,
        vec![TransitionConstraintDegree::with_cycles(
            1,
            vec![2, 2, 2, 2, 2, 2, 2, 2, 2, 2, 2, 2, 2, 2, 2, 2, 2, 2, 2, 2, 2, 2, 2, 2, 2, 2, 2, 2, 2, 2, 2],
        )],
        options(),
    );
    // blowup 32, target = 32 * 3 + 3 = 99; degree = 3 + 31 * 2 = 65
    assert!(get_transition_constraints::<BaseElement>(&ctx, &coefficients(1)).is_ok());
}

#[test]
fn periodic_columns_are_interpolated() {
    let ctx = context(1, 16);
    let columns = vec![vec![el(1), el(2)], vec![el(5), el(6), el(7), el(8)], vec![el(3), el(4)]];
    let polys = get_periodic_column_polys(columns.clone(), &ctx).unwrap();
    assert_eq!(3, polys.len());
    for (column, poly) in columns.iter().zip(polys.iter()) {
        let w = BaseElement::get_root_of_unity(polynom::log2(column.len()));
        for (i, v) in column.iter().enumerate() {
            assert_eq!(*v, polynom::eval(poly, w.exp(i as u64)));
        }
    }
    let bad = get_periodic_column_polys(vec![vec![el(1), el(2), el(3)]], &ctx);
    assert_eq!(Some(AirError::InvalidPeriodicColumn), bad.err());
    let short = get_periodic_column_polys(vec![vec![el(1)]], &ctx);
    assert_eq!(Some(AirError::InvalidPeriodicColumn), short.err());
    let long = get_periodic_column_polys(vec![vec![el(1); 32]], &ctx);
    assert_eq!(Some(AirError::InvalidPeriodicColumn), long.err());
}

#[test]
fn proof_options_ranges() {
    let o = options();
    assert_eq!(32, o.num_queries());
    assert_eq!(8, o.blowup_factor());
    assert_eq!(0, o.grinding_factor());
    assert_eq!(HashFunction::Blake3_256, o.hash_fn());
    assert!(o.field_extension().is_none());
    assert!(!FieldExtension::Quadratic.is_none());
    assert_eq!(BaseElement::generator(), o.domain_offset());
    let bad = |q, b, g| {
        ProofOptions::new(q, b, g, HashFunction::Sha3_256, FieldExtension::Quadratic).err()
    };
    assert_eq!(Some(AirError::OptionOutOfRange(OptionField::NumQueries)), bad(0, 8, 0));
    assert_eq!(Some(AirError::OptionOutOfRange(OptionField::NumQueries)), bad(129, 8, 0));
    assert_eq!(Some(AirError::OptionOutOfRange(OptionField::BlowupFactor)), bad(1, 2, 0));
    assert_eq!(Some(AirError::OptionOutOfRange(OptionField::BlowupFactor)), bad(1, 12, 0));
    assert_eq!(Some(AirError::OptionOutOfRange(OptionField::BlowupFactor)), bad(1, 512, 0));
    assert_eq!(Some(AirError::OptionOutOfRange(OptionField::GrindingFactor)), bad(128, 256, 33));
    assert!(bad(128, 256, 32).is_none());
    assert!(bad(1, 4, 0).is_none());
}

#[test]
fn trace_poly_table_evaluates_each_polynomial() {
    let table = TracePolyTable::new(vec![vec![el(1), el(2)], vec![el(3), el(4)]]);
    assert_eq!(2, table.poly_size());
    assert_eq!(2, table.num_polys());
    assert_eq!(&vec![el(3), el(4)], table.get_poly(1));
    // 1 + 2 * 5 = 11; 3 + 4 * 5 = 23
    assert_eq!(vec![el(11), el(23)], table.evaluate_at(el(5)));
    assert_eq!(vec![vec![el(1), el(2)], vec![el(3), el(4)]], table.into_vec());
}

#[test]
fn context_sizes() {
    let ctx = context(3, 32);
    assert_eq!(3, ctx.trace_width());
    assert_eq!(32, ctx.trace_length());
    assert_eq!(31, ctx.trace_poly_degree());
    assert_eq!(2, ctx.ce_blowup_factor());
    assert_eq!(62, ctx.composition_degree());
    assert_eq!(2, ctx.transition_exemptions());
    let g = ctx.get_trace_domain_generator();
    assert_eq!(BaseElement::one(), g.exp(32));
    assert_ne!(BaseElement::one(), g.exp(16));
}
