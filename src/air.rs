//! The constraint compiler: validates and orders assertions, builds the boundary constraint
//! groups, groups the transition constraints by degree, and interpolates periodic columns.
use crate::assertion::{Assertion, AssertionModel};
use crate::boundary::{constraint_of, twiddles_valid, BoundaryConstraintGroup, GroupModel};
use crate::context::ComputationContext;
use crate::divisor::{assertion_divisor, ConstraintDivisor};
use crate::error::AirError;
use crate::field::{BaseElement, FieldElement};
use crate::polynom::{
    get_inv_twiddles, interpolate_poly, interpolate_spec, inv_twiddles_spec, is_pow2,
    is_power_of_two, root_of_order,
};
use crate::transition::{TransitionConstraintGroup, TransitionGroupModel};
use std::collections::HashMap;
use vstd::prelude::*;

verus! {

broadcast use vstd::seq_lib::group_to_multiset_ensures;

/// What a sequence of assertions states, in order.
pub open spec fn views(v: Seq<Assertion>) -> Seq<AssertionModel> {
    v.map_values(|a: Assertion| a@)
}

/// The first position `j`, from `j` on and below `i`, whose assertion overlaps the one at `i`.
pub open spec fn first_overlap(s: Seq<AssertionModel>, i: int, j: int) -> Option<int>
    decreases i - j,
{
    if j >= i {
        None
    } else if s[j].overlaps(s[i]) {
        Some(j)
    } else {
        first_overlap(s, i, j + 1)
    }
}

/// Why the assertion at position `i` is rejected, given that none before it was: its
/// register, its steps, the number of its values, or an overlap with an earlier assertion.
pub open spec fn assertion_error(s: Seq<AssertionModel>, width: nat, n: nat, i: int) -> Option<AirError> {
    let a = s[i];
    if !a.fits_width(width) {
        Some(AirError::RegisterOutOfRange)
    } else if !a.fits_steps(n) {
        Some(AirError::StepOutOfRange)
    } else if !a.fits_values(n) {
        Some(AirError::InvalidAssertionShape)
    } else {
        match first_overlap(s, i, 0) {
            Some(j) => Some(AirError::AssertionOverlap(j as usize, i as usize)),
            None => None,
        }
    }
}

/// The error of the first rejected assertion among the first `m`, if any.
pub open spec fn assertions_error(s: Seq<AssertionModel>, width: nat, n: nat, m: int) -> Option<AirError>
    decreases m,
{
    if m <= 0 {
        None
    } else {
        match assertions_error(s, width, n, m - 1) {
            Some(e) => Some(e),
            None => assertion_error(s, width, n, m - 1),
        }
    }
}

/// `s` is in strictly increasing canonical order.
pub open spec fn canonical(s: Seq<AssertionModel>) -> bool {
    forall|i: int, j: int| 0 <= i < j < s.len() ==> #[trigger] s[i].precedes(#[trigger] s[j])
}

/// Every assertion of `s` is well formed and holds in a trace of width `width` and length `n`.
pub open spec fn all_valid(s: Seq<AssertionModel>, width: nat, n: nat) -> bool {
    forall|i: int| 0 <= i < s.len() ==> (#[trigger] s[i]).well_formed() && s[i].valid_for(width, n)
}

proof fn lemma_first_overlap_none(s: Seq<AssertionModel>, i: int, j: int)
    requires
        0 <= j,
        first_overlap(s, i, j) is None,
    ensures
        forall|k: int| j <= k < i ==> !(#[trigger] s[k]).overlaps(s[i]),
    decreases i - j,
{
    if j < i {
        lemma_first_overlap_none(s, i, j + 1);
    }
}

proof fn lemma_no_error(s: Seq<AssertionModel>, width: nat, n: nat, m: int)
    requires
        0 <= m <= s.len(),
        assertions_error(s, width, n, m) is None,
    ensures
        forall|i: int| 0 <= i < m ==> (#[trigger] s[i]).valid_for(width, n),
        forall|i: int, j: int| 0 <= i < j < m ==> !(#[trigger] s[i]).overlaps(#[trigger] s[j]),
    decreases m,
{
    if m > 0 {
        lemma_no_error(s, width, n, m - 1);
        lemma_first_overlap_none(s, m - 1, 0);
    }
}

proof fn lemma_error_stays(s: Seq<AssertionModel>, width: nat, n: nat, m: int, m2: int)
    requires
        0 <= m <= m2,
        assertions_error(s, width, n, m) is Some,
    ensures
        assertions_error(s, width, n, m2) == assertions_error(s, width, n, m),
    decreases m2 - m,
{
    if m2 > m {
        lemma_error_stays(s, width, n, m, m2 - 1);
    }
}

/// Same stride, first step and register make two assertions overlap.
proof fn lemma_distinct_keys(a: AssertionModel, b: AssertionModel)
    requires
        !a.overlaps(b),
    ensures
        a.precedes(b) || b.precedes(a),
{
}

/// Checks the assertions against the context and returns them in canonical order: by
/// stride, then first step, then register. The first assertion (in input order) whose
/// register lies outside the trace, whose steps do not fit the trace, whose values do not
/// match its steps, or that overlaps an earlier one, stops the work with the matching error.
pub fn prepare_assertions(assertions: Vec<Assertion>, context: &ComputationContext) -> (r: Result<
    Vec<Assertion>,
    AirError,
>)
    ensures
        match assertions_error(
            views(assertions@),
            context@.trace_width,
            context@.trace_length,
            assertions@.len() as int,
        ) {
            Some(e) => r == Err::<Vec<Assertion>, AirError>(e),
            None => r is Ok && canonical(views(r->Ok_0@)) && views(r->Ok_0@).to_multiset()
                == views(assertions@).to_multiset() && all_valid(
                views(r->Ok_0@),
                context@.trace_width,
                context@.trace_length,
            ),
        },
{
    let width = context.trace_width();
    let n = context.trace_length();
    let ghost s = views(assertions@);
    let mut i: usize = 0;
    while i < assertions.len()
        invariant
            i <= assertions@.len(),
            s == views(assertions@),
            width == context@.trace_width,
            n == context@.trace_length,
            assertions_error(s, width as nat, n as nat, i as int) is None,
            forall|k: int| 0 <= k < i ==> (#[trigger] s[k]).well_formed(),
        decreases assertions@.len() - i,
    {
        let a = &assertions[i];
        proof {
            assert(s[i as int] == a@);
        }
        match a.validate_trace_width(width) {
            Err(e) => {
                proof {
                    lemma_error_stays(s, width as nat, n as nat, i + 1, s.len() as int);
                }
                return Err(e);
            },
            Ok(()) => {},
        }
        match a.validate_trace_length(n) {
            Err(e) => {
                proof {
                    lemma_error_stays(s, width as nat, n as nat, i + 1, s.len() as int);
                }
                return Err(e);
            },
            Ok(()) => {},
        }
        let mut j: usize = 0;
        while j < i
            invariant
                j <= i,
                i < assertions@.len(),
                s == views(assertions@),
                first_overlap(s, i as int, 0) == first_overlap(s, i as int, j as int),
                width == context@.trace_width,
                n == context@.trace_length,
                assertions_error(s, width as nat, n as nat, i as int) is None,
                s[i as int].valid_for(width as nat, n as nat),
            decreases i - j,
        {
            proof {
                assert(s[j as int] == assertions@[j as int]@);
                assert(s[i as int] == assertions@[i as int]@);
            }
            if assertions[j].overlaps_with(&assertions[i]) {
                proof {
                    lemma_error_stays(s, width as nat, n as nat, i + 1, s.len() as int);
                }
                return Err(AirError::AssertionOverlap(j, i));
            }
            j = j + 1;
        }
        i = i + 1;
    }
    proof {
        lemma_no_error(s, width as nat, n as nat, s.len() as int);
    }
    let mut remaining = assertions;
    let mut result: Vec<Assertion> = Vec::new();
    proof {
        assert(s.subrange(remaining@.len() as int, s.len() as int) =~= Seq::<AssertionModel>::empty());
        assert(views(result@) =~= Seq::<AssertionModel>::empty());
    }
    while remaining.len() > 0
        invariant
            remaining@.len() <= s.len(),
            views(remaining@) == s.subrange(0, remaining@.len() as int),
            views(result@).to_multiset() == s.subrange(
                remaining@.len() as int,
                s.len() as int,
            ).to_multiset(),
            canonical(views(result@)),
            forall|k: int| 0 <= k < s.len() ==> (#[trigger] s[k]).valid_for(width as nat, n as nat)
                && s[k].well_formed(),
            forall|k: int, l: int| 0 <= k < l < s.len() ==> !(#[trigger] s[k]).overlaps(#[trigger] s[l]),
        decreases remaining@.len(),
    {
        let ghost k = (remaining@.len() - 1) as int;
        let ghost before = views(result@);
        let ghost old_remaining = remaining@;
        let x = remaining.pop().unwrap();
        proof {
            assert(views(old_remaining)[k] == x@);
            assert(views(remaining@) =~= s.subrange(0, k));
            assert(x@ == s[k]);
        }
        let mut pos: usize = 0;
        while pos < result.len() && !x.precedes(&result[pos])
            invariant
                pos <= result@.len(),
                before == views(result@),
                forall|t: int| 0 <= t < pos ==> !x@.precedes(#[trigger] before[t]),
            decreases result@.len() - pos,
        {
            proof {
                assert(before[pos as int] == result@[pos as int]@);
            }
            pos = pos + 1;
        }
        proof {
            if pos < result@.len() {
                assert(before[pos as int] == result@[pos as int]@);
            }
            // every earlier member is taken from a later position of the input, so its key
            // differs from x's
            assert forall|t: int| 0 <= t < before.len() implies #[trigger] before[t].precedes(x@)
                || x@.precedes(before[t]) by {
                assert(before.to_multiset().contains(before[t]));
                assert(s.subrange(k + 1, s.len() as int).contains(before[t]));
                let tail = s.subrange(k + 1, s.len() as int);
                let l = choose|l: int| 0 <= l < tail.len() && #[trigger] tail[l] == before[t];
                assert(s[k + 1 + l] == before[t]);
                assert(!s[k].overlaps(s[k + 1 + l]));
                lemma_distinct_keys(s[k], s[k + 1 + l]);
            }
        }
        result.insert(pos, x);
        proof {
            let after = views(result@);
            assert(after =~= before.insert(pos as int, x@));
            assert(s.subrange(k, s.len() as int) =~= s.subrange(k + 1, s.len() as int).insert(
                0,
                s[k],
            ));
            assert forall|a: int, b: int| 0 <= a < b < after.len() implies #[trigger] after[a].precedes(
                #[trigger] after[b],
            ) by {
                if b < pos {
                } else if b == pos {
                    assert(!x@.precedes(before[a]));
                } else if a < pos {
                    assert(!x@.precedes(before[a]));
                    assert(before[a].precedes(x@));
                    if pos < before.len() {
                        assert(x@.precedes(before[pos as int]));
                    }
                } else if a == pos {
                    assert(x@.precedes(before[pos as int]));
                    if b - 1 > pos {
                        assert(before[pos as int].precedes(before[b - 1]));
                    }
                } else {
                    assert(before[a - 1].precedes(before[b - 1]));
                }
            }
        }
    }
    proof {
        assert(s.subrange(0, s.len() as int) =~= s);
        let v = views(result@);
        assert forall|t: int| 0 <= t < v.len() implies #[trigger] v[t].well_formed()
            && v[t].valid_for(width as nat, n as nat) by {
            assert(v.to_multiset().contains(v[t]));
            assert(s.contains(v[t]));
        }
    }
    Ok(result)
}

/// The canonical ordering of the assertions of `s`: the sequence in canonical order that
/// holds the same assertions (it is unique; see `lemma_canonical_unique`).
pub open spec fn canonical_order(s: Seq<AssertionModel>) -> Seq<AssertionModel> {
    choose|t: Seq<AssertionModel>| canonical(t) && t.to_multiset() == s.to_multiset()
}

/// Two sequences in canonical order that hold the same assertions are equal.
pub proof fn lemma_canonical_unique(x: Seq<AssertionModel>, y: Seq<AssertionModel>)
    requires
        canonical(x),
        canonical(y),
        x.to_multiset() == y.to_multiset(),
    ensures
        x == y,
    decreases x.len(),
{
    broadcast use vstd::multiset::group_multiset_axioms;

    vstd::seq_lib::to_multiset_len(x);
    vstd::seq_lib::to_multiset_len(y);
    if x.len() == 0 || y.len() == 0 {
        assert(x =~= y);
    } else {
        assert(x.to_multiset().contains(x[0]));
        assert(y.to_multiset().contains(y[0]));
        assert(y.contains(x[0]));
        assert(x.contains(y[0]));
        let i = choose|i: int| 0 <= i < y.len() && y[i] == x[0];
        let j = choose|j: int| 0 <= j < x.len() && x[j] == y[0];
        if i > 0 && j > 0 {
            assert(y[0].precedes(y[i]));
            assert(x[0].precedes(x[j]));
            assert(false);
        } else if i > 0 {
            assert(y[0].precedes(y[i]));
        } else if j > 0 {
            assert(x[0].precedes(x[j]));
        }
        assert(x[0] == y[0]);
        assert(x.drop_first().to_multiset() =~= x.to_multiset().remove(x[0])) by {
            assert(x =~= x.drop_first().insert(0, x[0]));
        }
        assert(y.drop_first().to_multiset() =~= y.to_multiset().remove(y[0])) by {
            assert(y =~= y.drop_first().insert(0, y[0]));
        }
        lemma_canonical_unique(x.drop_first(), y.drop_first());
        assert(x.len() == y.len());
        assert forall|k: int| 0 <= k < x.len() implies x[k] == y[k] by {
            if k > 0 {
                assert(x[k] == x.drop_first()[k - 1]);
                assert(y[k] == y.drop_first()[k - 1]);
            }
        }
        assert(x =~= y);
    }
}

/// What a sequence of boundary groups holds, in order.
pub open spec fn group_views<E>(v: Seq<BoundaryConstraintGroup<E>>) -> Seq<GroupModel<E>> {
    v.map_values(|g: BoundaryConstraintGroup<E>| g@)
}

/// The groups built from the first `m` assertions of `sa` (in canonical order), with
/// coefficients `cc[i]` for the `i`-th: each run of assertions that share stride and first
/// step forms one group, whose divisor comes from the run's first assertion, in a trace of
/// length `n` with composition degree `comp`.
pub open spec fn boundary_runs<E>(
    sa: Seq<AssertionModel>,
    cc: Seq<(E, E)>,
    inv_g: BaseElement,
    n: nat,
    comp: nat,
    m: int,
) -> Seq<GroupModel<E>>
    decreases m,
{
    if m <= 0 {
        Seq::empty()
    } else {
        let prev = boundary_runs(sa, cc, inv_g, n, comp, m - 1);
        let a = sa[m - 1];
        let c = constraint_of(a, inv_g, cc[m - 1]);
        if m >= 2 && sa[m - 2].stride == a.stride && sa[m - 2].first_step == a.first_step {
            prev.update(
                prev.len() - 1,
                GroupModel { constraints: prev.last().constraints.push(c), ..prev.last() },
            )
        } else {
            let d = assertion_divisor(a, n);
            prev.push(
                GroupModel {
                    constraints: seq![c],
                    divisor: d,
                    degree_adjustment: (comp + d.degree() - (n - 1)) as nat,
                },
            )
        }
    }
}

/// The position at which a group of degree adjustment `adj` is inserted into `s`, after
/// every group from `i` on whose adjustment is not larger.
pub open spec fn adjustment_position<E>(s: Seq<GroupModel<E>>, adj: nat, i: int) -> int
    decreases s.len() - i,
{
    if i >= s.len() {
        s.len() as int
    } else if s[i].degree_adjustment > adj {
        i
    } else {
        adjustment_position(s, adj, i + 1)
    }
}

/// `s` stably sorted by ascending degree adjustment: groups with equal adjustments keep
/// their relative order.
pub open spec fn sort_by_adjustment<E>(s: Seq<GroupModel<E>>) -> Seq<GroupModel<E>>
    decreases s.len(),
{
    if s.len() == 0 {
        s
    } else {
        let sorted = sort_by_adjustment(s.drop_last());
        sorted.insert(adjustment_position(sorted, s.last().degree_adjustment, 0), s.last())
    }
}

/// The boundary groups of a computation whose assertions, in canonical order, are `sa`.
pub open spec fn boundary_groups<E>(sa: Seq<AssertionModel>, cc: Seq<(E, E)>, n: nat, comp: nat) -> Seq<
    GroupModel<E>,
> {
    sort_by_adjustment(
        boundary_runs(
            sa,
            cc,
            BaseElement::spec_inv(root_of_order(n)),
            n,
            comp,
            sa.len() as int,
        ),
    )
}

/// Builds the boundary groups from assertions already in canonical order and valid in
/// `context`, drawing the coefficients of the `i`-th from `coefficients[i]` and the inverse
/// twiddles from `twiddle_map`, which may already hold some.
pub fn build_boundary_groups<E: FieldElement>(
    sorted: Vec<Assertion>,
    context: &ComputationContext,
    coefficients: &Vec<(E, E)>,
    twiddle_map: &mut HashMap<usize, Vec<BaseElement>>,
) -> (r: Vec<BoundaryConstraintGroup<E>>)
    requires
        canonical(views(sorted@)),
        all_valid(views(sorted@), context@.trace_width, context@.trace_length),
        coefficients@.len() == sorted@.len(),
        twiddles_valid(old(twiddle_map)@),
    ensures
        group_views(r@) == boundary_groups(
            views(sorted@),
            coefficients@,
            context@.trace_length,
            context@.composition_degree(),
        ),
        twiddles_valid(final(twiddle_map)@),
{
    let ghost sa = views(sorted@);
    let n = context.trace_length();
    let tpd = context.trace_poly_degree();
    let comp = context.composition_degree();
    let inv_g = context.get_trace_domain_generator().inv();
    proof {
        assert(comp >= tpd) by (nonlinear_arith)
            requires
                comp == context@.ce_blowup_factor * tpd,
                context@.ce_blowup_factor >= 1,
        ;
    }
    let mut remaining = sorted;
    let mut runs: Vec<BoundaryConstraintGroup<E>> = Vec::new();
    let mut cur: Option<BoundaryConstraintGroup<E>> = None;
    let mut prev_stride: usize = 0;
    let mut prev_first_step: usize = 0;
    let mut i: usize = 0;
    while i < coefficients.len()
        invariant
            i <= sa.len(),
            sa.len() == coefficients@.len(),
            remaining@.len() == sa.len() - i,
            views(remaining@) == sa.subrange(i as int, sa.len() as int),
            all_valid(sa, context@.trace_width, context@.trace_length),
            n == context@.trace_length,
            tpd == n - 1,
            comp == context@.composition_degree(),
            comp <= 512 * n,
            comp >= tpd,
            context@.well_formed(),
            inv_g == BaseElement::spec_inv(root_of_order(n as nat)),
            twiddles_valid(twiddle_map@),
            cur is Some <==> i > 0,
            i > 0 ==> prev_stride == sa[i - 1].stride && prev_first_step == sa[i - 1].first_step,
            group_views(runs@) + (if i > 0 {
                seq![cur->Some_0@]
            } else {
                Seq::empty()
            }) == boundary_runs(sa, coefficients@, inv_g, n as nat, comp as nat, i as int),
        decreases sa.len() - i,
    {
        let ghost old_remaining = remaining@;
        let a = remaining.remove(0);
        proof {
            assert(views(old_remaining)[0] == a@);
            assert forall|k: int| 0 <= k < remaining@.len() implies #[trigger] views(remaining@)[k]
                == sa[i + 1 + k] by {
                assert(remaining@[k] == old_remaining[k + 1]);
                assert(views(old_remaining)[k + 1] == sa.subrange(i as int, sa.len() as int)[k + 1]);
            }
            assert(views(remaining@) =~= sa.subrange(i + 1, sa.len() as int));
            assert(a@ == sa[i as int]);
            assert(sa[i as int].well_formed() && sa[i as int].valid_for(
                context@.trace_width,
                context@.trace_length,
            ));
            if a@.values.len() > 1 {
                assert(a@.values.len() <= n) by (nonlinear_arith)
                    requires
                        a@.values.len() * a@.stride == n,
                        a@.stride >= 2,
                ;
            }
        }
        let stride = a.stride();
        let first_step = a.first_step();
        let ghost before = boundary_runs(sa, coefficients@, inv_g, n as nat, comp as nat, i as int);
        let ghost after = boundary_runs(sa, coefficients@, inv_g, n as nat, comp as nat, i + 1);
        let ghost c = constraint_of(a@, inv_g, coefficients@[i as int]);
        if i > 0 && stride == prev_stride && first_step == prev_first_step {
            let mut g = cur.unwrap();
            g.add(a, inv_g, twiddle_map, coefficients[i]);
            proof {
                assert(after == before.update(
                    before.len() - 1,
                    GroupModel { constraints: before.last().constraints.push(c), ..before.last() },
                ));
                assert(group_views(runs@) + seq![g@] =~= after);
            }
            cur = Some(g);
        } else {
            let ghost old_runs = runs@;
            match cur {
                Some(g) => {
                    runs.push(g);
                },
                None => {},
            }
            proof {
                assert(group_views(runs@) =~= before);
            }
            let d = ConstraintDivisor::from_assertion(&a, context);
            proof {
                vstd::arithmetic::div_mod::lemma_div_is_ordered_by_denominator(
                    n as int,
                    1,
                    if stride == 0 { 1 } else { stride as int },
                );
            }
            let mut g = BoundaryConstraintGroup::new(d, tpd, comp);
            g.add(a, inv_g, twiddle_map, coefficients[i]);
            proof {
                assert(g@.constraints =~= seq![c]);
                assert(after == before.push(
                    GroupModel {
                        constraints: seq![c],
                        divisor: assertion_divisor(a@, n as nat),
                        degree_adjustment: (comp + assertion_divisor(a@, n as nat).degree() - (n
                            - 1)) as nat,
                    },
                ));
                assert(group_views(runs@) + seq![g@] =~= after);
            }
            cur = Some(g);
        }
        prev_stride = stride;
        prev_first_step = first_step;
        i = i + 1;
    }
    match cur {
        Some(g) => {
            runs.push(g);
        },
        None => {},
    }
    proof {
        assert(group_views(runs@) =~= boundary_runs(
            sa,
            coefficients@,
            inv_g,
            n as nat,
            comp as nat,
            sa.len() as int,
        ));
    }
    sort_groups(runs)
}

/// Sorts groups stably by ascending degree adjustment.
fn sort_groups<E: FieldElement>(groups: Vec<BoundaryConstraintGroup<E>>) -> (r: Vec<
    BoundaryConstraintGroup<E>,
>)
    ensures
        group_views(r@) == sort_by_adjustment(group_views(groups@)),
{
    let ghost gs = group_views(groups@);
    let total = groups.len();
    let mut remaining = groups;
    let mut result: Vec<BoundaryConstraintGroup<E>> = Vec::new();
    let mut i: usize = 0;
    proof {
        assert(gs.subrange(0, 0) =~= Seq::<GroupModel<E>>::empty());
        assert(group_views(result@) =~= Seq::<GroupModel<E>>::empty());
    }
    while remaining.len() > 0
        invariant
            i <= gs.len(),
            gs.len() == total,
            remaining@.len() == gs.len() - i,
            group_views(remaining@) == gs.subrange(i as int, gs.len() as int),
            group_views(result@) == sort_by_adjustment(gs.subrange(0, i as int)),
        decreases remaining@.len(),
    {
        let ghost old_remaining = remaining@;
        let g = remaining.remove(0);
        proof {
            assert(group_views(old_remaining)[0] == g@);
            assert forall|k: int| 0 <= k < remaining@.len() implies #[trigger] group_views(
                remaining@,
            )[k] == gs[i + 1 + k] by {
                assert(remaining@[k] == old_remaining[k + 1]);
                assert(group_views(old_remaining)[k + 1] == gs.subrange(i as int, gs.len() as int)[k
                    + 1]);
            }
            assert(group_views(remaining@) =~= gs.subrange(i + 1, gs.len() as int));
        }
        let adj = g.degree_adjustment();
        let ghost before = group_views(result@);
        let mut pos: usize = 0;
        while pos < result.len() && result[pos].degree_adjustment() <= adj
            invariant
                pos <= result@.len(),
                before == group_views(result@),
                adjustment_position(before, adj as nat, 0) == adjustment_position(
                    before,
                    adj as nat,
                    pos as int,
                ),
            decreases result@.len() - pos,
        {
            proof {
                assert(before[pos as int] == result@[pos as int]@);
            }
            pos = pos + 1;
        }
        proof {
            if pos < result@.len() {
                assert(before[pos as int] == result@[pos as int]@);
            }
            let sub = gs.subrange(0, i + 1);
            assert(sub.drop_last() =~= gs.subrange(0, i as int));
            assert(sub.last() == g@);
        }
        result.insert(pos, g);
        proof {
            assert(group_views(result@) =~= before.insert(pos as int, g@));
        }
        i = i + 1;
    }
    proof {
        assert(gs.subrange(0, i as int) =~= gs);
    }
    result
}

/// Builds the boundary constraint groups of a computation: validates the assertions and
/// puts them in canonical order (see `prepare_assertions`), gives the `i`-th of that order
/// the coefficients `coefficients[i]`, groups the assertions that share stride and first
/// step under one divisor, and sorts the groups stably by degree adjustment.
pub fn get_boundary_constraints<E: FieldElement>(
    assertions: Vec<Assertion>,
    context: &ComputationContext,
    coefficients: &Vec<(E, E)>,
) -> (r: Result<Vec<BoundaryConstraintGroup<E>>, AirError>)
    requires
        coefficients@.len() == assertions@.len(),
    ensures
        match assertions_error(
            views(assertions@),
            context@.trace_width,
            context@.trace_length,
            assertions@.len() as int,
        ) {
            Some(e) => r == Err::<Vec<BoundaryConstraintGroup<E>>, AirError>(e),
            None => r is Ok && group_views(r->Ok_0@) == boundary_groups(
                canonical_order(views(assertions@)),
                coefficients@,
                context@.trace_length,
                context@.composition_degree(),
            ),
        },
{
    let ghost s = views(assertions@);
    let sorted = match prepare_assertions(assertions, context) {
        Ok(v) => v,
        Err(e) => {
            return Err(e);
        },
    };
    proof {
        let sa = views(sorted@);
        assert(sa.len() == s.len()) by {
            assert(sa.to_multiset().len() == s.to_multiset().len());
        }
        let t = canonical_order(s);
        assert(canonical(t) && t.to_multiset() == s.to_multiset());
        lemma_canonical_unique(t, sa);
    }
    let mut twiddle_map: HashMap<usize, Vec<BaseElement>> = HashMap::new();
    Ok(build_boundary_groups(sorted, context, coefficients, &mut twiddle_map))
}

/// Evaluation degrees of the transition constraints of a context.
pub open spec fn evaluation_degrees(c: crate::context::ContextModel) -> Seq<nat> {
    Seq::new(
        c.transition_degrees.len(),
        |i: int| c.transition_degrees[i].evaluation_degree(c.trace_length),
    )
}

/// Target degree of the transition constraints before division:
/// `composition_degree + trace_poly_degree`.
pub open spec fn transition_target(c: crate::context::ContextModel) -> nat {
    c.composition_degree() + c.trace_poly_degree()
}

/// The first position from `i` on whose group has evaluation degree at least `e`.
pub open spec fn degree_position<E>(s: Seq<TransitionGroupModel<E>>, e: nat, i: int) -> int
    decreases s.len() - i,
{
    if i >= s.len() {
        s.len() as int
    } else if s[i].evaluation_degree >= e {
        i
    } else {
        degree_position(s, e, i + 1)
    }
}

/// The transition groups of the first `m` constraints, whose evaluation degrees are `eds`:
/// one group per evaluation degree, in ascending order of degree, each listing its
/// constraints in index order with their coefficients `cc[i]`.
pub open spec fn transition_groups<E>(eds: Seq<nat>, cc: Seq<(E, E)>, target: nat, m: int) -> Seq<
    TransitionGroupModel<E>,
>
    decreases m,
{
    if m <= 0 {
        Seq::empty()
    } else {
        let prev = transition_groups(eds, cc, target, m - 1);
        let e = eds[m - 1];
        let p = degree_position(prev, e, 0);
        if p < prev.len() && prev[p].evaluation_degree == e {
            prev.update(
                p,
                TransitionGroupModel {
                    indexes: prev[p].indexes.push((m - 1) as usize),
                    coefficients: prev[p].coefficients.push(cc[m - 1]),
                    ..prev[p]
                },
            )
        } else {
            prev.insert(
                p,
                TransitionGroupModel {
                    evaluation_degree: e,
                    degree_adjustment: (target - e) as nat,
                    indexes: seq![(m - 1) as usize],
                    coefficients: seq![cc[m - 1]],
                },
            )
        }
    }
}

/// What a sequence of transition groups holds, in order.
pub open spec fn transition_views<E>(v: Seq<TransitionConstraintGroup<E>>) -> Seq<
    TransitionGroupModel<E>,
> {
    v.map_values(|g: TransitionConstraintGroup<E>| g@)
}

/// Groups the transition constraints of `context` by evaluation degree, giving the `i`-th
/// constraint the coefficients `coefficients[i]`. Fails when a constraint's evaluation
/// degree exceeds the target degree.
pub fn get_transition_constraints<E: FieldElement>(
    context: &ComputationContext,
    coefficients: &Vec<(E, E)>,
) -> (r: Result<Vec<TransitionConstraintGroup<E>>, AirError>)
    requires
        coefficients@.len() == context@.transition_degrees.len(),
    ensures
        (exists|i: int|
            0 <= i < evaluation_degrees(context@).len() && #[trigger] evaluation_degrees(
                context@,
            )[i] > transition_target(context@)) ==> r == Err::<
            Vec<TransitionConstraintGroup<E>>,
            AirError,
        >(AirError::InconsistentDegree),
        (forall|i: int|
            0 <= i < evaluation_degrees(context@).len() ==> #[trigger] evaluation_degrees(
                context@,
            )[i] <= transition_target(context@)) ==> r is Ok && transition_views(r->Ok_0@)
            == transition_groups(
            evaluation_degrees(context@),
            coefficients@,
            transition_target(context@),
            coefficients@.len() as int,
        ),
{
    let n = context.trace_length();
    let degrees = context.transition_constraint_degrees();
    let target = context.composition_degree() + context.trace_poly_degree();
    let ghost eds = evaluation_degrees(context@);
    let mut eds_exec: Vec<usize> = Vec::new();
    let mut i: usize = 0;
    while i < degrees.len()
        invariant
            i <= degrees@.len(),
            degrees@ == context@.transition_degrees,
            n == context@.trace_length,
            context@.well_formed(),
            target == transition_target(context@),
            eds == evaluation_degrees(context@),
            eds_exec@.len() == i,
            forall|k: int| 0 <= k < i ==> eds_exec@[k] == eds[k] && eds[k] <= target,
        decreases degrees@.len() - i,
    {
        proof {
            assert(degrees@[i as int].well_formed() && degrees@[i as int].fits(n as nat));
            assert(crate::transition::MAX_BASE_DEGREE + crate::transition::MAX_CYCLES <= 1024);
            assert((crate::transition::MAX_BASE_DEGREE + crate::transition::MAX_CYCLES) * n <= 1024
                * n) by (nonlinear_arith);
        }
        let e = degrees[i].get_evaluation_degree(n);
        proof {
            assert(eds[i as int] == e);
        }
        if e > target {
            return Err(AirError::InconsistentDegree);
        }
        eds_exec.push(e);
        i = i + 1;
    }
    let mut groups: Vec<TransitionConstraintGroup<E>> = Vec::new();
    let mut m: usize = 0;
    proof {
        assert(transition_views(groups@) =~= Seq::<TransitionGroupModel<E>>::empty());
    }
    while m < eds_exec.len()
        invariant
            m <= eds_exec@.len(),
            eds_exec@.len() == eds.len(),
            eds.len() == coefficients@.len(),
            forall|k: int| 0 <= k < eds.len() ==> eds_exec@[k] == eds[k] && eds[k] <= target,
            transition_views(groups@) == transition_groups(eds, coefficients@, target as nat, m as int),
        decreases eds_exec@.len() - m,
    {
        let e = eds_exec[m];
        proof {
            assert(eds_exec@[m as int] == eds[m as int]);
        }
        let ghost prev = transition_views(groups@);
        let mut p: usize = 0;
        while p < groups.len() && groups[p].evaluation_degree() < e
            invariant
                p <= groups@.len(),
                e <= target,
                prev == transition_views(groups@),
                degree_position(prev, e as nat, 0) == degree_position(prev, e as nat, p as int),
            decreases groups@.len() - p,
        {
            proof {
                assert(prev[p as int] == groups@[p as int]@);
            }
            p = p + 1;
        }
        proof {
            if p < groups@.len() {
                assert(prev[p as int] == groups@[p as int]@);
            }
        }
        if p < groups.len() && groups[p].evaluation_degree() == e {
            let mut g = groups.remove(p);
            g.add(m, coefficients[m]);
            groups.insert(p, g);
            proof {
                assert(transition_views(groups@) =~= prev.update(
                    p as int,
                    TransitionGroupModel {
                        indexes: prev[p as int].indexes.push(m),
                        coefficients: prev[p as int].coefficients.push(coefficients@[m as int]),
                        ..prev[p as int]
                    },
                ));
            }
        } else {
            let mut g = TransitionConstraintGroup::new(e, target - e);
            g.add(m, coefficients[m]);
            groups.insert(p, g);
            proof {
                assert(g@.indexes =~= seq![m]);
                assert(g@.coefficients =~= seq![coefficients@[m as int]]);
                assert(transition_views(groups@) =~= prev.insert(p as int, g@));
            }
        }
        m = m + 1;
    }
    Ok(groups)
}

/// A periodic column's length is a power of two between 2 and the trace length `n`.
pub open spec fn valid_column(len: nat, n: nat) -> bool {
    is_pow2(len) && 2 <= len <= n
}

/// Interpolates each periodic column into a polynomial over the roots of unity of its
/// length, sharing inverse twiddles between columns of equal length. Fails when a column's
/// length is not a power of two between 2 and the trace length.
pub fn get_periodic_column_polys(columns: Vec<Vec<BaseElement>>, context: &ComputationContext) -> (r:
    Result<Vec<Vec<BaseElement>>, AirError>)
    ensures
        (exists|i: int|
            0 <= i < columns@.len() && !valid_column(
                #[trigger] columns@[i]@.len(),
                context@.trace_length,
            )) ==> r == Err::<Vec<Vec<BaseElement>>, AirError>(AirError::InvalidPeriodicColumn),
        (forall|i: int|
            0 <= i < columns@.len() ==> valid_column(
                #[trigger] columns@[i]@.len(),
                context@.trace_length,
            )) ==> r is Ok && r->Ok_0@.len() == columns@.len() && forall|i: int|
            0 <= i < columns@.len() ==> #[trigger] r->Ok_0@[i]@ == interpolate_spec(
                columns@[i]@,
                inv_twiddles_spec(columns@[i]@.len()),
            ),
{
    let n = context.trace_length();
    let mut i: usize = 0;
    while i < columns.len()
        invariant
            i <= columns@.len(),
            n == context@.trace_length,
            forall|k: int| 0 <= k < i ==> valid_column(#[trigger] columns@[k]@.len(), n as nat),
        decreases columns@.len() - i,
    {
        let len = columns[i].len();
        if len < 2 || !is_power_of_two(len) || len > n {
            return Err(AirError::InvalidPeriodicColumn);
        }
        i = i + 1;
    }
    let mut twiddle_map: HashMap<usize, Vec<BaseElement>> = HashMap::new();
    let mut result: Vec<Vec<BaseElement>> = Vec::new();
    let mut j: usize = 0;
    while j < columns.len()
        invariant
            j <= columns@.len(),
            n == context@.trace_length,
            context@.well_formed(),
            forall|k: int| 0 <= k < columns@.len() ==> valid_column(#[trigger] columns@[k]@.len(), n as nat),
            twiddles_valid(twiddle_map@),
            result@.len() == j,
            forall|k: int|
                0 <= k < j ==> #[trigger] result@[k]@ == interpolate_spec(
                    columns@[k]@,
                    inv_twiddles_spec(columns@[k]@.len()),
                ),
        decreases columns@.len() - j,
    {
        let column = &columns[j];
        let len = column.len();
        proof {
            assert(valid_column(columns@[j as int]@.len(), n as nat));
        }
        let poly = match twiddle_map.get(&len) {
            Some(twiddles) => interpolate_poly(column.as_slice(), twiddles.as_slice()),
            None => {
                let twiddles = get_inv_twiddles(len);
                let poly = interpolate_poly(column.as_slice(), twiddles.as_slice());
                twiddle_map.insert(len, twiddles);
                poly
            },
        };
        result.push(poly);
        j = j + 1;
    }
    Ok(result)
}

/// The boundary groups depend on the assertions only as a collection: any two orderings of
/// the same assertions give the same groups.
pub proof fn lemma_groups_ignore_input_order<E>(
    s1: Seq<AssertionModel>,
    s2: Seq<AssertionModel>,
    cc: Seq<(E, E)>,
    n: nat,
    comp: nat,
)
    requires
        s1.to_multiset() == s2.to_multiset(),
    ensures
        canonical_order(s1) == canonical_order(s2),
        boundary_groups(canonical_order(s1), cc, n, comp) == boundary_groups(
            canonical_order(s2),
            cc,
            n,
            comp,
        ),
{
}

proof fn lemma_first_overlap_none_conv(s: Seq<AssertionModel>, i: int, j: int)
    requires
        0 <= j,
        forall|k: int| j <= k < i ==> !(#[trigger] s[k]).overlaps(s[i]),
    ensures
        first_overlap(s, i, j) is None,
    decreases i - j,
{
    if j < i {
        lemma_first_overlap_none_conv(s, i, j + 1);
    }
}

/// Assertions that all hold in the trace and pairwise do not overlap are accepted.
proof fn lemma_accepted(s: Seq<AssertionModel>, width: nat, n: nat, m: int)
    requires
        0 <= m <= s.len(),
        forall|i: int| 0 <= i < s.len() ==> (#[trigger] s[i]).valid_for(width, n),
        forall|i: int, j: int| 0 <= i < j < s.len() ==> !(#[trigger] s[i]).overlaps(#[trigger] s[j]),
    ensures
        assertions_error(s, width, n, m) is None,
    decreases m,
{
    if m > 0 {
        lemma_accepted(s, width, n, m - 1);
        assert(s[m - 1].valid_for(width, n));
        lemma_first_overlap_none_conv(s, m - 1, 0);
    }
}

/// Whether a set of assertions is accepted does not depend on their order: if one ordering
/// passes validation, every other ordering of the same assertions passes it too (and then
/// yields the same groups, by `lemma_groups_ignore_input_order`).
pub proof fn lemma_acceptance_ignores_input_order(
    s1: Seq<AssertionModel>,
    s2: Seq<AssertionModel>,
    width: nat,
    n: nat,
)
    requires
        s1.to_multiset() == s2.to_multiset(),
        assertions_error(s1, width, n, s1.len() as int) is None,
    ensures
        assertions_error(s2, width, n, s2.len() as int) is None,
{
    broadcast use vstd::multiset::group_multiset_axioms;

    lemma_no_error(s1, width, n, s1.len() as int);
    // equal assertions overlap, so neither sequence repeats an assertion
    assert(s1.no_duplicates()) by {
        assert forall|i: int, j: int| 0 <= i < s1.len() && 0 <= j < s1.len() && i != j implies s1[i]
            != s1[j] by {
            if i < j {
                assert(!s1[i].overlaps(s1[j]));
            } else {
                assert(!s1[j].overlaps(s1[i]));
            }
        }
    }
    s1.lemma_multiset_has_no_duplicates();
    s2.lemma_multiset_has_no_duplicates_conv();
    assert forall|i: int| 0 <= i < s2.len() implies (#[trigger] s2[i]).valid_for(width, n) by {
        assert(s2.to_multiset().contains(s2[i]));
        assert(s1.contains(s2[i]));
    }
    assert forall|i: int, j: int| 0 <= i < j < s2.len() implies !(#[trigger] s2[i]).overlaps(
        #[trigger] s2[j],
    ) by {
        assert(s2.to_multiset().contains(s2[i]));
        assert(s2.to_multiset().contains(s2[j]));
        assert(s1.contains(s2[i]));
        assert(s1.contains(s2[j]));
        let a = choose|a: int| 0 <= a < s1.len() && s1[a] == s2[i];
        let b = choose|b: int| 0 <= b < s1.len() && s1[b] == s2[j];
        assert(s2[i] != s2[j]);
        if a < b {
            assert(!s1[a].overlaps(s1[b]));
        } else {
            assert(!s1[b].overlaps(s1[a]));
        }
    }
    lemma_accepted(s2, width, n, s2.len() as int);
}

/// Two assertions on one register overlap when they share stride and first step, or when
/// one non-zero stride divides the other and their first steps agree modulo the smaller.
pub open spec fn collides(a: AssertionModel, b: AssertionModel) -> bool {
    &&& a.register == b.register
    &&& ((a.stride == b.stride && a.first_step == b.first_step) || (a.stride != 0 && b.stride != 0
        && b.stride % a.stride == 0 && a.first_step % a.stride == b.first_step % a.stride) || (
    a.stride != 0 && b.stride != 0 && a.stride % b.stride == 0 && a.first_step % b.stride
        == b.first_step % b.stride))
}

/// Assertions that collide (see `collides`) are rejected, wherever they stand in the input.
pub proof fn lemma_colliding_assertions_rejected(
    s: Seq<AssertionModel>,
    width: nat,
    n: nat,
    i: int,
    j: int,
)
    requires
        0 <= i < j < s.len(),
        s[i].well_formed(),
        s[j].well_formed(),
        collides(s[i], s[j]),
    ensures
        assertions_error(s, width, n, s.len() as int) is Some,
{
    if assertions_error(s, width, n, s.len() as int) is None {
        lemma_no_error(s, width, n, s.len() as int);
        lemma_collision_overlaps(s[i], s[j]);
        assert(!s[i].overlaps(s[j]));
    }
}

proof fn lemma_collision_overlaps(a: AssertionModel, b: AssertionModel)
    requires
        a.well_formed(),
        b.well_formed(),
        collides(a, b),
    ensures
        a.overlaps(b),
{
    if a.stride == b.stride && a.stride != 0 && a.first_step != b.first_step {
        let s = a.stride;
        if b.stride % a.stride == 0 && a.first_step % s == b.first_step % s {
            vstd::arithmetic::div_mod::lemma_small_mod(a.first_step, s);
            vstd::arithmetic::div_mod::lemma_small_mod(b.first_step, s);
        }
    }
    if a.stride != b.stride && a.stride != 0 && b.stride != 0 {
        if b.stride % a.stride == 0 && a.first_step % a.stride == b.first_step % a.stride {
            if a.stride > b.stride {
                vstd::arithmetic::div_mod::lemma_small_mod(b.stride, a.stride);
            }
        }
        if a.stride % b.stride == 0 && a.first_step % b.stride == b.first_step % b.stride {
            if b.stride > a.stride {
                vstd::arithmetic::div_mod::lemma_small_mod(a.stride, b.stride);
            }
        }
    }
}

/// The degree bookkeeping of a boundary group: dividing by its divisor and multiplying by
/// `x^degree_adjustment` brings a trace-degree constraint to the composition degree.
pub open spec fn adjustment_balanced<E>(g: GroupModel<E>, n: nat, comp: nat) -> bool {
    comp + g.divisor.degree() == (n - 1) + g.degree_adjustment
}

proof fn lemma_runs_balanced<E>(
    sa: Seq<AssertionModel>,
    cc: Seq<(E, E)>,
    inv_g: BaseElement,
    width: nat,
    n: nat,
    comp: nat,
    m: int,
)
    requires
        0 <= m <= sa.len(),
        all_valid(sa, width, n),
        1 <= n <= usize::MAX,
        comp >= n - 1,
    ensures
        forall|k: int|
            0 <= k < boundary_runs(sa, cc, inv_g, n, comp, m).len() ==> adjustment_balanced(
                #[trigger] boundary_runs(sa, cc, inv_g, n, comp, m)[k],
                n,
                comp,
            ),
    decreases m,
{
    if m > 0 {
        lemma_runs_balanced(sa, cc, inv_g, width, n, comp, m - 1);
        let a = sa[m - 1];
        assert(a.well_formed() && a.valid_for(width, n));
        let d = assertion_divisor(a, n);
        if a.stride != 0 {
            vstd::arithmetic::div_mod::lemma_fundamental_div_mod(n as int, a.stride as int);
            if n / a.stride == 0 {
                assert(false);
            }
        }
        reveal_with_fuel(crate::divisor::exponent_sum, 2);
        assert(d.degree() >= 1);
        let prev = boundary_runs(sa, cc, inv_g, n, comp, m - 1);
        let cur = boundary_runs(sa, cc, inv_g, n, comp, m);
        if m >= 2 && sa[m - 2].stride == a.stride && sa[m - 2].first_step == a.first_step {
            lemma_runs_nonempty(sa, cc, inv_g, n, comp, m - 1);
            assert forall|k: int| 0 <= k < cur.len() implies adjustment_balanced(
                #[trigger] cur[k],
                n,
                comp,
            ) by {
                assert(adjustment_balanced(prev[k], n, comp));
            }
        } else {
            assert forall|k: int| 0 <= k < cur.len() implies adjustment_balanced(
                #[trigger] cur[k],
                n,
                comp,
            ) by {
                if k < prev.len() {
                    assert(adjustment_balanced(prev[k], n, comp));
                }
            }
        }
    }
}

proof fn lemma_runs_nonempty<E>(
    sa: Seq<AssertionModel>,
    cc: Seq<(E, E)>,
    inv_g: BaseElement,
    n: nat,
    comp: nat,
    m: int,
)
    requires
        1 <= m,
    ensures
        boundary_runs(sa, cc, inv_g, n, comp, m).len() >= 1,
    decreases m,
{
    if m >= 2 {
        lemma_runs_nonempty(sa, cc, inv_g, n, comp, m - 1);
    }
}

proof fn lemma_sort_keeps<E>(s: Seq<GroupModel<E>>, n: nat, comp: nat)
    requires
        forall|k: int| 0 <= k < s.len() ==> adjustment_balanced(#[trigger] s[k], n, comp),
    ensures
        sort_by_adjustment(s).len() == s.len(),
        forall|k: int|
            0 <= k < sort_by_adjustment(s).len() ==> adjustment_balanced(
                #[trigger] sort_by_adjustment(s)[k],
                n,
                comp,
            ),
    decreases s.len(),
{
    if s.len() > 0 {
        lemma_sort_keeps(s.drop_last(), n, comp);
        let sorted = sort_by_adjustment(s.drop_last());
        lemma_position_bound(sorted, s.last().degree_adjustment, 0);
    }
}

proof fn lemma_position_bound<E>(s: Seq<GroupModel<E>>, adj: nat, i: int)
    requires
        0 <= i <= s.len(),
    ensures
        i <= adjustment_position(s, adj, i) <= s.len(),
    decreases s.len() - i,
{
    if i < s.len() {
        lemma_position_bound(s, adj, i + 1);
    }
}

/// Every boundary group of a computation balances its degrees:
/// `composition_degree + deg(divisor) == trace_poly_degree + degree_adjustment`, with a
/// non-negative adjustment.
pub proof fn lemma_boundary_groups_balanced<E>(
    sa: Seq<AssertionModel>,
    cc: Seq<(E, E)>,
    ctx: crate::context::ContextModel,
)
    requires
        ctx.well_formed(),
        all_valid(sa, ctx.trace_width, ctx.trace_length),
    ensures
        forall|k: int|
            0 <= k < boundary_groups(sa, cc, ctx.trace_length, ctx.composition_degree()).len()
                ==> #[trigger] boundary_groups(
                sa,
                cc,
                ctx.trace_length,
                ctx.composition_degree(),
            )[k].divisor.degree() + ctx.composition_degree() == ctx.trace_poly_degree()
                + boundary_groups(sa, cc, ctx.trace_length, ctx.composition_degree())[k].degree_adjustment,
{
    let n = ctx.trace_length;
    let comp = ctx.composition_degree();
    assert(comp >= n - 1) by (nonlinear_arith)
        requires
            comp == ctx.ce_blowup_factor * ((n - 1) as nat),
            ctx.ce_blowup_factor >= 1,
            n >= 1,
    ;
    let inv_g = BaseElement::spec_inv(root_of_order(n));
    lemma_runs_balanced(sa, cc, inv_g, ctx.trace_width, n, comp, sa.len() as int);
    lemma_sort_keeps(boundary_runs(sa, cc, inv_g, n, comp, sa.len() as int), n, comp);
}

} // verus!
