//! Degrees of transition constraints, and groups of transition constraints that share an
//! evaluation degree.
use crate::field::FieldElement;
use crate::polynom::is_pow2;
use vstd::prelude::*;

verus! {

/// The largest base degree of a transition constraint.
pub const MAX_BASE_DEGREE: usize = 255;

/// The largest number of periodic columns that one transition constraint may involve.
pub const MAX_CYCLES: usize = 255;

/// The degree of a transition constraint: its degree in the trace registers, and the cycle
/// lengths of the periodic columns it multiplies in.
#[derive(Debug)]
pub struct TransitionConstraintDegree {
    base: usize,
    cycles: Vec<usize>,
}

/// Sum of `(n / c) * (c - 1)` over the first `m` cycle lengths `c`.
pub open spec fn cycles_degree(cycles: Seq<nat>, n: nat, m: int) -> nat
    decreases m,
{
    if m <= 0 {
        0
    } else {
        cycles_degree(cycles, n, m - 1) + (n / cycles[m - 1]) * (cycles[m - 1] - 1) as nat
    }
}

impl TransitionConstraintDegree {
    /// The degree in the trace registers.
    pub closed spec fn base_spec(&self) -> nat {
        self.base as nat
    }

    /// The cycle lengths of the periodic columns.
    pub closed spec fn cycles_spec(&self) -> Seq<nat> {
        self.cycles@.map_values(|c: usize| c as nat)
    }

    /// The degree bounds of a well-formed descriptor.
    pub open spec fn well_formed(&self) -> bool {
        &&& 1 <= self.base_spec() <= MAX_BASE_DEGREE
        &&& self.cycles_spec().len() <= MAX_CYCLES
        &&& forall|i: int|
            0 <= i < self.cycles_spec().len() ==> #[trigger] is_pow2(self.cycles_spec()[i])
                && self.cycles_spec()[i] >= 2
    }

    /// The cycle lengths fit a trace of length `n`.
    pub open spec fn fits(&self, n: nat) -> bool {
        forall|i: int| 0 <= i < self.cycles_spec().len() ==> #[trigger] self.cycles_spec()[i] <= n
    }

    /// Degree of the constraint polynomial over a trace of length `n`:
    /// `base * (n - 1) + sum over cycles c of (n / c) * (c - 1)`.
    pub open spec fn evaluation_degree(&self, n: nat) -> nat {
        self.base_spec() * (n - 1) as nat + cycles_degree(
            self.cycles_spec(),
            n,
            self.cycles_spec().len() as int,
        )
    }

    /// The smallest blowup of the trace domain that holds the constraint's degree.
    pub open spec fn min_blowup(&self) -> nat {
        self.base_spec() + self.cycles_spec().len()
    }

    /// A constraint of degree `base` in the trace registers.
    pub fn new(base: usize) -> (r: TransitionConstraintDegree)
        requires
            1 <= base <= MAX_BASE_DEGREE,
        ensures
            r.base_spec() == base,
            r.cycles_spec() == Seq::<nat>::empty(),
            r.well_formed(),
    {
        let r = TransitionConstraintDegree { base, cycles: Vec::new() };
        proof {
            assert(r.cycles_spec() =~= Seq::<nat>::empty());
        }
        r
    }

    /// A constraint of degree `base` in the trace registers that also multiplies in periodic
    /// columns of the given cycle lengths.
    pub fn with_cycles(base: usize, cycles: Vec<usize>) -> (r: TransitionConstraintDegree)
        requires
            1 <= base <= MAX_BASE_DEGREE,
            cycles@.len() <= MAX_CYCLES,
            forall|i: int| 0 <= i < cycles@.len() ==> #[trigger] is_pow2(cycles@[i] as nat)
                && cycles@[i] >= 2,
        ensures
            r.base_spec() == base,
            r.cycles_spec() == cycles@.map_values(|c: usize| c as nat),
            r.well_formed(),
    {
        let r = TransitionConstraintDegree { base, cycles };
        proof {
            assert forall|i: int| 0 <= i < r.cycles_spec().len() implies #[trigger] is_pow2(
                r.cycles_spec()[i],
            ) && r.cycles_spec()[i] >= 2 by {
                assert(r.cycles_spec()[i] == r.cycles@[i]);
                assert(is_pow2(cycles@[i] as nat));
            }
        }
        r
    }

    /// Evaluation degree over a trace of length `n` (see `evaluation_degree`).
    pub fn get_evaluation_degree(&self, n: usize) -> (r: usize)
        requires
            self.well_formed(),
            self.fits(n as nat),
            1 <= n,
            (MAX_BASE_DEGREE + MAX_CYCLES) * n <= usize::MAX,
        ensures
            r == self.evaluation_degree(n as nat),
            r <= (MAX_BASE_DEGREE + MAX_CYCLES) * n,
    {
        proof {
            assert(self.base * (n - 1) <= MAX_BASE_DEGREE * n) by (nonlinear_arith)
                requires
                    self.base <= MAX_BASE_DEGREE,
                    n >= 1,
            ;
            assert(MAX_BASE_DEGREE * n <= (MAX_BASE_DEGREE + MAX_CYCLES) * n) by (nonlinear_arith);
        }
        let mut result: usize = self.base * (n - 1);
        let mut i: usize = 0;
        while i < self.cycles.len()
            invariant
                self.well_formed(),
                self.fits(n as nat),
                1 <= n,
                (MAX_BASE_DEGREE + MAX_CYCLES) * n <= usize::MAX,
                i <= self.cycles@.len(),
                result == self.base * (n - 1) as nat + cycles_degree(
                    self.cycles_spec(),
                    n as nat,
                    i as int,
                ),
                result <= MAX_BASE_DEGREE * n + i * n,
            decreases self.cycles@.len() - i,
        {
            let c = self.cycles[i];
            proof {
                assert(self.cycles_spec()[i as int] == c);
                assert(is_pow2(self.cycles_spec()[i as int]));
                assert((n / c) * (c - 1) <= n) by (nonlinear_arith)
                    requires
                        c >= 2,
                        n >= 1,
                {
                    vstd::arithmetic::div_mod::lemma_fundamental_div_mod(n as int, c as int);
                    assert((n / c) * (c - 1) <= (n / c) * c);
                }
                assert(i * n + n == (i + 1) * n) by (nonlinear_arith);
                assert((i + 1) * n <= MAX_CYCLES * n) by (nonlinear_arith)
                    requires
                        i < MAX_CYCLES,
                ;
                assert(MAX_BASE_DEGREE * n + MAX_CYCLES * n == (MAX_BASE_DEGREE + MAX_CYCLES) * n)
                    by (nonlinear_arith);
            }
            result = result + (n / c) * (c - 1);
            i = i + 1;
        }
        proof {
            assert(MAX_BASE_DEGREE * n + i * n <= (MAX_BASE_DEGREE + MAX_CYCLES) * n)
                by (nonlinear_arith)
                requires
                    i <= MAX_CYCLES,
            ;
        }
        result
    }

    /// The smallest blowup of the trace domain that holds this constraint's degree.
    pub fn min_blowup_factor(&self) -> (r: usize)
        requires
            self.well_formed(),
        ensures
            r == self.min_blowup(),
    {
        self.base + self.cycles.len()
    }
}

/// Transition constraints that share an evaluation degree, with the composition
/// coefficients drawn for each of them.
#[derive(Debug)]
pub struct TransitionConstraintGroup<E> {
    evaluation_degree: usize,
    degree_adjustment: usize,
    indexes: Vec<usize>,
    coefficients: Vec<(E, E)>,
}

/// What a transition group holds: the shared evaluation degree, the degree adjustment, and
/// for each member its constraint index and composition coefficients.
pub struct TransitionGroupModel<E> {
    pub evaluation_degree: nat,
    pub degree_adjustment: nat,
    pub indexes: Seq<usize>,
    pub coefficients: Seq<(E, E)>,
}

/// The sum, over the first `m` members of a group, of the member's evaluation times
/// `c0 + c1 * xp`, accumulated in order.
pub open spec fn merged_sum<E: FieldElement>(
    indexes: Seq<usize>,
    coefficients: Seq<(E, E)>,
    evaluations: Seq<E>,
    xp: E,
    m: int,
) -> E
    decreases m,
{
    if m <= 0 {
        E::spec_zero()
    } else {
        E::spec_add(
            merged_sum(indexes, coefficients, evaluations, xp, m - 1),
            E::spec_mul(
                evaluations[indexes[m - 1] as int],
                E::spec_add(coefficients[m - 1].0, E::spec_mul(coefficients[m - 1].1, xp)),
            ),
        )
    }
}

impl<E> View for TransitionConstraintGroup<E> {
    type V = TransitionGroupModel<E>;

    closed spec fn view(&self) -> TransitionGroupModel<E> {
        TransitionGroupModel {
            evaluation_degree: self.evaluation_degree as nat,
            degree_adjustment: self.degree_adjustment as nat,
            indexes: self.indexes@,
            coefficients: self.coefficients@,
        }
    }
}

impl<E: FieldElement> TransitionConstraintGroup<E> {
    /// An empty group for constraints of the given evaluation degree.
    pub fn new(evaluation_degree: usize, degree_adjustment: usize) -> (r: Self)
        ensures
            r@ == (TransitionGroupModel::<E> {
                evaluation_degree: evaluation_degree as nat,
                degree_adjustment: degree_adjustment as nat,
                indexes: Seq::empty(),
                coefficients: Seq::empty(),
            }),
    {
        let r = TransitionConstraintGroup {
            evaluation_degree,
            degree_adjustment,
            indexes: Vec::new(),
            coefficients: Vec::new(),
        };
        proof {
            assert(r@.indexes =~= Seq::<usize>::empty());
            assert(r@.coefficients =~= Seq::<(E, E)>::empty());
        }
        r
    }

    /// Adds the constraint at `index` with composition coefficients `cc`.
    pub fn add(&mut self, index: usize, cc: (E, E))
        ensures
            final(self)@ == (TransitionGroupModel::<E> {
                indexes: old(self)@.indexes.push(index),
                coefficients: old(self)@.coefficients.push(cc),
                ..old(self)@
            }),
    {
        self.indexes.push(index);
        self.coefficients.push(cc);
    }

    /// The evaluation degree shared by the group's constraints.
    pub fn evaluation_degree(&self) -> (r: usize)
        ensures
            r == self@.evaluation_degree,
    {
        self.evaluation_degree
    }

    /// The degree adjustment applied to the group.
    pub fn degree_adjustment(&self) -> (r: usize)
        ensures
            r == self@.degree_adjustment,
    {
        self.degree_adjustment
    }

    /// Indexes of the group's constraints.
    pub fn indexes(&self) -> (r: &Vec<usize>)
        ensures
            r@ == self@.indexes,
    {
        &self.indexes
    }

    /// Composition coefficients of the group's constraints.
    pub fn coefficients(&self) -> (r: &Vec<(E, E)>)
        ensures
            r@ == self@.coefficients,
    {
        &self.coefficients
    }

    /// Merges the evaluations of the group's constraints into one value, the sum of each
    /// evaluation times `c0 + c1 * xp`; `xp` is `x` raised to the degree adjustment.
    pub fn evaluate(&self, evaluations: &[E], xp: E) -> (r: E)
        requires
            self@.indexes.len() == self@.coefficients.len(),
            forall|i: int|
                0 <= i < self@.indexes.len() ==> #[trigger] self@.indexes[i] < evaluations@.len(),
        ensures
            r == merged_sum(
                self@.indexes,
                self@.coefficients,
                evaluations@,
                xp,
                self@.indexes.len() as int,
            ),
    {
        let mut result = E::zero();
        let mut i: usize = 0;
        while i < self.indexes.len()
            invariant
                i <= self@.indexes.len(),
                self@.indexes.len() == self@.coefficients.len(),
                forall|k: int|
                    0 <= k < self@.indexes.len() ==> #[trigger] self@.indexes[k]
                        < evaluations@.len(),
                result == merged_sum(self@.indexes, self@.coefficients, evaluations@, xp, i as int),
            decreases self@.indexes.len() - i,
        {
            let (c0, c1) = self.coefficients[i];
            let v = evaluations[self.indexes[i]];
            result = result.add(v.mul(c0.add(c1.mul(xp))));
            i = i + 1;
        }
        result
    }
}

} // verus!
