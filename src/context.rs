//! The parameters of one computation and the sizes derived from them.
use crate::field::BaseElement;
use crate::options::ProofOptions;
use crate::polynom::{is_pow2, log2, root_of_order};
use crate::transition::{TransitionConstraintDegree, MAX_BASE_DEGREE, MAX_CYCLES};
use vstd::prelude::*;

verus! {

/// Information about a concrete execution trace: its length, and custom parameters.
#[derive(Clone, Debug)]
pub struct TraceInfo {
    pub length: usize,
    pub meta: Vec<u8>,
}

/// The number of final steps at which transition constraints need not hold.
pub const DEFAULT_TRANSITION_EXEMPTIONS: usize = 2;

/// What a context holds.
pub struct ContextModel {
    pub trace_width: nat,
    pub trace_length: nat,
    pub transition_degrees: Seq<TransitionConstraintDegree>,
    pub ce_blowup_factor: nat,
    pub transition_exemptions: nat,
    pub options: ProofOptions,
}

/// The largest blowup that the transition degrees ask for, over the first `m` of them
/// (at least 1).
pub open spec fn max_min_blowup(degrees: Seq<TransitionConstraintDegree>, m: int) -> nat
    decreases m,
{
    if m <= 0 {
        1
    } else {
        let rest = max_min_blowup(degrees, m - 1);
        if degrees[m - 1].min_blowup() > rest {
            degrees[m - 1].min_blowup()
        } else {
            rest
        }
    }
}

/// `b` is the smallest power of two that is at least `m`.
pub open spec fn is_next_pow2(b: nat, m: nat) -> bool {
    is_pow2(b) && b >= m && (b == 1 || b / 2 < m)
}

impl ContextModel {
    /// The bounds that every context meets.
    pub open spec fn well_formed(self) -> bool {
        &&& self.trace_width >= 1
        &&& is_pow2(self.trace_length)
        &&& 2 <= self.trace_length <= 0x1_0000_0000
        &&& 1024 * self.trace_length <= usize::MAX
        &&& self.transition_exemptions < self.trace_length
        &&& forall|i: int|
            0 <= i < self.transition_degrees.len() ==> (#[trigger] self.transition_degrees[i]).well_formed()
                && self.transition_degrees[i].fits(self.trace_length)
        &&& is_next_pow2(
            self.ce_blowup_factor,
            max_min_blowup(self.transition_degrees, self.transition_degrees.len() as int),
        )
    }

    /// Degree of the trace polynomials: `n - 1`.
    pub open spec fn trace_poly_degree(self) -> nat {
        (self.trace_length - 1) as nat
    }

    /// Target degree of the composition polynomial: `ce_blowup_factor * (n - 1)`.
    pub open spec fn composition_degree(self) -> nat {
        self.ce_blowup_factor * self.trace_poly_degree()
    }
}

/// The parameters of one computation: the trace's width and length, the degrees of its
/// transition constraints, and the proof options.
#[derive(Debug)]
pub struct ComputationContext {
    trace_width: usize,
    trace_length: usize,
    transition_degrees: Vec<TransitionConstraintDegree>,
    ce_blowup_factor: usize,
    transition_exemptions: usize,
    options: ProofOptions,
}

impl View for ComputationContext {
    type V = ContextModel;

    closed spec fn view(&self) -> ContextModel {
        ContextModel {
            trace_width: self.trace_width as nat,
            trace_length: self.trace_length as nat,
            transition_degrees: self.transition_degrees@,
            ce_blowup_factor: self.ce_blowup_factor as nat,
            transition_exemptions: self.transition_exemptions as nat,
            options: self.options,
        }
    }
}

impl ComputationContext {
    #[verifier::type_invariant]
    spec fn bounds(self) -> bool {
        self@.well_formed()
    }

    /// Builds the context of a computation over a trace of `trace_width` registers and
    /// `trace_length` steps (a power of two), with the given transition constraint degrees.
    pub fn new(
        trace_width: usize,
        trace_length: usize,
        transition_degrees: Vec<TransitionConstraintDegree>,
        options: ProofOptions,
    ) -> (r: ComputationContext)
        requires
            trace_width >= 1,
            is_pow2(trace_length as nat),
            DEFAULT_TRANSITION_EXEMPTIONS < trace_length <= 0x1_0000_0000,
            1024 * trace_length <= usize::MAX,
            forall|i: int|
                0 <= i < transition_degrees@.len() ==> #[trigger] transition_degrees@[i].well_formed()
                    && transition_degrees@[i].fits(trace_length as nat),
        ensures
            r@.trace_width == trace_width,
            r@.trace_length == trace_length,
            r@.transition_degrees == transition_degrees@,
            r@.transition_exemptions == DEFAULT_TRANSITION_EXEMPTIONS,
            r@.options == options,
            r@.well_formed(),
    {
        let mut max_blowup: usize = 1;
        let mut i: usize = 0;
        while i < transition_degrees.len()
            invariant
                i <= transition_degrees@.len(),
                forall|k: int|
                    0 <= k < transition_degrees@.len() ==> #[trigger] transition_degrees@[k].well_formed(),
                max_blowup == max_min_blowup(transition_degrees@, i as int),
                1 <= max_blowup <= MAX_BASE_DEGREE + MAX_CYCLES,
            decreases transition_degrees@.len() - i,
        {
            proof {
                assert(transition_degrees@[i as int].well_formed());
            }
            let b = transition_degrees[i].min_blowup_factor();
            if b > max_blowup {
                max_blowup = b;
            }
            i = i + 1;
        }
        let mut ce: usize = 1;
        while ce < max_blowup
            invariant
                is_pow2(ce as nat),
                1 <= max_blowup <= MAX_BASE_DEGREE + MAX_CYCLES,
                1 <= ce,
                ce == 1 || ce / 2 < max_blowup,
                ce <= 1024,
            decreases 1024 - ce,
        {
            proof {
                assert((ce * 2) / 2 == ce);
                assert((ce * 2) % 2 == 0);
            }
            ce = ce * 2;
        }
        ComputationContext {
            trace_width,
            trace_length,
            transition_degrees,
            ce_blowup_factor: ce,
            transition_exemptions: DEFAULT_TRANSITION_EXEMPTIONS,
            options,
        }
    }

    /// Number of registers in the trace.
    pub fn trace_width(&self) -> (r: usize)
        ensures
            r == self@.trace_width,
            self@.well_formed(),
    {
        proof {
            use_type_invariant(self);
        }
        self.trace_width
    }

    /// Number of steps in the trace.
    pub fn trace_length(&self) -> (r: usize)
        ensures
            r == self@.trace_length,
            self@.well_formed(),
    {
        proof {
            use_type_invariant(self);
        }
        self.trace_length
    }

    /// Degree of the trace polynomials.
    pub fn trace_poly_degree(&self) -> (r: usize)
        ensures
            r == self@.trace_poly_degree(),
            self@.well_formed(),
    {
        proof {
            use_type_invariant(self);
        }
        self.trace_length - 1
    }

    /// Blowup of the constraint evaluation domain: the smallest power of two at least the
    /// largest blowup that a transition constraint asks for.
    pub fn ce_blowup_factor(&self) -> (r: usize)
        ensures
            r == self@.ce_blowup_factor,
            self@.well_formed(),
    {
        proof {
            use_type_invariant(self);
        }
        self.ce_blowup_factor
    }

    /// Target degree of the composition polynomial.
    pub fn composition_degree(&self) -> (r: usize)
        ensures
            r == self@.composition_degree(),
            r <= 512 * self@.trace_length,
            self@.well_formed(),
    {
        proof {
            use_type_invariant(self);
            lemma_max_min_blowup_bound(self.transition_degrees@, self.transition_degrees@.len() as int);
            lemma_next_pow2_bound(self.ce_blowup_factor as nat, max_min_blowup(self.transition_degrees@, self.transition_degrees@.len() as int));
            assert(self.ce_blowup_factor * (self.trace_length - 1) <= 512 * self.trace_length)
                by (nonlinear_arith)
                requires
                    self.ce_blowup_factor <= 512,
                    self.trace_length >= 1,
            ;
        }
        self.ce_blowup_factor * (self.trace_length - 1)
    }

    /// Number of final steps at which transition constraints need not hold.
    pub fn transition_exemptions(&self) -> (r: usize)
        ensures
            r == self@.transition_exemptions,
            self@.well_formed(),
    {
        proof {
            use_type_invariant(self);
        }
        self.transition_exemptions
    }

    /// Degrees of the transition constraints.
    pub fn transition_constraint_degrees(&self) -> (r: &Vec<TransitionConstraintDegree>)
        ensures
            r@ == self@.transition_degrees,
            self@.well_formed(),
    {
        proof {
            use_type_invariant(self);
        }
        &self.transition_degrees
    }

    /// The proof options.
    pub fn options(&self) -> (r: ProofOptions)
        ensures
            r == self@.options,
    {
        self.options
    }

    /// Generator of the trace domain: a root of unity of order `trace_length`.
    pub fn get_trace_domain_generator(&self) -> (r: BaseElement)
        ensures
            r == root_of_order(self@.trace_length),
            self@.well_formed(),
    {
        proof {
            use_type_invariant(self);
        }
        let k = log2(self.trace_length);
        BaseElement::get_root_of_unity(k)
    }
}

proof fn lemma_max_min_blowup_bound(degrees: Seq<TransitionConstraintDegree>, m: int)
    requires
        m <= degrees.len(),
        forall|i: int| 0 <= i < degrees.len() ==> #[trigger] degrees[i].well_formed(),
    ensures
        max_min_blowup(degrees, m) <= MAX_BASE_DEGREE + MAX_CYCLES,
    decreases m,
{
    if m > 0 {
        assert(degrees[m - 1].well_formed());
        lemma_max_min_blowup_bound(degrees, m - 1);
    }
}

proof fn lemma_next_pow2_bound(b: nat, m: nat)
    requires
        is_next_pow2(b, m),
        m <= MAX_BASE_DEGREE + MAX_CYCLES,
    ensures
        b <= 512,
{
    if b > 512 {
        reveal_with_fuel(is_pow2, 11);
        assert(is_pow2(512));
        lemma_pow2_gap(b, 512);
    }
}

/// A power of two above another power of two is at least twice it.
pub proof fn lemma_pow2_gap(b: nat, k: nat)
    requires
        is_pow2(b),
        is_pow2(k),
        k < b,
    ensures
        b >= 2 * k,
    decreases k,
{
    assert(b % 2 == 0 && is_pow2(b / 2));
    if k > 1 {
        assert(k % 2 == 0 && is_pow2(k / 2));
        lemma_pow2_gap(b / 2, k / 2);
    }
}

} // verus!
