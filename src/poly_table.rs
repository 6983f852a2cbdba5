//! A table of trace polynomials of equal size.
use crate::field::{BaseElement, FieldElement};
use crate::polynom::{eval, eval_spec, is_pow2};
use vstd::prelude::*;

verus! {

/// The trace polynomials, one per register, each with the same power-of-two number of
/// coefficients.
#[derive(Debug)]
pub struct TracePolyTable(Vec<Vec<BaseElement>>);

impl View for TracePolyTable {
    type V = Seq<Seq<BaseElement>>;

    closed spec fn view(&self) -> Seq<Seq<BaseElement>> {
        self.0@.map_values(|p: Vec<BaseElement>| p@)
    }
}

/// `polys` is non-empty and its polynomials share a power-of-two size.
pub open spec fn table_shape(polys: Seq<Seq<BaseElement>>) -> bool {
    &&& polys.len() > 0
    &&& is_pow2(polys[0].len())
    &&& forall|i: int| 0 <= i < polys.len() ==> (#[trigger] polys[i]).len() == polys[0].len()
}

impl TracePolyTable {
    #[verifier::type_invariant]
    spec fn shape(self) -> bool {
        table_shape(self@)
    }

    /// Builds a table from polynomials that share a power-of-two size.
    pub fn new(polys: Vec<Vec<BaseElement>>) -> (r: TracePolyTable)
        requires
            table_shape(polys@.map_values(|p: Vec<BaseElement>| p@)),
        ensures
            r@ == polys@.map_values(|p: Vec<BaseElement>| p@),
    {
        TracePolyTable(polys)
    }

    /// Number of coefficients of each polynomial.
    pub fn poly_size(&self) -> (r: usize)
        ensures
            r == self@[0].len(),
            table_shape(self@),
    {
        proof {
            use_type_invariant(self);
        }
        self.0[0].len()
    }

    /// Evaluates every polynomial at `x`.
    pub fn evaluate_at<E: FieldElement>(&self, x: E) -> (r: Vec<E>)
        ensures
            r@.len() == self@.len(),
            forall|i: int| 0 <= i < r@.len() ==> #[trigger] r@[i] == eval_spec(self@[i], x),
    {
        let mut r: Vec<E> = Vec::new();
        let mut i: usize = 0;
        while i < self.0.len()
            invariant
                i <= self.0@.len(),
                self@.len() == self.0@.len(),
                r@.len() == i,
                forall|k: int| 0 <= k < i ==> #[trigger] r@[k] == eval_spec(self@[k], x),
            decreases self.0@.len() - i,
        {
            proof {
                assert(self@[i as int] == self.0@[i as int]@);
            }
            r.push(eval(self.0[i].as_slice(), x));
            i = i + 1;
        }
        r
    }

    /// Number of polynomials.
    pub fn num_polys(&self) -> (r: usize)
        ensures
            r == self@.len(),
    {
        self.0.len()
    }

    /// The polynomial at `idx`.
    pub fn get_poly(&self, idx: usize) -> (r: &Vec<BaseElement>)
        requires
            idx < self@.len(),
        ensures
            r@ == self@[idx as int],
    {
        &self.0[idx]
    }

    /// The polynomials of the table.
    pub fn into_vec(self) -> (r: Vec<Vec<BaseElement>>)
        ensures
            r@.map_values(|p: Vec<BaseElement>| p@) == self@,
    {
        self.0
    }
}

} // verus!
