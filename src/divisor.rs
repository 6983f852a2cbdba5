//! Divisors: polynomials that vanish on the steps at which a constraint must hold, kept in
//! factored form.
use crate::assertion::{Assertion, AssertionModel};
use crate::context::ComputationContext;
use crate::field::{elem, lemma_elem_eq, p, pow_mod, BaseElement, FieldElement};
use crate::polynom::root_of_order;
use vstd::arithmetic::power::pow;
use vstd::prelude::*;

verus! {

broadcast use crate::field::group_field;

/// A divisor: the product of the terms `x^e - o` over its numerator, divided by the
/// product of the terms `x - k` over its exclusions.
pub struct DivisorModel {
    pub numerator: Seq<(usize, BaseElement)>,
    pub exclude: Seq<BaseElement>,
}

/// Sum of the exponents of the first `m` numerator terms.
pub open spec fn exponent_sum(terms: Seq<(usize, BaseElement)>, m: int) -> nat
    decreases m,
{
    if m <= 0 {
        0
    } else {
        exponent_sum(terms, m - 1) + terms[m - 1].0 as nat
    }
}

/// Product of `x^e - o` over the first `m` numerator terms `(e, o)`, in order.
pub open spec fn numerator_at<E: FieldElement>(terms: Seq<(usize, BaseElement)>, x: E, m: int) -> E
    decreases m,
{
    if m <= 0 {
        E::spec_one()
    } else {
        E::spec_mul(
            numerator_at(terms, x, m - 1),
            E::spec_sub(E::spec_exp(x, terms[m - 1].0 as nat), E::spec_lift(terms[m - 1].1)),
        )
    }
}

/// Product of `x - k` over the first `m` exclusions `k`, in order.
pub open spec fn exclusions_at<E: FieldElement>(exclude: Seq<BaseElement>, x: E, m: int) -> E
    decreases m,
{
    if m <= 0 {
        E::spec_one()
    } else {
        E::spec_mul(exclusions_at(exclude, x, m - 1), E::spec_sub(x, E::spec_lift(exclude[m - 1])))
    }
}

impl DivisorModel {
    /// Degree of the divisor: the sum of the numerator's exponents less the number of
    /// exclusions.
    pub open spec fn degree(self) -> int {
        exponent_sum(self.numerator, self.numerator.len() as int) - self.exclude.len()
    }

    /// Value of the divisor at `x`.
    pub open spec fn value_at<E: FieldElement>(self, x: E) -> E {
        E::spec_mul(
            numerator_at(self.numerator, x, self.numerator.len() as int),
            E::spec_inv(exclusions_at(self.exclude, x, self.exclude.len() as int)),
        )
    }
}

/// The divisor of an assertion over a trace of length `n` with domain generator `g`:
/// `x - g^s` for a single step `s`; for stride `n / k`, `x^k - g^(k * first_step)`.
pub open spec fn assertion_divisor(a: AssertionModel, n: nat) -> DivisorModel {
    let g = root_of_order(n);
    if a.stride == 0 {
        DivisorModel {
            numerator: seq![(1usize, elem(pow(g@ as int, a.first_step)))],
            exclude: Seq::empty(),
        }
    } else {
        let k = n / a.stride;
        DivisorModel {
            numerator: seq![(k as usize, elem(pow(g@ as int, k * a.first_step)))],
            exclude: Seq::empty(),
        }
    }
}

/// The divisor of the transition constraints over a trace of length `n`: `x^n - 1`, with
/// `x - g^(n - 1 - i)` excluded for each of the last `m` steps.
pub open spec fn transition_divisor(n: nat, m: nat) -> DivisorModel {
    let g = root_of_order(n);
    DivisorModel {
        numerator: seq![(n as usize, elem(1))],
        exclude: Seq::new(m, |i: int| elem(pow(g@ as int, (n - 1 - i) as nat))),
    }
}

/// A divisor in factored form.
#[derive(Debug)]
pub struct ConstraintDivisor {
    numerator: Vec<(usize, BaseElement)>,
    exclude: Vec<BaseElement>,
}

impl View for ConstraintDivisor {
    type V = DivisorModel;

    closed spec fn view(&self) -> DivisorModel {
        DivisorModel { numerator: self.numerator@, exclude: self.exclude@ }
    }
}

impl ConstraintDivisor {
    #[verifier::type_invariant]
    spec fn bounded(self) -> bool {
        &&& exponent_sum(self@.numerator, self@.numerator.len() as int) <= usize::MAX
        &&& self@.exclude.len() <= exponent_sum(self@.numerator, self@.numerator.len() as int)
    }

    /// The divisor of `assertion` over the trace of `context`: it vanishes at the powers
    /// of the trace domain generator that stand for the asserted steps.
    pub fn from_assertion(assertion: &Assertion, context: &ComputationContext) -> (r:
        ConstraintDivisor)
        requires
            assertion@.fits_steps(context@.trace_length),
        ensures
            r@ == assertion_divisor(assertion@, context@.trace_length),
            r@.degree() == if assertion@.stride == 0 {
                1
            } else {
                context@.trace_length as int / assertion@.stride as int
            },
    {
        let n = context.trace_length();
        let g = context.get_trace_domain_generator();
        let stride = assertion.stride();
        let first_step = assertion.first_step();
        let mut numerator: Vec<(usize, BaseElement)> = Vec::new();
        if stride == 0 {
            numerator.push((1, g.exp(first_step as u64)));
        } else {
            let k = n / stride;
            proof {
                assert(k * first_step <= k * stride) by (nonlinear_arith)
                    requires
                        first_step < stride,
                ;
                vstd::arithmetic::div_mod::lemma_fundamental_div_mod(n as int, stride as int);
                assert(k * stride == stride * k) by (nonlinear_arith);
            }
            numerator.push((k, g.exp((k * first_step) as u64)));
            proof {
                vstd::arithmetic::div_mod::lemma_div_is_ordered_by_denominator(
                    n as int,
                    1,
                    stride as int,
                );
            }
        }
        proof {
            assert(numerator@ =~= assertion_divisor(assertion@, n as nat).numerator);
            assert(exponent_sum(numerator@, 0) == 0);
        }
        let r = ConstraintDivisor { numerator, exclude: Vec::new() };
        proof {
            assert(r@.exclude =~= Seq::<BaseElement>::empty());
        }
        r
    }

    /// The divisor of the transition constraints over the trace of `context`.
    pub fn from_transition(context: &ComputationContext) -> (r: ConstraintDivisor)
        ensures
            r@ == transition_divisor(context@.trace_length, context@.transition_exemptions),
            r@.degree() == context@.trace_length - context@.transition_exemptions,
    {
        let n = context.trace_length();
        let m = context.transition_exemptions();
        let g = context.get_trace_domain_generator();
        let mut numerator: Vec<(usize, BaseElement)> = Vec::new();
        numerator.push((n, BaseElement::one()));
        let mut exclude: Vec<BaseElement> = Vec::new();
        let mut i: usize = 0;
        while i < m
            invariant
                i <= m,
                m < n,
                g == root_of_order(n as nat),
                exclude@.len() == i,
                forall|j: int|
                    0 <= j < i ==> exclude@[j] == transition_divisor(n as nat, m as nat).exclude[j],
            decreases m - i,
        {
            exclude.push(g.exp((n - 1 - i) as u64));
            i = i + 1;
        }
        proof {
            assert(numerator@ =~= transition_divisor(n as nat, m as nat).numerator);
            assert(exclude@ =~= transition_divisor(n as nat, m as nat).exclude);
            assert(exponent_sum(numerator@, 0) == 0);
        }
        ConstraintDivisor { numerator, exclude }
    }

    /// Numerator terms `(e, o)`, each standing for `x^e - o`.
    pub fn numerator(&self) -> (r: &Vec<(usize, BaseElement)>)
        ensures
            r@ == self@.numerator,
    {
        &self.numerator
    }

    /// Exclusions `k`, each standing for a factor `x - k` of the denominator.
    pub fn exclude(&self) -> (r: &Vec<BaseElement>)
        ensures
            r@ == self@.exclude,
    {
        &self.exclude
    }

    /// Degree of the divisor.
    pub fn degree(&self) -> (r: usize)
        ensures
            r == self@.degree(),
    {
        proof {
            use_type_invariant(self);
        }
        let mut sum: usize = 0;
        let mut i: usize = 0;
        while i < self.numerator.len()
            invariant
                i <= self@.numerator.len(),
                sum == exponent_sum(self@.numerator, i as int),
                exponent_sum(self@.numerator, self@.numerator.len() as int) <= usize::MAX,
            decreases self@.numerator.len() - i,
        {
            proof {
                lemma_exponent_sum_monotone(self@.numerator, i + 1, self@.numerator.len() as int);
            }
            sum = sum + self.numerator[i].0;
            i = i + 1;
        }
        sum - self.exclude.len()
    }

    /// Value of the divisor at `x`; `x` must not be one of the exclusions.
    pub fn evaluate_at<E: FieldElement>(&self, x: E) -> (r: E)
        ensures
            r == self@.value_at(x),
    {
        let mut numerator = E::one();
        let mut i: usize = 0;
        while i < self.numerator.len()
            invariant
                i <= self@.numerator.len(),
                numerator == numerator_at(self@.numerator, x, i as int),
            decreases self@.numerator.len() - i,
        {
            let (e, o) = self.numerator[i];
            numerator = numerator.mul(x.exp(e as u64).sub(E::lift(o)));
            i = i + 1;
        }
        let mut denominator = E::one();
        let mut j: usize = 0;
        while j < self.exclude.len()
            invariant
                j <= self@.exclude.len(),
                denominator == exclusions_at(self@.exclude, x, j as int),
            decreases self@.exclude.len() - j,
        {
            denominator = denominator.mul(x.sub(E::lift(self.exclude[j])));
            j = j + 1;
        }
        numerator.mul(denominator.inv())
    }
}

proof fn lemma_exponent_sum_monotone(terms: Seq<(usize, BaseElement)>, a: int, b: int)
    requires
        0 <= a <= b <= terms.len(),
    ensures
        exponent_sum(terms, a) <= exponent_sum(terms, b),
    decreases b - a,
{
    if a < b {
        lemma_exponent_sum_monotone(terms, a, b - 1);
    }
}

/// `g` generates a subgroup of order `n`: `g^n == 1`, and `g^0, ..., g^(n-1)` are distinct.
pub open spec fn is_primitive_root(g: BaseElement, n: nat) -> bool {
    &&& pow_mod(g@, n) == 1
    &&& forall|e1: nat, e2: nat| e1 < e2 < n ==> #[trigger] pow_mod(g@, e1) != #[trigger] pow_mod(g@, e2)
}

pub proof fn lemma_one_pow(q: nat)
    ensures
        pow(1, q) == 1,
    decreases q,
{
    reveal(pow);
    if q > 0 {
        lemma_one_pow((q - 1) as nat);
    }
}

/// Powers of a root of order `n` repeat with period `n`.
pub proof fn lemma_pow_period(g: int, n: nat, e: nat)
    requires
        n > 0,
        pow(g, n) % (p() as int) == 1,
    ensures
        pow(g, e) % (p() as int) == pow(g, e % n) % (p() as int),
{
    let m = p() as int;
    let q = e / n;
    let r = e % n;
    vstd::arithmetic::div_mod::lemma_fundamental_div_mod(e as int, n as int);
    assert(e == n * q + r);
    vstd::arithmetic::power::lemma_pow_adds(g, n * q, r);
    vstd::arithmetic::power::lemma_pow_multiplies(g, n, q);
    let big = pow(pow(g, n), q);
    assert(pow(g, e) == big * pow(g, r));
    vstd::arithmetic::power::lemma_pow_mod_noop(pow(g, n), q, m);
    assert(pow(g, n) % m == 1);
    lemma_one_pow(q);
    assert(pow(1, q) % m == 1);
    assert(big % m == 1);
    vstd::arithmetic::div_mod::lemma_mul_mod_noop_left(big, pow(g, r), m);
    assert((big % m) * pow(g, r) == pow(g, r));
}

/// The residue of `x^k - o` for `x = g^t` and `o = g^e` (both reduced to residues).
proof fn lemma_term_zero(gv: int, t: nat, k: nat, e: nat)
    ensures
        BaseElement::spec_sub(
            BaseElement::spec_exp(elem(pow(gv, t)), k),
            elem(pow(gv, e)),
        )@ == 0 <==> pow(gv, t * k) % (p() as int) == pow(gv, e) % (p() as int),
{
    let m = p() as int;
    let x = elem(pow(gv, t));
    vstd::arithmetic::power::lemma_pow_mod_noop(pow(gv, t), k, m);
    vstd::arithmetic::power::lemma_pow_multiplies(gv, t, k);
    let a = pow(gv, t * k) % m;
    let b = pow(gv, e) % m;
    assert(BaseElement::spec_exp(x, k)@ == a);
    assert(elem(pow(gv, e))@ == b);
    if a < b {
        vstd::arithmetic::div_mod::lemma_fundamental_div_mod_converse(a - b, m, -1, a - b + m);
    } else {
        vstd::arithmetic::div_mod::lemma_small_mod((a - b) as nat, m as nat);
    }
}

/// The divisor of an assertion vanishes at `g^t`, for a step `t` of the trace, exactly when
/// `t` is one of the asserted steps; `g` is the trace domain generator, a root of order `n`.
pub proof fn lemma_assertion_divisor_roots(a: AssertionModel, n: nat, t: nat)
    requires
        a.well_formed(),
        a.fits_steps(n),
        n <= usize::MAX,
        t < n,
        is_primitive_root(root_of_order(n), n),
    ensures
        assertion_divisor(a, n).value_at(elem(pow(root_of_order(n)@ as int, t))) == elem(0)
            <==> a.steps(n).contains(t),
{
    let m = p() as int;
    let g = root_of_order(n);
    let gv = g@ as int;
    let x = elem(pow(gv, t));
    let d = assertion_divisor(a, n);
    let k: nat = if a.stride == 0 {
        1
    } else {
        n / a.stride
    };
    let e: nat = if a.stride == 0 {
        a.first_step
    } else {
        k * a.first_step
    };
    if a.stride != 0 {
        vstd::arithmetic::div_mod::lemma_fundamental_div_mod(n as int, a.stride as int);
        vstd::arithmetic::div_mod::lemma_div_is_ordered_by_denominator(n as int, 1, a.stride as int);
        if n / a.stride == 0 {
            assert(n == a.stride * 0);
        }
        assert(k >= 1);
    }
    assert(d.numerator[0] == (k as usize, elem(pow(gv, e))));
    assert(k <= n);
    assert((k as usize) as nat == k);
    let term = BaseElement::spec_sub(BaseElement::spec_exp(x, k), elem(pow(gv, e)));
    let num = numerator_at(d.numerator, x, 1);
    reveal_with_fuel(numerator_at, 2);
    assert(num == BaseElement::spec_mul(elem(1), term));
    let den = exclusions_at(d.exclude, x, 0);
    let inv1 = BaseElement::spec_inv(den);
    assert(den == elem(1));
    lemma_one_pow((crate::field::MODULUS - 2) as nat);
    assert(elem(1)@ == 1);
    assert(inv1@ == 1);
    let value = d.value_at(x);
    assert(value == BaseElement::spec_mul(num, inv1));
    assert(num@ == term@) by {
        assert(elem(1)@ == 1);
        assert(1 * term@ == term@);
        vstd::arithmetic::div_mod::lemma_small_mod(term@, p());
    }
    assert(value@ == num@) by {
        vstd::arithmetic::div_mod::lemma_small_mod(num@, p());
    }
    assert(value == elem(0) <==> value@ == 0) by {
        if value@ == 0 {
            lemma_elem_eq((num@ * inv1@) as int, 0);
        }
    }
    lemma_term_zero(gv, t, k, e);
    // term@ == 0 <==> g^(t k) == g^e
    assert(pow(gv, n) % m == 1) by {
        assert(pow_mod(g@, n) == 1);
    }
    lemma_pow_period(gv, n, t * k);
    lemma_pow_period(gv, n, e);
    assert(e < n) by {
        if a.stride != 0 {
            assert(k * a.first_step < k * a.stride) by (nonlinear_arith)
                requires
                    a.first_step < a.stride,
                    k >= 1,
            ;
            assert(k * a.stride == n) by (nonlinear_arith)
                requires
                    n == a.stride * (n / a.stride),
                    k == n / a.stride,
            ;
        }
    }
    vstd::arithmetic::div_mod::lemma_small_mod(e, n);
    let r: nat = (t * k) % n;
    // distinct exponents below n give distinct powers
    assert(pow(gv, r) % m == pow(gv, e) % m <==> r == e) by {
        vstd::arithmetic::div_mod::lemma_mod_bound((t * k) as int, n as int);
        if r < e {
            assert(pow_mod(g@, r) != pow_mod(g@, e));
        } else if e < r {
            assert(pow_mod(g@, e) != pow_mod(g@, r));
        }
    }
    if a.stride == 0 {
        vstd::arithmetic::div_mod::lemma_small_mod(t, n);
    } else {
        let s = a.stride;
        let q = t / s;
        let r0 = t % s;
        let f = a.first_step;
        vstd::arithmetic::div_mod::lemma_fundamental_div_mod(t as int, s as int);
        assert(n == k * s) by (nonlinear_arith)
            requires
                n == s * (n / s),
                k == n / s,
        ;
        assert(t * k == q * n + r0 * k) by (nonlinear_arith)
            requires
                t == s * q + r0,
                n == k * s,
        ;
        assert(r0 * k < n) by (nonlinear_arith)
            requires
                r0 < s,
                n == k * s,
                k >= 1,
        ;
        vstd::arithmetic::div_mod::lemma_fundamental_div_mod_converse(
            (t * k) as int,
            n as int,
            q as int,
            (r0 * k) as int,
        );
        assert(r == r0 * k);
        assert(r0 * k == k * f <==> r0 == f) by (nonlinear_arith)
            requires
                k >= 1,
        ;
    }
}

} // verus!
