//! The algebra behind interpolation and division: the polynomial built from values over the roots
//! of unity of their number takes those values back at the same roots, and the quotient of
//! long division times the divisor agrees with the dividend from the divisor's degree up.
use crate::divisor::is_primitive_root;
use crate::field::{elem, p, pow_mod, BaseElement, FieldElement, MODULUS};
use crate::polynom::{
    conv_sum, degree_spec, division_remainder, eval_spec, idft_sum, interpolate_spec,
    inv_twiddles_spec, quotient_spec, root_of_order,
};
use vstd::arithmetic::div_mod::{
    lemma_add_mod_noop, lemma_mod_bound, lemma_mul_mod_noop_left, lemma_mul_mod_noop_right,
    lemma_small_mod,
};
use vstd::arithmetic::power::{lemma_pow_adds, lemma_pow_distributes, lemma_pow_multiplies, pow};
use vstd::prelude::*;

verus! {

broadcast use crate::field::group_field;

/// Sum of `f(i)` over `0 <= i < k`.
pub open spec fn isum(f: spec_fn(int) -> int, k: int) -> int
    decreases k,
{
    if k <= 0 {
        0
    } else {
        isum(f, k - 1) + f(k - 1)
    }
}

/// Fermat's little theorem for the modulus: every non-zero residue raised to
/// `MODULUS - 1` is 1. It holds because the modulus is prime.
pub open spec fn fermat() -> bool {
    forall|a: int| 0 < a < p() ==> #[trigger] pow(a, (MODULUS - 1) as nat) % (p() as int) == 1
}

proof fn lemma_isum_congruent(f: spec_fn(int) -> int, g: spec_fn(int) -> int, k: int)
    requires
        forall|i: int| 0 <= i < k ==> #[trigger] f(i) % (p() as int) == g(i) % (p() as int),
    ensures
        isum(f, k) % (p() as int) == isum(g, k) % (p() as int),
    decreases k,
{
    if k > 0 {
        let m = p() as int;
        lemma_isum_congruent(f, g, k - 1);
        lemma_add_mod_noop(isum(f, k - 1), f(k - 1), m);
        lemma_add_mod_noop(isum(g, k - 1), g(k - 1), m);
    }
}

proof fn lemma_isum_scale(f: spec_fn(int) -> int, g: spec_fn(int) -> int, a: int, k: int)
    requires
        forall|i: int| 0 <= i < k ==> #[trigger] g(i) == a * f(i),
    ensures
        isum(g, k) == a * isum(f, k),
    decreases k,
{
    if k > 0 {
        lemma_isum_scale(f, g, a, k - 1);
        assert(a * isum(f, k - 1) + a * f(k - 1) == a * (isum(f, k - 1) + f(k - 1)))
            by (nonlinear_arith);
    }
}

proof fn lemma_isum_ext(f: spec_fn(int) -> int, g: spec_fn(int) -> int, k: int)
    requires
        forall|i: int| 0 <= i < k ==> #[trigger] f(i) == g(i),
    ensures
        isum(f, k) == isum(g, k),
    decreases k,
{
    if k > 0 {
        lemma_isum_ext(f, g, k - 1);
    }
}

/// Splitting off the first term: `sum_{i<k} f(i) = f(0) + sum_{i<k-1} f(i+1)`.
proof fn lemma_isum_first(f: spec_fn(int) -> int, k: int)
    requires
        k >= 1,
    ensures
        isum(f, k) == f(0) + isum(|i: int| f(i + 1), k - 1),
    decreases k,
{
    let g = |i: int| f(i + 1);
    if k > 1 {
        lemma_isum_first(f, k - 1);
        assert(isum(g, k - 1) == isum(g, k - 2) + g(k - 2));
    } else {
        assert(isum(f, 1) == isum(f, 0) + f(0));
        assert(isum(g, 0) == 0);
    }
}

/// The double sum `sum_{j<b} sum_{i<a} f(i, j)` in either order.
proof fn lemma_isum_swap(f: spec_fn(int, int) -> int, a: int, b: int)
    ensures
        isum(|j: int| isum(|i: int| f(i, j), a), b) == isum(|i: int| isum(|j: int| f(i, j), b), a),
    decreases b,
{
    let s_row = |j: int| isum(|i: int| f(i, j), a);
    let h = |i: int| isum(|j: int| f(i, j), b);
    if b > 0 {
        lemma_isum_swap(f, a, b - 1);
        let g1 = |i: int| isum(|j: int| f(i, j), b - 1);
        let g2 = |i: int| f(i, b - 1);
        assert forall|i: int| #[trigger] h(i) == g1(i) + g2(i) by {
            assert(isum(|j: int| f(i, j), b) == isum(|j: int| f(i, j), b - 1) + f(i, b - 1));
        }
        lemma_isum_add(g1, g2, a);
        lemma_isum_ext(h, |i: int| g1(i) + g2(i), a);
        assert(isum(s_row, b) == isum(s_row, b - 1) + s_row(b - 1));
        assert(s_row(b - 1) == isum(g2, a));
    } else {
        assert(isum(s_row, b) == 0);
        assert forall|i: int| #[trigger] h(i) == 0 by {}
        lemma_isum_zero(h, a);
    }
}

proof fn lemma_isum_zero(f: spec_fn(int) -> int, k: int)
    requires
        forall|i: int| #[trigger] f(i) == 0,
    ensures
        isum(f, k) == 0,
    decreases k,
{
    if k > 0 {
        lemma_isum_zero(f, k - 1);
    }
}

proof fn lemma_isum_add(f: spec_fn(int) -> int, g: spec_fn(int) -> int, k: int)
    ensures
        isum(|i: int| f(i) + g(i), k) == isum(f, k) + isum(g, k),
    decreases k,
{
    if k > 0 {
        lemma_isum_add(f, g, k - 1);
    }
}

proof fn lemma_cong_mul(a: int, a2: int, b: int, b2: int)
    requires
        a % (p() as int) == a2 % (p() as int),
        b % (p() as int) == b2 % (p() as int),
    ensures
        (a * b) % (p() as int) == (a2 * b2) % (p() as int),
{
    let m = p() as int;
    lemma_mul_mod_noop_left(a, b, m);
    lemma_mul_mod_noop_left(a2, b, m);
    lemma_mul_mod_noop_right(a2, b, m);
    lemma_mul_mod_noop_right(a2, b2, m);
}

/// Under Fermat's theorem, `a^(MODULUS - 2)` is the inverse of a non-zero `a`.
proof fn lemma_inverse(a: int)
    requires
        fermat(),
        a % (p() as int) != 0,
    ensures
        (a * pow(a, (MODULUS - 2) as nat)) % (p() as int) == 1,
{
    let m = p() as int;
    lemma_pow_adds(a, 1, (MODULUS - 2) as nat);
    vstd::arithmetic::power::lemma_pow1(a);
    vstd::arithmetic::power::lemma_pow_mod_noop(a, (MODULUS - 1) as nat, m);
    lemma_mod_bound(a, m);
    assert(pow(a % m, (MODULUS - 1) as nat) % m == 1);
}

/// Under Fermat's theorem, a product of residues is zero only if a factor is.
proof fn lemma_cancel(a: int, b: int)
    requires
        fermat(),
        a % (p() as int) != 0,
        (a * b) % (p() as int) == 0,
    ensures
        b % (p() as int) == 0,
{
    let m = p() as int;
    let ai = pow(a, (MODULUS - 2) as nat);
    lemma_inverse(a);
    // b = (a * ai) * b = ai * (a * b) (mod m)
    lemma_cong_mul(a * ai, 1, b, b);
    assert((a * ai) * b == ai * (a * b)) by (nonlinear_arith);
    lemma_cong_mul(ai, ai, a * b, 0);
}

/// A residue of 1 stays 1 under powers.
proof fn lemma_pow_of_one(a: int, e: nat)
    requires
        a % (p() as int) == 1,
    ensures
        pow(a, e) % (p() as int) == 1,
{
    vstd::arithmetic::power::lemma_pow_mod_noop(a, e, p() as int);
    crate::divisor::lemma_one_pow(e);
}

/// `(r - 1) * (r^0 + ... + r^(k-1)) = r^k - 1`.
proof fn lemma_geometric(r: int, k: int)
    requires
        k >= 0,
    ensures
        (r - 1) * isum(|j: int| pow(r, j as nat), k) == pow(r, k as nat) - 1,
    decreases k,
{
    if k == 0 {
        vstd::arithmetic::power::lemma_pow0(r);
    } else {
        lemma_geometric(r, k - 1);
        lemma_pow_adds(r, (k - 1) as nat, 1);
        vstd::arithmetic::power::lemma_pow1(r);
        let s = isum(|j: int| pow(r, j as nat), k - 1);
        let q = pow(r, (k - 1) as nat);
        assert((r - 1) * (s + q) == (r - 1) * s + q * r - q) by (nonlinear_arith);
    }
}

/// Residue of the inverse discrete Fourier sum.
proof fn lemma_idft_residue(v: Seq<BaseElement>, t: Seq<BaseElement>, j: int, k: int)
    requires
        0 <= k <= v.len(),
        v.len() > 0,
        t.len() == v.len(),
    ensures
        idft_sum(v, t, j, k)@ == isum(
            |i: int| (v[i]@ * t[(i * j) % (v.len() as int)]@) as int,
            k,
        ) % (p() as int),
    decreases k,
{
    let m = p() as int;
    let f = |i: int| (v[i]@ * t[(i * j) % (v.len() as int)]@) as int;
    if k == 0 {
        assert(elem(0)@ == 0);
    } else {
        lemma_idft_residue(v, t, j, k - 1);
        let x = f(k - 1);
        lemma_add_mod_noop(isum(f, k - 1), x, m);
        assert(idft_sum(v, t, j, k)@ == ((isum(f, k - 1) % m) + (x % m)) % m);
    }
}

/// Residue of a polynomial's value: the sum of `c[j] * x^j`.
proof fn lemma_eval_residue_sum(c: Seq<BaseElement>, x: BaseElement)
    ensures
        eval_spec(c, x)@ == isum(|j: int| c[j]@ as int * pow(x@ as int, j as nat), c.len() as int) % (
        p() as int),
    decreases c.len(),
{
    let m = p() as int;
    let xv = x@ as int;
    if c.len() == 0 {
        assert(elem(0)@ == 0);
    } else {
        let r = c.drop_first();
        lemma_eval_residue_sum(r, x);
        let rs = isum(|j: int| r[j]@ as int * pow(xv, j as nat), r.len() as int);
        let f = |j: int| c[j]@ as int * pow(xv, j as nat);
        lemma_isum_first(f, c.len() as int);
        let g = |j: int| f(j + 1);
        let h = |j: int| r[j]@ as int * pow(xv, j as nat);
        assert forall|j: int| 0 <= j < r.len() implies #[trigger] g(j) == xv * h(j) by {
            lemma_pow_adds(xv, j as nat, 1);
            vstd::arithmetic::power::lemma_pow1(xv);
            assert(r[j] == c[j + 1]);
            assert(c[j + 1]@ * (pow(xv, j as nat) * xv) == xv * (r[j]@ * pow(xv, j as nat)))
                by (nonlinear_arith)
                requires
                    c[j + 1] == r[j],
            ;
        }
        lemma_isum_scale(h, g, xv, r.len() as int);
        vstd::arithmetic::power::lemma_pow0(xv);
        // eval(c) = eval(r) * x + c[0]
        let ev = eval_spec(r, x)@ as int;
        assert(eval_spec(c, x)@ == (((ev * xv) % m) + c[0]@) % m);
        lemma_mul_mod_noop_left(rs, xv, m);
        lemma_small_mod(c[0]@, p());
        lemma_add_mod_noop(rs * xv, c[0]@ as int, m);
        assert(rs * xv == xv * rs) by (nonlinear_arith);
    }
}

proof fn lemma_isum_ones(f: spec_fn(int) -> int, k: int)
    requires
        k >= 0,
        forall|j: int| 0 <= j < k ==> #[trigger] f(j) % (p() as int) == 1,
    ensures
        isum(f, k) % (p() as int) == k % (p() as int),
    decreases k,
{
    if k > 0 {
        let m = p() as int;
        lemma_isum_ones(f, k - 1);
        lemma_add_mod_noop(isum(f, k - 1), f(k - 1), m);
        lemma_add_mod_noop(k - 1, 1, m);
        lemma_small_mod(1, p());
    }
}

/// Facts about the trace domain generator `w` of order `n` and its inverse `wi`.
proof fn lemma_root_facts(n: nat)
    requires
        fermat(),
        1 <= n,
        is_primitive_root(root_of_order(n), n),
    ensures
        ({
            let w = root_of_order(n)@ as int;
            let wi = BaseElement::spec_inv(root_of_order(n))@ as int;
            &&& (wi * w) % (p() as int) == 1
            &&& pow(w, n) % (p() as int) == 1
            &&& pow(wi, n) % (p() as int) == 1
            &&& w % (p() as int) != 0
        }),
{
    let m = p() as int;
    let w = root_of_order(n)@ as int;
    let wi = BaseElement::spec_inv(root_of_order(n))@ as int;
    assert(pow_mod(w as nat, n) == 1);
    if w % m == 0 {
        lemma_small_mod(w as nat, p());
        assert(w == 0);
        vstd::arithmetic::power::lemma0_pow(n);
        assert(pow(w, n) == 0);
        assert(false);
    }
    lemma_inverse(w);
    assert(wi == pow(w, (MODULUS - 2) as nat) % m);
    lemma_cong_mul(wi, pow(w, (MODULUS - 2) as nat), w, w);
    assert(pow(w, (MODULUS - 2) as nat) * w == w * pow(w, (MODULUS - 2) as nat)) by (nonlinear_arith);
    lemma_pow_of_one(wi * w, n);
    lemma_pow_distributes(wi, w, n);
    lemma_cong_mul(pow(wi, n), pow(wi, n), pow(w, n), 1);
}

/// `sum_{j<n} (wi^i w^k)^j` is `n` when `i == k` and 0 otherwise, for `i, k < n`.
proof fn lemma_orthogonality(n: nat, i: nat, k: nat)
    requires
        fermat(),
        1 <= n < p(),
        i < n,
        k < n,
        is_primitive_root(root_of_order(n), n),
    ensures
        ({
            let w = root_of_order(n)@ as int;
            let wi = BaseElement::spec_inv(root_of_order(n))@ as int;
            isum(|j: int| pow(wi, (i * j) as nat) * pow(w, (k * j) as nat), n as int) % (p() as int)
                == if i == k {
                n as int
            } else {
                0
            }
        }),
{
    let m = p() as int;
    let w = root_of_order(n)@ as int;
    let wi = BaseElement::spec_inv(root_of_order(n))@ as int;
    lemma_root_facts(n);
    let r = pow(wi, i) * pow(w, k);
    let f = |j: int| pow(wi, (i * j) as nat) * pow(w, (k * j) as nat);
    let g = |j: int| pow(r, j as nat);
    assert forall|j: int| 0 <= j < n implies #[trigger] f(j) == g(j) by {
        lemma_pow_multiplies(wi, i, j as nat);
        lemma_pow_multiplies(w, k, j as nat);
        lemma_pow_distributes(pow(wi, i), pow(w, k), j as nat);
    }
    lemma_isum_ext(f, g, n as int);
    if i == k {
        lemma_pow_distributes(wi, w, k);
        lemma_pow_of_one(wi * w, k);
        assert(r % m == 1);
        assert forall|j: int| 0 <= j < n implies #[trigger] g(j) % m == 1 by {
            lemma_pow_of_one(r, j as nat);
        }
        lemma_isum_ones(g, n as int);
        lemma_small_mod(n, p());
    } else {
        // r^n = (wi^n)^i (w^n)^k = 1
        lemma_pow_distributes(pow(wi, i), pow(w, k), n);
        lemma_pow_multiplies(wi, i, n);
        lemma_pow_multiplies(wi, n, i);
        lemma_pow_multiplies(w, k, n);
        lemma_pow_multiplies(w, n, k);
        assert(i * n == n * i) by (nonlinear_arith);
        assert(k * n == n * k) by (nonlinear_arith);
        lemma_pow_of_one(pow(wi, n), i);
        lemma_pow_of_one(pow(w, n), k);
        lemma_cong_mul(pow(pow(wi, i), n), 1, pow(pow(w, k), n), 1);
        assert(pow(r, n) % m == 1);
        // r is not 1
        if k > i {
            let d = (k - i) as nat;
            lemma_pow_adds(w, i, d);
            lemma_pow_distributes(wi, w, i);
            lemma_pow_of_one(wi * w, i);
            assert(r == pow(wi * w, i) * pow(w, d)) by (nonlinear_arith)
                requires
                    r == pow(wi, i) * pow(w, k),
                    pow(w, k) == pow(w, i) * pow(w, d),
                    pow(wi * w, i) == pow(wi, i) * pow(w, i),
            ;
            lemma_cong_mul(pow(wi * w, i), 1, pow(w, d), pow(w, d));
            assert(pow_mod(w as nat, 0) != pow_mod(w as nat, d));
            vstd::arithmetic::power::lemma_pow0(w);
            lemma_small_mod(1, p());
            assert(r % m != 1);
        } else {
            let d = (i - k) as nat;
            lemma_pow_adds(wi, k, d);
            lemma_pow_distributes(wi, w, k);
            lemma_pow_of_one(wi * w, k);
            assert(r == pow(wi * w, k) * pow(wi, d)) by (nonlinear_arith)
                requires
                    r == pow(wi, i) * pow(w, k),
                    pow(wi, i) == pow(wi, k) * pow(wi, d),
                    pow(wi * w, k) == pow(wi, k) * pow(w, k),
            ;
            lemma_cong_mul(pow(wi * w, k), 1, pow(wi, d), pow(wi, d));
            if pow(wi, d) % m == 1 {
                // then w^d = (wi w)^d / wi^d would be 1 as well
                lemma_pow_distributes(wi, w, d);
                lemma_pow_of_one(wi * w, d);
                lemma_cong_mul(pow(wi, d), 1, pow(w, d), pow(w, d));
                assert(pow_mod(w as nat, 0) != pow_mod(w as nat, d));
                vstd::arithmetic::power::lemma_pow0(w);
                lemma_small_mod(1, p());
                assert(false);
            }
            assert(r % m != 1);
        }
        lemma_geometric(r, n as int);
        let sg = isum(g, n as int);
        assert(((r - 1) * sg) % m == 0) by {
            lemma_mod_bound(pow(r, n), m);
            vstd::arithmetic::div_mod::lemma_sub_mod_noop(pow(r, n), 1, m);
            lemma_small_mod(1, p());
        }
        assert((r - 1) % m != 0) by {
            if (r - 1) % m == 0 {
                lemma_add_mod_noop(r - 1, 1, m);
                lemma_small_mod(1, p());
            }
        }
        lemma_cancel(r - 1, sg);
    }
}

/// The sum of `f(i)` over `i < k` where only `f(c)` can be non-zero.
proof fn lemma_isum_single(f: spec_fn(int) -> int, c: int, k: int)
    requires
        forall|i: int| 0 <= i < k && i != c ==> #[trigger] f(i) == 0,
    ensures
        isum(f, k) == if 0 <= c < k {
            f(c)
        } else {
            0
        },
    decreases k,
{
    if k > 0 {
        lemma_isum_single(f, c, k - 1);
    }
}

/// Round trip: interpolating values `v` over the roots of unity of order `n = v.len()` and
/// evaluating the result at the `k`-th root gives back `v[k]`. It rests on two facts about
/// the field: Fermat's theorem for the modulus, and `root_of_order(n)` having order
/// exactly `n`.
pub proof fn lemma_interpolation_round_trip(v: Seq<BaseElement>, k: nat)
    requires
        fermat(),
        1 <= v.len() <= 0x1_0000_0000,
        k < v.len(),
        is_primitive_root(root_of_order(v.len()), v.len()),
    ensures
        eval_spec(
            interpolate_spec(v, inv_twiddles_spec(v.len())),
            elem(pow(root_of_order(v.len())@ as int, k)),
        )@ == v[k as int]@,
{
    let m = p() as int;
    let n = v.len();
    let ni = n as int;
    let w = root_of_order(n)@ as int;
    let wi = BaseElement::spec_inv(root_of_order(n))@ as int;
    let t = inv_twiddles_spec(n);
    let c = interpolate_spec(v, t);
    let x = elem(pow(w, k));
    let xv = x@ as int;
    let nin = BaseElement::spec_inv(elem(ni))@ as int;
    lemma_root_facts(n);
    assert(n < p());
    // the value as a sum of c[j] x^j
    lemma_eval_residue_sum(c, x);
    let term = |j: int| c[j]@ as int * pow(xv, j as nat);
    let fij = |i: int, j: int| v[i]@ as int * pow(wi, (i * j) as nat) * pow(w, (k * j) as nat);
    let row = |j: int| isum(|i: int| fij(i, j), ni);
    // each term is nin times a row of the double sum
    assert forall|j: int| 0 <= j < ni implies #[trigger] term(j) % m == (nin * row(j)) % m by {
        let idft = isum(|i: int| (v[i]@ * t[(i * j) % ni]@) as int, ni);
        let b = isum(|i: int| v[i]@ as int * pow(wi, (i * j) as nat), ni);
        lemma_idft_residue(v, t, j, ni);
        assert forall|i: int| 0 <= i < ni implies #[trigger] ((v[i]@ * t[(i * j) % ni]@) as int) % m
            == (v[i]@ as int * pow(wi, (i * j) as nat)) % m by {
            lemma_mod_bound(i * j, ni);
            assert(t[(i * j) % ni]@ == pow(wi, ((i * j) % ni) as nat) % m);
            assert(i * j >= 0) by (nonlinear_arith)
                requires
                    i >= 0,
                    j >= 0,
            ;
            crate::divisor::lemma_pow_period(wi, n, (i * j) as nat);
            lemma_cong_mul(v[i]@ as int, v[i]@ as int, t[(i * j) % ni]@ as int, pow(wi, (i * j) as nat));
        }
        lemma_isum_congruent(
            |i: int| (v[i]@ * t[(i * j) % ni]@) as int,
            |i: int| v[i]@ as int * pow(wi, (i * j) as nat),
            ni,
        );
        // c[j] = idft * nin
        assert(c[j]@ == (((idft % m) * nin) % m));
        lemma_cong_mul(idft % m, b, nin, nin);
        vstd::arithmetic::div_mod::lemma_mod_mod(idft, m, 1);
        // x^j = w^(k j)
        vstd::arithmetic::power::lemma_pow_mod_noop(pow(w, k), j as nat, m);
        lemma_pow_multiplies(w, k, j as nat);
        assert(k * j >= 0) by (nonlinear_arith)
            requires
                j >= 0,
        ;
        lemma_cong_mul(c[j]@ as int, b * nin, pow(xv, j as nat), pow(w, (k * j) as nat));
        assert forall|i: int| 0 <= i < ni implies #[trigger] fij(i, j) == pow(w, (k * j) as nat)
            * (v[i]@ as int * pow(wi, (i * j) as nat)) by {
            assert(v[i]@ as int * pow(wi, (i * j) as nat) * pow(w, (k * j) as nat) == pow(
                w,
                (k * j) as nat,
            ) * (v[i]@ as int * pow(wi, (i * j) as nat))) by (nonlinear_arith);
        }
        lemma_isum_scale(
            |i: int| v[i]@ as int * pow(wi, (i * j) as nat),
            |i: int| fij(i, j),
            pow(w, (k * j) as nat),
            ni,
        );
        assert((b * nin) * pow(w, (k * j) as nat) == nin * (pow(w, (k * j) as nat) * b))
            by (nonlinear_arith);
    }
    lemma_isum_congruent(term, |j: int| nin * row(j), ni);
    lemma_isum_scale(row, |j: int| nin * row(j), nin, ni);
    lemma_isum_swap(fij, ni, ni);
    // each column is v[i] times an orthogonality sum
    let col = |i: int| isum(|j: int| fij(i, j), ni);
    let orth = |i: int| isum(|j: int| pow(wi, (i * j) as nat) * pow(w, (k * j) as nat), ni);
    let single = |i: int| if i == k { v[k as int]@ as int * ni } else { 0 };
    assert forall|i: int| 0 <= i < ni implies #[trigger] col(i) % m == single(i) % m by {
        assert forall|j: int| 0 <= j < ni implies #[trigger] fij(i, j) == v[i]@ as int * (pow(
            wi,
            (i * j) as nat,
        ) * pow(w, (k * j) as nat)) by {
            assert(v[i]@ as int * pow(wi, (i * j) as nat) * pow(w, (k * j) as nat) == v[i]@ as int
                * (pow(wi, (i * j) as nat) * pow(w, (k * j) as nat))) by (nonlinear_arith);
        }
        lemma_isum_scale(
            |j: int| pow(wi, (i * j) as nat) * pow(w, (k * j) as nat),
            |j: int| fij(i, j),
            v[i]@ as int,
            ni,
        );
        lemma_orthogonality(n, i as nat, k);
        lemma_cong_mul(v[i]@ as int, v[i]@ as int, orth(i), if i == k { ni } else { 0 });
    }
    lemma_isum_congruent(col, single, ni);
    lemma_isum_single(single, k as int, ni);
    // nin * (v[k] * n) = v[k]
    lemma_small_mod(n, p());
    assert(elem(ni)@ == n);
    lemma_inverse(ni);
    assert(nin == pow(ni, (MODULUS - 2) as nat) % m);
    lemma_cong_mul(nin, pow(ni, (MODULUS - 2) as nat), ni, ni);
    let total = isum(row, ni);
    lemma_cong_mul(nin, nin, total, v[k as int]@ as int * ni);
    assert(nin * (v[k as int]@ as int * ni) == (nin * ni) * v[k as int]@ as int) by (nonlinear_arith);
    lemma_cong_mul(nin * ni, 1, v[k as int]@ as int, v[k as int]@ as int);
    lemma_small_mod(v[k as int]@, p());
}

/// Coefficients above the degree are zero.
proof fn lemma_above_degree(c: Seq<BaseElement>, k: int)
    requires
        degree_spec(c) < k < c.len(),
    ensures
        c[k] == elem(0),
    decreases c.len(),
{
    if c.last() == elem(0) {
        if k < c.len() - 1 {
            lemma_above_degree(c.drop_last(), k);
        }
    } else {
        assert(degree_spec(c) == c.len() - 1);
    }
}

/// The term of the product `q * b` at position `t` contributed by `q[i]`.
pub open spec fn product_term(q: Seq<BaseElement>, b: Seq<BaseElement>, t: int, i: int) -> int {
    if 0 <= i < q.len() && 0 <= t - i < b.len() {
        q[i]@ as int * b[t - i]@ as int
    } else {
        0
    }
}

/// Residue of coefficient `t` of a product.
proof fn lemma_conv_residue(q: Seq<BaseElement>, b: Seq<BaseElement>, t: int, n: int)
    requires
        n <= q.len(),
    ensures
        conv_sum(q, b, t, n)@ == isum(|i: int| product_term(q, b, t, i), n) % (p() as int),
    decreases n,
{
    let m = p() as int;
    if n <= 0 {
        assert(elem(0)@ == 0);
        if n < 0 {
            assert(isum(|i: int| product_term(q, b, t, i), n) == 0);
        }
    } else {
        lemma_conv_residue(q, b, t, n - 1);
        let f = |i: int| product_term(q, b, t, i);
        lemma_add_mod_noop(isum(f, n - 1), f(n - 1), m);
        lemma_small_mod(0, p());
    }
}

/// The part of the product `q * b` at position `t` taken off by the quotient coefficients
/// from `i` on, for a divisor of degree `db`.
pub open spec fn taken_off(q: Seq<BaseElement>, b: Seq<BaseElement>, db: int, t: int, i: int) -> int {
    isum(
        |k: int|
            if i <= k && k <= t && t < k + db {
                product_term(q, b, t, k)
            } else {
                0
            },
        q.len() as int,
    )
}

/// The running remainder is the dividend less what the quotient coefficients from `i` on
/// have taken off.
proof fn lemma_remainder_residue(a: Seq<BaseElement>, b: Seq<BaseElement>, i: int, t: int)
    requires
        a.len() > 0,
        b.len() > 0,
        degree_spec(b) <= degree_spec(a),
        0 <= i <= degree_spec(a) - degree_spec(b) + 1,
        0 <= t < a.len(),
        degree_spec(a) < a.len(),
        degree_spec(b) < b.len(),
    ensures
        ({
            let db = degree_spec(b) as int;
            let len = degree_spec(a) - db + 1;
            let binv = BaseElement::spec_inv(b[db]);
            division_remainder(a, b, db, binv, len, i, t)@ == (a[t]@ - taken_off(
                quotient_spec(a, b),
                b,
                db,
                t,
                i,
            )) % (p() as int)
        }),
    decreases degree_spec(a) - degree_spec(b) + 1 - i,
{
    let m = p() as int;
    let db = degree_spec(b) as int;
    let len = degree_spec(a) - db + 1;
    let binv = BaseElement::spec_inv(b[db]);
    let q = quotient_spec(a, b);
    let cur = |k: int|
        if i <= k && k <= t && t < k + db {
            product_term(q, b, t, k)
        } else {
            0
        };
    if i >= len {
        assert forall|k: int| 0 <= k < q.len() implies #[trigger] cur(k) == 0 by {}
        lemma_isum_zero_below(cur, q.len() as int);
        lemma_small_mod(a[t]@, p());
    } else {
        lemma_remainder_residue(a, b, i + 1, t);
        let next = |k: int|
            if i + 1 <= k && k <= t && t < k + db {
                product_term(q, b, t, k)
            } else {
                0
            };
        let here = |k: int| if k == i && i <= t && t < i + db { product_term(q, b, t, i) } else { 0 };
        assert forall|k: int| #[trigger] cur(k) == next(k) + here(k) by {}
        lemma_isum_add(next, here, q.len() as int);
        lemma_isum_ext(cur, |k: int| next(k) + here(k), q.len() as int);
        lemma_isum_single(here, i, q.len() as int);
        let prev = division_remainder(a, b, db, binv, len, i + 1, t);
        let tn = taken_off(q, b, db, t, i + 1);
        if i <= t < i + db {
            let qi = BaseElement::spec_mul(division_remainder(a, b, db, binv, len, i + 1, i + db), binv);
            assert(q[i] == qi);
            let prod = BaseElement::spec_mul(b[t - i], qi);
            assert(prod@ == ((b[t - i]@ * qi@) as int) % m);
            // (prev - prod) mod m, with prev = (a[t] - tn) mod m
            assert(division_remainder(a, b, db, binv, len, i, t)@ == (prev@ - prod@) % m);
            vstd::arithmetic::div_mod::lemma_sub_mod_noop(a[t]@ - tn, (b[t - i]@ * qi@) as int, m);
            assert(b[t - i]@ * qi@ == q[i]@ * b[t - i]@) by (nonlinear_arith)
                requires
                    q[i] == qi,
            ;
            assert((a[t]@ - tn) - q[i]@ * b[t - i]@ == a[t]@ - (tn + product_term(q, b, t, i)));
        }
    }
}

proof fn lemma_isum_zero_below(f: spec_fn(int) -> int, k: int)
    requires
        forall|i: int| 0 <= i < k ==> #[trigger] f(i) == 0,
    ensures
        isum(f, k) == 0,
    decreases k,
{
    if k > 0 {
        lemma_isum_zero_below(f, k - 1);
    }
}

/// Long division is exact from the top down: with `q` the quotient of `a` by `b`, the
/// product `q * b` agrees with `a` at every position from `deg(b)` to `deg(a)`, so `a - q * b`
/// has degree below `deg(b)`. It rests on Fermat's theorem for the modulus, which makes the
/// inverse of `b`'s leading coefficient a true inverse.
pub proof fn lemma_division_quotient(a: Seq<BaseElement>, b: Seq<BaseElement>, t: int)
    requires
        fermat(),
        a.len() > 0,
        b.len() > 0,
        degree_spec(b) <= degree_spec(a),
        b[degree_spec(b) as int]@ != 0,
        degree_spec(b) <= t <= degree_spec(a),
    ensures
        conv_sum(quotient_spec(a, b), b, t, quotient_spec(a, b).len() as int)@ == a[t]@,
{
    let m = p() as int;
    let db = degree_spec(b) as int;
    let da = degree_spec(a) as int;
    let len = da - db + 1;
    let binv = BaseElement::spec_inv(b[db]);
    let q = quotient_spec(a, b);
    let it = t - db;
    crate::polynom::lemma_degree_bound(a);
    crate::polynom::lemma_degree_bound(b);
    lemma_remainder_residue(a, b, it + 1, t);
    let rem = division_remainder(a, b, db, binv, len, it + 1, t);
    let tk = taken_off(q, b, db, t, it + 1);
    assert(rem@ == (a[t]@ - tk) % m);
    // q[it] * b[db] = rem
    assert(q[it] == BaseElement::spec_mul(rem, binv));
    let bl = b[db]@ as int;
    let r = rem@ as int;
    let bi = binv@ as int;
    let qv = q[it]@ as int;
    let e = pow(bl, (MODULUS - 2) as nat);
    lemma_inverse(bl);
    assert(bi == e % m);
    assert(qv == (r * bi) % m);
    lemma_cong_mul(qv, r * bi, bl, bl);
    assert((r * bi) * bl == r * (bi * bl)) by (nonlinear_arith);
    lemma_cong_mul(bi, e, bl, bl);
    assert(e * bl == bl * e) by (nonlinear_arith);
    lemma_cong_mul(r, r, bi * bl, 1);
    assert((qv * bl) % m == r % m);
    lemma_small_mod(rem@, p());
    // the product's coefficient: what was taken off, plus q[it] * b[db]
    let pt = |k: int| product_term(q, b, t, k);
    let next = |k: int|
        if it + 1 <= k && k <= t && t < k + db {
            product_term(q, b, t, k)
        } else {
            0
        };
    let here = |k: int| if k == it { product_term(q, b, t, it) } else { 0 };
    assert forall|k: int| 0 <= k < q.len() implies #[trigger] pt(k) == next(k) + here(k) by {
        if k < it && t - k < b.len() {
            lemma_above_degree(b, t - k);
            assert(b[t - k]@ == 0);
        }
    }
    lemma_isum_ext(pt, |k: int| next(k) + here(k), q.len() as int);
    lemma_isum_add(next, here, q.len() as int);
    lemma_isum_single(here, it, q.len() as int);
    lemma_conv_residue(q, b, t, q.len() as int);
    assert(product_term(q, b, t, it) == qv * bl);
    // (tk + q[it] b[db]) = tk + rem = tk + (a[t] - tk) = a[t]  (mod m)
    lemma_add_mod_noop(tk, qv * bl, m);
    lemma_add_mod_noop(tk, r, m);
    lemma_add_mod_noop(tk, a[t]@ - tk, m);
    lemma_small_mod(a[t]@, p());
}

} // verus!
