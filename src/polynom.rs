//! Polynomials as coefficient vectors, lowest degree first: evaluation, coefficient-wise
//! arithmetic, and interpolation over a subgroup of roots of unity.
use crate::field::{elem, lemma_elem_eq, p, BaseElement, FieldElement, MODULUS, TWO_ADICITY};
use vstd::arithmetic::power::pow;
use vstd::prelude::*;

verus! {

broadcast use crate::field::group_field;

/// Value at `x` of the polynomial with coefficients `c`, by Horner's rule:
/// `c[0] + x * (c[1] + x * (...))`.
pub open spec fn eval_spec<E: FieldElement>(c: Seq<BaseElement>, x: E) -> E
    decreases c.len(),
{
    if c.len() == 0 {
        E::spec_zero()
    } else {
        E::spec_add(E::spec_mul(eval_spec(c.drop_first(), x), x), E::spec_lift(c[0]))
    }
}

/// The `i`-th coefficient of `c`, zero past its end.
pub open spec fn coeff<E: FieldElement>(c: Seq<E>, i: int) -> E {
    if 0 <= i < c.len() {
        c[i]
    } else {
        E::spec_zero()
    }
}

/// Degree of `c`: the index of its last non-zero coefficient, or 0 when there is none.
pub open spec fn degree_spec(c: Seq<BaseElement>) -> nat
    decreases c.len(),
{
    if c.len() == 0 {
        0
    } else if c.last() != elem(0) {
        (c.len() - 1) as nat
    } else {
        degree_spec(c.drop_last())
    }
}

/// The sum of `a[i] * b[k - i]` over the indices `i < n` for which both factors exist,
/// accumulated in increasing order of `i`.
pub open spec fn conv_sum<E: FieldElement>(a: Seq<E>, b: Seq<E>, k: int, n: int) -> E
    decreases n,
{
    if n <= 0 {
        E::spec_zero()
    } else if 0 <= k - (n - 1) < b.len() && n - 1 < a.len() {
        E::spec_add(conv_sum(a, b, k, n - 1), E::spec_mul(a[n - 1], b[k - (n - 1)]))
    } else {
        conv_sum(a, b, k, n - 1)
    }
}

/// A root of unity of order `n` (a power of two): `GENERATOR^((MODULUS - 1) / n)`.
pub open spec fn root_of_order(n: nat) -> BaseElement {
    elem(pow(7, ((MODULUS - 1) as nat / n) as nat))
}

/// The inverse twiddles for interpolation over `n` points: the powers
/// `w^0, w^1, ..., w^(n-1)` of the inverse `w` of the root of unity of order `n`.
pub open spec fn inv_twiddles_spec(n: nat) -> Seq<BaseElement> {
    Seq::new(n, |i: int| elem(pow(BaseElement::spec_inv(root_of_order(n))@ as int, i as nat)))
}

/// The sum of `v[i] * t[(i * j) mod n]` over `i < m`, accumulated in increasing order of `i`.
pub open spec fn idft_sum(v: Seq<BaseElement>, t: Seq<BaseElement>, j: int, m: int) -> BaseElement
    decreases m,
{
    if m <= 0 {
        elem(0)
    } else {
        BaseElement::spec_add(
            idft_sum(v, t, j, m - 1),
            BaseElement::spec_mul(v[m - 1], t[((m - 1) * j) % (v.len() as int)]),
        )
    }
}

/// The coefficients of the polynomial of degree below `v.len()` that takes value `v[i]` at
/// the `i`-th power of the root of unity, given the inverse twiddles `t`: the inverse discrete
/// Fourier transform of `v`, scaled by the inverse of `v.len()`.
pub open spec fn interpolate_spec(v: Seq<BaseElement>, t: Seq<BaseElement>) -> Seq<BaseElement> {
    Seq::new(
        v.len(),
        |j: int|
            BaseElement::spec_mul(
                idft_sum(v, t, j, v.len() as int),
                BaseElement::spec_inv(elem(v.len() as int)),
            ),
    )
}

/// Whether `n` is a power of two.
pub open spec fn is_pow2(n: nat) -> bool
    decreases n,
{
    if n == 1 {
        true
    } else if n < 2 || n % 2 == 1 {
        false
    } else {
        is_pow2(n / 2)
    }
}

/// Tells whether `n` is a power of two.
pub fn is_power_of_two(n: usize) -> (r: bool)
    ensures
        r == is_pow2(n as nat),
{
    let mut m: usize = n;
    while m >= 2 && m % 2 == 0
        invariant
            is_pow2(n as nat) == is_pow2(m as nat),
        decreases m,
    {
        m = m / 2;
    }
    m == 1
}

/// Evaluates the polynomial with coefficients `p` at `x`.
pub fn eval<E: FieldElement>(p: &[BaseElement], x: E) -> (r: E)
    ensures
        r == eval_spec(p@, x),
{
    let mut acc = E::zero();
    let mut i: usize = p.len();
    proof {
        assert(p@.subrange(i as int, p@.len() as int) =~= Seq::<BaseElement>::empty());
    }
    while i > 0
        invariant
            i <= p@.len(),
            acc == eval_spec(p@.subrange(i as int, p@.len() as int), x),
        decreases i,
    {
        proof {
            let s = p@.subrange(i - 1, p@.len() as int);
            assert(s.drop_first() =~= p@.subrange(i as int, p@.len() as int));
        }
        acc = acc.mul(x).add(E::lift(p[i - 1]));
        i = i - 1;
    }
    proof {
        assert(p@.subrange(0, p@.len() as int) =~= p@);
    }
    acc
}

/// Returns the degree of `p`: the index of its last non-zero coefficient, or 0.
pub fn degree_of(p: &[BaseElement]) -> (r: usize)
    ensures
        r == degree_spec(p@),
{
    let mut i: usize = p.len();
    let zero = BaseElement::zero();
    proof {
        assert(p@.subrange(0, i as int) =~= p@);
    }
    while i > 0
        invariant
            i <= p@.len(),
            zero == elem(0),
            degree_spec(p@) == degree_spec(p@.subrange(0, i as int)),
        decreases i,
    {
        let ghost s = p@.subrange(0, i as int);
        if p[i - 1] != zero {
            return i - 1;
        }
        proof {
            assert(s.drop_last() =~= p@.subrange(0, i - 1));
        }
        i = i - 1;
    }
    0
}

/// Adds two polynomials coefficient by coefficient.
pub fn add<E: FieldElement>(a: &[E], b: &[E]) -> (r: Vec<E>)
    ensures
        r@.len() == if a@.len() >= b@.len() { a@.len() } else { b@.len() },
        forall|i: int| 0 <= i < r@.len() ==> r@[i] == E::spec_add(coeff(a@, i), coeff(b@, i)),
{
    let n = if a.len() >= b.len() { a.len() } else { b.len() };
    let mut r: Vec<E> = Vec::new();
    let mut i: usize = 0;
    while i < n
        invariant
            i <= n,
            n == if a@.len() >= b@.len() { a@.len() } else { b@.len() },
            r@.len() == i,
            forall|k: int| 0 <= k < i ==> r@[k] == E::spec_add(coeff(a@, k), coeff(b@, k)),
        decreases n - i,
    {
        let c1 = if i < a.len() { a[i] } else { E::zero() };
        let c2 = if i < b.len() { b[i] } else { E::zero() };
        r.push(c1.add(c2));
        i = i + 1;
    }
    r
}

/// Subtracts `b` from `a` coefficient by coefficient.
pub fn sub<E: FieldElement>(a: &[E], b: &[E]) -> (r: Vec<E>)
    ensures
        r@.len() == if a@.len() >= b@.len() { a@.len() } else { b@.len() },
        forall|i: int| 0 <= i < r@.len() ==> r@[i] == E::spec_sub(coeff(a@, i), coeff(b@, i)),
{
    let n = if a.len() >= b.len() { a.len() } else { b.len() };
    let mut r: Vec<E> = Vec::new();
    let mut i: usize = 0;
    while i < n
        invariant
            i <= n,
            n == if a@.len() >= b@.len() { a@.len() } else { b@.len() },
            r@.len() == i,
            forall|k: int| 0 <= k < i ==> r@[k] == E::spec_sub(coeff(a@, k), coeff(b@, k)),
        decreases n - i,
    {
        let c1 = if i < a.len() { a[i] } else { E::zero() };
        let c2 = if i < b.len() { b[i] } else { E::zero() };
        r.push(c1.sub(c2));
        i = i + 1;
    }
    r
}

/// Multiplies every coefficient of `p` by `k`.
pub fn mul_by_const<E: FieldElement>(p: &[E], k: E) -> (r: Vec<E>)
    ensures
        r@.len() == p@.len(),
        forall|i: int| 0 <= i < r@.len() ==> r@[i] == E::spec_mul(p@[i], k),
{
    let mut r: Vec<E> = Vec::new();
    let mut i: usize = 0;
    while i < p.len()
        invariant
            i <= p@.len(),
            r@.len() == i,
            forall|j: int| 0 <= j < i ==> r@[j] == E::spec_mul(p@[j], k),
        decreases p@.len() - i,
    {
        r.push(p[i].mul(k));
        i = i + 1;
    }
    r
}

/// Multiplies two non-empty polynomials: coefficient `k` of the product is the sum of
/// `a[i] * b[j]` over `i + j == k`.
pub fn mul<E: FieldElement>(a: &[E], b: &[E]) -> (r: Vec<E>)
    requires
        a@.len() > 0,
        b@.len() > 0,
        a@.len() + b@.len() <= usize::MAX,
    ensures
        r@.len() == a@.len() + b@.len() - 1,
        forall|k: int| 0 <= k < r@.len() ==> r@[k] == conv_sum(a@, b@, k, a@.len() as int),
{
    let n = a.len() + b.len() - 1;
    let mut r: Vec<E> = Vec::new();
    let mut k: usize = 0;
    while k < n
        invariant
            k <= n,
            n == a@.len() + b@.len() - 1,
            r@.len() == k,
            forall|t: int| 0 <= t < k ==> r@[t] == E::spec_zero(),
        decreases n - k,
    {
        r.push(E::zero());
        k = k + 1;
    }
    let mut i: usize = 0;
    while i < a.len()
        invariant
            i <= a@.len(),
            n == a@.len() + b@.len() - 1,
            r@.len() == n,
            a@.len() + b@.len() <= usize::MAX,
            forall|t: int| 0 <= t < n ==> r@[t] == conv_sum(a@, b@, t, i as int),
        decreases a@.len() - i,
    {
        let mut j: usize = 0;
        while j < b.len()
            invariant
                i < a@.len(),
                j <= b@.len(),
                n == a@.len() + b@.len() - 1,
                r@.len() == n,
                a@.len() + b@.len() <= usize::MAX,
                forall|t: int|
                    0 <= t < n ==> r@[t] == if i <= t < i + j {
                        conv_sum(a@, b@, t, i + 1)
                    } else {
                        conv_sum(a@, b@, t, i as int)
                    },
            decreases b@.len() - j,
        {
            let v = r[i + j].add(a[i].mul(b[j]));
            r.set(i + j, v);
            j = j + 1;
        }
        proof {
            assert forall|t: int| 0 <= t < n implies r@[t] == conv_sum(a@, b@, t, i + 1) by {
                if !(i <= t < i + b@.len()) {
                    assert(conv_sum(a@, b@, t, i + 1) == conv_sum(a@, b@, t, i as int));
                }
            }
        }
        i = i + 1;
    }
    r
}

/// Long division of `a` by `b`, whose degree is `db` and whose leading coefficient has
/// inverse `binv`, with a quotient of `len` coefficients: the value at position `t` of the
/// running remainder once quotient coefficients `len - 1` down to `i` are taken off. Each
/// coefficient `i` is the remainder at `i + db` times `binv`, and taking it off subtracts
/// `b[t - i]` times it at positions `i <= t < i + db`.
pub open spec fn division_remainder(
    a: Seq<BaseElement>,
    b: Seq<BaseElement>,
    db: int,
    binv: BaseElement,
    len: int,
    i: int,
    t: int,
) -> BaseElement
    decreases len - i,
{
    if i >= len {
        a[t]
    } else {
        let prev = division_remainder(a, b, db, binv, len, i + 1, t);
        if i <= t < i + db {
            let q = BaseElement::spec_mul(division_remainder(a, b, db, binv, len, i + 1, i + db), binv);
            BaseElement::spec_sub(prev, BaseElement::spec_mul(b[t - i], q))
        } else {
            prev
        }
    }
}

/// The quotient of the long division of `a` by `b`: `deg(a) - deg(b) + 1` coefficients,
/// found from the top down, each the running remainder at the matching position times the
/// inverse of `b`'s leading coefficient.
pub open spec fn quotient_spec(a: Seq<BaseElement>, b: Seq<BaseElement>) -> Seq<BaseElement> {
    let db = degree_spec(b) as int;
    let len = degree_spec(a) - db + 1;
    let binv = BaseElement::spec_inv(b[db]);
    Seq::new(
        len as nat,
        |i: int| BaseElement::spec_mul(division_remainder(a, b, db, binv, len, i + 1, i + db), binv),
    )
}

pub proof fn lemma_degree_bound(c: Seq<BaseElement>)
    ensures
        c.len() > 0 ==> degree_spec(c) < c.len(),
    decreases c.len(),
{
    if c.len() > 0 && c.last() == elem(0) {
        lemma_degree_bound(c.drop_last());
        if c.len() == 1 {
            assert(degree_spec(c.drop_last()) == 0);
        }
    }
}

/// Divides `a` by `b` (of no larger degree and not zero), dropping the remainder; the
/// quotient times `b` agrees with `a` from the degree of `b` up (see
/// `algebra::lemma_division_quotient`).
pub fn div(a: &[BaseElement], b: &[BaseElement]) -> (r: Vec<BaseElement>)
    requires
        a@.len() > 0,
        b@.len() > 0,
        degree_spec(b@) <= degree_spec(a@),
        b@[degree_spec(b@) as int] != elem(0),
    ensures
        r@ == quotient_spec(a@, b@),
{
    let da = degree_of(a);
    let db = degree_of(b);
    proof {
        lemma_degree_bound(a@);
        lemma_degree_bound(b@);
    }
    let binv = b[db].inv();
    let a_len = a.len();
    proof {
        assert(da < a_len);
    }
    let len = (da - db) + 1;
    let ghost la = len as int;
    let mut w: Vec<BaseElement> = Vec::new();
    let mut k: usize = 0;
    while k < a.len()
        invariant
            k <= a@.len(),
            w@ == a@.subrange(0, k as int),
        decreases a@.len() - k,
    {
        w.push(a[k]);
        proof {
            assert(w@ =~= a@.subrange(0, k + 1));
        }
        k = k + 1;
    }
    let mut result: Vec<BaseElement> = Vec::new();
    let mut k: usize = 0;
    while k < len
        invariant
            k <= len,
            result@.len() == k,
        decreases len - k,
    {
        result.push(BaseElement::zero());
        k = k + 1;
    }
    let mut i: usize = len;
    proof {
        assert(w@ =~= a@.subrange(0, a@.len() as int));
        assert forall|t: int| 0 <= t < w@.len() implies w@[t] == division_remainder(
            a@,
            b@,
            db as int,
            binv,
            la,
            la,
            t,
        ) by {}
    }
    while i > 0
        invariant
            i <= len,
            len == da - db + 1,
            la == len,
            da == degree_spec(a@),
            db == degree_spec(b@),
            da < a@.len(),
            db < b@.len(),
            db <= da,
            binv == BaseElement::spec_inv(b@[db as int]),
            w@.len() == a@.len(),
            result@.len() == len,
            forall|t: int|
                0 <= t < w@.len() ==> #[trigger] w@[t] == division_remainder(
                    a@,
                    b@,
                    db as int,
                    binv,
                    la,
                    i as int,
                    t,
                ),
            forall|k: int|
                i <= k < len ==> #[trigger] result@[k] == quotient_spec(a@, b@)[k],
        decreases i,
    {
        i = i - 1;
        let quot = w[i + db].mul(binv);
        proof {
            assert(w@[i + db] == division_remainder(a@, b@, db as int, binv, la, i + 1, i + db));
            assert(quot == quotient_spec(a@, b@)[i as int]);
        }
        result.set(i, quot);
        let mut j: usize = db;
        while j > 0
            invariant
                j <= db,
                i < len,
                len == da - db + 1,
                la == len,
                da < a@.len(),
                db < b@.len(),
                w@.len() == a@.len(),
                binv == BaseElement::spec_inv(b@[db as int]),
                quot == BaseElement::spec_mul(
                    division_remainder(a@, b@, db as int, binv, la, i + 1, i + db),
                    binv,
                ),
                forall|t: int|
                    0 <= t < w@.len() ==> #[trigger] w@[t] == if i + j <= t < i + db {
                        division_remainder(a@, b@, db as int, binv, la, i as int, t)
                    } else {
                        division_remainder(a@, b@, db as int, binv, la, i + 1, t)
                    },
            decreases j,
        {
            j = j - 1;
            let nv = w[i + j].sub(b[j].mul(quot));
            w.set(i + j, nv);
        }
        proof {
            assert forall|t: int| 0 <= t < w@.len() implies #[trigger] w@[t] == division_remainder(
                a@,
                b@,
                db as int,
                binv,
                la,
                i as int,
                t,
            ) by {}
        }
    }
    proof {
        assert(result@ =~= quotient_spec(a@, b@));
    }
    result
}

/// Builds the inverse twiddles for interpolation over `n` points (see `inv_twiddles_spec`).
pub fn get_inv_twiddles(n: usize) -> (r: Vec<BaseElement>)
    requires
        is_pow2(n as nat),
        n <= 0x1_0000_0000,
    ensures
        r@ == inv_twiddles_spec(n as nat),
{
    let log_n = log2(n);
    let w = BaseElement::get_root_of_unity(log_n).inv();
    let mut r: Vec<BaseElement> = Vec::new();
    let mut cur = BaseElement::one();
    let mut i: usize = 0;
    proof {
        lemma_pow2_log2(n as nat, log_n as nat);
        assert(w == BaseElement::spec_inv(root_of_order(n as nat)));
        vstd::arithmetic::power::lemma_pow0(w@ as int);
    }
    while i < n
        invariant
            i <= n,
            r@.len() == i,
            w == BaseElement::spec_inv(root_of_order(n as nat)),
            cur == elem(pow(w@ as int, i as nat)),
            forall|k: int| 0 <= k < i ==> r@[k] == inv_twiddles_spec(n as nat)[k],
        decreases n - i,
    {
        r.push(cur);
        proof {
            vstd::arithmetic::power::lemma_pow_adds(w@ as int, i as nat, 1);
            vstd::arithmetic::power::lemma_pow1(w@ as int);
            vstd::arithmetic::div_mod::lemma_mul_mod_noop_left(
                pow(w@ as int, i as nat),
                w@ as int,
                p() as int,
            );
            lemma_elem_eq((cur@ * w@) as int, pow(w@ as int, (i + 1) as nat));
        }
        cur = cur.mul(w);
        i = i + 1;
    }
    proof {
        assert(r@ =~= inv_twiddles_spec(n as nat));
    }
    r
}

/// Interpolates the values `v` into the coefficients of a polynomial of degree below
/// `v.len()`, given the inverse twiddles for `v.len()` points.
pub fn interpolate_poly(v: &[BaseElement], twiddles: &[BaseElement]) -> (r: Vec<BaseElement>)
    requires
        twiddles@.len() == v@.len(),
        v@.len() <= 0x1_0000_0000,
    ensures
        r@ == interpolate_spec(v@, twiddles@),
{
    let n = v.len();
    let n_inv = BaseElement::new(n as u64).inv();
    let mut r: Vec<BaseElement> = Vec::new();
    let mut j: usize = 0;
    while j < n
        invariant
            n == v@.len(),
            j <= n,
            n <= 0x1_0000_0000,
            twiddles@.len() == n,
            n_inv == BaseElement::spec_inv(elem(n as int)),
            r@.len() == j,
            forall|k: int| 0 <= k < j ==> r@[k] == interpolate_spec(v@, twiddles@)[k],
        decreases n - j,
    {
        let mut acc = BaseElement::zero();
        let mut i: usize = 0;
        while i < n
            invariant
                n == v@.len(),
                i <= n,
                j < n,
                n <= 0x1_0000_0000,
                twiddles@.len() == n,
                acc == idft_sum(v@, twiddles@, j as int, i as int),
            decreases n - i,
        {
            proof {
                lemma_product_fits_u32(i as nat, j as nat);
            }
            let idx = ((i as u64) * (j as u64)) % (n as u64);
            acc = acc.add(v[i].mul(twiddles[idx as usize]));
            i = i + 1;
        }
        r.push(acc.mul(n_inv));
        j = j + 1;
    }
    proof {
        assert(r@ =~= interpolate_spec(v@, twiddles@));
    }
    r
}

/// Base-2 logarithm of a power of two.
pub fn log2(n: usize) -> (r: u32)
    requires
        is_pow2(n as nat),
        n <= 0x1_0000_0000,
    ensures
        vstd::arithmetic::power2::pow2(r as nat) == n,
        r <= TWO_ADICITY,
{
    let mut m: usize = n;
    let mut k: u32 = 0;
    proof {
        vstd::arithmetic::power2::lemma2_to64();
    }
    while m > 1
        invariant
            is_pow2(m as nat),
            m as nat * vstd::arithmetic::power2::pow2(k as nat) == n,
            n <= 0x1_0000_0000,
            k <= 32,
            m >= 1,
        decreases m,
    {
        proof {
            let pk = vstd::arithmetic::power2::pow2(k as nat);
            vstd::arithmetic::power2::lemma_pow2_unfold((k + 1) as nat);
            vstd::arithmetic::power2::lemma2_to64();
            assert(m % 2 == 0);
            assert((m / 2) as nat * (2 * pk) == m as nat * pk) by (nonlinear_arith)
                requires
                    m % 2 == 0,
            ;
            assert(2 * pk <= m as nat * pk) by (nonlinear_arith)
                requires
                    m >= 2,
                    pk >= 0,
            ;
            if k + 1 > 32 {
                vstd::arithmetic::power2::lemma_pow2_strictly_increases(32, (k + 1) as nat);
            }
        }
        m = m / 2;
        k = k + 1;
    }
    k
}

proof fn lemma_product_fits_u32(i: nat, j: nat)
    requires
        i < 0x1_0000_0000,
        j < 0x1_0000_0000,
    ensures
        i * j < 0x1_0000_0000_0000_0000,
{
    assert(i * j <= i * 0xffff_ffff) by (nonlinear_arith)
        requires
            j <= 0xffff_ffff,
    ;
    assert(i * 0xffff_ffff <= 0xffff_ffff * 0xffff_ffff) by (nonlinear_arith)
        requires
            i <= 0xffff_ffff,
    ;
}

proof fn lemma_pow2_log2(n: nat, k: nat)
    requires
        vstd::arithmetic::power2::pow2(k) == n,
        n > 0,
    ensures
        root_of_order(n) == elem(
            pow(7, ((MODULUS - 1) as nat / vstd::arithmetic::power2::pow2(k)) as nat),
        ),
{
}

} // verus!
