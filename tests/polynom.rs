use stark_air::field::{BaseElement, FieldElement};
use stark_air::polynom;

fn el(v: u128) -> BaseElement {
    BaseElement::from_u128(v)
}

#[test]
fn eval() {
    let x = el(11269864713250585702u128);
    let poly: [BaseElement; 4] = [
        el(384863712573444386u128),
        el(7682273369345308472u128),
        el(13294661765012277990u128),
        el(16234810094004944758u128),
    ];

    assert_eq!(BaseElement::zero(), polynom::eval(&poly[..0], x));

    // constant
    assert_eq!(poly[0], polynom::eval(&poly[..1], x));

    // degree 1
    assert_eq!(poly[0].add(poly[1].mul(x)), polynom::eval(&poly[..2], x));

    // degree 2
    let x2 = x.exp(2);
    assert_eq!(
        poly[0].add(poly[1].mul(x)).add(poly[2].mul(x2)),
        polynom::eval(&poly[..3], x)
    );

    // degree 3
    let x3 = x.exp(3);
    assert_eq!(
        poly[0]
            .add(poly[1].mul(x))
            .add(poly[2].mul(x2))
            .add(poly[3].mul(x3)),
        polynom::eval(&poly, x)
    );
}

fn two_polys() -> ([BaseElement; 3], [BaseElement; 3]) {
    (
        [
            el(384863712573444386u128),
            el(7682273369345308472u128),
            el(13294661765012277990u128),
        ],
        [
            el(9918505539874556741u128),
            el(16401861429499852246u128),
            el(12181445947541805654u128),
        ],
    )
}

#[test]
fn add() {
    let (poly1, poly2) = two_polys();

    // same degree
    let pr = vec![
        poly1[0].add(poly2[0]),
        poly1[1].add(poly2[1]),
        poly1[2].add(poly2[2]),
    ];
    assert_eq!(pr, polynom::add(&poly1, &poly2));

    // poly1 is lower degree
    let pr = vec![poly1[0].add(poly2[0]), poly1[1].add(poly2[1]), poly2[2]];
    assert_eq!(pr, polynom::add(&poly1[..2], &poly2));

    // poly2 is lower degree
    let pr = vec![poly1[0].add(poly2[0]), poly1[1].add(poly2[1]), poly1[2]];
    assert_eq!(pr, polynom::add(&poly1, &poly2[..2]));
}

#[test]
fn sub() {
    let (poly1, poly2) = two_polys();

    // same degree
    let pr = vec![
        poly1[0].sub(poly2[0]),
        poly1[1].sub(poly2[1]),
        poly1[2].sub(poly2[2]),
    ];
    assert_eq!(pr, polynom::sub(&poly1, &poly2));

    // poly1 is lower degree
    let pr = vec![
        poly1[0].sub(poly2[0]),
        poly1[1].sub(poly2[1]),
        BaseElement::zero().sub(poly2[2]),
    ];
    assert_eq!(pr, polynom::sub(&poly1[..2], &poly2));

    // poly2 is lower degree
    let pr = vec![poly1[0].sub(poly2[0]), poly1[1].sub(poly2[1]), poly1[2]];
    assert_eq!(pr, polynom::sub(&poly1, &poly2[..2]));
}

#[test]
fn mul() {
    let (poly1, poly2) = two_polys();

    // same degree
    let pr = vec![
        poly1[0].mul(poly2[0]),
        poly1[0].mul(poly2[1]).add(poly2[0].mul(poly1[1])),
        poly1[1]
            .mul(poly2[1])
            .add(poly1[2].mul(poly2[0]))
            .add(poly2[2].mul(poly1[0])),
        poly1[2].mul(poly2[1]).add(poly2[2].mul(poly1[1])),
        poly1[2].mul(poly2[2]),
    ];
    assert_eq!(pr, polynom::mul(&poly1, &poly2));

    // poly1 is lower degree
    let pr = vec![
        poly1[0].mul(poly2[0]),
        poly1[0].mul(poly2[1]).add(poly2[0].mul(poly1[1])),
        poly1[0].mul(poly2[2]).add(poly2[1].mul(poly1[1])),
        poly1[1].mul(poly2[2]),
    ];
    assert_eq!(pr, polynom::mul(&poly1[..2], &poly2));

    // poly2 is lower degree
    let pr = vec![
        poly1[0].mul(poly2[0]),
        poly1[0].mul(poly2[1]).add(poly2[0].mul(poly1[1])),
        poly1[2].mul(poly2[0]).add(poly2[1].mul(poly1[1])),
        poly1[2].mul(poly2[1]),
    ];
    assert_eq!(pr, polynom::mul(&poly1, &poly2[..2]));
}

#[test]
fn mul_by_const() {
    let (poly, _) = two_polys();
    let c = el(11269864713250585702u128);
    let pr = vec![poly[0].mul(c), poly[1].mul(c), poly[2].mul(c)];
    assert_eq!(pr, polynom::mul_by_const(&poly, c));
}

#[test]
fn div() {
    let (poly1, poly2) = two_polys();
    let poly1 = poly1.to_vec();
    let poly2 = poly2.to_vec();

    // divide degree 4 by degree 2
    let poly3 = polynom::mul(&poly1, &poly2);
    assert_eq!(poly1, polynom::div(&poly3, &poly2));

    // divide degree 3 by degree 2
    let poly3 = polynom::mul(&poly1[..2], &poly2);
    assert_eq!(poly1[..2].to_vec(), polynom::div(&poly3, &poly2));

    // divide degree 3 by degree 3
    let poly3 = polynom::mul_by_const(&poly1, el(11269864713250585702u128));
    assert_eq!(
        vec![el(11269864713250585702u128)],
        polynom::div(&poly3, &poly1)
    );
}

#[test]
fn div_by_linear_factor_with_remainder_dropped() {
    // (x^2 + 3x + 5) / (x + 1) = x + 2, remainder 3
    let a = vec![BaseElement::new(5), BaseElement::new(3), BaseElement::one()];
    let b = vec![BaseElement::one(), BaseElement::one()];
    assert_eq!(vec![BaseElement::new(2), BaseElement::one()], polynom::div(&a, &b));
    // leading zero coefficients of the divisor are ignored
    let b = vec![BaseElement::one(), BaseElement::one(), BaseElement::zero()];
    assert_eq!(vec![BaseElement::new(2), BaseElement::one()], polynom::div(&a, &b));
}

#[test]
fn degree_of() {
    let one = BaseElement::one();
    let two = BaseElement::new(2);
    let three = BaseElement::new(3);
    let zero = BaseElement::zero();
    assert_eq!(0, polynom::degree_of(&[]));
    assert_eq!(0, polynom::degree_of(&[one]));
    assert_eq!(1, polynom::degree_of(&[one, two]));
    assert_eq!(1, polynom::degree_of(&[one, two, zero]));
    assert_eq!(2, polynom::degree_of(&[one, two, three]));
    assert_eq!(2, polynom::degree_of(&[one, two, three, zero]));
}

#[test]
fn field_arithmetic_reduces_modulo_the_prime() {
    let p_minus_one = BaseElement::new(18446744069414584320);
    assert_eq!(BaseElement::zero(), p_minus_one.add(BaseElement::one()));
    assert_eq!(p_minus_one, BaseElement::zero().sub(BaseElement::one()));
    assert_eq!(BaseElement::one(), p_minus_one.mul(p_minus_one));
    assert_eq!(BaseElement::new(5), BaseElement::from_u128(18446744069414584326));
    assert_eq!(BaseElement::new(1024), BaseElement::new(2).exp(10));
    let x = BaseElement::new(123456789);
    assert_eq!(BaseElement::one(), x.mul(x.inv()));
}

#[test]
fn root_of_unity_has_its_order() {
    let g = BaseElement::get_root_of_unity(4);
    assert_eq!(BaseElement::one(), g.exp(16));
    assert_ne!(BaseElement::one(), g.exp(8));
}

#[test]
fn interpolation_reproduces_values_at_roots_of_unity() {
    let values = vec![
        BaseElement::new(3),
        BaseElement::new(1),
        BaseElement::new(4),
        BaseElement::new(1),
        BaseElement::new(5),
        BaseElement::new(9),
        BaseElement::new(2),
        BaseElement::new(6),
    ];
    let twiddles = polynom::get_inv_twiddles(values.len());
    assert_eq!(8, twiddles.len());
    let poly = polynom::interpolate_poly(&values, &twiddles);
    assert_eq!(8, poly.len());
    assert_ne!(values, poly);
    let w = BaseElement::get_root_of_unity(3);
    for (i, v) in values.iter().enumerate() {
        assert_eq!(*v, polynom::eval(&poly, w.exp(i as u64)));
    }
}

#[test]
fn interpolation_of_constant_values_is_constant() {
    let values = vec![BaseElement::new(7); 4];
    let poly = polynom::interpolate_poly(&values, &polynom::get_inv_twiddles(4));
    assert_eq!(
        vec![
            BaseElement::new(7),
            BaseElement::zero(),
            BaseElement::zero(),
            BaseElement::zero()
        ],
        poly
    );
}

#[test]
fn power_of_two_and_log2() {
    assert!(polynom::is_power_of_two(1));
    assert!(polynom::is_power_of_two(64));
    assert!(!polynom::is_power_of_two(0));
    assert!(!polynom::is_power_of_two(12));
    assert_eq!(6, polynom::log2(64));
    assert_eq!(0, polynom::log2(1));
}
