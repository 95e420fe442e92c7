use aegle::finite_field::{FieldError, GF};
use aegle::polynomial::Polynomial;

#[test]
fn gf4_arithmetic() {
    let field = GF::with_size(2, 2).unwrap();
    assert_eq!(field.field_size(), 4);
    assert_eq!(field.element(2).add(&field.element(1)), field.element(3));
    assert_eq!(field.element(1).add(&field.element(1)), field.element(0));
    assert_eq!(field.element(0).mul(&field.element(3)), field.element(0));
    assert_eq!(field.element(1).mul(&field.element(3)), field.element(3));
    assert_eq!(field.element(2).mul(&field.element(3)), field.element(1));
    assert_eq!(field.element(3).sub(&field.element(1)), field.element(2));
}

#[test]
fn element_index_round_trip() {
    let field = GF::with_size(3, 2).unwrap();
    for k in 0..20u32 {
        let e = field.element(k);
        assert_eq!(e.as_int(), k % 9);
        assert_eq!(field.element(e.as_int()), e);
    }
}

#[test]
fn add_assign_matches_add() {
    let field = GF::with_size(5, 2).unwrap();
    let mut a = field.element(7);
    let b = field.element(13);
    let sum = a.add(&b);
    a.add_assign(&b);
    assert_eq!(a, sum);
}

#[test]
fn one_and_zero() {
    let field = GF::with_size(2, 3).unwrap();
    assert_eq!(field.one(), field.element(1));
    assert_eq!(field.zero(), field.element(0));
    assert!(!field.zero().is_primitive());
}

#[test]
fn pow_is_repeated_multiplication() {
    let field = GF::with_size(3, 2).unwrap();
    let a = field.element(5);
    let mut acc = a.clone();
    for n in 1..10u32 {
        assert_eq!(a.pow(n), acc);
        acc = acc.mul(&a);
    }
}

#[test]
fn primitive_count_gf9() {
    // GF(9) has phi(8) = 4 primitive elements.
    let field = GF::with_size(3, 2).unwrap();
    let mut it = field.iter_primitive();
    let mut count = 0;
    while let Some(e) = it.next() {
        assert!(e.is_primitive());
        count += 1;
    }
    assert_eq!(count, 4);
}

#[test]
fn from_poly_errors() {
    let not_prime = Polynomial::new(4, vec![(0, 1), (2, 1)]);
    assert!(matches!(GF::from_poly(not_prime), Err(FieldError::NotPrime(4))));
    let reducible = Polynomial::new(2, vec![(0, 1), (2, 1)]);
    assert!(matches!(
        GF::from_poly(reducible),
        Err(FieldError::ReduciblePolynomial(_))
    ));
    // A constant is a unit, not an irreducible polynomial.
    let constant = Polynomial::new(2, vec![(0, 1)]);
    assert!(matches!(GF::from_poly(constant), Err(FieldError::ReduciblePolynomial(_))));
}

#[test]
fn with_size_uses_first_irreducible() {
    // The monic quadratics over Z_2 in order are x^2, x^2 + 1, x^2 + x, x^2 + x + 1.
    let field = GF::with_size(2, 2).unwrap();
    let expected = GF::from_poly(Polynomial::new(2, vec![(0, 1), (1, 1), (2, 1)])).unwrap();
    assert_eq!(field, expected);
}
