use aegle::arith::{egcd, is_prime};
use aegle::finite_field::{FieldElement, GF};
use aegle::polynomial::{is_irreducible, poly_gcd, PolyAdd, PolyMul, Polynomial};
use aegle::utils::{find_irreducible, prime_factorization, IterPoly};

fn poly(p: u32, pairs: &[(u32, u32)]) -> Polynomial {
    Polynomial::new(p, pairs.to_vec())
}

#[test]
fn primes() {
    let primes: Vec<_> = (1u32..101).filter(|&x| is_prime(x)).collect();
    assert_eq!(
        primes,
        [
            2, 3, 5, 7, 11, 13, 17, 19, 23, 29, 31, 37, 41, 43, 47, 53, 59, 61, 67, 71, 73, 79,
            83, 89, 97
        ]
    );
}

#[test]
fn gf_elems() {
    let gf = GF::from_poly(poly(2, &[(0, 1), (1, 1), (2, 1)])).unwrap();
    let mut it = gf.iter_primitive();
    let mut primitive_elems: Vec<FieldElement> = Vec::new();
    while let Some(e) = it.next() {
        primitive_elems.push(e);
    }
    assert_eq!(primitive_elems, [gf.element(2), gf.element(3)])
}

#[test]
fn irreducibiliy_test() {
    assert!(is_irreducible(&poly(2, &[(0, 1), (1, 1), (2, 1)])));
    assert!(!is_irreducible(&poly(2, &[(0, 0), (1, 1), (2, 1)])));
    assert!(!is_irreducible(&poly(2, &[(0, 1), (1, 0), (2, 1)])));
    assert!(!is_irreducible(&poly(2, &[(0, 0), (1, 0), (2, 1)])));
    assert!(!is_irreducible(&poly(2, &[(0, 1)])));
    assert!(!is_irreducible(&poly(3, &[(0, 2)])));
    assert!(is_irreducible(&poly(3, &[(1, 1)])));
}

#[test]
fn poly_string() {
    let p1 = poly(7, &[(0, 2), (1, 1), (2, 5), (4, 1)]);
    assert_eq!(p1.to_string(), "2 + x + 5x^2 + x^4");
    let p2 = poly(7, &[(0, 2), (1, 3), (2, 5), (4, 1)]);
    assert_eq!(p2.to_string(), "2 + 3x + 5x^2 + x^4");
}

#[test]
fn egcd_test() {
    for _ in 0..100000 {
        let (a, b): (u32, u32) = rand::random();
        let (s, t, r) = egcd(a, b);
        assert_eq!(i64::from(a) * s + i64::from(b) * t, r);
    }
}

#[test]
fn divmod_test() {
    let base_prime = 5;
    let p1 = poly(base_prime, &[(0, 2), (1, 1), (2, 2), (4, 1)]);
    let p2 = poly(base_prime, &[(0, 1), (1, 4), (2, 3)]);
    let (q, r) = p1.divmod(&p2).unwrap();
    assert_eq!(q.mul(&p2).add(&r), Some(p1))
}

#[test]
fn pow_test() {
    let base_prime = 5;
    let p1 = poly(base_prime, &[(0, 2), (1, 1), (2, 2), (4, 1)]);
    let pow = p1.pow(5);
    let mul = p1.mul(&p1).mul(&p1).mul(&p1).mul(&p1);
    assert_eq!(Some(pow), mul);
}

#[test]
fn poly_gcd_test() {
    for _ in 0..1000 {
        let coeffs1: [u32; 5] = rand::random();
        let p1 = Polynomial::from_coeffs(7, coeffs1.iter().map(|x| x % 7).collect());
        if p1.is_zero() {
            continue;
        }
        let coeffs2: [u32; 5] = rand::random();
        let p2 = Polynomial::from_coeffs(7, coeffs2.iter().map(|x| x % 7).collect());
        if p2.is_zero() {
            continue;
        }
        let p = poly_gcd(&p2, &p1);
        let (_, r1) = p1.divmod(&p).unwrap();
        assert!(r1.is_zero());
        let (_, r2) = p2.divmod(&p).unwrap();
        assert!(r2.is_zero());
    }
}

#[test]
fn test_iterpoly() {
    let mut it = IterPoly::new(3, 5);
    let mut count = 0usize;
    while it.next().is_some() {
        count += 1;
    }
    assert_eq!(count, 3usize.pow(5));
    let mut irr = find_irreducible(3, 3);
    let mut count = 0usize;
    while irr.next().is_some() {
        count += 1;
    }
    assert_eq!(count, 8);
}

#[test]
fn factor_test() {
    assert_eq!(prime_factorization(133980), vec![2, 3, 5, 7, 11, 29]);
}
