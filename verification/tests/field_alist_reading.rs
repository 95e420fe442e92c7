use aegle::field_alist::{read_alist_bytes, read_matrix, ReadError};
use aegle::finite_field::FieldError;
use aegle::polynomial::Polynomial;

fn row_ints(row: &[(usize, aegle::finite_field::FieldElement)]) -> Vec<(usize, u32)> {
    row.iter().map(|(c, e)| (*c, e.as_int())).collect()
}

#[test]
fn reads_gf4_alist() {
    // GF(4) is built on x^2 + x + 1 and its first primitive element is x:
    // x^1 = 2, x^2 = x + 1 = 3, x^3 = 1 as integers.
    let text = b"3 2 4\n2 3\n1 1 1\n2 3\n1\n2\n3\n1 1 2 2\n2 3 3 1\n";
    let (gf, rows) = read_alist_bytes(text).unwrap().unwrap();
    assert_eq!(gf.field_size(), 4);
    assert_eq!(rows.len(), 2);
    assert_eq!(row_ints(&rows[0]), vec![(0, 2), (1, 3)]);
    assert_eq!(row_ints(&rows[1]), vec![(1, 1), (2, 2)]);
}

#[test]
fn later_pair_replaces_earlier_one() {
    let text = b"1 1 4\n2 3\n1\n1\nv\n2 1 1 1 2 2\n";
    let (_, rows) = read_alist_bytes(text).unwrap().unwrap();
    assert_eq!(row_ints(&rows[0]), vec![(0, 2), (1, 3)]);
}

#[test]
fn prime_field_alist() {
    // GF(5) is built on x; its first primitive element is 2: 2^1 = 2, 2^2 = 4, 2^3 = 3.
    let text = b"1 1 5\n1 1\n1\n1\nv\n1 1 2 2 3 3\n";
    let (gf, rows) = read_alist_bytes(text).unwrap().unwrap();
    assert_eq!(gf.field_size(), 5);
    assert_eq!(row_ints(&rows[0]), vec![(0, 2), (1, 4), (2, 3)]);
}

#[test]
fn unicode_whitespace_separates_numbers() {
    let text = "1 1\u{a0}4\n2 3\n1\n1\nv\n1\u{2003}1\n";
    let (gf, rows) = read_alist_bytes(text.as_bytes()).unwrap().unwrap();
    assert_eq!(gf.field_size(), 4);
    assert_eq!(row_ints(&rows[0]), vec![(0, 2)]);
}

#[test]
fn field_alist_errors() {
    assert!(matches!(read_alist_bytes(b""), Some(Err(ReadError::FileTooShort))));
    match read_alist_bytes(b"3 2\n") {
        Some(Err(ReadError::ExpectedTuple(3, line))) => assert_eq!(line, "3 2"),
        _ => panic!("expected a tuple error"),
    }
    match read_alist_bytes(b"3 x 4\n") {
        Some(Err(ReadError::ParseError(word))) => assert_eq!(word, "x"),
        _ => panic!("expected a parse error"),
    }
    assert!(matches!(read_alist_bytes(b"3 -2 4\n"), Some(Err(ReadError::ParseError(_)))));
    assert!(matches!(read_alist_bytes(b"3 2 6\n"), Some(Err(ReadError::BadFieldSize(6)))));
    assert!(matches!(read_alist_bytes(b"3 2 1\n"), Some(Err(ReadError::BadFieldSize(1)))));
    assert!(matches!(read_alist_bytes(b"3 2 4294967295\n"), Some(Err(ReadError::BadFieldSize(4294967295)))));
    assert!(matches!(read_alist_bytes(b"3 2 4294967296\n"), Some(Err(ReadError::ParseError(_)))));
    assert!(matches!(read_alist_bytes(b"1 1 4\n2 3\n1\n1\n\xff\n1 1\n"), Some(Err(ReadError::IOError(_)))));
    assert!(matches!(read_alist_bytes(b"1 1 4\n2\n"), Some(Err(ReadError::ExpectedTuple(2, _)))));
    assert!(matches!(read_alist_bytes(b"1 1 4\n2 3\n1 y\n"), Some(Err(ReadError::ParseError(_)))));
    assert!(matches!(read_alist_bytes(b"1 1 4\n2 3\n1\n1\nv\n"), Some(Err(ReadError::FileTooShort))));
    match read_alist_bytes(b"1 1 4\n2 3\n1\n1\nv\n1 1 2\n") {
        Some(Err(ReadError::ExpectedTuple(2, word))) => assert_eq!(word, "2"),
        _ => panic!("expected a pair error"),
    }
}

#[test]
fn alist_cannot_finish() {
    // A column numbered zero, or an exponent of zero, cannot be read to the end.
    assert!(read_alist_bytes(b"1 1 4\n2 3\n1\n1\nv\n0 1\n").is_none());
    assert!(read_alist_bytes(b"1 1 4\n2 3\n1\n1\nv\n1 0\n").is_none());
    assert!(read_alist_bytes(b"1 1 4\n2 3\n1\n1\nv\n1 4294967296\n").is_none());
}

#[test]
fn reads_matrix_lines() {
    let poly = Polynomial::from_coeffs(2, vec![1, 1, 1]);
    let (gf, rows) = read_matrix(poly, Ok(b"1 -1 2\n-1 3\n\n".as_slice())).unwrap().unwrap();
    assert_eq!(gf.field_size(), 4);
    assert_eq!(rows.len(), 3);
    assert_eq!(row_ints(&rows[0]), vec![(0, 2), (2, 3)]);
    assert_eq!(row_ints(&rows[1]), vec![(1, 1)]);
    assert!(rows[2].is_empty());
}

#[test]
fn matrix_errors() {
    let reducible = Polynomial::from_coeffs(2, vec![1, 0, 1]);
    assert!(matches!(
        read_matrix(reducible, Ok(b"1\n".as_slice())),
        Some(Err(ReadError::FieldError(FieldError::ReduciblePolynomial(_))))
    ));
    let poly = Polynomial::from_coeffs(2, vec![1, 1, 1]);
    assert!(matches!(read_matrix(poly, Err("missing".to_string())), Some(Err(ReadError::IOError(_)))));
    let poly = Polynomial::from_coeffs(2, vec![1, 1, 1]);
    assert!(matches!(read_matrix(poly, Ok(b"1 x\n".as_slice())), Some(Err(ReadError::ParseError(_)))));
    let poly = Polynomial::from_coeffs(2, vec![1, 1, 1]);
    assert!(read_matrix(poly, Ok(b"0\n".as_slice())).is_none());
    // Only ASCII whitespace separates entries here.
    let poly = Polynomial::from_coeffs(2, vec![1, 1, 1]);
    assert!(matches!(
        read_matrix(poly, Ok("1\u{a0}2\n".as_bytes())),
        Some(Err(ReadError::ParseError(_)))
    ));
}

const NB_LDPC_MATRIX: &str = r#"-1 -1 -1 27 -1 -1 1 -1 -1 36 -1 -1 -1 -1 -1 49
    -1 -1 -1 60 45 -1 -1 -1 32 -1 -1 -1 -1 -1 23 -1
    -1 6 -1 -1 -1 21 56 -1 -1 -1 -1 -1 -1 47 -1 -1
    32 -1 -1 -1 -1 -1 -1 23 -1 -1 60 -1 -1 -1 -1 45
    -1 -1 52 -1 -1 -1 -1 -1 61 -1 26 -1 -1 11 -1 -1
    39 -1 -1 -1 -1 2 -1 -1 -1 -1 -1 24 -1 -1 11 -1
    -1 36 -1 -1 45 -1 -1 10 -1 -1 -1 -1 58 -1 -1 -1
    -1 -1 62 -1 -1 -1 -1 -1 -1 12 -1 53 27 -1 -1 -1"#;

const NB_LDPC_ALIST: &str = r#"16 8 64
    2 4
    2 2 2 2 2 2 2 2 2 2 2 2 2 2 2 2
    4 4 4 4 4 4 4 4
    4 32   6 39
    3 6   7 36
    5 52   8 62
    1 27   2 60
    2 45   7 45
    3 21   6 2
    1 1   3 56
    4 23   7 10
    2 32   5 61
    1 36   8 12
    4 60   5 26
    6 24   8 53
    7 58   8 27
    3 47   5 11
    2 23   6 11
    1 49   4 45
    4 27   7 1   10 36   16 49
    4 60   5 45   9 32   15 23
    2 6   6 21   7 56   14 47
    1 32   8 23   11 60   16 45
    3 52   9 61   11 26   14 11
    1 39   6 2   12 24   15 11
    2 36   5 45   8 10   13 58
    3 62   10 12   12 53   13 27"#;

#[test]
fn test_alist() {
    let (_, alist_fctrs) = read_alist_bytes(NB_LDPC_ALIST.as_bytes()).unwrap().expect("Error Reading File");
    let poly = aegle::utils::find_irreducible(2, 6)
        .next()
        .expect("Could not find an irreducible polynomial");
    let (_, matrix_factors) = read_matrix(poly, Ok(NB_LDPC_MATRIX.as_bytes())).unwrap().expect("Error parsing file");
    assert_eq!(
        matrix_factors.iter().map(|x| x.len()).collect::<Vec<_>>(),
        (alist_fctrs.iter().map(|x| x.len()).collect::<Vec<_>>())
    )
}

#[test]
fn alist_and_matrix_agree() {
    let (f1, alist_fctrs) = read_alist_bytes(NB_LDPC_ALIST.as_bytes()).unwrap().unwrap();
    let poly = aegle::utils::find_irreducible(2, 6).next().unwrap();
    let (f2, matrix_factors) = read_matrix(poly, Ok(NB_LDPC_MATRIX.as_bytes())).unwrap().unwrap();
    assert_eq!(f1.field_size(), 64);
    assert_eq!(f2.field_size(), 64);
    for (a, b) in alist_fctrs.iter().zip(matrix_factors.iter()) {
        let ra: Vec<(usize, u32)> = a.iter().map(|(c, e)| (*c, e.as_int())).collect();
        let rb: Vec<(usize, u32)> = b.iter().map(|(c, e)| (*c, e.as_int())).collect();
        assert_eq!(ra, rb);
    }
}

#[test]
fn error_texts() {
    assert_eq!(ReadError::BadFieldSize(6).describe(), "Field size (6) is not a power of a prime");
    assert_eq!(ReadError::ExpectedTuple(3, "3 2".to_string()).describe(), "Expected a 3 elements, got: 3 2");
    assert_eq!(ReadError::FileTooShort.describe(), "Alist file is too short parsing file");
    assert_eq!(FieldError::NotPrime(4).describe(), "4 is not prime");
    let poly = Polynomial::from_coeffs(2, vec![1, 0, 1]);
    let text = poly.to_string();
    assert_eq!(
        FieldError::ReduciblePolynomial(poly).describe(),
        format!("{text} is reducible over Z_2")
    );
    let poly = Polynomial::from_coeffs(2, vec![1, 1, 1]);
    let text = poly.to_string();
    let gf = aegle::finite_field::GF::from_poly(poly).unwrap();
    assert_eq!(gf.describe(), format!("GF(2^2)/[{text}]"));
    assert_eq!(
        ReadError::FieldError(FieldError::NotPrime(9)).describe(),
        "Error in file settings: 9 is not prime"
    );
}
