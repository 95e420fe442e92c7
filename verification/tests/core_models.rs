use aegle::alist::AlistStatus;
use aegle::error::ErrorKind;
use aegle::follower::{FollowerAction, FollowerSession};
use aegle::key_state::{Key, KeyData, Sifted};
use aegle::matrices::{GeneratorMatrix, ParityMatrix};
use aegle::protocol::{FollowerRequests, FollowerResponse};
use aegle::sparse_matrix::{SparseMatrix, SparseMatrixError};
use aegle::toeplitz::Toeplitz;

const H: [[u8; 6]; 4] = [
    [1, 1, 0, 1, 0, 0],
    [0, 1, 1, 0, 1, 0],
    [1, 0, 0, 0, 1, 1],
    [0, 0, 1, 1, 0, 1],
];

const H_ALIST: &str = "\
    6 4\n\
    2 3\n\
    2 2 2 2 2 2\n\
    3 3 3 3\n\
    1 3\n\
    1 2\n\
    2 4\n\
    1 4\n\
    2 3\n\
    3 4\n\
    1 2 4\n\
    2 3 5\n\
    1 5 6\n\
    3 4 6\n\
    ";

fn rows() -> Vec<Vec<u8>> {
    H.iter().map(|r| r.to_vec()).collect()
}

fn bits(v: &[u8]) -> Vec<bool> {
    v.iter().map(|&b| b == 1).collect()
}

#[test]
fn sparse_matrix_read_alist() {
    let m1 = SparseMatrix::from_alist_str(H_ALIST).unwrap();
    let m2 = SparseMatrix::from_array(&rows());
    assert_eq!(m1.iter_factors().to_vec(), m2.iter_factors().to_vec());
    assert_eq!(m1.iter_variables().to_vec(), m2.iter_variables().to_vec());
}

#[test]
fn lib_read_alist() {
    let m1 = ParityMatrix::from_alist_str(H_ALIST).unwrap();
    let m2 = ParityMatrix::from_array(&rows());
    assert!(m1.sparse().iter_factors().iter().eq(m2.sparse().iter_factors().iter()));
    assert!(m1.sparse().iter_variables().iter().eq(m2.sparse().iter_variables().iter()));
}

#[test]
fn sparse_matrix_lookups() {
    let m = SparseMatrix::from_array(&rows());
    assert_eq!(m.factors_len(), 4);
    assert_eq!(m.variables_len(), 6);
    assert_eq!(m.factor(&2), &[0, 4, 5]);
    assert_eq!(m.variable(&3), &[0, 3]);
    assert_eq!(m.factor(&9), &[] as &[usize]);
    // A column of zeros is no variable.
    let m = SparseMatrix::from_array(&[vec![1, 0, 1], vec![0, 0, 1]]);
    assert_eq!(m.variables_len(), 2);
    assert_eq!(m.variable(&1), &[] as &[usize]);
    assert_eq!(m.variable(&2), &[0, 1]);
}

fn alist_error(src: &str) -> SparseMatrixError {
    match SparseMatrix::from_alist_str(src) {
        Err(e) => e,
        Ok(_) => panic!("expected an error"),
    }
}

#[test]
fn alist_errors() {
    assert!(matches!(alist_error(""), SparseMatrixError::FileTooShort));
    assert!(matches!(alist_error("6 4 1\n"), SparseMatrixError::ExpectedTuple(_)));
    assert!(matches!(alist_error("6 x\n"), SparseMatrixError::ConversionError(_)));
    assert!(matches!(alist_error("1 1\n1 1\n1\n1\n"), SparseMatrixError::FileTooShort));
    assert!(matches!(alist_error("1 1\n1 1\n2\n1\n1\n1\n"), SparseMatrixError::BadAListFile(_)));
    assert!(matches!(alist_error("1 1\n2 1\n1\n1\n1\n1\n"), SparseMatrixError::BadAListFile(_)));
    assert!(matches!(alist_error("1 1\n1 1\n1\n1\n1\n1\n1\n"), SparseMatrixError::FileTooLong));
    assert!(SparseMatrix::from_alist_str("1 1\n1 1\n1\n1\n1\n1\n").is_ok());
    // A neighbour numbered zero has no reading.
    assert!(SparseMatrix::try_from_alist_str("1 1\n1 1\n1\n1\n00\n1\n").is_none());
    let _ = AlistStatus::Parsed;
}

#[test]
fn alist_without_neighbour_lists_is_malformed() {
    assert!(matches!(alist_error("0 0\n0 0\n1\n1\n"), SparseMatrixError::BadAListFile(_)));
    assert!(matches!(alist_error("1 0\n1 0\n1\n1\n1\n"), SparseMatrixError::BadAListFile(_)));
}

#[test]
fn syndrome_calc() {
    let message = bits(&[0, 1, 1, 1, 0, 0]);
    let pm = ParityMatrix::from_array(&rows());
    let pm_syndrome = pm.calculate_syndrome(&message);
    let mut naive_syndrome = vec![];
    for row in H {
        let mut val = 0;
        for (x, m) in row.iter().zip(message.iter()) {
            if *m {
                val += x;
            }
        }
        naive_syndrome.push((val % 2) == 1)
    }
    assert_eq!(naive_syndrome, pm_syndrome);
}

#[test]
fn generator_codeword() {
    let g = GeneratorMatrix::from_array(&[vec![1, 0, 1], vec![0, 1, 1]]);
    assert_eq!(g.generate_codeword(&[true, true], 3), Some(vec![true, true, false]));
    assert_eq!(g.generate_codeword(&[true, false], 3), Some(vec![true, false, true]));
    assert_eq!(g.generate_codeword(&[true], 3), None);
    assert_eq!(g.generate_codeword(&[true, true], 2), None);
}

#[test]
fn test_toeplitz() {
    let v = bits(&[0, 1, 0, 0, 1, 1, 0]);
    let w = bits(&[1, 1, 0, 1, 0]);
    let top = Toeplitz::from_bitvec(5, 3, v).expect("Wrong size of data");
    let hashed = top.hash_data(w);
    let result = hashed.expect("Wrong input length");
    assert_eq!(result, bits(&[1, 0, 1]));
}

#[test]
fn test_bad_toeplitz() {
    let v = bits(&[0, 1, 0, 0, 1, 1, 0]);
    let w = bits(&[1, 1, 0, 1]);
    let top = Toeplitz::from_bitvec(5, 3, v).expect("Wrong size of data");
    let hashed = top.hash_data(w);
    assert!(hashed.is_err());
    let w = bits(&[1, 1, 0, 1, 1, 1]);
    let hashed = top.hash_data(w);
    assert!(hashed.is_err());
    assert!(Toeplitz::from_bitvec(5, 3, bits(&[0, 1])).is_none());
}

#[test]
fn toeplitz_without_inputs_refuses_words() {
    let top = Toeplitz::from_bitvec(0, 3, bits(&[1, 0])).expect("Wrong size of data");
    let e = top.hash_data(bits(&[1])).unwrap_err();
    assert_eq!(e.kind(), ErrorKind::InconsistentData);
}

#[test]
fn random_toeplitz_has_right_size() {
    let t = Toeplitz::new(10, 4);
    assert_eq!(t.bits().len(), 13);
    assert_eq!(t.n_input(), 10);
    assert_eq!(t.n_output(), 4);
}

#[test]
fn key_done() {
    let test_key = bits(&[1, 0, 1, 1, 0]);
    let sifted = Key::<Sifted>::new(test_key, 1, 2, 0);
    let mut recon = sifted.verify().start_reconciliation();
    assert_eq!(recon.reveal_bit(5), None);

    let test_key_reconciled = bits(&[1, 1, 1, 1, 0]);
    let reconciled = recon.reconcile(KeyData(test_key_reconciled), 2);
    assert_eq!(reconciled.leaked_bits(), 2);
    assert_eq!(reconciled.corrected_bits(), 1);
    let secret = reconciled.privacy_amplification(&Toeplitz::new(5, 5 - 2)).unwrap();
    assert_eq!(secret.length(), 3);
    assert_eq!(secret.key_id(), 1);
    assert_eq!(secret.device_id(), 2);
}

#[test]
fn key_discard() {
    let test_key = bits(&[1, 0, 1, 1, 0]);
    let sifted = Key::<Sifted>::new(test_key.clone(), 3, 4, 0);
    let discarded = sifted.verify().start_reconciliation().discard();
    assert_eq!(discarded.get_interior(), test_key);
}

#[test]
fn test_reveal() {
    let key = bits(&[1, 0, 1, 1, 0, 0, 1]);
    let mut recon = Key::<Sifted>::new(key, 7, 8, 0).verify().start_reconciliation();
    assert_eq!(recon.reveal_bit(0), Some(true));
    assert_eq!(recon.reveal_bit(5), Some(false));
    assert_eq!(recon.reveal_bit(3), Some(true));
    recon.remove_revealed();
    assert_eq!(recon.get_interior(), bits(&[0, 1, 0, 1]));
    assert_eq!(recon.length(), 4);
}

#[test]
fn codeword_chunks_split_key() {
    let g = GeneratorMatrix::from_array(&[vec![1, 0, 1], vec![0, 1, 1]]);
    let key = bits(&[1, 1, 1, 0, 1]);
    let recon = Key::<Sifted>::new(key, 1, 1, 0).verify().start_reconciliation();
    let (cws, rest) = recon.codeword_chunks(2, 3, &g).unwrap();
    assert_eq!(cws, vec![bits(&[1, 1, 0]), bits(&[1, 0, 1])]);
    assert_eq!(rest, Some(bits(&[1])));
    let err = recon.codeword_chunks(3, 3, &g).unwrap_err();
    assert_eq!(err.kind(), ErrorKind::InconsistentData);
}

#[test]
fn follower_session_flow() {
    let key = bits(&[1, 0, 1, 1, 0, 0, 1, 0]);
    let recon = Key::<Sifted>::new(key, 5, 6, 0).verify().start_reconciliation();
    let mut session = FollowerSession::new(recon);
    match session.handle(FollowerRequests::Reveal(vec![0, 2])) {
        FollowerAction::Respond(FollowerResponse::Reveal(b)) => assert_eq!(b, vec![true, true]),
        _ => panic!("unexpected action"),
    }
    match session.handle(FollowerRequests::Syndrome(vec![vec![0, 1], vec![2, 3, 4]])) {
        FollowerAction::Respond(FollowerResponse::Syndrome(s)) => assert_eq!(s, vec![true, true]),
        _ => panic!("unexpected action"),
    }
    let t = Toeplitz::from_bitvec(6, 2, bits(&[1, 0, 0, 1, 1, 0, 1])).unwrap();
    match session.handle(FollowerRequests::PrivacyAmplification(t)) {
        FollowerAction::Finished(Some(secret)) => assert_eq!(secret.length(), 2),
        _ => panic!("unexpected action"),
    }
}

#[test]
fn follower_session_decoding_service_flow() {
    let key = bits(&[1, 0, 1, 1, 0, 0, 1, 0]);
    let recon = Key::<Sifted>::new(key.clone(), 5, 6, 0).verify().start_reconciliation();
    let mut session = FollowerSession::new(recon);
    assert!(matches!(session.handle(FollowerRequests::SCSSyndrome("c".to_string())), FollowerAction::Abort));
    match session.handle(FollowerRequests::SCSRegisterCode("c".to_string())) {
        FollowerAction::RegisterCode(id) => assert_eq!(id, "c"),
        _ => panic!("unexpected action"),
    }
    match session.code_registered(3, true) {
        FollowerAction::Respond(FollowerResponse::SCSRegisterCode(ok)) => assert!(ok),
        _ => panic!("unexpected action"),
    }
    match session.handle(FollowerRequests::SCSSyndrome("c".to_string())) {
        FollowerAction::ComputeSyndromes(id, blocks) => {
            assert_eq!(id, "c");
            assert_eq!(blocks, vec![bits(&[1, 0, 1]), bits(&[1, 0, 0])]);
        }
        _ => panic!("unexpected action"),
    }
    let syndromes = vec![vec![true, false], vec![false, true]];
    match session.syndromes_computed(syndromes.clone()) {
        FollowerAction::Respond(FollowerResponse::SCSSyndrome(Some(s))) => assert_eq!(s, syndromes),
        _ => panic!("unexpected action"),
    }
    // Four syndrome bits, less the two key bits that fill no block.
    assert_eq!(session.leaked_bits(), 2);
    let t = Toeplitz::from_bitvec(6, 2, bits(&[1, 0, 0, 1, 1, 0, 1])).unwrap();
    let expected = t.clone().hash_data(key[0..6].to_vec()).unwrap();
    match session.handle(FollowerRequests::PrivacyAmplification(t)) {
        FollowerAction::Finished(Some(secret)) => assert_eq!(secret.get_interior(), expected),
        _ => panic!("unexpected action"),
    }
}

#[test]
fn follower_session_refuses_matrix_without_inputs() {
    let recon = Key::<Sifted>::new(bits(&[1, 0, 1]), 5, 6, 0).verify().start_reconciliation();
    let mut session = FollowerSession::new(recon);
    let t = Toeplitz::from_bitvec(0, 2, bits(&[1])).unwrap();
    let request = FollowerRequests::PrivacyAmplification(t);
    assert!(session.serves_request(&request));
    assert!(matches!(session.handle(request), FollowerAction::Finished(None)));
}
