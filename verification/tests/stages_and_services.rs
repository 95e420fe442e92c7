use aegle::codec::parity_matrix_to_codec;
use aegle::decoder::{calculate_syndrome, factor_neighbours, mult_idx, sum_idx, FactorRow};
use aegle::sparse_matrix::SparseMatrix;
use aegle::error::{Error, ErrorKind, PpaasError};
use aegle::protocol::PPError;
use aegle::sparse_matrix::{ParityMatrixError, SparseMatrixError};
use aegle::finite_field::GF;
use aegle::key_processing::{key_text, leader_proceeds, registration_reply, RegisterReply};
use aegle::key_state::{Key, KeyData, Reconciled, Reconciling};
use aegle::matrices::ParityMatrix;
use aegle::peers::{ConnectionStatus, MutPeerState, PeerStates, Role};
use aegle::protocol::{FollowerRequests, FollowerResponse, PAReply, PPStep};
use aegle::scs_responses::{CalculateSyndromeResponse, DecodeResponse, ErrorResponse, RegisterResponse};
use aegle::simcommsys::{pick_code, CodeProperties, MatrixDefinition, ScsStep, SimCommSys};
use aegle::stages::{BEREstimation, LdpcStep, SetupBinaryLDPC, SetupPrivacyAmplification};

fn bits(v: &[u8]) -> Vec<bool> {
    v.iter().map(|b| *b == 1).collect()
}

fn reconciling(b: Vec<bool>) -> Key<Reconciling> {
    Key::new(b, 3, 4, 0).verify().start_reconciliation()
}

fn reconciled(b: Vec<bool>, leaked: usize) -> Key<Reconciled> {
    let data = b.clone();
    reconciling(b).reconcile(KeyData(data), leaked)
}

/// Sample parity matrix of the following shape:
/// [1, 1, 0, 1, 0, 0]
/// [0, 1, 1, 0, 1, 0]
/// [0, 0, 0, 0, 1, 1]
/// [0, 0, 1, 1, 0, 1]
const H_ALIST: &str = "\
    6 4\n\
    2 3\n\
    1 2 2 2 2 2\n\
    3 3 2 3\n\
    1 0\n\
    1 2\n\
    2 4\n\
    1 4\n\
    2 3\n\
    3 4\n\
    1 2 4\n\
    2 3 5\n\
    5 6 0\n\
    3 4 6\n\
    ";

#[test]
fn build_codec_from_valid_parity_matrix() {
    let matrix = ParityMatrix::from_alist_str(H_ALIST).unwrap();
    let config = parity_matrix_to_codec(&matrix).unwrap();
    println!("{config}");
    assert!(config.starts_with("# Codec\nldpc<gf2,double>\n"));
    assert!(config.contains("# Length (n)\n6\n"));
    assert!(config.contains("# Dimension (m)\n4\n"));
    assert!(config.contains("# Max column weight\n2\n"));
    assert!(config.contains("# Max row weight\n3\n"));
}

#[test]
fn codec_of_single_check() {
    let m = ParityMatrix::from_array(&[vec![1u8, 1]]);
    let s = parity_matrix_to_codec(&m).unwrap();
    assert!(s.contains("# Length (n)\n2\n# Dimension (m)\n1\n# Max column weight\n1\n# Max row weight\n2\n"));
    assert!(s.ends_with("# Column weight vector\n2\n1 1\n# Row weight vector\n1\n2\n# Non zero positions per col\n1\n1\n1\n1\n\n"));
}

#[test]
fn ber_estimation_flow() {
    let key = bits(&[1, 0, 1, 1, 0, 0, 1, 0, 1, 1]);
    let mut est = BEREstimation::new(reconciling(key.clone()), 4);
    let idx = match est.step() {
        Ok(PPStep::GetUpdate(FollowerRequests::Reveal(idx))) => idx,
        _ => panic!("expected a reveal request"),
    };
    assert_eq!(idx.len(), 4);
    let mut sorted = idx.clone();
    sorted.sort();
    sorted.dedup();
    assert_eq!(sorted.len(), 4);
    // The follower answers with its bits: the first revealed one differs.
    let mut answer: Vec<bool> = idx.iter().map(|i| key[*i]).collect();
    answer[0] = !answer[0];
    est.update(FollowerResponse::Reveal(answer)).unwrap();
    match est.step() {
        Ok(PPStep::Result((errors, size))) => {
            assert_eq!(errors, 1);
            assert_eq!(size, 4);
        },
        _ => panic!("expected the estimate"),
    }
    // A second update is refused once the estimate exists.
    assert!(est.update(FollowerResponse::Reveal(vec![])).is_err());
    let rest = est.finalize().unwrap();
    assert_eq!(rest.length(), 6);
    let kept: Vec<bool> = (0..10).filter(|i| !idx.contains(i)).map(|i| key[i]).collect();
    assert_eq!(rest.get_interior(), kept);
}

#[test]
fn ber_estimation_refuses_early_finalize() {
    let est = BEREstimation::new(reconciling(bits(&[1, 0, 1])), 2);
    assert!(est.finalize().is_err());
}

#[test]
fn privacy_amplification_flow() {
    let key = bits(&[1, 0, 1, 1, 0, 0, 1, 0]);
    let mut pa = SetupPrivacyAmplification.setup(reconciled(key.clone(), 3));
    let t = match pa.step() {
        Ok(PPStep::GetUpdate(FollowerRequests::PrivacyAmplification(t))) => t,
        _ => panic!("expected the matrix"),
    };
    assert_eq!(t.n_input(), 8);
    assert_eq!(t.n_output(), 5);
    // Not confirmed yet.
    assert!(pa.step().is_err());
    assert!(pa.update(FollowerResponse::PrivacyAmplificationConfirmed(PAReply::Error)).is_err());
    assert!(pa.update(FollowerResponse::Reveal(vec![])).is_err());
    pa.update(FollowerResponse::PrivacyAmplificationConfirmed(PAReply::Confirmed)).unwrap();
    assert!(matches!(pa.step(), Ok(PPStep::Result(()))));
    let secret = pa.finalize().unwrap();
    assert_eq!(secret.get_interior(), t.hash_data(key).unwrap());
}

#[test]
fn binary_ldpc_flow() {
    let h = ParityMatrix::from_array(&[vec![1, 1, 0, 1], vec![0, 1, 1, 0]]);
    let mut ldpc = SetupBinaryLDPC::new(10, "h.alist".to_string()).setup(reconciling(bits(&[1, 0, 1, 1])), h);
    match ldpc.step() {
        LdpcStep::GetUpdate(FollowerRequests::Syndrome(lists)) => assert_eq!(lists, vec![vec![0, 1, 3], vec![1, 2]]),
        _ => panic!("expected a syndrome request"),
    }
    assert!(ldpc.update(FollowerResponse::Reveal(vec![])).is_err());
    ldpc.update(FollowerResponse::Syndrome(vec![true, false])).unwrap();
    match ldpc.step() {
        LdpcStep::Propagate(s) => assert_eq!(s, vec![true, false]),
        _ => panic!("expected propagation"),
    }
    assert!(matches!(ldpc.propagated(Some(bits(&[0, 0, 1, 1]))), PPStep::Result(())));
    let key = ldpc.finalize().unwrap();
    assert_eq!(key.get_interior(), bits(&[0, 0, 1, 1]));
    assert_eq!(key.leaked_bits(), 2);
    assert_eq!(key.corrected_bits(), 1);
}

#[test]
fn binary_ldpc_gives_up_without_estimate() {
    let h = ParityMatrix::from_array(&[vec![1, 1]]);
    let mut ldpc = SetupBinaryLDPC::new(5, "h.alist".to_string()).setup(reconciling(bits(&[1, 0])), h);
    ldpc.update(FollowerResponse::Syndrome(vec![true])).unwrap();
    assert!(matches!(ldpc.propagated(None), PPStep::Abort));
    assert!(ldpc.finalize().is_err());
}

fn code(id: &str, block_length: u64) -> CodeProperties {
    CodeProperties { id: id.to_string(), block_length, matrix: MatrixDefinition::AListFile(format!("{id}.alist")) }
}

#[test]
fn pick_code_prefers_fewest_wasted_bits() {
    let codes = vec![code("a", 100), code("b", 400), code("c", 1000), code("d", 400)];
    // 500 bits: 100-bit blocks waste none, 400-bit blocks waste 100.
    assert_eq!(pick_code(&codes, &[true, true, true, true], 500), Some(0));
    // 5000 bits: every code wastes none; the first is taken.
    assert_eq!(pick_code(&codes, &[true, true, true, true], 5000), Some(0));
    assert_eq!(pick_code(&codes, &[false, true, true, true], 5000), Some(2));
    assert_eq!(pick_code(&codes, &[false, true, true, true], 900), Some(1));
    assert_eq!(pick_code(&codes, &[false, false, true, true], 900), Some(3));
    let six_or_five = vec![code("a", 6), code("b", 5)];
    assert_eq!(pick_code(&six_or_five, &[true, true], 10), Some(1));
    assert_eq!(pick_code(&codes, &[false, false, false, false], 500), None);
    assert_eq!(pick_code(&codes, &[true, true, true, true], 50), None);
}

#[test]
fn simcommsys_flow() {
    let key = bits(&[1, 0, 1, 1, 0, 0, 1]);
    let mut scs = SimCommSys::new("code".to_string(), 3, reconciling(key));
    match scs.step() {
        Ok(ScsStep::GetUpdate(FollowerRequests::SCSRegisterCode(c))) => assert_eq!(c, "code"),
        _ => panic!("expected registration"),
    }
    assert!(scs.update(FollowerResponse::SCSRegisterCode(false)).is_err());
    scs.update(FollowerResponse::SCSRegisterCode(true)).unwrap();
    match scs.step() {
        Ok(ScsStep::GetUpdate(FollowerRequests::SCSSyndrome(c))) => assert_eq!(c, "code"),
        _ => panic!("expected a syndrome request"),
    }
    assert!(scs.update(FollowerResponse::SCSSyndrome(None)).is_err());
    scs.update(FollowerResponse::SCSSyndrome(Some(vec![bits(&[1, 0]), bits(&[0, 1])]))).unwrap();
    match scs.step() {
        Ok(ScsStep::Decode(work)) => {
            assert_eq!(work.len(), 2);
            assert_eq!(work[0], (bits(&[1, 0, 1]), bits(&[1, 0])));
            assert_eq!(work[1], (bits(&[1, 0, 0]), bits(&[0, 1])));
        },
        _ => panic!("expected decoding work"),
    }
    assert!(matches!(scs.decoded(vec![bits(&[1, 1, 1]), bits(&[1, 0, 0])]), PPStep::Result(())));
    let key = scs.finalize().unwrap();
    assert_eq!(key.get_interior(), bits(&[1, 1, 1, 1, 0, 0]));
    assert_eq!(key.leaked_bits(), 4);
}

#[test]
fn simcommsys_refuses_wrong_syndrome_count() {
    let mut scs = SimCommSys::new("code".to_string(), 2, reconciling(bits(&[1, 0, 1, 1])));
    scs.update(FollowerResponse::SCSRegisterCode(true)).unwrap();
    scs.update(FollowerResponse::SCSSyndrome(Some(vec![bits(&[1])]))).unwrap();
    assert!(scs.step().is_err());
}

#[test]
fn service_responses() {
    assert!(RegisterResponse::Answer { success: true, message: "ok".to_string() }.outcome().is_ok());
    let e = RegisterResponse::Answer { success: false, message: "busy".to_string() }.outcome().unwrap_err();
    assert_eq!(e.kind(), ErrorKind::Network);
    assert_eq!(e.msg, "busy");
    let e = RegisterResponse::Refused(ErrorResponse { message: "bad code".to_string() }).outcome().unwrap_err();
    assert_eq!(e.msg, "bad code");
    let s = CalculateSyndromeResponse::Syndrome { syndrome: vec![0, 1, 2, 0] }.outcome().unwrap();
    assert_eq!(s, vec![false, true, true, false]);
    assert!(CalculateSyndromeResponse::Refused(ErrorResponse { message: "x".to_string() }).outcome().is_err());
    let c = DecodeResponse::Corrected { corrected_syndrome: vec![1, 0, 0] }.outcome().unwrap();
    assert_eq!(c, vec![true, false, false]);
    let e = DecodeResponse::Refused(ErrorResponse { message: "y".to_string() }).outcome().unwrap_err();
    assert_eq!(e.kind(), ErrorKind::Network);
}

#[test]
fn field_syndrome_and_neighbours() {
    let gf = GF::with_size(2, 2).unwrap();
    let x = vec![gf.element(1), gf.element(2), gf.element(3)];
    // Rows over GF(4): x0 * 2 + x1 * 1, and x1 * 3 + x2 * 1.
    let rows: Vec<FactorRow> = vec![
        vec![(0, gf.element(2)), (1, gf.element(1))],
        vec![(1, gf.element(3)), (2, gf.element(1))],
    ];
    let s = calculate_syndrome(&x, &rows);
    // 1 * x + x = 0; x * (x + 1) + (x + 1) = (x + 1)^2 = x^2 + 1 = x, which is 2.
    assert_eq!(s[0].as_int(), 0);
    assert_eq!(s[1].as_int(), 2);
    assert_eq!(factor_neighbours(&rows), vec![vec![0], vec![0, 1], vec![1]]);
}

#[test]
fn peer_connections() {
    let mut p = MutPeerState::new("alice");
    assert!(matches!(p.status(), PeerStates::Disconnected(_)));
    assert_eq!(p.accept_connection(), ConnectionStatus::Accepted);
    assert!(matches!(p.status(), PeerStates::Connected(_)));
    assert_eq!(p.accept_connection(), ConnectionStatus::AlreadyConnected);
    p.disconnect();
    assert!(matches!(p.status(), PeerStates::Disconnected(_)));
    p.connect();
    assert!(matches!(p.status(), PeerStates::Connected(_)));
    assert_eq!(Role::Leader.opposite(), Role::Follower);
    assert_eq!(Role::Leader.opposite().opposite(), Role::Leader);
}

#[test]
fn key_registration() {
    assert_eq!(registration_reply((1, 2), 10, (1, 2), 10), (RegisterReply::KeyFound(1), true));
    assert_eq!(registration_reply((1, 2), 10, (1, 2), 9), (RegisterReply::LengthMismatch(1), false));
    assert_eq!(registration_reply((1, 2), 10, (1, 3), 10), (RegisterReply::KeyNotFound(1), false));
    assert_eq!(registration_reply((1, 2), 10, (7, 2), 9), (RegisterReply::KeyNotFound(1), false));
    assert!(leader_proceeds(&RegisterReply::found(5), 5));
    assert!(!leader_proceeds(&RegisterReply::not_found(5), 5));
    assert!(!leader_proceeds(&RegisterReply::found(4), 5));
    assert!(!leader_proceeds(&RegisterReply::LengthMismatch(5), 5));
    assert_eq!(RegisterReply::not_found(7).get_id(), 7);
    assert_eq!(key_text(&bits(&[1, 0, 0, 1])), "1001");
}

#[test]
fn decoder_tables() {
    let gf = GF::with_size(2, 2).unwrap();
    // h = x, whose inverse is x^2 = x + 1.
    let h = gf.element(2);
    let m = mult_idx(&h);
    assert_eq!(m.len(), 4);
    assert!(m.iter().all(|row| row.len() == 4));
    assert_eq!(m[0][0], 0);
    assert_eq!(m[1][0], 3);
    assert_eq!(m[2][0], 1);
    assert_eq!(m[3][1], 1);
    // z = x + 1: (z - x * a) - b.
    let s = sum_idx(&gf.element(3), &h);
    assert_eq!(s[0], vec![3, 2, 1, 0]);
    assert_eq!(s[1][0], 1);
    assert_eq!(s[1][1], 0);
    assert_eq!(s[2][0], 0);
}

#[test]
fn dense_rows_lists_agree() {
    let rows = vec![vec![1, 1, 0, 1], vec![0, 1, 1, 0], vec![0, 0, 0, 1]];
    let m = SparseMatrix::from_array(&rows);
    for (f, row) in rows.iter().enumerate() {
        for (v, entry) in row.iter().enumerate() {
            let listed_by_factor = m.factor(&f).contains(&v);
            let listed_by_variable = m.variable(&v).contains(&f);
            assert_eq!(listed_by_factor, *entry != 0);
            assert_eq!(listed_by_variable, *entry != 0);
        }
    }
}

#[test]
fn error_descriptions() {
    assert_eq!(SparseMatrixError::FileTooShort.describe(), "File shorted than expected\n");
    assert_eq!(
        SparseMatrixError::ExpectedTuple("1 2 3".to_string()).describe(),
        "Expected a tuple, got: 1 2 3\n"
    );
    assert_eq!(ParityMatrixError::BadAListFile("x".to_string()).describe(), "Alist file is malformed: x\n");
    assert_eq!(Error::new(ErrorKind::Network, "down".to_string()).describe(), "Type: 'Network' | Msg: 'down'");
    assert_eq!(PPError::new("boom").describe(), "An error during post processing: boom\n");
    assert_eq!(PpaasError::Other.describe(), "Unexpected PPaaS error!\n");
}
