use aegle::csv::{uuid_text, CsvWriter};
use aegle::follower::FollowerSession;
use aegle::framing::{fault_location, frame_message};
use aegle::key_state::Key;
use aegle::matrix::Matrix;
use aegle::protocol::FollowerRequests;
use aegle::run_errors::{ErrorMessage, SubsystemError};
use aegle::toeplitz::Toeplitz;

#[test]
fn uuid_text_is_hyphenated_lower_hex() {
    let id: u128 = 0x67e5_5044_10b1_426f_9247_bb68_0e5f_e0c8;
    assert_eq!(uuid_text(id), "67e55044-10b1-426f-9247-bb680e5fe0c8");
    assert_eq!(uuid_text(0), "00000000-0000-0000-0000-000000000000");
    assert_eq!(uuid_text(u128::MAX), "ffffffff-ffff-ffff-ffff-ffffffffffff");
}

#[test]
fn csv_writer_names_file_after_link() {
    let writer = CsvWriter::new(0x0123_4567_89ab_cdef_0011_2233_4455_6677);
    assert_eq!(writer.filename(), "01234567-89ab-cdef-0011-223344556677.csv");
    assert_eq!(writer.header(), "key_id,value\n");
}

#[test]
fn csv_writer_rows() {
    let writer = CsvWriter::new(1);
    let row = writer.key_row(2, &[true, false, true, true]);
    assert_eq!(row, "00000000-0000-0000-0000-000000000002,1011\n");
    assert_eq!(writer.key_row(3, &[]), "00000000-0000-0000-0000-000000000003,\n");
}

#[test]
fn run_error_texts() {
    let e = SubsystemError("We have a panic!".to_string());
    assert_eq!(e.describe(), "Error in a subsystem: We have a panic!\n");
    let m = ErrorMessage("Unknown peer".to_string());
    assert_eq!(m.describe(), "Unknown peer\n");
}

#[test]
fn frame_prefixes_big_endian_length() {
    let framed = frame_message(&[7, 8, 9]).unwrap();
    assert_eq!(framed, vec![0, 0, 0, 3, 7, 8, 9]);
    let long = vec![1u8; 0x0102];
    let framed = frame_message(&long).unwrap();
    assert_eq!(&framed[..4], &[0, 0, 1, 2]);
    assert_eq!(framed.len(), 4 + 0x0102);
    assert_eq!(frame_message(&[]).unwrap(), vec![0, 0, 0, 0]);
}

#[test]
fn fault_location_counts_lines() {
    let text = b"a = 1\nb = 2\nc = oops\n";
    assert_eq!(fault_location(text, 0), (0, 0));
    assert_eq!(fault_location(text, 3), (0, 0));
    assert_eq!(fault_location(text, 6), (1, 5));
    assert_eq!(fault_location(text, 16), (2, 11));
    assert_eq!(fault_location(text, text.len()), (3, 20));
}

#[test]
fn matrix_rows_and_entries() {
    let mut m: Matrix<i32> = Matrix::filled(3, 2, 0);
    assert_eq!(m.rows(), 3);
    assert_eq!(m.cols(), 2);
    assert_eq!(m.row(1), &[0, 0]);
    m.set(1, 1, 5);
    m.set(2, 0, -1);
    assert_eq!(m.row(0), &[0, 0]);
    assert_eq!(m.row(1), &[0, 5]);
    assert_eq!(m.row(2), &[-1, 0]);
    assert_eq!(*m.get(1, 1), 5);
    m.set_row(0, &[7, 8]);
    assert_eq!(m.row(0), &[7, 8]);
    assert_eq!(m.row(1), &[0, 5]);
}

#[test]
fn matrix_without_columns() {
    let m: Matrix<u8> = Matrix::filled(2, 0, 1);
    assert_eq!(m.rows(), 2);
    assert!(m.row(1).is_empty());
}

fn session(bits: &[bool]) -> FollowerSession {
    let key = Key::new(bits.to_vec(), 1, 2, 0).verify().start_reconciliation();
    assert_eq!(key.revealed_count(), 0);
    FollowerSession::new(key)
}

#[test]
fn follower_checks_requests() {
    let s = session(&[true, false, true, true]);
    assert!(s.serves_request(&FollowerRequests::Reveal(vec![0, 3])));
    assert!(!s.serves_request(&FollowerRequests::Reveal(vec![0, 4])));
    assert!(s.serves_request(&FollowerRequests::Syndrome(vec![vec![0, 1], vec![2, 3]])));
    assert!(!s.serves_request(&FollowerRequests::Syndrome(vec![vec![0, 1], vec![2, 9]])));
    let t = Toeplitz::from_bitvec(4, 2, vec![true, false, true, false, true]).unwrap();
    assert!(s.serves_request(&FollowerRequests::PrivacyAmplification(t)));
    let empty = Toeplitz::from_bitvec(0, 1, vec![]).unwrap();
    // A matrix without input bits meets a non-empty key: answered, with no secret key.
    assert!(s.serves_request(&FollowerRequests::PrivacyAmplification(empty)));
    let no_bits = session(&[]);
    let empty = Toeplitz::from_bitvec(0, 1, vec![]).unwrap();
    assert!(!no_bits.serves_request(&FollowerRequests::PrivacyAmplification(empty)));
    assert!(s.serves_request(&FollowerRequests::SCSSyndrome("code".to_string())));
}
