//! Post-processing of sifted keys in quantum key distribution: finite-field
//! and polynomial arithmetic for non-binary LDPC codes, sparse parity matrices,
//! the key state machine and the reconciliation and privacy-amplification stages.

pub mod alist;
pub mod csv;
pub mod arith;
pub mod bits;
pub mod cascade;
pub mod codec;
pub mod decimal;
pub mod decoder;
pub mod error;
pub mod key_processing;
pub mod key_state;
pub mod matrices;
pub mod matrix;
pub mod peers;
pub mod polynomial;
pub mod poly_format;
pub mod protocol;
pub mod run_errors;
pub mod radix;
pub mod simcommsys;
pub mod scs_responses;
pub mod sparse_matrix;
pub mod stages;
pub mod text;
pub mod toeplitz;
pub mod utils;
pub mod field_alist;
pub mod finite_field;
pub mod framing;
pub mod follower;
