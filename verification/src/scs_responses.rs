//! The answers of the decoding service: what each reply means for the leader, once the reply
//! has been read.

use vstd::prelude::*;

use crate::error::{Error, ErrorKind};

verus! {

/// The service refused a request, with its reason.
#[derive(Debug)]
pub struct ErrorResponse {
    pub message: String,
}

impl ErrorResponse {
    /// The error that the refusal means: a network error with the service's reason.
    pub fn into_error(self) -> (r: Error)
        ensures
            r.error_kind == ErrorKind::Network,
            r.msg@ == self.message@,
    {
        Error::new(ErrorKind::Network, self.message)
    }
}

/// The reply to registering a code: whether it was registered, with the service's message.
#[derive(Debug)]
pub enum RegisterResponse {
    Answer { success: bool, message: String },
    Refused(ErrorResponse),
}

impl RegisterResponse {
    /// Success when the service registered the code; otherwise a network error with the
    /// service's message.
    pub fn outcome(self) -> (r: Result<(), Error>)
        ensures
            r is Ok <==> (self matches RegisterResponse::Answer { success, .. } && success),
            self matches RegisterResponse::Answer { success, message } ==> (!success ==> (r matches Err(e)
                && e.error_kind == ErrorKind::Network && e.msg@ == message@)),
            self matches RegisterResponse::Refused(x) ==> (r matches Err(e) && e.error_kind == ErrorKind::Network
                && e.msg@ == x.message@),
    {
        match self {
            RegisterResponse::Answer { success, message } => {
                if success {
                    Ok(())
                } else {
                    Err(Error::new(ErrorKind::Network, message))
                }
            },
            RegisterResponse::Refused(e) => Err(e.into_error()),
        }
    }
}

/// The bits that the service sends as numbers: every number other than zero is a one.
pub open spec fn bits_of(v: Seq<u8>) -> Seq<bool> {
    v.map_values(|b: u8| b != 0)
}

fn to_bits(v: &Vec<u8>) -> (r: Vec<bool>)
    ensures
        r@ == bits_of(v@),
{
    let mut out: Vec<bool> = Vec::new();
    let mut i: usize = 0;
    while i < v.len()
        invariant
            i <= v.len(),
            out@ == bits_of(v@.subrange(0, i as int)),
        decreases v.len() - i,
    {
        out.push(v[i] != 0);
        proof {
            assert(bits_of(v@.subrange(0, i + 1)) =~= bits_of(v@.subrange(0, i as int)).push(v@[i as int] != 0));
        }
        i = i + 1;
    }
    proof {
        assert(v@.subrange(0, i as int) =~= v@);
    }
    out
}

/// The reply to a request for a syndrome.
#[derive(Debug)]
pub enum CalculateSyndromeResponse {
    Syndrome { syndrome: Vec<u8> },
    Refused(ErrorResponse),
}

impl CalculateSyndromeResponse {
    /// The syndrome's bits, or a network error with the service's reason.
    pub fn outcome(self) -> (r: Result<Vec<bool>, Error>)
        ensures
            self matches CalculateSyndromeResponse::Syndrome { syndrome } ==> (r matches Ok(b) && b@ == bits_of(syndrome@)),
            self matches CalculateSyndromeResponse::Refused(x) ==> (r matches Err(e) && e.error_kind
                == ErrorKind::Network && e.msg@ == x.message@),
    {
        match self {
            CalculateSyndromeResponse::Syndrome { syndrome } => Ok(to_bits(&syndrome)),
            CalculateSyndromeResponse::Refused(e) => Err(e.into_error()),
        }
    }
}

/// The reply to a request for decoding.
#[derive(Debug)]
pub enum DecodeResponse {
    Corrected { corrected_syndrome: Vec<u8> },
    Refused(ErrorResponse),
}

impl DecodeResponse {
    /// The corrected bits, or a network error with the service's reason.
    pub fn outcome(self) -> (r: Result<Vec<bool>, Error>)
        ensures
            self matches DecodeResponse::Corrected { corrected_syndrome } ==> (r matches Ok(b) && b@ == bits_of(
                corrected_syndrome@,
            )),
            self matches DecodeResponse::Refused(x) ==> (r matches Err(e) && e.error_kind == ErrorKind::Network
                && e.msg@ == x.message@),
    {
        match self {
            DecodeResponse::Corrected { corrected_syndrome } => Ok(to_bits(&corrected_syndrome)),
            DecodeResponse::Refused(e) => Err(e.into_error()),
        }
    }
}

} // verus!
