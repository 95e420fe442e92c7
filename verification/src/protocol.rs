//! Messages between the leader and the follower, and the outcome of a post-processing step.

use vstd::prelude::*;

use crate::toeplitz::Toeplitz;

verus! {

/// What a post-processing step asks for next: an update from the follower, its result, or
/// that the key be given up.
pub enum PPStep<R, U> {
    GetUpdate(U),
    Result(R),
    Abort,
}

/// An error of a post-processing step, with a message.
#[derive(Debug)]
pub struct PPError(&'static str);

impl PPError {
    /// The message.
    pub closed spec fn message(&self) -> &'static str {
        self.0
    }

    /// An error with the given message.
    pub fn new(msg: &'static str) -> (r: Self)
        ensures
            r.message() == msg,
    {
        PPError(msg)
    }

    /// The message.
    pub fn msg(&self) -> (r: &'static str)
        ensures
            r == self.message(),
    {
        self.0
    }

    /// The text of the error, a line with its message.
    pub fn describe(&self) -> (r: String)
        ensures
            r@ == "An error during post processing: "@ + self.message()@ + "\n"@,
    {
        let mut out = String::new();
        out.append("An error during post processing: ");
        out.append(self.0);
        out.append("\n");
        proof {
            assert(out@ =~= "An error during post processing: "@ + self.message()@ + "\n"@);
        }
        out
    }
}

/// A request of the leader to the follower.
#[derive(Debug)]
pub enum FollowerRequests {
    /// Reveal the bits at these positions.
    Reveal(Vec<usize>),
    /// The parities of the key over each of these lists of positions.
    Syndrome(Vec<Vec<usize>>),
    /// Apply privacy amplification with this matrix.
    PrivacyAmplification(Toeplitz),
    /// Register the LDPC code of this name with the decoding service.
    SCSRegisterCode(String),
    /// The syndromes of the key under the registered code of this name.
    SCSSyndrome(String),
}

/// The answer of the privacy-amplification request.
#[derive(Debug, PartialEq, Eq, Clone, Copy, Structural)]
pub enum PAReply {
    Confirmed,
    Error,
}

/// A response of the follower to the leader.
#[derive(Debug)]
pub enum FollowerResponse {
    /// The revealed bits.
    Reveal(Vec<bool>),
    /// The parities, one per list.
    Syndrome(Vec<bool>),
    /// Whether privacy amplification succeeded.
    PrivacyAmplificationConfirmed(PAReply),
    /// Whether the code was registered.
    SCSRegisterCode(bool),
    /// The syndromes of each block, if they could be computed.
    SCSSyndrome(Option<Vec<Vec<bool>>>),
}

} // verus!
