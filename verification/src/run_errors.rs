//! Errors with which the long-running parts of a node end: a failed
//! subsystem, or a plain message.

use vstd::prelude::*;

verus! {

/// The error with which a subsystem ends.
#[derive(Debug)]
pub struct SubsystemError(pub String);

/// A plain error message.
#[derive(Debug)]
pub struct ErrorMessage(pub String);

/// The errors that may end the node as a whole.
pub trait MainError {
}

impl MainError for SubsystemError {
}

impl MainError for ErrorMessage {
}

impl MainError for crate::error::Error {
}

/// The errors that may end the emulator of QKD links.
pub trait EmulatorError {
}

impl EmulatorError for SubsystemError {
}

impl EmulatorError for ErrorMessage {
}

/// `Error in a subsystem: `, the message and a line break.
pub open spec fn subsystem_text(msg: Seq<char>) -> Seq<char> {
    seq![
        'E', 'r', 'r', 'o', 'r', ' ', 'i', 'n', ' ', 'a', ' ', 's', 'u', 'b', 's', 'y', 's', 't',
        'e', 'm', ':', ' ',
    ] + msg + seq!['\n']
}

impl SubsystemError {
    /// The error as it is displayed.
    pub fn describe(&self) -> (r: String)
        ensures
            r@ == subsystem_text(self.0@),
    {
        proof {
            reveal_strlit("Error in a subsystem: ");
            reveal_strlit("\n");
        }
        let mut out = String::from_str("Error in a subsystem: ");
        out.append(self.0.as_str());
        out.append("\n");
        proof {
            assert(out@ =~= subsystem_text(self.0@));
        }
        out
    }
}

impl ErrorMessage {
    /// The message as it is displayed: its text and a line break.
    pub fn describe(&self) -> (r: String)
        ensures
            r@ == self.0@ + seq!['\n'],
    {
        proof {
            reveal_strlit("\n");
        }
        let mut out = self.0.clone();
        out.append("\n");
        out
    }
}

} // verus!
