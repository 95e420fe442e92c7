//! Error kinds and errors shared by the post-processing stack.

use vstd::prelude::*;

verus! {

/// The category of an error.
#[derive(Debug, PartialEq, Eq, Clone, Copy, Structural)]
pub enum ErrorKind {
    ConfigParse,
    Conversion,
    CryptoSetup,
    Database,
    EnvVar,
    InconsistentData,
    IntraprocessCommunication,
    Io,
    JoinError,
    Lapin,
    Neo4j,
    Network,
    Nft,
    NotImplemented,
    NotSupported,
    Numerical,
    OutOfRange,
    PoisonError,
    PostProcessing,
    Prometheus,
    ResourceUnavailable,
    Serialisation,
    Tracing,
    TrafficGuard,
    Validation,
}

impl ErrorKind {
    /// The name of the kind, as it is displayed.
    pub open spec fn name(self) -> Seq<char> {
        match self {
            ErrorKind::ConfigParse => "ConfigParse"@,
            ErrorKind::Conversion => "Conversion"@,
            ErrorKind::CryptoSetup => "CryptoSetup"@,
            ErrorKind::Database => "Database"@,
            ErrorKind::EnvVar => "EnvVar"@,
            ErrorKind::InconsistentData => "InconsistentData"@,
            ErrorKind::IntraprocessCommunication => "IntraprocessCommunication"@,
            ErrorKind::Io => "Io"@,
            ErrorKind::JoinError => "JoinError"@,
            ErrorKind::Lapin => "Lapin"@,
            ErrorKind::Neo4j => "Neo4j"@,
            ErrorKind::Network => "Network"@,
            ErrorKind::Nft => "Nft"@,
            ErrorKind::NotImplemented => "NotImplemented"@,
            ErrorKind::NotSupported => "NotSupported"@,
            ErrorKind::Numerical => "Numerical"@,
            ErrorKind::OutOfRange => "OutOfRange"@,
            ErrorKind::PoisonError => "PoisonError"@,
            ErrorKind::PostProcessing => "PostProcessing"@,
            ErrorKind::Prometheus => "Prometheus"@,
            ErrorKind::ResourceUnavailable => "ResourceUnavailable"@,
            ErrorKind::Serialisation => "Serialisation"@,
            ErrorKind::Tracing => "Tracing"@,
            ErrorKind::TrafficGuard => "TrafficGuard"@,
            ErrorKind::Validation => "Validation"@,
        }
    }

    /// The name of the kind, as it is displayed.
    pub fn as_str(&self) -> (r: &'static str)
        ensures
            r@ == self.name(),
    {
        match self {
            ErrorKind::ConfigParse => "ConfigParse",
            ErrorKind::Conversion => "Conversion",
            ErrorKind::CryptoSetup => "CryptoSetup",
            ErrorKind::Database => "Database",
            ErrorKind::EnvVar => "EnvVar",
            ErrorKind::InconsistentData => "InconsistentData",
            ErrorKind::IntraprocessCommunication => "IntraprocessCommunication",
            ErrorKind::Io => "Io",
            ErrorKind::JoinError => "JoinError",
            ErrorKind::Lapin => "Lapin",
            ErrorKind::Neo4j => "Neo4j",
            ErrorKind::Network => "Network",
            ErrorKind::Nft => "Nft",
            ErrorKind::NotImplemented => "NotImplemented",
            ErrorKind::NotSupported => "NotSupported",
            ErrorKind::Numerical => "Numerical",
            ErrorKind::OutOfRange => "OutOfRange",
            ErrorKind::PoisonError => "PoisonError",
            ErrorKind::PostProcessing => "PostProcessing",
            ErrorKind::Prometheus => "Prometheus",
            ErrorKind::ResourceUnavailable => "ResourceUnavailable",
            ErrorKind::Serialisation => "Serialisation",
            ErrorKind::Tracing => "Tracing",
            ErrorKind::TrafficGuard => "TrafficGuard",
            ErrorKind::Validation => "Validation",
        }
    }
}

/// An error: its kind and a message.
#[derive(Clone, Debug, PartialEq, Eq)]
pub struct Error {
    pub error_kind: ErrorKind,
    pub msg: String,
}

impl Error {
    /// An error of the given kind with the given message.
    pub fn new(error_kind: ErrorKind, msg: String) -> (r: Self)
        ensures
            r.error_kind == error_kind,
            r.msg@ == msg@,
    {
        Error { error_kind, msg }
    }

    /// The kind of the error.
    pub fn kind(&self) -> (r: ErrorKind)
        ensures
            r == self.error_kind,
    {
        self.error_kind
    }

    /// The text of the error: its kind and its message.
    pub fn describe(&self) -> (r: String)
        ensures
            r@ == "Type: '"@ + self.error_kind.name() + "' | Msg: '"@ + self.msg@ + "'"@,
    {
        let mut out = String::new();
        out.append("Type: '");
        out.append(self.error_kind.as_str());
        out.append("' | Msg: '");
        out.append(self.msg.as_str());
        out.append("'");
        proof {
            assert(out@ =~= "Type: '"@ + self.error_kind.name() + "' | Msg: '"@ + self.msg@ + "'"@);
        }
        out
    }
}

/// An unexpected error of the post-processing service.
#[derive(Debug)]
pub enum PpaasError {
    Other,
}

impl PpaasError {
    /// The text of the error, a line.
    pub fn describe(&self) -> (r: String)
        ensures
            r@ == "Unexpected PPaaS error!\n"@,
    {
        let mut out = String::new();
        out.append("Unexpected PPaaS error!\n");
        proof {
            assert(out@ =~= "Unexpected PPaaS error!\n"@);
        }
        out
    }
}

} // verus!
