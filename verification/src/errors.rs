//! The error types of the library's components, and their messages.
use vstd::prelude::*;

verus! {

/// `std::io::Error`, carried through unchanged.
#[verifier::external_type_specification]
#[verifier::external_body]
pub struct ExIoError(std::io::Error);

/// The display text of an I/O error, which the operating system supplies.
pub open spec fn is_io_text(e: &std::io::Error, text: Seq<char>) -> bool {
    exists|t: String| vstd::string::to_string_from_display_ensures::<std::io::Error>(e, t) && t@ == text
}

fn io_error_text(e: &std::io::Error) -> (r: String)
    ensures
        is_io_text(e, r@),
{
    e.to_string()
}

fn join(prefix: &str, text: &str) -> (r: String)
    ensures
        r@ == prefix@ + text@,
{
    let mut r = String::from_str(prefix);
    r.append(text);
    r
}

/// Failures while reading or writing a message.
#[derive(Debug)]
pub enum DecodeError {
    Io(std::io::Error),
    Other(String),
}

impl DecodeError {
    /// The message that the error displays.
    pub fn to_string(&self) -> (r: String)
        ensures
            match self {
                DecodeError::Io(e) => exists|t: Seq<char>| is_io_text(e, t) && r@ == "IO error: "@ + t,
                DecodeError::Other(msg) => r@ == "Error: "@ + msg@,
            },
    {
        match self {
            DecodeError::Io(e) => {
                let t = io_error_text(e);
                join("IO error: ", t.as_str())
            },
            DecodeError::Other(msg) => join("Error: ", msg.as_str()),
        }
    }
}

/// Failures of a remote call.
#[derive(Debug)]
pub enum RpcError {
    Io(std::io::Error),
    Other(String),
    HandlerNotFound,
}

impl RpcError {
    /// The message that the error displays.
    pub fn to_string(&self) -> (r: String)
        ensures
            match self {
                RpcError::Io(e) => exists|t: Seq<char>| is_io_text(e, t) && r@ == "IO error: "@ + t,
                RpcError::Other(msg) => r@ == "Error: "@ + msg@,
                RpcError::HandlerNotFound => r@ == "Function handler not found in register handlers!"@,
            },
    {
        match self {
            RpcError::Io(e) => {
                let t = io_error_text(e);
                join("IO error: ", t.as_str())
            },
            RpcError::Other(msg) => join("Error: ", msg.as_str()),
            RpcError::HandlerNotFound => String::from_str(
                "Function handler not found in register handlers!",
            ),
        }
    }
}

/// Failures of the broker.
#[derive(Debug)]
pub enum BrokerErr {
    Io(std::io::Error),
    Other(String),
    ConnectionError(String, std::io::Error),
}

impl BrokerErr {
    /// The message that the error displays.
    pub fn to_string(&self) -> (r: String)
        ensures
            match self {
                BrokerErr::Io(e) => exists|t: Seq<char>| is_io_text(e, t) && r@ == "IO error: "@ + t,
                BrokerErr::Other(msg) => r@ == "Error: "@ + msg@,
                BrokerErr::ConnectionError(msg, e) => exists|t: Seq<char>|
                    is_io_text(e, t) && r@ == "Error: "@ + msg@ + " "@ + t,
            },
    {
        match self {
            BrokerErr::Io(e) => {
                let t = io_error_text(e);
                join("IO error: ", t.as_str())
            },
            BrokerErr::Other(msg) => join("Error: ", msg.as_str()),
            BrokerErr::ConnectionError(msg, e) => {
                let t = io_error_text(e);
                let mut r = join("Error: ", msg.as_str());
                r.append(" ");
                r.append(t.as_str());
                r
            },
        }
    }
}

impl From<DecodeError> for BrokerErr {
    fn from(error: DecodeError) -> (r: Self) {
        match error {
            DecodeError::Io(e) => BrokerErr::Io(e),
            DecodeError::Other(msg) => BrokerErr::Other(msg),
        }
    }
}

impl vstd::std_specs::convert::FromSpecImpl<DecodeError> for BrokerErr {
    open spec fn obeys_from_spec() -> bool {
        true
    }

    open spec fn from_spec(v: DecodeError) -> Self {
        match v {
            DecodeError::Io(e) => BrokerErr::Io(e),
            DecodeError::Other(msg) => BrokerErr::Other(msg),
        }
    }
}

/// Failures of a worker.
#[derive(Debug)]
pub enum WorkerErr {
    Io(std::io::Error),
    Other(String),
    ConnectionError(&'static str, std::io::Error),
}

impl WorkerErr {
    /// The message that the error displays.
    pub fn to_string(&self) -> (r: String)
        ensures
            match self {
                WorkerErr::Io(e) => exists|t: Seq<char>| is_io_text(e, t) && r@ == "IO error: "@ + t,
                WorkerErr::Other(msg) => r@ == "Error: "@ + msg@,
                WorkerErr::ConnectionError(msg, e) => exists|t: Seq<char>|
                    is_io_text(e, t) && r@ == "Error: "@ + msg@ + " "@ + t,
            },
    {
        match self {
            WorkerErr::Io(e) => {
                let t = io_error_text(e);
                join("IO error: ", t.as_str())
            },
            WorkerErr::Other(msg) => join("Error: ", msg.as_str()),
            WorkerErr::ConnectionError(msg, e) => {
                let t = io_error_text(e);
                let mut r = join("Error: ", msg);
                r.append(" ");
                r.append(t.as_str());
                r
            },
        }
    }
}

impl From<DecodeError> for WorkerErr {
    fn from(error: DecodeError) -> (r: Self) {
        match error {
            DecodeError::Io(e) => WorkerErr::Io(e),
            DecodeError::Other(msg) => WorkerErr::Other(msg),
        }
    }
}

impl vstd::std_specs::convert::FromSpecImpl<DecodeError> for WorkerErr {
    open spec fn obeys_from_spec() -> bool {
        true
    }

    open spec fn from_spec(v: DecodeError) -> Self {
        match v {
            DecodeError::Io(e) => WorkerErr::Io(e),
            DecodeError::Other(msg) => WorkerErr::Other(msg),
        }
    }
}

/// Failures of the controller's distributor.
#[derive(Debug)]
pub enum DistributorErr {
    Io(std::io::Error),
    Other(String),
    ConnectionError(String, std::io::Error),
}

impl DistributorErr {
    /// The message that the error displays.
    pub fn to_string(&self) -> (r: String)
        ensures
            match self {
                DistributorErr::Io(e) => exists|t: Seq<char>|
                    is_io_text(e, t) && r@ == "IO error: "@ + t,
                DistributorErr::Other(msg) => r@ == "Error: "@ + msg@,
                DistributorErr::ConnectionError(msg, e) => exists|t: Seq<char>|
                    is_io_text(e, t) && r@ == "Error: "@ + msg@ + " "@ + t,
            },
    {
        match self {
            DistributorErr::Io(e) => {
                let t = io_error_text(e);
                join("IO error: ", t.as_str())
            },
            DistributorErr::Other(msg) => join("Error: ", msg.as_str()),
            DistributorErr::ConnectionError(msg, e) => {
                let t = io_error_text(e);
                let mut r = join("Error: ", msg.as_str());
                r.append(" ");
                r.append(t.as_str());
                r
            },
        }
    }
}

} // verus!
