//! Identifiers of the remote calls and of the kinds of message.
use vstd::prelude::*;

verus! {

/// The identifiers of the remote calls that a message can carry.
pub struct FunctionCall {}

impl FunctionCall {
    /// used to indicate no rpc function call is being called
    pub const NONE: u8 = 0;
    pub const PING: u8 = 1;
    pub const SUBSCRIBE: u8 = 4;
    pub const UNSUBSCRIBE: u8 = 5;
    pub const PROCESS_GOL: u8 = 8;
    pub const PROCESS_SLICE: u8 = 9;
    pub const COUNT_ALIVE: u8 = 10;
    pub const PAUSE: u8 = 12;
    pub const SCREENSHOT: u8 = 13;
    pub const QUIT: u8 = 14;
    pub const KILL: u8 = 15;
}

/// The kind of a message: a plain message, a remote call, or a worker's answer.
#[derive(Debug, Clone, PartialEq, Eq, Structural)]
pub enum CallType {
    Default,
    Rpc,
    WorkerResp,
}

/// The kind that a 4-bit type field names; unknown values read as `Default`.
pub open spec fn call_type_of(value: u8) -> CallType {
    if value == 1 {
        CallType::Rpc
    } else if value == 2 {
        CallType::WorkerResp
    } else {
        CallType::Default
    }
}

/// The value that the type field carries for a kind.
pub open spec fn call_type_code(c: CallType) -> u8 {
    match c {
        CallType::Default => 0,
        CallType::Rpc => 1,
        CallType::WorkerResp => 2,
    }
}

impl From<u8> for CallType {
    fn from(value: u8) -> (r: Self) {
        if value == 0 {
            CallType::Default
        } else if value == 1 {
            CallType::Rpc
        } else if value == 2 {
            CallType::WorkerResp
        } else {
            CallType::Default
        }
    }
}

impl vstd::std_specs::convert::FromSpecImpl<u8> for CallType {
    open spec fn obeys_from_spec() -> bool {
        true
    }

    open spec fn from_spec(v: u8) -> Self {
        call_type_of(v)
    }
}

impl From<CallType> for u8 {
    fn from(value: CallType) -> (r: u8) {
        match value {
            CallType::Default => 0,
            CallType::Rpc => 1,
            CallType::WorkerResp => 2,
        }
    }
}

impl vstd::std_specs::convert::FromSpecImpl<CallType> for u8 {
    open spec fn obeys_from_spec() -> bool {
        true
    }

    open spec fn from_spec(v: CallType) -> Self {
        call_type_code(v)
    }
}

/// A kind survives being written as its code and read back.
pub proof fn lemma_call_type_roundtrip(c: CallType)
    ensures
        call_type_of(call_type_code(c)) == c,
{
}

/// A code survives being read as a kind and written back exactly when it names a kind.
pub proof fn lemma_call_type_code_roundtrip(value: u8)
    ensures
        call_type_code(call_type_of(value)) == value <==> value <= 2,
{
}

} // verus!
