//! The remote calls and the types of their arguments and answers.
use vstd::prelude::*;
use crate::stubs::{GOLRequest, GOLResponse, ProcessSliceArgs, ProcessSliceGOLResponse};

verus! {

/// A call that the controller makes on the broker.
pub struct BrokerCall;

/// A call that the broker makes on a worker for a whole world.
pub struct WorkerCall;

/// A call that the broker makes on a worker for a slice of rows.
pub struct ProcessSliceCall;

/// The argument and answer types of a remote call.
pub trait RpcCall {
    type Input: Send;

    type Output: Send;
}

impl RpcCall for BrokerCall {
    type Input = GOLRequest;

    type Output = GOLResponse;
}

impl RpcCall for WorkerCall {
    type Input = GOLRequest;

    type Output = GOLResponse;
}

impl RpcCall for ProcessSliceCall {
    type Input = ProcessSliceArgs;

    type Output = ProcessSliceGOLResponse;
}

} // verus!
