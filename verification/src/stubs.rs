//! The values that travel between the controller, the broker and the workers.
use vstd::prelude::*;
use indexmap::IndexSet;
use std::hash::RandomState;
use crate::function_call::{call_type_code, CallType, FunctionCall};
use crate::index_set::{presized, set_items, set_new};

verus! {

/// The parameters of a run of the Game of Life, as the broker receives them.
#[derive(Clone, Debug)]
pub struct Params {
    pub incoming_ip_address: String,
    pub turns: u32,
    pub threads: u32,
    pub image_size: u32,
}

impl Params {
    pub fn new() -> (r: Self)
        ensures
            r.incoming_ip_address@ == "127.0.0.1:8182"@,
            r.turns == 0,
            r.threads == 0,
            r.image_size == 100,
    {
        Self {
            incoming_ip_address: String::from_str("127.0.0.1:8182"),
            turns: 0,
            threads: 0,
            image_size: 100,
        }
    }
}

/// A free-text report.
pub struct StatusReport {
    pub message: String,
}

/// A request to run the Game of Life on a world of alive cells.
pub struct GOLRequest {
    pub params: Params,
    pub alive_cells: IndexSet<u32, RandomState>,
}

impl GOLRequest {
    /// A request with no alive cells yet, with room for `length` of them.
    pub fn new(params: Params, length: usize) -> (r: Self)
        ensures
            r.params == params,
            set_items(r.alive_cells) == Seq::<u32>::empty(),
    {
        Self { params, alive_cells: presized(length) }
    }
}

/// The state of a run: its world and where it stands.
pub struct GOLResponse {
    pub alive_count: u32,
    pub current_turn: u32,
    pub paused: bool,
    pub world: IndexSet<u32, RandomState>,
}

impl GOLResponse {
    pub fn new_empty() -> (r: Self)
        ensures
            set_items(r.world) == Seq::<u32>::empty(),
            r.current_turn == 0,
            r.alive_count == 0,
            r.paused == false,
    {
        Self { world: set_new(), current_turn: 0, alive_count: 0, paused: false }
    }

    pub fn new(length: usize, current_turn: u32, alive_count: u32, paused: bool) -> (r: Self)
        ensures
            set_items(r.world) == Seq::<u32>::empty(),
            r.current_turn == current_turn,
            r.alive_count == alive_count,
            r.paused == paused,
    {
        Self { world: presized(length), current_turn, alive_count, paused }
    }
}

/// A request to compute the next state of the rows `y1..=y2` of a world.
pub struct ProcessSliceArgs {
    pub image_size: u32,
    pub threads: u8,
    pub y1: u16,
    pub y2: u16,
    pub alive_cells: IndexSet<u32, RandomState>,
}

impl ProcessSliceArgs {
    pub fn new(image_size: u32, threads: u8, y1: u16, y2: u16, capacity: usize) -> (r: Self)
        ensures
            r.image_size == image_size,
            r.threads == threads,
            r.y1 == y1,
            r.y2 == y2,
            set_items(r.alive_cells) == Seq::<u32>::empty(),
    {
        Self { image_size, threads, y1, y2, alive_cells: presized(capacity) }
    }
}

/// The alive cells that a worker computed for its rows.
pub struct ProcessSliceGOLResponse {
    pub alive_cells: IndexSet<u32, RandomState>,
}

/// The header fields of a message to be sent.
#[derive(Debug)]
pub struct PacketParams {
    pub call_type: u8,
    pub turns: u32,
    pub threads: u8,
    pub sender_ip: String,
    pub y1: u16,
    pub y2: u16,
    pub fn_call_id: u8,
    pub msg_id: u16,
    pub image_size: u16,
}

impl PacketParams {
    /// The header fields of the request that the broker sends a worker for the rows
    /// `y1..=y2`.
    pub fn for_slice_request(image_size: u32, threads: u8, y1: u16, y2: u16) -> (r: Self)
        ensures
            r.call_type == call_type_code(CallType::Rpc),
            r.threads == threads,
            r.turns == 0,
            r.y1 == y1,
            r.y2 == y2,
            r.sender_ip@ == "127.0.0.1:8030"@,
            r.fn_call_id == FunctionCall::PROCESS_SLICE,
            r.msg_id == 0,
            r.image_size == image_size as u16,
    {
        PacketParams {
            call_type: u8::from(CallType::Rpc),
            threads,
            turns: 0,
            y1,
            y2,
            sender_ip: String::from_str("127.0.0.1:8030"),
            fn_call_id: FunctionCall::PROCESS_SLICE,
            msg_id: 0,
            image_size: image_size as u16,
        }
    }

    /// The header fields of the broker's answer to a `process_gol` call: the request's
    /// turns, threads, rows and image size, sent from `sender_ip`.
    pub fn for_gol_response(turns: u32, threads: u8, y1: u16, y2: u16, image_size: u16, sender_ip: String) -> (r: Self)
        ensures
            r.call_type == call_type_code(CallType::Rpc),
            r.turns == turns,
            r.threads == threads,
            r.y1 == y1,
            r.y2 == y2,
            r.sender_ip == sender_ip,
            r.fn_call_id == FunctionCall::NONE,
            r.msg_id == 0,
            r.image_size == image_size,
    {
        PacketParams {
            call_type: u8::from(CallType::Rpc),
            turns,
            threads,
            y1,
            y2,
            sender_ip,
            fn_call_id: FunctionCall::NONE,
            msg_id: 0,
            image_size,
        }
    }

    /// The header fields of the controller's `process_gol` call to the broker at
    /// `broker_addr`, for a run of `turns` turns on `threads` workers.
    pub fn for_process_gol(turns: usize, threads: usize, image_width: usize, broker_addr: String) -> (r: Self)
        ensures
            r.call_type == call_type_code(CallType::Rpc),
            r.turns == turns as u32,
            r.threads == threads as u8,
            r.y1 == 0,
            r.y2 == 0,
            r.sender_ip == broker_addr,
            r.fn_call_id == FunctionCall::PROCESS_GOL,
            r.msg_id == 0,
            r.image_size == image_width as u16,
    {
        PacketParams {
            call_type: u8::from(CallType::Rpc),
            turns: turns as u32,
            threads: threads as u8,
            y1: 0,
            y2: 0,
            sender_ip: broker_addr,
            fn_call_id: FunctionCall::PROCESS_GOL,
            msg_id: 0,
            image_size: image_width as u16,
        }
    }
}

} // verus!
