use distributed_gol::errors::{BrokerErr, DecodeError, DistributorErr, RpcError, WorkerErr};
use distributed_gol::function_call::{CallType, FunctionCall};
use distributed_gol::stubs::{GOLRequest, GOLResponse, PacketParams, Params, ProcessSliceArgs};

#[test]
fn call_types_from_their_codes() {
    assert_eq!(CallType::from(0u8), CallType::Default);
    assert_eq!(CallType::from(1u8), CallType::Rpc);
    assert_eq!(CallType::from(2u8), CallType::WorkerResp);
    assert_eq!(CallType::from(3u8), CallType::Default);
    assert_eq!(CallType::from(15u8), CallType::Default);
}

#[test]
fn codes_of_call_types_round_trip() {
    for c in [CallType::Default, CallType::Rpc, CallType::WorkerResp] {
        assert_eq!(CallType::from(u8::from(c.clone())), c);
    }
    assert_eq!(u8::from(CallType::Default), 0);
    assert_eq!(u8::from(CallType::Rpc), 1);
    assert_eq!(u8::from(CallType::WorkerResp), 2);
}

#[test]
fn function_call_numbers() {
    assert_eq!(FunctionCall::NONE, 0);
    assert_eq!(FunctionCall::PING, 1);
    assert_eq!(FunctionCall::SUBSCRIBE, 4);
    assert_eq!(FunctionCall::UNSUBSCRIBE, 5);
    assert_eq!(FunctionCall::PROCESS_GOL, 8);
    assert_eq!(FunctionCall::PROCESS_SLICE, 9);
    assert_eq!(FunctionCall::COUNT_ALIVE, 10);
    assert_eq!(FunctionCall::PAUSE, 12);
    assert_eq!(FunctionCall::SCREENSHOT, 13);
    assert_eq!(FunctionCall::QUIT, 14);
    assert_eq!(FunctionCall::KILL, 15);
}

#[test]
fn error_messages() {
    assert_eq!(DecodeError::Other("bad".to_string()).to_string(), "Error: bad");
    assert_eq!(RpcError::Other("x".to_string()).to_string(), "Error: x");
    assert_eq!(
        RpcError::HandlerNotFound.to_string(),
        "Function handler not found in register handlers!"
    );
    assert_eq!(BrokerErr::Other("y".to_string()).to_string(), "Error: y");
    assert_eq!(WorkerErr::Other("z".to_string()).to_string(), "Error: z");
    assert_eq!(DistributorErr::Other("w".to_string()).to_string(), "Error: w");
}

#[test]
fn io_error_messages_carry_the_system_text() {
    let e = std::io::Error::new(std::io::ErrorKind::Other, "boom");
    assert_eq!(DecodeError::Io(e).to_string(), "IO error: boom");
    let e = std::io::Error::new(std::io::ErrorKind::Other, "boom");
    assert_eq!(RpcError::Io(e).to_string(), "IO error: boom");
    let e = std::io::Error::new(std::io::ErrorKind::Other, "boom");
    assert_eq!(BrokerErr::ConnectionError("no listener".to_string(), e).to_string(), "Error: no listener boom");
    let e = std::io::Error::new(std::io::ErrorKind::Other, "boom");
    assert_eq!(WorkerErr::ConnectionError("no broker", e).to_string(), "Error: no broker boom");
    let e = std::io::Error::new(std::io::ErrorKind::Other, "boom");
    assert_eq!(DistributorErr::Io(e).to_string(), "IO error: boom");
}

#[test]
fn decode_errors_convert_variant_for_variant() {
    assert!(matches!(BrokerErr::from(DecodeError::Other("m".to_string())), BrokerErr::Other(m) if m == "m"));
    assert!(matches!(WorkerErr::from(DecodeError::Other("n".to_string())), WorkerErr::Other(m) if m == "n"));
    let e = std::io::Error::new(std::io::ErrorKind::Other, "boom");
    assert!(matches!(WorkerErr::from(DecodeError::Io(e)), WorkerErr::Io(_)));
    let e = std::io::Error::new(std::io::ErrorKind::Other, "boom");
    assert!(matches!(BrokerErr::from(DecodeError::Io(e)), BrokerErr::Io(_)));
}

#[test]
fn default_params() {
    let p = Params::new();
    assert_eq!(p.incoming_ip_address, "127.0.0.1:8182");
    assert_eq!(p.turns, 0);
    assert_eq!(p.threads, 0);
    assert_eq!(p.image_size, 100);
}

#[test]
fn new_values_start_empty() {
    let r = GOLRequest::new(Params::new(), 10);
    assert!(r.alive_cells.is_empty());
    assert_eq!(r.params.image_size, 100);
    let e = GOLResponse::new_empty();
    assert!(e.world.is_empty());
    assert_eq!((e.current_turn, e.alive_count, e.paused), (0, 0, false));
    let g = GOLResponse::new(5, 3, 2, true);
    assert!(g.world.is_empty());
    assert_eq!((g.current_turn, g.alive_count, g.paused), (3, 2, true));
    let a = ProcessSliceArgs::new(16, 2, 4, 7, usize::MAX);
    assert!(a.alive_cells.is_empty());
    assert_eq!((a.image_size, a.threads, a.y1, a.y2), (16, 2, 4, 7));
}

#[test]
fn header_fields_of_a_slice_request() {
    let p = PacketParams::for_slice_request(16, 2, 4, 7);
    assert_eq!(p.call_type, 1);
    assert_eq!(p.fn_call_id, FunctionCall::PROCESS_SLICE);
    assert_eq!((p.threads, p.turns, p.y1, p.y2, p.msg_id, p.image_size), (2, 0, 4, 7, 0, 16));
    assert_eq!(p.sender_ip, "127.0.0.1:8030");
}

#[test]
fn header_fields_of_answers_and_calls() {
    let p = PacketParams::for_gol_response(9, 3, 1, 2, 64, "127.0.0.1:8030".to_string());
    assert_eq!((p.call_type, p.fn_call_id, p.turns, p.threads, p.y1, p.y2), (1, 0, 9, 3, 1, 2));
    assert_eq!((p.msg_id, p.image_size), (0, 64));
    assert_eq!(p.sender_ip, "127.0.0.1:8030");
    let q = PacketParams::for_process_gol(100, 4, 512, "127.0.0.1:8030".to_string());
    assert_eq!((q.call_type, q.fn_call_id, q.turns, q.threads, q.y1, q.y2), (1, 8, 100, 4, 0, 0));
    assert_eq!((q.msg_id, q.image_size), (0, 512));
}
