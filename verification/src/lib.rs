pub mod bits;
pub mod coordinates;
pub mod index_set;
pub mod packet;
pub mod payload;
pub mod function_call;
pub mod errors;
pub mod stubs;
pub mod wire;
pub mod cell;
pub mod worker;
pub mod gol;
pub mod controller;
pub mod broker;
pub mod rpc;
