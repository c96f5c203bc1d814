//! Per-location runtime of a choreographic workflow: the address directory,
//! the relay planner for broadcasts, the message header codec, and the
//! port and step logic of the dataflow layer.

pub mod config;
pub mod directory;
pub mod header;
pub mod inbox;
pub mod packet;
pub mod port;
pub mod relay;
pub mod step;
pub mod swirl;
pub mod text;
pub mod trace;
pub mod units;
