//! A software bus: a publish/subscribe message router between the
//! applications of a node and the links that join it to other nodes.
//!
//! - `msg`: the envelope and its payloads;
//! - `wire` and `decode`: the frame format, written and read back;
//! - `stream`: length framing for byte streams;
//! - `link`: one link's subscriptions, sequence numbers and outgoing frames;
//! - `bus`: routing, heartbeat, relaying and logging over all links;
//! - `sch`: the scheduler that paces the other applications;
//! - `perf`: timing figures.
pub mod bus;
pub mod decode;
pub mod link;
pub mod msg;
pub mod perf;
pub mod sch;
pub mod stream;
pub mod wire;

pub use bus::{Cfe, SbApp};
pub use link::CfeConnection;
