//! A small reliable byte stream over datagrams: the wire format, the
//! per-connection state machine, and the decisions of the two stream ends.

pub mod arrival;
pub mod delivery;
pub mod effects;
pub mod flow;
pub mod frame;
pub mod inner;
pub mod laws;
pub mod model;
pub mod notices;
pub mod segment;
pub mod sending;
pub mod stream;
pub mod timeouts;
pub mod timing;
pub mod wire;
