//! Transport/session core of a client for a framed, multiplexed,
//! message-queuing wire protocol.
//!
//! The crate owns one duplex byte stream per logical connection, multiplexes
//! many logical channels over it, and bridges synchronous, poll-driven I/O to
//! a request/response model: callers enqueue a protocol method, obtain a
//! request id, and poll a correlator until the paired reply frame has been
//! parsed and recorded.

pub mod buffer;
pub mod connection;
pub mod driver;
pub mod frame;
pub mod script;
pub mod transport;
