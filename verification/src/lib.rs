//! Data-plane core of a Real-Time Publish-Subscribe endpoint pair: the
//! history cache, the submessage codec, the writer and reader reliability
//! logic, and the decisions of the transport dispatch loops.

pub mod types;
pub mod cache;
pub mod message;
pub mod codec;
pub mod datagram;
pub mod reader;
pub mod writer;
pub mod queue;
pub mod dispatch;
