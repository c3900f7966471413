//! An in-memory key/value server speaking RESP, with primary/replica replication.
//!
//! The library holds the wire codec, the command table, the typed store with
//! lazy expiry, the role state and the command dispatcher. Sockets, tasks and
//! reading the clock live with the caller, which passes the time in.
use vstd::prelude::*;

pub mod client;
pub mod command;
pub mod decimal;
pub mod frame;
pub mod text;
pub mod payload;
pub mod protocol;
pub mod redis_type;
pub mod replication;
pub mod store;
pub mod traits;

pub use client::{ClientRole, CommandError, Outcome, RedisClient};
pub use command::Command;
pub use frame::ProtocolError;
pub use payload::{ContentError, Payload, PayloadVec, Value, DELIMITER};
pub use protocol::{RedisProtocolParser, Request};
pub use redis_type::{RedisType, Stream};
pub use store::KeyValueStore;
pub use traits::RedisEncodable;

verus! {

} // verus!
