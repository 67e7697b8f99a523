//! A durable, append-only log engine: framed and checksummed segment images,
//! an operation log and a consensus log over them, and the codec of cluster
//! metadata operations carried by consensus entries.

pub mod checksum;
pub mod codec;
pub mod consensus;
pub mod frame;
pub mod generator;
pub mod le_bytes;
pub mod oplog;
pub mod segment;
