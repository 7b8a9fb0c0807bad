//! An in-memory key/value server core: the wire codec, the typed keyspace with
//! lazy expiry, the command layer, the append-only log replay and the pub/sub hub.
pub mod frame;
pub mod strmap;
pub mod glob;
pub mod db;
pub mod pubsub;
pub mod cmd;
pub mod persistence;
