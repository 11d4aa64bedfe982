//! A small in-memory key-value server core that speaks a Redis-like wire
//! protocol: the request decoder and reply encoder, the command
//! interpreter, the expiring store, and the snapshot decoder that seeds the
//! store at startup.

pub mod ascii;
pub mod text;
pub mod resp;
pub mod command;
pub mod reply;
pub mod store;
pub mod config;
pub mod rdb;
pub mod server;
pub mod roundtrip;
