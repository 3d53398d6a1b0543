//! An in-memory key-value store speaking a line and length-prefixed request
//! protocol: a resumable decoder, an encoder, a command interpreter and the
//! store that serves every connection.

pub mod buffer;
pub mod client;
pub mod encoder;
pub mod parser;
pub mod reader;
pub mod roundtrip;
pub mod storage;
pub mod types;
