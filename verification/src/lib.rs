//! A small Redis-compatible server core: the RESP frame reader and writer,
//! the command decoder and the key-value store with expiry.

pub mod buffers;
pub mod decimal;
pub mod frame;
pub mod text;
pub mod wire;
pub mod laws;
pub mod roundtrip;
pub mod connection;
pub mod db;
pub mod commands;
pub mod command;
pub mod config;
pub mod error;
pub mod session;
