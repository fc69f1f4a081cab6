//! A small key-value server library speaking the RESP wire protocol:
//! the frame codec, the connection framing state, the store with lazy
//! expiry, the command model and the per-connection dispatch decisions.

pub mod buf;
pub mod command;
pub mod connection;
pub mod db;
pub mod error;
pub mod resp;
pub mod round_trip;
pub mod server;
