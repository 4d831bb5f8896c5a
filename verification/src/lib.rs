//! A small key-value store that speaks a line-based wire protocol: what is
//! read and written on a connection, what each command does to the store,
//! and what a server decides, each with its contract.
//!
//! The library opens no socket, starts no task and reads no clock. A caller
//! hands it the bytes that came in and the present moment, and sends the
//! bytes that it wrote. [`frame`] holds the wire format, [`connection`] the
//! buffers of a connection, [`parse`] and [`cmd`] the commands, [`db`] the
//! store, [`server`] and [`shutdown`] the decisions of a server, and
//! [`client`] the reading of answers. [`round_trip`] states what holds
//! between writing and reading. Other crates are called in [`buf`],
//! [`channel`] and [`number`] and nowhere else.

pub mod buf;
pub mod channel;
pub mod client;
pub mod cmd;
pub mod connection;
pub mod db;
pub mod frame;
pub mod number;
pub mod parse;
pub mod round_trip;
pub mod server;
pub mod shutdown;
pub mod text;

use vstd::prelude::*;

verus! {

/// The port a server listens on when none is given.
pub const DEFAULT_PORT: &'static str = "6379";

} // verus!
