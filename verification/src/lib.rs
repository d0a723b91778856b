//! A codec and request engine for a RESP-style wire protocol: typed values,
//! their byte encoding, an incremental parser, a small command dispatcher and
//! the per-connection state machine that ties them together.

pub mod error;
pub mod value;
pub mod decimal;
pub mod encode;
pub mod parse;
pub mod laws;
pub mod command;
pub mod buffer;
pub mod connection;
