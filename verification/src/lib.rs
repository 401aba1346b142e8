//! An in-memory key-value store that speaks a line-oriented text protocol.
//!
//! A request passes through the modules in this order:
//!
//! - [`protocol`] decodes its bytes into tokens;
//! - [`commands`] reads the tokens as a command and carries it out on the
//!   [`store`];
//! - [`types`] holds the values that the store maps keys to, and encodes the
//!   value that a command replies;
//! - [`reply`] writes the reply: that encoding, an acknowledgement, or the
//!   report of an [`error`].
//!
//! [`decimal`] writes and reads the numerals of the protocol.

pub mod commands;
pub mod decimal;
pub mod error;
pub mod protocol;
pub mod reply;
pub mod store;
pub mod types;
