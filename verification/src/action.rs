//! The commands: each takes the session, does its work on it and says what
//! is to be printed.

pub mod config;
pub mod env;
pub mod handle;
pub mod header;
pub mod history;
pub mod query;
pub mod send;
pub mod var;
