//! A text-based API client kept in plain values: request templates in a
//! tree of handles, variable scopes that fill them in, the rules by which a
//! request is sent and redirected, and the history of what was sent.

use vstd::prelude::*;

pub mod action;
pub mod cli;
pub mod config;
pub mod cookie;
pub mod ctx;
pub mod endpoint;
pub mod env;
pub mod error;
pub mod handle;
pub mod headers;
pub mod history;
pub mod order;
pub mod pairs;
pub mod state;
pub mod template;
pub mod text;
pub mod tree;
pub mod wire;

pub use crate::ctx::{Ctx, Output, QuartzExitCode};
pub use crate::endpoint::Endpoint;
pub use crate::env::Env;
pub use crate::error::QuartzError;
pub use crate::handle::EndpointHandle;
pub use crate::pairs::PairMap;
pub use crate::state::StateField;

verus! {

/// What an operation of the library gives back.
pub type QuartzResult<T = (), E = QuartzError> = Result<T, E>;

} // verus!
