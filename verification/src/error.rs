//! The ways in which an operation of the library can fail.

use vstd::prelude::*;

verus! {

/// Why an operation could not be carried out.
#[derive(Debug, Clone, Copy, PartialEq, Eq, Structural)]
pub enum QuartzError {
    /// A handle, a scope, a history entry or a field that is not there.
    NotFound,
    /// Something was to be created under a name that is already taken.
    AlreadyExists,
    /// An input that cannot be used as what it is meant to be: a URL, a
    /// header name or value, a method, a key-value pair, a cookie file.
    MalformedInput,
    /// The storage could not be read or written.
    PersistenceFailure,
    /// The request could not be carried to the server or the answer back.
    TransportFailure,
    /// A chain of redirections went on beyond the allowed number of hops.
    TooManyRedirects,
}

} // verus!
