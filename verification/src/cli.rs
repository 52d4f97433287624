//! The commands that the library carries out, as plain values.

use vstd::prelude::*;

verus! {

/// What to print of the state.
pub enum StatusCommands {
    /// The handle of the endpoint in use.
    Endpoint,
    /// The context in use.
    Context,
}

/// What to print of the last request.
#[allow(inconsistent_fields)]
pub enum LastCommands {
    /// The handle that was used.
    Handle,
    /// The date of the request.
    Date,
    /// A part of the request.
    Request { command: LastRequestCommands },
    /// A part of the response.
    Response { command: LastResponseCommands },
}

/// The parts of a request.
pub enum LastRequestCommands {
    Url,
    Query,
    Method,
    Headers,
    Body,
    Context,
}

/// The parts of a response.
pub enum LastResponseCommands {
    Status,
    Headers,
    Body,
    Size,
}

/// What to do with the query parameters of the endpoint in use.
#[allow(inconsistent_fields)]
pub enum EndpointQueryCommands {
    /// Print the value of a parameter, or all of them as they stand in the URL.
    Get { key: Option<String> },
    /// Set parameters.
    Put { query: Vec<String> },
    /// Remove a parameter.
    Remove { key: String },
    /// List all parameters.
    List,
}

/// What to do with the headers of the endpoint or scope in use.
#[allow(inconsistent_fields)]
pub enum HeaderCmd {
    /// Print the value of a header.
    Get { key: String },
    /// Set headers.
    Put { header: Vec<String> },
    /// Remove headers.
    Rm { key: Vec<String> },
    /// List all headers.
    Ls,
}

/// What to show of the endpoint in use.
#[allow(inconsistent_fields)]
pub enum EndpointShowCommands {
    Url,
    Method,
    Headers { key: Option<String> },
    Query { key: Option<String> },
    Body,
}

/// What to do with the configuration.
#[allow(inconsistent_fields)]
pub enum ConfigCommands {
    /// Open an editor on the configuration file.
    Edit,
    /// Print a value.
    Get { key: String },
    /// Set a value.
    Put { key: String, value: String },
    /// Print the whole configuration.
    List,
}

/// What to do with the contexts.
#[allow(inconsistent_fields)]
pub enum ContextCommands {
    /// Create a context.
    Create { name: String },
    /// Switch to a context.
    Use { context: String },
    /// Print the contexts.
    List,
    /// Copy the variables of a context into another, new or not.
    Copy { src: String, dest: String },
    /// Delete a context.
    Remove { context: String },
}

/// What to do with the environments.
#[allow(inconsistent_fields)]
pub enum EnvCmd {
    /// Create an environment.
    Create(crate::action::env::CreateArgs),
    /// Copy the variables of an environment into another, new or not.
    Cp(crate::action::env::CpArgs),
    /// Switch to an environment.
    Use(crate::action::env::SwitchArgs),
    /// Print the environments.
    Ls,
    /// Delete an environment.
    Rm(crate::action::env::RmArgs),
    /// Work on the headers of the environment in use.
    Header { command: HeaderCmd },
}

} // verus!
