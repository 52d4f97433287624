//! The session: everything a command works on, handed in and out as one
//! value.

use vstd::prelude::*;
use vstd::string::StringExecFns;
use crate::config::{Config, ConfigView};
use crate::endpoint::{Endpoint, EndpointView};
use crate::env::{default_name, empty_env, env_of, Env, EnvStore, EnvView, Envs};
use crate::error::QuartzError;
use crate::handle::{path_of, EndpointHandle, Path};
use crate::history::{Log, RequestHistory};
use crate::state::{scope_in_use, State, StateField, StateView};
use crate::tree::{EndpointTree, Stored};

verus! {

/// How a command ended.
#[derive(Debug, Clone, Copy, PartialEq, Eq, Structural)]
pub enum QuartzExitCode {
    Success,
    Error,
}

/// What a command has to say: what goes to the standard output, what goes
/// to the standard error, and how it ended.
pub struct Output {
    pub stdout: String,
    pub stderr: String,
    pub code: QuartzExitCode,
}

/// The model of a session.
pub struct CtxView {
    pub state: StateView,
    pub endpoints: Stored,
    pub envs: Envs,
    pub contexts: Envs,
    pub history: Log,
    pub config: ConfigView,
}

/// The session: the state, the endpoint tree, the environments, the
/// contexts, the history and the configuration.
pub struct Ctx {
    pub state: State,
    pub endpoints: EndpointTree,
    pub envs: EnvStore,
    pub contexts: EnvStore,
    pub history: RequestHistory,
    pub config: Config,
}

impl View for Ctx {
    type V = CtxView;

    open spec fn view(&self) -> CtxView {
        CtxView {
            state: self.state@,
            endpoints: self.endpoints@,
            envs: self.envs@,
            contexts: self.contexts@,
            history: self.history@,
            config: self.config@,
        }
    }
}

/// The path of the handle in use.
pub open spec fn handle_in_use(c: CtxView) -> Option<Path> {
    match c.state.endpoint {
        Some(h) => Some(path_of(h)),
        None => None,
    }
}

/// The endpoint that the node in use stores.
pub open spec fn endpoint_in_use(c: CtxView) -> Option<EndpointView> {
    match handle_in_use(c) {
        Some(p) => if c.endpoints.dom().contains(p) {
            c.endpoints[p]
        } else {
            None
        },
        None => None,
    }
}

/// The environment in use: the one that the state names, or the default
/// one where it names none.
pub open spec fn env_in_use(c: CtxView) -> Option<EnvView> {
    env_of(c.envs, scope_in_use(c.state, StateField::Env))
}

/// The context in use.
pub open spec fn context_in_use(c: CtxView) -> Option<EnvView> {
    env_of(c.contexts, scope_in_use(c.state, StateField::Context))
}

/// The session with `e` stored at the node in use.
pub open spec fn with_endpoint(c: CtxView, e: EndpointView) -> CtxView {
    CtxView { endpoints: c.endpoints.insert(handle_in_use(c).unwrap(), Some(e)), ..c }
}

/// The session with `e` in the place of the environment of its name.
pub open spec fn with_env(c: CtxView, e: EnvView) -> CtxView {
    CtxView { envs: crate::env::put_env(c.envs, e), ..c }
}

impl Ctx {
    /// A new project: no endpoint, nothing in use, and the default context
    /// and environment with nothing in them.
    pub fn new() -> (c: Self)
        ensures
            c@.state == (StateView { endpoint: None, context: None, env: None }),
            c@.endpoints == Stored::empty(),
            c@.envs == seq![empty_env(default_name())],
            c@.contexts == seq![empty_env(default_name())],
            c@.history == Log::empty(),
            c@.config == (ConfigView { editor: "vim"@, colors: true }),
    {
        let mut envs = EnvStore::new();
        envs.put(Env::default());
        let mut contexts = EnvStore::new();
        contexts.put(Env::default());
        assert(envs@ =~= seq![empty_env(default_name())]);
        assert(contexts@ =~= seq![empty_env(default_name())]);
        Ctx {
            state: State::new(),
            endpoints: EndpointTree::new(),
            envs,
            contexts,
            history: RequestHistory::new(),
            config: Config::new(),
        }
    }

    /// The handle in use. There is none where none was chosen.
    pub fn require_handle(&self) -> (r: Result<EndpointHandle, QuartzError>)
        ensures
            match r {
                Ok(h) => handle_in_use(self@) == Some(h@),
                Err(e) => e == QuartzError::NotFound && handle_in_use(self@).is_none(),
            },
    {
        match &self.state.endpoint {
            Some(h) => Ok(EndpointHandle::from_handle(h.as_str())),
            None => Err(QuartzError::NotFound),
        }
    }

    /// The handle in use and the endpoint stored at it. There is none where
    /// no handle was chosen or the node stores no endpoint.
    pub fn require_endpoint(&self) -> (r: Result<(EndpointHandle, Endpoint), QuartzError>)
        ensures
            match r {
                Ok((h, e)) => handle_in_use(self@) == Some(h@) && endpoint_in_use(self@) == Some(
                    e@,
                ),
                Err(e) => e == QuartzError::NotFound && endpoint_in_use(self@).is_none(),
            },
    {
        match self.require_handle() {
            Ok(h) => match self.endpoints.endpoint(&h) {
                Some(e) => {
                    let copy = e.clone();
                    Ok((h, copy))
                },
                None => Err(QuartzError::NotFound),
            },
            Err(e) => Err(e),
        }
    }

    /// The environment in use. There is none where the store has none of
    /// the name in use.
    pub fn require_env(&self) -> (r: Result<Env, QuartzError>)
        ensures
            match r {
                Ok(env) => env_in_use(self@) == Some(env@),
                Err(e) => e == QuartzError::NotFound && env_in_use(self@).is_none(),
            },
    {
        let name = self.state.scope(StateField::Env);
        match self.envs.get(name.as_str()) {
            Some(env) => Ok(env.clone()),
            None => Err(QuartzError::NotFound),
        }
    }

    /// The context in use.
    pub fn require_context(&self) -> (r: Result<Env, QuartzError>)
        ensures
            match r {
                Ok(c) => context_in_use(self@) == Some(c@),
                Err(e) => e == QuartzError::NotFound && context_in_use(self@).is_none(),
            },
    {
        let name = self.state.scope(StateField::Context);
        match self.contexts.get(name.as_str()) {
            Some(c) => Ok(c.clone()),
            None => Err(QuartzError::NotFound),
        }
    }

    /// The name under which requests are sent where the endpoint names no
    /// agent of its own.
    pub fn user_agent() -> (agent: String)
        ensures
            agent@ == "quartz"@,
    {
        String::from_str("quartz")
    }
}

} // verus!
