//! What is in use: the handle, the context and the environment that
//! commands work on when they are given none.

use vstd::prelude::*;
use vstd::string::StringExecFns;
use crate::env::default_name;
use crate::wire::opt_view;

verus! {

/// The fields of the state.
#[derive(Debug, Clone, Copy, PartialEq, Eq, Structural)]
pub enum StateField {
    Endpoint,
    Context,
    Env,
}

/// The model of the state.
pub struct StateView {
    pub endpoint: Option<Seq<char>>,
    pub context: Option<Seq<char>>,
    pub env: Option<Seq<char>>,
}

/// The state: each field holds a name, or nothing where none was chosen.
pub struct State {
    pub endpoint: Option<String>,
    pub context: Option<String>,
    pub env: Option<String>,
}

impl View for State {
    type V = StateView;

    open spec fn view(&self) -> StateView {
        StateView {
            endpoint: opt_view(self.endpoint),
            context: opt_view(self.context),
            env: opt_view(self.env),
        }
    }
}

/// What the field holds.
pub open spec fn field_of(s: StateView, field: StateField) -> Option<Seq<char>> {
    match field {
        StateField::Endpoint => s.endpoint,
        StateField::Context => s.context,
        StateField::Env => s.env,
    }
}

/// The state with the field set to `value`.
pub open spec fn with_field(s: StateView, field: StateField, value: Option<Seq<char>>) -> StateView {
    match field {
        StateField::Endpoint => StateView { endpoint: value, ..s },
        StateField::Context => StateView { context: value, ..s },
        StateField::Env => StateView { env: value, ..s },
    }
}

/// The name of the scope in use: the one the field holds, or the default
/// where it holds none.
pub open spec fn scope_in_use(s: StateView, field: StateField) -> Seq<char> {
    match field_of(s, field) {
        Some(name) => name,
        None => default_name(),
    }
}

impl State {
    /// The state in which nothing was chosen.
    pub fn new() -> (s: Self)
        ensures
            s@ == (StateView { endpoint: None, context: None, env: None }),
    {
        State { endpoint: None, context: None, env: None }
    }

    /// What the field holds.
    pub fn get(&self, field: StateField) -> (r: Option<&String>)
        ensures
            match r {
                Some(v) => field_of(self@, field) == Some(v@),
                None => field_of(self@, field).is_none(),
            },
    {
        match field {
            StateField::Endpoint => match &self.endpoint {
                Some(v) => Some(v),
                None => None,
            },
            StateField::Context => match &self.context {
                Some(v) => Some(v),
                None => None,
            },
            StateField::Env => match &self.env {
                Some(v) => Some(v),
                None => None,
            },
        }
    }

    /// Sets the field to `value`.
    pub fn set(&mut self, field: StateField, value: &str)
        ensures
            final(self)@ == with_field(old(self)@, field, Some(value@)),
    {
        let v = Some(value.to_owned());
        match field {
            StateField::Endpoint => {
                self.endpoint = v;
            },
            StateField::Context => {
                self.context = v;
            },
            StateField::Env => {
                self.env = v;
            },
        }
    }

    /// Empties the field.
    pub fn clear(&mut self, field: StateField)
        ensures
            final(self)@ == with_field(old(self)@, field, None),
    {
        match field {
            StateField::Endpoint => {
                self.endpoint = None;
            },
            StateField::Context => {
                self.context = None;
            },
            StateField::Env => {
                self.env = None;
            },
        }
    }

    /// The name of the scope in use: the default where none was chosen.
    pub fn scope(&self, field: StateField) -> (name: String)
        ensures
            name@ == scope_in_use(self@, field),
    {
        match self.get(field) {
            Some(v) => v.clone(),
            None => String::from_str("default"),
        }
    }
}

} // verus!
