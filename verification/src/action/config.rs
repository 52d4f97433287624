//! The configuration.

use vstd::prelude::*;
use crate::cli::ConfigCommands;
use crate::config::{setting, with_setting};
use crate::ctx::{Ctx, CtxView};
use crate::error::QuartzError;

verus! {

/// What is to be done after a command on the configuration.
pub enum Next {
    /// Print this text.
    Say(String),
    /// Open the editor on the configuration file.
    Edit,
    /// Print the whole configuration file.
    List,
}

/// The model of what is to be done.
pub enum NextView {
    Say(Seq<char>),
    Edit,
    List,
}

impl View for Next {
    type V = NextView;

    open spec fn view(&self) -> NextView {
        match self {
            Next::Say(s) => NextView::Say(s@),
            Next::Edit => NextView::Edit,
            Next::List => NextView::List,
        }
    }
}

/// The session after a command on the configuration, and what is to be
/// done then. A key that names no setting is refused.
pub open spec fn configured(c: CtxView, command: ConfigCommands) -> (
    CtxView,
    Result<NextView, QuartzError>,
) {
    match command {
        ConfigCommands::Get { key } => (
            c,
            match setting(c.config, key@) {
                Some(v) => Ok(NextView::Say(v)),
                None => Err(QuartzError::MalformedInput),
            },
        ),
        ConfigCommands::Put { key, value } => match with_setting(c.config, key@, value@) {
            Some(config) => (CtxView { config, ..c }, Ok(NextView::Say(Seq::<char>::empty()))),
            None => (c, Err(QuartzError::MalformedInput)),
        },
        ConfigCommands::Edit => (c, Ok(NextView::Edit)),
        ConfigCommands::List => (c, Ok(NextView::List)),
    }
}

/// What an answer comes to as a model.
pub open spec fn next_of(r: Result<Next, QuartzError>) -> Result<NextView, QuartzError> {
    match r {
        Ok(n) => Ok(n@),
        Err(e) => Err(e),
    }
}

/// Carries out a command on the configuration and says what is to be done
/// then.
pub fn cmd(ctx: &mut Ctx, command: ConfigCommands) -> (r: Result<Next, QuartzError>)
    ensures
        final(ctx)@ == configured(old(ctx)@, command).0,
        next_of(r) == configured(old(ctx)@, command).1,
{
    match command {
        ConfigCommands::Get { key } => match ctx.config.get(key.as_str()) {
            Ok(v) => Ok(Next::Say(v)),
            Err(e) => Err(e),
        },
        ConfigCommands::Put { key, value } => match ctx.config.set(key.as_str(), value.as_str()) {
            Ok(_) => Ok(Next::Say(String::new())),
            Err(e) => Err(e),
        },
        ConfigCommands::Edit => Ok(Next::Edit),
        ConfigCommands::List => Ok(Next::List),
    }
}

} // verus!
