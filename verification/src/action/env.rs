//! The environments, and the headers of the environment in use.

use vstd::prelude::*;
use crate::action::header::{text_of, without_headers};
use crate::cli::{ContextCommands, EnvCmd, HeaderCmd};
use crate::ctx::{env_in_use, with_env, Ctx, CtxView};
use crate::endpoint::{all_headers, set_headers};
use crate::env::{copied, created, deleted, has_env, listed, EnvView};
use crate::error::QuartzError;
use crate::headers::header_of;
use crate::pairs::{listing, value_of};
use crate::state::{scope_in_use, with_field, StateField};
use crate::text;

verus! {

/// The environment to create.
pub struct CreateArgs {
    pub name: String,
}

/// The environment to copy variables from, and the one to copy them into.
pub struct CpArgs {
    pub src: String,
    pub dest: String,
}

/// The environment to put in use.
pub struct SwitchArgs {
    pub env: String,
}

/// The environment to delete.
pub struct RmArgs {
    pub env: String,
}

/// The session after a switch to the environment `name`, and whether it
/// could be made. An environment that is not there is created where
/// `create` allows it; where it does not, nothing changes and the switch
/// fails.
pub open spec fn switched(c: CtxView, name: Seq<char>, create: bool) -> (
    CtxView,
    Result<(), QuartzError>,
) {
    let name = text::trim(name);
    if has_env(c.envs, name) {
        (CtxView { state: with_field(c.state, StateField::Env, Some(name)), ..c }, Ok(()))
    } else if create {
        (
            CtxView {
                state: with_field(c.state, StateField::Env, Some(name)),
                envs: created(c.envs, name).0,
                ..c
            },
            Ok(()),
        )
    } else {
        (c, Err(QuartzError::NotFound))
    }
}

/// The session after `header_set`, and what `header_set` answers.
pub open spec fn env_headers_set(c: CtxView, inputs: Seq<Seq<char>>) -> (
    CtxView,
    Result<(), QuartzError>,
) {
    match env_in_use(c) {
        Some(e) => if all_headers(inputs) {
            (with_env(c, EnvView { headers: set_headers(e.headers, inputs), ..e }), Ok(()))
        } else {
            (c, Err(QuartzError::MalformedInput))
        },
        None => (c, Err(QuartzError::NotFound)),
    }
}

/// The session after `header_rm`, and what `header_rm` answers.
pub open spec fn env_headers_removed(c: CtxView, keys: Seq<Seq<char>>) -> (
    CtxView,
    Result<(), QuartzError>,
) {
    match env_in_use(c) {
        Some(e) => (with_env(c, EnvView { headers: without_headers(e.headers, keys), ..e }), Ok(())),
        None => (c, Err(QuartzError::NotFound)),
    }
}

/// What `header_get` answers.
pub open spec fn env_header_value(c: CtxView, key: Seq<char>) -> Result<Seq<char>, QuartzError> {
    match env_in_use(c) {
        Some(e) => match value_of(e.headers, text::lowercase(key)) {
            Some(v) => Ok(v),
            None => Err(QuartzError::NotFound),
        },
        None => Err(QuartzError::NotFound),
    }
}

/// What `header_ls` answers.
pub open spec fn env_headers_listed(c: CtxView) -> Result<Seq<char>, QuartzError> {
    match env_in_use(c) {
        Some(e) => Ok(listing(e.headers, seq![':', ' '])),
        None => Err(QuartzError::NotFound),
    }
}

/// The session after a command on the environments, and what the command
/// answers: the text to print, or why it failed.
pub open spec fn env_cmd(c: CtxView, command: EnvCmd, create: bool) -> (
    CtxView,
    Result<Seq<char>, QuartzError>,
) {
    match command {
        EnvCmd::Create(args) => (
            CtxView { envs: created(c.envs, args.name@).0, ..c },
            silent(created(c.envs, args.name@).1),
        ),
        EnvCmd::Cp(args) => (
            CtxView { envs: copied(c.envs, args.src@, args.dest@).0, ..c },
            silent(copied(c.envs, args.src@, args.dest@).1),
        ),
        EnvCmd::Use(args) => (
            switched(c, args.env@, create).0,
            silent(switched(c, args.env@, create).1),
        ),
        EnvCmd::Ls => (c, Ok(listed(c.envs, scope_in_use(c.state, StateField::Env)))),
        EnvCmd::Rm(args) => (
            CtxView { envs: deleted(c.envs, args.env@).0, ..c },
            silent(deleted(c.envs, args.env@).1),
        ),
        EnvCmd::Header { command } => match command {
            HeaderCmd::Put { header } => (
                env_headers_set(c, header.deep_view()).0,
                silent(env_headers_set(c, header.deep_view()).1),
            ),
            HeaderCmd::Ls => (c, env_headers_listed(c)),
            HeaderCmd::Rm { key } => (
                env_headers_removed(c, key.deep_view()).0,
                silent(env_headers_removed(c, key.deep_view()).1),
            ),
            HeaderCmd::Get { key } => (c, env_header_value(c, key@)),
        },
    }
}

/// The answer of a command that prints nothing.
pub open spec fn silent(r: Result<(), QuartzError>) -> Result<Seq<char>, QuartzError> {
    match r {
        Ok(_) => Ok(Seq::<char>::empty()),
        Err(e) => Err(e),
    }
}

fn quiet(r: Result<(), QuartzError>) -> (out: Result<String, QuartzError>)
    ensures
        text_of(out) == silent(r),
{
    match r {
        Ok(_) => Ok(String::new()),
        Err(e) => Err(e),
    }
}

/// Carries out a command on the environments and gives what is to be
/// printed. `create` says whether a switch may create the environment it
/// switches to.
pub fn cmd(ctx: &mut Ctx, command: EnvCmd, create: bool) -> (r: Result<String, QuartzError>)
    ensures
        final(ctx)@ == env_cmd(old(ctx)@, command, create).0,
        text_of(r) == env_cmd(old(ctx)@, command, create).1,
{
    match command {
        EnvCmd::Create(args) => quiet(self::create(ctx, args)),
        EnvCmd::Cp(args) => quiet(cp(ctx, args)),
        EnvCmd::Use(args) => quiet(switch(ctx, args, create)),
        EnvCmd::Ls => Ok(ls(ctx)),
        EnvCmd::Rm(args) => quiet(rm(ctx, args)),
        EnvCmd::Header { command } => match command {
            HeaderCmd::Put { header } => quiet(header_set(ctx, header)),
            HeaderCmd::Ls => header_ls(ctx),
            HeaderCmd::Rm { key } => quiet(header_rm(ctx, key)),
            HeaderCmd::Get { key } => header_get(ctx, key),
        },
    }
}

/// Creates an environment. A name that is taken is refused.
pub fn create(ctx: &mut Ctx, args: CreateArgs) -> (r: Result<(), QuartzError>)
    ensures
        final(ctx)@ == (CtxView { envs: created(old(ctx)@.envs, args.name@).0, ..old(ctx)@ }),
        r == created(old(ctx)@.envs, args.name@).1,
{
    ctx.envs.create(args.name.as_str())
}

/// Copies the variables of an environment into another, which is created
/// where it is not there.
pub fn cp(ctx: &mut Ctx, args: CpArgs) -> (r: Result<(), QuartzError>)
    ensures
        final(ctx)@ == (CtxView {
            envs: copied(old(ctx)@.envs, args.src@, args.dest@).0,
            ..old(ctx)@
        }),
        r == copied(old(ctx)@.envs, args.src@, args.dest@).1,
{
    ctx.envs.copy(args.src.as_str(), args.dest.as_str())
}

/// Puts an environment in use. One that is not there is created first
/// where `create` allows it; where it does not, the switch fails.
pub fn switch(ctx: &mut Ctx, args: SwitchArgs, create: bool) -> (r: Result<(), QuartzError>)
    ensures
        final(ctx)@ == switched(old(ctx)@, args.env@, create).0,
        r == switched(old(ctx)@, args.env@, create).1,
{
    let name = text::trim_newline(args.env.as_str());
    proof {
        text::lemma_trim(args.env@);
    }
    if !ctx.envs.contains(name.as_str()) {
        if create {
            let _ = ctx.envs.create(name.as_str());
        } else {
            return Err(QuartzError::NotFound);
        }
    }
    ctx.state.set(StateField::Env, name.as_str());
    Ok(())
}

/// The list of the environments, the one in use marked.
pub fn ls(ctx: &Ctx) -> (out: String)
    ensures
        out@ == listed(ctx@.envs, scope_in_use(ctx@.state, StateField::Env)),
{
    let in_use = ctx.state.scope(StateField::Env);
    ctx.envs.list(in_use.as_str())
}

/// Deletes an environment. One that is not there is not found.
pub fn rm(ctx: &mut Ctx, args: RmArgs) -> (r: Result<(), QuartzError>)
    ensures
        final(ctx)@ == (CtxView { envs: deleted(old(ctx)@.envs, args.env@).0, ..old(ctx)@ }),
        r == deleted(old(ctx)@.envs, args.env@).1,
{
    ctx.envs.delete(args.env.as_str())
}

/// The name of the environment in use.
pub fn print(ctx: &Ctx) -> (out: String)
    ensures
        out@ == scope_in_use(ctx@.state, StateField::Env),
{
    ctx.state.scope(StateField::Env)
}

/// Sets each header given as `<key>: <value>` on the environment in use.
/// An input of another form is refused, and then nothing is changed.
pub fn header_set(ctx: &mut Ctx, args: Vec<String>) -> (r: Result<(), QuartzError>)
    ensures
        final(ctx)@ == env_headers_set(old(ctx)@, args.deep_view()).0,
        r == env_headers_set(old(ctx)@, args.deep_view()).1,
{
    match ctx.require_env() {
        Ok(env) => {
            let mut env = env;
            let mut i: usize = 0;
            let ghost all = args.deep_view();
            let ghost start = env@;
            assert(all.take(0) == Seq::<Seq<char>>::empty());
            while i < args.len()
                invariant
                    i <= args.len(),
                    all == args.deep_view(),
                    all_headers(all.take(i as int)),
                    ctx@ == old(ctx)@,
                    env_in_use(old(ctx)@) == Some(start),
                    env@ == (EnvView {
                        headers: set_headers(start.headers, all.take(i as int)),
                        ..start
                    }),
                decreases args.len() - i,
            {
                proof {
                    let t = all.take(i + 1);
                    assert(t.drop_last() == all.take(i as int));
                    assert(t.last() == args[i as int]@);
                }
                match env.headers.set(args[i].as_str()) {
                    Ok(_) => {},
                    Err(e) => {
                        assert(header_of(all[i as int]).is_none());
                        return Err(QuartzError::MalformedInput);
                    },
                }
                i += 1;
                assert forall|j: int| 0 <= j < i implies header_of(
                    #[trigger] all.take(i as int)[j],
                ).is_some() by {
                    if j < i - 1 {
                        assert(all.take(i - 1)[j] == all[j]);
                    }
                }
            }
            assert(all.take(all.len() as int) == all);
            ctx.envs.put(env);
            Ok(())
        },
        Err(e) => Err(e),
    }
}

/// The headers of the environment in use, one a line.
pub fn header_ls(ctx: &Ctx) -> (r: Result<String, QuartzError>)
    ensures
        text_of(r) == env_headers_listed(ctx@),
{
    match ctx.require_env() {
        Ok(env) => Ok(env.headers.render()),
        Err(e) => Err(e),
    }
}

/// Removes each of the headers from the environment in use.
pub fn header_rm(ctx: &mut Ctx, keys: Vec<String>) -> (r: Result<(), QuartzError>)
    ensures
        final(ctx)@ == env_headers_removed(old(ctx)@, keys.deep_view()).0,
        r == env_headers_removed(old(ctx)@, keys.deep_view()).1,
{
    match ctx.require_env() {
        Ok(env) => {
            let mut env = env;
            let mut i: usize = 0;
            let ghost all = keys.deep_view();
            let ghost start = env@;
            assert(all.take(0) == Seq::<Seq<char>>::empty());
            while i < keys.len()
                invariant
                    i <= keys.len(),
                    all == keys.deep_view(),
                    env@ == (EnvView {
                        headers: without_headers(start.headers, all.take(i as int)),
                        ..start
                    }),
                decreases keys.len() - i,
            {
                proof {
                    let t = all.take(i + 1);
                    assert(t.drop_last() == all.take(i as int));
                    assert(t.last() == keys[i as int]@);
                }
                env.headers.remove(keys[i].as_str());
                i += 1;
            }
            assert(all.take(all.len() as int) == all);
            ctx.envs.put(env);
            Ok(())
        },
        Err(e) => Err(e),
    }
}

/// The value of the header `key` of the environment in use.
pub fn header_get(ctx: &Ctx, key: String) -> (r: Result<String, QuartzError>)
    ensures
        text_of(r) == env_header_value(ctx@, key@),
{
    match ctx.require_env() {
        Ok(env) => match env.headers.get(key.as_str()) {
            Some(v) => Ok(v.clone()),
            None => Err(QuartzError::NotFound),
        },
        Err(e) => Err(e),
    }
}

/// Carries out a command on the contexts and gives what is to be printed.
pub fn context(ctx: &mut Ctx, command: ContextCommands) -> (r: Result<String, QuartzError>)
    ensures
        match command {
            ContextCommands::Create { name } => final(ctx)@ == (CtxView {
                contexts: created(old(ctx)@.contexts, name@).0,
                ..old(ctx)@
            }) && text_of(r) == silent(created(old(ctx)@.contexts, name@).1),
            ContextCommands::Use { context } => if has_env(old(ctx)@.contexts, context@) {
                final(ctx)@ == (CtxView {
                    state: with_field(old(ctx)@.state, StateField::Context, Some(context@)),
                    ..old(ctx)@
                }) && text_of(r) == Ok::<Seq<char>, QuartzError>(Seq::<char>::empty())
            } else {
                final(ctx)@ == old(ctx)@ && text_of(r) == Err::<Seq<char>, QuartzError>(
                    QuartzError::NotFound,
                )
            },
            ContextCommands::List => final(ctx)@ == old(ctx)@ && text_of(r) == Ok::<
                Seq<char>,
                QuartzError,
            >(listed(old(ctx)@.contexts, scope_in_use(old(ctx)@.state, StateField::Context))),
            ContextCommands::Copy { src, dest } => final(ctx)@ == (CtxView {
                contexts: copied(old(ctx)@.contexts, src@, dest@).0,
                ..old(ctx)@
            }) && text_of(r) == silent(copied(old(ctx)@.contexts, src@, dest@).1),
            ContextCommands::Remove { context } => final(ctx)@ == (CtxView {
                contexts: deleted(old(ctx)@.contexts, context@).0,
                ..old(ctx)@
            }) && text_of(r) == silent(deleted(old(ctx)@.contexts, context@).1),
        },
{
    match command {
        ContextCommands::Create { name } => quiet(ctx.contexts.create(name.as_str())),
        ContextCommands::Use { context } => {
            if ctx.contexts.contains(context.as_str()) {
                ctx.state.set(StateField::Context, context.as_str());
                Ok(String::new())
            } else {
                Err(QuartzError::NotFound)
            }
        },
        ContextCommands::List => {
            let in_use = ctx.state.scope(StateField::Context);
            Ok(ctx.contexts.list(in_use.as_str()))
        },
        ContextCommands::Copy { src, dest } => quiet(ctx.contexts.copy(src.as_str(), dest.as_str())),
        ContextCommands::Remove { context } => quiet(ctx.contexts.delete(context.as_str())),
    }
}

} // verus!
