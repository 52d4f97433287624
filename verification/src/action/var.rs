//! The variables of the context in use.

use vstd::prelude::*;
use crate::action::header::text_of;
use crate::ctx::{context_in_use, Ctx, CtxView};
use crate::endpoint::{all_pairs, set_pairs};
use crate::env::{put_env, EnvView};
use crate::error::QuartzError;
use crate::pairs::{has_key, listing, pair_of, value_of, without};

verus! {

/// What `get` answers in the session `c`.
pub open spec fn variable_value(c: CtxView, key: Seq<char>) -> Result<Seq<char>, QuartzError> {
    match context_in_use(c) {
        Some(s) => match value_of(s.variables, key) {
            Some(v) => Ok(v),
            None => Err(QuartzError::NotFound),
        },
        None => Err(QuartzError::NotFound),
    }
}

/// The session with `s` in the place of the context of its name.
pub open spec fn with_context(c: CtxView, s: EnvView) -> CtxView {
    CtxView { contexts: put_env(c.contexts, s), ..c }
}

/// The session after `set`, and what `set` answers.
pub open spec fn variables_set(c: CtxView, inputs: Seq<Seq<char>>) -> (
    CtxView,
    Result<(), QuartzError>,
) {
    match context_in_use(c) {
        Some(s) => if all_pairs(inputs) {
            (with_context(c, EnvView { variables: set_pairs(s.variables, inputs), ..s }), Ok(()))
        } else {
            (c, Err(QuartzError::MalformedInput))
        },
        None => (c, Err(QuartzError::NotFound)),
    }
}

/// The session after `rm`, and what `rm` answers.
pub open spec fn variable_removed(c: CtxView, key: Seq<char>) -> (CtxView, Result<(), QuartzError>) {
    match context_in_use(c) {
        Some(s) => if has_key(s.variables, key) {
            (with_context(c, EnvView { variables: without(s.variables, key), ..s }), Ok(()))
        } else {
            (c, Err(QuartzError::NotFound))
        },
        None => (c, Err(QuartzError::NotFound)),
    }
}

/// What `ls` answers in the session `c`.
pub open spec fn variables_listed(c: CtxView) -> Result<Seq<char>, QuartzError> {
    match context_in_use(c) {
        Some(s) => Ok(listing(s.variables, seq!['='])),
        None => Err(QuartzError::NotFound),
    }
}

/// The value of the variable `key` of the context in use.
pub fn get(ctx: &Ctx, key: &str) -> (r: Result<String, QuartzError>)
    ensures
        text_of(r) == variable_value(ctx@, key@),
{
    match ctx.require_context() {
        Ok(context) => match context.variables.get(key) {
            Some(v) => Ok(v.clone()),
            None => Err(QuartzError::NotFound),
        },
        Err(e) => Err(e),
    }
}

/// Sets each variable given as `<key>=<value>` in the context in use. An
/// input of another form is refused, and then nothing is changed.
pub fn set(ctx: &mut Ctx, inputs: &Vec<String>) -> (r: Result<(), QuartzError>)
    ensures
        final(ctx)@ == variables_set(old(ctx)@, inputs.deep_view()).0,
        r == variables_set(old(ctx)@, inputs.deep_view()).1,
{
    match ctx.require_context() {
        Ok(context) => {
            let mut context = context;
            let mut i: usize = 0;
            let ghost all = inputs.deep_view();
            let ghost start = context@;
            assert(all.take(0) == Seq::<Seq<char>>::empty());
            while i < inputs.len()
                invariant
                    i <= inputs.len(),
                    all == inputs.deep_view(),
                    all_pairs(all.take(i as int)),
                    ctx@ == old(ctx)@,
                    context_in_use(old(ctx)@) == Some(start),
                    context@ == (EnvView {
                        variables: set_pairs(start.variables, all.take(i as int)),
                        ..start
                    }),
                decreases inputs.len() - i,
            {
                proof {
                    let t = all.take(i + 1);
                    assert(t.drop_last() == all.take(i as int));
                    assert(t.last() == inputs[i as int]@);
                }
                match context.variables.set(inputs[i].as_str()) {
                    Ok(_) => {},
                    Err(e) => {
                        assert(pair_of(all[i as int]).is_none());
                        return Err(QuartzError::MalformedInput);
                    },
                }
                i += 1;
                assert forall|j: int| 0 <= j < i implies pair_of(
                    #[trigger] all.take(i as int)[j],
                ).is_some() by {
                    if j < i - 1 {
                        assert(all.take(i - 1)[j] == all[j]);
                    }
                }
            }
            assert(all.take(all.len() as int) == all);
            ctx.contexts.put(context);
            Ok(())
        },
        Err(e) => Err(e),
    }
}

/// Removes the variable `key` from the context in use. A key that is no
/// variable is not found.
pub fn rm(ctx: &mut Ctx, key: &str) -> (r: Result<(), QuartzError>)
    ensures
        final(ctx)@ == variable_removed(old(ctx)@, key@).0,
        r == variable_removed(old(ctx)@, key@).1,
{
    match ctx.require_context() {
        Ok(context) => {
            let mut context = context;
            match context.variables.remove(key) {
                Some(_) => {
                    ctx.contexts.put(context);
                    Ok(())
                },
                None => Err(QuartzError::NotFound),
            }
        },
        Err(e) => Err(e),
    }
}

/// The variables of the context in use, one a line.
pub fn ls(ctx: &Ctx) -> (r: Result<String, QuartzError>)
    ensures
        text_of(r) == variables_listed(ctx@),
{
    proof {
        reveal_strlit("=");
        assert("="@ =~= seq!['=']);
    }
    match ctx.require_context() {
        Ok(context) => Ok(context.variables.render("=")),
        Err(e) => Err(e),
    }
}

} // verus!
