//! What holds of the grammar and of every tracker.
use vstd::prelude::*;

use crate::state_tracker::state::{run, step, FrameView, Label, Latch, StateTracker};
use crate::state_tracker::structure_error::StructureErrorView;
use crate::state_tracker::token::TokenView;
use crate::text::lex_lt;

verus! {

/// `n` tokens that each open a list.
pub open spec fn openers(n: nat) -> Seq<TokenView> {
    Seq::new(n, |i: int| TokenView::List)
}

/// `n` tokens that each close what is open.
pub open spec fn closers(n: nat) -> Seq<TokenView> {
    Seq::new(n, |i: int| TokenView::End)
}

/// A stack of `n` open lists.
pub open spec fn lists(n: nat) -> Seq<FrameView> {
    Seq::new(n, |i: int| FrameView::InSeq)
}

/// A run over `a + b` is the run over `a`, then the run over `b` from where
/// the first ended.
pub proof fn run_concat(stack: Seq<FrameView>, max_depth: nat, a: Seq<TokenView>, b: Seq<TokenView>)
    ensures
        run(stack, max_depth, a + b) == match run(stack, max_depth, a) {
            Ok(middle) => run(middle, max_depth, b),
            Err(error) => Err(error),
        },
    decreases a.len(),
{
    if a.len() == 0 {
        assert(a + b =~= b);
    } else {
        assert((a + b)[0] == a[0]);
        assert((a + b).drop_first() =~= a.drop_first() + b);
        match step(stack, max_depth, a[0]) {
            Ok(next) => run_concat(next, max_depth, a.drop_first(), b),
            Err(_) => {},
        }
    }
}

/// From `have` open lists, `more` openers all succeed while the bound
/// allows, and the first one beyond the bound is `NestingTooDeep`.
pub proof fn run_openers(have: nat, more: nat, max_depth: nat)
    ensures
        have + more <= max_depth ==> run(lists(have), max_depth, openers(more)) == Ok::<
            Seq<FrameView>,
            StructureErrorView,
        >(lists(have + more)),
        have <= max_depth < have + more ==> run(lists(have), max_depth, openers(more)) == Err::<
            Seq<FrameView>,
            StructureErrorView,
        >(StructureErrorView::NestingTooDeep),
    decreases more,
{
    if more == 0 {
        assert(lists(have + more) =~= lists(have));
    } else {
        assert(openers(more).drop_first() =~= openers((more - 1) as nat));
        assert(openers(more)[0] == TokenView::List);
        if have < max_depth {
            assert(lists(have).push(FrameView::InSeq) =~= lists(have + 1));
            assert(step(lists(have), max_depth, TokenView::List) == Ok::<
                Seq<FrameView>,
                StructureErrorView,
            >(lists(have + 1)));
            run_openers(have + 1, (more - 1) as nat, max_depth);
        }
    }
}

/// Closing `n` open lists leaves nothing open.
pub proof fn run_closers(n: nat, max_depth: nat)
    ensures
        run(lists(n), max_depth, closers(n)) == Ok::<Seq<FrameView>, StructureErrorView>(
            lists(0),
        ),
    decreases n,
{
    if n > 0 {
        assert(closers(n).drop_first() =~= closers((n - 1) as nat));
        assert(closers(n)[0] == TokenView::End);
        assert(lists(n).drop_last() =~= lists((n - 1) as nat));
        run_closers((n - 1) as nat, max_depth);
    }
}

/// The depth bound is tight: `n` nested lists, opened and closed again, are
/// accepted exactly when `n` is at most the bound; beyond it the violation
/// is `NestingTooDeep`, and it comes with the opener that is one too deep,
/// before any closer is seen.
pub proof fn depth_bound_is_tight(n: nat, max_depth: nat)
    ensures
        run(lists(0), max_depth, openers(n) + closers(n)) is Ok <==> n <= max_depth,
        n > max_depth ==> {
            &&& run(lists(0), max_depth, openers(max_depth)) is Ok
            &&& run(lists(0), max_depth, openers(max_depth + 1)) == Err::<
                Seq<FrameView>,
                StructureErrorView,
            >(StructureErrorView::NestingTooDeep)
            &&& run(lists(0), max_depth, openers(n) + closers(n)) == Err::<
                Seq<FrameView>,
                StructureErrorView,
            >(StructureErrorView::NestingTooDeep)
        },
{
    run_concat(lists(0), max_depth, openers(n), closers(n));
    run_openers(0, n, max_depth);
    run_openers(0, max_depth, max_depth);
    run_openers(0, max_depth + 1, max_depth);
    if n <= max_depth {
        run_closers(n, max_depth);
    }
}

/// Inside a dictionary a key is accepted exactly when it comes strictly
/// after the key before it; any other key is `UnsortedKeys`. An equal key is
/// such a key, so no key occurs twice.
pub proof fn keys_ascend(below: Seq<FrameView>, prev: Seq<u8>, key: Seq<u8>, max_depth: nat)
    ensures
        lex_lt(prev, key) ==> step(
            below.push(FrameView::ExpectingKey(Some(prev))),
            max_depth,
            TokenView::String(key),
        ) == Ok::<Seq<FrameView>, StructureErrorView>(below.push(FrameView::ExpectingValue(key))),
        !lex_lt(prev, key) ==> step(
            below.push(FrameView::ExpectingKey(Some(prev))),
            max_depth,
            TokenView::String(key),
        ) == Err::<Seq<FrameView>, StructureErrorView>(StructureErrorView::UnsortedKeys),
        !lex_lt(key, key),
{
    let stack = below.push(FrameView::ExpectingKey(Some(prev)));
    assert(stack.drop_last() =~= below);
    assert forall|k: int| !crate::text::precedes_at(key, key, k) by {}
}

/// An error, once latched, is what every further observation returns, and
/// it stays latched.
pub proof fn latched_error_is_sticky<S: Label, E: Latch, T>(
    before: StateTracker<S, E>,
    error: E,
    token: TokenView,
    result: Result<T, E>,
    after: StateTracker<S, E>,
    r: Result<(), E>,
    l: Result<T, E>,
)
    requires
        before.latched() == Some(error),
    ensures
        before.observes(token, after, r) ==> r == Err::<(), E>(error) && after.latched() == Some(
            error,
        ),
        before.observes_eof(after, r) ==> r == Err::<(), E>(error) && after.latched() == Some(
            error,
        ),
        before.latches(result, after, l) ==> l == Err::<T, E>(error) && after.latched() == Some(
            error,
        ),
{
}

/// The error that an observation returns is latched by it.
pub proof fn returned_error_is_latched<S: Label, E: Latch, T>(
    before: StateTracker<S, E>,
    token: TokenView,
    result: Result<T, E>,
    after: StateTracker<S, E>,
    r: Result<(), E>,
    l: Result<T, E>,
)
    ensures
        before.observes(token, after, r) && r is Err ==> after.latched() == Some(r->Err_0),
        before.observes_eof(after, r) && r is Err ==> after.latched() == Some(r->Err_0),
        before.latches(result, after, l) && l is Err ==> after.latched() == Some(l->Err_0),
{
}

/// Observing the end of the input is idempotent: a second observation
/// returns what the first returned. With nothing latched that is `Ok` when
/// nothing is open, and `UnexpectedEof` when something is.
pub proof fn eof_is_idempotent<S: Label, E: Latch>(
    before: StateTracker<S, E>,
    between: StateTracker<S, E>,
    after: StateTracker<S, E>,
    first: Result<(), E>,
    second: Result<(), E>,
)
    requires
        before.observes_eof(between, first),
        between.observes_eof(after, second),
    ensures
        second == first,
        before.latched() is None && before.frames().len() == 0 ==> first is Ok,
        before.latched() is None && before.frames().len() > 0 ==> first is Err
            && first->Err_0.reports(StructureErrorView::UnexpectedEof),
{
    if first is Ok {
        assert(first->Ok_0 == second->Ok_0);
    }
}

} // verus!
