//! General properties of the rollback buffer, stated over the buffer model
//! [`ReplayView`] and proved from the operations' specifications.

use crate::replay::{lemma_replay_split, ReplayView, Transition};
use vstd::prelude::*;

verus! {

/// The buffer after a whole sequence of `advance` calls, with no
/// recomputation in between.
pub open spec fn advanced_all<T: Transition>(
    v: ReplayView<T>,
    inputs: Seq<T::Input>,
) -> ReplayView<T>
    decreases inputs.len(),
{
    if inputs.len() == 0 {
        v
    } else {
        advanced_all(v.advanced(inputs[0]), inputs.skip(1))
    }
}

/// The buffer after a whole sequence of `advance` calls, with the frontier
/// state recomputed and cached (as `current` does) after every one of them.
pub open spec fn advanced_all_eagerly<T: Transition>(
    v: ReplayView<T>,
    inputs: Seq<T::Input>,
) -> ReplayView<T>
    decreases inputs.len(),
{
    if inputs.len() == 0 {
        v
    } else {
        advanced_all_eagerly(v.advanced(inputs[0]).cleaned(), inputs.skip(1))
    }
}

/// Reading the frontier state never changes it: a recomputation returns the
/// same value that later reads will see.
pub proof fn lemma_current_stable<T: Transition>(v: ReplayView<T>)
    ensures
        v.cleaned().current_value() == v.current_value(),
{
}

/// After an `advance`, the observable state depends only on the committed
/// state and the retained window, never on what happened to be cached.
proof fn lemma_advanced_all_ignores_cache<T: Transition>(
    v1: ReplayView<T>,
    v2: ReplayView<T>,
    inputs: Seq<T::Input>,
)
    requires
        v1.committed == v2.committed,
        v1.inputs == v2.inputs,
        v1.current_value() == v2.current_value(),
    ensures
        advanced_all(v1, inputs).current_value() == advanced_all(v2, inputs).current_value(),
    decreases inputs.len(),
{
    if inputs.len() > 0 {
        lemma_advanced_all_ignores_cache::<T>(
            v1.advanced(inputs[0]),
            v2.advanced(inputs[0]),
            inputs.skip(1),
        );
    }
}

/// Determinism of replay: feeding a sequence of inputs through `advance`
/// yields the same observable state whether the frontier state is
/// recomputed after every step or only once at the end.
pub proof fn lemma_lazy_eager_replay_agree<T: Transition>(v: ReplayView<T>, inputs: Seq<T::Input>)
    ensures
        advanced_all_eagerly(v, inputs).current_value() == advanced_all(
            v,
            inputs,
        ).current_value(),
    decreases inputs.len(),
{
    if inputs.len() > 0 {
        let w = v.advanced(inputs[0]);
        lemma_lazy_eager_replay_agree::<T>(w.cleaned(), inputs.skip(1));
        lemma_advanced_all_ignores_cache::<T>(w.cleaned(), w, inputs.skip(1));
    }
}

/// Commit transparency: committing any target up to the frontier never
/// changes the observable state, only how much history backs it.
pub proof fn lemma_commit_transparent<T: Transition>(v: ReplayView<T>, target: int)
    requires
        target <= v.frontier,
    ensures
        v.committed_to(target).current_value() == v.current_value(),
{
    let k: int = if target <= v.start() {
        0
    } else if target >= v.frontier {
        v.inputs.len() as int
    } else {
        target - v.start()
    };
    lemma_replay_split::<T>(v.committed, v.inputs, k);
}

/// Committing the same target twice is the same as committing it once.
pub proof fn lemma_commit_idempotent<T: Transition>(v: ReplayView<T>, target: int)
    ensures
        v.committed_to(target).committed_to(target) == v.committed_to(target),
{
    let w = v.committed_to(target);
    assert(w.fast_forwarded(target) =~= w);
    assert(w.inputs.take(0) =~= Seq::<T::Input>::empty());
    assert(w.inputs.skip(0) =~= w.inputs);
    assert(w.committed_to(target) =~= w);
}

/// Force-forward jump: resynchronising to a tick at or ahead of the frontier
/// makes the supplied snapshot the observable state directly, with no replay
/// of the skipped ticks (the result is clean, so `current` just hands the
/// snapshot out).
pub proof fn lemma_force_forward_jump<T: Transition>(
    v: ReplayView<T>,
    tick: int,
    input: T::Input,
    state: T::State,
)
    requires
        tick >= v.frontier,
    ensures
        v.forced(tick, input, state).current_value() == state,
        !v.forced(tick, input, state).dirty,
{
}

/// Committed ticks are immutable: after committing through `target`, a
/// correction aimed at any strictly older tick leaves the buffer, and so the
/// observable state, entirely unchanged.
pub proof fn lemma_update_below_commit_ignored<T: Transition>(
    v: ReplayView<T>,
    target: int,
    tick: int,
    r: T::Input,
)
    requires
        tick < target,
    ensures
        v.committed_to(target).updated(tick, r) == v.committed_to(target),
        v.committed_to(target).updated(tick, r).current_value() == v.committed_to(
            target,
        ).current_value(),
{
    let w = v.committed_to(target);
    if w.inputs.len() > 0 {
        assert(tick < w.start());
    }
}

/// Stale updates are no-ops: correcting an input for a tick older than the
/// oldest retained one leaves the buffer, and so the observable state,
/// entirely unchanged.
pub proof fn lemma_stale_update_ignored<T: Transition>(v: ReplayView<T>, tick: int, r: T::Input)
    requires
        tick < v.start(),
    ensures
        v.updated(tick, r) == v,
        v.updated(tick, r).current_value() == v.current_value(),
{
}

} // verus!
