//! The rollback buffer: a window of per-tick inputs over a committed base
//! state, with lazy recomputation of the frontier state.

use std::collections::VecDeque;
use vstd::prelude::*;

verus! {

/// A pure, deterministic transition function together with the value
/// duplication the buffer needs for its input and state types.
///
/// `spec_step` is the mathematical meaning of `step`; it depends on the
/// implementing type alone, so two buffers built over the same transition
/// type replay identically. Implementations must be side-effect free.
pub trait Transition {
    type Input;

    type State;

    /// The meaning of one simulation step: the state after feeding `i` into
    /// state `s`.
    spec fn spec_step(i: Self::Input, s: Self::State) -> Self::State;

    /// Executes one simulation step.
    fn step(&self, i: &Self::Input, s: &Self::State) -> (r: Self::State)
        ensures
            r == Self::spec_step(*i, *s),
    ;

    /// Duplicates an input value.
    fn clone_input(&self, i: &Self::Input) -> (r: Self::Input)
        ensures
            r == *i,
    ;

    /// Duplicates a state value.
    fn clone_state(&self, s: &Self::State) -> (r: Self::State)
        ensures
            r == *s,
    ;
}

/// The state reached by folding `T::spec_step` over `inputs`, oldest first,
/// starting from `base`.
pub open spec fn replay<T: Transition>(base: T::State, inputs: Seq<T::Input>) -> T::State
    decreases inputs.len(),
{
    if inputs.len() == 0 {
        base
    } else {
        replay::<T>(T::spec_step(inputs[0], base), inputs.skip(1))
    }
}

/// Replaying one more input after a sequence applies one more step to the
/// sequence's result.
pub proof fn lemma_replay_push<T: Transition>(base: T::State, inputs: Seq<T::Input>, i: T::Input)
    ensures
        replay::<T>(base, inputs.push(i)) == T::spec_step(i, replay::<T>(base, inputs)),
    decreases inputs.len(),
{
    assert(inputs.push(i).len() == inputs.len() + 1);
    if inputs.len() == 0 {
        assert(inputs.push(i)[0] == i);
        assert(inputs.push(i).skip(1) =~= Seq::<T::Input>::empty());
        assert(replay::<T>(base, inputs.push(i)) == replay::<T>(
            T::spec_step(i, base),
            Seq::empty(),
        ));
        assert(replay::<T>(T::spec_step(i, base), Seq::empty()) == T::spec_step(i, base));
    } else {
        assert(inputs.push(i)[0] == inputs[0]);
        assert(inputs.push(i).skip(1) =~= inputs.skip(1).push(i));
        lemma_replay_push::<T>(T::spec_step(inputs[0], base), inputs.skip(1), i);
        assert(replay::<T>(base, inputs.push(i)) == replay::<T>(
            T::spec_step(inputs[0], base),
            inputs.skip(1).push(i),
        ));
    }
}

/// A replay may be cut at any point: replaying a prefix and then the rest
/// gives the same state as replaying the whole sequence.
pub proof fn lemma_replay_split<T: Transition>(base: T::State, inputs: Seq<T::Input>, k: int)
    requires
        0 <= k <= inputs.len(),
    ensures
        replay::<T>(base, inputs) == replay::<T>(
            replay::<T>(base, inputs.take(k)),
            inputs.skip(k),
        ),
    decreases k,
{
    if k == 0 {
        assert(inputs.take(0) =~= Seq::<T::Input>::empty());
        assert(inputs.skip(0) =~= inputs);
    } else {
        lemma_replay_split::<T>(base, inputs, k - 1);
        let c = replay::<T>(base, inputs.take(k - 1));
        assert(inputs.skip(k - 1)[0] == inputs[k - 1]);
        assert(inputs.skip(k - 1).skip(1) =~= inputs.skip(k));
        assert(inputs.take(k) =~= inputs.take(k - 1).push(inputs[k - 1]));
        lemma_replay_push::<T>(base, inputs.take(k - 1), inputs[k - 1]);
        assert(replay::<T>(c, inputs.skip(k - 1)) == replay::<T>(
            T::spec_step(inputs[k - 1], c),
            inputs.skip(k),
        ));
    }
}

/// The mathematical model of a [`Replayable`] buffer.
///
/// `inputs[i]` is the input recorded for tick `start() + i`; it transitions
/// the state at that tick to the state at the next one. `committed` is the
/// state at tick `start()`, `frontier` is one past the last retained input,
/// and `cached` is the state at `frontier` whenever `dirty` is false.
#[verifier::ext_equal]
pub struct ReplayView<T: Transition> {
    pub frontier: int,
    pub inputs: Seq<T::Input>,
    pub committed: T::State,
    pub cached: T::State,
    pub dirty: bool,
}

impl<T: Transition> ReplayView<T> {
    /// The committed tick: the tick at which `committed` is the state, and
    /// the tick of the oldest retained input.
    pub open spec fn start(self) -> int {
        self.frontier - self.inputs.len()
    }

    /// Well-formedness: the window fits below the frontier, the frontier is a
    /// machine tick, and a clean cache really is the replayed frontier state.
    pub open spec fn wf(self) -> bool {
        &&& self.inputs.len() <= self.frontier
        &&& self.frontier <= u64::MAX
        &&& !self.dirty ==> self.cached == replay::<T>(self.committed, self.inputs)
    }

    /// The buffer made by [`Replayable::new`]: one retained input for tick 0
    /// over the seed state, not yet replayed.
    pub open spec fn initial(seed: T::State, input: T::Input) -> ReplayView<T> {
        ReplayView { frontier: 1, inputs: seq![input], committed: seed, cached: seed, dirty: true }
    }

    /// The externally observable simulation state: what `current` returns.
    pub open spec fn current_value(self) -> T::State {
        if self.dirty {
            replay::<T>(self.committed, self.inputs)
        } else {
            self.cached
        }
    }

    /// The buffer after `current` has recomputed and cached the frontier
    /// state.
    pub open spec fn cleaned(self) -> ReplayView<T> {
        ReplayView { cached: self.current_value(), dirty: false, ..self }
    }

    /// The buffer after `advance(input)`: one more retained tick.
    pub open spec fn advanced(self, input: T::Input) -> ReplayView<T> {
        ReplayView {
            frontier: self.frontier + 1,
            inputs: self.inputs.push(input),
            dirty: true,
            ..self
        }
    }

    /// The buffer after `fast_forward(target)`: the last retained input is
    /// repeated until the frontier reaches `target`. With nothing retained
    /// there is no input to repeat and the call does nothing.
    pub open spec fn fast_forwarded(self, target: int) -> ReplayView<T> {
        if target <= self.frontier || self.inputs.len() == 0 {
            self
        } else {
            ReplayView {
                frontier: target,
                inputs: self.inputs + Seq::new(
                    (target - self.frontier) as nat,
                    |i: int| self.inputs.last(),
                ),
                dirty: true,
                ..self
            }
        }
    }

    /// The buffer after `commit(target)`: every input for a tick strictly
    /// before `target` is folded into the committed state and removed.
    pub open spec fn committed_to(self, target: int) -> ReplayView<T> {
        let v = self.fast_forwarded(target);
        let k: int = if target <= v.start() {
            0
        } else if target >= v.frontier {
            v.inputs.len() as int
        } else {
            target - v.start()
        };
        ReplayView {
            committed: replay::<T>(v.committed, v.inputs.take(k)),
            inputs: v.inputs.skip(k),
            ..v
        }
    }

    /// The buffer after `force(tick, input, state)`; see that method for the
    /// three cases.
    pub open spec fn forced(self, tick: int, input: T::Input, state: T::State) -> ReplayView<T> {
        if tick >= self.frontier {
            ReplayView {
                frontier: tick,
                inputs: Seq::empty(),
                committed: state,
                cached: state,
                dirty: false,
            }
        } else if tick < self.start() {
            self
        } else {
            let v = self.committed_to(tick);
            ReplayView { inputs: v.inputs.update(0, input), committed: state, dirty: true, ..v }
        }
    }

    /// Whether `update_input(tick, _)` finds (or can create) a slot: the tick
    /// must not already be committed, and extension by repetition needs at
    /// least one retained input.
    pub open spec fn updatable(self, tick: int) -> bool {
        self.inputs.len() > 0 && tick >= self.start()
    }

    /// The input value that `update_input(tick, apply)` hands to `apply`:
    /// the retained input for `tick`, after any extension by repetition.
    pub open spec fn input_at(self, tick: int) -> T::Input {
        let v = self.fast_forwarded(tick + 1);
        v.inputs[tick - v.start()]
    }

    /// The buffer after `update_input(tick, apply)`, where `r` is the value
    /// `apply` returned for the slot.
    pub open spec fn updated(self, tick: int, r: T::Input) -> ReplayView<T> {
        if !self.updatable(tick) {
            self
        } else {
            let v = self.fast_forwarded(tick + 1);
            ReplayView { inputs: v.inputs.update(tick - v.start(), r), dirty: true, ..v }
        }
    }
}

/// Fast-forwarding one tick further is one `advance` with the repeated last
/// input.
proof fn lemma_fast_forwarded_step<T: Transition>(v: ReplayView<T>, t: int)
    requires
        v.inputs.len() > 0,
        t >= v.frontier,
    ensures
        v.fast_forwarded(t + 1) == v.fast_forwarded(t).advanced(v.inputs.last()),
{
    if t == v.frontier {
        assert(v.inputs + Seq::new(1nat, |i: int| v.inputs.last()) =~= v.inputs.push(
            v.inputs.last(),
        ));
        assert(v.fast_forwarded(t + 1) =~= v.fast_forwarded(t).advanced(v.inputs.last()));
    } else {
        assert(v.inputs + Seq::new((t + 1 - v.frontier) as nat, |i: int| v.inputs.last()) =~= (
        v.inputs + Seq::new((t - v.frontier) as nat, |i: int| v.inputs.last())).push(
            v.inputs.last(),
        ));
        assert(v.fast_forwarded(t + 1) =~= v.fast_forwarded(t).advanced(v.inputs.last()));
    }
}

/// A rollback buffer: a rolling window of per-tick inputs over a committed
/// base state, replayed on demand through a caller-supplied transition.
///
/// The view (`self@`) is a [`ReplayView`]; every operation's contract pins
/// the new view exactly, so the whole behaviour of a call sequence is
/// determined at the specification level.
///
/// An empty window is legal: a forced jump or a commit of every retained
/// tick leaves one. `current` then yields the committed state, and extension
/// by repetition has nothing to repeat until the next `advance`.
pub struct Replayable<T: Transition> {
    next_fn: T,
    // The tick one past the last retained input.
    frame: u64,
    // Retained inputs, oldest first. history[i] belongs to tick
    // frame - len + i and transitions that tick's state to the next one.
    history: VecDeque<T::Input>,
    // The state at the tick of the oldest retained input.
    first: T::State,
    // The cached state at `frame`, meaningful only when `stale` is false.
    last: T::State,
    // Whether `last` must be recomputed before it can be handed out.
    stale: bool,
}

impl<T: Transition> View for Replayable<T> {
    type V = ReplayView<T>;

    closed spec fn view(&self) -> ReplayView<T> {
        ReplayView {
            frontier: self.frame as int,
            inputs: self.history@,
            committed: self.first,
            cached: self.last,
            dirty: self.stale,
        }
    }
}

impl<T: Transition> Replayable<T> {
    /// Validity of the buffer; established by `new` and preserved by every
    /// operation.
    pub open spec fn wf(&self) -> bool {
        self@.wf()
    }

    /// Creates a buffer at frontier tick 1 whose single retained input, for
    /// tick 0, is `input`, and whose committed state, at tick 0, is `seed`.
    ///
    /// The frontier cache starts stale, so the first call to `current`
    /// replays the initial input over the seed; this keeps the replay
    /// invariant unconditional. For the usual choice of an initial input
    /// that fixes the seed state this is indistinguishable from caching the
    /// seed itself.
    pub fn new(next: T, seed: T::State, input: T::Input) -> (r: Replayable<T>)
        ensures
            r@ == ReplayView::<T>::initial(seed, input),
            r.wf(),
    {
        let last = next.clone_state(&seed);
        let mut history: VecDeque<T::Input> = VecDeque::new();
        history.push_back(input);
        let r = Replayable { next_fn: next, frame: 1, history, first: seed, last, stale: true };
        proof {
            assert(r@ =~= ReplayView::<T>::initial(seed, input));
        }
        r
    }

    /// Appends `input` as the input of the frontier tick and moves the
    /// frontier up by one. The cached frontier state goes stale; nothing is
    /// recomputed here.
    pub fn advance(&mut self, input: T::Input)
        requires
            old(self).wf(),
            old(self)@.frontier < u64::MAX,
        ensures
            final(self)@ == old(self)@.advanced(input),
            final(self).wf(),
    {
        self.stale = true;
        self.history.push_back(input);
        self.frame = self.frame + 1;
        proof {
            assert(self@ =~= old(self)@.advanced(input));
        }
    }

    /// Repeats the most recent retained input until the frontier reaches
    /// `frame`: the prediction-by-repetition policy for ticks with no fresh
    /// input. Does nothing if `frame` is not ahead of the frontier, or if no
    /// input is retained (there is then nothing to repeat).
    pub fn fast_forward(&mut self, frame: u64)
        requires
            old(self).wf(),
        ensures
            final(self)@ == old(self)@.fast_forwarded(frame as int),
            final(self).wf(),
    {
        if self.history.len() == 0 {
            return ;
        }
        while self.frame < frame
            invariant
                self.wf(),
                old(self)@.inputs.len() > 0,
                frame <= u64::MAX,
                self.frame >= old(self)@.frontier,
                self.frame <= frame || self@ == old(self)@,
                self@ == old(self)@.fast_forwarded(self.frame as int),
            decreases frame - self.frame,
        {
            proof {
                lemma_fast_forwarded_step::<T>(old(self)@, self.frame as int);
                assert(self@.inputs.last() == old(self)@.inputs.last());
            }
            let idx: usize = self.history.len() - 1;
            let inp = self.next_fn.clone_input(&self.history[idx]);
            self.advance(inp);
        }
    }

    /// Returns the state at the frontier tick. If the cache is stale, the
    /// whole retained window is replayed from the committed state first and
    /// the result cached; otherwise the cached value is handed out as is.
    pub fn current(&mut self) -> (r: &T::State)
        requires
            old(self).wf(),
        ensures
            final(self)@ == old(self)@.cleaned(),
            final(self).wf(),
            *r == old(self)@.current_value(),
    {
        if !self.stale {
            proof {
                assert(self@ =~= old(self)@.cleaned());
            }
            return &self.last;
        }
        let mut st = self.next_fn.clone_state(&self.first);
        let n: usize = self.history.len();
        let mut j: usize = 0;
        while j < n
            invariant
                j <= n,
                *self == *old(self),
                n == self@.inputs.len(),
                st == replay::<T>(self@.committed, self@.inputs.take(j as int)),
            decreases n - j,
        {
            proof {
                assert(self@.inputs.take(j as int + 1) =~= self@.inputs.take(j as int).push(
                    self@.inputs[j as int],
                ));
                lemma_replay_push::<T>(
                    self@.committed,
                    self@.inputs.take(j as int),
                    self@.inputs[j as int],
                );
            }
            let next_st = self.next_fn.step(&self.history[j], &st);
            st = next_st;
            j += 1;
        }
        proof {
            assert(self@.inputs.take(n as int) =~= self@.inputs);
        }
        self.last = st;
        self.stale = false;
        proof {
            assert(self@ =~= old(self)@.cleaned());
        }
        &self.last
    }

    /// Permanently folds every input for a tick strictly before `id` into the
    /// committed state and drops it from the window; committed ticks can
    /// never be corrected again. If `id` is ahead of the frontier the buffer
    /// first catches up by repeating the last input, as in `fast_forward`.
    /// A target at or before the committed tick is a no-op.
    pub fn commit(&mut self, id: u64)
        requires
            old(self).wf(),
        ensures
            final(self)@ == old(self)@.committed_to(id as int),
            final(self).wf(),
    {
        self.fast_forward(id);
        let ghost v1 = self@;
        let len: usize = self.history.len();
        let len64: u64 = len as u64;
        let start: u64 = self.frame - len64;
        if id <= start {
            proof {
                assert(v1.inputs.take(0) =~= Seq::<T::Input>::empty());
                assert(v1.inputs.skip(0) =~= v1.inputs);
                assert(self@ =~= old(self)@.committed_to(id as int));
            }
            return ;
        }
        let k: usize = if id >= self.frame {
            len
        } else {
            (id - start) as usize
        };
        let ghost h1 = v1.inputs;
        let ghost f1 = v1.committed;
        let mut j: usize = 0;
        while j < k
            invariant
                j <= k,
                k <= h1.len(),
                self@.frontier == v1.frontier,
                self@.dirty == v1.dirty,
                self@.cached == v1.cached,
                self@.inputs == h1.skip(j as int),
                self@.committed == replay::<T>(f1, h1.take(j as int)),
            decreases k - j,
        {
            let inp_opt = self.history.pop_front();
            if let Some(x) = inp_opt {
                proof {
                    assert(h1.skip(j as int)[0] == h1[j as int]);
                    assert(h1.skip(j as int).subrange(1, h1.skip(j as int).len() as int) =~= h1.skip(
                    j as int + 1));
                    assert(h1.take(j as int + 1) =~= h1.take(j as int).push(h1[j as int]));
                    lemma_replay_push::<T>(f1, h1.take(j as int), h1[j as int]);
                }
                let ns = self.next_fn.step(&x, &self.first);
                self.first = ns;
            }
            j += 1;
        }
        proof {
            if !v1.dirty {
                lemma_replay_split::<T>(f1, h1, k as int);
            }
            assert(self@ =~= old(self)@.committed_to(id as int));
        }
    }

    /// Unconditional resynchronisation to an authoritative snapshot: `state`
    /// is the state at tick `id` and `input` the corrected input for that
    /// tick. Three cases, keyed on the tick arithmetic:
    ///
    /// - `id` at or ahead of the frontier: the whole window is discarded and
    ///   the buffer jumps to `id` with `state` as both committed and frontier
    ///   state and no retained input; the skipped ticks are never replayed.
    ///   The corrected input would belong to a tick at or past the new
    ///   committed tick and is dropped with the rest of the history.
    /// - `id` before the oldest retained tick: the snapshot is older than
    ///   anything still useful and the call is ignored.
    /// - otherwise: everything strictly before `id` is committed, the oldest
    ///   retained input (now the one for tick `id`) is replaced by `input`,
    ///   the committed state is overwritten with `state`, and the cache goes
    ///   stale.
    pub fn force(&mut self, id: u64, input: T::Input, state: T::State)
        requires
            old(self).wf(),
        ensures
            final(self)@ == old(self)@.forced(id as int, input, state),
            final(self).wf(),
    {
        if id >= self.frame {
            self.frame = id;
            self.history.clear();
            let first = self.next_fn.clone_state(&state);
            self.first = first;
            self.last = state;
            self.stale = false;
            proof {
                assert(self@ =~= old(self)@.forced(id as int, input, state));
            }
            return ;
        }
        let len64: u64 = self.history.len() as u64;
        let start: u64 = self.frame - len64;
        if id < start {
            return ;
        }
        self.commit(id);
        let ghost v1 = self@;
        let _discarded = self.history.pop_front();
        self.history.push_front(input);
        self.first = state;
        self.stale = true;
        proof {
            assert(v1.inputs.len() > 0);
            assert(seq![input] + v1.inputs.subrange(1, v1.inputs.len() as int) =~= v1.inputs.update(
            0, input));
            assert(self@ =~= old(self)@.forced(id as int, input, state));
        }
    }

    /// Applies `apply` to the input recorded for tick `id` and stores the
    /// result in its place, marking the cache stale. If `id` is at or past
    /// the frontier, the window is first extended by repeating the last
    /// input until a slot for `id` exists. A tick older than the oldest
    /// retained input is already committed and the call is silently ignored,
    /// as is any call on a buffer with no retained input.
    pub fn update_input<F: Fn(T::Input) -> T::Input>(&mut self, id: u64, apply: F)
        requires
            old(self).wf(),
            id < u64::MAX,
            forall|i: T::Input| #[trigger] call_requires(apply, (i,)),
        ensures
            final(self).wf(),
            !old(self)@.updatable(id as int) ==> final(self)@ == old(self)@,
            old(self)@.updatable(id as int) ==> exists|r: T::Input|
                #[trigger] call_ensures(apply, (old(self)@.input_at(id as int),), r)
                    && final(self)@ == old(self)@.updated(id as int, r),
    {
        if self.history.len() == 0 {
            return ;
        }
        self.fast_forward(id + 1);
        let ghost v1 = self@;
        proof {
            assert(v1 == old(self)@.fast_forwarded(id + 1));
            assert(v1.start() == old(self)@.start());
        }
        let len64: u64 = self.history.len() as u64;
        let start: u64 = self.frame - len64;
        if id < start {
            proof {
                assert(!old(self)@.updatable(id as int));
                assert(v1 =~= old(self)@);
            }
            return ;
        }
        proof {
            assert(old(self)@.updatable(id as int));
            assert(id < v1.frontier);
        }
        let idx: usize = (id - start) as usize;
        let removed = self.history.remove(idx);
        if let Some(x) = removed {
            proof {
                assert(x == old(self)@.input_at(id as int));
            }
            let nv = apply(x);
            self.history.insert(idx, nv);
            self.stale = true;
            proof {
                assert(v1.inputs.remove(idx as int).insert(idx as int, nv) =~= v1.inputs.update(
                idx as int, nv));
                assert(self@ =~= old(self)@.updated(id as int, nv));
                assert(call_ensures(apply, (old(self)@.input_at(id as int),), nv));
            }
        } else {
            proof {
                assert(idx < v1.inputs.len());
                assert(false);
            }
        }
    }
}

} // verus!
