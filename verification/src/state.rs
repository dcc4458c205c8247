//! The mathematical model of completion states: what each state slot of an
//! engine holds, which slots wait on which, and the facts about that model
//! that the engine's proofs rest on.

use vstd::prelude::*;

verus! {

/// A continuation waiting in a state, as a plain value: what it will do with
/// the value once it arrives, and the state that it will then fulfill.
pub enum Continuation<M, N> {
    /// Pass the value on unchanged.
    Relay { target: int },
    /// Transform the value with `through` and pass the result on.
    Mapping { through: M, target: int },
    /// Ask `next` for a future and pass that future's value on.
    Chaining { next: N, target: int },
}

impl<M, N> Continuation<M, N> {
    /// The state that this continuation fulfills when it fires.
    pub open spec fn target(&self) -> int {
        match self {
            Continuation::Relay { target } => *target,
            Continuation::Mapping { target, .. } => *target,
            Continuation::Chaining { target, .. } => *target,
        }
    }
}

/// The life of one completion state.
pub enum Completion<T, M, N> {
    /// No value has arrived and no continuation is registered.
    Empty,
    /// The value has arrived and nobody has consumed it yet.
    Ready(T),
    /// A continuation is registered and waits for the value.
    Chained(Continuation<M, N>),
    /// The value has been consumed, or the continuation has been invoked.
    Retired,
}

impl<T, M, N> Completion<T, M, N> {
    /// The promise side has not delivered yet.
    pub open spec fn pending(&self) -> bool {
        self is Empty || self is Chained
    }

    /// The future side has not been consumed yet.
    pub open spec fn unclaimed(&self) -> bool {
        self is Empty || self is Ready
    }
}

/// Some continuation waiting in `states` will fulfill `slot`.
pub open spec fn is_target<T, M, N>(states: Seq<Completion<T, M, N>>, slot: int) -> bool {
    exists|c: int| waits_for(states, c, slot)
}

/// State `c` holds a continuation that will fulfill `slot`.
pub open spec fn waits_for<T, M, N>(states: Seq<Completion<T, M, N>>, c: int, slot: int) -> bool {
    0 <= c < states.len() && states[c] is Chained && states[c]->Chained_0.target() == slot
}

/// Single assignment, as an invariant of the whole table: every waiting
/// continuation fulfills a state of the table that has not been fulfilled
/// yet, and no two continuations fulfill the same state.
pub open spec fn wf<T, M, N>(states: Seq<Completion<T, M, N>>) -> bool {
    &&& forall|c: int, t: int| #[trigger]
        waits_for(states, c, t) ==> 0 <= t < states.len() && states[t].pending()
    &&& forall|c: int, d: int, t: int| #[trigger]
        waits_for(states, c, t) && #[trigger] waits_for(states, d, t) ==> c == d
}

/// A promise for `slot` may be fulfilled: the state exists, has not been
/// fulfilled, and is not reserved for a waiting continuation.
pub open spec fn accepts<T, M, N>(states: Seq<Completion<T, M, N>>, slot: int) -> bool {
    &&& 0 <= slot < states.len()
    &&& states[slot].pending()
    &&& !is_target(states, slot)
}

/// A future for `slot` may be consumed: the state exists and no continuation
/// has been registered on it, nor its value taken.
pub open spec fn unclaimed<T, M, N>(states: Seq<Completion<T, M, N>>, slot: int) -> bool {
    0 <= slot < states.len() && states[slot].unclaimed()
}

/// `after` is `before` with fresh states appended, none of which waits to
/// fulfill a state of `before`.
pub open spec fn extends<T, M, N>(
    after: Seq<Completion<T, M, N>>,
    before: Seq<Completion<T, M, N>>,
) -> bool {
    &&& before.len() <= after.len()
    &&& forall|i: int| 0 <= i < before.len() ==> #[trigger] after[i] == before[i]
    &&& forall|c: int, t: int| #[trigger]
        waits_for(after, c, t) && before.len() <= c ==> before.len() <= t
}

/// The number of continuations waiting in the first `bound` states.
pub open spec fn waiting<T, M, N>(states: Seq<Completion<T, M, N>>, bound: int) -> nat
    decreases bound,
{
    if bound <= 0 {
        0
    } else {
        let rest = waiting(states, bound - 1);
        if bound - 1 < states.len() && states[bound - 1] is Chained {
            rest + 1
        } else {
            rest
        }
    }
}

/// Tables that hold continuations at the same places below `bound` have the
/// same number of them waiting there.
pub proof fn lemma_waiting_agrees<T, M, N>(
    a: Seq<Completion<T, M, N>>,
    b: Seq<Completion<T, M, N>>,
    bound: int,
)
    requires
        bound <= a.len(),
        bound <= b.len(),
        forall|i: int| 0 <= i < bound ==> (#[trigger] a[i] is Chained) == (b[i] is Chained),
    ensures
        waiting(a, bound) == waiting(b, bound),
    decreases bound,
{
    if bound > 0 {
        lemma_waiting_agrees(a, b, bound - 1);
    }
}

/// Replacing a waiting continuation below `bound` by a state that holds none
/// leaves one fewer waiting.
pub proof fn lemma_waiting_drops<T, M, N>(
    states: Seq<Completion<T, M, N>>,
    slot: int,
    replacement: Completion<T, M, N>,
    bound: int,
)
    requires
        0 <= slot < bound <= states.len(),
        states[slot] is Chained,
        !(replacement is Chained),
    ensures
        waiting(states, bound) == waiting(states.update(slot, replacement), bound) + 1,
    decreases bound,
{
    let updated = states.update(slot, replacement);
    if slot == bound - 1 {
        lemma_waiting_agrees(states, updated, bound - 1);
    } else {
        lemma_waiting_drops(states, slot, replacement, bound - 1);
    }
}

/// A fresh empty state keeps the table well formed, and its promise may be
/// fulfilled.
pub proof fn lemma_wf_push<T, M, N>(states: Seq<Completion<T, M, N>>, fresh: Completion<T, M, N>)
    requires
        wf(states),
        !(fresh is Chained),
    ensures
        wf(states.push(fresh)),
        extends(states.push(fresh), states),
        !is_target(states.push(fresh), states.len() as int),
        forall|t: int| is_target(states.push(fresh), t) == is_target(states, t),
{
    let after = states.push(fresh);
    assert forall|c: int, t: int| #[trigger] waits_for(after, c, t) implies waits_for(
        states,
        c,
        t,
    ) by {}
    assert forall|c: int, t: int| #[trigger] waits_for(states, c, t) implies waits_for(
        after,
        c,
        t,
    ) by {}
    assert forall|t: int| is_target(after, t) == is_target(states, t) by {
        if is_target(after, t) {
            let c = choose|c: int| waits_for(after, c, t);
            assert(waits_for(states, c, t));
        }
        if is_target(states, t) {
            let c = choose|c: int| waits_for(states, c, t);
            assert(waits_for(after, c, t));
        }
    }
    if is_target(after, states.len() as int) {
        let c = choose|c: int| waits_for(after, c, states.len() as int);
        assert(waits_for(states, c, states.len() as int));
    }
}

/// Replacing the content of a state that no continuation waits to fulfill, by
/// something that is no continuation, keeps the table well formed.
pub proof fn lemma_wf_settle<T, M, N>(
    states: Seq<Completion<T, M, N>>,
    slot: int,
    replacement: Completion<T, M, N>,
)
    requires
        wf(states),
        0 <= slot < states.len(),
        !is_target(states, slot),
        !(replacement is Chained),
    ensures
        wf(states.update(slot, replacement)),
        forall|t: int| is_target(states.update(slot, replacement), t) ==> is_target(states, t),
        forall|t: int|
            is_target(states, t) && !(states[slot] is Chained && states[slot]->Chained_0.target()
                == t) ==> is_target(states.update(slot, replacement), t),
{
    let after = states.update(slot, replacement);
    assert forall|c: int, t: int| #[trigger] waits_for(after, c, t) implies waits_for(
        states,
        c,
        t,
    ) && c != slot by {}
    assert forall|c: int, t: int| #[trigger] waits_for(after, c, t) implies 0 <= t < after.len()
        && after[t].pending() by {
        assert(waits_for(states, c, t));
        assert(is_target(states, t));
    }
    assert forall|t: int| is_target(after, t) implies is_target(states, t) by {
        let c = choose|c: int| waits_for(after, c, t);
        assert(waits_for(states, c, t));
    }
    assert forall|t: int|
        is_target(states, t) && !(states[slot] is Chained && states[slot]->Chained_0.target()
            == t) implies is_target(after, t) by {
        let c = choose|c: int| waits_for(states, c, t);
        assert(waits_for(after, c, t));
    }
}

/// Registering a continuation on an empty state keeps the table well formed
/// when the state that it will fulfill may accept a promise.
pub proof fn lemma_wf_chain<T, M, N>(
    states: Seq<Completion<T, M, N>>,
    slot: int,
    waiter: Continuation<M, N>,
)
    requires
        wf(states),
        0 <= slot < states.len(),
        states[slot] is Empty,
        accepts(states, waiter.target()),
    ensures
        wf(states.update(slot, Completion::Chained(waiter))),
        forall|t: int|
            is_target(states.update(slot, Completion::Chained(waiter)), t) == (is_target(states, t)
                || t == waiter.target()),
{
    let after = states.update(slot, Completion::Chained(waiter));
    assert forall|c: int, t: int| #[trigger] waits_for(after, c, t) implies (c != slot
        && waits_for(states, c, t)) || (c == slot && t == waiter.target()) by {}
    assert forall|c: int, t: int| #[trigger] waits_for(after, c, t) implies 0 <= t < after.len()
        && after[t].pending() by {}
    assert forall|c: int, d: int, t: int| #[trigger]
        waits_for(after, c, t) && #[trigger] waits_for(after, d, t) implies c == d by {
        if c != slot {
            assert(waits_for(states, c, t));
            assert(is_target(states, t));
        }
        if d != slot {
            assert(waits_for(states, d, t));
            assert(is_target(states, t));
        }
    }
    assert forall|t: int|
        is_target(after, t) == (is_target(states, t) || t == waiter.target()) by {
        if is_target(after, t) {
            let c = choose|c: int| waits_for(after, c, t);
            if c != slot {
                assert(waits_for(states, c, t));
            }
        }
        if is_target(states, t) {
            let c = choose|c: int| waits_for(states, c, t);
            assert(waits_for(after, c, t));
        }
        if t == waiter.target() {
            assert(waits_for(after, slot, t));
        }
    }
}

/// No continuation waiting below `bound` fulfills a state at or above it.
pub open spec fn closed_below<T, M, N>(states: Seq<Completion<T, M, N>>, bound: int) -> bool {
    &&& 0 <= bound <= states.len()
    &&& forall|c: int, t: int| #[trigger] waits_for(states, c, t) && c < bound ==> t < bound
}

/// A well-formed table is closed below its own length.
pub proof fn lemma_closed_whole<T, M, N>(states: Seq<Completion<T, M, N>>)
    requires
        wf(states),
    ensures
        closed_below(states, states.len() as int),
{
}

/// When the continuation of a state whose promise may be fulfilled fires, the
/// state retires and the promise that the continuation held may be fulfilled
/// in turn.
pub proof fn lemma_fire<T, M, N>(states: Seq<Completion<T, M, N>>, slot: int, bound: int)
    requires
        wf(states),
        accepts(states, slot),
        states[slot] is Chained,
        slot < bound,
        closed_below(states, bound),
    ensures
        ({
            let retired = states.update(slot, Completion::Retired);
            let target = states[slot]->Chained_0.target();
            &&& wf(retired)
            &&& accepts(retired, target)
            &&& target != slot
            &&& 0 <= target < bound
            &&& closed_below(retired, bound)
            &&& waiting(states, bound) == waiting(retired, bound) + 1
        }),
{
    let retired = states.update(slot, Completion::Retired);
    let target = states[slot]->Chained_0.target();
    assert(waits_for(states, slot, target));
    lemma_wf_settle(states, slot, Completion::Retired);
    lemma_waiting_drops(states, slot, Completion::Retired, bound);
    if is_target(retired, target) {
        let c = choose|c: int| waits_for(retired, c, target);
        assert(waits_for(states, c, target));
    }
    assert forall|c: int, t: int| #[trigger] waits_for(retired, c, t) && c < bound implies t
        < bound by {
        assert(waits_for(states, c, t));
    }
}

/// Retiring a state that holds a value leaves every promise that could be
/// fulfilled before as it was.
pub proof fn lemma_consume<T, M, N>(
    states: Seq<Completion<T, M, N>>,
    slot: int,
    target: int,
    bound: int,
)
    requires
        wf(states),
        0 <= slot < states.len(),
        states[slot] is Ready,
        accepts(states, target),
        closed_below(states, bound),
    ensures
        ({
            let retired = states.update(slot, Completion::Retired);
            &&& wf(retired)
            &&& accepts(retired, target)
            &&& closed_below(retired, bound)
            &&& waiting(states, bound) == waiting(retired, bound)
        }),
{
    let retired = states.update(slot, Completion::Retired);
    if is_target(states, slot) {
        let c = choose|c: int| waits_for(states, c, slot);
        assert(waits_for(states, c, slot));
    }
    lemma_wf_settle(states, slot, Completion::Retired);
    lemma_waiting_agrees(states, retired, bound);
    assert forall|c: int, t: int| #[trigger] waits_for(retired, c, t) && c < bound implies t
        < bound by {
        assert(waits_for(states, c, t));
    }
}

/// Fresh states appended to a table leave every promise of the table that
/// could be fulfilled before as it was.
pub proof fn lemma_extended<T, M, N>(
    after: Seq<Completion<T, M, N>>,
    before: Seq<Completion<T, M, N>>,
    target: int,
    bound: int,
)
    requires
        extends(after, before),
        accepts(before, target),
        closed_below(before, bound),
    ensures
        accepts(after, target),
        closed_below(after, bound),
        waiting(after, bound) == waiting(before, bound),
{
    if is_target(after, target) {
        let c = choose|c: int| waits_for(after, c, target);
        if c < before.len() {
            assert(after[c] == before[c]);
            assert(waits_for(before, c, target));
        }
    }
    assert(after[target] == before[target]);
    assert forall|c: int, t: int| #[trigger] waits_for(after, c, t) && c < bound implies t
        < bound by {
        assert(after[c] == before[c]);
        assert(waits_for(before, c, t));
    }
    lemma_waiting_agrees(after, before, bound);
}

} // verus!
