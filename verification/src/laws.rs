//! What holds of every delivery, and the laws of promises and futures that
//! follow.

use crate::future::{
    answers, chains, claimed, delivers, maps_into, relays, Mapper, Next, PrematureSync,
};
use crate::state::{
    accepts, closed_below, is_target, lemma_closed_whole, lemma_consume, lemma_extended,
    lemma_fire, lemma_wf_chain, lemma_wf_push, lemma_wf_settle, unclaimed, waiting, wf,
    Completion, Continuation,
};
use vstd::prelude::*;

verus! {

/// What a delivery or a relay keeps of the table it started from: single
/// assignment, every state, every fulfillment that was made, every
/// consumption that was made, and every promise that may still be
/// fulfilled, but for the one named.
pub open spec fn settles<T, M, N>(
    before: Seq<Completion<T, M, N>>,
    promise: int,
    after: Seq<Completion<T, M, N>>,
) -> bool {
    &&& wf(after)
    &&& before.len() <= after.len()
    &&& forall|s: int|
        0 <= s < before.len() && !(#[trigger] before[s]).pending() ==> !after[s].pending()
    &&& forall|s: int|
        0 <= s < before.len() && !(#[trigger] before[s]).unclaimed() ==> !after[s].unclaimed()
    &&& forall|s: int| #[trigger] accepts(before, s) && s != promise ==> accepts(after, s)
}

/// A delivery fulfills the state it is made to, once and for all, and
/// fulfills no state whose promise is still out.
pub proof fn lemma_delivery<T, M: Mapper<T>, N: Next<T, M>>(
    bound: int,
    before: Seq<Completion<T, M, N>>,
    slot: int,
    value: T,
    after: Seq<Completion<T, M, N>>,
)
    requires
        wf(before),
        accepts(before, slot),
        slot < bound,
        closed_below(before, bound),
        delivers(bound, before, slot, value, after),
    ensures
        settles(before, slot, after),
        !after[slot].pending(),
        before[slot] is Empty ==> after == before.update(slot, Completion::Ready(value)),
    decreases waiting(before, bound), 0nat,
{
    if before[slot] is Empty {
        lemma_wf_settle(before, slot, Completion::Ready(value));
        assert(after == before.update(slot, Completion::Ready(value)));
        assert(settles(before, slot, after));
    } else {
        let waiter = before[slot]->Chained_0;
        let retired = before.update(slot, Completion::Retired);
        let target = waiter.target();
        lemma_fire(before, slot, bound);
        lemma_wf_settle(before, slot, Completion::Retired);
        assert(is_target(before, target)) by {
            assert(crate::state::waits_for(before, slot, target));
        }
        assert(settles(before, slot, retired));
        if waiter is Relay {
            assert(delivers(bound, retired, target, value, after));
            lemma_delivery(bound, retired, target, value, after);
        } else if waiter is Mapping {
            let through = waiter->through;
            assert(exists|to: T|
                #![trigger through.maps(value, to)]
                through.maps(value, to) && delivers(bound, retired, target, to, after));
            let to = choose|to: T|
                #![trigger through.maps(value, to)]
                through.maps(value, to) && delivers(bound, retired, target, to, after);
            lemma_delivery(bound, retired, target, to, after);
        } else {
            let next = waiter->next;
            assert(exists|mid: Seq<Completion<T, M, N>>, inner: int|
                #![trigger answers(next, retired, value, mid, inner)]
                answers(next, retired, value, mid, inner) && relays(
                    bound,
                    mid,
                    inner,
                    target,
                    after,
                ));
            let (mid, inner) = choose|mid: Seq<Completion<T, M, N>>, inner: int|
                #![trigger answers(next, retired, value, mid, inner)]
                answers(next, retired, value, mid, inner) && relays(
                    bound,
                    mid,
                    inner,
                    target,
                    after,
                );
            lemma_extended(mid, retired, target, bound);
            assert forall|s: int| #[trigger] accepts(retired, s) implies accepts(mid, s) by {
                lemma_extended(mid, retired, s, bound);
            }
            assert(settles(retired, target, mid));
            lemma_relay(bound, mid, inner, target, after);
        }
    }
}

/// A relay consumes the future, fulfills at most the promise it is given,
/// and fulfills no state whose promise is still out.
pub proof fn lemma_relay<T, M: Mapper<T>, N: Next<T, M>>(
    bound: int,
    before: Seq<Completion<T, M, N>>,
    inner: int,
    target: int,
    after: Seq<Completion<T, M, N>>,
)
    requires
        wf(before),
        unclaimed(before, inner),
        accepts(before, target),
        target < bound,
        closed_below(before, bound),
        relays(bound, before, inner, target, after),
    ensures
        settles(before, target, after),
        !after[inner].unclaimed(),
        before[inner] is Ready ==> !after[target].pending(),
        before[inner] is Empty ==> after == before.update(
            inner,
            Completion::Chained(Continuation::Relay { target }),
        ),
    decreases waiting(before, bound), 1nat,
{
    if before[inner] is Ready {
        let value = before[inner]->Ready_0;
        let retired = before.update(inner, Completion::Retired);
        lemma_consume(before, inner, target, bound);
        assert forall|s: int| #[trigger] accepts(before, s) implies accepts(retired, s) by {
            lemma_consume(before, inner, s, bound);
        }
        assert(settles(before, target, retired));
        assert(delivers(bound, retired, target, value, after));
        lemma_delivery(bound, retired, target, value, after);
    } else {
        lemma_wf_chain(before, inner, Continuation::Relay { target });
        assert(after == before.update(inner, Completion::Chained(Continuation::Relay { target })));
        assert(settles(before, target, after));
    }
}

/// Round trip: a value delivered to an empty state is the value that a
/// claim of that state returns, and a state created with its value returns
/// that value.
pub proof fn law_fulfill_then_claim<T, M: Mapper<T>, N: Next<T, M>>(
    before: Seq<Completion<T, M, N>>,
    slot: int,
    value: T,
    after: Seq<Completion<T, M, N>>,
)
    requires
        wf(before),
        accepts(before, slot),
        before[slot] is Empty,
        delivers(before.len() as int, before, slot, value, after),
    ensures
        claimed(after, slot) == (
            Ok::<T, PrematureSync>(value),
            after.update(slot, Completion::Retired),
        ),
        claimed(before.push(Completion::Ready(value)), before.len() as int) == (
            Ok::<T, PrematureSync>(value),
            before.push(Completion::Ready(value)).update(
                before.len() as int,
                Completion::Retired,
            ),
        ),
{
    lemma_closed_whole(before);
    lemma_delivery(before.len() as int, before, slot, value, after);
}

/// Eager mapping: `map` over a state that holds `value` leaves a fresh state
/// that holds a value mapped from it, and retires the state it consumed.
/// Where the mapper is a function with the one result `image`, the fresh
/// state holds `image`.
pub proof fn law_map_ready<T, M: Mapper<T>, N: Next<T, M>>(
    before: Seq<Completion<T, M, N>>,
    slot: int,
    value: T,
    through: M,
    after: Seq<Completion<T, M, N>>,
    image: T,
)
    requires
        0 <= slot < before.len(),
        before[slot] == Completion::<T, M, N>::Ready(value),
        maps_into(before, slot, through, after),
    ensures
        after.len() == before.len() + 1,
        after[slot] is Retired,
        after[before.len() as int] is Ready,
        through.maps(value, after[before.len() as int]->Ready_0),
        (forall|to: T| #[trigger] through.maps(value, to) ==> to == image) ==> after
            == before.update(slot, Completion::Retired).push(Completion::Ready(image)),
{
}

/// Deferred mapping ends as eager mapping does: when `map` was registered on
/// an empty state and a value is delivered to that state later, the mapper
/// runs then, the state retires, and the fresh state holds the mapped value.
pub proof fn law_map_deferred<T, M: Mapper<T>, N: Next<T, M>>(
    before: Seq<Completion<T, M, N>>,
    slot: int,
    through: M,
    mid: Seq<Completion<T, M, N>>,
    value: T,
    after: Seq<Completion<T, M, N>>,
)
    requires
        wf(before),
        accepts(before, slot),
        before[slot] is Empty,
        maps_into(before, slot, through, mid),
        delivers(mid.len() as int, mid, slot, value, after),
    ensures
        accepts(mid, slot),
        after.len() == before.len() + 1,
        after[before.len() as int] is Ready,
        through.maps(value, after[before.len() as int]->Ready_0),
        after == before.update(slot, Completion::Retired).push(
            Completion::Ready(after[before.len() as int]->Ready_0),
        ),
{
    let fresh = before.len() as int;
    law_map_settles(before, slot, through, mid);
    let retired = mid.update(slot, Completion::Retired);
    let to = choose|to: T|
        #![trigger through.maps(value, to)]
        through.maps(value, to) && delivers(mid.len() as int, retired, fresh, to, after);
    assert(retired[fresh] is Empty);
    assert(after == retired.update(fresh, Completion::Ready(to)));
    assert(after =~= before.update(slot, Completion::Retired).push(Completion::Ready(to)));
}

/// The state in which `then` runs its next step when it consumes the future
/// for `slot`: that state has retired and a fresh one waits for the result.
pub open spec fn started<T, M, N>(before: Seq<Completion<T, M, N>>, slot: int) -> Seq<
    Completion<T, M, N>,
> {
    before.update(slot, Completion::Retired).push(Completion::Empty)
}

/// Run on `from` in `before`, `next` may answer with a future that holds
/// `value`.
pub open spec fn answers_with<T, M: Mapper<T>, N: Next<T, M>>(
    next: N,
    before: Seq<Completion<T, M, N>>,
    from: T,
    value: T,
) -> bool {
    exists|mid: Seq<Completion<T, M, N>>, inner: int|
        #![trigger answers(next, before, from, mid, inner)]
        answers(next, before, from, mid, inner) && mid[inner] == Completion::<T, M, N>::Ready(
            value,
        )
}

/// Chaining composes: `then` over a state that holds `value`, with a next
/// step that answers with a future holding some `w`, followed by `map`,
/// leaves a state that holds a value mapped from `w`. So where `composed`
/// maps as the next step followed by the mapper does, what the two calls
/// leave is a value that `map` with `composed` may leave.
pub proof fn law_then_map_composes<T, M: Mapper<T>, N: Next<T, M>>(
    before: Seq<Completion<T, M, N>>,
    slot: int,
    value: T,
    next: N,
    mid: Seq<Completion<T, M, N>>,
    through: M,
    after: Seq<Completion<T, M, N>>,
    composed: M,
)
    requires
        wf(before),
        0 <= slot < before.len(),
        before[slot] == Completion::<T, M, N>::Ready(value),
        chains(before, slot, next, mid),
        mid[before.len() as int] is Ready,
        maps_into(mid, before.len() as int, through, after),
        forall|w: T, to: T|
            answers_with(next, started(before, slot), value, w) && #[trigger] through.maps(w, to)
                ==> #[trigger] composed.maps(value, to),
    ensures
        answers_with(next, started(before, slot), value, mid[before.len() as int]->Ready_0),
        after.len() == mid.len() + 1,
        after[mid.len() as int] is Ready,
        through.maps(mid[before.len() as int]->Ready_0, after[mid.len() as int]->Ready_0),
        composed.maps(value, after[mid.len() as int]->Ready_0),
{
    let fresh = before.len() as int;
    let begun = started(before, slot);
    let (made, inner) = choose|made: Seq<Completion<T, M, N>>, inner: int|
        #![trigger answers(next, begun, value, made, inner)]
        answers(next, begun, value, made, inner) && relays(
            made.len() as int,
            made,
            inner,
            fresh,
            mid,
        );
    assert(made[fresh] == begun[fresh]);
    if made[inner] is Ready {
        let w = made[inner]->Ready_0;
        let retired = made.update(inner, Completion::Retired);
        assert(delivers(made.len() as int, retired, fresh, w, mid));
        assert(mid == retired.update(fresh, Completion::Ready(w)));
        assert(answers_with(next, begun, value, w));
    } else {
        assert(mid == made.update(inner, Completion::Chained(Continuation::Relay { target: fresh })));
        assert(false);
    }
}

/// Single assignment: once a value has been delivered to a state, no promise
/// for that state can be fulfilled again, whatever is delivered or relayed
/// afterwards.
pub proof fn law_fulfilled_once<T, M: Mapper<T>, N: Next<T, M>>(
    before: Seq<Completion<T, M, N>>,
    slot: int,
    value: T,
    after: Seq<Completion<T, M, N>>,
    other: int,
    later: T,
    last: Seq<Completion<T, M, N>>,
)
    requires
        wf(before),
        accepts(before, slot),
        delivers(before.len() as int, before, slot, value, after),
        accepts(after, other),
        delivers(after.len() as int, after, other, later, last),
    ensures
        !accepts(after, slot),
        other != slot,
        !accepts(last, slot),
        !accepts(last, other),
{
    lemma_closed_whole(before);
    lemma_delivery(before.len() as int, before, slot, value, after);
    lemma_closed_whole(after);
    lemma_delivery(after.len() as int, after, other, later, last);
}

/// A claim of a state that holds no value fails and changes nothing: this
/// is what `sync` returns when the fulfiller came back without delivering.
pub proof fn law_premature_sync<T, M, N>(states: Seq<Completion<T, M, N>>, slot: int)
    requires
        !(0 <= slot < states.len() && states[slot] is Ready),
    ensures
        claimed(states, slot) == (Err::<T, PrematureSync>(PrematureSync), states),
{
}

/// Readiness follows fulfillment: an empty state holds the value as soon as
/// its promise is fulfilled, and a delivery to another state leaves it
/// without one, its promise still to be fulfilled.
pub proof fn law_ready_after_fulfill<T, M: Mapper<T>, N: Next<T, M>>(
    before: Seq<Completion<T, M, N>>,
    slot: int,
    other: int,
    value: T,
    after: Seq<Completion<T, M, N>>,
)
    requires
        wf(before),
        accepts(before, slot),
        accepts(before, other),
        before[slot] is Empty,
        delivers(before.len() as int, before, other, value, after),
    ensures
        other == slot ==> after[slot] == Completion::<T, M, N>::Ready(value),
        other != slot ==> accepts(after, slot) && !(after[slot] is Ready),
{
    lemma_closed_whole(before);
    lemma_delivery(before.len() as int, before, other, value, after);
}

/// `map` keeps what a delivery keeps, and fulfills no state of the table it
/// started from.
pub proof fn law_map_settles<T, M: Mapper<T>, N: Next<T, M>>(
    before: Seq<Completion<T, M, N>>,
    slot: int,
    through: M,
    after: Seq<Completion<T, M, N>>,
)
    requires
        wf(before),
        unclaimed(before, slot),
        maps_into(before, slot, through, after),
    ensures
        settles(before, before.len() as int, after),
        after.len() == before.len() + 1,
        unclaimed(after, before.len() as int),
        !after[slot].unclaimed(),
{
    let fresh = before.len() as int;
    if before[slot] is Ready {
        let retired = before.update(slot, Completion::Retired);
        if is_target(before, slot) {
            let c = choose|c: int| crate::state::waits_for(before, c, slot);
            assert(crate::state::waits_for(before, c, slot));
        }
        lemma_wf_settle(before, slot, Completion::Retired);
        let to = choose|to: T|
            #![trigger through.maps(before[slot]->Ready_0, to)]
            through.maps(before[slot]->Ready_0, to) && after == retired.push(
                Completion::Ready(to),
            );
        lemma_wf_push(retired, Completion::Ready(to));
        assert forall|s: int| #[trigger] accepts(before, s) implies accepts(after, s) by {
            assert(after[s] == before[s]);
        }
    } else {
        let grown = before.push(Completion::Empty);
        lemma_wf_push(before, Completion::Empty);
        let waiter = Continuation::<M, N>::Mapping { through, target: fresh };
        lemma_wf_chain(grown, slot, waiter);
        assert(after =~= grown.update(slot, Completion::Chained(waiter)));
        assert forall|s: int| #[trigger] accepts(before, s) && s != fresh implies accepts(
            after,
            s,
        ) by {
            assert(grown[s] == before[s]);
        }
    }
}

/// `then` keeps what a delivery keeps, and fulfills no state of the table it
/// started from.
pub proof fn law_then_settles<T, M: Mapper<T>, N: Next<T, M>>(
    before: Seq<Completion<T, M, N>>,
    slot: int,
    next: N,
    after: Seq<Completion<T, M, N>>,
)
    requires
        wf(before),
        unclaimed(before, slot),
        chains(before, slot, next, after),
    ensures
        settles(before, before.len() as int, after),
        !after[slot].unclaimed(),
{
    let fresh = before.len() as int;
    if before[slot] is Ready {
        let value = before[slot]->Ready_0;
        let retired = before.update(slot, Completion::Retired);
        let begun = started(before, slot);
        if is_target(before, slot) {
            let c = choose|c: int| crate::state::waits_for(before, c, slot);
            assert(crate::state::waits_for(before, c, slot));
        }
        lemma_wf_settle(before, slot, Completion::Retired);
        lemma_wf_push(retired, Completion::Empty);
        let (mid, inner) = choose|mid: Seq<Completion<T, M, N>>, inner: int|
            #![trigger answers(next, begun, value, mid, inner)]
            answers(next, begun, value, mid, inner) && relays(
                mid.len() as int,
                mid,
                inner,
                fresh,
                after,
            );
        lemma_closed_whole(begun);
        lemma_extended(mid, begun, fresh, begun.len() as int);
        assert forall|s: int| #[trigger] accepts(before, s) implies accepts(mid, s) by {
            assert(begun[s] == before[s]);
            assert(accepts(begun, s));
            lemma_extended(mid, begun, s, begun.len() as int);
        }
        lemma_closed_whole(mid);
        lemma_relay(mid.len() as int, mid, inner, fresh, after);
    } else {
        let grown = before.push(Completion::Empty);
        lemma_wf_push(before, Completion::Empty);
        let waiter = Continuation::<M, N>::Chaining { next, target: fresh };
        lemma_wf_chain(grown, slot, waiter);
        assert(after =~= grown.update(slot, Completion::Chained(waiter)));
        assert forall|s: int| #[trigger] accepts(before, s) && s != fresh implies accepts(
            after,
            s,
        ) by {
            assert(grown[s] == before[s]);
        }
    }
}

} // verus!
