//! The decisions of the event loop: which registered readers to invoke
//! once the sources have been polled.

use vstd::prelude::*;

verus! {

/// The events signaled for a source hold one of the events asked for.
pub open spec fn spec_readable(revents: i16, events: i16) -> bool {
    revents & events != 0
}

/// Tells whether the events signaled for a source hold one of the events
/// asked for.
#[verifier::when_used_as_spec(spec_readable)]
pub fn readable(revents: i16, events: i16) -> (signaled: bool)
    ensures
        signaled == spec_readable(revents, events),
{
    revents & events != 0
}

/// `ready` lists, in increasing order, exactly the indices of `revents` at
/// which one of `events` is signaled.
pub open spec fn selects(revents: Seq<i16>, events: i16, ready: Seq<usize>) -> bool {
    &&& forall|k: int|
        0 <= k < ready.len() ==> (#[trigger] ready[k]) < revents.len() && readable(
            revents[ready[k] as int],
            events,
        )
    &&& forall|j: int, k: int| 0 <= j < k < ready.len() ==> ready[j] < ready[k]
    &&& forall|i: int|
        0 <= i < revents.len() && readable(#[trigger] revents[i], events) ==> exists|k: int|
            0 <= k < ready.len() && ready[k] == i
}

/// Picks the readers to invoke after a poll: `revents` holds, for each
/// registered source in the order of registration, the events that the poll
/// signaled, and `events` the events that make a source readable; the
/// result holds the indices of the sources to read.
pub fn ready_readers(revents: &Vec<i16>, events: i16) -> (ready: Vec<usize>)
    ensures
        selects(revents@, events, ready@),
{
    let mut ready: Vec<usize> = Vec::new();
    let mut index: usize = 0;
    while index < revents.len()
        invariant
            index <= revents.len(),
            selects(revents@.take(index as int), events, ready@),
        decreases revents.len() - index,
    {
        let ghost seen = revents@.take(index as int);
        let ghost picked = ready@;
        if readable(revents[index], events) {
            ready.push(index);
            proof {
                let grown = revents@.take(index + 1);
                assert forall|i: int|
                    0 <= i < grown.len() && readable(#[trigger] grown[i], events) implies exists|k: int|
                    0 <= k < ready@.len() && ready@[k] == i by {
                    if i < index {
                        assert(readable(seen[i], events));
                        let k = choose|k: int| 0 <= k < picked.len() && picked[k] == i;
                        assert(ready@[k] == i);
                    } else {
                        assert(ready@[picked.len() as int] == i);
                    }
                }
            }
        } else {
            proof {
                let grown = revents@.take(index + 1);
                assert forall|i: int|
                    0 <= i < grown.len() && readable(#[trigger] grown[i], events) implies exists|k: int|
                    0 <= k < ready@.len() && ready@[k] == i by {
                    assert(readable(seen[i], events));
                }
            }
        }
        index += 1;
    }
    assert(revents@.take(index as int) =~= revents@);
    ready
}

/// The selection is unique: two lists that both select from the same events
/// are equal.
pub proof fn lemma_selects_one(
    revents: Seq<i16>,
    events: i16,
    left: Seq<usize>,
    right: Seq<usize>,
)
    requires
        selects(revents, events, left),
        selects(revents, events, right),
    ensures
        left == right,
    decreases revents.len(),
{
    if revents.len() == 0 {
        if left.len() > 0 {
            assert(left[0] < revents.len());
        }
        if right.len() > 0 {
            assert(right[0] < revents.len());
        }
        assert(left =~= right);
    } else {
        let last = revents.len() - 1;
        let front = revents.drop_last();
        let left_front = if readable(revents[last], events) {
            left.drop_last()
        } else {
            left
        };
        let right_front = if readable(revents[last], events) {
            right.drop_last()
        } else {
            right
        };
        lemma_selects_front(revents, events, left);
        lemma_selects_front(revents, events, right);
        lemma_selects_one(front, events, left_front, right_front);
        if readable(revents[last], events) {
            assert(left =~= left_front.push(last as usize));
            assert(right =~= right_front.push(last as usize));
        }
    }
}

/// A selection from events ends with the last index exactly when that source
/// is signaled, and what comes before selects from the events before.
proof fn lemma_selects_front(revents: Seq<i16>, events: i16, ready: Seq<usize>)
    requires
        revents.len() > 0,
        selects(revents, events, ready),
    ensures
        readable(revents.last(), events) ==> ready.len() > 0 && ready.last() == revents.len() - 1
            && selects(revents.drop_last(), events, ready.drop_last()),
        !readable(revents.last(), events) ==> selects(revents.drop_last(), events, ready),
{
    let last = revents.len() - 1;
    let front = revents.drop_last();
    if readable(revents[last], events) {
        let k = choose|k: int| 0 <= k < ready.len() && ready[k] == last;
        if k < ready.len() - 1 {
            assert(ready[k] < ready[ready.len() - 1]);
        }
        let rest = ready.drop_last();
        assert forall|j: int| 0 <= j < rest.len() implies (#[trigger] rest[j]) < front.len()
            && readable(front[rest[j] as int], events) by {
            assert(ready[j] < ready[k]);
        }
        assert forall|i: int|
            0 <= i < front.len() && readable(#[trigger] front[i], events) implies exists|j: int|
            0 <= j < rest.len() && rest[j] == i by {
            assert(readable(revents[i], events));
            let j = choose|j: int| 0 <= j < ready.len() && ready[j] == i;
            assert(rest[j] == i);
        }
    } else {
        assert forall|j: int| 0 <= j < ready.len() implies (#[trigger] ready[j]) < front.len()
            && readable(front[ready[j] as int], events) by {}
        assert forall|i: int|
            0 <= i < front.len() && readable(#[trigger] front[i], events) implies exists|j: int|
            0 <= j < ready.len() && ready[j] == i by {
            assert(readable(revents[i], events));
        }
    }
}

} // verus!
