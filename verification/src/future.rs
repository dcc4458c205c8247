//! Promises, futures and the engine that holds the completion states they
//! share.

use crate::movecell::MoveCell;
use crate::state::{
    accepts, closed_below, extends, is_target, lemma_closed_whole, lemma_consume, lemma_extended,
    lemma_fire, lemma_waiting_agrees, lemma_waiting_drops, lemma_wf_chain, lemma_wf_push,
    lemma_wf_settle, unclaimed, waiting, waits_for, wf, Completion, Continuation,
};
use std::marker::PhantomData;
use vstd::prelude::*;

verus! {

/// The write-once handle that delivers a value into one completion state.
pub struct Promise<T> {
    state: usize,
    value: PhantomData<T>,
}

/// The read side of one completion state.
pub struct Future<T> {
    state: usize,
    value: PhantomData<T>,
}

impl<T> Promise<T> {
    /// The state that this promise fulfills.
    pub closed spec fn slot(&self) -> int {
        self.state as int
    }
}

impl<T> Future<T> {
    /// The state that this future reads.
    pub closed spec fn slot(&self) -> int {
        self.state as int
    }
}

/// A transformation of an eventual value, applied once.
pub trait Mapper<T>: Sized {
    /// Mapping `from` may give `to`. For a pure function this holds of
    /// exactly one `to`; unless an implementation says more, any result is
    /// possible.
    open spec fn maps(&self, from: T, to: T) -> bool {
        true
    }

    /// Maps `from`.
    fn through(self, from: T) -> (to: T)
        ensures
            self.maps(from, to),
    ;
}

/// A step that answers a value with a future: it may create fresh states in
/// the engine, and leaves the states that were there before as they were.
pub trait Next<T, M>: Sized {
    /// A call of `next` on `from` may turn `before` into `after` and answer
    /// with the future for state `inner`. Unless an implementation says
    /// more, any outcome is possible.
    open spec fn yields(
        &self,
        before: Seq<Completion<T, M, Self>>,
        from: T,
        after: Seq<Completion<T, M, Self>>,
        inner: int,
    ) -> bool {
        true
    }

    /// Produces the future that follows `from`. The future is one that
    /// nobody has consumed.
    fn next(self, engine: &mut Engine<T, M, Self>, from: T) -> (inner: Future<T>)
        ensures
            self.yields(old(engine)@, from, final(engine)@, inner.slot()),
            extends(final(engine)@, old(engine)@),
            unclaimed(final(engine)@, inner.slot()),
    ;
}

/// A continuation as the engine stores it.
pub(crate) enum Chainer<T, M, N> {
    Relay { promise: Promise<T> },
    Mapping { through: M, promise: Promise<T> },
    Chaining { next: N, promise: Promise<T> },
}

impl<T, M, N> View for Chainer<T, M, N> {
    type V = Continuation<M, N>;

    closed spec fn view(&self) -> Continuation<M, N> {
        match self {
            Chainer::Relay { promise } => Continuation::Relay { target: promise.slot() },
            Chainer::Mapping { through, promise } => Continuation::Mapping {
                through: *through,
                target: promise.slot(),
            },
            Chainer::Chaining { next, promise } => Continuation::Chaining {
                next: *next,
                target: promise.slot(),
            },
        }
    }
}

/// What a completion state holds between its two sides.
pub(crate) enum State<T, M, N> {
    Ready(T),
    Chained(Chainer<T, M, N>),
}

struct Shared<T, M, N> {
    cell: MoveCell<State<T, M, N>>,
    spent: bool,
}

impl<T, M, N> Shared<T, M, N> {
    spec fn completion(&self) -> Completion<T, M, N> {
        if self.spent {
            Completion::Retired
        } else {
            match self.cell@ {
                None => Completion::Empty,
                Some(State::Ready(value)) => Completion::Ready(value),
                Some(State::Chained(chainer)) => Completion::Chained(chainer@),
            }
        }
    }
}

spec fn model<T, M, N>(states: Seq<Shared<T, M, N>>) -> Seq<Completion<T, M, N>> {
    Seq::new(states.len(), |i: int| states[i].completion())
}

/// The table of completion states. A promise and its future name one state
/// of it; the view is the sequence of what the states hold.
pub struct Engine<T, M, N> {
    states: Vec<Shared<T, M, N>>,
}

impl<T, M, N> View for Engine<T, M, N> {
    type V = Seq<Completion<T, M, N>>;

    closed spec fn view(&self) -> Seq<Completion<T, M, N>> {
        model(self.states@)
    }
}

impl<T, M, N> Engine<T, M, N> {
    #[verifier::type_invariant]
    spec fn inv(&self) -> bool {
        wf(self@)
    }

    /// Creates an engine without states.
    pub fn new() -> (engine: Self)
        ensures
            engine@ == Seq::<Completion<T, M, N>>::empty(),
    {
        let engine = Engine { states: Vec::new() };
        assert(engine@ =~= Seq::<Completion<T, M, N>>::empty());
        engine
    }

    /// Every engine keeps single assignment among its states: a call of
    /// this function costs nothing and tells the caller so.
    pub fn well_formed(&self)
        ensures
            wf(self@),
    {
        proof {
            use_type_invariant(self);
        }
    }

    /// The number of states.
    pub fn len(&self) -> (len: usize)
        ensures
            len == self@.len(),
    {
        self.states.len()
    }

    /// Adds an empty state and returns its index.
    pub(crate) fn new_state(&mut self) -> (state: usize)
        ensures
            state == old(self)@.len(),
            final(self)@ == old(self)@.push(Completion::Empty),
    {
        proof {
            use_type_invariant(&*self);
            lemma_wf_push(self@, Completion::Empty);
        }
        let mut states = Vec::new();
        std::mem::swap(&mut states, &mut self.states);
        let state = states.len();
        states.push(Shared { cell: MoveCell::new(), spent: false });
        assert(model(states@) =~= old(self)@.push(Completion::Empty));
        self.states = states;
        state
    }

    /// Adds a state that already holds `value` and returns its index.
    pub(crate) fn ready_state(&mut self, value: T) -> (state: usize)
        ensures
            state == old(self)@.len(),
            final(self)@ == old(self)@.push(Completion::Ready(value)),
    {
        proof {
            use_type_invariant(&*self);
            lemma_wf_push(self@, Completion::Ready(value));
        }
        let mut states = Vec::new();
        std::mem::swap(&mut states, &mut self.states);
        let state = states.len();
        states.push(Shared { cell: MoveCell::from_value(State::Ready(value)), spent: false });
        assert(model(states@) =~= old(self)@.push(Completion::Ready(value)));
        self.states = states;
        state
    }

    /// Tells whether `state` holds a value that nobody has consumed.
    pub(crate) fn holds_value(&self, state: usize) -> (ready: bool)
        ensures
            ready == (state < self@.len() && self@[state as int] is Ready),
    {
        if state < self.states.len() {
            if self.states[state].spent {
                false
            } else {
                match self.states[state].cell.get_ref() {
                    Some(State::Ready(_)) => true,
                    _ => false,
                }
            }
        } else {
            false
        }
    }

    /// The promise side takes the state: a waiting continuation leaves it
    /// and the state retires; an empty state stays empty.
    pub(crate) fn take_waiter(&mut self, state: usize) -> (waiter: Option<Chainer<T, M, N>>)
        requires
            accepts(old(self)@, state as int),
        ensures
            match old(self)@[state as int] {
                Completion::Chained(k) => waiter is Some && waiter->Some_0@ == k && final(self)@
                    == old(self)@.update(state as int, Completion::Retired),
                _ => waiter is None && final(self)@ == old(self)@,
            },
    {
        proof {
            use_type_invariant(&*self);
            lemma_wf_settle(self@, state as int, Completion::Retired);
        }
        let mut states = Vec::new();
        std::mem::swap(&mut states, &mut self.states);
        let held = states[state].cell.take();
        match held {
            None => {
                assert(model(states@) =~= old(self)@);
                self.states = states;
                None
            },
            Some(State::Chained(waiter)) => {
                states[state].spent = true;
                assert(model(states@) =~= old(self)@.update(state as int, Completion::Retired));
                self.states = states;
                Some(waiter)
            },
            Some(State::Ready(_)) => unreached(),
        }
    }

    /// Stores `value` in an empty state.
    pub(crate) fn put_value(&mut self, state: usize, value: T)
        requires
            accepts(old(self)@, state as int),
            old(self)@[state as int] is Empty,
        ensures
            final(self)@ == old(self)@.update(state as int, Completion::Ready(value)),
    {
        proof {
            use_type_invariant(&*self);
            lemma_wf_settle(self@, state as int, Completion::Ready(value));
        }
        let mut states = Vec::new();
        std::mem::swap(&mut states, &mut self.states);
        states[state].cell.put(State::Ready(value));
        assert(model(states@) =~= old(self)@.update(state as int, Completion::Ready(value)));
        self.states = states;
    }

    /// The future side takes the state: a value leaves it and the state
    /// retires; an empty state stays empty.
    pub(crate) fn take_value(&mut self, state: usize) -> (value: Option<T>)
        requires
            unclaimed(old(self)@, state as int),
        ensures
            match old(self)@[state as int] {
                Completion::Ready(v) => value == Some(v) && final(self)@ == old(self)@.update(
                    state as int,
                    Completion::Retired,
                ),
                _ => value is None && final(self)@ == old(self)@,
            },
    {
        proof {
            use_type_invariant(&*self);
            if self@[state as int] is Ready {
                if is_target(self@, state as int) {
                    let c = choose|c: int| waits_for(self@, c, state as int);
                    assert(waits_for(self@, c, state as int));
                }
                lemma_wf_settle(self@, state as int, Completion::Retired);
            }
        }
        let mut states = Vec::new();
        std::mem::swap(&mut states, &mut self.states);
        let held = states[state].cell.take();
        match held {
            None => {
                assert(model(states@) =~= old(self)@);
                self.states = states;
                None
            },
            Some(State::Ready(value)) => {
                states[state].spent = true;
                assert(model(states@) =~= old(self)@.update(state as int, Completion::Retired));
                self.states = states;
                Some(value)
            },
            Some(State::Chained(_)) => unreached(),
        }
    }

    /// Registers `waiter` on an empty state.
    pub(crate) fn put_waiter(&mut self, state: usize, waiter: Chainer<T, M, N>)
        requires
            0 <= state < old(self)@.len(),
            old(self)@[state as int] is Empty,
            accepts(old(self)@, waiter@.target()),
        ensures
            final(self)@ == old(self)@.update(state as int, Completion::Chained(waiter@)),
    {
        proof {
            use_type_invariant(&*self);
            lemma_wf_chain(self@, state as int, waiter@);
        }
        let mut states = Vec::new();
        std::mem::swap(&mut states, &mut self.states);
        states[state].cell.put(State::Chained(waiter));
        assert(model(states@) =~= old(self)@.update(state as int, Completion::Chained(waiter@)));
        self.states = states;
    }
}

/// Delivering `value` to state `slot` of `before` may leave `after`.
///
/// An empty state keeps the value. A waiting continuation fires and the state
/// retires: the value, or what the mapper makes of it, or the value of the
/// future that the next step answers with, is delivered to the state that
/// the continuation fulfills. `bound` is the length of the table when the
/// delivery began: a delivery only passes through states below it.
pub open spec fn delivers<T, M: Mapper<T>, N: Next<T, M>>(
    bound: int,
    before: Seq<Completion<T, M, N>>,
    slot: int,
    value: T,
    after: Seq<Completion<T, M, N>>,
) -> bool
    decreases waiting(before, bound), 0nat,
    via delivers_decreases::<T, M, N>
{
    if 0 <= slot < bound <= before.len() {
        match before[slot] {
            Completion::Empty => after == before.update(slot, Completion::Ready(value)),
            Completion::Chained(waiter) => {
                let retired = before.update(slot, Completion::Retired);
                match waiter {
                    Continuation::Relay { target } => delivers(bound, retired, target, value, after),
                    Continuation::Mapping { through, target } => exists|to: T|
                        #![trigger through.maps(value, to)]
                        through.maps(value, to) && delivers(bound, retired, target, to, after),
                    Continuation::Chaining { next, target } => exists|
                        mid: Seq<Completion<T, M, N>>,
                        inner: int,
                    |
                        #![trigger answers(next, retired, value, mid, inner)]
                        answers(next, retired, value, mid, inner) && relays(
                            bound,
                            mid,
                            inner,
                            target,
                            after,
                        ),
                }
            },
            _ => false,
        }
    } else {
        false
    }
}

/// A call of `next` on `from` may turn `before` into `after` and answer with
/// the future for state `inner`.
pub open spec fn answers<T, M: Mapper<T>, N: Next<T, M>>(
    next: N,
    before: Seq<Completion<T, M, N>>,
    from: T,
    after: Seq<Completion<T, M, N>>,
    inner: int,
) -> bool {
    &&& next.yields(before, from, after, inner)
    &&& extends(after, before)
    &&& unclaimed(after, inner)
    &&& wf(after)
}

/// Passing the eventual value of state `inner` on to state `target` may turn
/// `before` into `after`: a value that is there is consumed and delivered at
/// once; on an empty state a relay is registered.
pub open spec fn relays<T, M: Mapper<T>, N: Next<T, M>>(
    bound: int,
    before: Seq<Completion<T, M, N>>,
    inner: int,
    target: int,
    after: Seq<Completion<T, M, N>>,
) -> bool
    decreases waiting(before, bound), 1nat,
    via relays_decreases::<T, M, N>
{
    if 0 <= inner < before.len() && 0 <= bound <= before.len() {
        match before[inner] {
            Completion::Ready(value) => delivers(
                bound,
                before.update(inner, Completion::Retired),
                target,
                value,
                after,
            ),
            Completion::Empty => after == before.update(
                inner,
                Completion::Chained(Continuation::Relay { target }),
            ),
            _ => false,
        }
    } else {
        false
    }
}

#[via_fn]
proof fn delivers_decreases<T, M: Mapper<T>, N: Next<T, M>>(
    bound: int,
    before: Seq<Completion<T, M, N>>,
    slot: int,
    value: T,
    after: Seq<Completion<T, M, N>>,
) {
    if 0 <= slot < bound <= before.len() && before[slot] is Chained {
        let retired = before.update(slot, Completion::Retired);
        lemma_waiting_drops(before, slot, Completion::Retired, bound);
        assert forall|mid: Seq<Completion<T, M, N>>| extends(mid, retired) implies waiting(
            mid,
            bound,
        ) == waiting(retired, bound) by {
            lemma_waiting_agrees(mid, retired, bound);
        }
    }
}

#[via_fn]
proof fn relays_decreases<T, M: Mapper<T>, N: Next<T, M>>(
    bound: int,
    before: Seq<Completion<T, M, N>>,
    inner: int,
    target: int,
    after: Seq<Completion<T, M, N>>,
) {
    if 0 <= inner < before.len() && 0 <= bound <= before.len() && before[inner] is Ready {
        lemma_waiting_agrees(before, before.update(inner, Completion::Retired), bound);
    }
}

/// A delivery to a state on which a mapper waits is the delivery of a mapped
/// value to the state that the mapper fulfills.
pub proof fn lemma_delivers_mapping<T, M: Mapper<T>, N: Next<T, M>>(
    bound: int,
    before: Seq<Completion<T, M, N>>,
    slot: int,
    value: T,
    after: Seq<Completion<T, M, N>>,
    to: T,
)
    requires
        0 <= slot < bound <= before.len(),
        before[slot] is Chained,
        before[slot]->Chained_0 is Mapping,
        before[slot]->Chained_0->through.maps(value, to),
        delivers(
            bound,
            before.update(slot, Completion::Retired),
            before[slot]->Chained_0.target(),
            to,
            after,
        ),
    ensures
        delivers(bound, before, slot, value, after),
{
}

/// A delivery to a state on which a next step waits is made of the step's
/// answer and of passing that future's value on.
pub proof fn lemma_delivers_chaining<T, M: Mapper<T>, N: Next<T, M>>(
    bound: int,
    before: Seq<Completion<T, M, N>>,
    slot: int,
    value: T,
    after: Seq<Completion<T, M, N>>,
    mid: Seq<Completion<T, M, N>>,
    inner: int,
)
    requires
        0 <= slot < bound <= before.len(),
        before[slot] is Chained,
        before[slot]->Chained_0 is Chaining,
        answers(
            before[slot]->Chained_0->next,
            before.update(slot, Completion::Retired),
            value,
            mid,
            inner,
        ),
        relays(bound, mid, inner, before[slot]->Chained_0.target(), after),
    ensures
        delivers(bound, before, slot, value, after),
{
}

/// Delivers `value` to `state`, firing the chain of continuations that waits
/// on it.
fn deliver<T, M: Mapper<T>, N: Next<T, M>>(
    engine: &mut Engine<T, M, N>,
    state: usize,
    value: T,
    Ghost(bound): Ghost<int>,
)
    requires
        accepts(old(engine)@, state as int),
        state < bound,
        closed_below(old(engine)@, bound),
    ensures
        delivers(bound, old(engine)@, state as int, value, final(engine)@),
    decreases waiting(old(engine)@, bound), 0nat,
{
    proof {
        use_type_invariant(&*engine);
        if engine@[state as int] is Chained {
            lemma_fire(engine@, state as int, bound);
        }
    }
    match engine.take_waiter(state) {
        None => {
            engine.put_value(state, value);
        },
        Some(Chainer::Relay { promise }) => {
            deliver(engine, promise.state, value, Ghost(bound));
        },
        Some(Chainer::Mapping { through, promise }) => {
            let to = through.through(value);
            deliver(engine, promise.state, to, Ghost(bound));
            proof {
                lemma_delivers_mapping(bound, old(engine)@, state as int, value, engine@, to);
            }
        },
        Some(Chainer::Chaining { next, promise }) => {
            let ghost retired = engine@;
            let inner = next.next(engine, value);
            let ghost mid = engine@;
            proof {
                use_type_invariant(&*engine);
                lemma_extended(mid, retired, promise.slot(), bound);
            }
            relay(engine, inner.state, promise, Ghost(bound));
            proof {
                lemma_delivers_chaining(
                    bound,
                    old(engine)@,
                    state as int,
                    value,
                    engine@,
                    mid,
                    inner.slot(),
                );
            }
        },
    }
}

/// Passes the eventual value of `inner` on to `promise`.
fn relay<T, M: Mapper<T>, N: Next<T, M>>(
    engine: &mut Engine<T, M, N>,
    inner: usize,
    promise: Promise<T>,
    Ghost(bound): Ghost<int>,
)
    requires
        unclaimed(old(engine)@, inner as int),
        accepts(old(engine)@, promise.slot()),
        promise.slot() < bound,
        closed_below(old(engine)@, bound),
    ensures
        relays(bound, old(engine)@, inner as int, promise.slot(), final(engine)@),
    decreases waiting(old(engine)@, bound), 1nat,
{
    proof {
        use_type_invariant(&*engine);
        if engine@[inner as int] is Ready {
            lemma_consume(engine@, inner as int, promise.slot(), bound);
        }
    }
    match engine.take_value(inner) {
        Some(value) => {
            deliver(engine, promise.state, value, Ghost(bound));
        },
        None => {
            engine.put_waiter(inner, Chainer::Relay { promise });
        },
    }
}

impl<T> Promise<T> {
    fn from_state(state: usize) -> (promise: Promise<T>)
        ensures
            promise.slot() == state,
    {
        Promise { state, value: PhantomData }
    }

    fn new<M, N>(engine: &mut Engine<T, M, N>) -> (promise: Promise<T>)
        ensures
            promise.slot() == old(engine)@.len(),
            final(engine)@ == old(engine)@.push(Completion::Empty),
    {
        Promise::from_state(engine.new_state())
    }

    fn cont(&self) -> (future: Future<T>)
        ensures
            future.slot() == self.slot(),
    {
        Future { state: self.state, value: PhantomData }
    }

    /// Delivers `value` into the promise's state. With nobody waiting the
    /// state keeps the value; a waiting continuation is invoked at once, on
    /// the spot, and so is every continuation that its result reaches.
    ///
    /// A promise is fulfilled once: the state must not have been fulfilled,
    /// nor be reserved for a continuation to fulfill.
    pub fn fulfill<M: Mapper<T>, N: Next<T, M>>(self, engine: &mut Engine<T, M, N>, value: T)
        requires
            accepts(old(engine)@, self.slot()),
        ensures
            delivers(
                old(engine)@.len() as int,
                old(engine)@,
                self.slot(),
                value,
                final(engine)@,
            ),
    {
        proof {
            use_type_invariant(&*engine);
            lemma_closed_whole(engine@);
        }
        deliver(engine, self.state, value, Ghost(engine@.len() as int));
    }
}

/// `after` may be what `map` leaves of `before` when it consumes the future
/// for `slot`: a fresh state is appended for the result; a value that is
/// there is mapped at once, and on an empty state the mapper waits.
pub open spec fn maps_into<T, M: Mapper<T>, N>(
    before: Seq<Completion<T, M, N>>,
    slot: int,
    through: M,
    after: Seq<Completion<T, M, N>>,
) -> bool {
    match before[slot] {
        Completion::Ready(value) => exists|to: T|
            #![trigger through.maps(value, to)]
            through.maps(value, to) && after == before.update(slot, Completion::Retired).push(
                Completion::Ready(to),
            ),
        _ => after == before.update(
            slot,
            Completion::Chained(
                Continuation::Mapping { through, target: before.len() as int },
            ),
        ).push(Completion::Empty),
    }
}

/// `after` may be what `then` leaves of `before` when it consumes the
/// future for `slot`: a fresh state is appended for the result; on a value
/// that is there the next step runs at once and its future is passed on to
/// the fresh state, and on an empty state the step waits.
pub open spec fn chains<T, M: Mapper<T>, N: Next<T, M>>(
    before: Seq<Completion<T, M, N>>,
    slot: int,
    next: N,
    after: Seq<Completion<T, M, N>>,
) -> bool {
    let fresh = before.len() as int;
    match before[slot] {
        Completion::Ready(value) => exists|mid: Seq<Completion<T, M, N>>, inner: int|
            answers(
                next,
                before.update(slot, Completion::Retired).push(Completion::Empty),
                value,
                mid,
                inner,
            ) && relays(mid.len() as int, mid, inner, fresh, after),
        _ => after == before.update(
            slot,
            Completion::Chained(Continuation::Chaining { next, target: fresh }),
        ).push(Completion::Empty),
    }
}

impl<T> Future<T> {
    /// Tells whether the value has arrived and has not been consumed.
    pub fn ready<M, N>(&self, engine: &Engine<T, M, N>) -> (ready: bool)
        ensures
            ready == (self.slot() < engine@.len() && engine@[self.slot()] is Ready),
    {
        engine.holds_value(self.state)
    }

    /// Transforms the eventual value. The new future is returned at once; if
    /// the value is there already, it is mapped before `map` returns.
    ///
    /// A future takes one continuation: it must not have been consumed.
    pub fn map<M: Mapper<T>, N>(
        self,
        engine: &mut Engine<T, M, N>,
        through: M,
    ) -> (cont: Future<T>)
        requires
            unclaimed(old(engine)@, self.slot()),
        ensures
            cont.slot() == old(engine)@.len(),
            maps_into(old(engine)@, self.slot(), through, final(engine)@),
    {
        proof {
            use_type_invariant(&*engine);
            lemma_wf_push(engine@, Completion::Empty);
        }
        let ghost before = engine@;
        let promise = Promise::new(engine);
        let cont = promise.cont();
        proof {
            use_type_invariant(&*engine);
        }
        match engine.take_value(self.state) {
            Some(from) => {
                proof {
                    use_type_invariant(&*engine);
                    lemma_closed_whole(before.push(Completion::Empty));
                    lemma_consume(
                        before.push(Completion::Empty),
                        self.slot(),
                        promise.slot(),
                        (before.len() + 1) as int,
                    );
                }
                let to = through.through(from);
                engine.put_value(promise.state, to);
                assert(engine@ =~= before.update(self.slot(), Completion::Retired).push(
                    Completion::Ready(to),
                ));
            },
            None => {
                engine.put_waiter(self.state, Chainer::Mapping { through, promise });
                assert(engine@ =~= before.update(
                    self.slot(),
                    Completion::Chained(
                        Continuation::Mapping { through, target: before.len() as int },
                    ),
                ).push(Completion::Empty));
            },
        }
        cont
    }

    /// Chains to another future. The new future is returned at once; if the
    /// value is there already, `next` runs before `then` returns and its
    /// future is passed on to the new one.
    ///
    /// A future takes one continuation: it must not have been consumed.
    pub fn then<M: Mapper<T>, N: Next<T, M>>(
        self,
        engine: &mut Engine<T, M, N>,
        next: N,
    ) -> (cont: Future<T>)
        requires
            unclaimed(old(engine)@, self.slot()),
        ensures
            cont.slot() == old(engine)@.len(),
            chains(old(engine)@, self.slot(), next, final(engine)@),
    {
        proof {
            use_type_invariant(&*engine);
            lemma_wf_push(engine@, Completion::Empty);
        }
        let ghost before = engine@;
        let promise = Promise::new(engine);
        let cont = promise.cont();
        proof {
            use_type_invariant(&*engine);
        }
        match engine.take_value(self.state) {
            Some(from) => {
                let ghost started = engine@;
                proof {
                    use_type_invariant(&*engine);
                    lemma_closed_whole(before.push(Completion::Empty));
                    lemma_consume(
                        before.push(Completion::Empty),
                        self.slot(),
                        promise.slot(),
                        (before.len() + 1) as int,
                    );
                    assert(started =~= before.update(self.slot(), Completion::Retired).push(
                        Completion::Empty,
                    ));
                }
                let inner = next.next(engine, from);
                proof {
                    use_type_invariant(&*engine);
                    lemma_extended(engine@, started, promise.slot(), started.len() as int);
                    lemma_closed_whole(engine@);
                    assert(answers(next, started, from, engine@, inner.slot()));
                }
                relay(engine, inner.state, promise, Ghost(engine@.len() as int));
            },
            None => {
                engine.put_waiter(self.state, Chainer::Chaining { next, promise });
                assert(engine@ =~= before.update(
                    self.slot(),
                    Completion::Chained(
                        Continuation::Chaining { next, target: before.len() as int },
                    ),
                ).push(Completion::Empty));
            },
        }
        cont
    }

    /// Passes the eventual value on to `promise`: a value that is there is
    /// delivered at once, otherwise a relay waits for it.
    ///
    /// The future must not have been consumed, and the promise must be one
    /// that may be fulfilled.
    pub fn forward<M: Mapper<T>, N: Next<T, M>>(
        self,
        engine: &mut Engine<T, M, N>,
        promise: Promise<T>,
    )
        requires
            unclaimed(old(engine)@, self.slot()),
            accepts(old(engine)@, promise.slot()),
        ensures
            relays(
                old(engine)@.len() as int,
                old(engine)@,
                self.slot(),
                promise.slot(),
                final(engine)@,
            ),
    {
        proof {
            use_type_invariant(&*engine);
            lemma_closed_whole(engine@);
        }
        relay(engine, self.state, promise, Ghost(engine@.len() as int));
    }
}

/// A collaborator that produces the value for a promise.
pub trait Fulfiller<T, M, N> {
    /// A call of `sync` with the promise for state `promise` may turn the
    /// fulfiller into `left` and `before` into `after`. Unless an
    /// implementation says more, any outcome is possible.
    open spec fn syncs(
        &self,
        before: Seq<Completion<T, M, N>>,
        promise: int,
        left: &Self,
        after: Seq<Completion<T, M, N>>,
    ) -> bool {
        true
    }

    /// A call of `async_` with the promise for state `promise` may turn the
    /// fulfiller into `left` and `before` into `after`. Unless an
    /// implementation says more, any outcome is possible.
    open spec fn asyncs(
        &self,
        before: Seq<Completion<T, M, N>>,
        promise: int,
        left: &Self,
        after: Seq<Completion<T, M, N>>,
    ) -> bool {
        true
    }

    /// Is to fulfill `promise` before it returns. The promise is handed over
    /// fresh: it may be fulfilled.
    fn sync(&mut self, engine: &mut Engine<T, M, N>, promise: Promise<T>)
        requires
            accepts(old(engine)@, promise.slot()),
        ensures
            old(self).syncs(old(engine)@, promise.slot(), final(self), final(engine)@),
    ;

    /// May keep `promise` and fulfill it later. The promise is handed over
    /// fresh: it may be fulfilled.
    fn async_(&mut self, engine: &mut Engine<T, M, N>, promise: Promise<T>)
        requires
            accepts(old(engine)@, promise.slot()),
        ensures
            old(self).asyncs(old(engine)@, promise.slot(), final(self), final(engine)@),
    ;
}

/// The fulfiller of futures that need none: it does nothing, and is never
/// asked.
pub struct NoopFulfiller<T> {
    value: PhantomData<T>,
}

impl<T, M, N> Fulfiller<T, M, N> for NoopFulfiller<T> {
    open spec fn syncs(
        &self,
        before: Seq<Completion<T, M, N>>,
        promise: int,
        left: &Self,
        after: Seq<Completion<T, M, N>>,
    ) -> bool {
        after == before
    }

    open spec fn asyncs(
        &self,
        before: Seq<Completion<T, M, N>>,
        promise: int,
        left: &Self,
        after: Seq<Completion<T, M, N>>,
    ) -> bool {
        after == before
    }

    fn sync(&mut self, _engine: &mut Engine<T, M, N>, _promise: Promise<T>) {
    }

    fn async_(&mut self, _engine: &mut Engine<T, M, N>, _promise: Promise<T>) {
    }
}

/// The fulfiller of a driven future returned without delivering a value.
#[derive(Debug, PartialEq, Eq, Structural)]
pub struct PrematureSync;

/// What claiming the value of state `slot` returns and leaves of `before`: a
/// value that is there is returned and the state retires; without one the
/// table stays as it is.
pub open spec fn claimed<T, M, N>(before: Seq<Completion<T, M, N>>, slot: int) -> (
    Result<T, PrematureSync>,
    Seq<Completion<T, M, N>>,
) {
    if 0 <= slot < before.len() && before[slot] is Ready {
        (Ok(before[slot]->Ready_0), before.update(slot, Completion::Retired))
    } else {
        (Err(PrematureSync), before)
    }
}

/// A future bound to the fulfiller that is to produce its value.
#[must_use]
pub struct SyncFuture<'a, T, F> {
    fulfiller: Option<&'a mut F>,
    state: usize,
    value: PhantomData<T>,
}

impl<'a, T, F> SyncFuture<'a, T, F> {
    /// The state that this future reads.
    pub closed spec fn slot(&self) -> int {
        self.state as int
    }

    /// The fulfiller bound to this future, if there is one.
    pub closed spec fn bound(self) -> Option<&'a mut F> {
        self.fulfiller
    }

    /// A fulfiller is bound to this future.
    pub open spec fn driven(self) -> bool {
        self.bound() is Some
    }

    /// Binds a future on a fresh empty state to `fulfiller`.
    pub fn new<M, N>(engine: &mut Engine<T, M, N>, fulfiller: &'a mut F) -> (future: SyncFuture<
        'a,
        T,
        F,
    >)
        ensures
            future.slot() == old(engine)@.len(),
            future.driven(),
            *future.bound()->Some_0 == *old(fulfiller),
            *final(future.bound()->Some_0) == *final(fulfiller),
            final(engine)@ == old(engine)@.push(Completion::Empty),
            accepts(final(engine)@, future.slot()),
    {
        proof {
            use_type_invariant(&*engine);
            lemma_wf_push(engine@, Completion::Empty);
        }
        SyncFuture { fulfiller: Some(fulfiller), state: engine.new_state(), value: PhantomData }
    }

    /// Tells whether the value has arrived and has not been consumed.
    pub fn ready<M, N>(&self, engine: &Engine<T, M, N>) -> (ready: bool)
        ensures
            ready == (self.slot() < engine@.len() && engine@[self.slot()] is Ready),
    {
        engine.holds_value(self.state)
    }

    fn make_promise(&self) -> (promise: Promise<T>)
        ensures
            promise.slot() == self.slot(),
    {
        Promise::from_state(self.state)
    }

    /// Takes the value if it has arrived.
    pub fn claim<M, N>(self, engine: &mut Engine<T, M, N>) -> (value: Result<T, PrematureSync>)
        ensures
            (value, final(engine)@) == claimed(old(engine)@, self.slot()),
    {
        if engine.holds_value(self.state) {
            match engine.take_value(self.state) {
                Some(value) => Ok(value),
                None => unreached(),
            }
        } else {
            Err(PrematureSync)
        }
    }

    /// Has the fulfiller deliver now and returns the value. Without a
    /// fulfiller the value must have arrived before.
    ///
    /// A bound fulfiller is handed the promise of this future's state, which
    /// must be one that may be fulfilled.
    pub fn sync<M, N>(self, engine: &mut Engine<T, M, N>) -> (value: Result<
        T,
        PrematureSync,
    >) where F: Fulfiller<T, M, N>
        requires
            self.driven() ==> accepts(old(engine)@, self.slot()),
        ensures
            !self.driven() ==> (value, final(engine)@) == claimed(old(engine)@, self.slot()),
            self.driven() ==> exists|mid: Seq<Completion<T, M, N>>|
                #![trigger claimed(mid, self.slot())]
                (*self.bound()->Some_0).syncs(
                    old(engine)@,
                    self.slot(),
                    final(self.bound()->Some_0),
                    mid,
                ) && (value, final(engine)@) == claimed(mid, self.slot()),
    {
        let promise = self.make_promise();
        let state = self.state;
        match self.fulfiller {
            Some(fulfiller) => {
                fulfiller.sync(engine, promise);
            },
            None => {},
        }
        let ghost mid = engine@;
        let rest = SyncFuture::<'a, T, F> { fulfiller: None, state, value: PhantomData };
        let value = rest.claim(engine);
        proof {
            if self.driven() {
                assert((value, engine@) == claimed(mid, self.slot()));
            }
        }
        value
    }

    /// Hands the promise to the fulfiller, which may deliver later, and
    /// returns the plain future at once.
    ///
    /// A bound fulfiller is handed the promise of this future's state, which
    /// must be one that may be fulfilled.
    pub fn async_<M, N>(self, engine: &mut Engine<T, M, N>) -> (cont: Future<
        T,
    >) where F: Fulfiller<T, M, N>
        requires
            self.driven() ==> accepts(old(engine)@, self.slot()),
        ensures
            cont.slot() == self.slot(),
            !self.driven() ==> final(engine)@ == old(engine)@,
            self.driven() ==> (*self.bound()->Some_0).asyncs(
                old(engine)@,
                self.slot(),
                final(self.bound()->Some_0),
                final(engine)@,
            ),
    {
        let promise = self.make_promise();
        let state = self.state;
        match self.fulfiller {
            Some(fulfiller) => {
                fulfiller.async_(engine, promise);
            },
            None => {},
        }
        Future { state, value: PhantomData }
    }
}

impl<T> SyncFuture<'static, T, NoopFulfiller<T>> {
    /// A future whose value is known up front.
    pub fn new_ready<M, N>(engine: &mut Engine<T, M, N>, value: T) -> (future: SyncFuture<
        'static,
        T,
        NoopFulfiller<T>,
    >)
        ensures
            future.slot() == old(engine)@.len(),
            !future.driven(),
            final(engine)@ == old(engine)@.push(Completion::Ready(value)),
    {
        SyncFuture { fulfiller: None, state: engine.ready_state(value), value: PhantomData }
    }

    /// A future on a fresh empty state, with the promise that fulfills it.
    pub fn new_with_promise<M, N>(engine: &mut Engine<T, M, N>) -> (pair: (
        SyncFuture<'static, T, NoopFulfiller<T>>,
        Promise<T>,
    ))
        ensures
            pair.0.slot() == old(engine)@.len(),
            pair.1.slot() == old(engine)@.len(),
            !pair.0.driven(),
            final(engine)@ == old(engine)@.push(Completion::Empty),
            accepts(final(engine)@, pair.1.slot()),
    {
        proof {
            use_type_invariant(&*engine);
            lemma_wf_push(engine@, Completion::Empty);
        }
        let op = SyncFuture { fulfiller: None, state: engine.new_state(), value: PhantomData };
        let prom = op.make_promise();
        (op, prom)
    }
}

} // verus!
