//! A value that is computed when it is first asked for, and kept.

use vstd::prelude::*;

verus! {

/// A one-shot computation of a `T`.
pub trait Generator<T>: Sized {
    /// The generator may be run.
    spec fn runnable(&self) -> bool;

    /// Running the generator may give `value`.
    spec fn produces(&self, value: T) -> bool;

    /// Runs the generator.
    fn generate(self) -> (value: T)
        requires
            self.runnable(),
        ensures
            self.produces(value),
    ;
}

impl<T, F: FnOnce() -> T> Generator<T> for F {
    open spec fn runnable(&self) -> bool {
        self.requires(())
    }

    open spec fn produces(&self, value: T) -> bool {
        self.ensures((), value)
    }

    fn generate(self) -> (value: T) {
        self()
    }
}

/// A closure is a generator: it may be run where it may be called, and
/// produces what a call of it returns.
pub proof fn lemma_closure_generates<T, F: FnOnce() -> T>(generator: F)
    ensures
        generator.runnable() == generator.requires(()),
        forall|value: T| #[trigger] generator.produces(value) == generator.ensures((), value),
{
}

/// A generator that hands out a value it was given. It is also the generator
/// type of the lazy values that are there from the start, which never ask it.
pub struct Given<T> {
    value: T,
}

impl<T> Given<T> {
    /// The value that this generator hands out.
    pub closed spec fn value(&self) -> T {
        self.value
    }

    /// A generator that hands out `value`.
    pub fn new(value: T) -> (given: Given<T>)
        ensures
            given.value() == value,
    {
        Given { value }
    }
}

impl<T> Generator<T> for Given<T> {
    open spec fn runnable(&self) -> bool {
        true
    }

    open spec fn produces(&self, value: T) -> bool {
        value == self.value()
    }

    fn generate(self) -> (value: T) {
        self.value
    }
}

enum LazyState<T, G> {
    Deferred(G),
    Evaluating,
    Cached(T),
}

/// A value of type `T` that is either there or still to be computed by a
/// generator of type `G`.
pub struct Lazy<T, G: Generator<T>> {
    state: LazyState<T, G>,
}

impl<T, G: Generator<T>> Lazy<T, G> {
    #[verifier::type_invariant]
    spec fn inv(&self) -> bool {
        match self.state {
            LazyState::Deferred(generator) => generator.runnable(),
            _ => true,
        }
    }

    /// The value is being computed: a generator that was started has not
    /// come back.
    pub closed spec fn evaluating(&self) -> bool {
        self.state is Evaluating
    }

    /// The value, once it is there.
    pub closed spec fn cached(&self) -> Option<T> {
        match self.state {
            LazyState::Cached(value) => Some(value),
            _ => None,
        }
    }

    /// The generator, while the value is still to be computed.
    pub closed spec fn generator(&self) -> Option<G> {
        match self.state {
            LazyState::Deferred(generator) => Some(generator),
            _ => None,
        }
    }

    /// Reading this lazy value may give `value`: the value that is there, or
    /// one that the generator produces.
    pub open spec fn evaluates_to(&self, value: T) -> bool {
        match self.cached() {
            Some(cached) => value == cached,
            None => self.generator() is Some && self.generator()->Some_0.produces(value),
        }
    }

    /// A lazy value computed by `generator` when it is first read.
    pub fn from_fn(generator: G) -> (lazy: Lazy<T, G>)
        requires
            generator.runnable(),
        ensures
            lazy.cached() is None,
            lazy.generator() == Some(generator),
            !lazy.evaluating(),
    {
        Lazy { state: LazyState::Deferred(generator) }
    }

    /// Consumes the lazy value and returns its value, computing it if it
    /// is not there.
    ///
    /// The value must not be in the middle of being computed.
    pub fn unwrap(self) -> (value: T)
        requires
            !self.evaluating(),
        ensures
            self.evaluates_to(value),
    {
        proof {
            use_type_invariant(&self);
        }
        match self.state {
            LazyState::Cached(value) => value,
            LazyState::Deferred(generator) => generator.generate(),
            LazyState::Evaluating => unreached(),
        }
    }

    /// Borrows the value, computing and keeping it if it is not there.
    ///
    /// The value must not be in the middle of being computed.
    pub fn get(&mut self) -> (value: &T)
        requires
            !old(self).evaluating(),
        ensures
            old(self).evaluates_to(*value),
            final(self).cached() == Some(*value),
            !final(self).evaluating(),
    {
        let deferred = match &self.state {
            LazyState::Deferred(_) => true,
            _ => false,
        };
        if deferred {
            self.evaluate();
        }
        match &self.state {
            LazyState::Cached(value) => value,
            _ => unreached(),
        }
    }

    /// Runs the generator and keeps what it made. While the generator runs
    /// the state says so.
    fn evaluate(&mut self)
        requires
            old(self).state is Deferred,
        ensures
            final(self).cached() is Some,
            old(self).evaluates_to(final(self).cached()->Some_0),
            !final(self).evaluating(),
    {
        proof {
            use_type_invariant(&*self);
        }
        let mut state = LazyState::Evaluating;
        std::mem::swap(&mut state, &mut self.state);
        match state {
            LazyState::Deferred(generator) => {
                self.state = LazyState::Cached(generator.generate());
            },
            _ => unreached(),
        }
    }
}

impl<T> Lazy<T, Given<T>> {
    /// A lazy value that is there from the start.
    pub fn from_value(value: T) -> (lazy: Lazy<T, Given<T>>)
        ensures
            lazy.cached() == Some(value),
            !lazy.evaluating(),
    {
        Lazy { state: LazyState::Cached(value) }
    }
}

} // verus!
