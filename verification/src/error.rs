//! An error value: a coarse classification and a description that may be
//! computed only when it is asked for.

use crate::lazy::{Generator, Given, Lazy};
use std::marker::PhantomData;
use vstd::prelude::*;

verus! {

/// The coarse classification of a failure.
#[derive(Clone, Copy, Debug, PartialEq, Eq, Structural)]
pub enum ErrorCode {
    DeadlineExceeded,
    NetworkError,
    InternalServerError,
}

/// A string that is either borrowed for the whole run or owned.
pub enum MaybeOwned {
    Slice(&'static str),
    Owned(String),
}

impl View for MaybeOwned {
    type V = Seq<char>;

    open spec fn view(&self) -> Seq<char> {
        match self {
            MaybeOwned::Slice(slice) => slice@,
            MaybeOwned::Owned(owned) => owned@,
        }
    }
}

impl MaybeOwned {
    /// Borrows the characters.
    pub fn as_slice(&self) -> (slice: &str)
        ensures
            slice@ == self@,
    {
        match self {
            MaybeOwned::Slice(slice) => slice,
            MaybeOwned::Owned(owned) => owned.as_str(),
        }
    }
}

/// What can serve as a description.
pub trait IntoMaybeOwned: Sized {
    /// The characters of the description.
    spec fn text(&self) -> Seq<char>;

    /// Converts without changing the characters.
    fn into_maybe_owned(self) -> (converted: MaybeOwned)
        ensures
            converted@ == self.text(),
    ;
}

impl IntoMaybeOwned for &'static str {
    open spec fn text(&self) -> Seq<char> {
        self@
    }

    fn into_maybe_owned(self) -> (converted: MaybeOwned) {
        MaybeOwned::Slice(self)
    }
}

impl IntoMaybeOwned for String {
    open spec fn text(&self) -> Seq<char> {
        self@
    }

    fn into_maybe_owned(self) -> (converted: MaybeOwned) {
        MaybeOwned::Owned(self)
    }
}

impl IntoMaybeOwned for MaybeOwned {
    open spec fn text(&self) -> Seq<char> {
        self@
    }

    fn into_maybe_owned(self) -> (converted: MaybeOwned) {
        self
    }
}

/// A generator of descriptions made of a generator of anything that can
/// serve as one.
pub struct Described<D, F> {
    desc: F,
    text: PhantomData<D>,
}

impl<D: IntoMaybeOwned, F: Generator<D>> Described<D, F> {
    /// The generator whose results are converted.
    pub closed spec fn source(&self) -> F {
        self.desc
    }
}

impl<D: IntoMaybeOwned, F: Generator<D>> Generator<MaybeOwned> for Described<D, F> {
    open spec fn runnable(&self) -> bool {
        self.source().runnable()
    }

    open spec fn produces(&self, value: MaybeOwned) -> bool {
        exists|made: D| #[trigger] self.source().produces(made) && value@ == made.text()
    }

    fn generate(self) -> (value: MaybeOwned) {
        let made = self.desc.generate();
        made.into_maybe_owned()
    }
}

/// A failure: its code, and a description.
pub struct Error<G: Generator<MaybeOwned>> {
    code: ErrorCode,
    desc: Lazy<MaybeOwned, G>,
}

impl<G: Generator<MaybeOwned>> Error<G> {
    /// The classification.
    pub closed spec fn kind(&self) -> ErrorCode {
        self.code
    }

    /// The description, as far as it is there or still to be computed.
    pub closed spec fn lazy_desc(&self) -> Lazy<MaybeOwned, G> {
        self.desc
    }

    /// Reading the description may give `text`.
    pub open spec fn described(&self, text: Seq<char>) -> bool {
        exists|desc: MaybeOwned| #[trigger] self.lazy_desc().evaluates_to(desc) && desc@ == text
    }

    /// The classification.
    pub fn code(&self) -> (code: ErrorCode)
        ensures
            code == self.kind(),
    {
        self.code
    }

    /// The description, computed on the first call and kept for the later
    /// ones.
    ///
    /// The description must not be in the middle of being computed.
    pub fn desc(&mut self) -> (text: &str)
        requires
            !old(self).lazy_desc().evaluating(),
        ensures
            old(self).described(text@),
            final(self).kind() == old(self).kind(),
            final(self).lazy_desc().cached() is Some,
            final(self).lazy_desc().cached()->Some_0@ == text@,
            !final(self).lazy_desc().evaluating(),
    {
        let desc = self.desc.get();
        assert(old(self).lazy_desc().evaluates_to(*desc));
        desc.as_slice()
    }
}

impl Error<Given<MaybeOwned>> {
    /// An error without a description.
    pub fn new(code: ErrorCode) -> (error: Error<Given<MaybeOwned>>)
        ensures
            error.kind() == code,
            error.lazy_desc().cached() is Some,
            error.lazy_desc().cached()->Some_0@ == Seq::<char>::empty(),
            !error.lazy_desc().evaluating(),
    {
        proof {
            reveal_strlit("");
        }
        let error = Error::with_desc(code, "");
        assert(error.lazy_desc().cached()->Some_0@ =~= Seq::<char>::empty());
        error
    }

    /// An error with a description that is there from the start.
    pub fn with_desc<D: IntoMaybeOwned>(code: ErrorCode, desc: D) -> (error: Error<
        Given<MaybeOwned>,
    >)
        ensures
            error.kind() == code,
            error.lazy_desc().cached() is Some,
            error.lazy_desc().cached()->Some_0@ == desc.text(),
            !error.lazy_desc().evaluating(),
    {
        Error { code, desc: Lazy::from_value(desc.into_maybe_owned()) }
    }
}

impl<D: IntoMaybeOwned, F: Generator<D>> Error<Described<D, F>> {
    /// An error whose description `desc` computes when it is first read:
    /// what is read then is what `desc` produced, converted.
    pub fn with_lazy_desc(code: ErrorCode, desc: F) -> (error: Error<Described<D, F>>)
        requires
            desc.runnable(),
        ensures
            error.kind() == code,
            error.lazy_desc().cached() is None,
            error.lazy_desc().generator() is Some,
            error.lazy_desc().generator()->Some_0.source() == desc,
            !error.lazy_desc().evaluating(),
            forall|text: Seq<char>| #[trigger]
                error.described(text) ==> exists|made: D| #[trigger]
                    desc.produces(made) && made.text() == text,
    {
        let error = Error { code, desc: Lazy::from_fn(Described { desc, text: PhantomData }) };
        proof {
            assert forall|text: Seq<char>| #[trigger] error.described(text) implies exists|
                made: D,
            | #[trigger] desc.produces(made) && made.text() == text by {
                let value = choose|value: MaybeOwned| #[trigger]
                    error.lazy_desc().evaluates_to(value) && value@ == text;
                let made = choose|made: D| #[trigger]
                    desc.produces(made) && value@ == made.text();
                assert(desc.produces(made) && made.text() == text);
            }
        }
        error
    }
}

} // verus!
