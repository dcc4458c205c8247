//! A single-slot container that hands ownership of its value in and out.

use vstd::prelude::*;

verus! {

/// A cell that owns at most one value of type `T`.
///
/// The view of a cell is the value it holds, if any.
pub struct MoveCell<T> {
    value: Option<T>,
}

impl<T> View for MoveCell<T> {
    type V = Option<T>;

    closed spec fn view(&self) -> Option<T> {
        self.value
    }
}

impl<T> MoveCell<T> {
    /// Creates an empty cell.
    pub fn new() -> (cell: MoveCell<T>)
        ensures
            cell@ == None::<T>,
    {
        MoveCell { value: None }
    }

    /// Creates a cell that holds `value`.
    pub fn from_value(value: T) -> (cell: MoveCell<T>)
        ensures
            cell@ == Some(value),
    {
        MoveCell { value: Some(value) }
    }

    /// Stores `value` and hands back whatever the cell held before.
    pub fn put(&mut self, value: T) -> (displaced: Option<T>)
        ensures
            displaced == old(self)@,
            final(self)@ == Some(value),
    {
        let displaced = self.value.take();
        self.value = Some(value);
        displaced
    }

    /// Borrows the held value without removing it.
    pub fn get_ref(&self) -> (held: Option<&T>)
        ensures
            held is Some <==> self@ is Some,
            held is Some ==> *held->Some_0 == self@->Some_0,
    {
        self.value.as_ref()
    }

    /// Removes the held value and returns it, leaving the cell empty.
    pub fn take(&mut self) -> (held: Option<T>)
        ensures
            held == old(self)@,
            final(self)@ == None::<T>,
    {
        self.value.take()
    }

    /// Tells whether the cell holds nothing.
    pub fn empty(&self) -> (none: bool)
        ensures
            none == (self@ is None),
    {
        self.value.is_none()
    }
}

} // verus!
