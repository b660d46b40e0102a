//! A slot for one value that can be emptied and refilled in place.

use vstd::prelude::*;

verus! {

/// A slot that holds at most one value. It is emptied and filled through an
/// exclusive reference, so what a shared cell would have to check when it
/// runs, that nobody else is reading, the borrow checker has settled.
pub struct DCell<T> {
    data: Option<T>,
}

impl<T> View for DCell<T> {
    type V = Option<T>;

    /// What the slot holds.
    closed spec fn view(&self) -> Option<T> {
        self.data
    }
}

impl<T> DCell<T> {
    /// An empty slot.
    pub fn new() -> (cell: DCell<T>)
        ensures
            cell@ is None,
    {
        DCell { data: None }
    }

    /// Whether the slot is empty.
    pub fn is_empty(&self) -> (empty: bool)
        ensures
            empty == (self@ is None),
    {
        self.data.is_none()
    }

    /// Takes the value out and leaves the slot empty.
    pub fn take(&mut self) -> (value: T)
        requires
            old(self)@ is Some,
        ensures
            old(self)@ == Some(value),
            final(self)@ is None,
    {
        self.data.take().unwrap()
    }

    /// Fills the empty slot with `value`.
    pub fn put(&mut self, value: T)
        requires
            old(self)@ is None,
        ensures
            final(self)@ == Some(value),
    {
        self.data = Some(value);
    }

    /// Calls `f` on the value in the slot and returns what it returns.
    pub fn read<F, R>(&self, f: F) -> (result: R) where F: FnOnce(&T) -> R
        requires
            self@ matches Some(value) && f.requires((&value,)),
        ensures
            self@ matches Some(value) && f.ensures((&value,), result),
    {
        match &self.data {
            Some(value) => f(value),
            None => vstd::pervasive::unreached(),
        }
    }
}

} // verus!
