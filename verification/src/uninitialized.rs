//! A slot that is filled once, after it was made.

use vstd::prelude::*;

verus! {

/// A value that may not have been set yet.
#[derive(Clone, Debug, PartialEq, Eq)]
pub struct Uninitialized<T> {
    pub value: Option<T>,
}

impl<T> Uninitialized<T> {
    /// An empty slot.
    pub fn new() -> (slot: Uninitialized<T>)
        ensures
            slot.value is None,
    {
        Uninitialized { value: None }
    }

    /// The value of a slot that was set.
    pub fn into_inner(self) -> (inner: T)
        requires
            self.value is Some,
        ensures
            self.value == Some(inner),
    {
        self.value.unwrap()
    }

    /// The value, if the slot was set.
    pub fn try_into_inner(self) -> (inner: Option<T>)
        ensures
            inner == self.value,
    {
        self.value
    }

    /// Fills the slot, replacing what it held.
    pub fn set_value(&mut self, new_value: T)
        ensures
            final(self).value == Some(new_value),
    {
        self.value = Some(new_value);
    }

    /// Whether the slot was set.
    pub fn is_initialized(&self) -> (set: bool)
        ensures
            set == (self.value is Some),
    {
        self.value.is_some()
    }

    /// Whether the slot is still empty.
    pub fn is_uninitialized(&self) -> (empty: bool)
        ensures
            empty == (self.value is None),
    {
        self.value.is_none()
    }

    /// A look at the value of a slot that was set.
    pub fn get(&self) -> (inner: &T)
        requires
            self.value is Some,
        ensures
            self.value == Some(*inner),
    {
        self.value.as_ref().unwrap()
    }
}

} // verus!
