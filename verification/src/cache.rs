//! A write-once memo cell.

use vstd::prelude::*;

verus! {

/// A cell that is empty until a value is stored in it, and keeps that value
/// from then on.
#[derive(Debug)]
pub struct Cache<T>(Option<T>);

impl<T: Copy> View for Cache<T> {
    type V = Option<T>;

    closed spec fn view(&self) -> Option<T> {
        self.0
    }
}

impl<T: Copy> Cache<T> {
    /// The empty cell.
    pub fn new() -> (cache: Self)
        ensures
            cache@ is None,
    {
        Cache(None)
    }

    /// The stored value, if there is one.
    pub fn get(&self) -> (value: Option<T>)
        ensures
            value == self@,
    {
        self.0
    }

    /// Stores `value` in an empty cell.
    pub fn set(&mut self, value: T)
        requires
            old(self)@ is None,
        ensures
            final(self)@ == Some(value),
    {
        self.0 = Some(value);
    }

    /// The stored value; if the cell is empty, `f` is called once and its
    /// result is stored and returned. A full cell does not call `f`.
    pub fn eval<F: FnOnce() -> T>(&mut self, f: F) -> (value: T)
        requires
            old(self)@ is None ==> f.requires(()),
        ensures
            final(self)@ == Some(value),
            old(self)@ is Some ==> old(self)@ == Some(value),
            old(self)@ is None ==> f.ensures((), value),
    {
        match self.0 {
            Some(cached) => cached,
            None => {
                let calc = f();
                self.0 = Some(calc);
                calc
            },
        }
    }
}

} // verus!
