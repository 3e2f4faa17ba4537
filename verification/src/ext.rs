//! Sequences grown from a seed by repeated application of a step function.

use vstd::prelude::*;

verus! {

/// A sequence in which each item is computed from the one before it. It ends
/// when the step function returns `None`.
#[must_use]
pub struct Unfold<T, F> {
    value: Option<T>,
    f: F,
}

impl<T, F: Fn(&T) -> Option<T>> Unfold<T, F> {
    /// The item that the next call of [`Unfold::next`] returns.
    pub closed spec fn pending(&self) -> Option<T> {
        self.value
    }

    /// The step function.
    pub closed spec fn step(&self) -> F {
        self.f
    }

    /// Returns the pending item and replaces it by what the step function
    /// makes of it. Once the sequence has ended, every call returns `None`.
    pub fn next(&mut self) -> (item: Option<T>)
        requires
            old(self).pending() matches Some(v) ==> call_requires(old(self).step(), (&v,)),
        ensures
            item == old(self).pending(),
            final(self).step() == old(self).step(),
            match item {
                Some(v) => call_ensures(old(self).step(), (&v,), final(self).pending()),
                None => final(self).pending() is None,
            },
    {
        let mut new_value = match &self.value {
            Some(v) => (self.f)(v),
            None => {
                return None;
            },
        };
        std::mem::swap(&mut self.value, &mut new_value);
        new_value
    }
}

/// Values from which an [`Unfold`] can start.
pub trait Unfolding<T>: Sized {
    /// The first item of the sequence that starts from `self`, if there is one.
    spec fn seed(self) -> Option<T>;

    /// Starts a sequence at `self` that continues by `f`.
    fn unfold<F: Fn(&T) -> Option<T>>(self, f: F) -> (u: Unfold<T, F>)
        ensures
            u.pending() == self.seed(),
            u.step() == f,
    ;
}

impl<T> Unfolding<T> for Option<T> {
    open spec fn seed(self) -> Option<T> {
        self
    }

    fn unfold<F: Fn(&T) -> Option<T>>(self, f: F) -> (u: Unfold<T, F>) {
        Unfold { value: self, f }
    }
}

} // verus!
