//! Keeping track of the best result seen so far.

use core::cmp::Ordering;
use core::ops::Deref;
use vstd::prelude::*;
use vstd::std_specs::cmp::{PartialEqSpecImpl, PartialOrdSpec, PartialOrdSpecImpl};

verus! {

/// `a` compares greater than or equal to `b`.
pub open spec fn at_least<T: PartialOrd>(a: T, b: T) -> bool {
    a.partial_cmp_spec(&b) matches Some(Ordering::Greater | Ordering::Equal)
}

/// `a` compares less than or equal to `b`.
pub open spec fn at_most<T: PartialOrd>(a: T, b: T) -> bool {
    a.partial_cmp_spec(&b) matches Some(Ordering::Less | Ordering::Equal)
}

/// Keeps track of the best result so far in a problem or sub-problem.
///
/// A new value replaces the current one only if it is strictly better, so
/// among equals the first one offered stays.
pub struct Best<T> {
    value: Option<T>,
}

impl<T: Clone + PartialOrd> Default for Best<T> {
    fn default() -> (best: Self)
        ensures
            best@ is None,
    {
        Self::new()
    }
}

impl<T> View for Best<T> {
    type V = Option<T>;

    closed spec fn view(&self) -> Option<T> {
        self.value
    }
}

impl<T> Best<T> where T: Clone, T: PartialOrd {
    /// A tracker that has seen nothing yet.
    pub fn new() -> (best: Self)
        ensures
            best@ is None,
    {
        Self { value: None }
    }

    /// Offers `t` where smaller is better: `t` is kept unless the current
    /// value is already at most `t`.
    pub fn min(&mut self, t: T)
        ensures
            final(self)@ == Some(t) || final(self)@ == old(self)@,
            old(self)@ is None ==> final(self)@ == Some(t),
            T::obeys_partial_cmp_spec() ==> final(self)@ == match old(self)@ {
                Some(current) => if at_least(t, current) {
                    Some(current)
                } else {
                    Some(t)
                },
                None => Some(t),
            },
    {
        let keep = match &self.value {
            Some(current_best) => t >= *current_best,
            None => false,
        };
        if !keep {
            self.value = Some(t);
        }
    }

    /// Offers `t` where larger is better: `t` is kept unless the current
    /// value is already at least `t`.
    pub fn max(&mut self, t: T)
        ensures
            final(self)@ == Some(t) || final(self)@ == old(self)@,
            old(self)@ is None ==> final(self)@ == Some(t),
            T::obeys_partial_cmp_spec() ==> final(self)@ == match old(self)@ {
                Some(current) => if at_most(t, current) {
                    Some(current)
                } else {
                    Some(t)
                },
                None => Some(t),
            },
    {
        let keep = match &self.value {
            Some(current_best) => t <= *current_best,
            None => false,
        };
        if !keep {
            self.value = Some(t);
        }
    }

    /// The best value seen, if any was offered.
    pub fn into_inner(self) -> (value: Option<T>)
        ensures
            value == self@,
    {
        self.value
    }
}

impl<T> Deref for Best<T> {
    type Target = Option<T>;

    fn deref(&self) -> (value: &Option<T>)
        ensures
            *value == self@,
    {
        &self.value
    }
}

/// A data value together with a count or size that is to be optimised.
/// Comparison is by the count alone; the data need not be comparable.
#[derive(Clone)]
pub struct CountOf<T> {
    pub count: usize,
    pub data: T,
}

impl<T> CountOf<T> {
    /// Pairs `data` with its `count`.
    pub fn new(count: usize, data: T) -> (pair: Self)
        ensures
            pair.count == count,
            pair.data == data,
    {
        Self { count, data }
    }
}

impl<T> Deref for CountOf<T> {
    type Target = T;

    fn deref(&self) -> (data: &T)
        ensures
            *data == self.data,
    {
        &self.data
    }
}

impl<T> PartialEq for CountOf<T> {
    fn eq(&self, other: &Self) -> (equal: bool) {
        self.count == other.count
    }
}

impl<T> PartialEqSpecImpl for CountOf<T> {
    open spec fn obeys_eq_spec() -> bool {
        true
    }

    open spec fn eq_spec(&self, other: &Self) -> bool {
        self.count == other.count
    }
}

impl<T> Eq for CountOf<T> {

}

impl<T> PartialOrd for CountOf<T> {
    fn partial_cmp(&self, other: &Self) -> (order: Option<Ordering>) {
        if self.count < other.count {
            Some(Ordering::Less)
        } else if self.count > other.count {
            Some(Ordering::Greater)
        } else {
            Some(Ordering::Equal)
        }
    }
}

impl<T> PartialOrdSpecImpl for CountOf<T> {
    open spec fn obeys_partial_cmp_spec() -> bool {
        true
    }

    open spec fn partial_cmp_spec(&self, other: &Self) -> Option<Ordering> {
        if self.count < other.count {
            Some(Ordering::Less)
        } else if self.count > other.count {
            Some(Ordering::Greater)
        } else {
            Some(Ordering::Equal)
        }
    }
}

} // verus!
