//! Sliding windows over a slice.

use vstd::prelude::*;
use vstd::slice::slice_subrange;

verus! {

/// All the windows of `n` neighbouring items of `slice`, from the left.
pub fn windows<T>(slice: &'_ [T], n: usize) -> (w: Windows<'_, T>)
    ensures
        w.items() == slice@,
        w.width() == n,
        w.position() == 0,
{
    Windows { slice, n, i: 0 }
}

/// The state of a walk over the windows of a slice: the slice, the width of
/// a window, and where the next window starts.
pub struct Windows<'a, T> {
    slice: &'a [T],
    i: usize,
    n: usize,
}

impl<'a, T> Windows<'a, T> {
    /// The items that the windows are taken from.
    pub closed spec fn items(&self) -> Seq<T> {
        self.slice@
    }

    /// The width of each window.
    pub closed spec fn width(&self) -> int {
        self.n as int
    }

    /// Where the next window starts.
    pub closed spec fn position(&self) -> int {
        self.i as int
    }

    /// The next window, as a part of the slice; `None`, once and for all,
    /// when fewer than `width` items are left (or when the position can no
    /// longer be counted, after `usize::MAX` windows).
    pub fn next(&mut self) -> (r: Option<&'a [T]>)
        ensures
            final(self).items() == old(self).items(),
            final(self).width() == old(self).width(),
            match r {
                Some(w) => {
                    &&& old(self).position() + old(self).width() <= old(self).items().len()
                    &&& old(self).position() < usize::MAX
                    &&& w@ == old(self).items().subrange(
                        old(self).position(),
                        old(self).position() + old(self).width(),
                    )
                    &&& final(self).position() == old(self).position() + 1
                },
                None => {
                    &&& old(self).position() + old(self).width() > old(self).items().len()
                        || old(self).position() == usize::MAX
                    &&& final(self).position() == old(self).position()
                },
            },
    {
        let i = self.i;
        let n = self.n;
        let slice = self.slice;
        if i == usize::MAX || i > slice.len() || n > slice.len() - i {
            None
        } else {
            let s = slice_subrange(slice, i, i + n);
            self.i += 1;
            Some(s)
        }
    }
}

} // verus!
