//! The bookkeeping of timed ranges: a range is reported when it is closed, and at most once.
//! Reading the clock and printing stay with the caller.
use vstd::prelude::*;

verus! {

/// A timed range: its description, its position among all ranges opened, and whether it
/// has been closed.
pub struct NvtxGuard {
    description: String,
    popped: bool,
    order: usize,
}

impl NvtxGuard {
    /// The description.
    pub closed spec fn desc(&self) -> Seq<char> {
        self.description@
    }

    /// Whether the range has been closed.
    pub closed spec fn is_popped(&self) -> bool {
        self.popped
    }

    /// The position among all ranges opened.
    pub closed spec fn position(&self) -> usize {
        self.order
    }

    /// An open range.
    pub fn new(description: String, order: usize) -> (g: Self)
        ensures
            g.desc() == description@,
            !g.is_popped(),
            g.position() == order,
    {
        NvtxGuard { description, popped: false, order }
    }

    /// Closes the range; the result says whether this call closed it, in which case the caller
    /// reports it. Later calls close nothing.
    pub fn pop(&mut self) -> (report: bool)
        ensures
            report == !old(self).is_popped(),
            final(self).is_popped(),
            final(self).desc() == old(self).desc(),
            final(self).position() == old(self).position(),
    {
        if !self.popped {
            self.popped = true;
            true
        } else {
            false
        }
    }

    /// Whether a range that goes away must still be reported: it was never closed.
    pub fn report_on_drop(&self) -> (report: bool)
        ensures
            report == !self.is_popped(),
    {
        !self.popped
    }

    /// The description.
    pub fn description(&self) -> (d: &str)
        ensures
            d@ == self.desc(),
    {
        self.description.as_str()
    }

    /// The position among all ranges opened.
    pub fn order(&self) -> (o: usize)
        ensures
            o == self.position(),
    {
        self.order
    }
}

/// A value with the number of trailing bytes to discard when it is written out.
pub struct WithBoundedBytes<T> {
    value: T,
    discard_trailing_bytes: usize,
}

} // verus!
