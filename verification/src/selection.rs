//! A text selection: a fixed anchor and a movable head, both byte offsets
//! into the text.

use vstd::prelude::*;

verus! {

/// A text selection in the editor.
#[derive(Debug, Clone, Copy, PartialEq, Eq, Structural)]
pub struct Selection {
    /// The fixed point of the selection.
    pub anchor: usize,
    /// The movable point of the selection.
    pub head: usize,
}

/// The smaller of two offsets.
pub open spec fn min_offset(a: usize, b: usize) -> usize {
    if a <= b { a } else { b }
}

/// The larger of two offsets.
pub open spec fn max_offset(a: usize, b: usize) -> usize {
    if a <= b { b } else { a }
}

impl Selection {
    /// The start of the selection: the smaller of anchor and head.
    pub open spec fn start(self) -> usize {
        min_offset(self.anchor, self.head)
    }

    /// The end of the selection: the larger of anchor and head.
    pub open spec fn end(self) -> usize {
        max_offset(self.anchor, self.head)
    }

    /// True when anchor and head coincide.
    pub open spec fn is_point(self) -> bool {
        self.anchor == self.head
    }

    /// Creates a selection with the given anchor and head.
    pub fn new(anchor: usize, head: usize) -> (s: Self)
        ensures
            s.anchor == anchor,
            s.head == head,
    {
        Self { anchor, head }
    }

    /// Creates a selection that is a single point at `position`.
    pub fn point(position: usize) -> (s: Self)
        ensures
            s.anchor == position,
            s.head == position,
    {
        Self { anchor: position, head: position }
    }

    /// The range of the selection as `(start, end)`, start first.
    pub fn range(&self) -> (r: (usize, usize))
        ensures
            r == (self.start(), self.end()),
    {
        if self.anchor < self.head {
            (self.anchor, self.head)
        } else {
            (self.head, self.anchor)
        }
    }

    /// Collapses the selection to a single point at the head.
    pub fn collapse(&mut self)
        ensures
            final(self).head == old(self).head,
            final(self).anchor == old(self).head,
    {
        self.anchor = self.head;
    }

    /// The start of the selection: the smaller of anchor and head.
    pub fn min(&self) -> (m: usize)
        ensures
            m == self.start(),
    {
        if self.anchor <= self.head {
            self.anchor
        } else {
            self.head
        }
    }

    /// The end of the selection: the larger of anchor and head.
    pub fn max(&self) -> (m: usize)
        ensures
            m == self.end(),
    {
        if self.anchor <= self.head {
            self.head
        } else {
            self.anchor
        }
    }
}

/// The range of a selection runs from its start to its end, the start never
/// past the end, and both are the selection's own two points.
pub proof fn lemma_selection_range_ordered(s: Selection)
    ensures
        s.start() <= s.end(),
        s.start() == s.anchor || s.start() == s.head,
        s.end() == s.anchor || s.end() == s.head,
        s.is_point() <==> s.start() == s.end(),
{
}

} // verus!
