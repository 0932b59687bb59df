//! Input-method composition state of the editor.
use vstd::prelude::*;
use std::ops::Range;

verus! {

/// Tracks IME composition: the marked (preedit) range of the buffer while
/// a composition is in progress.
#[derive(Debug)]
pub struct ImeState {
    pub marked_range: Option<Range<usize>>,
}

impl ImeState {
    /// No composition in progress.
    pub fn new() -> (r: Self)
        ensures
            r.marked_range is None,
    {
        ImeState { marked_range: None }
    }

    /// Whether a composition is in progress.
    pub fn is_composing(&self) -> (r: bool)
        ensures
            r == self.marked_range is Some,
    {
        self.marked_range.is_some()
    }

    /// Starts or updates a composition over `range`.
    pub fn set_marked(&mut self, range: Range<usize>)
        ensures
            final(self).marked_range == Some(range),
    {
        self.marked_range = Some(range);
    }

    /// Ends the composition (committed or cancelled).
    pub fn clear(&mut self)
        ensures
            final(self).marked_range is None,
    {
        self.marked_range = None;
    }

    /// The marked range, which is cleared.
    pub fn take_marked(&mut self) -> (r: Option<Range<usize>>)
        ensures
            r == old(self).marked_range,
            final(self).marked_range is None,
    {
        let r = self.marked_range.take();
        r
    }
}

impl Default for ImeState {
    fn default() -> (r: Self)
        ensures
            r.marked_range is None,
    {
        Self::new()
    }
}

} // verus!
