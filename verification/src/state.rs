//! The navigation state machine: scroll position, viewport dimensions and
//! document length, with clamped scrolling and a scrollbar projection.

use vstd::prelude::*;
use vstd::arithmetic::div_mod::lemma_div_is_ordered;
use vstd::arithmetic::mul::lemma_mul_inequality;
use vstd::arithmetic::mul::lemma_mul_upper_bound;

verus! {

/// The mutable state of the viewer: where the viewport stands in the
/// document, how large the terminal is, and whether a redraw is owed.
pub struct State {
    pub current_line: usize,
    pub running: bool,
    pub width: u16,
    pub height: u16,
    pub document_length: usize,
    pub is_dirty: bool,
}

/// Rows available for document content: the terminal height minus the two
/// rows reserved for the footer.
pub open spec fn spec_drawing_height(height: int) -> int {
    height - 2
}

/// The largest allowed scroll position: the line from which the last page
/// exactly fills the drawing area, floored at zero for documents shorter
/// than one page.
pub open spec fn spec_scroll_bound(document_length: int, height: int) -> int {
    if document_length >= spec_drawing_height(height) {
        document_length - spec_drawing_height(height)
    } else {
        0
    }
}

/// Scrolling down by `amount` from `current`: advance, then clamp to `bound`.
pub open spec fn spec_scroll_down(current: int, amount: int, bound: int) -> int {
    if current + amount > bound {
        bound
    } else {
        current + amount
    }
}

/// Scrolling up by `amount` from `current`: saturating subtraction.
pub open spec fn spec_scroll_up(current: int, amount: int) -> int {
    if current >= amount {
        current - amount
    } else {
        0
    }
}

/// The scrollbar row for a scroll position: the position projected onto the
/// track of `height - 5` rows below the top arrow, saturated at `u16::MAX`
/// as the executable narrowing cast is.
pub open spec fn spec_scrollbar_position(current: int, document_length: int, height: int) -> int {
    let raw = current * (height - 5) / (document_length - height) + 1;
    if raw > u16::MAX {
        u16::MAX as int
    } else {
        raw
    }
}

impl State {
    /// The documented invariant of the state: the viewport is at least as
    /// tall as the reserved rows plus one content row, and the scroll
    /// position never passes the clamp bound.  `resize` alone may break the
    /// second half: it deliberately leaves the scroll position untouched.
    pub open spec fn wf(self) -> bool {
        &&& self.height >= 3
        &&& self.current_line <= spec_scroll_bound(
            self.document_length as int,
            self.height as int,
        )
    }

    /// A fresh state at the top of a document of `document_length` lines,
    /// in a terminal of the given `(width, height)`.
    pub fn new(size: (u16, u16), document_length: usize) -> (s: State)
        ensures
            s.current_line == 0,
            s.running,
            s.width == size.0,
            s.height == size.1,
            s.document_length == document_length,
            s.is_dirty,
            size.1 >= 3 ==> s.wf(),
    {
        State {
            current_line: 0,
            running: true,
            width: size.0,
            height: size.1,
            document_length,
            is_dirty: true,
        }
    }

    /// How many document rows fit on screen.
    pub fn drawing_height(&self) -> (h: usize)
        requires
            self.height >= 2,
        ensures
            h == spec_drawing_height(self.height as int),
    {
        self.height as usize - 2
    }

    /// Advance the scroll position by `amount`, clamped so that the last
    /// page of the document is never overshot.
    pub fn scroll_down(&mut self, amount: usize)
        requires
            old(self).height >= 2,
            old(self).current_line + amount <= usize::MAX,
        ensures
            final(self).current_line == spec_scroll_down(
                old(self).current_line as int,
                amount as int,
                spec_scroll_bound(old(self).document_length as int, old(self).height as int),
            ),
            final(self).running == old(self).running,
            final(self).width == old(self).width,
            final(self).height == old(self).height,
            final(self).document_length == old(self).document_length,
            final(self).is_dirty == old(self).is_dirty,
            old(self).wf() ==> final(self).wf(),
    {
        let drawing_height = self.drawing_height();
        let bound = if self.document_length >= drawing_height {
            self.document_length - drawing_height
        } else {
            0
        };
        self.current_line = self.current_line + amount;
        if self.current_line > bound {
            self.current_line = bound;
        }
    }

    /// Move the scroll position up by `amount`, floored at the top of the
    /// document.
    pub fn scroll_up(&mut self, amount: usize)
        ensures
            final(self).current_line == spec_scroll_up(
                old(self).current_line as int,
                amount as int,
            ),
            final(self).running == old(self).running,
            final(self).width == old(self).width,
            final(self).height == old(self).height,
            final(self).document_length == old(self).document_length,
            final(self).is_dirty == old(self).is_dirty,
            old(self).wf() ==> final(self).wf(),
    {
        if self.current_line >= amount {
            self.current_line = self.current_line - amount;
        } else {
            self.current_line = 0;
        }
    }

    /// Jump to an absolute position, clamped exactly as `scroll_down` clamps.
    pub fn scroll_to(&mut self, pos: usize)
        requires
            old(self).height >= 2,
        ensures
            final(self).current_line == spec_scroll_down(
                0,
                pos as int,
                spec_scroll_bound(old(self).document_length as int, old(self).height as int),
            ),
            final(self).running == old(self).running,
            final(self).width == old(self).width,
            final(self).height == old(self).height,
            final(self).document_length == old(self).document_length,
            final(self).is_dirty == old(self).is_dirty,
            old(self).wf() ==> final(self).wf(),
    {
        let drawing_height = self.drawing_height();
        let bound = if self.document_length >= drawing_height {
            self.document_length - drawing_height
        } else {
            0
        };
        self.current_line = pos;
        if self.current_line > bound {
            self.current_line = bound;
        }
    }

    /// The row of the scrollbar thumb.  The document must be longer than
    /// one whole screen, else the projection has no track to land on.
    pub fn scrollbar_position(&self) -> (row: u16)
        requires
            self.height >= 5,
            self.document_length > self.height,
        ensures
            row == spec_scrollbar_position(
                self.current_line as int,
                self.document_length as int,
                self.height as int,
            ),
    {
        proof {
            lemma_mul_upper_bound(
                self.current_line as int,
                u64::MAX as int,
                (self.height - 5) as int,
                u16::MAX as int,
            );
        }
        let numerator: u128 = (self.current_line as u128) * ((self.height - 5) as u128);
        let denominator: u128 = (self.document_length - self.height as usize) as u128;
        let raw: u128 = numerator / denominator + 1;
        if raw > 65535 {
            65535u16
        } else {
            raw as u16
        }
    }

    /// Record a new terminal size.  The scroll position is deliberately not
    /// re-clamped against the new drawing height: a known, documented
    /// limitation of this design.
    pub fn resize(&mut self, width: u16, height: u16)
        ensures
            final(self).width == width,
            final(self).height == height,
            final(self).current_line == old(self).current_line,
            final(self).running == old(self).running,
            final(self).document_length == old(self).document_length,
            final(self).is_dirty == old(self).is_dirty,
    {
        self.width = width;
        self.height = height;
    }
}

/// Scrolling down and then up by the same amount returns to the starting
/// line, provided the downward move does not hit the clamp bound (the
/// upward move cannot hit the floor in that case).
pub proof fn lemma_scroll_round_trip(current: int, amount: int, bound: int)
    requires
        0 <= current,
        0 <= amount,
        current + amount <= bound,
    ensures
        spec_scroll_up(spec_scroll_down(current, amount, bound), amount) == current,
{
}

/// The scrollbar row never decreases as the scroll position grows, all
/// other fields held fixed.
pub proof fn lemma_scrollbar_monotonic(c1: int, c2: int, document_length: int, height: int)
    requires
        0 <= c1 <= c2,
        height >= 5,
        document_length > height,
    ensures
        spec_scrollbar_position(c1, document_length, height) <= spec_scrollbar_position(
            c2,
            document_length,
            height,
        ),
{
    let track = height - 5;
    let span = document_length - height;
    lemma_mul_inequality(c1, c2, track);
    lemma_div_is_ordered(c1 * track, c2 * track, span);
}

} // verus!
