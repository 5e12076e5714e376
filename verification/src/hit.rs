//! Trie match results: a character range plus a MATCH / PREFIX bitmask.

use vstd::prelude::*;
use core::ops::Range;

verus! {

/// Bit 0 of the state: the range is a complete dictionary word.
pub const MATCH: u8 = 1;

/// Bit 1 of the state: the matched path has at least one child, so longer
/// matches remain possible.
pub const PREFIX: u8 = 2;

/// One trie lookup outcome over `[pos.start, pos.end)`. A state with
/// neither bit set is an unmatched hit.
#[derive(Debug)]
pub struct Hit {
    pub hit_state: u8,
    pub pos: Range<usize>,
}

impl Hit {
    /// Whether the MATCH bit is set.
    pub open spec fn is_match_spec(&self) -> bool {
        self.hit_state % 2 == 1
    }

    /// Whether the PREFIX bit is set.
    pub open spec fn is_prefix_spec(&self) -> bool {
        (self.hit_state / 2) % 2 == 1
    }

    /// First character index of the hit.
    pub open spec fn sbegin(&self) -> int {
        self.pos.start as int
    }

    /// One past the last character index of the hit.
    pub open spec fn send(&self) -> int {
        self.pos.end as int
    }

    /// An unmatched hit over the given range.
    pub fn new_with_pos(pos: Range<usize>) -> (r: Self)
        ensures
            r.pos.start == pos.start,
            r.pos.end == pos.end,
            !r.is_match_spec(),
            !r.is_prefix_spec(),
    {
        Hit { hit_state: 0, pos }
    }

    /// Set the MATCH bit.
    pub fn set_match(&mut self)
        ensures
            final(self).is_match_spec(),
            final(self).is_prefix_spec() == old(self).is_prefix_spec(),
            final(self).pos == old(self).pos,
    {
        if self.hit_state % 2 == 0 {
            self.hit_state = self.hit_state + 1;
        }
    }

    /// Whether the range is a complete dictionary word.
    pub fn is_match(&self) -> (r: bool)
        ensures
            r == self.is_match_spec(),
    {
        self.hit_state % 2 == 1
    }

    /// Set the PREFIX bit.
    pub fn set_prefix(&mut self)
        ensures
            final(self).is_prefix_spec(),
            final(self).is_match_spec() == old(self).is_match_spec(),
            final(self).pos == old(self).pos,
    {
        if (self.hit_state / 2) % 2 == 0 {
            self.hit_state = self.hit_state + 2;
        }
    }

    /// Whether longer matches remain possible past this hit.
    pub fn is_prefix(&self) -> (r: bool)
        ensures
            r == self.is_prefix_spec(),
    {
        (self.hit_state / 2) % 2 == 1
    }

    /// The character count of the hit's range.
    pub fn length(&self) -> (r: usize)
        requires
            self.pos.start <= self.pos.end,
        ensures
            r == self.send() - self.sbegin(),
    {
        self.pos.end - self.pos.start
    }

    /// The hit's character range.
    pub fn pos(&self) -> (r: Range<usize>)
        ensures
            r.start == self.pos.start,
            r.end == self.pos.end,
    {
        self.pos.start..self.pos.end
    }
}

impl Clone for Hit {
    /// An exact copy of state and range.
    fn clone(&self) -> (r: Self)
        ensures
            r.hit_state == self.hit_state,
            r.pos == self.pos,
    {
        Hit { hit_state: self.hit_state, pos: self.pos.start..self.pos.end }
    }
}

impl Default for Hit {
    /// An unmatched hit over the empty range at zero.
    fn default() -> (r: Self)
        ensures
            r.hit_state == 0,
            r.pos.start == 0,
            r.pos.end == 0,
    {
        Hit { hit_state: 0, pos: 0..0 }
    }
}

} // verus!
