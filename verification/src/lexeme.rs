//! Lexemes: typed character ranges over the regularized input.
//!
//! Equality and order are purely positional: primary key ascending begin,
//! tie-break descending length, so a longer lexeme sorts first.

use vstd::prelude::*;
use crate::char_util::spec_utf8_slice;
use crate::char_util::utf8_slice;
use core::cmp::Ordering;
use core::ops::Range;

verus! {

/// The kind of token a lexeme carries.
#[derive(Debug, PartialEq, Eq, Clone, Copy, Structural)]
pub enum LexemeType {
    UNKNOWN,
    ENGLISH,
    ARABIC,
    LETTER,
    CNWORD,
    CNCHAR,
    OtherCJK,
    CNUM,
    COUNT,
    CQUAN,
}

impl LexemeType {
    /// The consumer-facing name of this lexeme type.
    pub open spec fn as_str_spec(&self) -> Seq<char> {
        match self {
            LexemeType::ENGLISH => "ENGLISH"@,
            LexemeType::ARABIC => "ARABIC"@,
            LexemeType::LETTER => "LETTER"@,
            LexemeType::CNWORD => "CN_WORD"@,
            LexemeType::CNCHAR => "CN_CHAR"@,
            LexemeType::OtherCJK => "OtherCjk"@,
            LexemeType::COUNT => "COUNT"@,
            LexemeType::CNUM => "TYPE_CNUM"@,
            LexemeType::CQUAN => "TYPE_CQUAN"@,
            LexemeType::UNKNOWN => "UNKNOWN"@,
        }
    }

    /// The consumer-facing name of this lexeme type.
    pub fn as_str(&self) -> (r: &'static str)
        ensures
            r@ == self.as_str_spec(),
    {
        match self {
            LexemeType::ENGLISH => "ENGLISH",
            LexemeType::ARABIC => "ARABIC",
            LexemeType::LETTER => "LETTER",
            LexemeType::CNWORD => "CN_WORD",
            LexemeType::CNCHAR => "CN_CHAR",
            LexemeType::OtherCJK => "OtherCjk",
            LexemeType::COUNT => "COUNT",
            LexemeType::CNUM => "TYPE_CNUM",
            LexemeType::CQUAN => "TYPE_CQUAN",
            LexemeType::UNKNOWN => "UNKNOWN",
        }
    }
}

/// A typed half-open character range `[begin, end)` in the regularized
/// input. The text is filled in only for surviving output lexemes.
#[derive(Debug)]
pub struct Lexeme {
    pub pos: Range<usize>,
    pub lexeme_text: String,
    pub lexeme_type: LexemeType,
}

impl Lexeme {
    /// First character index covered.
    pub open spec fn sbegin(&self) -> int {
        self.pos.start as int
    }

    /// One past the last character index covered.
    pub open spec fn send(&self) -> int {
        self.pos.end as int
    }

    /// Character count covered.
    pub open spec fn slen(&self) -> int {
        self.pos.end - self.pos.start
    }

    /// The materialized text.
    pub open spec fn stext(&self) -> Seq<char> {
        self.lexeme_text@
    }

    /// A well-formed lexeme covers at least one character.
    pub open spec fn wf_lex(&self) -> bool {
        self.pos.start < self.pos.end
    }

    /// Well-formed and contained in an input of `n` characters.
    pub open spec fn in_range(&self, n: int) -> bool {
        self.wf_lex() && self.send() <= n
    }

    /// Positional equality: same range, whatever the type or text.
    pub open spec fn pos_eq(&self, o: &Lexeme) -> bool {
        self.pos.start == o.pos.start && self.pos.end == o.pos.end
    }

    /// The strict lexeme order: ascending begin, ties broken by the longer
    /// lexeme first.
    pub open spec fn lex_lt(&self, o: &Lexeme) -> bool {
        ||| self.sbegin() < o.sbegin()
        ||| (self.sbegin() == o.sbegin() && self.slen() > o.slen())
    }

    /// Same range, type and text.
    pub open spec fn lex_equiv(&self, o: &Lexeme) -> bool {
        &&& self.pos.start == o.pos.start
        &&& self.pos.end == o.pos.end
        &&& self.lexeme_type == o.lexeme_type
        &&& self.lexeme_text@ == o.lexeme_text@
    }

    /// A fresh lexeme over `pos` with empty text.
    pub fn new(pos: Range<usize>, lexeme_type: LexemeType) -> (r: Self)
        ensures
            r.pos.start == pos.start,
            r.pos.end == pos.end,
            r.lexeme_type == lexeme_type,
            r.stext() == Seq::<char>::empty(),
    {
        Lexeme { pos, lexeme_type, lexeme_text: String::new() }
    }

    /// The first character index covered.
    pub fn begin_pos(&self) -> (r: usize)
        ensures
            r == self.sbegin(),
    {
        self.pos.start
    }

    /// One past the last character index covered.
    pub fn end_pos(&self) -> (r: usize)
        ensures
            r == self.send(),
    {
        self.pos.end
    }

    /// The character count covered.
    pub fn len(&self) -> (r: usize)
        requires
            self.pos.start <= self.pos.end,
        ensures
            r == self.slen(),
    {
        self.pos.end - self.pos.start
    }

    /// The materialized text.
    pub fn lexeme_text(&self) -> (r: &str)
        ensures
            r@ == self.stext(),
    {
        self.lexeme_text.as_str()
    }

    /// Fill the text with the substring of `input` over this lexeme's range.
    pub fn parse_lexeme_text(&mut self, input: &str)
        ensures
            final(self).pos == old(self).pos,
            final(self).lexeme_type == old(self).lexeme_type,
            final(self).stext() == spec_utf8_slice(input@, old(self).sbegin(), old(self).send()),
    {
        let sub = utf8_slice(input, self.pos.start, self.pos.end);
        self.lexeme_text = sub.to_owned();
    }

    /// Extend this lexeme to absorb `l` when the two ranges meet exactly,
    /// switching the type to `lexeme_type`; report whether the merge
    /// happened.
    pub fn append(&mut self, l: &Lexeme, lexeme_type: LexemeType) -> (r: bool)
        ensures
            r == (old(self).send() == l.sbegin()),
            r ==> final(self).pos.start == old(self).pos.start && final(self).pos.end == l.pos.end
                && final(self).lexeme_type == lexeme_type && final(self).stext() == old(
                self,
            ).stext(),
            !r ==> *final(self) == *old(self),
    {
        if self.pos.end == l.pos.start {
            self.pos.end = l.pos.end;
            self.lexeme_type = lexeme_type;
            true
        } else {
            false
        }
    }
}

impl Clone for Lexeme {
    /// An exact copy: same range, type and text.
    fn clone(&self) -> (r: Self)
        ensures
            r.lex_equiv(self),
    {
        Lexeme {
            pos: self.pos.start..self.pos.end,
            lexeme_text: self.lexeme_text.clone(),
            lexeme_type: self.lexeme_type,
        }
    }
}

impl PartialEq for Lexeme {
    /// Lexeme equality is positional only.
    fn eq(&self, other: &Self) -> (r: bool) {
        self.pos.start == other.pos.start && self.pos.end == other.pos.end
    }
}

impl vstd::std_specs::cmp::PartialEqSpecImpl for Lexeme {
    open spec fn obeys_eq_spec() -> bool {
        true
    }

    open spec fn eq_spec(&self, other: &Lexeme) -> bool {
        self.pos_eq(other)
    }
}

impl PartialOrd for Lexeme {
    /// The lexeme order: ascending begin, longer first on ties.
    fn partial_cmp(&self, other: &Self) -> (r: Option<Ordering>) {
        if self.pos.start < other.pos.start {
            Some(Ordering::Less)
        } else if self.pos.start == other.pos.start {
            if self.pos.end > other.pos.end {
                Some(Ordering::Less)
            } else if self.pos.end == other.pos.end {
                Some(Ordering::Equal)
            } else {
                Some(Ordering::Greater)
            }
        } else {
            Some(Ordering::Greater)
        }
    }
}

impl vstd::std_specs::cmp::PartialOrdSpecImpl for Lexeme {
    open spec fn obeys_partial_cmp_spec() -> bool {
        true
    }

    open spec fn partial_cmp_spec(&self, other: &Lexeme) -> Option<Ordering> {
        if self.lex_lt(other) {
            Some(Ordering::Less)
        } else if self.sbegin() == other.sbegin() && self.slen() == other.slen() {
            Some(Ordering::Equal)
        } else {
            Some(Ordering::Greater)
        }
    }
}

} // verus!
