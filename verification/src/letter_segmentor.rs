//! The Latin/Arabic letter sub-segmenter: three independent linear state
//! machines (English letters, Arabic digits, and a mixed machine that
//! tolerates letter connectors) sharing one driver.

use vstd::prelude::*;
use crate::char_util::CharType;
use crate::dictionary::Dictionary;
use crate::lexeme::Lexeme;
use crate::lexeme::LexemeType;
use crate::ordered_linked_list::OrderedLinkedList;
use crate::char_util::char_type_of;
use crate::ordered_linked_list::pos_in;
use crate::ordered_linked_list::typed_pos_in;
use crate::segmentor::Segmenter;
use crate::segmentor::run_bounded;
use crate::segmentor::run_opens_ok;

verus! {

/// The characters the mixed machine accepts between letters and digits.
pub open spec fn letter_connector(c: char) -> bool {
    c == '#' || c == '&' || c == '+' || c == '-' || c == '.' || c == '@' || c == '_'
}

/// The characters the Arabic machine tolerates without extending or
/// closing a run of digits.
pub open spec fn num_connector(c: char) -> bool {
    c == ',' || c == '.'
}

/// The letter segmenter: an open run per machine, or none.
#[derive(Debug)]
pub struct LetterSegmenter {
    pub start: Option<usize>,
    pub end: Option<usize>,
    pub english_start: Option<usize>,
    pub english_end: Option<usize>,
    pub arabic_start: Option<usize>,
    pub arabic_end: Option<usize>,
}

impl Segmenter for LetterSegmenter {
    open spec fn state_bounded(&self, input: Seq<char>, cursor: int) -> bool {
        &&& run_bounded(self.start, self.end, cursor)
        &&& run_bounded(self.english_start, self.english_end, cursor)
        &&& run_bounded(self.arabic_start, self.arabic_end, cursor)
        &&& run_opens_ok(self.start, input)
        &&& run_opens_ok(self.english_start, input)
        &&& run_opens_ok(self.arabic_start, input)
    }

    fn analyze(
        &mut self,
        input: &Vec<char>,
        cursor: usize,
        curr_char_type: CharType,
        dict: &Dictionary,
        origin_lexemes: &mut OrderedLinkedList,
    ) {
        self.process_english_letter(input, cursor, curr_char_type, origin_lexemes);
        self.process_arabic_letter(input, cursor, curr_char_type, origin_lexemes);
        self.process_mix_letter(input, cursor, curr_char_type, origin_lexemes);
    }

    fn name(&self) -> &'static str {
        "LETTER_SEGMENTER"
    }
}

impl LetterSegmenter {
    /// A segmenter with no open runs.
    pub fn new() -> (r: Self)
        ensures
            r.start is None,
            r.end is None,
            r.english_start is None,
            r.english_end is None,
            r.arabic_start is None,
            r.arabic_end is None,
    {
        LetterSegmenter {
            start: None,
            end: None,
            english_start: None,
            english_end: None,
            arabic_start: None,
            arabic_end: None,
        }
    }

    /// The mixed machine: opens on a letter or digit, extends on letters,
    /// digits and connectors, closes on anything else or at end of input,
    /// emitting a LETTER lexeme.
    fn process_mix_letter(
        &mut self,
        input: &Vec<char>,
        cursor: usize,
        curr_char_type: CharType,
        origin_lexemes: &mut OrderedLinkedList,
    )
        requires
            run_bounded(old(self).start, old(self).end, cursor as int),
            run_opens_ok(old(self).start, input@),
            cursor < input@.len(),
            curr_char_type == char_type_of(input@[cursor as int]),
            old(origin_lexemes).wf(),
            old(origin_lexemes).bounded(input@.len() as int),
        ensures
            run_bounded(final(self).start, final(self).end, cursor + 1),
            run_opens_ok(final(self).start, input@),
            forall|b: int, e: int|
                pos_in(old(origin_lexemes)@, b, e) ==> pos_in(final(origin_lexemes)@, b, e),
            forall|b: int, e: int|
                pos_in(final(origin_lexemes)@, b, e) ==> pos_in(old(origin_lexemes)@, b, e) || (0
                    <= b < input@.len() && char_type_of(input@[b]) != CharType::USELESS),
            final(self).english_start == old(self).english_start,
            final(self).english_end == old(self).english_end,
            final(self).arabic_start == old(self).arabic_start,
            final(self).arabic_end == old(self).arabic_end,
            final(origin_lexemes).wf(),
            final(origin_lexemes).bounded(input@.len() as int),
            final(self).start == (if cursor + 1 < input@.len() && ((old(self).start is Some && (
            curr_char_type == CharType::ARABIC || curr_char_type == CharType::ENGLISH || (
            curr_char_type == CharType::USELESS && letter_connector(input@[cursor as int]))))
                || (old(self).start is None && (curr_char_type == CharType::ARABIC
                || curr_char_type == CharType::ENGLISH))) {
                if old(self).start is Some {
                    old(self).start
                } else {
                    Some(cursor)
                }
            } else {
                Option::<usize>::None
            }),
            final(self).end == (if cursor + 1 < input@.len() && ((old(self).start is Some && (
            curr_char_type == CharType::ARABIC || curr_char_type == CharType::ENGLISH || (
            curr_char_type == CharType::USELESS && letter_connector(input@[cursor as int]))))
                || (old(self).start is None && (curr_char_type == CharType::ARABIC
                || curr_char_type == CharType::ENGLISH))) {
                Some(cursor)
            } else {
                Option::<usize>::None
            }),
            old(self).start matches Some(st) ==> (old(self).end matches Some(en) ==> (!(
            curr_char_type == CharType::ARABIC || curr_char_type == CharType::ENGLISH || (
            curr_char_type == CharType::USELESS && letter_connector(input@[cursor as int])))
                ==> (pos_in(old(origin_lexemes)@, st as int, en + 1) || typed_pos_in(
                final(origin_lexemes)@,
                st as int,
                en + 1,
                LexemeType::LETTER,
            )))),
            cursor + 1 == input@.len() && ((old(self).start is Some && (curr_char_type
                == CharType::ARABIC || curr_char_type == CharType::ENGLISH || (curr_char_type
                == CharType::USELESS && letter_connector(input@[cursor as int])))) || (old(
                self,
            ).start is None && (curr_char_type == CharType::ARABIC || curr_char_type
                == CharType::ENGLISH))) ==> ({
                let st = match old(self).start {
                    Some(st) => st as int,
                    None => cursor as int,
                };
                pos_in(old(origin_lexemes)@, st, cursor + 1) || typed_pos_in(
                    final(origin_lexemes)@,
                    st,
                    cursor + 1,
                    LexemeType::LETTER,
                )
            }),
            forall|b: int, e: int, t: LexemeType|
                typed_pos_in(final(origin_lexemes)@, b, e, t) ==> typed_pos_in(
                    old(origin_lexemes)@,
                    b,
                    e,
                    t,
                ) || (t == LexemeType::LETTER && (match (old(self).start, old(self).end) {
                    (Some(st), Some(en)) => (!(curr_char_type == CharType::ARABIC
                        || curr_char_type == CharType::ENGLISH || (curr_char_type
                        == CharType::USELESS && letter_connector(input@[cursor as int]))) && b
                        == st && e == en + 1) || (cursor + 1 == input@.len() && b == st && e
                        == cursor + 1),
                    _ => (curr_char_type == CharType::ARABIC || curr_char_type
                        == CharType::ENGLISH) && cursor + 1 == input@.len() && b == cursor && e
                        == cursor + 1,
                })),
    {
        let curr_char = input[cursor];
        let char_count = input.len();
        match self.start {
            None => {
                if curr_char_type == CharType::ARABIC || curr_char_type == CharType::ENGLISH {
                    self.start = Some(cursor);
                    self.end = Some(cursor);
                }
            },
            Some(st) => {
                if curr_char_type == CharType::ARABIC || curr_char_type == CharType::ENGLISH {
                    self.end = Some(cursor);
                } else if curr_char_type == CharType::USELESS && self.is_letter_connector(
                    curr_char,
                ) {
                    self.end = Some(cursor);
                } else {
                    let en = match self.end {
                        Some(e) => e,
                        None => vstd::pervasive::unreached(),
                    };
                    let new_lexeme = Lexeme::new(st..(en + 1), LexemeType::LETTER);
                    origin_lexemes.insert(new_lexeme);
                    self.reset_mix_state();
                }
            },
        }
        if let Some(index) = self.end {
            if index == char_count - 1 {
                let st = match self.start {
                    Some(s) => s,
                    None => vstd::pervasive::unreached(),
                };
                let new_lexeme = Lexeme::new(st..(index + 1), LexemeType::LETTER);
                origin_lexemes.insert(new_lexeme);
                self.reset_mix_state();
            }
        }
    }

    /// The English machine: opens and extends on English letters, closes
    /// on anything else or at end of input, emitting an ENGLISH lexeme.
    fn process_english_letter(
        &mut self,
        input: &Vec<char>,
        cursor: usize,
        curr_char_type: CharType,
        origin_lexemes: &mut OrderedLinkedList,
    )
        requires
            run_bounded(old(self).english_start, old(self).english_end, cursor as int),
            run_opens_ok(old(self).english_start, input@),
            cursor < input@.len(),
            curr_char_type == char_type_of(input@[cursor as int]),
            old(origin_lexemes).wf(),
            old(origin_lexemes).bounded(input@.len() as int),
        ensures
            run_bounded(final(self).english_start, final(self).english_end, cursor + 1),
            run_opens_ok(final(self).english_start, input@),
            forall|b: int, e: int|
                pos_in(old(origin_lexemes)@, b, e) ==> pos_in(final(origin_lexemes)@, b, e),
            forall|b: int, e: int|
                pos_in(final(origin_lexemes)@, b, e) ==> pos_in(old(origin_lexemes)@, b, e) || (0
                    <= b < input@.len() && char_type_of(input@[b]) != CharType::USELESS),
            final(self).start == old(self).start,
            final(self).end == old(self).end,
            final(self).arabic_start == old(self).arabic_start,
            final(self).arabic_end == old(self).arabic_end,
            final(origin_lexemes).wf(),
            final(origin_lexemes).bounded(input@.len() as int),
            final(self).english_start == (if curr_char_type == CharType::ENGLISH && cursor + 1
                < input@.len() {
                if old(self).english_start is Some {
                    old(self).english_start
                } else {
                    Some(cursor)
                }
            } else {
                Option::<usize>::None
            }),
            final(self).english_end == (if curr_char_type == CharType::ENGLISH && cursor + 1
                < input@.len() {
                Some(cursor)
            } else {
                Option::<usize>::None
            }),
            old(self).english_start matches Some(st) ==> (old(self).english_end matches Some(en)
                ==> (curr_char_type != CharType::ENGLISH ==> (pos_in(
                old(origin_lexemes)@,
                st as int,
                en + 1,
            ) || typed_pos_in(
                final(origin_lexemes)@,
                st as int,
                en + 1,
                LexemeType::ENGLISH,
            )))),
            cursor + 1 == input@.len() && curr_char_type == CharType::ENGLISH ==> ({
                let st = match old(self).english_start {
                    Some(st) => st as int,
                    None => cursor as int,
                };
                pos_in(old(origin_lexemes)@, st, cursor + 1) || typed_pos_in(
                    final(origin_lexemes)@,
                    st,
                    cursor + 1,
                    LexemeType::ENGLISH,
                )
            }),
            forall|b: int, e: int, t: LexemeType|
                typed_pos_in(final(origin_lexemes)@, b, e, t) ==> typed_pos_in(
                    old(origin_lexemes)@,
                    b,
                    e,
                    t,
                ) || (t == LexemeType::ENGLISH && (match (
                    old(self).english_start,
                    old(self).english_end,
                ) {
                    (Some(st), Some(en)) => (curr_char_type != CharType::ENGLISH && b == st && e
                        == en + 1) || (cursor + 1 == input@.len() && curr_char_type
                        == CharType::ENGLISH && b == st && e == cursor + 1),
                    _ => curr_char_type == CharType::ENGLISH && cursor + 1 == input@.len() && b
                        == cursor && e == cursor + 1,
                })),
    {
        let char_count = input.len();
        match self.english_start {
            None => {
                if curr_char_type == CharType::ENGLISH {
                    self.english_start = Some(cursor);
                    self.english_end = Some(cursor);
                }
            },
            Some(st) => {
                if curr_char_type == CharType::ENGLISH {
                    self.english_end = Some(cursor);
                } else {
                    let en = match self.english_end {
                        Some(e) => e,
                        None => vstd::pervasive::unreached(),
                    };
                    let new_lexeme = Lexeme::new(st..(en + 1), LexemeType::ENGLISH);
                    origin_lexemes.insert(new_lexeme);
                    self.reset_english_state();
                }
            },
        }
        if let Some(index) = self.english_end {
            if index == char_count - 1 {
                let st = match self.english_start {
                    Some(s) => s,
                    None => vstd::pervasive::unreached(),
                };
                let new_lexeme = Lexeme::new(st..(index + 1), LexemeType::ENGLISH);
                origin_lexemes.insert(new_lexeme);
                self.reset_english_state();
            }
        }
    }

    /// The Arabic machine: opens and extends on digits, tolerates a
    /// numeric separator without extending, closes on anything else or at
    /// end of input, emitting an ARABIC lexeme.
    fn process_arabic_letter(
        &mut self,
        input: &Vec<char>,
        cursor: usize,
        curr_char_type: CharType,
        origin_lexemes: &mut OrderedLinkedList,
    )
        requires
            run_bounded(old(self).arabic_start, old(self).arabic_end, cursor as int),
            run_opens_ok(old(self).arabic_start, input@),
            cursor < input@.len(),
            curr_char_type == char_type_of(input@[cursor as int]),
            old(origin_lexemes).wf(),
            old(origin_lexemes).bounded(input@.len() as int),
        ensures
            run_bounded(final(self).arabic_start, final(self).arabic_end, cursor + 1),
            run_opens_ok(final(self).arabic_start, input@),
            forall|b: int, e: int|
                pos_in(old(origin_lexemes)@, b, e) ==> pos_in(final(origin_lexemes)@, b, e),
            forall|b: int, e: int|
                pos_in(final(origin_lexemes)@, b, e) ==> pos_in(old(origin_lexemes)@, b, e) || (0
                    <= b < input@.len() && char_type_of(input@[b]) != CharType::USELESS),
            final(self).start == old(self).start,
            final(self).end == old(self).end,
            final(self).english_start == old(self).english_start,
            final(self).english_end == old(self).english_end,
            final(origin_lexemes).wf(),
            final(origin_lexemes).bounded(input@.len() as int),
            final(self).arabic_start == (if cursor + 1 < input@.len() && (curr_char_type
                == CharType::ARABIC || (old(self).arabic_start is Some && curr_char_type
                == CharType::USELESS && num_connector(input@[cursor as int]))) {
                if old(self).arabic_start is Some {
                    old(self).arabic_start
                } else {
                    Some(cursor)
                }
            } else {
                Option::<usize>::None
            }),
            final(self).arabic_end == (if cursor + 1 < input@.len() && curr_char_type
                == CharType::ARABIC {
                Some(cursor)
            } else if cursor + 1 < input@.len() && old(self).arabic_start is Some
                && curr_char_type == CharType::USELESS && num_connector(input@[cursor as int]) {
                old(self).arabic_end
            } else {
                Option::<usize>::None
            }),
            old(self).arabic_start matches Some(st) ==> (old(self).arabic_end matches Some(en)
                ==> (curr_char_type != CharType::ARABIC && !(curr_char_type == CharType::USELESS
                && num_connector(input@[cursor as int])) ==> (pos_in(
                old(origin_lexemes)@,
                st as int,
                en + 1,
            ) || typed_pos_in(
                final(origin_lexemes)@,
                st as int,
                en + 1,
                LexemeType::ARABIC,
            )))),
            old(self).arabic_start matches Some(st) ==> (old(self).arabic_end matches Some(en)
                ==> (cursor + 1 == input@.len() ==> ({
                let e = if curr_char_type == CharType::ARABIC {
                    cursor + 1
                } else {
                    en + 1
                };
                pos_in(old(origin_lexemes)@, st as int, e) || typed_pos_in(
                    final(origin_lexemes)@,
                    st as int,
                    e,
                    LexemeType::ARABIC,
                )
            }))),
            cursor + 1 == input@.len() && old(self).arabic_start is None && curr_char_type
                == CharType::ARABIC ==> (pos_in(old(origin_lexemes)@, cursor as int, cursor + 1)
                || typed_pos_in(
                final(origin_lexemes)@,
                cursor as int,
                cursor + 1,
                LexemeType::ARABIC,
            )),
            forall|b: int, e: int, t: LexemeType|
                typed_pos_in(final(origin_lexemes)@, b, e, t) ==> typed_pos_in(
                    old(origin_lexemes)@,
                    b,
                    e,
                    t,
                ) || (t == LexemeType::ARABIC && (match (
                    old(self).arabic_start,
                    old(self).arabic_end,
                ) {
                    (Some(st), Some(en)) => (curr_char_type != CharType::ARABIC && !(
                    curr_char_type == CharType::USELESS && num_connector(input@[cursor as int]))
                        && b == st && e == en + 1) || (cursor + 1 == input@.len() && b == st && e
                        == (if curr_char_type == CharType::ARABIC {
                        cursor + 1
                    } else {
                        en + 1
                    })),
                    _ => curr_char_type == CharType::ARABIC && cursor + 1 == input@.len() && b
                        == cursor && e == cursor + 1,
                })),
    {
        let curr_char = input[cursor];
        let char_count = input.len();
        match self.arabic_start {
            None => {
                if curr_char_type == CharType::ARABIC {
                    self.arabic_start = Some(cursor);
                    self.arabic_end = Some(cursor);
                }
            },
            Some(st) => {
                if curr_char_type == CharType::ARABIC {
                    self.arabic_end = Some(cursor);
                } else if curr_char_type == CharType::USELESS && self.is_num_connector(curr_char) {
                    // tolerate a numeric separator: neither extend nor close
                } else {
                    let en = match self.arabic_end {
                        Some(e) => e,
                        None => vstd::pervasive::unreached(),
                    };
                    let new_lexeme = Lexeme::new(st..(en + 1), LexemeType::ARABIC);
                    origin_lexemes.insert(new_lexeme);
                    self.reset_arabic_state();
                }
            },
        }
        if cursor == char_count - 1 {
            if let Some(index) = self.arabic_end {
                let st = match self.arabic_start {
                    Some(s) => s,
                    None => vstd::pervasive::unreached(),
                };
                let new_lexeme = Lexeme::new(st..(index + 1), LexemeType::ARABIC);
                origin_lexemes.insert(new_lexeme);
                self.reset_arabic_state();
            }
        }
    }

    /// Forget the mixed machine's run.
    fn reset_mix_state(&mut self)
        ensures
            final(self).start is None,
            final(self).end is None,
            final(self).english_start == old(self).english_start,
            final(self).english_end == old(self).english_end,
            final(self).arabic_start == old(self).arabic_start,
            final(self).arabic_end == old(self).arabic_end,
    {
        self.start = None;
        self.end = None;
    }

    /// Forget the English machine's run.
    fn reset_english_state(&mut self)
        ensures
            final(self).english_start is None,
            final(self).english_end is None,
            final(self).start == old(self).start,
            final(self).end == old(self).end,
            final(self).arabic_start == old(self).arabic_start,
            final(self).arabic_end == old(self).arabic_end,
    {
        self.english_start = None;
        self.english_end = None;
    }

    /// Forget the Arabic machine's run.
    fn reset_arabic_state(&mut self)
        ensures
            final(self).arabic_start is None,
            final(self).arabic_end is None,
            final(self).start == old(self).start,
            final(self).end == old(self).end,
            final(self).english_start == old(self).english_start,
            final(self).english_end == old(self).english_end,
    {
        self.arabic_start = None;
        self.arabic_end = None;
    }

    /// Whether `input` is one of the mixed machine's connector characters.
    fn is_letter_connector(&self, input: char) -> (r: bool)
        ensures
            r == letter_connector(input),
    {
        input == '#' || input == '&' || input == '+' || input == '-' || input == '.' || input
            == '@' || input == '_'
    }

    /// Whether `input` is one of the Arabic machine's separator
    /// characters.
    fn is_num_connector(&self, input: char) -> (r: bool)
        ensures
            r == num_connector(input),
    {
        input == ',' || input == '.'
    }
}

impl Default for LetterSegmenter {
    /// Same as `new`: no open runs.
    fn default() -> (r: Self)
        ensures
            r.start is None,
            r.end is None,
            r.english_start is None,
            r.english_end is None,
            r.arabic_start is None,
            r.arabic_end is None,
    {
        LetterSegmenter::new()
    }
}

} // verus!
