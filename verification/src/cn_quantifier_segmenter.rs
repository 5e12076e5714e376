//! The Chinese-quantifier sub-segmenter: a state machine over Chinese
//! numerals emitting CN_NUM lexemes, and a quantifier-dictionary scan
//! emitting COUNT lexemes right after a number.

use vstd::prelude::*;
use crate::char_util::CharType;
use crate::dictionary::Dictionary;
use crate::lexeme::Lexeme;
use crate::lexeme::LexemeType;
use crate::ordered_linked_list::OrderedLinkedList;
use crate::char_util::char_type_of;
use crate::ordered_linked_list::pos_in;
use crate::ordered_linked_list::typed_pos_in;
use crate::segmentor::Segmenter;
use crate::segmentor::run_bounded;
use crate::segmentor::run_opens_ok;
use crate::trie::hit_ok;
use crate::trie::word_at;

verus! {

/// The Chinese numeral characters that open and extend a number run.
pub open spec fn chn_number_char(c: char) -> bool {
    ||| c == '一' || c == '二' || c == '两' || c == '三' || c == '四' || c == '五'
    ||| c == '六' || c == '七' || c == '八' || c == '九' || c == '十' || c == '零'
    ||| c == '壹' || c == '贰' || c == '叁' || c == '肆' || c == '伍' || c == '陆'
    ||| c == '柒' || c == '捌' || c == '玖' || c == '拾' || c == '百' || c == '千'
    ||| c == '万' || c == '亿' || c == '佰' || c == '仟' || c == '萬' || c == '億'
    ||| c == '兆' || c == '卅' || c == '廿'
}

/// Whether `c` is a Chinese numeral.
fn is_chn_number_char(c: char) -> (r: bool)
    ensures
        r == chn_number_char(c),
{
    c == '一' || c == '二' || c == '两' || c == '三' || c == '四' || c == '五' || c == '六'
        || c == '七' || c == '八' || c == '九' || c == '十' || c == '零' || c == '壹'
        || c == '贰' || c == '叁' || c == '肆' || c == '伍' || c == '陆' || c == '柒'
        || c == '捌' || c == '玖' || c == '拾' || c == '百' || c == '千' || c == '万'
        || c == '亿' || c == '佰' || c == '仟' || c == '萬' || c == '億' || c == '兆'
        || c == '卅' || c == '廿'
}

/// The quantifier segmenter: an open number run, or none.
#[derive(Debug)]
pub struct CnQuantifierSegmenter {
    pub start: Option<usize>,
    pub end: Option<usize>,
}

impl Segmenter for CnQuantifierSegmenter {
    open spec fn state_bounded(&self, input: Seq<char>, cursor: int) -> bool {
        run_bounded(self.start, self.end, cursor) && run_opens_ok(self.start, input)
    }

    fn analyze(
        &mut self,
        input: &Vec<char>,
        cursor: usize,
        curr_char_type: CharType,
        dict: &Dictionary,
        origin_lexemes: &mut OrderedLinkedList,
    ) {
        self.process_cnumber(input, cursor, curr_char_type, origin_lexemes);
        self.process_count(input, cursor, curr_char_type, dict, origin_lexemes);
    }

    fn name(&self) -> &'static str {
        "QUAN_SEGMENTER"
    }
}

impl Default for CnQuantifierSegmenter {
    /// A segmenter with no open number run.
    fn default() -> (r: Self)
        ensures
            r.start is None,
            r.end is None,
    {
        CnQuantifierSegmenter { start: None, end: None }
    }
}

impl CnQuantifierSegmenter {
    /// The number run: opens on a Chinese numeral, extends while they
    /// continue, closes on anything else or at end of input, emitting a
    /// CN_NUM lexeme.
    pub fn process_cnumber(
        &mut self,
        input: &Vec<char>,
        cursor: usize,
        curr_char_type: CharType,
        origin_lexemes: &mut OrderedLinkedList,
    )
        requires
            run_bounded(old(self).start, old(self).end, cursor as int),
            run_opens_ok(old(self).start, input@),
            cursor < input@.len(),
            curr_char_type == char_type_of(input@[cursor as int]),
            old(origin_lexemes).wf(),
            old(origin_lexemes).bounded(input@.len() as int),
        ensures
            run_bounded(final(self).start, final(self).end, cursor + 1),
            run_opens_ok(final(self).start, input@),
            final(origin_lexemes).wf(),
            final(origin_lexemes).bounded(input@.len() as int),
            forall|b: int, e: int|
                pos_in(old(origin_lexemes)@, b, e) ==> pos_in(final(origin_lexemes)@, b, e),
            forall|b: int, e: int|
                pos_in(final(origin_lexemes)@, b, e) ==> pos_in(old(origin_lexemes)@, b, e) || (0
                    <= b < input@.len() && char_type_of(input@[b]) != CharType::USELESS),
            final(self).start == (if cursor + 1 < input@.len() && curr_char_type
                == CharType::CHINESE && chn_number_char(input@[cursor as int]) {
                if old(self).start is Some {
                    old(self).start
                } else {
                    Some(cursor)
                }
            } else {
                Option::<usize>::None
            }),
            final(self).end == (if cursor + 1 < input@.len() && curr_char_type
                == CharType::CHINESE && chn_number_char(input@[cursor as int]) {
                Some(cursor)
            } else {
                Option::<usize>::None
            }),
            old(self).start matches Some(st) ==> (old(self).end matches Some(en) ==> (!(
            curr_char_type == CharType::CHINESE && chn_number_char(input@[cursor as int]))
                ==> (pos_in(old(origin_lexemes)@, st as int, en + 1) || typed_pos_in(
                final(origin_lexemes)@,
                st as int,
                en + 1,
                LexemeType::CNUM,
            )))),
            cursor + 1 == input@.len() && curr_char_type == CharType::CHINESE
                && chn_number_char(input@[cursor as int]) ==> ({
                let st = match old(self).start {
                    Some(st) => st as int,
                    None => cursor as int,
                };
                pos_in(old(origin_lexemes)@, st, cursor + 1) || typed_pos_in(
                    final(origin_lexemes)@,
                    st,
                    cursor + 1,
                    LexemeType::CNUM,
                )
            }),
            forall|b: int, e: int, t: LexemeType|
                typed_pos_in(final(origin_lexemes)@, b, e, t) ==> typed_pos_in(
                    old(origin_lexemes)@,
                    b,
                    e,
                    t,
                ) || (t == LexemeType::CNUM && (match (old(self).start, old(self).end) {
                    (Some(st), Some(en)) => (!(curr_char_type == CharType::CHINESE
                        && chn_number_char(input@[cursor as int])) && b == st && e == en + 1) || (
                    cursor + 1 == input@.len() && b == st && e == cursor + 1),
                    _ => curr_char_type == CharType::CHINESE && chn_number_char(
                        input@[cursor as int],
                    ) && cursor + 1 == input@.len() && b == cursor && e == cursor + 1,
                })),
    {
        let curr_char = input[cursor];
        let char_count = input.len();
        if self.initial_state() {
            if curr_char_type == CharType::CHINESE && is_chn_number_char(curr_char) {
                self.start = Some(cursor);
                self.end = Some(cursor);
            }
        } else {
            if curr_char_type == CharType::CHINESE && is_chn_number_char(curr_char) {
                self.end = Some(cursor);
            } else {
                let st = match self.start {
                    Some(s) => s,
                    None => vstd::pervasive::unreached(),
                };
                let en = match self.end {
                    Some(e) => e,
                    None => vstd::pervasive::unreached(),
                };
                let new_lexeme = Lexeme::new(st..(en + 1), LexemeType::CNUM);
                origin_lexemes.insert(new_lexeme);
                self.reset_state();
            }
        }
        if let Some(index) = self.end {
            if index == char_count - 1 {
                let st = match self.start {
                    Some(s) => s,
                    None => vstd::pervasive::unreached(),
                };
                let new_lexeme = Lexeme::new(st..(index + 1), LexemeType::CNUM);
                origin_lexemes.insert(new_lexeme);
                self.reset_state();
            }
        }
    }

    /// The count scan: when a number just ended here or a run is open,
    /// match the quantifier dictionary at the cursor and emit a COUNT
    /// lexeme for every MATCH hit.
    pub fn process_count(
        &mut self,
        input: &Vec<char>,
        cursor: usize,
        curr_char_type: CharType,
        dict: &Dictionary,
        origin_lexemes: &mut OrderedLinkedList,
    )
        requires
            cursor < input@.len(),
            curr_char_type == char_type_of(input@[cursor as int]),
            dict.wf(),
            old(origin_lexemes).wf(),
            old(origin_lexemes).bounded(input@.len() as int),
        ensures
            final(self).start == old(self).start,
            final(self).end == old(self).end,
            final(origin_lexemes).wf(),
            final(origin_lexemes).bounded(input@.len() as int),
            forall|b: int, e: int|
                pos_in(old(origin_lexemes)@, b, e) ==> pos_in(final(origin_lexemes)@, b, e),
            forall|b: int, e: int|
                pos_in(final(origin_lexemes)@, b, e) ==> pos_in(old(origin_lexemes)@, b, e) || (0
                    <= b < input@.len() && char_type_of(input@[b]) != CharType::USELESS),
            ((old(self).start is Some && old(self).end is Some) || (old(origin_lexemes)@.len() > 0
                && (old(origin_lexemes)@.last().lexeme_type == LexemeType::ARABIC || old(
                origin_lexemes,
            )@.last().lexeme_type == LexemeType::CNUM) && old(origin_lexemes)@.last().send()
                == cursor)) && curr_char_type == CharType::CHINESE ==> forall|d: int|
                1 <= d <= input@.len() - cursor && dict.quantifier_dict.contains_word(
                    #[trigger] input@.subrange(cursor as int, cursor + d),
                ) ==> pos_in(final(origin_lexemes)@, cursor as int, cursor + d),
            forall|b: int, e: int, t: LexemeType|
                typed_pos_in(final(origin_lexemes)@, b, e, t) ==> typed_pos_in(
                    old(origin_lexemes)@,
                    b,
                    e,
                    t,
                ) || (((old(self).start is Some && old(self).end is Some) || (old(
                    origin_lexemes,
                )@.len() > 0 && (old(origin_lexemes)@.last().lexeme_type == LexemeType::ARABIC
                    || old(origin_lexemes)@.last().lexeme_type == LexemeType::CNUM) && old(
                    origin_lexemes,
                )@.last().send() == cursor)) && curr_char_type == CharType::CHINESE && t
                    == LexemeType::COUNT && b == cursor && cursor < e <= input@.len()
                    && dict.quantifier_dict.contains_word(input@.subrange(cursor as int, e))),
    {
        if self.need_count_scan(cursor, origin_lexemes) {
            let char_count = input.len();
            match curr_char_type {
                CharType::CHINESE => {
                    let hits = dict.match_quantifier_chars(input, cursor, char_count - cursor);
                    let m = hits.len();
                    let mut k: usize = 0;
                    while k < m
                        invariant
                            m == hits@.len(),
                            cursor < input@.len(),
                            curr_char_type == char_type_of(input@[cursor as int]),
                            curr_char_type == CharType::CHINESE,
                            forall|i: int|
                                0 <= i < hits@.len() ==> hit_ok(
                                    dict.quantifier_dict.root,
                                    input@,
                                    cursor as int,
                                    input@.len() - cursor,
                                    #[trigger] hits@[i],
                                ),
                            origin_lexemes.wf(),
                            origin_lexemes.bounded(input@.len() as int),
                            forall|b: int, e: int|
                                pos_in(old(origin_lexemes)@, b, e) ==> pos_in(
                                    origin_lexemes@,
                                    b,
                                    e,
                                ),
                            forall|b: int, e: int|
                                pos_in(origin_lexemes@, b, e) ==> pos_in(
                                    old(origin_lexemes)@,
                                    b,
                                    e,
                                ) || b == cursor,
                            forall|i: int|
                                0 <= i < k && (#[trigger] hits@[i]).is_match_spec() ==> pos_in(
                                    origin_lexemes@,
                                    cursor as int,
                                    hits@[i].send(),
                                ),
                            forall|b: int, e: int, t: LexemeType|
                                typed_pos_in(origin_lexemes@, b, e, t) ==> typed_pos_in(
                                    old(origin_lexemes)@,
                                    b,
                                    e,
                                    t,
                                ) || (t == LexemeType::COUNT && b == cursor && cursor < e
                                    <= input@.len() && dict.quantifier_dict.contains_word(
                                    input@.subrange(cursor as int, e),
                                )),
                        decreases m - k,
                    {
                        let hit = &hits[k];
                        if hit.is_match() {
                            let new_lexeme = Lexeme::new(hit.pos(), LexemeType::COUNT);
                            origin_lexemes.insert(new_lexeme);
                        }
                        k += 1;
                    }
                    proof {
                        assert forall|d: int|
                            1 <= d <= input@.len() - cursor && dict.quantifier_dict.contains_word(
                                #[trigger] input@.subrange(cursor as int, cursor + d),
                            ) implies pos_in(origin_lexemes@, cursor as int, cursor + d) by {
                            assert(dict.quantifier_dict.root.accepts(
                                word_at(input@, cursor as int, d),
                            ));
                            let i = choose|i: int|
                                0 <= i < hits@.len() && hits@[i].send() == cursor + d
                                    && hits@[i].is_match_spec();
                            assert(pos_in(origin_lexemes@, cursor as int, hits@[i].send()));
                        }
                    }
                },
                _ => {},
            }
        }
    }

    /// Whether the count scan applies here: a number run is open, or the
    /// last candidate so far is an ARABIC or CN_NUM lexeme ending exactly
    /// at the cursor.
    pub fn need_count_scan(&self, cursor: usize, origin_lexemes: &OrderedLinkedList) -> (r: bool)
        ensures
            r == ((self.start is Some && self.end is Some) || (origin_lexemes@.len() > 0 && {
                let last = origin_lexemes@.last();
                (last.lexeme_type == LexemeType::ARABIC || last.lexeme_type == LexemeType::CNUM)
                    && last.send() == cursor
            })),
    {
        if self.start.is_some() && self.end.is_some() {
            return true;
        }
        if origin_lexemes.empty() {
            return false;
        }
        match origin_lexemes.peek_back() {
            Some(lexeme) => {
                if lexeme.lexeme_type == LexemeType::ARABIC || lexeme.lexeme_type
                    == LexemeType::CNUM {
                    if lexeme.end_pos() == cursor {
                        return true;
                    }
                }
                false
            },
            None => false,
        }
    }

    /// Whether no number run is open.
    pub fn initial_state(&self) -> (r: bool)
        ensures
            r == (self.start is None && self.end is None),
    {
        self.start.is_none() && self.end.is_none()
    }

    /// Forget the number run.
    pub fn reset_state(&mut self)
        ensures
            final(self).start is None,
            final(self).end is None,
    {
        self.start = None;
        self.end = None;
    }
}

} // verus!
