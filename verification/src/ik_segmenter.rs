//! The segmenter driver: regularizes the input, runs the three
//! sub-segmenters over every character position, arbitrates the candidate
//! lexemes, and assembles the output token stream with single-character
//! gap fill, digit-quantifier compounding and the stop-word filter.

use vstd::prelude::*;
use std::collections::HashMap;
use crate::char_util::CharType;
use crate::char_util::char_type_of;
use crate::char_util::chars_of;
use crate::char_util::regular_seq;
use crate::char_util::regularize_str;
use crate::cjk_segmenter::CJKSegmenter;
use crate::cn_quantifier_segmenter::CnQuantifierSegmenter;
use crate::dictionary::Dictionary;
use crate::ik_arbitrator::IKArbitrator;
use crate::ik_arbitrator::path_map_bounded;
use crate::ik_arbitrator::path_map_chains;
use crate::ik_arbitrator::path_map_wf;
use crate::letter_segmentor::LetterSegmenter;
use crate::lexeme::Lexeme;
use crate::lexeme::LexemeType;
use crate::lexeme_path::LexemePath;
use crate::lexeme_path::lemma_chain_push;
use crate::lexeme_path::lemma_chain_trans;
use crate::lexeme_path::seq_chain;
use crate::ordered_linked_list::OrderedLinkedList;
use crate::ordered_linked_list::all_bounded;
use crate::ordered_linked_list::covers;
use crate::ordered_linked_list::all_wf_lex;
use crate::ordered_linked_list::lemma_sorted_push;
use crate::ordered_linked_list::lemma_pos_in_grow;
use crate::ordered_linked_list::lex_sorted;
use crate::ordered_linked_list::pos_in;
use crate::ordered_linked_list::typed_pos_in;
use crate::segmentor::Segmenter;

verus! {

/// The tokenization mode: INDEX emits every candidate for maximal recall,
/// SEARCH picks one best non-overlapping cover per conflict group.
#[derive(Debug, Clone, Copy, PartialEq, Eq, Structural)]
pub enum TokenMode {
    INDEX,
    SEARCH,
}

/// One compound step of the ARABIC head: a digit run absorbs a following
/// CN_NUM into a CN_NUM, or a following COUNT into a CQUAN, when the
/// ranges meet exactly; the result is the new end, the new type and the
/// index past the consumed lexemes.
pub open spec fn compound_arabic_step(
    re: int,
    rt: LexemeType,
    results: Seq<Lexeme>,
    i: int,
) -> (int, LexemeType, int) {
    if i < results.len() && rt == LexemeType::ARABIC {
        let next = results[i];
        if next.lexeme_type == LexemeType::CNUM && re == next.sbegin() {
            (next.send(), LexemeType::CNUM, i + 1)
        } else if next.lexeme_type == LexemeType::COUNT && re == next.sbegin() {
            (next.send(), LexemeType::CQUAN, i + 1)
        } else {
            (re, rt, i)
        }
    } else {
        (re, rt, i)
    }
}

/// The second compound step: a (possibly just merged) CN_NUM absorbs a
/// following COUNT into a CQUAN when the ranges meet exactly.
pub open spec fn compound_cnum_step(
    re: int,
    rt: LexemeType,
    results: Seq<Lexeme>,
    i: int,
) -> (int, LexemeType, int) {
    if i < results.len() && rt == LexemeType::CNUM {
        let next = results[i];
        if next.lexeme_type == LexemeType::COUNT && re == next.sbegin() {
            (next.send(), LexemeType::CQUAN, i + 1)
        } else {
            (re, rt, i)
        }
    } else {
        (re, rt, i)
    }
}

/// What `compound` leaves behind: the ARABIC step followed by the CN_NUM
/// step, two merges at most.
pub open spec fn compound_spec(
    re: int,
    rt: LexemeType,
    results: Seq<Lexeme>,
    i: int,
) -> (int, LexemeType, int) {
    let s1 = compound_arabic_step(re, rt, results, i);
    compound_cnum_step(s1.0, s1.1, results, s1.2)
}

/// Where an assembled output lexeme may come from: it is a lexeme of one
/// of the arbitrated paths (same range and type), or a single-character
/// gap fill — CN_CHAR over a CHINESE character, OTHER_CJK over an
/// OTHER_CJK character. In particular nothing is emitted at a USELESS
/// position that no path covers.
pub open spec fn output_item_ok(m: Map<usize, LexemePath>, chars: Seq<char>, l: Lexeme) -> bool {
    ||| exists|k: usize|
        #[trigger] m.contains_key(k) && typed_pos_in(
            m[k].lv(),
            l.sbegin(),
            l.send(),
            l.lexeme_type,
        )
    ||| (l.send() == l.sbegin() + 1 && 0 <= l.sbegin() < chars.len() && ((l.lexeme_type
        == LexemeType::CNCHAR && char_type_of(chars[l.sbegin()]) == CharType::CHINESE) || (
    l.lexeme_type == LexemeType::OtherCJK && char_type_of(chars[l.sbegin()])
        == CharType::OtherCjk)))
}

/// The segmenter: the three sub-segmenters, the arbitrator and the
/// dictionary they share.
pub struct IKSegmenter {
    pub dict: Dictionary,
    pub letter_segmenter: LetterSegmenter,
    pub cn_quantifier_segmenter: CnQuantifierSegmenter,
    pub cjk_segmenter: CJKSegmenter,
    pub arbitrator: IKArbitrator,
}

impl IKSegmenter {
    /// The segmenter's dictionaries are well-formed.
    pub open spec fn wf(&self) -> bool {
        self.dict.wf()
    }

    /// A segmenter over the given dictionary.
    pub fn new(dict: Dictionary) -> (r: Self)
        requires
            dict.wf(),
        ensures
            r.wf(),
            r.dict == dict,
    {
        IKSegmenter {
            dict,
            letter_segmenter: LetterSegmenter::new(),
            cn_quantifier_segmenter: CnQuantifierSegmenter::default(),
            cjk_segmenter: CJKSegmenter {},
            arbitrator: IKArbitrator {},
        }
    }

    /// Tokenize `text`. Every output lexeme is a non-empty range within
    /// the input; the stream is sorted by begin ascending with longer
    /// lexemes first on ties; in SEARCH mode it is non-overlapping; each
    /// lexeme's text is the regularized input's substring over its range;
    /// in INDEX mode every occurrence of a main-dictionary word that
    /// starts at a non-USELESS character appears in the output, unless
    /// that occurrence is itself a stop word; and with no stop words
    /// configured, every CHINESE or OTHER_CJK character is covered by
    /// some output lexeme.
    #[verifier::rlimit(60)]
    pub fn tokenize(&mut self, text: &str, mode: TokenMode) -> (res: Vec<Lexeme>)
        requires
            old(self).wf(),
            text@.len() <= 0x7FFF_FFFF,
        ensures
            final(self).wf(),
            final(self).dict == old(self).dict,
            forall|i: int|
                0 <= i < res@.len() ==> (#[trigger] res@[i]).in_range(text@.len() as int),
            lex_sorted(res@),
            mode == TokenMode::SEARCH ==> seq_chain(res@),
            forall|i: int|
                0 <= i < res@.len() ==> (#[trigger] res@[i]).stext() == regular_seq(
                    text@,
                ).subrange(res@[i].sbegin(), res@[i].send()),
            mode == TokenMode::INDEX ==> forall|c: int, d: int|
                0 <= c && 1 <= d && c + d <= text@.len() && char_type_of(regular_seq(text@)[c])
                    != CharType::USELESS && old(self).dict.main_dict.contains_word(
                    #[trigger] regular_seq(text@).subrange(c, c + d),
                ) && !old(self).dict.stop_word_dict.contains_word(
                    regular_seq(text@).subrange(c, c + d),
                ) ==> pos_in(res@, c, c + d),
            forall|c: int|
                0 <= c < text@.len() && (char_type_of(#[trigger] regular_seq(text@)[c])
                    == CharType::CHINESE || char_type_of(regular_seq(text@)[c])
                    == CharType::OtherCjk) ==> covers(res@, c) || exists|b: int, e: int|
                    0 <= b <= c < e <= text@.len()
                        && old(self).dict.stop_word_dict.contains_word(
                        #[trigger] regular_seq(text@).subrange(b, e),
                    ),
    {
        let regular_str = regularize_str(text);
        let input = regular_str.as_str();
        let chars = chars_of(input);
        let n = chars.len();
        self.letter_segmenter = LetterSegmenter::new();
        self.cn_quantifier_segmenter = CnQuantifierSegmenter::default();
        let mut origin_lexemes = OrderedLinkedList::new();
        let mut cursor: usize = 0;
        while cursor < n
            invariant
                self.wf(),
                self.dict == old(self).dict,
                n == chars@.len(),
                chars@ == regular_seq(text@),
                self.letter_segmenter.state_bounded(chars@, cursor as int),
                self.cn_quantifier_segmenter.state_bounded(chars@, cursor as int),
                origin_lexemes.wf(),
                origin_lexemes.bounded(n as int),
                forall|c: int, d: int|
                    0 <= c < cursor && 1 <= d && c + d <= n && char_type_of(chars@[c])
                        != CharType::USELESS && self.dict.main_dict.contains_word(
                        #[trigger] chars@.subrange(c, c + d),
                    ) ==> pos_in(origin_lexemes@, c, c + d),
                forall|b: int, e: int|
                    #[trigger] pos_in(origin_lexemes@, b, e) ==> 0 <= b < n && char_type_of(
                        chars@[b],
                    ) != CharType::USELESS,
            decreases n - cursor,
        {
            let curr_char = chars[cursor];
            let curr_char_type = CharType::from(curr_char);
            self.letter_segmenter.analyze(
                &chars,
                cursor,
                curr_char_type,
                &self.dict,
                &mut origin_lexemes,
            );
            self.cn_quantifier_segmenter.analyze(
                &chars,
                cursor,
                curr_char_type,
                &self.dict,
                &mut origin_lexemes,
            );
            self.cjk_segmenter.analyze(
                &chars,
                cursor,
                curr_char_type,
                &self.dict,
                &mut origin_lexemes,
            );
            cursor += 1;
        }
        proof {
            assert(origin_lexemes.bounded(0x7FFF_FFFF));
        }
        let mut path_map = self.arbitrator.process(&origin_lexemes, &mode);
        let ghost chain_mode = mode == TokenMode::SEARCH;
        proof {
            assert forall|k: usize| #[trigger] path_map@.contains_key(k) implies char_type_of(
                chars@[k as int],
            ) != CharType::USELESS by {
                let p = path_map@[k];
                assert(p.lv()[0].sbegin() == k as int);
                assert(pos_in(p.lv(), k as int, p.lv()[0].send()));
                assert(pos_in(origin_lexemes@, k as int, p.lv()[0].send()));
            }
        }
        let ghost gpm = path_map@;
        let results = self.output_to_result(&mut path_map, &chars, Ghost(chain_mode));
        let m = results.len();
        let mut final_results: Vec<Lexeme> = Vec::with_capacity(m);
        let mut i: usize = 0;
        while i < m
            invariant
                self.wf(),
                self.dict == old(self).dict,
                chain_mode == (mode == TokenMode::SEARCH),
                m == results@.len(),
                i <= m,
                n == chars@.len(),
                chars@ == regular_seq(text@),
                input@ == regular_seq(text@),
                n == input@.len(),
                n <= 0x7FFF_FFFF,
                lex_sorted(results@),
                all_wf_lex(results@),
                all_bounded(results@, n as int),
                chain_mode ==> seq_chain(results@),
                all_wf_lex(final_results@),
                all_bounded(final_results@, n as int),
                !chain_mode ==> lex_sorted(final_results@),
                chain_mode ==> seq_chain(final_results@),
                !chain_mode ==> forall|j: int|
                    i <= j < m && final_results@.len() > 0 ==> final_results@.last().lex_lt(
                        &#[trigger] results@[j],
                    ),
                chain_mode ==> (final_results@.len() > 0 && i < m
                    ==> final_results@.last().send() <= results@[i as int].sbegin()),
                forall|j: int|
                    0 <= j < final_results@.len() ==> (#[trigger] final_results@[j]).stext()
                        == regular_seq(text@).subrange(
                        final_results@[j].sbegin(),
                        final_results@[j].send(),
                    ),
                !chain_mode ==> forall|j: int|
                    0 <= j < i ==> pos_in(
                        final_results@,
                        (#[trigger] results@[j]).sbegin(),
                        results@[j].send(),
                    ) || self.dict.stop_word_dict.contains_word(
                        regular_seq(text@).subrange(results@[j].sbegin(), results@[j].send()),
                    ),
                forall|c: int|
                    covers(#[trigger] results@.take(i as int), c) ==> covers(final_results@, c)
                        || exists|b: int, e: int|
                        0 <= b <= c < e <= n && self.dict.stop_word_dict.contains_word(
                            #[trigger] regular_seq(text@).subrange(b, e),
                        ),
            decreases m - i,
        {
            let ghost ientry = i as int;
            let mut result_value = results[i].clone();
            i += 1;
            proof {
                assert(result_value.sbegin() == results@[ientry].sbegin());
                assert(result_value.send() == results@[ientry].send());
                if chain_mode && ientry + 1 < m {
                    assert(results@[ientry].send() <= results@[ientry + 1].sbegin());
                }
            }
            if mode == TokenMode::SEARCH {
                self.compound(&results, &mut i, &mut result_value);
            }
            let blen = result_value.len();
            if !self.dict.is_stop_word(input, result_value.begin_pos(), blen) {
                result_value.parse_lexeme_text(input);
                let ghost prev = final_results@;
                proof {
                    if !chain_mode {
                        assert(result_value.sbegin() == results@[ientry].sbegin());
                        assert(result_value.slen() == results@[ientry].slen());
                        if prev.len() > 0 {
                            assert(prev.last().lex_lt(&results@[ientry]));
                            assert(prev.last().lex_lt(&result_value));
                        }
                        lemma_sorted_push(prev, result_value);
                    } else {
                        if prev.len() > 0 {
                            assert(prev.last().send() <= results@[ientry].sbegin());
                            assert(prev.last().send() <= result_value.sbegin());
                        }
                        lemma_chain_push(prev, result_value);
                    }
                }
                let ghost prevf = final_results@;
                final_results.push(result_value);
                proof {
                    lemma_pos_in_grow(prevf, final_results@);
                    assert(final_results@.last() == result_value);
                    assert forall|c: int|
                        covers(results@.take(i as int), c) implies covers(final_results@, c)
                        || exists|b: int, e: int|
                        0 <= b <= c < e <= n && self.dict.stop_word_dict.contains_word(
                            #[trigger] regular_seq(text@).subrange(b, e),
                        ) by {
                        let j = choose|j: int|
                            0 <= j < i && (#[trigger] results@.take(i as int)[j]).sbegin() <= c
                                < results@.take(i as int)[j].send();
                        if j < ientry {
                            assert(covers(results@.take(ientry), c)) by {
                                assert(results@.take(ientry)[j] == results@.take(i as int)[j]);
                            }
                        } else {
                            assert(results@.take(i as int)[j] == results@[j]);
                            assert(result_value.sbegin() <= c < result_value.send());
                            assert(final_results@.last().sbegin() <= c
                                < final_results@.last().send());
                        }
                    }
                    if !chain_mode {
                        assert(pos_in(
                            final_results@,
                            results@[ientry].sbegin(),
                            results@[ientry].send(),
                        ));
                        assert forall|j: int|
                            i <= j < m && final_results@.len() > 0 implies final_results@.last().lex_lt(
                            &results@[j],
                        ) by {
                            assert(results@[ientry].lex_lt(&results@[j]));
                        }
                    }
                }
            } else {
                proof {
                    if chain_mode && final_results@.len() > 0 && i < m {
                        assert(final_results@.last().send() <= results@[ientry].sbegin());
                        if ientry < i as int {
                            lemma_chain_trans(results@, ientry, i as int);
                            assert(results@[ientry].send() <= results@[i as int].sbegin());
                        }
                    }
                    if !chain_mode {
                        assert(self.dict.stop_word_dict.contains_word(
                            regular_seq(text@).subrange(
                                results@[ientry].sbegin(),
                                results@[ientry].send(),
                            ),
                        ));
                    }
                    assert forall|c: int|
                        covers(results@.take(i as int), c) implies covers(final_results@, c)
                        || exists|b: int, e: int|
                        0 <= b <= c < e <= n && self.dict.stop_word_dict.contains_word(
                            #[trigger] regular_seq(text@).subrange(b, e),
                        ) by {
                        let j = choose|j: int|
                            0 <= j < i && (#[trigger] results@.take(i as int)[j]).sbegin() <= c
                                < results@.take(i as int)[j].send();
                        if j < ientry {
                            assert(covers(results@.take(ientry), c)) by {
                                assert(results@.take(ientry)[j] == results@.take(i as int)[j]);
                            }
                        } else {
                            assert(results@.take(i as int)[j] == results@[j]);
                            assert(result_value.sbegin() <= c < result_value.send());
                            assert(self.dict.stop_word_dict.contains_word(
                                regular_seq(text@).subrange(
                                    result_value.sbegin(),
                                    result_value.send(),
                                ),
                            ));
                            assert(result_value.send() <= n);
                        }
                    }
                }
            }
        }
        proof {
            assert(n == text@.len());
            assert(results@.take(m as int) =~= results@);
            if chain_mode {
                assert forall|a: int, b: int|
                    0 <= a < b < final_results@.len() implies final_results@[a].lex_lt(
                    &final_results@[b],
                ) by {
                    lemma_chain_trans(final_results@, a, b);
                }
            } else {
                assert forall|c: int, d: int|
                    0 <= c && 1 <= d && c + d <= text@.len() && char_type_of(
                        regular_seq(text@)[c],
                    ) != CharType::USELESS && old(self).dict.main_dict.contains_word(
                        #[trigger] regular_seq(text@).subrange(c, c + d),
                    ) && !old(self).dict.stop_word_dict.contains_word(
                        regular_seq(text@).subrange(c, c + d),
                    ) implies pos_in(final_results@, c, c + d) by {
                    assert(pos_in(origin_lexemes@, c, c + d));
                    let k = choose|k: usize|
                        #[trigger] gpm.contains_key(k) && pos_in(gpm[k].lv(), c, c + d);
                    assert(pos_in(results@, c, c + d));
                    let j = choose|j: int|
                        0 <= j < results@.len() && (#[trigger] results@[j]).sbegin() == c
                            && results@[j].send() == c + d;
                    assert(pos_in(final_results@, results@[j].sbegin(), results@[j].send())
                        || self.dict.stop_word_dict.contains_word(
                        regular_seq(text@).subrange(results@[j].sbegin(), results@[j].send()),
                    ));
                }
            }
        }
        final_results
    }

    /// Walk the input left to right, draining each arbitrated path in
    /// order and filling uncovered CHINESE / OTHER_CJK positions with
    /// single-character lexemes.
    fn output_to_result(
        &self,
        path_map: &mut HashMap<usize, LexemePath>,
        chars: &Vec<char>,
        chain_mode: Ghost<bool>,
    ) -> (results: Vec<Lexeme>)
        requires
            path_map_wf(old(path_map)@),
            path_map_bounded(old(path_map)@, chars@.len() as int),
            chain_mode@ ==> path_map_chains(old(path_map)@),
            forall|k: usize|
                #[trigger] old(path_map)@.contains_key(k) ==> char_type_of(chars@[k as int])
                    != CharType::USELESS,
        ensures
            lex_sorted(results@),
            all_wf_lex(results@),
            all_bounded(results@, chars@.len() as int),
            chain_mode@ ==> seq_chain(results@),
            forall|k: usize, b: int, e: int|
                old(path_map)@.contains_key(k) && #[trigger] pos_in(
                    old(path_map)@[k].lv(),
                    b,
                    e,
                ) ==> pos_in(results@, b, e),
            forall|c: int|
                0 <= c < chars@.len() && (char_type_of(#[trigger] chars@[c]) == CharType::CHINESE
                    || char_type_of(chars@[c]) == CharType::OtherCjk) ==> covers(results@, c),
            forall|j: int|
                0 <= j < results@.len() ==> output_item_ok(
                    old(path_map)@,
                    chars@,
                    #[trigger] results@[j],
                ),
    {
        let mut results: Vec<Lexeme> = Vec::new();
        let n = chars.len();
        let mut index: usize = 0;
        while index < n
            invariant
                n == chars@.len(),
                path_map_wf(path_map@),
                path_map_bounded(path_map@, n as int),
                chain_mode@ ==> path_map_chains(path_map@),
                lex_sorted(results@),
                all_wf_lex(results@),
                all_bounded(results@, n as int),
                chain_mode@ ==> seq_chain(results@),
                results@.len() > 0 ==> results@.last().sbegin() < index,
                chain_mode@ && results@.len() > 0 ==> results@.last().send() <= index,
                forall|k: usize|
                    #[trigger] path_map@.contains_key(k) ==> old(path_map)@.contains_key(k)
                        && path_map@[k] == old(path_map)@[k],
                forall|k: usize|
                    #[trigger] old(path_map)@.contains_key(k) ==> char_type_of(chars@[k as int])
                        != CharType::USELESS,
                forall|k: usize| #[trigger] path_map@.contains_key(k) ==> k >= index,
                forall|k: usize, b: int, e: int|
                    old(path_map)@.contains_key(k) && #[trigger] pos_in(
                        old(path_map)@[k].lv(),
                        b,
                        e,
                    ) ==> pos_in(results@, b, e) || path_map@.contains_key(k),
                forall|j: int|
                    0 <= j < results@.len() ==> output_item_ok(
                        old(path_map)@,
                        chars@,
                        #[trigger] results@[j],
                    ),
                forall|c: int|
                    0 <= c < index && (char_type_of(#[trigger] chars@[c]) == CharType::CHINESE
                        || char_type_of(chars@[c]) == CharType::OtherCjk) ==> covers(results@, c),
            decreases n - index,
        {
            let curr_char = chars[index];
            let cur_char_type = CharType::from(curr_char);
            if cur_char_type == CharType::USELESS {
                proof {
                    assert forall|k: usize|
                        #[trigger] path_map@.contains_key(k) implies k >= index + 1 by {
                        assert(old(path_map)@.contains_key(k));
                        assert(char_type_of(chars@[k as int]) != CharType::USELESS);
                    }
                }
                index += 1;
            } else {
                let ghost gmap = path_map@;
                match path_map.remove(&index) {
                    Some(mut p) => {
                        let ghost pk = index as int;
                        let ghost pend = p.end as int;
                        let ghost gfull = p.lv().len() as int;
                        let ghost gplv = p.lv();
                        let ghost gres = results@;
                        proof {
                            assert(old(path_map)@.contains_key(pk as usize));
                            assert(old(path_map)@[pk as usize].lv() == gplv);
                            assert(p.wf() && p.begin == pk && p.lv().len() > 0 && p.bounded(
                                n as int,
                            ));
                            assert forall|j: int| 0 <= j < p.lv().len() implies (
                            #[trigger] p.lv()[j]).sbegin() >= pk by {
                                if j > 0 {
                                    assert(p.lv()[0].lex_lt(&p.lv()[j]));
                                }
                            }
                        }
                        while p.len() > 0
                            invariant
                                n == chars@.len(),
                                p.lexeme_list.wf(),
                                all_bounded(p.lv(), pend),
                                all_bounded(p.lv(), n as int),
                                pend <= n,
                                0 <= pk < n,
                                forall|j: int|
                                    0 <= j < p.lv().len() ==> (#[trigger] p.lv()[j]).sbegin()
                                        >= pk,
                                chain_mode@ ==> seq_chain(p.lv()),
                                chain_mode@ ==> (p.lv().len() > 0 ==> index <= p.lv()[0].sbegin()),
                                lex_sorted(results@),
                                all_wf_lex(results@),
                                all_bounded(results@, n as int),
                                chain_mode@ ==> seq_chain(results@),
                                results@.len() > 0 ==> results@.last().sbegin() < index,
                                chain_mode@ && results@.len() > 0 ==> results@.last().send()
                                    <= index,
                                forall|j: int|
                                    0 <= j < p.lv().len() && results@.len() > 0
                                        ==> results@.last().lex_lt(&#[trigger] p.lv()[j]),
                                p.lv().len() <= gfull,
                                p.lv().len() < gfull ==> pk < index && index <= pend,
                                p.lv().len() == gfull ==> index == pk,
                                old(path_map)@.contains_key(pk as usize),
                                old(path_map)@[pk as usize].lv() == gplv,
                                forall|b: int, e: int|
                                    #[trigger] pos_in(gplv, b, e) ==> pos_in(results@, b, e)
                                        || pos_in(p.lv(), b, e),
                                forall|b: int, e: int|
                                    #[trigger] pos_in(gres, b, e) ==> pos_in(results@, b, e),
                                forall|b: int, e: int, t: LexemeType|
                                    #[trigger] typed_pos_in(p.lv(), b, e, t) ==> typed_pos_in(
                                        gplv,
                                        b,
                                        e,
                                        t,
                                    ),
                                forall|j: int|
                                    0 <= j < results@.len() ==> output_item_ok(
                                        old(path_map)@,
                                        chars@,
                                        #[trigger] results@[j],
                                    ),
                                forall|c: int|
                                    0 <= c < index && (char_type_of(#[trigger] chars@[c])
                                        == CharType::CHINESE || char_type_of(chars@[c])
                                        == CharType::OtherCjk) ==> covers(results@, c),
                            decreases p.lv().len(),
                        {
                            let ghost plv = p.lv();
                            let l = match p.poll_first() {
                                Some(l) => l,
                                None => vstd::pervasive::unreached(),
                            };
                            proof {
                                assert(l == plv[0]);
                                assert(l.wf_lex() && l.send() <= pend && l.sbegin() >= pk);
                                assert forall|j: int| 0 <= j < p.lv().len() implies (
                                #[trigger] p.lv()[j]).sbegin() >= l.sbegin() by {
                                    assert(plv[0].lex_lt(&plv[j + 1]));
                                    assert(p.lv()[j] == plv[j + 1]);
                                }
                                if chain_mode@ && p.lv().len() > 0 {
                                    assert(plv[0].send() <= plv[1].sbegin());
                                    assert(p.lv()[0] == plv[1]);
                                }
                                assert forall|b: int, e: int| #[trigger] pos_in(plv, b, e) implies
                                    pos_in(p.lv(), b, e) || (b == l.sbegin() && e == l.send()) by {
                                    let i = choose|i: int|
                                        0 <= i < plv.len() && (#[trigger] plv[i]).sbegin() == b
                                            && plv[i].send() == e;
                                    if i > 0 {
                                        assert(p.lv()[i - 1] == plv[i]);
                                    }
                                }
                                assert forall|b: int, e: int, t: LexemeType|
                                    #[trigger] typed_pos_in(p.lv(), b, e, t) implies typed_pos_in(
                                    gplv,
                                    b,
                                    e,
                                    t,
                                ) by {
                                    let i = choose|i: int|
                                        0 <= i < p.lv().len() && (#[trigger] p.lv()[i]).sbegin()
                                            == b && p.lv()[i].send() == e
                                            && p.lv()[i].lexeme_type == t;
                                    assert(plv[i + 1] == p.lv()[i]);
                                    assert(typed_pos_in(plv, b, e, t));
                                }
                                assert(typed_pos_in(plv, l.sbegin(), l.send(), l.lexeme_type));
                                assert(typed_pos_in(gplv, l.sbegin(), l.send(), l.lexeme_type));
                            }
                            while index < l.begin_pos()
                                invariant
                                    n == chars@.len(),
                                    l.wf_lex(),
                                    l.send() <= pend,
                                    pend <= n,
                                    l.sbegin() >= pk,
                                    p.lv().len() < gfull,
                                    lex_sorted(results@),
                                    all_wf_lex(results@),
                                    all_bounded(results@, n as int),
                                    chain_mode@ ==> seq_chain(results@),
                                    results@.len() > 0 ==> results@.last().sbegin() < index,
                                    chain_mode@ && results@.len() > 0 ==> results@.last().send()
                                        <= index,
                                    results@.len() > 0 ==> results@.last().lex_lt(&l),
                                    chain_mode@ ==> index <= l.sbegin(),
                                    forall|j: int|
                                        0 <= j < p.lv().len() ==> (#[trigger] p.lv()[j]).sbegin()
                                            >= l.sbegin(),
                                    forall|j: int|
                                        0 <= j < p.lv().len() && results@.len() > 0
                                            ==> results@.last().lex_lt(&#[trigger] p.lv()[j]),
                                    forall|b: int, e: int|
                                        #[trigger] pos_in(gplv, b, e) ==> pos_in(results@, b, e)
                                            || pos_in(p.lv(), b, e) || (b == l.sbegin() && e
                                            == l.send()),
                                    forall|b: int, e: int|
                                        #[trigger] pos_in(gres, b, e) ==> pos_in(results@, b, e),
                                    forall|j: int|
                                        0 <= j < results@.len() ==> output_item_ok(
                                            old(path_map)@,
                                            chars@,
                                            #[trigger] results@[j],
                                        ),
                                    forall|c: int|
                                        0 <= c < index && (char_type_of(#[trigger] chars@[c])
                                            == CharType::CHINESE || char_type_of(chars@[c])
                                            == CharType::OtherCjk) ==> covers(results@, c),
                                decreases l.sbegin() - index,
                            {
                                let fc = chars[index];
                                let ft = CharType::from(fc);
                                let ghost prevr = results@;
                                self.add_single_lexeme(&mut results, ft, index);
                                proof {
                                    if results@.len() > prevr.len() {
                                        let fl = results@.last();
                                        assert(results@ =~= prevr.push(fl));
                                        assert(fl.sbegin() == index && fl.send() == index + 1);
                                        if prevr.len() > 0 {
                                            assert(prevr.last().lex_lt(&fl));
                                        }
                                        lemma_sorted_push(prevr, fl);
                                        if chain_mode@ {
                                            lemma_chain_push(prevr, fl);
                                        }
                                        assert(fl.lex_lt(&l));
                                        assert forall|j: int|
                                            0 <= j < p.lv().len() implies fl.lex_lt(
                                            &#[trigger] p.lv()[j],
                                        ) by {
                                            assert(p.lv()[j].sbegin() >= l.sbegin());
                                        }
                                        lemma_pos_in_grow(prevr, results@);
                                        assert(covers(results@, index as int));
                                        assert(output_item_ok(old(path_map)@, chars@, fl));
                                    }
                                }
                                index += 1;
                            }
                            let e = l.end_pos();
                            let ghost prev = results@;
                            proof {
                                if prev.len() > 0 {
                                    assert(prev.last().lex_lt(&l));
                                }
                                lemma_sorted_push(prev, l);
                                if chain_mode@ {
                                    assert(index == l.sbegin());
                                    lemma_chain_push(prev, l);
                                }
                            }
                            results.push(l);
                            proof {
                                lemma_pos_in_grow(prev, results@);
                                assert(results@.last() == l);
                                assert(pos_in(results@, l.sbegin(), l.send()));
                                assert(output_item_ok(old(path_map)@, chars@, l)) by {
                                    assert(old(path_map)@.contains_key(pk as usize)
                                        && typed_pos_in(
                                        old(path_map)@[pk as usize].lv(),
                                        l.sbegin(),
                                        l.send(),
                                        l.lexeme_type,
                                    ));
                                }
                                assert forall|c: int|
                                    0 <= c < e && (char_type_of(#[trigger] chars@[c])
                                        == CharType::CHINESE || char_type_of(chars@[c])
                                        == CharType::OtherCjk) implies covers(results@, c) by {
                                    if c >= l.sbegin() {
                                        assert(results@.last().sbegin() <= c < results@.last().send());
                                    }
                                }
                            }
                            index = e;
                        }
                        proof {
                            assert forall|k: usize|
                                #[trigger] path_map@.contains_key(k) implies k >= index by {
                                assert(gmap.contains_key(k));
                                assert(!path_map@.contains_key(pk as usize));
                                assert(k != pk as usize);
                                assert(k >= pk as usize);
                                assert((pk as usize) < k);
                                assert(gmap[pk as usize].end <= gmap[k].begin);
                                assert(gmap[k].begin == k);
                                assert(gmap[pk as usize].end == pend);
                            }
                            assert forall|k: usize, b: int, e: int|
                                old(path_map)@.contains_key(k) && #[trigger] pos_in(
                                    old(path_map)@[k].lv(),
                                    b,
                                    e,
                                ) implies pos_in(results@, b, e) || path_map@.contains_key(
                                k,
                            ) by {
                                if k == pk as usize && gmap.contains_key(k) {
                                    assert(gmap[k].lv() == gplv);
                                }
                            }
                        }
                    },
                    None => {
                        let ghost prevr = results@;
                        self.add_single_lexeme(&mut results, cur_char_type, index);
                        proof {
                            if results@.len() > prevr.len() {
                                let fl = results@.last();
                                assert(results@ =~= prevr.push(fl));
                                assert(fl.sbegin() == index && fl.send() == index + 1);
                                if prevr.len() > 0 {
                                    assert(prevr.last().lex_lt(&fl));
                                }
                                lemma_sorted_push(prevr, fl);
                                if chain_mode@ {
                                    lemma_chain_push(prevr, fl);
                                }
                                lemma_pos_in_grow(prevr, results@);
                                assert(covers(results@, index as int));
                                assert(output_item_ok(old(path_map)@, chars@, fl));
                            }
                            assert forall|k: usize|
                                #[trigger] path_map@.contains_key(k) implies k >= index + 1 by {
                                assert(k != index);
                            }
                        }
                        index += 1;
                    },
                }
            }
        }
        results
    }

    /// Emit one single-character lexeme at `index` for a CHINESE or
    /// OTHER_CJK character; other classes produce nothing.
    fn add_single_lexeme(&self, results: &mut Vec<Lexeme>, cur_char_type: CharType, index: usize)
        requires
            index < usize::MAX,
        ensures
            (cur_char_type == CharType::CHINESE || cur_char_type == CharType::OtherCjk) ==> {
                &&& final(results)@.len() == old(results)@.len() + 1
                &&& final(results)@.last().pos.start == index
                &&& final(results)@.last().pos.end == index + 1
                &&& final(results)@.last().lexeme_type == (if cur_char_type
                    == CharType::CHINESE {
                    LexemeType::CNCHAR
                } else {
                    LexemeType::OtherCJK
                })
                &&& forall|j: int|
                    0 <= j < old(results)@.len() ==> final(results)@[j] == old(results)@[j]
            },
            !(cur_char_type == CharType::CHINESE || cur_char_type == CharType::OtherCjk) ==> final(results)@ == old(results)@,
    {
        match cur_char_type {
            CharType::CHINESE => {
                let single_char_lexeme = Lexeme::new(index..index + 1, LexemeType::CNCHAR);
                results.push(single_char_lexeme);
            },
            CharType::OtherCjk => {
                let single_char_lexeme = Lexeme::new(index..index + 1, LexemeType::OtherCJK);
                results.push(single_char_lexeme);
            },
            _ => {},
        }
    }

    /// Merge a digit run with a following Chinese numeral or quantifier:
    /// ARABIC + CN_NUM becomes CN_NUM, ARABIC + COUNT becomes CQUAN, and a
    /// (possibly merged) CN_NUM + COUNT becomes CQUAN; a merge happens
    /// only when the ranges meet exactly, and consumes the next lexeme.
    fn compound(&self, results: &Vec<Lexeme>, i: &mut usize, result: &mut Lexeme)
        requires
            seq_chain(results@),
            all_wf_lex(results@),
            *old(i) <= results@.len(),
            old(result).wf_lex(),
            *old(i) < results@.len() ==> old(result).send() <= results@[*old(i) as int].sbegin(),
        ensures
            *old(i) <= *final(i) <= results@.len(),
            final(result).wf_lex(),
            final(result).sbegin() == old(result).sbegin(),
            final(result).stext() == old(result).stext(),
            ({
                let s = compound_spec(
                    old(result).send(),
                    old(result).lexeme_type,
                    results@,
                    *old(i) as int,
                );
                final(result).send() == s.0 && final(result).lexeme_type == s.1 && *final(i)
                    == s.2
            }),
            *final(i) < results@.len() ==> final(result).send() <= results@[*final(i) as int].sbegin(),
            forall|b: int|
                all_bounded(results@, b) && old(result).send() <= b ==> final(result).send() <= b,
            final(result).send() >= old(result).send(),
            forall|jj: int|
                *old(i) <= jj < *final(i) ==> (#[trigger] results@[jj]).send()
                    <= final(result).send() && final(result).sbegin() <= results@[jj].sbegin(),
    {
        let m = results.len();
        if *i < m {
            if result.lexeme_type == LexemeType::ARABIC {
                let next = &results[*i];
                let mut append_ok = false;
                if next.lexeme_type == LexemeType::CNUM {
                    append_ok = result.append(next, LexemeType::CNUM);
                } else if next.lexeme_type == LexemeType::COUNT {
                    append_ok = result.append(next, LexemeType::CQUAN);
                }
                if append_ok {
                    proof {
                        if *i + 1 < results@.len() {
                            assert(results@[*i as int].send() <= results@[*i + 1].sbegin());
                        }
                    }
                    *i = *i + 1;
                }
            }
            if result.lexeme_type == LexemeType::CNUM && *i < m {
                let next = &results[*i];
                if next.lexeme_type == LexemeType::COUNT {
                    let append_ok = result.append(next, LexemeType::CQUAN);
                    if append_ok {
                        proof {
                            if *i + 1 < results@.len() {
                                assert(results@[*i as int].send() <= results@[*i + 1].sbegin());
                            }
                        }
                        *i = *i + 1;
                    }
                }
            }
        }
    }
}

} // verus!
