//! The CJK-word sub-segmenter: queries the main dictionary at every
//! non-USELESS position and emits a CN_WORD lexeme for every MATCH hit.

use vstd::prelude::*;
use crate::char_util::CharType;
use crate::char_util::char_type_of;
use crate::dictionary::Dictionary;
use crate::lexeme::Lexeme;
use crate::lexeme::LexemeType;
use crate::ordered_linked_list::OrderedLinkedList;
use crate::ordered_linked_list::pos_in;
use crate::ordered_linked_list::typed_pos_in;
use crate::segmentor::Segmenter;
use crate::trie::hit_ok;
use crate::trie::word_at;

verus! {

/// The dictionary-word segmenter; it keeps no state between positions.
#[derive(Default, Debug)]
pub struct CJKSegmenter {}

impl Segmenter for CJKSegmenter {
    open spec fn state_bounded(&self, input: Seq<char>, cursor: int) -> bool {
        true
    }

    /// Besides the uniform contract: after the call, every main-dictionary
    /// word that starts at the cursor and fits in the input has its
    /// position among the candidates.
    fn analyze(
        &mut self,
        input: &Vec<char>,
        cursor: usize,
        curr_char_type: CharType,
        dict: &Dictionary,
        origin_lexemes: &mut OrderedLinkedList,
    )
        ensures
            *final(self) == *old(self),
            forall|d: int|
                1 <= d <= input@.len() - cursor && curr_char_type != CharType::USELESS
                    && dict.main_dict.contains_word(
                    #[trigger] input@.subrange(cursor as int, cursor + d),
                ) ==> pos_in(final(origin_lexemes)@, cursor as int, cursor + d),
            forall|b: int, e: int, t: LexemeType|
                typed_pos_in(final(origin_lexemes)@, b, e, t) ==> typed_pos_in(
                    old(origin_lexemes)@,
                    b,
                    e,
                    t,
                ) || (t == LexemeType::CNWORD && b == cursor && curr_char_type
                    != CharType::USELESS && cursor < e <= input@.len()
                    && dict.main_dict.contains_word(input@.subrange(cursor as int, e))),
    {
        match curr_char_type {
            CharType::USELESS => {},
            _ => {
                let char_count = input.len();
                let hits = dict.match_main_chars(input, cursor, char_count - cursor);
                let m = hits.len();
                let mut k: usize = 0;
                while k < m
                    invariant
                        m == hits@.len(),
                        cursor < input@.len(),
                        curr_char_type == char_type_of(input@[cursor as int]),
                        curr_char_type != CharType::USELESS,
                        forall|i: int|
                            0 <= i < hits@.len() ==> hit_ok(
                                dict.main_dict.root,
                                input@,
                                cursor as int,
                                input@.len() - cursor,
                                #[trigger] hits@[i],
                            ),
                        origin_lexemes.wf(),
                        origin_lexemes.bounded(input@.len() as int),
                        forall|b: int, e: int|
                            pos_in(old(origin_lexemes)@, b, e) ==> pos_in(origin_lexemes@, b, e),
                        forall|b: int, e: int|
                            pos_in(origin_lexemes@, b, e) ==> pos_in(old(origin_lexemes)@, b, e)
                                || b == cursor,
                        forall|i: int|
                            0 <= i < k && (#[trigger] hits@[i]).is_match_spec() ==> pos_in(
                                origin_lexemes@,
                                cursor as int,
                                hits@[i].send(),
                            ),
                        forall|b: int, e: int, t: LexemeType|
                            typed_pos_in(origin_lexemes@, b, e, t) ==> typed_pos_in(
                                old(origin_lexemes)@,
                                b,
                                e,
                                t,
                            ) || (t == LexemeType::CNWORD && b == cursor && cursor < e
                                <= input@.len() && dict.main_dict.contains_word(
                                input@.subrange(cursor as int, e),
                            )),
                    decreases m - k,
                {
                    let hit = &hits[k];
                    if hit.is_match() {
                        let new_lexeme = Lexeme::new(hit.pos(), LexemeType::CNWORD);
                        origin_lexemes.insert(new_lexeme);
                    }
                    k += 1;
                }
                proof {
                    assert forall|d: int|
                        1 <= d <= input@.len() - cursor && dict.main_dict.contains_word(
                            #[trigger] input@.subrange(cursor as int, cursor + d),
                        ) implies pos_in(origin_lexemes@, cursor as int, cursor + d) by {
                        assert(dict.main_dict.root.accepts(
                            word_at(input@, cursor as int, d),
                        ));
                        let i = choose|i: int|
                            0 <= i < hits@.len() && hits@[i].send() == cursor + d
                                && hits@[i].is_match_spec();
                        assert(pos_in(origin_lexemes@, cursor as int, hits@[i].send()));
                    }
                }
            },
        }
    }

    fn name(&self) -> &'static str {
        "CJK_SEGMENTER"
    }
}

} // verus!
