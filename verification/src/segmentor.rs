//! The uniform contract of the sub-segmenters: one `analyze` call per
//! character position in strictly ascending order, emitting candidate
//! lexemes into the shared ordered list.

use vstd::prelude::*;
use crate::char_util::CharType;
use crate::char_util::char_type_of;
use crate::dictionary::Dictionary;
use crate::ordered_linked_list::OrderedLinkedList;
use crate::ordered_linked_list::pos_in;

verus! {

/// A pair of optional run bounds lies before `cursor`: either no run is
/// open, or `start <= end < cursor`.
pub open spec fn run_bounded(start: Option<usize>, end: Option<usize>, cursor: int) -> bool {
    match (start, end) {
        (Option::None, Option::None) => true,
        (Option::Some(s), Option::Some(e)) => s <= e && e < cursor,
        _ => false,
    }
}

/// An open run starts at a position whose character is not USELESS.
pub open spec fn run_opens_ok(start: Option<usize>, input: Seq<char>) -> bool {
    match start {
        Option::None => true,
        Option::Some(s) => s < input.len() && char_type_of(input[s as int]) != CharType::USELESS,
    }
}

/// A sub-segmenter: a state machine fed one character position per call.
pub trait Segmenter {
    /// Every position held in the segmenter's private state lies before
    /// `cursor`, and any open run starts at a non-USELESS character of
    /// `input`.
    spec fn state_bounded(&self, input: Seq<char>, cursor: int) -> bool;

    /// Feed the character at `cursor`; emit zero or more candidate
    /// lexemes, all within the input and starting at non-USELESS
    /// characters, into `origin_lexemes`; the positions already there are
    /// kept.
    fn analyze(
        &mut self,
        input: &Vec<char>,
        cursor: usize,
        curr_char_type: CharType,
        dict: &Dictionary,
        origin_lexemes: &mut OrderedLinkedList,
    )
        requires
            old(self).state_bounded(input@, cursor as int),
            cursor < input@.len(),
            curr_char_type == char_type_of(input@[cursor as int]),
            dict.wf(),
            old(origin_lexemes).wf(),
            old(origin_lexemes).bounded(input@.len() as int),
        ensures
            final(self).state_bounded(input@, cursor + 1),
            final(origin_lexemes).wf(),
            final(origin_lexemes).bounded(input@.len() as int),
            forall|b: int, e: int|
                pos_in(old(origin_lexemes)@, b, e) ==> pos_in(final(origin_lexemes)@, b, e),
            forall|b: int, e: int|
                pos_in(final(origin_lexemes)@, b, e) ==> pos_in(old(origin_lexemes)@, b, e) || (0
                    <= b < input@.len() && char_type_of(input@[b]) != CharType::USELESS),
    ;

    /// The segmenter's name.
    fn name(&self) -> &'static str;
}

} // verus!
