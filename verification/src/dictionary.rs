//! The dictionary manager: one main trie (words), one quantifier trie and
//! one stop-word trie, each built from word lists fed in by the loader.

use vstd::prelude::*;
use crate::char_util::utf8_len;
use crate::char_util::utf8_slice;
use crate::hit::Hit;
use crate::trie::Trie;
use crate::trie::hit_ok;
use crate::trie::match_complete;
use crate::trie::word_at;

verus! {

/// `u` is one of the words of `words` (the empty word never counts: the
/// tries ignore it).
pub open spec fn word_listed(words: Seq<&str>, u: Seq<char>) -> bool {
    exists|i: int| 0 <= i < words.len() && words[i]@ == u && u.len() > 0
}

/// One more word of the list: being listed in the first `k + 1` words is
/// being listed in the first `k` or being word `k` itself.
pub proof fn lemma_word_listed_take_step(words: Seq<&str>, k: int)
    requires
        0 <= k < words.len(),
    ensures
        forall|u: Seq<char>|
            #[trigger] word_listed(words.take(k + 1), u) == (word_listed(words.take(k), u) || (
            words[k]@ == u && u.len() > 0)),
{
    assert forall|u: Seq<char>|
        #[trigger] word_listed(words.take(k + 1), u) == (word_listed(words.take(k), u) || (
        words[k]@ == u && u.len() > 0)) by {
        if word_listed(words.take(k + 1), u) {
            let i = choose|i: int|
                0 <= i < words.take(k + 1).len() && (#[trigger] words.take(k + 1)[i])@ == u
                    && u.len() > 0;
            if i < k {
                assert(words.take(k)[i]@ == u);
            } else {
                assert(words.take(k + 1)[i] == words[k]);
            }
        }
        if word_listed(words.take(k), u) {
            let i = choose|i: int|
                0 <= i < words.take(k).len() && (#[trigger] words.take(k)[i])@ == u && u.len()
                    > 0;
            assert(words.take(k + 1)[i]@ == u);
        }
        if words[k]@ == u && u.len() > 0 {
            assert(words.take(k + 1)[k]@ == u);
        }
    }
}

/// The three dictionaries of the segmenter.
#[derive(Debug)]
pub struct Dictionary {
    pub main_dict: Trie,
    pub stop_word_dict: Trie,
    pub quantifier_dict: Trie,
}

impl Dictionary {
    /// All three tries have a proper root.
    pub open spec fn wf(&self) -> bool {
        self.main_dict.wf() && self.stop_word_dict.wf() && self.quantifier_dict.wf()
    }

    /// An empty dictionary; the loader fills it word by word.
    pub fn new() -> (r: Self)
        ensures
            r.wf(),
            forall|u: Seq<char>| !r.main_dict.contains_word(u),
            forall|u: Seq<char>| !r.stop_word_dict.contains_word(u),
            forall|u: Seq<char>| !r.quantifier_dict.contains_word(u),
    {
        Dictionary {
            main_dict: Trie::new(),
            stop_word_dict: Trie::new(),
            quantifier_dict: Trie::new(),
        }
    }

    /// Add every word of `words` to the main dictionary.
    pub fn add_words(&mut self, words: Vec<&str>)
        requires
            old(self).wf(),
        ensures
            final(self).wf(),
            final(self).stop_word_dict == old(self).stop_word_dict,
            final(self).quantifier_dict == old(self).quantifier_dict,
            forall|u: Seq<char>|
                #[trigger] final(self).main_dict.contains_word(u) == (old(
                    self,
                ).main_dict.contains_word(u) || word_listed(words@, u)),
    {
        let n = words.len();
        let mut k: usize = 0;
        while k < n
            invariant
                k <= n,
                n == words@.len(),
                self.wf(),
                self.stop_word_dict == old(self).stop_word_dict,
                self.quantifier_dict == old(self).quantifier_dict,
                forall|u: Seq<char>|
                    #[trigger] self.main_dict.contains_word(u) == (old(
                        self,
                    ).main_dict.contains_word(u) || word_listed(words@.take(k as int), u)),
            decreases n - k,
        {
            let ghost pre = self.main_dict;
            self.main_dict.insert(words[k]);
            proof {
                lemma_word_listed_take_step(words@, k as int);
                assert forall|u: Seq<char>|
                    #[trigger] self.main_dict.contains_word(u) == (old(
                        self,
                    ).main_dict.contains_word(u) || word_listed(words@.take(k + 1), u)) by {
                    assert(pre.contains_word(u) == (old(self).main_dict.contains_word(u)
                        || word_listed(words@.take(k as int), u)));
                }
            }
            k += 1;
        }
        proof {
            assert(words@.take(n as int) =~= words@);
        }
    }

    /// Remove every word of `words` from the main dictionary.
    pub fn disable_words(&mut self, words: Vec<&str>)
        requires
            old(self).wf(),
        ensures
            final(self).wf(),
            final(self).stop_word_dict == old(self).stop_word_dict,
            final(self).quantifier_dict == old(self).quantifier_dict,
            forall|u: Seq<char>|
                #[trigger] final(self).main_dict.contains_word(u) == (old(
                    self,
                ).main_dict.contains_word(u) && !word_listed(words@, u)),
    {
        let n = words.len();
        let mut k: usize = 0;
        while k < n
            invariant
                k <= n,
                n == words@.len(),
                self.wf(),
                self.stop_word_dict == old(self).stop_word_dict,
                self.quantifier_dict == old(self).quantifier_dict,
                forall|u: Seq<char>|
                    #[trigger] self.main_dict.contains_word(u) == (old(
                        self,
                    ).main_dict.contains_word(u) && !word_listed(words@.take(k as int), u)),
            decreases n - k,
        {
            let ghost pre = self.main_dict;
            self.main_dict.delete(words[k]);
            proof {
                lemma_word_listed_take_step(words@, k as int);
                if words@[k as int]@.len() == 0 {
                    assert(words@[k as int]@ =~= Seq::<char>::empty());
                    assert(pre.contains_word(Seq::<char>::empty()) == pre.root.final_state);
                }
            }
            k += 1;
        }
        proof {
            assert(words@.take(n as int) =~= words@);
        }
    }

    /// All hits of the main dictionary against the whole of `word`.
    pub fn match_in_main_dict(&self, word: &str) -> (hits: Vec<Hit>)
        requires
            self.wf(),
        ensures
            forall|i: int|
                0 <= i < hits@.len() ==> hit_ok(
                    self.main_dict.root,
                    word@,
                    0,
                    word@.len() as int,
                    #[trigger] hits@[i],
                ),
            match_complete(self.main_dict.root, word@, 0, word@.len() as int, hits@),
            forall|i: int, j: int|
                0 <= i < j < hits@.len() ==> #[trigger] hits@[i].send() < #[trigger] hits@[j].send(),
            (hits@.len() > 0) == (word@.len() >= 1 && self.main_dict.root.reaches(
                word_at(word@, 0, 1),
            )),
            hits@.len() > 0 ==> {
                let kk = hits@.last().send();
                &&& self.main_dict.root.reaches(word_at(word@, 0, kk))
                &&& (kk == word@.len() || !self.main_dict.root.reaches(word_at(word@, 0, kk + 1)))
            },
    {
        self.main_dict.match_word(word)
    }

    /// All hits of the main dictionary against the window of `length`
    /// characters starting at `offset`.
    pub fn match_in_main_dict_with_offset(&self, word: &str, offset: usize, length: usize) -> (hits:
        Vec<Hit>)
        requires
            self.wf(),
        ensures
            offset + length > word@.len() ==> hits@.len() == 0,
            offset + length <= word@.len() ==> forall|i: int|
                0 <= i < hits@.len() ==> hit_ok(
                    self.main_dict.root,
                    word@,
                    offset as int,
                    length as int,
                    #[trigger] hits@[i],
                ),
            offset + length <= word@.len() ==> match_complete(
                self.main_dict.root,
                word@,
                offset as int,
                length as int,
                hits@,
            ),
            forall|i: int, j: int|
                0 <= i < j < hits@.len() ==> #[trigger] hits@[i].send() < #[trigger] hits@[j].send(),
            offset + length <= word@.len() ==> ((hits@.len() > 0) == (length >= 1
                && self.main_dict.root.reaches(word_at(word@, offset as int, 1)))),
            offset + length <= word@.len() && hits@.len() > 0 ==> {
                let kk = hits@.last().send() - offset;
                &&& self.main_dict.root.reaches(word_at(word@, offset as int, kk))
                &&& (kk == length || !self.main_dict.root.reaches(
                    word_at(word@, offset as int, kk + 1),
                ))
            },
    {
        self.main_dict.match_word_with_offset(word, offset, length)
    }

    /// `match_in_main_dict_with_offset` on an already-converted character
    /// buffer.
    pub fn match_main_chars(&self, chars: &Vec<char>, offset: usize, length: usize) -> (hits: Vec<
        Hit,
    >)
        requires
            self.wf(),
        ensures
            offset + length > chars@.len() ==> hits@.len() == 0,
            offset + length <= chars@.len() ==> forall|i: int|
                0 <= i < hits@.len() ==> hit_ok(
                    self.main_dict.root,
                    chars@,
                    offset as int,
                    length as int,
                    #[trigger] hits@[i],
                ),
            offset + length <= chars@.len() ==> match_complete(
                self.main_dict.root,
                chars@,
                offset as int,
                length as int,
                hits@,
            ),
            forall|i: int, j: int|
                0 <= i < j < hits@.len() ==> #[trigger] hits@[i].send() < #[trigger] hits@[j].send(),
            offset + length <= chars@.len() ==> ((hits@.len() > 0) == (length >= 1
                && self.main_dict.root.reaches(word_at(chars@, offset as int, 1)))),
            offset + length <= chars@.len() && hits@.len() > 0 ==> {
                let kk = hits@.last().send() - offset;
                &&& self.main_dict.root.reaches(word_at(chars@, offset as int, kk))
                &&& (kk == length || !self.main_dict.root.reaches(
                    word_at(chars@, offset as int, kk + 1),
                ))
            },
    {
        self.main_dict.match_chars_with_offset(chars, offset, length)
    }

    /// All hits of the quantifier dictionary against the window.
    pub fn match_in_quantifier_dict(&self, word: &str, offset: usize, length: usize) -> (hits: Vec<
        Hit,
    >)
        requires
            self.wf(),
        ensures
            offset + length > word@.len() ==> hits@.len() == 0,
            offset + length <= word@.len() ==> forall|i: int|
                0 <= i < hits@.len() ==> hit_ok(
                    self.quantifier_dict.root,
                    word@,
                    offset as int,
                    length as int,
                    #[trigger] hits@[i],
                ),
            offset + length <= word@.len() ==> match_complete(
                self.quantifier_dict.root,
                word@,
                offset as int,
                length as int,
                hits@,
            ),
            forall|i: int, j: int|
                0 <= i < j < hits@.len() ==> #[trigger] hits@[i].send() < #[trigger] hits@[j].send(),
            offset + length <= word@.len() ==> ((hits@.len() > 0) == (length >= 1
                && self.quantifier_dict.root.reaches(word_at(word@, offset as int, 1)))),
            offset + length <= word@.len() && hits@.len() > 0 ==> {
                let kk = hits@.last().send() - offset;
                &&& self.quantifier_dict.root.reaches(word_at(word@, offset as int, kk))
                &&& (kk == length || !self.quantifier_dict.root.reaches(
                    word_at(word@, offset as int, kk + 1),
                ))
            },
    {
        self.quantifier_dict.match_word_with_offset(word, offset, length)
    }

    /// `match_in_quantifier_dict` on an already-converted character buffer.
    pub fn match_quantifier_chars(&self, chars: &Vec<char>, offset: usize, length: usize) -> (hits:
        Vec<Hit>)
        requires
            self.wf(),
        ensures
            offset + length > chars@.len() ==> hits@.len() == 0,
            offset + length <= chars@.len() ==> forall|i: int|
                0 <= i < hits@.len() ==> hit_ok(
                    self.quantifier_dict.root,
                    chars@,
                    offset as int,
                    length as int,
                    #[trigger] hits@[i],
                ),
            offset + length <= chars@.len() ==> match_complete(
                self.quantifier_dict.root,
                chars@,
                offset as int,
                length as int,
                hits@,
            ),
            forall|i: int, j: int|
                0 <= i < j < hits@.len() ==> #[trigger] hits@[i].send() < #[trigger] hits@[j].send(),
            offset + length <= chars@.len() ==> ((hits@.len() > 0) == (length >= 1
                && self.quantifier_dict.root.reaches(word_at(chars@, offset as int, 1)))),
            offset + length <= chars@.len() && hits@.len() > 0 ==> {
                let kk = hits@.last().send() - offset;
                &&& self.quantifier_dict.root.reaches(word_at(chars@, offset as int, kk))
                &&& (kk == length || !self.quantifier_dict.root.reaches(
                    word_at(chars@, offset as int, kk + 1),
                ))
            },
    {
        self.quantifier_dict.match_chars_with_offset(chars, offset, length)
    }

    /// Whether the characters `[offset, offset + length)` of `word` are
    /// exactly a stop word.
    pub fn is_stop_word(&self, word: &str, offset: usize, length: usize) -> (r: bool)
        requires
            self.wf(),
        ensures
            r == (offset + length <= word@.len() && self.stop_word_dict.contains_word(
                word@.subrange(offset as int, offset + length),
            )),
    {
        let n = utf8_len(word);
        if length > n || offset > n - length {
            return false;
        }
        let sub = utf8_slice(word, offset, offset + length);
        self.stop_word_dict.exist(sub)
    }

    /// Add every word of `words` to the quantifier dictionary.
    pub fn add_quantifier_words(&mut self, words: Vec<&str>)
        requires
            old(self).wf(),
        ensures
            final(self).wf(),
            final(self).main_dict == old(self).main_dict,
            final(self).stop_word_dict == old(self).stop_word_dict,
            forall|u: Seq<char>|
                #[trigger] final(self).quantifier_dict.contains_word(u) == (old(
                    self,
                ).quantifier_dict.contains_word(u) || word_listed(words@, u)),
    {
        let n = words.len();
        let mut k: usize = 0;
        while k < n
            invariant
                k <= n,
                n == words@.len(),
                self.wf(),
                self.main_dict == old(self).main_dict,
                self.stop_word_dict == old(self).stop_word_dict,
                forall|u: Seq<char>|
                    #[trigger] self.quantifier_dict.contains_word(u) == (old(
                        self,
                    ).quantifier_dict.contains_word(u) || word_listed(words@.take(k as int), u)),
            decreases n - k,
        {
            self.quantifier_dict.insert(words[k]);
            proof {
                lemma_word_listed_take_step(words@, k as int);
            }
            k += 1;
        }
        proof {
            assert(words@.take(n as int) =~= words@);
        }
    }

    /// Add every word of `words` to the stop-word dictionary.
    pub fn add_stop_words(&mut self, words: Vec<&str>)
        requires
            old(self).wf(),
        ensures
            final(self).wf(),
            final(self).main_dict == old(self).main_dict,
            final(self).quantifier_dict == old(self).quantifier_dict,
            forall|u: Seq<char>|
                #[trigger] final(self).stop_word_dict.contains_word(u) == (old(
                    self,
                ).stop_word_dict.contains_word(u) || word_listed(words@, u)),
    {
        let n = words.len();
        let mut k: usize = 0;
        while k < n
            invariant
                k <= n,
                n == words@.len(),
                self.wf(),
                self.main_dict == old(self).main_dict,
                self.quantifier_dict == old(self).quantifier_dict,
                forall|u: Seq<char>|
                    #[trigger] self.stop_word_dict.contains_word(u) == (old(
                        self,
                    ).stop_word_dict.contains_word(u) || word_listed(words@.take(k as int), u)),
            decreases n - k,
        {
            self.stop_word_dict.insert(words[k]);
            proof {
                lemma_word_listed_take_step(words@, k as int);
            }
            k += 1;
        }
        proof {
            assert(words@.take(n as int) =~= words@);
        }
    }
}

} // verus!
