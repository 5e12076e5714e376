//! The ambiguity arbitrator: groups overlapping candidate lexemes into
//! crossing groups and, in SEARCH mode, picks one best non-overlapping
//! cover per group.

use vstd::prelude::*;
use std::collections::HashMap;
use crate::ik_segmenter::TokenMode;
use crate::lexeme::Lexeme;
use crate::lexeme_path::LexemePath;
use crate::lexeme_path::seq_chain;
use crate::lexeme_path::lemma_sum_lens_pos;
use crate::lexeme_path::sum_lens;
use crate::ordered_linked_list::OrderedLinkedList;
use crate::ordered_linked_list::pos_in;

verus! {

/// The shape of the arbitrated path map: each entry is a non-empty
/// well-formed path keyed by its own begin, and the spans of distinct
/// entries are disjoint and ordered.
pub open spec fn path_map_wf(m: Map<usize, LexemePath>) -> bool {
    &&& forall|k: usize|
        #[trigger] m.contains_key(k) ==> m[k].wf() && m[k].lv().len() > 0 && m[k].begin == k
    &&& forall|k1: usize, k2: usize|
        m.contains_key(k1) && m.contains_key(k2) && k1 < k2 ==> (#[trigger] m[k1]).end <= (
        #[trigger] m[k2]).begin
}

/// Every path of the map is a non-overlapping chain.
pub open spec fn path_map_chains(m: Map<usize, LexemePath>) -> bool {
    forall|k: usize| #[trigger] m.contains_key(k) ==> m[k].is_chain() && seq_chain(m[k].lv())
}

/// Every path of the map stays within the first `n` characters.
pub open spec fn path_map_bounded(m: Map<usize, LexemePath>, n: int) -> bool {
    forall|k: usize| #[trigger] m.contains_key(k) ==> m[k].bounded(n)
}

/// The arbitrator.
#[derive(Default)]
pub struct IKArbitrator {}

impl IKArbitrator {
    /// Walk the ordered candidate list once, accumulating maximal crossing
    /// groups; emit each group as a path keyed by its begin — whole in
    /// INDEX mode or for a single lexeme, otherwise judged down to one
    /// best non-overlapping cover.
    pub fn process(
        &mut self,
        orgin_lexemes: &OrderedLinkedList,
        mode: &TokenMode,
    ) -> (path_map: HashMap<usize, LexemePath>)
        requires
            orgin_lexemes.wf(),
            orgin_lexemes.bounded(0x7FFF_FFFF),
        ensures
            path_map_wf(path_map@),
            *mode == TokenMode::SEARCH ==> path_map_chains(path_map@),
            forall|b: int|
                b >= 0 && #[trigger] orgin_lexemes.bounded(b) ==> path_map_bounded(path_map@, b),
            *mode == TokenMode::INDEX ==> forall|b: int, e: int|
                #[trigger] pos_in(orgin_lexemes@, b, e) ==> exists|k: usize|
                    path_map@.contains_key(k) && pos_in(path_map@[k].lv(), b, e),
            forall|k: usize, b: int, e: int|
                path_map@.contains_key(k) && #[trigger] pos_in(path_map@[k].lv(), b, e)
                    ==> pos_in(orgin_lexemes@, b, e),
            orgin_lexemes@.len() > 0 ==> exists|k: usize| #[trigger] path_map@.contains_key(k),
    {
        let mut path_map: HashMap<usize, LexemePath> = HashMap::new();
        let mut cross_path = LexemePath::new();
        let n = orgin_lexemes.length();
        let mut idx: usize = 0;
        while idx < n
            invariant
                orgin_lexemes.wf(),
                orgin_lexemes.bounded(0x7FFF_FFFF),
                n == orgin_lexemes@.len(),
                idx <= n,
                cross_path.wf(),
                path_map_wf(path_map@),
                *mode == TokenMode::SEARCH ==> path_map_chains(path_map@),
                forall|b: int|
                    b >= 0 && #[trigger] orgin_lexemes.bounded(b) ==> path_map_bounded(
                        path_map@,
                        b,
                    ),
                forall|b: int|
                    b >= 0 && #[trigger] orgin_lexemes.bounded(b) ==> cross_path.bounded(b),
                cross_path.lv().len() == 0 ==> path_map@ == Map::<usize, LexemePath>::empty(),
                idx > 0 ==> cross_path.lv().len() > 0,
                cross_path.lv().len() > 0 ==> exists|i: int|
                    0 <= i < idx && (#[trigger] orgin_lexemes@[i]).sbegin() == cross_path.begin,
                cross_path.lv().len() > 0 ==> forall|k: usize|
                    #[trigger] path_map@.contains_key(k) ==> path_map@[k].end <= cross_path.begin,
                *mode == TokenMode::INDEX ==> forall|b: int, e: int|
                    #[trigger] pos_in(orgin_lexemes@.take(idx as int), b, e) ==> pos_in(
                        cross_path.lv(),
                        b,
                        e,
                    ) || exists|k: usize|
                        path_map@.contains_key(k) && pos_in(path_map@[k].lv(), b, e),
                forall|b: int, e: int|
                    #[trigger] pos_in(cross_path.lv(), b, e) ==> pos_in(
                        orgin_lexemes@.take(idx as int),
                        b,
                        e,
                    ),
                forall|k: usize, b: int, e: int|
                    path_map@.contains_key(k) && #[trigger] pos_in(path_map@[k].lv(), b, e)
                        ==> pos_in(orgin_lexemes@.take(idx as int), b, e),
            decreases n - idx,
        {
            let l = match orgin_lexemes.get(idx) {
                Ok(l) => l,
                Err(_) => vstd::pervasive::unreached(),
            };
            proof {
                assert(orgin_lexemes@[idx as int].send() <= 0x7FFF_FFFF);
                if cross_path.lv().len() > 0 {
                    let i = choose|i: int|
                        0 <= i < idx && (#[trigger] orgin_lexemes@[i]).sbegin()
                            == cross_path.begin;
                    if i < idx as int {
                        assert(orgin_lexemes@[i].lex_lt(&orgin_lexemes@[idx as int]));
                    }
                    assert(l.sbegin() >= cross_path.begin);
                }
            }
            if !cross_path.add_cross_lexeme(l) {
                proof {
                    assert(l.sbegin() >= cross_path.end);
                }
                self.emit_path(&mut path_map, cross_path, mode, Ghost(*orgin_lexemes));
                cross_path = LexemePath::new();
                cross_path.add_cross_lexeme(l);
                proof {
                    assert(orgin_lexemes@[idx as int].sbegin() == cross_path.begin);
                }
            }
            proof {
                if cross_path.begin == orgin_lexemes@[idx as int].sbegin() {
                    assert(exists|i: int|
                        0 <= i < idx + 1 && (#[trigger] orgin_lexemes@[i]).sbegin()
                            == cross_path.begin);
                }
                let pre = orgin_lexemes@.take(idx as int);
                let post = orgin_lexemes@.take(idx + 1);
                assert(forall|i: int| 0 <= i < idx ==> post[i] == #[trigger] pre[i]);
                assert(post[idx as int] == orgin_lexemes@[idx as int]);
                assert forall|b: int, e: int| #[trigger] pos_in(post, b, e) implies pos_in(
                    pre,
                    b,
                    e,
                ) || (b == orgin_lexemes@[idx as int].sbegin() && e == orgin_lexemes@[
                    idx as int].send()) by {
                    let i = choose|i: int|
                        0 <= i < post.len() && (#[trigger] post[i]).sbegin() == b && post[i].send()
                            == e;
                    if i < idx as int {
                        assert(pre[i] == post[i]);
                    }
                }
                assert forall|b: int, e: int| #[trigger] pos_in(pre, b, e) implies pos_in(
                    post,
                    b,
                    e,
                ) by {
                    let i = choose|i: int|
                        0 <= i < pre.len() && (#[trigger] pre[i]).sbegin() == b && pre[i].send()
                            == e;
                    assert(post[i] == pre[i]);
                }
                assert(pos_in(post, orgin_lexemes@[idx as int].sbegin(), orgin_lexemes@[
                    idx as int].send())) by {
                    assert(post[idx as int] == orgin_lexemes@[idx as int]);
                }
            }
            idx += 1;
        }
        proof {
            assert(orgin_lexemes@.take(n as int) =~= orgin_lexemes@);
        }
        if cross_path.len() > 0 {
            self.emit_path(&mut path_map, cross_path, mode, Ghost(*orgin_lexemes));
        }
        path_map
    }

    /// Close one crossing group: insert it whole, or its judged best
    /// cover, into the map under its begin.
    fn emit_path(
        &self,
        path_map: &mut HashMap<usize, LexemePath>,
        cross_path: LexemePath,
        mode: &TokenMode,
        origin: Ghost<OrderedLinkedList>,
    )
        requires
            cross_path.wf(),
            cross_path.lv().len() > 0,
            cross_path.bounded(0x7FFF_FFFF),
            path_map_wf(old(path_map)@),
            *mode == TokenMode::SEARCH ==> path_map_chains(old(path_map)@),
            forall|b: int| b >= 0 && origin@.bounded(b) ==> cross_path.bounded(b),
            forall|b: int|
                b >= 0 && #[trigger] origin@.bounded(b) ==> path_map_bounded(old(path_map)@, b),
            forall|k: usize|
                #[trigger] old(path_map)@.contains_key(k) ==> old(path_map)@[k].end
                    <= cross_path.begin,
        ensures
            path_map_wf(final(path_map)@),
            *mode == TokenMode::SEARCH ==> path_map_chains(final(path_map)@),
            forall|b: int|
                b >= 0 && #[trigger] origin@.bounded(b) ==> path_map_bounded(final(path_map)@, b),
            forall|k: usize|
                #[trigger] final(path_map)@.contains_key(k) ==> final(path_map)@[k].end
                    <= cross_path.end,
            forall|k: usize|
                #[trigger] old(path_map)@.contains_key(k) ==> final(path_map)@.contains_key(k)
                    && final(path_map)@[k] == old(path_map)@[k],
            *mode == TokenMode::INDEX ==> exists|k: usize|
                #[trigger] final(path_map)@.contains_key(k) && final(path_map)@[k].lv()
                    == cross_path.lv(),
            forall|k: usize|
                #[trigger] final(path_map)@.contains_key(k) ==> old(path_map)@.contains_key(k)
                    || (forall|b: int, e: int|
                    #[trigger] pos_in(final(path_map)@[k].lv(), b, e) ==> pos_in(
                        cross_path.lv(),
                        b,
                        e,
                    )),
            exists|k: usize| #[trigger] final(path_map)@.contains_key(k),
    {
        let ghost gcross = cross_path;
        proof {
            assert forall|k: usize| #[trigger] old(path_map)@.contains_key(k) implies k
                < cross_path.begin by {
                assert(old(path_map)@[k].lv()[0].send() <= old(path_map)@[k].end);
                assert(old(path_map)@[k].lv()[0].wf_lex());
            }
        }
        if self.need_add_path(&cross_path, mode) {
            let key = cross_path.begin() as usize;
            proof {
                if *mode == TokenMode::SEARCH {
                    assert(cross_path.lv().len() == 1);
                    assert(cross_path.lv().drop_last() =~= Seq::<Lexeme>::empty());
                    assert(sum_lens(cross_path.lv().drop_last()) == 0);
                    assert(sum_lens(cross_path.lv()) == cross_path.lv()[0].slen());
                    assert(cross_path.lv()[0].send() == cross_path.end);
                    assert(cross_path.is_chain());
                }
            }
            path_map.insert(key, cross_path);
            proof {
                assert(path_map@.contains_key(key) && path_map@[key] == gcross);
            }
        } else {
            let judge_result = self.judge(&cross_path);
            match judge_result {
                Some(path) => {
                    let ghost gpath = path;
                    let key = path.begin() as usize;
                    path_map.insert(key, path);
                    proof {
                        assert(path_map@.contains_key(key) && path_map@[key] == gpath);
                    }
                },
                None => {},
            }
        }
    }

    /// Whether the group goes to the map unjudged: always in INDEX mode,
    /// and for a single lexeme in SEARCH mode.
    fn need_add_path(&self, cross_path: &LexemePath, mode: &TokenMode) -> (r: bool)
        ensures
            r == (*mode == TokenMode::INDEX || cross_path.lv().len() == 1),
    {
        match mode {
            TokenMode::INDEX => true,
            TokenMode::SEARCH => cross_path.len() == 1,
        }
    }

    /// Enumerate non-overlapping covers of the group by repeated forward
    /// walks resumed at each conflict, and return the best one under the
    /// path order. Every group lexeme lands in at least one enumerated
    /// cover, so the winner's payload dominates every single lexeme's
    /// length.
    fn judge(&self, cross_path: &LexemePath) -> (r: Option<LexemePath>)
        requires
            cross_path.wf(),
            cross_path.lv().len() > 0,
            cross_path.bounded(0x7FFF_FFFF),
        ensures
            r is Some,
            r matches Some(p) ==> {
                &&& p.wf()
                &&& p.is_chain()
                &&& p.lv().len() > 0
                &&& p.begin >= cross_path.begin
                &&& p.end <= cross_path.end
                &&& forall|b: int| cross_path.bounded(b) ==> p.bounded(b)
                &&& forall|b: int, e: int|
                    #[trigger] pos_in(p.lv(), b, e) ==> pos_in(cross_path.lv(), b, e)
                &&& forall|i: int|
                    0 <= i < cross_path.lv().len() ==> p.payload_len >= (
                    #[trigger] cross_path.lv()[i]).slen()
            },
    {
        let items = &cross_path.lexeme_list;
        let ghost lo = cross_path.begin as int;
        let ghost hi = cross_path.end as int;
        proof {
            assert forall|i: int| 0 <= i < items@.len() implies lo <= (
            #[trigger] items@[i]).sbegin() && items@[i].send() <= hi by {
                if i > 0 {
                    assert(items@[0].lex_lt(&items@[i]));
                }
            }
        }
        let items_len = items.length();
        let mut option_path = LexemePath::new();
        let mut lexeme_stack = self.forward_path(items, 0, &mut option_path, Ghost(lo), Ghost(hi));
        let mut best = option_path.clone();
        proof {
            assert(items@.len() == items_len);
            assert forall|i2: int|
                0 <= i2 < items@.len() implies lexeme_stack@.contains(i2 as usize)
                || best.payload_len >= (#[trigger] items@[i2]).slen() by {
                if !lexeme_stack@.contains(i2 as usize) {
                    assert(pos_in(option_path.lv(), items@[i2].sbegin(), items@[i2].send()));
                    lemma_sum_lens_pos(option_path.lv(), items@[i2].sbegin(), items@[i2].send());
                }
            }
        }
        while lexeme_stack.len() > 0
            invariant
                items.wf(),
                forall|i: int|
                    0 <= i < items@.len() ==> lo <= (#[trigger] items@[i]).sbegin()
                        && items@[i].send() <= hi,
                0 <= lo,
                hi <= 0x7FFF_FFFF,
                best.wf(),
                best.is_chain(),
                best.lv().len() > 0,
                lo <= best.begin,
                best.end <= hi,
                best.bounded(hi),
                option_path.wf(),
                option_path.is_chain(),
                option_path.bounded(hi),
                option_path.lv().len() > 0 ==> lo <= option_path.begin && option_path.end <= hi,
                forall|i: int| 0 <= i < lexeme_stack@.len() ==> (#[trigger] lexeme_stack@[i])
                    < items@.len(),
                forall|b: int, e: int|
                    #[trigger] pos_in(best.lv(), b, e) ==> pos_in(items@, b, e),
                forall|b: int, e: int|
                    #[trigger] pos_in(option_path.lv(), b, e) ==> pos_in(items@, b, e),
                items@.len() <= usize::MAX,
                forall|i2: int|
                    0 <= i2 < items@.len() ==> lexeme_stack@.contains(i2 as usize)
                        || best.payload_len >= (#[trigger] items@[i2]).slen(),
            decreases lexeme_stack@.len(),
        {
            let ghost prestack = lexeme_stack@;
            let ghost prebest = best;
            let idx2 = match lexeme_stack.pop() {
                Some(v) => v,
                None => vstd::pervasive::unreached(),
            };
            let conflict = match items.get(idx2) {
                Ok(l) => l,
                Err(_) => vstd::pervasive::unreached(),
            };
            self.back_path(conflict, &mut option_path);
            self.forward_path(items, idx2, &mut option_path, Ghost(lo), Ghost(hi));
            proof {
                assert(pos_in(
                    option_path.lv(),
                    items@[idx2 as int].sbegin(),
                    items@[idx2 as int].send(),
                ));
                lemma_sum_lens_pos(
                    option_path.lv(),
                    items@[idx2 as int].sbegin(),
                    items@[idx2 as int].send(),
                );
                assert(option_path.payload_len >= items@[idx2 as int].slen());
            }
            let improved = option_path.better_than(&best);
            if improved {
                best = option_path.clone();
            }
            proof {
                if improved {
                    assert(best.payload_len >= option_path.payload_len);
                    assert(best.payload_len >= prebest.payload_len);
                } else {
                    assert(best.payload_len >= option_path.payload_len);
                }
                assert(lexeme_stack@ == prestack.subrange(0, prestack.len() - 1));
                assert(idx2 == prestack[prestack.len() - 1]);
                assert forall|i2: int|
                    0 <= i2 < items@.len() implies lexeme_stack@.contains(i2 as usize)
                    || best.payload_len >= (#[trigger] items@[i2]).slen() by {
                    if !lexeme_stack@.contains(i2 as usize) {
                        if prestack.contains(i2 as usize) {
                            let w = choose|w: int|
                                0 <= w < prestack.len() && prestack[w] == i2 as usize;
                            if w < prestack.len() - 1 {
                                assert(lexeme_stack@[w] == prestack[w]);
                                assert(lexeme_stack@[w] == i2 as usize);
                                assert(lexeme_stack@.contains(i2 as usize));
                            } else {
                                assert(i2 as usize == idx2);
                                assert(best.payload_len >= items@[idx2 as int].slen());
                            }
                        } else {
                            assert(prebest.payload_len >= items@[i2].slen());
                        }
                    }
                }
            }
        }
        proof {
            assert(items@ == cross_path.lv());
        }
        Some(best)
    }

    /// Walk the group's lexemes from `start`, greedily extending the
    /// chain; indices whose lexeme could not be added are returned as the
    /// conflict stack.
    fn forward_path(
        &self,
        items: &OrderedLinkedList,
        start: usize,
        option_path: &mut LexemePath,
        lo: Ghost<int>,
        hi: Ghost<int>,
    ) -> (stack: Vec<usize>)
        requires
            items.wf(),
            forall|i: int|
                0 <= i < items@.len() ==> lo@ <= (#[trigger] items@[i]).sbegin() && items@[i].send()
                    <= hi@,
            0 <= lo@,
            hi@ <= 0x7FFF_FFFF,
            old(option_path).wf(),
            old(option_path).is_chain(),
            old(option_path).bounded(hi@),
            old(option_path).lv().len() > 0 ==> lo@ <= old(option_path).begin && old(option_path).end <= hi@,
        ensures
            final(option_path).wf(),
            final(option_path).is_chain(),
            final(option_path).bounded(hi@),
            final(option_path).lv().len() > 0 ==> lo@ <= final(option_path).begin && final(option_path).end <= hi@,
            old(option_path).lv().len() > 0 || start < items@.len() ==> final(option_path).lv().len() > 0,
            forall|i: int| 0 <= i < stack@.len() ==> (#[trigger] stack@[i]) < items@.len(),
            forall|b: int, e: int|
                #[trigger] pos_in(final(option_path).lv(), b, e) ==> pos_in(
                    old(option_path).lv(),
                    b,
                    e,
                ) || pos_in(items@, b, e),
            forall|i: int|
                start <= i < items@.len() ==> stack@.contains(i as usize) || pos_in(
                    final(option_path).lv(),
                    (#[trigger] items@[i]).sbegin(),
                    items@[i].send(),
                ),
            start < items@.len() && (old(option_path).lv().len() == 0 || !old(
                option_path,
            ).crosses(&items@[start as int])) ==> pos_in(
                final(option_path).lv(),
                items@[start as int].sbegin(),
                items@[start as int].send(),
            ),
    {
        let n = items.length();
        let mut stack: Vec<usize> = Vec::new();
        let mut i = start;
        while i < n
            invariant
                items.wf(),
                forall|j: int|
                    0 <= j < items@.len() ==> lo@ <= (#[trigger] items@[j]).sbegin()
                        && items@[j].send() <= hi@,
                0 <= lo@,
                hi@ <= 0x7FFF_FFFF,
                n == items@.len(),
                start <= i,
                option_path.wf(),
                option_path.is_chain(),
                option_path.bounded(hi@),
                option_path.lv().len() > 0 ==> lo@ <= option_path.begin && option_path.end <= hi@,
                old(option_path).lv().len() > 0 || start < i ==> option_path.lv().len() > 0,
                old(option_path).lv().len() == 0 && start >= i ==> option_path.lv().len() == 0
                    && *option_path == *old(option_path),
                forall|j: int| 0 <= j < stack@.len() ==> (#[trigger] stack@[j]) < items@.len(),
                forall|b: int, e: int|
                    #[trigger] pos_in(option_path.lv(), b, e) ==> pos_in(
                        old(option_path).lv(),
                        b,
                        e,
                    ) || pos_in(items@, b, e),
                forall|j2: int|
                    start <= j2 < i ==> stack@.contains(j2 as usize) || pos_in(
                        option_path.lv(),
                        (#[trigger] items@[j2]).sbegin(),
                        items@[j2].send(),
                    ),
                i == start ==> *option_path == *old(option_path),
                start < i && (old(option_path).lv().len() == 0 || !old(option_path).crosses(
                    &items@[start as int],
                )) ==> pos_in(
                    option_path.lv(),
                    items@[start as int].sbegin(),
                    items@[start as int].send(),
                ),
            decreases n - i,
        {
            let c = match items.get(i) {
                Ok(l) => l,
                Err(_) => vstd::pervasive::unreached(),
            };
            let ghost prestack = stack@;
            let added = option_path.add_not_cross_lexeme(c);
            if !added {
                stack.push(i);
            }
            proof {
                assert(pos_in(items@, items@[i as int].sbegin(), items@[i as int].send()));
                assert forall|j2: int|
                    start <= j2 < i + 1 implies stack@.contains(j2 as usize) || pos_in(
                    option_path.lv(),
                    (#[trigger] items@[j2]).sbegin(),
                    items@[j2].send(),
                ) by {
                    if j2 == i {
                        if added {
                            assert(pos_in(
                                option_path.lv(),
                                items@[i as int].sbegin(),
                                items@[i as int].send(),
                            ));
                        } else {
                            assert(stack@[prestack.len() as int] == i as usize);
                        }
                    } else if prestack.contains(j2 as usize) {
                        let w = choose|w: int|
                            0 <= w < prestack.len() && prestack[w] == j2 as usize;
                        assert(stack@[w] == j2 as usize);
                    }
                }
                if i == start && (old(option_path).lv().len() == 0 || !old(
                    option_path,
                ).crosses(&items@[start as int])) {
                    assert(added);
                    assert(pos_in(
                        option_path.lv(),
                        items@[start as int].sbegin(),
                        items@[start as int].send(),
                    ));
                }
            }
            i += 1;
        }
        stack
    }

    /// Shrink the chain from its tail until the conflict lexeme no longer
    /// overlaps its span.
    fn back_path(&self, l: &Lexeme, option_path: &mut LexemePath)
        requires
            old(option_path).wf(),
            old(option_path).is_chain(),
            l.wf_lex(),
            l.send() <= 0x7FFF_FFFF,
        ensures
            final(option_path).wf(),
            final(option_path).is_chain(),
            !final(option_path).crosses(l),
            final(option_path).lv().len() > 0 ==> final(option_path).begin == old(option_path).begin,
            final(option_path).lv().len() > 0 ==> final(option_path).end <= old(option_path).end,
            forall|b: int| old(option_path).bounded(b) ==> final(option_path).bounded(b),
            forall|b: int, e: int|
                #[trigger] pos_in(final(option_path).lv(), b, e) ==> pos_in(
                    old(option_path).lv(),
                    b,
                    e,
                ),
    {
        while option_path.check_cross(l)
            invariant
                option_path.wf(),
                option_path.is_chain(),
                l.wf_lex(),
                l.send() <= 0x7FFF_FFFF,
                option_path.lv().len() > 0 ==> option_path.begin == old(option_path).begin,
                option_path.lv().len() > 0 ==> option_path.end <= old(option_path).end,
                forall|b: int| old(option_path).bounded(b) ==> option_path.bounded(b),
                forall|b: int, e: int|
                    #[trigger] pos_in(option_path.lv(), b, e) ==> pos_in(
                        old(option_path).lv(),
                        b,
                        e,
                    ),
            decreases option_path.lv().len(),
        {
            option_path.remove_tail();
        }
    }
}

} // verus!
