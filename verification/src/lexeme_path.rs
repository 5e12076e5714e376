//! Lexeme paths: ordered groups of candidate lexemes over a sub-range of
//! the input, used both for crossing groups awaiting arbitration and for
//! the non-crossing covers the arbitrator builds.

use vstd::prelude::*;
use crate::lexeme::Lexeme;
use crate::ordered_linked_list::OrderedLinkedList;
use crate::ordered_linked_list::all_bounded;
use crate::ordered_linked_list::has_pos;
use crate::ordered_linked_list::pos_in;

verus! {

/// Consecutive lexemes do not overlap.
pub open spec fn seq_chain(s: Seq<Lexeme>) -> bool {
    forall|i: int| 0 <= i < s.len() - 1 ==> #[trigger] s[i].send() <= s[i + 1].sbegin()
}

/// Appending a lexeme that begins at or after the last end keeps a
/// sequence a chain.
pub proof fn lemma_chain_push(s: Seq<Lexeme>, l: Lexeme)
    requires
        seq_chain(s),
        s.len() > 0 ==> s.last().send() <= l.sbegin(),
    ensures
        seq_chain(s.push(l)),
{
    let s2 = s.push(l);
    assert forall|i: int| 0 <= i < s2.len() - 1 implies (#[trigger] s2[i]).send() <= s2[i
        + 1].sbegin() by {
        if i < s.len() - 1 {
            assert(s[i].send() <= s[i + 1].sbegin());
        }
    }
}

/// The sum of the lexeme lengths of `s`.
pub open spec fn sum_lens(s: Seq<Lexeme>) -> int
    decreases s.len(),
{
    if s.len() == 0 {
        0
    } else {
        sum_lens(s.drop_last()) + s.last().slen()
    }
}

/// The sum of the lexeme lengths, clipped at the top of the machine
/// range: this is what `payload_len` stores for an arbitrary group.
pub open spec fn sum_cap(s: Seq<Lexeme>) -> int {
    if sum_lens(s) > usize::MAX {
        usize::MAX as int
    } else {
        sum_lens(s)
    }
}

/// The capped product used for the weights: multiplication that sticks at
/// the top of the machine range.
pub open spec fn cap_mul(a: int, b: int) -> int {
    if a * b > usize::MAX {
        usize::MAX as int
    } else {
        a * b
    }
}

/// The capped sum used for the weights.
pub open spec fn cap_add(a: int, b: int) -> int {
    if a + b > usize::MAX {
        usize::MAX as int
    } else {
        a + b
    }
}

/// The product of the lexeme lengths, capped step by step.
pub open spec fn x_weight_spec(s: Seq<Lexeme>) -> int
    decreases s.len(),
{
    if s.len() == 0 {
        1
    } else {
        cap_mul(x_weight_spec(s.drop_last()), s.last().slen())
    }
}

/// The position-weighted length sum (1-indexed), capped step by step.
pub open spec fn p_weight_spec(s: Seq<Lexeme>) -> int
    decreases s.len(),
{
    if s.len() == 0 {
        0
    } else {
        cap_add(p_weight_spec(s.drop_last()), cap_mul(s.len() as int, s.last().slen()))
    }
}

pub proof fn lemma_sum_lens_nonneg(s: Seq<Lexeme>)
    requires
        forall|i: int| 0 <= i < s.len() ==> (#[trigger] s[i]).wf_lex(),
    ensures
        sum_lens(s) >= 0,
    decreases s.len(),
{
    if s.len() > 0 {
        lemma_sum_lens_nonneg(s.drop_last());
    }
}

pub proof fn lemma_sum_lens_insert(s: Seq<Lexeme>, k: int, l: Lexeme)
    requires
        0 <= k <= s.len(),
    ensures
        sum_lens(s.insert(k, l)) == sum_lens(s) + l.slen(),
    decreases s.len(),
{
    let s2 = s.insert(k, l);
    if k == s.len() {
        assert(s2.drop_last() =~= s);
        assert(s2.last() == l);
    } else {
        assert(s2.last() == s.last());
        assert(s2.drop_last() =~= s.drop_last().insert(k, l));
        lemma_sum_lens_insert(s.drop_last(), k, l);
    }
}

/// Over a non-overlapping chain the lengths sum to at most the span from
/// the first begin to the last end.
pub proof fn lemma_chain_sum_bound(s: Seq<Lexeme>)
    requires
        s.len() > 0,
        seq_chain(s),
        forall|i: int| 0 <= i < s.len() ==> (#[trigger] s[i]).wf_lex(),
    ensures
        sum_lens(s) <= s.last().send() - s[0].sbegin(),
    decreases s.len(),
{
    if s.len() == 1 {
        assert(s.drop_last() =~= Seq::<Lexeme>::empty());
        assert(sum_lens(s.drop_last()) == 0);
        assert(s.last() == s[0]);
    } else {
        let sp = s.drop_last();
        assert(seq_chain(sp)) by {
            assert(forall|i: int| 0 <= i < sp.len() ==> sp[i] == s[i]);
        }
        lemma_chain_sum_bound(sp);
        assert(sp[0] == s[0]);
        assert(sp.last() == s[s.len() - 2]);
        assert(sp.last().send() <= s.last().sbegin());
    }
}

/// The length sum of well-formed lexemes dominates the length of any
/// position among them.
pub proof fn lemma_sum_lens_pos(s: Seq<Lexeme>, b: int, e: int)
    requires
        forall|i: int| 0 <= i < s.len() ==> (#[trigger] s[i]).wf_lex(),
        pos_in(s, b, e),
    ensures
        sum_lens(s) >= e - b,
    decreases s.len(),
{
    let i = choose|i: int| 0 <= i < s.len() && (#[trigger] s[i]).sbegin() == b && s[i].send() == e;
    if i == s.len() - 1 {
        lemma_sum_lens_nonneg(s.drop_last());
    } else {
        assert(forall|j: int| 0 <= j < s.len() - 1 ==> s.drop_last()[j] == s[j]);
        assert(pos_in(s.drop_last(), b, e)) by {
            assert(s.drop_last()[i].sbegin() == b && s.drop_last()[i].send() == e);
        }
        lemma_sum_lens_pos(s.drop_last(), b, e);
    }
}

/// Chain non-overlap is transitive: any earlier lexeme of a chain ends
/// before any later one begins.
pub proof fn lemma_chain_trans(s: Seq<Lexeme>, i: int, j: int)
    requires
        seq_chain(s),
        forall|m: int| 0 <= m < s.len() ==> (#[trigger] s[m]).wf_lex(),
        0 <= i < j < s.len(),
    ensures
        s[i].send() <= s[j].sbegin(),
    decreases j - i,
{
    if i + 1 < j {
        lemma_chain_trans(s, i + 1, j);
    }
}

/// Saturating multiplication in the machine range.
pub fn mul_sat(a: usize, b: usize) -> (r: usize)
    ensures
        r == cap_mul(a as int, b as int),
{
    if b != 0 && a > usize::MAX / b {
        proof {
            assert(a * b > usize::MAX) by (nonlinear_arith)
                requires
                    b != 0,
                    a > usize::MAX / b,
                    usize::MAX / b == usize::MAX as int / b as int,
            {
                vstd::arithmetic::div_mod::lemma_fundamental_div_mod(usize::MAX as int, b as int);
            }
        }
        usize::MAX
    } else {
        proof {
            if b != 0 {
                assert(a * b <= usize::MAX) by (nonlinear_arith)
                    requires
                        b != 0,
                        a <= usize::MAX / b,
                        usize::MAX / b == usize::MAX as int / b as int,
                {
                    vstd::arithmetic::div_mod::lemma_fundamental_div_mod(
                        usize::MAX as int,
                        b as int,
                    );
                }
            }
        }
        a * b
    }
}

/// Saturating addition in the machine range.
pub fn add_sat(a: usize, b: usize) -> (r: usize)
    ensures
        r == cap_add(a as int, b as int),
{
    if a > usize::MAX - b {
        usize::MAX
    } else {
        a + b
    }
}

/// An ordered group of candidate lexemes spanning `[begin, end)`.
/// `payload_len` is the sum of the lexeme lengths while the path is built
/// as a non-crossing chain, and the span while it is built as a crossing
/// group.
pub struct LexemePath {
    pub begin: i32,
    pub end: i32,
    pub payload_len: usize,
    pub lexeme_list: OrderedLinkedList,
}

impl LexemePath {
    /// The lexemes of the path, in the lexeme order.
    pub open spec fn lv(&self) -> Seq<Lexeme> {
        self.lexeme_list@
    }

    /// Empty with sentinel bounds, or non-empty with `begin` at the first
    /// lexeme and `end` at the greatest end.
    pub open spec fn wf(&self) -> bool {
        &&& self.lexeme_list.wf()
        &&& self.payload_len == sum_cap(self.lv())
        &&& if self.lv().len() == 0 {
            self.begin == -1 && self.end == -1
        } else {
            &&& self.begin >= 0
            &&& self.begin == self.lv()[0].sbegin()
            &&& forall|i: int| 0 <= i < self.lv().len() ==> (#[trigger] self.lv()[i]).send() <= self.end
            &&& exists|i: int| 0 <= i < self.lv().len() && (#[trigger] self.lv()[i]).send() == self.end
        }
    }

    /// The path is a non-crossing chain and `payload_len` is its length
    /// sum.
    pub open spec fn is_chain(&self) -> bool {
        &&& seq_chain(self.lv())
        &&& self.payload_len == sum_lens(self.lv())
        &&& (self.lv().len() > 0 ==> self.end == self.lv().last().send())
    }

    /// Every lexeme, and the span, ends by character `n`.
    pub open spec fn bounded(&self, n: int) -> bool {
        all_bounded(self.lv(), n) && self.end <= n
    }

    /// The lexeme `l` overlaps the span `[begin, end)` of this path.
    pub open spec fn crosses(&self, l: &Lexeme) -> bool {
        self.lv().len() > 0 && ((l.sbegin() >= self.begin && l.sbegin() < self.end) || (
        self.begin >= l.sbegin() && self.begin < l.send()))
    }

    /// An empty path.
    pub fn new() -> (r: Self)
        ensures
            r.wf(),
            r.is_chain(),
            r.lv().len() == 0,
            r.begin == -1,
            r.end == -1,
    {
        let r = LexemePath {
            begin: -1,
            end: -1,
            payload_len: 0,
            lexeme_list: OrderedLinkedList::new(),
        };
        proof {
            assert(sum_lens(r.lv()) == 0);
        }
        r
    }

    /// Add a lexeme to a crossing group: accepted when the path is empty
    /// or the lexeme overlaps the current span; the span widens to cover
    /// it and `payload_len` grows by the lexeme's length (clipped at the
    /// machine range) unless the position was already taken.
    pub fn add_cross_lexeme(&mut self, lexeme: &Lexeme) -> (r: bool)
        requires
            old(self).wf(),
            lexeme.wf_lex(),
            lexeme.send() <= i32::MAX,
        ensures
            final(self).wf(),
            r == (old(self).lv().len() == 0 || old(self).crosses(lexeme)),
            !r ==> *final(self) == *old(self),
            old(self).lv().len() == 0 && r ==> final(self).begin == lexeme.sbegin()
                && final(self).end == lexeme.send() && final(self).lv().len() == 1,
            old(self).lv().len() > 0 && r ==> {
                &&& final(self).begin <= old(self).begin
                &&& final(self).end == (if lexeme.send() > old(self).end {
                    lexeme.send()
                } else {
                    old(self).end as int
                })
                &&& final(self).lv().len() >= 1
            },
            old(self).lv().len() > 0 && r && lexeme.sbegin() >= old(self).begin ==> final(
                self).begin == old(self).begin,
            r ==> pos_in(final(self).lv(), lexeme.sbegin(), lexeme.send()),
            forall|b: int, e: int|
                pos_in(old(self).lv(), b, e) ==> pos_in(final(self).lv(), b, e),
            forall|b: int, e: int|
                pos_in(final(self).lv(), b, e) ==> pos_in(old(self).lv(), b, e) || (b
                    == lexeme.sbegin() && e == lexeme.send()),
            forall|n: int|
                old(self).bounded(n) && lexeme.send() <= n ==> final(self).bounded(n),
    {
        let ghost pre = *self;
        if self.lexeme_list.empty() {
            let cl = lexeme.clone();
            let ghost gcl = cl;
            self.lexeme_list.insert(cl);
            self.begin = lexeme.begin_pos() as i32;
            self.end = lexeme.end_pos() as i32;
            self.payload_len = lexeme.len();
            proof {
                let k = choose|k: int|
                    0 <= k <= pre.lv().len() && self.lv() == pre.lv().insert(k, gcl);
                pre.lv().insert_ensures(k, gcl);
                assert(self.lv().len() == 1);
                assert(self.lv()[0] == gcl);
                assert(self.lv().drop_last() =~= Seq::<Lexeme>::empty());
                assert(sum_lens(Seq::<Lexeme>::empty()) == 0);
                assert(sum_lens(self.lv()) == gcl.slen());
            }
            true
        } else if self.check_cross(lexeme) {
            let cl = lexeme.clone();
            let ghost gcl = cl;
            let before = self.lexeme_list.length();
            self.lexeme_list.insert(cl);
            let after = self.lexeme_list.length();
            if after > before {
                proof {
                    assert(!has_pos(pre.lv(), gcl));
                    let k = choose|k: int|
                        0 <= k <= pre.lv().len() && self.lv() == pre.lv().insert(k, gcl);
                    lemma_sum_lens_insert(pre.lv(), k, gcl);
                    lemma_sum_lens_nonneg(pre.lv());
                }
                self.payload_len = add_sat(self.payload_len, lexeme.len());
            } else {
                proof {
                    assert(self.lv() == pre.lv());
                }
            }
            if lexeme.end_pos() as i32 > self.end {
                self.end = lexeme.end_pos() as i32;
            }
            match self.lexeme_list.peek_front() {
                Some(h) => {
                    self.begin = h.begin_pos() as i32;
                },
                None => {},
            }
            proof {
                let lvo = pre.lv();
                let lvn = self.lv();
                if !crate::ordered_linked_list::has_pos(lvo, gcl) {
                    let k = choose|k: int| 0 <= k <= lvo.len() && lvn == lvo.insert(k, gcl);
                    lvo.insert_ensures(k, gcl);
                    let i = choose|i: int| 0 <= i < lvo.len() && (#[trigger] lvo[i]).send() == pre.end;
                    if gcl.send() > pre.end {
                        assert(lvn[k] == gcl && lvn[k].send() == self.end);
                    } else {
                        if i < k {
                            assert(lvn[i] == lvo[i] && lvn[i].send() == self.end);
                        } else {
                            assert(lvn[i + 1] == lvo[i] && lvn[i + 1].send() == self.end);
                        }
                    }
                    assert forall|m: int| 0 <= m < lvn.len() implies (#[trigger] lvn[m]).send()
                        <= self.end by {
                        if m < k {
                            assert(lvn[m] == lvo[m]);
                        } else if m > k {
                            assert(lvn[m] == lvo[m - 1]);
                        }
                    }
                    assert(lvn[0] == (if k == 0 {
                        gcl
                    } else {
                        lvo[0]
                    }));
                    if k == 0 {
                        assert(lvn[1] == lvo[0]);
                        assert(lvn[0].lex_lt(&lvn[1]));
                        assert(gcl.sbegin() <= lvo[0].sbegin());
                    }
                } else {
                    assert(lvn == lvo);
                    let i = choose|i: int| 0 <= i < lvo.len() && (#[trigger] lvo[i]).pos_eq(&gcl);
                    assert(lvo[i].send() <= pre.end);
                    assert(gcl.send() <= pre.end);
                }
                assert(self.lv()[0].send() <= self.end);
            }
            true
        } else {
            false
        }
    }

    /// Add a lexeme to a non-crossing chain: accepted when the path is
    /// empty or the lexeme lies entirely outside the current span.
    pub fn add_not_cross_lexeme(&mut self, lexeme: &Lexeme) -> (r: bool)
        requires
            old(self).wf(),
            old(self).is_chain(),
            lexeme.wf_lex(),
            lexeme.send() <= i32::MAX,
        ensures
            final(self).wf(),
            final(self).is_chain(),
            r == (old(self).lv().len() == 0 || !old(self).crosses(lexeme)),
            !r ==> *final(self) == *old(self),
            r ==> final(self).lv().len() == old(self).lv().len() + 1,
            r ==> final(self).payload_len == old(self).payload_len + lexeme.slen(),
            r ==> final(self).begin == (if old(self).lv().len() == 0 || lexeme.sbegin() < old(
                self,
            ).begin {
                lexeme.sbegin()
            } else {
                old(self).begin as int
            }),
            r ==> final(self).end == (if old(self).lv().len() == 0 || lexeme.send() > old(
                self,
            ).end {
                lexeme.send()
            } else {
                old(self).end as int
            }),
            forall|n: int|
                old(self).bounded(n) && lexeme.send() <= n ==> final(self).bounded(n),
            r ==> pos_in(final(self).lv(), lexeme.sbegin(), lexeme.send()),
            forall|b: int, e: int|
                pos_in(old(self).lv(), b, e) ==> pos_in(final(self).lv(), b, e),
            forall|b: int, e: int|
                pos_in(final(self).lv(), b, e) ==> pos_in(old(self).lv(), b, e) || (b
                    == lexeme.sbegin() && e == lexeme.send()),
    {
        let ghost pre = *self;
        if self.lexeme_list.empty() {
            let cl = lexeme.clone();
            let ghost gcl = cl;
            self.lexeme_list.insert(cl);
            self.begin = lexeme.begin_pos() as i32;
            self.end = lexeme.end_pos() as i32;
            self.payload_len = lexeme.len();
            proof {
                let k = choose|k: int|
                    0 <= k <= pre.lv().len() && self.lv() == pre.lv().insert(k, gcl);
                pre.lv().insert_ensures(k, gcl);
                assert(self.lv().len() == 1);
                assert(self.lv()[0] == gcl);
                assert(self.lv().drop_last() =~= Seq::<Lexeme>::empty());
                assert(sum_lens(Seq::<Lexeme>::empty()) == 0);
                assert(sum_lens(self.lv()) == gcl.slen());
            }
            true
        } else if self.check_cross(lexeme) {
            false
        } else {
            proof {
                lemma_sum_lens_nonneg(self.lv());
                lemma_chain_sum_bound(self.lv());
            }
            let cl = lexeme.clone();
            let ghost gcl = cl;
            self.lexeme_list.insert(cl);
            proof {
                let lvo = pre.lv();
                assert(!crate::ordered_linked_list::has_pos(lvo, gcl)) by {
                    if crate::ordered_linked_list::has_pos(lvo, gcl) {
                        let i = choose|i: int|
                            0 <= i < lvo.len() && (#[trigger] lvo[i]).pos_eq(&gcl);
                        assert(lvo[0].sbegin() <= lvo[i].sbegin()) by {
                            if i > 0 {
                                assert(lvo[0].lex_lt(&lvo[i]));
                            }
                        }
                        assert(pre.crosses(lexeme));
                    }
                }
                let k = choose|k: int| 0 <= k <= lvo.len() && self.lv() == lvo.insert(k, gcl);
                lvo.insert_ensures(k, gcl);
                lemma_sum_lens_insert(lvo, k, gcl);
            }
            self.payload_len = self.payload_len + lexeme.len();
            match self.lexeme_list.peek_front() {
                Some(h) => {
                    self.begin = h.begin_pos() as i32;
                },
                None => {},
            }
            match self.lexeme_list.peek_back() {
                Some(t) => {
                    self.end = t.end_pos() as i32;
                },
                None => {},
            }
            proof {
                let lvo = pre.lv();
                let lvn = self.lv();
                let k = choose|k: int| 0 <= k <= lvo.len() && lvn == lvo.insert(k, gcl);
                lvo.insert_ensures(k, gcl);
                assert(lexeme.send() <= pre.begin || lexeme.sbegin() >= pre.end) by {
                    if lexeme.send() > pre.begin && lexeme.sbegin() < pre.end {
                        assert(pre.crosses(lexeme));
                    }
                }
                if lexeme.send() <= pre.begin {
                    assert(k == 0) by {
                        if k > 0 {
                            assert(lvn[k - 1] == lvo[k - 1]);
                            assert(lvn[k - 1].lex_lt(&lvn[k]));
                            assert(lvo[0].lex_lt(&lvo[k - 1]) || k == 1);
                        }
                    }
                    assert(seq_chain(lvn)) by {
                        assert forall|i: int| 0 <= i < lvn.len() - 1 implies (
                        #[trigger] lvn[i]).send() <= lvn[i + 1].sbegin() by {
                            if i == 0 {
                                assert(lvn[1] == lvo[0]);
                            } else {
                                assert(lvn[i] == lvo[i - 1] && lvn[i + 1] == lvo[i]);
                            }
                        }
                    }
                    assert(lvn.last() == (if lvo.len() > 0 {
                        lvo.last()
                    } else {
                        gcl
                    }));
                } else {
                    assert(k == lvo.len()) by {
                        if k < lvo.len() {
                            assert(lvn[k + 1] == lvo[k]);
                            assert(lvn[k].lex_lt(&lvn[k + 1]));
                            assert(lvo[k].send() <= pre.end);
                        }
                    }
                    assert(seq_chain(lvn)) by {
                        assert forall|i: int| 0 <= i < lvn.len() - 1 implies (
                        #[trigger] lvn[i]).send() <= lvn[i + 1].sbegin() by {
                            if i == lvn.len() - 2 {
                                assert(lvn[i] == lvo[i]);
                                assert(lvn[i + 1] == gcl);
                                assert(lvo[i].send() <= pre.end);
                            } else {
                                assert(lvn[i] == lvo[i] && lvn[i + 1] == lvo[i + 1]);
                            }
                        }
                    }
                    assert(lvn.last() == gcl);
                }
                assert forall|m: int| 0 <= m < lvn.len() implies (#[trigger] lvn[m]).send()
                    <= lvn.last().send() by {
                    if m < lvn.len() - 1 {
                        lemma_chain_trans(lvn, m, lvn.len() - 1);
                    }
                }
                assert(lvn[0].send() <= self.end);
            }
            true
        }
    }

    /// Remove and return the last lexeme of the chain, shrinking the span
    /// and the payload accordingly.
    pub fn remove_tail(&mut self) -> (r: Option<Lexeme>)
        requires
            old(self).wf(),
            old(self).is_chain(),
        ensures
            final(self).wf(),
            final(self).is_chain(),
            old(self).lv().len() == 0 ==> r is None && final(self).lv() == old(self).lv()
                && final(self).begin == old(self).begin && final(self).end == old(self).end
                && final(self).payload_len == old(self).payload_len,
            old(self).lv().len() > 0 ==> r == Some(old(self).lv().last()) && final(self).lv()
                == old(self).lv().drop_last(),
            final(self).lv().len() > 0 ==> final(self).begin == old(self).begin,
            forall|n: int| old(self).bounded(n) ==> final(self).bounded(n),
            forall|b: int, e: int|
                pos_in(final(self).lv(), b, e) ==> pos_in(old(self).lv(), b, e),
    {
        proof {
            if self.lv().len() > 0 {
                lemma_sum_lens_nonneg(self.lv().drop_last());
            }
        }
        let tail = self.lexeme_list.pop_back();
        match tail {
            None => None,
            Some(t) => {
                if self.lexeme_list.empty() {
                    self.begin = -1;
                    self.end = -1;
                    self.payload_len = 0;
                } else {
                    self.payload_len = self.payload_len - t.len();
                    match self.lexeme_list.peek_back() {
                        Some(new_tail) => {
                            self.end = new_tail.end_pos() as i32;
                        },
                        None => {},
                    }
                    proof {
                        let lvo = old(self).lv();
                        let lvn = self.lv();
                        assert(lvn =~= lvo.drop_last());
                        assert(forall|i: int| 0 <= i < lvn.len() ==> lvn[i] == lvo[i]);
                        assert forall|m: int| 0 <= m < lvn.len() implies (#[trigger] lvn[m]).send()
                            <= lvn.last().send() by {
                            if m < lvn.len() - 1 {
                                lemma_chain_trans(lvn, m, lvn.len() - 1);
                            }
                        }
                    }
                }
                Some(t)
            },
        }
    }

    /// Whether `lexeme` overlaps the path's span.
    pub fn check_cross(&self, lexeme: &Lexeme) -> (r: bool)
        requires
            self.wf(),
            lexeme.wf_lex(),
            lexeme.send() <= i32::MAX,
        ensures
            r == self.crosses(lexeme),
    {
        if self.lexeme_list.empty() {
            return false;
        }
        let lb = lexeme.begin_pos() as i32;
        let le = lexeme.end_pos() as i32;
        (lb >= self.begin && lb < self.end) || (self.begin >= lb && self.begin < le)
    }

    /// First character index of the span, -1 when empty.
    pub fn begin(&self) -> (r: i32)
        ensures
            r == self.begin,
    {
        self.begin
    }

    /// One past the last character index of the span, -1 when empty.
    pub fn end(&self) -> (r: i32)
        ensures
            r == self.end,
    {
        self.end
    }

    /// The span length `end - begin`.
    pub fn path_len(&self) -> (r: usize)
        requires
            self.wf(),
        ensures
            r == self.end - self.begin,
    {
        proof {
            if self.lv().len() > 0 {
                assert(self.lv()[0].send() <= self.end);
            }
        }
        (self.end - self.begin) as usize
    }

    /// The payload: length sum of a chain, span of a crossing group.
    pub fn payload_len(&self) -> (r: usize)
        ensures
            r == self.payload_len,
    {
        self.payload_len
    }

    /// The product of the lexeme lengths, saturating at the machine range.
    pub fn x_weight(&self) -> (r: usize)
        requires
            self.wf(),
        ensures
            r == x_weight_spec(self.lv()),
    {
        let mut product: usize = 1;
        let n = self.lexeme_list.length();
        let mut k: usize = 0;
        while k < n
            invariant
                k <= n,
                n == self.lv().len(),
                self.wf(),
                product == x_weight_spec(self.lv().take(k as int)),
            decreases n - k,
        {
            let l = match self.lexeme_list.get(k) {
                Ok(l) => l,
                Err(_) => vstd::pervasive::unreached(),
            };
            product = mul_sat(product, l.len());
            proof {
                assert(self.lv().take(k + 1).drop_last() =~= self.lv().take(k as int));
                assert(self.lv().take(k + 1).last() == self.lv()[k as int]);
            }
            k += 1;
        }
        proof {
            assert(self.lv().take(n as int) =~= self.lv());
        }
        product
    }

    /// The 1-indexed position-weighted length sum, saturating at the
    /// machine range.
    pub fn p_weight(&self) -> (r: usize)
        requires
            self.wf(),
        ensures
            r == p_weight_spec(self.lv()),
    {
        let mut weight: usize = 0;
        let n = self.lexeme_list.length();
        let mut k: usize = 0;
        while k < n
            invariant
                k <= n,
                n == self.lv().len(),
                self.wf(),
                weight == p_weight_spec(self.lv().take(k as int)),
            decreases n - k,
        {
            let l = match self.lexeme_list.get(k) {
                Ok(l) => l,
                Err(_) => vstd::pervasive::unreached(),
            };
            let term = mul_sat(k + 1, l.len());
            weight = add_sat(weight, term);
            proof {
                assert(self.lv().take(k + 1).drop_last() =~= self.lv().take(k as int));
                assert(self.lv().take(k + 1).last() == self.lv()[k as int]);
                assert(self.lv().take(k + 1).len() == k + 1);
            }
            k += 1;
        }
        proof {
            assert(self.lv().take(n as int) =~= self.lv());
        }
        weight
    }

    /// Number of lexemes in the path.
    pub fn len(&self) -> (r: usize)
        ensures
            r == self.lv().len(),
    {
        self.lexeme_list.length()
    }

    /// Remove and return the first lexeme; the span fields are left as
    /// they are, as only the list matters once a path is drained.
    pub fn poll_first(&mut self) -> (r: Option<Lexeme>)
        requires
            old(self).lexeme_list.wf(),
        ensures
            final(self).lexeme_list.wf(),
            final(self).begin == old(self).begin,
            final(self).end == old(self).end,
            final(self).payload_len == old(self).payload_len,
            old(self).lv().len() == 0 ==> r is None && final(self).lv() == old(self).lv(),
            old(self).lv().len() > 0 ==> r == Some(old(self).lv()[0]) && final(self).lv() == old(
                self,
            ).lv().subrange(1, old(self).lv().len() as int),
    {
        self.lexeme_list.pop_front()
    }

    /// The index of the first lexeme, if any.
    pub fn head_node(&self) -> (r: Option<usize>)
        ensures
            (r is None) == (self.lv().len() == 0),
            r matches Some(i) ==> i == 0,
    {
        self.lexeme_list.head_node()
    }
}

/// Two sequences of pairwise equal-position lexemes have the same length
/// sum.
pub proof fn lemma_sum_lens_equiv(s1: Seq<Lexeme>, s2: Seq<Lexeme>)
    requires
        s1.len() == s2.len(),
        forall|i: int| 0 <= i < s1.len() ==> (#[trigger] s1[i]).lex_equiv(&s2[i]),
    ensures
        sum_lens(s1) == sum_lens(s2),
    decreases s1.len(),
{
    if s1.len() > 0 {
        assert(forall|i: int|
            0 <= i < s1.len() - 1 ==> s1.drop_last()[i] == s1[i] && s2.drop_last()[i] == s2[i]);
        lemma_sum_lens_equiv(s1.drop_last(), s2.drop_last());
    }
}

impl Clone for LexemePath {
    /// A copy with the same span, payload and lexemes.
    fn clone(&self) -> (r: Self)
        ensures
            r.begin == self.begin,
            r.end == self.end,
            r.payload_len == self.payload_len,
            r.lv().len() == self.lv().len(),
            forall|i: int| 0 <= i < r.lv().len() ==> (#[trigger] r.lv()[i]).lex_equiv(
                &self.lv()[i],
            ),
            self.wf() ==> r.wf(),
            self.wf() && self.is_chain() ==> r.is_chain(),
            forall|b: int| self.bounded(b) ==> r.bounded(b),
            forall|b: int, e: int| pos_in(r.lv(), b, e) == pos_in(self.lv(), b, e),
    {
        let items = self.lexeme_list.to_vec();
        let r = LexemePath {
            begin: self.begin,
            end: self.end,
            payload_len: self.payload_len,
            lexeme_list: OrderedLinkedList { items },
        };
        proof {
            if self.wf() {
                lemma_sum_lens_equiv(r.lv(), self.lv());
                assert forall|i: int, j: int| 0 <= i < j < r.lv().len() implies r.lv()[i].lex_lt(
                    &r.lv()[j],
                ) by {
                    assert(self.lv()[i].lex_lt(&self.lv()[j]));
                }
                assert forall|i: int| 0 <= i < r.lv().len() implies (#[trigger] r.lv()[i]).wf_lex()
                    by {
                    assert(self.lv()[i].wf_lex());
                }
                if self.lv().len() > 0 {
                    assert forall|i: int| 0 <= i < r.lv().len() implies (#[trigger] r.lv()[i]).send()
                        <= r.end by {
                        assert(self.lv()[i].send() <= self.end);
                    }
                    let i = choose|i: int|
                        0 <= i < self.lv().len() && (#[trigger] self.lv()[i]).send() == self.end;
                    assert(r.lv()[i].send() == r.end);
                }
                if self.is_chain() {
                    assert forall|i: int| 0 <= i < r.lv().len() - 1 implies (
                    #[trigger] r.lv()[i]).send() <= r.lv()[i + 1].sbegin() by {
                        assert(self.lv()[i].send() <= self.lv()[i + 1].sbegin());
                    }
                    lemma_sum_lens_equiv(r.lv(), self.lv());
                    if self.lv().len() > 0 {
                        assert(r.lv().last().lex_equiv(&self.lv().last()));
                    }
                }
            }
            assert forall|b: int, e: int|
                pos_in(r.lv(), b, e) == pos_in(self.lv(), b, e) by {
                if pos_in(r.lv(), b, e) {
                    let i = choose|i: int|
                        0 <= i < r.lv().len() && (#[trigger] r.lv()[i]).sbegin() == b
                            && r.lv()[i].send() == e;
                    assert(self.lv()[i].sbegin() == b && self.lv()[i].send() == e);
                }
                if pos_in(self.lv(), b, e) {
                    let i = choose|i: int|
                        0 <= i < self.lv().len() && (#[trigger] self.lv()[i]).sbegin() == b
                            && self.lv()[i].send() == e;
                    assert(r.lv()[i].sbegin() == b && r.lv()[i].send() == e);
                }
            }
            assert forall|b: int| self.bounded(b) implies r.bounded(b) by {
                assert forall|i: int| 0 <= i < r.lv().len() implies (#[trigger] r.lv()[i]).send()
                    <= b by {
                    assert(self.lv()[i].send() <= b);
                }
            }
        }
        r
    }
}

/// The lexicographic path order of the arbitrator, "true" meaning that
/// `a` is strictly better: larger payload first, then fewer lexemes, then
/// longer span, then later end, then larger length product, then larger
/// position-weighted sum.
pub open spec fn better_path_spec(a: &LexemePath, b: &LexemePath) -> bool {
    if a.payload_len != b.payload_len {
        a.payload_len > b.payload_len
    } else if a.lv().len() != b.lv().len() {
        a.lv().len() < b.lv().len()
    } else if a.end - a.begin != b.end - b.begin {
        a.end - a.begin > b.end - b.begin
    } else if a.end != b.end {
        a.end > b.end
    } else if x_weight_spec(a.lv()) != x_weight_spec(b.lv()) {
        x_weight_spec(a.lv()) > x_weight_spec(b.lv())
    } else if p_weight_spec(a.lv()) != p_weight_spec(b.lv()) {
        p_weight_spec(a.lv()) > p_weight_spec(b.lv())
    } else {
        false
    }
}

impl LexemePath {
    /// Whether this path is strictly better than `o` under the
    /// arbitrator's order.
    pub fn better_than(&self, o: &LexemePath) -> (r: bool)
        requires
            self.wf(),
            o.wf(),
        ensures
            r == better_path_spec(self, o),
    {
        let ap = self.payload_len();
        let bp = o.payload_len();
        if ap != bp {
            return ap > bp;
        }
        let al = self.len();
        let bl = o.len();
        if al != bl {
            return al < bl;
        }
        let apl = self.path_len();
        let bpl = o.path_len();
        if apl != bpl {
            return apl > bpl;
        }
        let ae = self.end();
        let be = o.end();
        if ae != be {
            return ae > be;
        }
        let ax = self.x_weight();
        let bx = o.x_weight();
        if ax != bx {
            return ax > bx;
        }
        let aw = self.p_weight();
        let bw = o.p_weight();
        if aw != bw {
            return aw > bw;
        }
        false
    }
}

} // verus!
