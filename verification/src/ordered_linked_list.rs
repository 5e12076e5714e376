//! The ordered candidate list: lexemes kept strictly sorted by the lexeme
//! order (ascending begin, longer first on ties), with positional
//! duplicates silently dropped on insert.

use vstd::prelude::*;
use crate::lexeme::Lexeme;
use crate::lexeme::LexemeType;

verus! {

/// Error for an index past the end of the list.
#[derive(Debug, Clone)]
pub struct IndexOutOfRangeError;

/// Strictly sorted under the lexeme order: in particular no two entries
/// share a position.
pub open spec fn lex_sorted(s: Seq<Lexeme>) -> bool {
    forall|i: int, j: int| 0 <= i < j < s.len() ==> s[i].lex_lt(&s[j])
}

/// Every entry covers at least one character.
pub open spec fn all_wf_lex(s: Seq<Lexeme>) -> bool {
    forall|i: int| 0 <= i < s.len() ==> s[i].wf_lex()
}

/// Every entry ends at or before character `n`.
pub open spec fn all_bounded(s: Seq<Lexeme>, n: int) -> bool {
    forall|i: int| 0 <= i < s.len() ==> s[i].send() <= n
}

/// Some entry occupies exactly the position of `l`.
pub open spec fn has_pos(s: Seq<Lexeme>, l: Lexeme) -> bool {
    exists|i: int| 0 <= i < s.len() && s[i].pos_eq(&l)
}

/// Some entry covers exactly `[b, e)`.
pub open spec fn pos_in(s: Seq<Lexeme>, b: int, e: int) -> bool {
    exists|i: int| 0 <= i < s.len() && (#[trigger] s[i]).sbegin() == b && s[i].send() == e
}

/// Some entry covers exactly `[b, e)` and carries the type `t`.
pub open spec fn typed_pos_in(s: Seq<Lexeme>, b: int, e: int, t: LexemeType) -> bool {
    exists|i: int|
        0 <= i < s.len() && (#[trigger] s[i]).sbegin() == b && s[i].send() == e
            && s[i].lexeme_type == t
}

/// Some entry's range contains the character position `c`.
pub open spec fn covers(s: Seq<Lexeme>, c: int) -> bool {
    exists|i: int| 0 <= i < s.len() && (#[trigger] s[i]).sbegin() <= c < s[i].send()
}

/// Extending a sequence at the end keeps every position and every covered
/// character covered.
pub proof fn lemma_pos_in_grow(s1: Seq<Lexeme>, s2: Seq<Lexeme>)
    requires
        s1.len() <= s2.len(),
        forall|i: int| 0 <= i < s1.len() ==> s2[i] == s1[i],
    ensures
        forall|b: int, e: int| pos_in(s1, b, e) ==> pos_in(s2, b, e),
        forall|c: int| covers(s1, c) ==> covers(s2, c),
{
    assert forall|b: int, e: int| pos_in(s1, b, e) implies pos_in(s2, b, e) by {
        let i = choose|i: int|
            0 <= i < s1.len() && (#[trigger] s1[i]).sbegin() == b && s1[i].send() == e;
        assert(s2[i] == s1[i]);
    }
    assert forall|c: int| covers(s1, c) implies covers(s2, c) by {
        let i = choose|i: int|
            0 <= i < s1.len() && (#[trigger] s1[i]).sbegin() <= c < s1[i].send();
        assert(s2[i] == s1[i]);
    }
}

/// Appending an element greater than the last keeps a sequence sorted.
pub proof fn lemma_sorted_push(s: Seq<Lexeme>, l: Lexeme)
    requires
        lex_sorted(s),
        s.len() > 0 ==> s.last().lex_lt(&l),
    ensures
        lex_sorted(s.push(l)),
{
    let s2 = s.push(l);
    assert forall|i: int, j: int| 0 <= i < j < s2.len() implies s2[i].lex_lt(&s2[j]) by {
        if j == s.len() {
            if i < s.len() - 1 {
                assert(s[i].lex_lt(&s.last()));
            }
        }
    }
}

/// A list of lexemes maintained in the lexeme sort order on insert.
#[derive(Debug)]
pub struct OrderedLinkedList {
    pub items: Vec<Lexeme>,
}

impl View for OrderedLinkedList {
    type V = Seq<Lexeme>;

    open spec fn view(&self) -> Seq<Lexeme> {
        self.items@
    }
}

impl OrderedLinkedList {
    /// Sorted without positional duplicates, every entry non-empty.
    pub open spec fn wf(&self) -> bool {
        lex_sorted(self@) && all_wf_lex(self@)
    }

    /// Every entry ends at or before character `n`.
    pub open spec fn bounded(&self, n: int) -> bool {
        all_bounded(self@, n)
    }

    /// The empty list.
    pub fn new() -> (r: Self)
        ensures
            r@ == Seq::<Lexeme>::empty(),
            r.wf(),
    {
        OrderedLinkedList { items: Vec::new() }
    }

    /// Number of entries.
    pub fn length(&self) -> (r: usize)
        ensures
            r == self@.len(),
    {
        self.items.len()
    }

    /// Number of entries, as callers that prefer `len` know it.
    pub fn len(&self) -> (r: usize)
        ensures
            r == self@.len(),
    {
        self.items.len()
    }

    /// Whether the list has no entries.
    pub fn empty(&self) -> (r: bool)
        ensures
            r == (self@.len() == 0),
    {
        self.items.len() == 0
    }

    /// Insert `data` at its sorted position; an entry with the same
    /// position already in the list wins and `data` is dropped.
    pub fn insert(&mut self, data: Lexeme) -> (r: bool)
        requires
            old(self).wf(),
            data.wf_lex(),
        ensures
            r == true,
            final(self).wf(),
            has_pos(old(self)@, data) ==> final(self)@ == old(self)@,
            !has_pos(old(self)@, data) ==> exists|k: int|
                0 <= k <= old(self)@.len() && final(self)@ == old(self)@.insert(k, data),
            forall|n: int|
                old(self).bounded(n) && data.send() <= n ==> final(self).bounded(n),
            pos_in(final(self)@, data.sbegin(), data.send()),
            forall|b: int, e: int| pos_in(old(self)@, b, e) ==> pos_in(final(self)@, b, e),
            forall|b: int, e: int|
                pos_in(final(self)@, b, e) ==> pos_in(old(self)@, b, e) || (b == data.sbegin()
                    && e == data.send()),
            !has_pos(old(self)@, data) ==> typed_pos_in(
                final(self)@,
                data.sbegin(),
                data.send(),
                data.lexeme_type,
            ),
            forall|b: int, e: int, t: LexemeType|
                typed_pos_in(old(self)@, b, e, t) ==> typed_pos_in(final(self)@, b, e, t),
            forall|b: int, e: int, t: LexemeType|
                typed_pos_in(final(self)@, b, e, t) ==> typed_pos_in(old(self)@, b, e, t) || (b
                    == data.sbegin() && e == data.send() && t == data.lexeme_type),
    {
        let n = self.items.len();
        let mut k: usize = 0;
        while k < n && (self.items[k].pos.start < data.pos.start || (self.items[k].pos.start
            == data.pos.start && self.items[k].pos.end > data.pos.end))
            invariant
                k <= n,
                n == self.items.len(),
                self == old(self),
                old(self).wf(),
                data.wf_lex(),
                forall|i: int| 0 <= i < k ==> self@[i].lex_lt(&data),
            decreases n - k,
        {
            k += 1;
        }
        if k < n && self.items[k].pos.start == data.pos.start && self.items[k].pos.end
            == data.pos.end {
            proof {
                assert(self@[k as int].pos_eq(&data));
                assert(self@[k as int].sbegin() == data.sbegin() && self@[k as int].send()
                    == data.send());
            }
            return true;
        }
        proof {
            assert forall|j: int| k <= j < n implies data.lex_lt(&self@[j]) by {
                if j > k {
                    assert(self@[k as int].lex_lt(&self@[j]));
                }
            }
            assert forall|i: int| 0 <= i < n implies !self@[i].pos_eq(&data) by {}
            assert(!has_pos(self@, data));
        }
        self.items.insert(k, data);
        proof {
            assert(final(self)@ == old(self)@.insert(k as int, data));
            old(self)@.insert_ensures(k as int, data);
            assert(final(self)@[k as int] == data);
            assert forall|b: int, e: int| pos_in(old(self)@, b, e) implies pos_in(
                final(self)@,
                b,
                e,
            ) by {
                let i = choose|i: int|
                    0 <= i < old(self)@.len() && (#[trigger] old(self)@[i]).sbegin() == b && old(
                        self,
                    )@[i].send() == e;
                if i < k {
                    assert(final(self)@[i] == old(self)@[i]);
                } else {
                    assert(final(self)@[i + 1] == old(self)@[i]);
                }
            }
            assert forall|b: int, e: int|
                pos_in(final(self)@, b, e) implies pos_in(old(self)@, b, e) || (b
                == data.sbegin() && e == data.send()) by {
                let i = choose|i: int|
                    0 <= i < final(self)@.len() && (#[trigger] final(self)@[i]).sbegin() == b
                        && final(self)@[i].send() == e;
                if i < k {
                    assert(final(self)@[i] == old(self)@[i]);
                } else if i > k {
                    assert(final(self)@[i] == old(self)@[i - 1]);
                }
            }
            assert forall|b: int, e: int, t: LexemeType|
                typed_pos_in(old(self)@, b, e, t) implies typed_pos_in(final(self)@, b, e, t) by {
                let i = choose|i: int|
                    0 <= i < old(self)@.len() && (#[trigger] old(self)@[i]).sbegin() == b && old(
                        self,
                    )@[i].send() == e && old(self)@[i].lexeme_type == t;
                if i < k {
                    assert(final(self)@[i] == old(self)@[i]);
                } else {
                    assert(final(self)@[i + 1] == old(self)@[i]);
                }
            }
            assert forall|b: int, e: int, t: LexemeType|
                typed_pos_in(final(self)@, b, e, t) implies typed_pos_in(old(self)@, b, e, t) || (
            b == data.sbegin() && e == data.send() && t == data.lexeme_type) by {
                let i = choose|i: int|
                    0 <= i < final(self)@.len() && (#[trigger] final(self)@[i]).sbegin() == b
                        && final(self)@[i].send() == e && final(self)@[i].lexeme_type == t;
                if i < k {
                    assert(final(self)@[i] == old(self)@[i]);
                } else if i > k {
                    assert(final(self)@[i] == old(self)@[i - 1]);
                }
            }
        }
        true
    }

    /// Remove and return the smallest entry.
    pub fn pop_front(&mut self) -> (r: Option<Lexeme>)
        requires
            old(self).wf(),
        ensures
            final(self).wf(),
            old(self)@.len() == 0 ==> r is None && final(self)@ == old(self)@,
            old(self)@.len() > 0 ==> r == Some(old(self)@[0]) && final(self)@ == old(
                self,
            )@.subrange(1, old(self)@.len() as int),
    {
        if self.items.len() == 0 {
            None
        } else {
            let l = self.items.remove(0);
            Some(l)
        }
    }

    /// Remove and return the greatest entry.
    pub fn pop_back(&mut self) -> (r: Option<Lexeme>)
        requires
            old(self).wf(),
        ensures
            final(self).wf(),
            old(self)@.len() == 0 ==> r is None && final(self)@ == old(self)@,
            old(self)@.len() > 0 ==> r == Some(old(self)@.last()) && final(self)@ == old(
                self,
            )@.drop_last(),
    {
        let r = self.items.pop();
        proof {
            if old(self)@.len() > 0 {
                assert(final(self)@ =~= old(self)@.drop_last());
            }
        }
        r
    }

    /// The smallest entry, if any.
    pub fn peek_front(&self) -> (r: Option<&Lexeme>)
        ensures
            (r is None) == (self@.len() == 0),
            r matches Some(l) ==> *l == self@[0],
    {
        if self.items.len() == 0 {
            None
        } else {
            Some(&self.items[0])
        }
    }

    /// The greatest entry, if any.
    pub fn peek_back(&self) -> (r: Option<&Lexeme>)
        ensures
            (r is None) == (self@.len() == 0),
            r matches Some(l) ==> *l == self@.last(),
    {
        if self.items.len() == 0 {
            None
        } else {
            Some(&self.items[self.items.len() - 1])
        }
    }

    /// The index of the first entry, if any.
    pub fn head_node(&self) -> (r: Option<usize>)
        ensures
            (r is None) == (self@.len() == 0),
            r matches Some(i) ==> i == 0,
    {
        if self.items.len() == 0 {
            None
        } else {
            Some(0)
        }
    }

    /// The index of the last entry, if any.
    pub fn tail_node(&self) -> (r: Option<usize>)
        ensures
            (r is None) == (self@.len() == 0),
            r matches Some(i) ==> i == self@.len() - 1,
    {
        if self.items.len() == 0 {
            None
        } else {
            Some(self.items.len() - 1)
        }
    }

    /// The entry at `idx`, or an error when `idx` is out of range.
    pub fn get(&self, idx: usize) -> (r: Result<&Lexeme, IndexOutOfRangeError>)
        ensures
            idx < self@.len() ==> (r matches Ok(l) && *l == self@[idx as int]),
            idx >= self@.len() ==> r is Err,
    {
        if idx < self.items.len() {
            Ok(&self.items[idx])
        } else {
            Err(IndexOutOfRangeError)
        }
    }

    /// Whether some entry occupies exactly the position of `e`.
    pub fn contains(&self, e: &Lexeme) -> (r: bool)
        ensures
            r == has_pos(self@, *e),
    {
        let n = self.items.len();
        let mut k: usize = 0;
        while k < n
            invariant
                k <= n,
                n == self@.len(),
                forall|i: int| 0 <= i < k ==> !self@[i].pos_eq(e),
            decreases n - k,
        {
            let cur = &self.items[k];
            if cur.pos.start == e.pos.start && cur.pos.end == e.pos.end {
                proof {
                    assert(self@[k as int].pos_eq(e));
                }
                return true;
            }
            k += 1;
        }
        false
    }

    /// Remove every entry.
    pub fn clear(&mut self)
        ensures
            final(self)@ == Seq::<Lexeme>::empty(),
            final(self).wf(),
    {
        self.items.clear();
    }

    /// Copies of all entries in order.
    pub fn to_vec(&self) -> (r: Vec<Lexeme>)
        ensures
            r@.len() == self@.len(),
            forall|i: int| 0 <= i < r@.len() ==> r@[i].lex_equiv(&self@[i]),
    {
        let n = self.items.len();
        let mut out: Vec<Lexeme> = Vec::new();
        let mut k: usize = 0;
        while k < n
            invariant
                k <= n,
                n == self@.len(),
                out@.len() == k,
                forall|i: int| 0 <= i < k ==> out@[i].lex_equiv(&self@[i]),
            decreases n - k,
        {
            out.push(self.items[k].clone());
            k += 1;
        }
        out
    }
}

} // verus!
