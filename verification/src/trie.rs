//! The dictionary trie.
//!
//! A node holds an optional code point, a terminal flag and its children;
//! the mathematical model is the predicate `accepts`: the words whose path
//! from this node ends at a terminal node. `reaches` is the weaker
//! predicate that the path merely exists.

use vstd::prelude::*;
use crate::char_util::chars_of;
use crate::hit::Hit;

verus! {

/// One trie node: an optional code-point value, a terminal flag, and the
/// children. Child values are looked up by their code point; the first
/// child with a given value wins, and the operations never create a second
/// one.
#[derive(Debug)]
pub struct TrieNode {
    pub value: Option<char>,
    pub final_state: bool,
    pub child_nodes: Vec<TrieNode>,
}

/// Index of the first node in `s` whose value is `c`, or -1 when there is
/// none.
pub open spec fn find_child(s: Seq<TrieNode>, c: char) -> int
    decreases s.len(),
{
    if s.len() == 0 {
        -1
    } else if s[0].value == Some(c) {
        0
    } else {
        let r = find_child(s.skip(1), c);
        if r < 0 {
            -1
        } else {
            r + 1
        }
    }
}

/// `u` is a (not necessarily proper) prefix of `w`.
pub open spec fn is_prefix_of(u: Seq<char>, w: Seq<char>) -> bool {
    u.len() <= w.len() && u == w.take(u.len() as int)
}

pub proof fn lemma_find_child_props(s: Seq<TrieNode>, c: char)
    ensures
        -1 <= find_child(s, c) < s.len(),
        find_child(s, c) >= 0 ==> s[find_child(s, c)].value == Some(c),
        find_child(s, c) >= 0 ==> forall|i: int|
            0 <= i < find_child(s, c) ==> s[i].value != Some(c),
        find_child(s, c) == -1 ==> forall|i: int| 0 <= i < s.len() ==> s[i].value != Some(c),
    decreases s.len(),
{
    if s.len() == 0 {
    } else if s[0].value == Some(c) {
    } else {
        lemma_find_child_props(s.skip(1), c);
        assert(forall|i: int| 1 <= i < s.len() ==> s[i] == s.skip(1)[i - 1]);
    }
}

pub proof fn lemma_find_child_update(s: Seq<TrieNode>, j: int, x: TrieNode, c: char)
    requires
        0 <= j < s.len(),
        x.value == s[j].value,
    ensures
        find_child(s.update(j, x), c) == find_child(s, c),
    decreases s.len(),
{
    let s2 = s.update(j, x);
    assert(s2.len() == s.len());
    if s.len() == 0 {
    } else if j == 0 {
        assert(s2[0].value == s[0].value);
        if s[0].value == Some(c) {
        } else {
            assert(s2.skip(1) =~= s.skip(1));
        }
    } else {
        assert(s2[0] == s[0]);
        if s[0].value == Some(c) {
        } else {
            assert(s2.skip(1) =~= s.skip(1).update(j - 1, x));
            lemma_find_child_update(s.skip(1), j - 1, x, c);
        }
    }
}

pub proof fn lemma_find_child_push(s: Seq<TrieNode>, x: TrieNode, c: char)
    ensures
        find_child(s, c) >= 0 ==> find_child(s.push(x), c) == find_child(s, c),
        find_child(s, c) == -1 && x.value == Some(c) ==> find_child(s.push(x), c) == s.len(),
        find_child(s, c) == -1 && x.value != Some(c) ==> find_child(s.push(x), c) == -1,
    decreases s.len(),
{
    let s2 = s.push(x);
    if s.len() == 0 {
        assert(s2.len() == 1 && s2[0] == x);
        assert(s2.skip(1) =~= Seq::<TrieNode>::empty());
        assert(find_child(Seq::<TrieNode>::empty(), c) == -1);
        assert(find_child(s, c) == -1);
        if x.value == Some(c) {
            assert(find_child(s2, c) == 0);
        } else {
            assert(find_child(s2, c) == -1);
        }
    } else {
        assert(s2[0] == s[0]);
        if s[0].value == Some(c) {
        } else {
            assert(s2.skip(1) =~= s.skip(1).push(x));
            lemma_find_child_push(s.skip(1), x, c);
        }
    }
}

impl TrieNode {
    /// Whether some child carries the code point `c`.
    pub open spec fn has_child(&self, c: char) -> bool {
        find_child(self.child_nodes@, c) >= 0
    }

    /// The child carrying `c` (meaningful when `has_child(c)`).
    pub open spec fn child(&self, c: char) -> TrieNode {
        self.child_nodes@[find_child(self.child_nodes@, c)]
    }

    /// The walk along `w` from this node ends at a terminal node.
    pub open spec fn accepts(&self, w: Seq<char>) -> bool
        decreases w.len(),
    {
        if w.len() == 0 {
            self.final_state
        } else {
            self.has_child(w[0]) && self.child(w[0]).accepts(w.skip(1))
        }
    }

    /// The path `w` exists from this node, terminal or not.
    pub open spec fn reaches(&self, w: Seq<char>) -> bool
        decreases w.len(),
    {
        if w.len() == 0 {
            true
        } else {
            self.has_child(w[0]) && self.child(w[0]).reaches(w.skip(1))
        }
    }

    /// The node where the path `w` ends (meaningful when `reaches(w)`).
    pub open spec fn node_at(&self, w: Seq<char>) -> TrieNode
        decreases w.len(),
    {
        if w.len() == 0 {
            *self
        } else {
            self.child(w[0]).node_at(w.skip(1))
        }
    }

    /// A fresh node with no children.
    pub fn new(c: char, final_state: bool) -> (r: Self)
        ensures
            r.value == Some(c),
            r.final_state == final_state,
            r.child_nodes@.len() == 0,
    {
        TrieNode { value: Some(c), final_state, child_nodes: Vec::new() }
    }

    /// A fresh root: no value, never terminal.
    pub fn new_root() -> (r: TrieNode)
        ensures
            r.value is None,
            !r.final_state,
            r.child_nodes@.len() == 0,
    {
        TrieNode { value: None, final_state: false, child_nodes: Vec::new() }
    }

    /// Whether this is a root node (no value).
    pub fn is_root(&self) -> (r: bool)
        ensures
            r == (self.value is None),
    {
        match self.value {
            None => true,
            Some(_) => false,
        }
    }

    /// Whether any child exists.
    pub fn has_childs(&self) -> (r: bool)
        ensures
            r == (self.child_nodes@.len() > 0),
    {
        self.child_nodes.len() > 0
    }

    /// Whether this node is terminal.
    pub fn is_final_state(&self) -> (r: bool)
        ensures
            r == self.final_state,
    {
        self.final_state
    }

    /// Whether this node carries the code point `c`.
    pub fn check_value(self, c: char) -> (r: bool)
        ensures
            r == (self.value == Some(c)),
    {
        match self.value {
            Some(v) => v == c,
            None => false,
        }
    }

    /// Index of the first child carrying `c`, if any.
    fn find_child_exec(&self, c: char) -> (r: Option<usize>)
        ensures
            r matches Some(i) ==> find_child(self.child_nodes@, c) == i && i
                < self.child_nodes@.len(),
            r is None ==> find_child(self.child_nodes@, c) == -1,
    {
        let n = self.child_nodes.len();
        let mut k: usize = 0;
        while k < n
            invariant
                k <= n,
                n == self.child_nodes@.len(),
                forall|i: int| 0 <= i < k ==> self.child_nodes@[i].value != Some(c),
            decreases n - k,
        {
            let matched = match self.child_nodes[k].value {
                Some(v) => v == c,
                None => false,
            };
            if matched {
                proof {
                    lemma_find_child_props(self.child_nodes@, c);
                }
                return Some(k);
            }
            k += 1;
        }
        proof {
            lemma_find_child_props(self.child_nodes@, c);
        }
        None
    }

    /// Append a fresh child carrying `c`; the caller must know no child
    /// with that code point exists yet.
    pub fn add_child(&mut self, c: char, final_state: bool) -> (r: bool)
        requires
            find_child(old(self).child_nodes@, c) == -1,
        ensures
            r == true,
            final(self).value == old(self).value,
            final(self).final_state == old(self).final_state,
            final(self).child_nodes@.len() == old(self).child_nodes@.len() + 1,
            forall|i: int|
                0 <= i < old(self).child_nodes@.len() ==> final(self).child_nodes@[i] == old(
                    self,
                ).child_nodes@[i],
            final(self).child_nodes@.last().value == Some(c),
            final(self).child_nodes@.last().final_state == final_state,
            final(self).child_nodes@.last().child_nodes@.len() == 0,
    {
        self.child_nodes.push(TrieNode::new(c, final_state));
        true
    }

    /// Whether `string_val` is accepted from this node.
    pub fn exist(&self, string_val: &str) -> (r: bool)
        ensures
            r == self.accepts(string_val@),
    {
        let chars = chars_of(string_val);
        let n = chars.len();
        let mut cur: &TrieNode = self;
        let mut i: usize = 0;
        proof {
            assert(string_val@.skip(0) =~= string_val@);
        }
        while i < n
            invariant
                i <= n,
                chars@ == string_val@,
                n == chars@.len(),
                self.accepts(string_val@) == cur.accepts(string_val@.skip(i as int)),
            decreases n - i,
        {
            let ghost pre = string_val@.skip(i as int);
            match cur.find_child_exec(chars[i]) {
                None => {
                    proof {
                        assert(pre.len() > 0 && pre[0] == string_val@[i as int]);
                        assert(!cur.accepts(pre));
                    }
                    return false;
                },
                Some(j) => {
                    proof {
                        assert(pre[0] == string_val@[i as int]);
                        assert(pre.skip(1) =~= string_val@.skip(i + 1));
                    }
                    cur = &cur.child_nodes[j];
                },
            }
            i += 1;
        }
        proof {
            assert(string_val@.skip(n as int) =~= Seq::<char>::empty());
        }
        cur.is_final_state()
    }
}

/// Lifts an update of the child carrying `c` to the parent: when the new
/// child accepts exactly the old words plus `wrest`, the parent accepts
/// exactly the old words plus `c` followed by `wrest`; likewise for the
/// existing paths.
proof fn lemma_lift_update(pold: TrieNode, pnew: TrieNode, c: char, wrest: Seq<char>)
    requires
        find_child(pold.child_nodes@, c) >= 0,
        pnew.value == pold.value,
        pnew.final_state == pold.final_state,
        pnew.child_nodes@.len() == pold.child_nodes@.len(),
        forall|k: int|
            0 <= k < pold.child_nodes@.len() && k != find_child(pold.child_nodes@, c) ==> pnew.child_nodes@[k]
                == pold.child_nodes@[k],
        pnew.child_nodes@[find_child(pold.child_nodes@, c)].value == Some(c),
        forall|u: Seq<char>|
            #[trigger] pnew.child_nodes@[find_child(pold.child_nodes@, c)].accepts(u) == (
            pold.child_nodes@[find_child(pold.child_nodes@, c)].accepts(u) || u == wrest),
        forall|u: Seq<char>|
            #[trigger] pnew.child_nodes@[find_child(pold.child_nodes@, c)].reaches(u) == (
            pold.child_nodes@[find_child(pold.child_nodes@, c)].reaches(u) || is_prefix_of(
                u,
                wrest,
            )),
    ensures
        forall|u: Seq<char>|
            #[trigger] pnew.accepts(u) == (pold.accepts(u) || u == seq![c] + wrest),
        forall|u: Seq<char>|
            #[trigger] pnew.reaches(u) == (pold.reaches(u) || is_prefix_of(u, seq![c] + wrest)),
{
    let j = find_child(pold.child_nodes@, c);
    let w = seq![c] + wrest;
    lemma_find_child_props(pold.child_nodes@, c);
    assert(pnew.child_nodes@ =~= pold.child_nodes@.update(j, pnew.child_nodes@[j]));
    assert forall|d: char|
        find_child(pnew.child_nodes@, d) == find_child(pold.child_nodes@, d) by {
        lemma_find_child_update(pold.child_nodes@, j, pnew.child_nodes@[j], d);
    }
    assert forall|u: Seq<char>|
        #[trigger] pnew.accepts(u) == (pold.accepts(u) || u == w) by {
        if u.len() == 0 {
            assert(u != w);
        } else {
            let d = u[0];
            if d == c {
                assert(pnew.child(c) == pnew.child_nodes@[j]);
                assert(pold.child(c) == pold.child_nodes@[j]);
                assert(pnew.accepts(u) == pnew.child_nodes@[j].accepts(u.skip(1)));
                assert((u == w) == (u.skip(1) == wrest)) by {
                    if u.skip(1) == wrest {
                        assert(u =~= w);
                    }
                    if u == w {
                        assert(u.skip(1) =~= wrest);
                    }
                }
            } else {
                assert(u != w) by {
                    assert(w[0] == c);
                }
                lemma_find_child_props(pold.child_nodes@, d);
                if find_child(pold.child_nodes@, d) >= 0 {
                    let k = find_child(pold.child_nodes@, d);
                    assert(k != j);
                    assert(pnew.child(d) == pold.child(d));
                }
            }
        }
    }
    assert forall|u: Seq<char>|
        #[trigger] pnew.reaches(u) == (pold.reaches(u) || is_prefix_of(u, w)) by {
        if u.len() == 0 {
            assert(is_prefix_of(u, w)) by {
                assert(u =~= w.take(0));
            }
        } else {
            let d = u[0];
            assert((is_prefix_of(u, w)) == (d == c && is_prefix_of(u.skip(1), wrest))) by {
                lemma_prefix_cons(u, c, wrest);
            }
            if d == c {
                assert(pnew.child(c) == pnew.child_nodes@[j]);
                assert(pold.child(c) == pold.child_nodes@[j]);
                assert(pnew.reaches(u) == pnew.child_nodes@[j].reaches(u.skip(1)));
            } else {
                lemma_find_child_props(pold.child_nodes@, d);
                if find_child(pold.child_nodes@, d) >= 0 {
                    let k = find_child(pold.child_nodes@, d);
                    assert(k != j);
                    assert(pnew.child(d) == pold.child(d));
                }
            }
        }
    }
}

/// For a nonempty `u`, being a prefix of `c` followed by `wrest` means
/// starting with `c` and continuing with a prefix of `wrest`.
proof fn lemma_prefix_cons(u: Seq<char>, c: char, wrest: Seq<char>)
    requires
        u.len() > 0,
    ensures
        is_prefix_of(u, seq![c] + wrest) == (u[0] == c && is_prefix_of(u.skip(1), wrest)),
{
    let w = seq![c] + wrest;
    if is_prefix_of(u, w) {
        assert(u[0] == w.take(u.len() as int)[0]);
        assert forall|k: int| 0 <= k < u.len() - 1 implies u.skip(1)[k] == wrest.take(
            u.len() - 1,
        )[k] by {
            assert(u.skip(1)[k] == u[k + 1]);
            assert(u[k + 1] == w.take(u.len() as int)[k + 1]);
            assert(w[k + 1] == wrest[k]);
        }
        assert(u.skip(1) =~= wrest.take(u.len() - 1));
    }
    if u[0] == c && is_prefix_of(u.skip(1), wrest) {
        assert forall|k: int| 0 <= k < u.len() implies u[k] == w.take(u.len() as int)[k] by {
            if k > 0 {
                assert(u[k] == u.skip(1)[k - 1]);
                assert(u.skip(1)[k - 1] == wrest.take(u.len() - 1)[k - 1]);
                assert(w[k] == wrest[k - 1]);
            }
        }
        assert(u =~= w.take(u.len() as int));
    }
}

/// Lifts the append of a fresh child carrying `c` to the parent, as
/// `lemma_lift_update` does for an update.
proof fn lemma_lift_push(pold: TrieNode, pnew: TrieNode, c: char, wrest: Seq<char>)
    requires
        find_child(pold.child_nodes@, c) == -1,
        pnew.value == pold.value,
        pnew.final_state == pold.final_state,
        pnew.child_nodes@ == pold.child_nodes@.push(pnew.child_nodes@.last()),
        pnew.child_nodes@.last().value == Some(c),
        forall|u: Seq<char>| #[trigger] pnew.child_nodes@.last().accepts(u) == (u == wrest),
        forall|u: Seq<char>|
            #[trigger] pnew.child_nodes@.last().reaches(u) == is_prefix_of(u, wrest),
    ensures
        forall|u: Seq<char>|
            #[trigger] pnew.accepts(u) == (pold.accepts(u) || u == seq![c] + wrest),
        forall|u: Seq<char>|
            #[trigger] pnew.reaches(u) == (pold.reaches(u) || is_prefix_of(u, seq![c] + wrest)),
{
    let x = pnew.child_nodes@.last();
    let w = seq![c] + wrest;
    let n = pold.child_nodes@.len();
    assert forall|d: char|
        (find_child(pnew.child_nodes@, d) == if find_child(pold.child_nodes@, d) >= 0 {
            find_child(pold.child_nodes@, d)
        } else if d == c {
            n as int
        } else {
            -1
        }) by {
        lemma_find_child_push(pold.child_nodes@, x, d);
        lemma_find_child_props(pold.child_nodes@, d);
    }
    assert forall|u: Seq<char>|
        #[trigger] pnew.accepts(u) == (pold.accepts(u) || u == w) by {
        if u.len() == 0 {
            assert(u != w);
        } else {
            let d = u[0];
            lemma_find_child_props(pold.child_nodes@, d);
            if d == c {
                assert(!pold.has_child(c));
                assert(!pold.accepts(u));
                assert(pnew.child(c) == x);
                assert(pnew.accepts(u) == x.accepts(u.skip(1)));
                assert((u == w) == (u.skip(1) == wrest)) by {
                    if u.skip(1) == wrest {
                        assert(u =~= w);
                    }
                    if u == w {
                        assert(u.skip(1) =~= wrest);
                    }
                }
            } else {
                assert(u != w) by {
                    assert(w[0] == c);
                }
                if find_child(pold.child_nodes@, d) >= 0 {
                    assert(pnew.child(d) == pold.child(d));
                }
            }
        }
    }
    assert forall|u: Seq<char>|
        #[trigger] pnew.reaches(u) == (pold.reaches(u) || is_prefix_of(u, w)) by {
        if u.len() == 0 {
            assert(is_prefix_of(u, w)) by {
                assert(u =~= w.take(0));
            }
        } else {
            let d = u[0];
            lemma_prefix_cons(u, c, wrest);
            lemma_find_child_props(pold.child_nodes@, d);
            if d == c {
                assert(!pold.has_child(c));
                assert(!pold.reaches(u));
                assert(pnew.child(c) == x);
                assert(pnew.reaches(u) == x.reaches(u.skip(1)));
            } else {
                if find_child(pold.child_nodes@, d) >= 0 {
                    assert(pnew.child(d) == pold.child(d));
                }
            }
        }
    }
}

/// Lifts clearing or keeping words under the child carrying `c`: when the
/// new child accepts the old words except `wrest` and keeps every path, the
/// parent accepts the old words except `c` followed by `wrest`.
proof fn lemma_lift_update_delete(pold: TrieNode, pnew: TrieNode, c: char, wrest: Seq<char>)
    requires
        find_child(pold.child_nodes@, c) >= 0,
        pnew.value == pold.value,
        pnew.final_state == pold.final_state,
        pnew.child_nodes@.len() == pold.child_nodes@.len(),
        forall|k: int|
            0 <= k < pold.child_nodes@.len() && k != find_child(pold.child_nodes@, c) ==> pnew.child_nodes@[k]
                == pold.child_nodes@[k],
        pnew.child_nodes@[find_child(pold.child_nodes@, c)].value == Some(c),
        forall|u: Seq<char>|
            #[trigger] pnew.child_nodes@[find_child(pold.child_nodes@, c)].accepts(u) == (
            pold.child_nodes@[find_child(pold.child_nodes@, c)].accepts(u) && u != wrest),
        forall|u: Seq<char>|
            #[trigger] pnew.child_nodes@[find_child(pold.child_nodes@, c)].reaches(u)
                == pold.child_nodes@[find_child(pold.child_nodes@, c)].reaches(u),
    ensures
        forall|u: Seq<char>|
            #[trigger] pnew.accepts(u) == (pold.accepts(u) && u != seq![c] + wrest),
        forall|u: Seq<char>| #[trigger] pnew.reaches(u) == pold.reaches(u),
{
    let j = find_child(pold.child_nodes@, c);
    let w = seq![c] + wrest;
    lemma_find_child_props(pold.child_nodes@, c);
    assert(pnew.child_nodes@ =~= pold.child_nodes@.update(j, pnew.child_nodes@[j]));
    assert forall|d: char|
        find_child(pnew.child_nodes@, d) == find_child(pold.child_nodes@, d) by {
        lemma_find_child_update(pold.child_nodes@, j, pnew.child_nodes@[j], d);
    }
    assert forall|u: Seq<char>|
        #[trigger] pnew.accepts(u) == (pold.accepts(u) && u != w) by {
        if u.len() == 0 {
            assert(u != w);
        } else {
            let d = u[0];
            if d == c {
                assert(pnew.child(c) == pnew.child_nodes@[j]);
                assert(pold.child(c) == pold.child_nodes@[j]);
                assert(pnew.accepts(u) == (pnew.has_child(c) && pnew.child_nodes@[j].accepts(
                    u.skip(1),
                )));
                assert(pold.accepts(u) == (pold.has_child(c) && pold.child_nodes@[j].accepts(
                    u.skip(1),
                )));
                assert((u == w) == (u.skip(1) == wrest)) by {
                    if u.skip(1) == wrest {
                        assert(u =~= w);
                    }
                    if u == w {
                        assert(u.skip(1) =~= wrest);
                    }
                }
            } else {
                assert(u != w) by {
                    assert(w[0] == c);
                }
                lemma_find_child_props(pold.child_nodes@, d);
                if find_child(pold.child_nodes@, d) >= 0 {
                    let k = find_child(pold.child_nodes@, d);
                    assert(k != j);
                    assert(pnew.child(d) == pold.child(d));
                }
            }
        }
    }
    assert forall|u: Seq<char>| #[trigger] pnew.reaches(u) == pold.reaches(u) by {
        if u.len() == 0 {
        } else {
            let d = u[0];
            if d == c {
                assert(pnew.child(c) == pnew.child_nodes@[j]);
                assert(pold.child(c) == pold.child_nodes@[j]);
                assert(pnew.reaches(u) == (pnew.has_child(c) && pnew.child_nodes@[j].reaches(
                    u.skip(1),
                )));
                assert(pold.reaches(u) == (pold.has_child(c) && pold.child_nodes@[j].reaches(
                    u.skip(1),
                )));
            } else {
                lemma_find_child_props(pold.child_nodes@, d);
                if find_child(pold.child_nodes@, d) >= 0 {
                    let k = find_child(pold.child_nodes@, d);
                    assert(k != j);
                    assert(pnew.child(d) == pold.child(d));
                }
            }
        }
    }
}

impl TrieNode {
    /// Walk `string_val`'s path and clear the terminal flag at its end
    /// (the node itself for the empty word); count 1 exactly when the
    /// whole path exists, terminal or not. Nodes are never pruned.
    pub fn delete(&mut self, string_val: &str) -> (r: usize)
        ensures
            final(self).value == old(self).value,
            string_val@.len() > 0 ==> final(self).final_state == old(self).final_state,
            forall|u: Seq<char>|
                #[trigger] final(self).accepts(u) == (old(self).accepts(u) && u != string_val@),
            forall|u: Seq<char>| #[trigger] final(self).reaches(u) == old(self).reaches(u),
            r == (if old(self).reaches(string_val@) {
                1int
            } else {
                0int
            }),
    {
        let chars = chars_of(string_val);
        if chars.len() == 0 {
            let ghost pold = *self;
            self.final_state = false;
            proof {
                assert forall|u: Seq<char>|
                    #[trigger] self.accepts(u) == (pold.accepts(u) && u != string_val@) by {
                    if u.len() == 0 {
                        assert(u =~= string_val@);
                        assert(!self.accepts(u));
                    } else {
                        assert(self.accepts(u) == (self.has_child(u[0]) && self.child(u[0]).accepts(
                            u.skip(1),
                        )));
                        assert(pold.accepts(u) == (pold.has_child(u[0]) && pold.child(u[0]).accepts(
                            u.skip(1),
                        )));
                    }
                }
                assert forall|u: Seq<char>| #[trigger] self.reaches(u) == pold.reaches(u) by {
                    if u.len() > 0 {
                        assert(self.reaches(u) == (self.has_child(u[0]) && self.child(u[0]).reaches(
                            u.skip(1),
                        )));
                        assert(pold.reaches(u) == (pold.has_child(u[0]) && pold.child(u[0]).reaches(
                            u.skip(1),
                        )));
                    }
                }
            }
            return 1;
        }
        proof {
            assert(chars@.skip(0) =~= string_val@);
        }
        self.delete_chars(&chars, 0)
    }

    /// Recursive worker for `delete`, acting on the suffix starting at `i`.
    fn delete_chars(&mut self, s: &Vec<char>, i: usize) -> (r: usize)
        requires
            i < s@.len(),
        ensures
            final(self).value == old(self).value,
            final(self).final_state == old(self).final_state,
            forall|u: Seq<char>|
                #[trigger] final(self).accepts(u) == (old(self).accepts(u) && u != s@.skip(
                    i as int,
                )),
            forall|u: Seq<char>| #[trigger] final(self).reaches(u) == old(self).reaches(u),
            r == (if old(self).reaches(s@.skip(i as int)) {
                1int
            } else {
                0int
            }),
        decreases s@.len() - i,
    {
        let ghost w = s@.skip(i as int);
        let ghost wrest = s@.skip(i + 1);
        let c = s[i];
        proof {
            assert(w.len() > 0 && w[0] == c);
            assert(w.skip(1) =~= wrest);
            assert(w =~= seq![c] + wrest);
        }
        let n = s.len();
        match self.find_child_exec(c) {
            None => {
                proof {
                    assert(!old(self).has_child(c));
                    assert(!old(self).accepts(w));
                    assert(!old(self).reaches(w));
                    assert forall|u: Seq<char>|
                        #[trigger] self.accepts(u) == (old(self).accepts(u) && u != w) by {
                        if u == w {
                            assert(!self.accepts(u));
                        }
                    }
                }
                0
            },
            Some(j) => {
                if i + 1 == n {
                    let ghost pold = *self;
                    let was = self.child_nodes[j].final_state;
                    self.child_nodes[j].final_state = false;
                    proof {
                        lemma_find_child_props(pold.child_nodes@, c);
                        let chold = pold.child_nodes@[j as int];
                        let chnew = self.child_nodes@[j as int];
                        assert(chnew.value == chold.value);
                        assert(chnew.child_nodes@ == chold.child_nodes@);
                        assert(wrest =~= Seq::<char>::empty());
                        assert forall|u: Seq<char>|
                            #[trigger] chnew.accepts(u) == (chold.accepts(u) && u != wrest) by {
                            if u.len() == 0 {
                                assert(u =~= wrest);
                                assert(!chnew.accepts(u));
                            } else {
                                assert(chnew.accepts(u) == (chnew.has_child(u[0]) && chnew.child(
                                    u[0],
                                ).accepts(u.skip(1))));
                                assert(chold.accepts(u) == (chold.has_child(u[0]) && chold.child(
                                    u[0],
                                ).accepts(u.skip(1))));
                            }
                        }
                        assert forall|u: Seq<char>|
                            #[trigger] chnew.reaches(u) == chold.reaches(u) by {
                            if u.len() == 0 {
                            } else {
                                assert(chnew.reaches(u) == (chnew.has_child(u[0]) && chnew.child(
                                    u[0],
                                ).reaches(u.skip(1))));
                                assert(chold.reaches(u) == (chold.has_child(u[0]) && chold.child(
                                    u[0],
                                ).reaches(u.skip(1))));
                            }
                        }
                        lemma_lift_update_delete(pold, *self, c, wrest);
                        assert(pold.child(c) == chold);
                        assert(pold.reaches(w) == chold.reaches(wrest));
                        assert(wrest.len() == 0 && chold.reaches(wrest));
                    }
                    1
                } else {
                    let ghost pold = *self;
                    proof {
                        lemma_find_child_props(pold.child_nodes@, c);
                    }
                    let r = self.child_nodes[j].delete_chars(s, i + 1);
                    proof {
                        lemma_lift_update_delete(pold, *self, c, wrest);
                        assert(pold.child(c) == pold.child_nodes@[j as int]);
                        assert(pold.reaches(w) == pold.child_nodes@[j as int].reaches(wrest));
                    }
                    r
                }
            },
        }
    }

    /// Walk or create the path of `string_val`, one node per code point,
    /// and mark the final node terminal; count 1 exactly when the final
    /// node was newly created, that is when the whole path did not exist
    /// before. The empty word is a no-op.
    pub fn insert(&mut self, string_val: &str) -> (r: usize)
        ensures
            final(self).value == old(self).value,
            final(self).final_state == old(self).final_state,
            string_val@.len() == 0 ==> *final(self) == *old(self) && r == 0,
            string_val@.len() > 0 ==> forall|u: Seq<char>|
                #[trigger] final(self).accepts(u) == (old(self).accepts(u) || u == string_val@),
            string_val@.len() > 0 ==> forall|u: Seq<char>|
                #[trigger] final(self).reaches(u) == (old(self).reaches(u) || is_prefix_of(
                    u,
                    string_val@,
                )),
            r == (if string_val@.len() > 0 && !old(self).reaches(string_val@) {
                1int
            } else {
                0int
            }),
    {
        let chars = chars_of(string_val);
        if chars.len() == 0 {
            return 0;
        }
        proof {
            assert(chars@.skip(0) =~= string_val@);
        }
        self.insert_chars(&chars, 0)
    }

    /// Recursive worker for `insert`, acting on the suffix starting at `i`.
    fn insert_chars(&mut self, s: &Vec<char>, i: usize) -> (r: usize)
        requires
            i < s@.len(),
        ensures
            final(self).value == old(self).value,
            final(self).final_state == old(self).final_state,
            forall|u: Seq<char>|
                #[trigger] final(self).accepts(u) == (old(self).accepts(u) || u == s@.skip(
                    i as int,
                )),
            forall|u: Seq<char>|
                #[trigger] final(self).reaches(u) == (old(self).reaches(u) || is_prefix_of(
                    u,
                    s@.skip(i as int),
                )),
            r == (if !old(self).reaches(s@.skip(i as int)) {
                1int
            } else {
                0int
            }),
        decreases s@.len() - i,
    {
        let ghost w = s@.skip(i as int);
        let ghost wrest = s@.skip(i + 1);
        let c = s[i];
        proof {
            assert(w.len() > 0 && w[0] == c);
            assert(w.skip(1) =~= wrest);
            assert(w =~= seq![c] + wrest);
        }
        let n = s.len();
        let last = i + 1 == n;
        match self.find_child_exec(c) {
            Some(j) => {
                if last {
                    let ghost pold = *self;
                    let was = self.child_nodes[j].final_state;
                    self.child_nodes[j].final_state = true;
                    proof {
                        lemma_find_child_props(pold.child_nodes@, c);
                        let chold = pold.child_nodes@[j as int];
                        let chnew = self.child_nodes@[j as int];
                        assert(chnew.value == chold.value);
                        assert(chnew.child_nodes@ == chold.child_nodes@);
                        assert(wrest =~= Seq::<char>::empty());
                        assert forall|u: Seq<char>|
                            #[trigger] chnew.accepts(u) == (chold.accepts(u) || u == wrest) by {
                            if u.len() == 0 {
                                assert(u =~= wrest);
                                assert(chnew.accepts(u));
                            } else {
                                assert(chnew.accepts(u) == (chnew.has_child(u[0]) && chnew.child(
                                    u[0],
                                ).accepts(u.skip(1))));
                                assert(chold.accepts(u) == (chold.has_child(u[0]) && chold.child(
                                    u[0],
                                ).accepts(u.skip(1))));
                            }
                        }
                        assert forall|u: Seq<char>|
                            #[trigger] chnew.reaches(u) == (chold.reaches(u) || is_prefix_of(
                                u,
                                wrest,
                            )) by {
                            if u.len() == 0 {
                            } else {
                                assert(!is_prefix_of(u, wrest));
                                assert(chnew.reaches(u) == (chnew.has_child(u[0]) && chnew.child(
                                    u[0],
                                ).reaches(u.skip(1))));
                                assert(chold.reaches(u) == (chold.has_child(u[0]) && chold.child(
                                    u[0],
                                ).reaches(u.skip(1))));
                            }
                        }
                        lemma_lift_update(pold, *self, c, wrest);
                        assert(pold.child(c) == chold);
                        assert(pold.reaches(w) == chold.reaches(wrest));
                        assert(wrest.len() == 0 && chold.reaches(wrest));
                    }
                    0
                } else {
                    let ghost pold = *self;
                    proof {
                        lemma_find_child_props(pold.child_nodes@, c);
                    }
                    let r = self.child_nodes[j].insert_chars(s, i + 1);
                    proof {
                        lemma_lift_update(pold, *self, c, wrest);
                        assert(pold.child(c) == pold.child_nodes@[j as int]);
                        assert(pold.reaches(w) == pold.child_nodes@[j as int].reaches(wrest));
                    }
                    r
                }
            },
            None => {
                let ghost pold = *self;
                let node = TrieNode::new(c, last);
                self.child_nodes.push(node);
                let j = self.child_nodes.len() - 1;
                if last {
                    proof {
                        let x = self.child_nodes@.last();
                        assert(wrest =~= Seq::<char>::empty());
                        assert forall|u: Seq<char>| #[trigger] x.accepts(u) == (u == wrest) by {
                            if u.len() == 0 {
                                assert(u =~= wrest);
                            } else {
                                assert(find_child(x.child_nodes@, u[0]) == -1);
                            }
                        }
                        assert forall|u: Seq<char>|
                            #[trigger] x.reaches(u) == is_prefix_of(u, wrest) by {
                            if u.len() == 0 {
                                assert(u =~= wrest.take(0));
                            } else {
                                assert(find_child(x.child_nodes@, u[0]) == -1);
                                assert(!is_prefix_of(u, wrest));
                            }
                        }
                        lemma_lift_push(pold, *self, c, wrest);
                        assert(!pold.has_child(c));
                        assert(!pold.reaches(w));
                    }
                    1
                } else {
                    let ghost pmid = *self;
                    let ghost fresh = self.child_nodes@.last();
                    let r = self.child_nodes[j].insert_chars(s, i + 1);
                    proof {
                        assert(r == 1) by {
                            assert(fresh.child_nodes@.len() == 0);
                            assert(wrest.len() > 0);
                            assert(find_child(fresh.child_nodes@, wrest[0]) == -1);
                            assert(!fresh.reaches(wrest));
                        }
                        let x = self.child_nodes@[j as int];
                        assert forall|u: Seq<char>| #[trigger] x.accepts(u) == (u == wrest) by {
                            assert(x.accepts(u) == (fresh.accepts(u) || u == wrest));
                            if x.accepts(u) != (u == wrest) {
                                assert(fresh.accepts(u));
                                if u.len() == 0 {
                                } else {
                                    assert(find_child(fresh.child_nodes@, u[0]) == -1);
                                }
                            }
                        }
                        assert forall|u: Seq<char>|
                            #[trigger] x.reaches(u) == is_prefix_of(u, wrest) by {
                            assert(x.reaches(u) == (fresh.reaches(u) || is_prefix_of(u, wrest)));
                            if u.len() == 0 {
                                assert(u =~= wrest.take(0));
                            } else {
                                assert(find_child(fresh.child_nodes@, u[0]) == -1);
                                assert(!fresh.reaches(u));
                            }
                        }
                        assert(self.child_nodes@ =~= pold.child_nodes@.push(x)) by {
                            assert(pmid.child_nodes@ == pold.child_nodes@.push(fresh));
                            assert(forall|k: int|
                                0 <= k < j ==> self.child_nodes@[k] == pmid.child_nodes@[k]);
                        }
                        assert(self.child_nodes@.last() == x);
                        assert(x.value == Some(c));
                        lemma_lift_push(pold, *self, c, wrest);
                        assert(!pold.has_child(c));
                        assert(!pold.reaches(w));
                    }
                    r
                }
            },
        }
    }
}

/// The window word of `d` characters starting at `offset`.
pub open spec fn word_at(text: Seq<char>, offset: int, d: int) -> Seq<char> {
    text.subrange(offset, offset + d)
}

/// What each returned hit of a lookup at `offset` within `length` means:
/// it starts at `offset`, is non-empty and within the window, its path
/// exists in the trie, its MATCH bit says exactly that the covered word is
/// in the dictionary, and its PREFIX bit says exactly that the node it ends
/// at has at least one child.
pub open spec fn hit_ok(root: TrieNode, text: Seq<char>, offset: int, length: int, h: Hit) -> bool {
    &&& h.sbegin() == offset
    &&& offset < h.send() <= offset + length
    &&& root.reaches(word_at(text, offset, h.send() - offset))
    &&& h.is_match_spec() == root.accepts(word_at(text, offset, h.send() - offset))
    &&& h.is_prefix_spec() == (root.node_at(
        word_at(text, offset, h.send() - offset),
    ).child_nodes@.len() > 0)
}

/// Completeness of a lookup: a MATCH hit of `d` characters is returned
/// exactly when the window word of `d` characters is in the dictionary.
pub open spec fn match_complete(
    root: TrieNode,
    text: Seq<char>,
    offset: int,
    length: int,
    hits: Seq<Hit>,
) -> bool {
    forall|d: int|
        1 <= d <= length ==> (#[trigger] root.accepts(word_at(text, offset, d)) <==> exists|i: int|
            0 <= i < hits.len() && hits[i].send() == offset + d && hits[i].is_match_spec())
}

/// A word is accepted exactly when its path exists and ends terminal.
pub proof fn lemma_accepts_reaches_final(t: TrieNode, w: Seq<char>)
    ensures
        t.accepts(w) == (t.reaches(w) && t.node_at(w).final_state),
    decreases w.len(),
{
    if w.len() == 0 {
    } else {
        if t.has_child(w[0]) {
            lemma_accepts_reaches_final(t.child(w[0]), w.skip(1));
        }
    }
}

/// Extending a path by one character: the longer path exists exactly when
/// the shorter one does and its end node has the child.
pub proof fn lemma_reaches_snoc(t: TrieNode, w: Seq<char>, c: char)
    ensures
        t.reaches(w.push(c)) == (t.reaches(w) && t.node_at(w).has_child(c)),
        t.reaches(w) && t.node_at(w).has_child(c) ==> t.node_at(w.push(c)) == t.node_at(w).child(
            c,
        ),
    decreases w.len(),
{
    let wc = w.push(c);
    if w.len() == 0 {
        assert(wc.len() == 1 && wc[0] == c);
        assert(wc.skip(1) =~= Seq::<char>::empty());
        assert(t.node_at(w) == t);
        assert(t.reaches(w));
        if t.has_child(c) {
            assert(t.child(c).reaches(wc.skip(1)));
            assert(t.child(c).node_at(wc.skip(1)) == t.child(c));
            assert(t.reaches(wc));
            assert(t.node_at(wc) == t.child(c));
        } else {
            assert(!t.reaches(wc));
        }
    } else {
        assert(wc[0] == w[0]);
        assert(wc.skip(1) =~= w.skip(1).push(c));
        if t.has_child(w[0]) {
            lemma_reaches_snoc(t.child(w[0]), w.skip(1), c);
            assert(t.reaches(wc) == (t.has_child(wc[0]) && t.child(wc[0]).reaches(wc.skip(1))));
            assert(t.node_at(w) == t.child(w[0]).node_at(w.skip(1)));
            if t.reaches(w) && t.node_at(w).has_child(c) {
                assert(t.node_at(wc) == t.child(wc[0]).node_at(wc.skip(1)));
            }
        } else {
            assert(!t.reaches(wc));
            assert(!t.reaches(w));
        }
    }
}

/// A prefix of an existing path also exists.
pub proof fn lemma_reaches_take(t: TrieNode, w: Seq<char>, m: int)
    requires
        t.reaches(w),
        0 <= m <= w.len(),
    ensures
        t.reaches(w.take(m)),
    decreases w.len(),
{
    if m == 0 {
        assert(w.take(0) =~= Seq::<char>::empty());
    } else {
        assert(w.take(m)[0] == w[0]);
        assert(w.take(m).skip(1) =~= w.skip(1).take(m - 1));
        lemma_reaches_take(t.child(w[0]), w.skip(1), m - 1);
    }
}

impl TrieNode {
    /// All hits of the dictionary against the window of `length`
    /// characters starting at `offset`: one MATCH hit for each dictionary
    /// word that starts the window, and a final hit at the deepest node
    /// reached carrying the MATCH and PREFIX state there. A window past the
    /// end of the text yields no hits.
    pub fn match_with_offset(&self, string_val: &str, offset: usize, length: usize) -> (hits: Vec<
        Hit,
    >)
        requires
            !self.final_state,
        ensures
            offset + length > string_val@.len() ==> hits@.len() == 0,
            offset + length <= string_val@.len() ==> forall|i: int|
                0 <= i < hits@.len() ==> hit_ok(
                    *self,
                    string_val@,
                    offset as int,
                    length as int,
                    #[trigger] hits@[i],
                ),
            offset + length <= string_val@.len() ==> match_complete(
                *self,
                string_val@,
                offset as int,
                length as int,
                hits@,
            ),
            forall|i: int, j: int|
                0 <= i < j < hits@.len() ==> #[trigger] hits@[i].send() < #[trigger] hits@[j].send(),
            offset + length <= string_val@.len() ==> ((hits@.len() > 0) == (length >= 1
                && self.reaches(word_at(string_val@, offset as int, 1)))),
            offset + length <= string_val@.len() && hits@.len() > 0 ==> {
                let kk = hits@.last().send() - offset;
                &&& self.reaches(word_at(string_val@, offset as int, kk))
                &&& (kk == length || !self.reaches(word_at(string_val@, offset as int, kk + 1)))
            },
    {
        let chars = chars_of(string_val);
        self.match_chars(&chars, offset, length)
    }

    /// `match_with_offset` on an already-converted character buffer.
    pub fn match_chars(&self, chars: &Vec<char>, offset: usize, length: usize) -> (hits: Vec<Hit>)
        requires
            !self.final_state,
        ensures
            offset + length > chars@.len() ==> hits@.len() == 0,
            offset + length <= chars@.len() ==> forall|i: int|
                0 <= i < hits@.len() ==> hit_ok(
                    *self,
                    chars@,
                    offset as int,
                    length as int,
                    #[trigger] hits@[i],
                ),
            offset + length <= chars@.len() ==> match_complete(
                *self,
                chars@,
                offset as int,
                length as int,
                hits@,
            ),
            forall|i: int, j: int|
                0 <= i < j < hits@.len() ==> #[trigger] hits@[i].send() < #[trigger] hits@[j].send(),
            offset + length <= chars@.len() ==> ((hits@.len() > 0) == (length >= 1
                && self.reaches(word_at(chars@, offset as int, 1)))),
            offset + length <= chars@.len() && hits@.len() > 0 ==> {
                let kk = hits@.last().send() - offset;
                &&& self.reaches(word_at(chars@, offset as int, kk))
                &&& (kk == length || !self.reaches(word_at(chars@, offset as int, kk + 1)))
            },
    {
        let mut hits: Vec<Hit> = Vec::new();
        let n = chars.len();
        if length > n || offset > n - length {
            return hits;
        }
        let ghost text = chars@;
        let mut cur: &TrieNode = self;
        let mut d: usize = 0;
        let mut halted = false;
        proof {
            assert(word_at(text, offset as int, 0) =~= Seq::<char>::empty());
        }
        while d < length && !halted
            invariant
                d <= length,
                offset + length <= n,
                n == text.len(),
                chars@ == text,
                !self.final_state,
                self.reaches(word_at(text, offset as int, d as int)),
                *cur == self.node_at(word_at(text, offset as int, d as int)),
                halted ==> d < length && !self.reaches(word_at(text, offset as int, d + 1)),
                forall|i: int|
                    0 <= i < hits@.len() ==> hit_ok(
                        *self,
                        text,
                        offset as int,
                        length as int,
                        #[trigger] hits@[i],
                    ),
                forall|i: int| 0 <= i < hits@.len() ==> #[trigger] hits@[i].send() < offset + d,
                forall|i: int, j: int|
                    0 <= i < j < hits@.len() ==> #[trigger] hits@[i].send() < #[trigger] hits@[j].send(),
                hits@.len() > 0 ==> d >= 1,
                forall|dd: int|
                    1 <= dd < d ==> (#[trigger] self.accepts(word_at(text, offset as int, dd))
                        <==> exists|i: int|
                        0 <= i < hits@.len() && hits@[i].send() == offset + dd
                            && hits@[i].is_match_spec()),
            decreases length - d, (if halted {
                0int
            } else {
                1int
            }),
        {
            let ghost w = word_at(text, offset as int, d as int);
            let c = chars[offset + d];
            proof {
                assert(w.push(c) =~= word_at(text, offset as int, d + 1));
            }
            match cur.find_child_exec(c) {
                None => {
                    proof {
                        lemma_reaches_snoc(*self, w, c);
                    }
                    halted = true;
                },
                Some(j) => {
                    proof {
                        lemma_find_child_props(cur.child_nodes@, c);
                        lemma_reaches_snoc(*self, w, c);
                        lemma_accepts_reaches_final(*self, w);
                    }
                    if d >= 1 && cur.is_final_state() {
                        let mut hit = Hit::new_with_pos(offset..offset + d);
                        hit.set_match();
                        hit.set_prefix();
                        proof {
                            assert(self.accepts(w));
                            assert(hit_ok(*self, text, offset as int, length as int, hit));
                        }
                        let ghost hp = hits@;
                        hits.push(hit);
                        proof {
                            assert(hits@ == hp.push(hit));
                            assert forall|dd: int| 1 <= dd < d + 1 implies (
                            #[trigger] self.accepts(word_at(text, offset as int, dd))
                                <==> exists|i: int|
                                0 <= i < hits@.len() && hits@[i].send() == offset + dd
                                    && hits@[i].is_match_spec()) by {
                                if dd == d {
                                    assert(hits@[hp.len() as int].send() == offset + dd
                                        && hits@[hp.len() as int].is_match_spec());
                                } else {
                                    if self.accepts(word_at(text, offset as int, dd)) {
                                        let i = choose|i: int|
                                            0 <= i < hp.len() && hp[i].send() == offset + dd
                                                && hp[i].is_match_spec();
                                        assert(hits@[i].send() == offset + dd
                                            && hits@[i].is_match_spec());
                                    } else {
                                        assert forall|i: int| 0 <= i < hits@.len() implies !(
                                        #[trigger] hits@[i].send() == offset + dd
                                            && hits@[i].is_match_spec()) by {
                                            if i < hp.len() {
                                                assert(hits@[i] == hp[i]);
                                            }
                                        }
                                    }
                                }
                            }
                        }
                    } else {
                        proof {
                            if d >= 1 {
                                assert(!self.accepts(w));
                            }
                        }
                    }
                    cur = &cur.child_nodes[j];
                    d += 1;
                },
            }
        }
        if d >= 1 {
            let ghost w = word_at(text, offset as int, d as int);
            let mut hit = Hit::new_with_pos(offset..offset + d);
            if cur.is_final_state() {
                hit.set_match();
            }
            if cur.has_childs() {
                hit.set_prefix();
            }
            proof {
                lemma_accepts_reaches_final(*self, w);
                assert(hit_ok(*self, text, offset as int, length as int, hit));
            }
            let ghost hp = hits@;
            hits.push(hit);
            proof {
                assert(hits@ == hp.push(hit));
                let m = hp.len() as int;
                assert forall|dd: int| 1 <= dd <= length implies (#[trigger] self.accepts(
                    word_at(text, offset as int, dd),
                ) <==> exists|i: int|
                    0 <= i < hits@.len() && hits@[i].send() == offset + dd
                        && hits@[i].is_match_spec()) by {
                    let wd = word_at(text, offset as int, dd);
                    if dd < d {
                        if self.accepts(wd) {
                            let i = choose|i: int|
                                0 <= i < hp.len() && hp[i].send() == offset + dd
                                    && hp[i].is_match_spec();
                            assert(hits@[i].send() == offset + dd && hits@[i].is_match_spec());
                        } else {
                            assert forall|i: int| 0 <= i < hits@.len() implies !(
                            #[trigger] hits@[i].send() == offset + dd && hits@[i].is_match_spec())
                                by {
                                if i < m {
                                    assert(hits@[i] == hp[i]);
                                } else {
                                    assert(hits@[i].send() == offset + d);
                                }
                            }
                        }
                    } else if dd == d {
                        assert(hits@[m].send() == offset + dd);
                        assert(hits@[m].is_match_spec() == self.accepts(wd));
                        if !self.accepts(wd) {
                            assert forall|i: int| 0 <= i < hits@.len() implies !(
                            #[trigger] hits@[i].send() == offset + dd && hits@[i].is_match_spec())
                                by {
                                if i < m {
                                    assert(hits@[i] == hp[i]);
                                    assert(hp[i].send() < offset + d);
                                }
                            }
                        }
                    } else {
                        assert(!self.accepts(wd)) by {
                            if self.reaches(wd) {
                                assert(wd.take(d + 1) =~= word_at(text, offset as int, d + 1));
                                lemma_reaches_take(*self, wd, d + 1);
                            }
                            lemma_accepts_reaches_final(*self, wd);
                        }
                        assert forall|i: int| 0 <= i < hits@.len() implies !(#[trigger] hits@[i].send()
                            == offset + dd && hits@[i].is_match_spec()) by {
                            if i < m {
                                assert(hits@[i] == hp[i]);
                                assert(hp[i].send() < offset + d);
                            } else {
                                assert(hits@[i].send() == offset + d);
                            }
                        }
                    }
                }
                assert forall|i: int, j: int| 0 <= i < j < hits@.len() implies hits@[i].send()
                    < hits@[j].send() by {
                    if j < m {
                        assert(hits@[i] == hp[i] && hits@[j] == hp[j]);
                    } else {
                        if i < m {
                            assert(hits@[i] == hp[i]);
                            assert(hp[i].send() < offset + d);
                        }
                        assert(hits@[j].send() == offset + d);
                    }
                }
                assert(hits@.last().send() == offset + d);
                assert(self.reaches(w));
                assert(word_at(text, offset as int, d as int).take(1) =~= word_at(
                    text,
                    offset as int,
                    1,
                ));
                lemma_reaches_take(*self, w, 1);
            }
        } else {
            proof {
                assert(hits@.len() == 0);
                assert forall|dd: int| 1 <= dd <= length implies !(#[trigger] self.accepts(
                    word_at(text, offset as int, dd),
                )) by {
                    let wd = word_at(text, offset as int, dd);
                    if self.reaches(wd) {
                        assert(wd.take(1) =~= word_at(text, offset as int, 1));
                        lemma_reaches_take(*self, wd, 1);
                    }
                    lemma_accepts_reaches_final(*self, wd);
                }
                if length >= 1 {
                    assert(word_at(text, offset as int, 0).push(text[offset as int]) =~= word_at(
                        text,
                        offset as int,
                        1,
                    ));
                    assert(!self.reaches(word_at(text, offset as int, 1)));
                }
            }
        }
        hits
    }
}

/// A lookup over exactly a dictionary word yields a MATCH hit covering
/// it: from any hit list satisfying the lookup contracts over a text that
/// is itself a word of the trie, a hit marked MATCH spanning the whole
/// text can be picked. Together with the insert contract this says that
/// building a trie from a word list and then matching any listed word
/// finds it.
pub proof fn lemma_match_word_finds_word(t: Trie, text: Seq<char>, hits: Seq<Hit>)
    requires
        t.contains_word(text),
        text.len() > 0,
        forall|i: int|
            0 <= i < hits.len() ==> hit_ok(t.root, text, 0, text.len() as int, #[trigger] hits[i]),
        match_complete(t.root, text, 0, text.len() as int, hits),
    ensures
        exists|i: int|
            0 <= i < hits.len() && (#[trigger] hits[i]).is_match_spec() && hits[i].sbegin() == 0
                && hits[i].send() == text.len(),
{
    assert(word_at(text, 0, text.len() as int) =~= text);
    assert(t.root.accepts(word_at(text, 0, text.len() as int)));
    let i = choose|i: int|
        0 <= i < hits.len() && hits[i].send() == text.len() && hits[i].is_match_spec();
    assert(hits[i].sbegin() == 0);
}

/// Inserting a word and then deleting it leaves a dictionary without the
/// word, whatever it held before: so `exist` returns false afterwards.
/// The two hypotheses are exactly what `Trie::insert` and `Trie::delete`
/// ensure for a non-empty word.
pub proof fn lemma_insert_then_delete_removes(t0: Trie, t1: Trie, t2: Trie, w: Seq<char>)
    requires
        w.len() > 0,
        forall|u: Seq<char>| #[trigger] t1.contains_word(u) == (t0.contains_word(u) || u == w),
        forall|u: Seq<char>| #[trigger] t2.contains_word(u) == (t1.contains_word(u) && u != w),
    ensures
        !t2.contains_word(w),
        forall|u: Seq<char>| u != w ==> #[trigger] t2.contains_word(u) == t0.contains_word(u),
{
}

/// The dictionary trie: a root node and a count of the words inserted and
/// not yet deleted (clipped at the ends of the machine range).
#[derive(Debug)]
pub struct Trie {
    pub root: TrieNode,
    pub size: usize,
}

impl Trie {
    /// The root carries no value and is never terminal.
    pub open spec fn wf(&self) -> bool {
        self.root.value is None && !self.root.final_state
    }

    /// The word `w` is in the dictionary.
    pub open spec fn contains_word(&self, w: Seq<char>) -> bool {
        self.root.accepts(w)
    }

    /// The path of `w` exists in the trie, terminal or not.
    pub open spec fn has_path(&self, w: Seq<char>) -> bool {
        self.root.reaches(w)
    }

    /// An empty dictionary.
    pub fn new() -> (r: Self)
        ensures
            r.wf(),
            r.size == 0,
            forall|u: Seq<char>| !r.contains_word(u),
            forall|u: Seq<char>| u.len() > 0 ==> !r.has_path(u),
    {
        let r = Trie { root: TrieNode::new_root(), size: 0 };
        proof {
            assert forall|u: Seq<char>| !r.contains_word(u) by {
                if u.len() > 0 {
                    assert(find_child(r.root.child_nodes@, u[0]) == -1);
                }
            }
            assert forall|u: Seq<char>| u.len() > 0 implies !r.has_path(u) by {
                assert(find_child(r.root.child_nodes@, u[0]) == -1);
            }
        }
        r
    }

    /// Insert `string_val`: afterwards the dictionary holds exactly the old
    /// words plus this one; inserting the empty word changes nothing. The
    /// size counter grows by one exactly when the word's final node was
    /// newly created, that is when the word's path did not exist before
    /// (clipped at the top of the machine range).
    pub fn insert(&mut self, string_val: &str) -> (r: bool)
        requires
            old(self).wf(),
        ensures
            r == true,
            final(self).wf(),
            string_val@.len() == 0 ==> *final(self) == *old(self),
            string_val@.len() > 0 ==> forall|u: Seq<char>|
                #[trigger] final(self).contains_word(u) == (old(self).contains_word(u) || u
                    == string_val@),
            string_val@.len() > 0 ==> forall|u: Seq<char>|
                #[trigger] final(self).has_path(u) == (old(self).has_path(u) || is_prefix_of(
                    u,
                    string_val@,
                )),
            final(self).size == (if string_val@.len() > 0 && !old(self).has_path(string_val@)
                && old(self).size < usize::MAX {
                old(self).size + 1
            } else {
                old(self).size as int
            }),
    {
        let insert_num = self.root.insert(string_val);
        if insert_num > 0 && self.size < usize::MAX {
            self.size = self.size + insert_num;
        }
        true
    }

    /// The number of distinct words inserted and not deleted.
    pub fn size(&self) -> (r: usize)
        ensures
            r == self.size,
    {
        self.size
    }

    /// Delete `string_val`: afterwards the dictionary holds exactly the old
    /// words except this one; paths are not pruned. The size counter
    /// shrinks by one exactly when the word's path exists, terminal or
    /// not; it stops at zero rather than wrapping below it, since the
    /// counter can reach zero while longer words still stand on the same
    /// path.
    pub fn delete(&mut self, string_val: &str) -> (r: bool)
        requires
            old(self).wf(),
        ensures
            r == true,
            final(self).wf(),
            forall|u: Seq<char>|
                #[trigger] final(self).contains_word(u) == (old(self).contains_word(u) && u
                    != string_val@),
            forall|u: Seq<char>| #[trigger] final(self).has_path(u) == old(self).has_path(u),
            final(self).size == (if old(self).has_path(string_val@) && old(self).size > 0 {
                old(self).size - 1
            } else {
                old(self).size as int
            }),
    {
        let del_num = self.root.delete(string_val);
        proof {
            if string_val@.len() == 0 {
                assert(string_val@ =~= Seq::<char>::empty());
                assert(!self.root.accepts(string_val@));
                assert(self.root.accepts(Seq::<char>::empty()) == self.root.final_state);
            }
        }
        if del_num > 0 && self.size > 0 {
            self.size = self.size - del_num;
        }
        true
    }

    /// Whether `string_val` is in the dictionary.
    pub fn exist(&self, string_val: &str) -> (r: bool)
        ensures
            r == self.contains_word(string_val@),
    {
        self.root.exist(string_val)
    }

    /// All hits of the dictionary against the whole of `string_val`.
    pub fn match_word(&self, string_val: &str) -> (hits: Vec<Hit>)
        requires
            self.wf(),
        ensures
            forall|i: int|
                0 <= i < hits@.len() ==> hit_ok(
                    self.root,
                    string_val@,
                    0,
                    string_val@.len() as int,
                    #[trigger] hits@[i],
                ),
            match_complete(self.root, string_val@, 0, string_val@.len() as int, hits@),
            forall|i: int, j: int|
                0 <= i < j < hits@.len() ==> #[trigger] hits@[i].send() < #[trigger] hits@[j].send(),
            (hits@.len() > 0) == (string_val@.len() >= 1 && self.root.reaches(
                word_at(string_val@, 0, 1),
            )),
            hits@.len() > 0 ==> {
                let kk = hits@.last().send();
                &&& self.root.reaches(word_at(string_val@, 0, kk))
                &&& (kk == string_val@.len() || !self.root.reaches(word_at(string_val@, 0, kk + 1)))
            },
    {
        let len = crate::char_util::utf8_len(string_val);
        self.root.match_with_offset(string_val, 0, len)
    }

    /// All hits of the dictionary against the window of `length` characters
    /// starting at `offset`.
    pub fn match_word_with_offset(&self, string_val: &str, offset: usize, length: usize) -> (hits:
        Vec<Hit>)
        requires
            self.wf(),
        ensures
            offset + length > string_val@.len() ==> hits@.len() == 0,
            offset + length <= string_val@.len() ==> forall|i: int|
                0 <= i < hits@.len() ==> hit_ok(
                    self.root,
                    string_val@,
                    offset as int,
                    length as int,
                    #[trigger] hits@[i],
                ),
            offset + length <= string_val@.len() ==> match_complete(
                self.root,
                string_val@,
                offset as int,
                length as int,
                hits@,
            ),
            forall|i: int, j: int|
                0 <= i < j < hits@.len() ==> #[trigger] hits@[i].send() < #[trigger] hits@[j].send(),
            offset + length <= string_val@.len() ==> ((hits@.len() > 0) == (length >= 1
                && self.root.reaches(word_at(string_val@, offset as int, 1)))),
            offset + length <= string_val@.len() && hits@.len() > 0 ==> {
                let kk = hits@.last().send() - offset;
                &&& self.root.reaches(word_at(string_val@, offset as int, kk))
                &&& (kk == length || !self.root.reaches(
                    word_at(string_val@, offset as int, kk + 1),
                ))
            },
    {
        self.root.match_with_offset(string_val, offset, length)
    }

    /// All hits against the window, on an already-converted character
    /// buffer.
    pub fn match_chars_with_offset(&self, chars: &Vec<char>, offset: usize, length: usize) -> (hits:
        Vec<Hit>)
        requires
            self.wf(),
        ensures
            offset + length > chars@.len() ==> hits@.len() == 0,
            offset + length <= chars@.len() ==> forall|i: int|
                0 <= i < hits@.len() ==> hit_ok(
                    self.root,
                    chars@,
                    offset as int,
                    length as int,
                    #[trigger] hits@[i],
                ),
            offset + length <= chars@.len() ==> match_complete(
                self.root,
                chars@,
                offset as int,
                length as int,
                hits@,
            ),
            forall|i: int, j: int|
                0 <= i < j < hits@.len() ==> #[trigger] hits@[i].send() < #[trigger] hits@[j].send(),
            offset + length <= chars@.len() ==> ((hits@.len() > 0) == (length >= 1
                && self.root.reaches(word_at(chars@, offset as int, 1)))),
            offset + length <= chars@.len() && hits@.len() > 0 ==> {
                let kk = hits@.last().send() - offset;
                &&& self.root.reaches(word_at(chars@, offset as int, kk))
                &&& (kk == length || !self.root.reaches(word_at(chars@, offset as int, kk + 1)))
            },
    {
        self.root.match_chars(chars, offset, length)
    }
}

} // verus!
