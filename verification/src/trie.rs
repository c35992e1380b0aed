//! The trie itself: nodes, the tree structure, and its operations.

use vstd::prelude::*;

use crate::order::lemma_eq_head_tail;
use crate::order::lemma_lex_lt_common_prefix;
use crate::order::lemma_lex_lt_proper_prefix;
use crate::order::lex_lt;
use crate::text::chars_to_string;
use crate::text::str_chars;

verus! {

/// One node of the trie. The path of edge labels from the root to a node
/// spells a sequence of characters; `is_word` marks that this sequence was
/// inserted as a complete word. Children are kept sorted by strictly
/// ascending character, so keys are unique and enumeration is ordered.
pub struct TrieNode {
    is_word: bool,
    children: Vec<(char, TrieNode)>,
}

/// A trie: a character-keyed tree holding a set of inserted words.
/// Created empty; grows monotonically by insertion.
pub struct Trie {
    root: TrieNode,
}

/// The child labelled `c` in a list of children: the first entry whose
/// character equals `c`, if any.
spec fn lookup(children: Seq<(char, TrieNode)>, c: char) -> Option<TrieNode>
    decreases children.len(),
{
    if children.len() == 0 {
        None
    } else if children[0].0 == c {
        Some(children[0].1)
    } else {
        lookup(children.drop_first(), c)
    }
}

/// Children stand in strictly ascending order of their characters, compared
/// by code point; in particular no character repeats.
spec fn children_sorted(children: Seq<(char, TrieNode)>) -> bool {
    forall|k1: int, k2: int|
        0 <= k1 < k2 < children.len() ==> ((#[trigger] children[k1]).0 as u32)
            < ((#[trigger] children[k2]).0 as u32)
}

/// Entries before position `k` never match `c`, so the search for `c` may
/// as well start at `k`.
proof fn lemma_lookup_skip(children: Seq<(char, TrieNode)>, c: char, k: int)
    requires
        0 <= k <= children.len(),
        forall|j: int| 0 <= j < k ==> children[j].0 != c,
    ensures
        lookup(children, c) == lookup(children.skip(k), c),
    decreases k,
{
    if k > 0 {
        assert(children[0].0 != c);
        assert(forall|j: int|
            0 <= j < k - 1 ==> children.drop_first()[j] == children[j + 1]);
        lemma_lookup_skip(children.drop_first(), c, k - 1);
        assert(children.drop_first().skip(k - 1) =~= children.skip(k));
    } else {
        assert(children.skip(0) =~= children);
    }
}

/// The position of the first child labelled `c`, if one exists.
fn find_child(children: &Vec<(char, TrieNode)>, c: char) -> (r: Option<usize>)
    ensures
        match r {
            Some(j) => {
                &&& j < children@.len()
                &&& children@[j as int].0 == c
                &&& (forall|k: int| 0 <= k < j ==> children@[k].0 != c)
                &&& lookup(children@, c) == Some(children@[j as int].1)
            },
            None => {
                &&& (forall|k: int| 0 <= k < children@.len() ==> children@[k].0 != c)
                &&& lookup(children@, c) is None
            },
        },
{
    let n = children.len();
    let mut j: usize = 0;
    while j < n
        invariant
            j <= n,
            n == children@.len(),
            forall|k: int| 0 <= k < j ==> children@[k].0 != c,
        decreases n - j,
    {
        if children[j].0 == c {
            proof {
                lemma_lookup_skip(children@, c, j as int);
                assert(children@.skip(j as int)[0] == children@[j as int]);
            }
            return Some(j);
        }
        j += 1;
    }
    proof {
        lemma_lookup_skip(children@, c, n as int);
        assert(children@.skip(n as int) =~= Seq::<(char, TrieNode)>::empty());
    }
    None
}

/// A nonempty sequence is a prefix of a nonempty sequence exactly when the
/// heads agree and the tail is a prefix of the tail.
proof fn lemma_prefix_step(p: Seq<char>, e: Seq<char>)
    requires
        p.len() > 0,
        e.len() > 0,
    ensures
        p.is_prefix_of(e) <==> (p[0] == e[0] && p.drop_first().is_prefix_of(e.drop_first())),
{
    if p[0] == e[0] && p.drop_first().is_prefix_of(e.drop_first()) {
        assert forall|k: int| 0 <= k < p.len() implies p[k] == e.subrange(
            0,
            p.len() as int,
        )[k] by {
            if k > 0 {
                assert(p.drop_first()[k - 1] == p[k]);
                assert(p.drop_first()[k - 1] == e.drop_first().subrange(0, p.len() - 1)[k - 1]);
                assert(e.drop_first()[k - 1] == e[k]);
            }
        }
        assert(p =~= e.subrange(0, p.len() as int));
    }
    if p.is_prefix_of(e) {
        assert(p[0] == e.subrange(0, p.len() as int)[0]);
        assert forall|k: int| 0 <= k < p.len() - 1 implies p.drop_first()[k]
            == e.drop_first().subrange(0, p.len() - 1)[k] by {
            assert(p.drop_first()[k] == p[k + 1]);
            assert(p[k + 1] == e.subrange(0, p.len() as int)[k + 1]);
            assert(e.drop_first().subrange(0, p.len() - 1)[k] == e.drop_first()[k]);
            assert(e.drop_first()[k] == e[k + 1]);
        }
        assert(p.drop_first() =~= e.drop_first().subrange(0, p.len() - 1));
    }
}

/// Putting a new entry `(c, node)` at position `pos`, when no entry holds
/// `c`, makes `c` resolve to `node` and leaves every other character's
/// resolution unchanged.
proof fn lemma_lookup_insert(children: Seq<(char, TrieNode)>, pos: int, c: char, node: TrieNode)
    requires
        0 <= pos <= children.len(),
        forall|k: int| 0 <= k < children.len() ==> (#[trigger] children[k]).0 != c,
    ensures
        lookup(children.insert(pos, (c, node)), c) == Some(node),
        forall|x: char|
            x != c ==> lookup(children.insert(pos, (c, node)), x) == #[trigger] lookup(
                children,
                x,
            ),
    decreases pos,
{
    let cs = children.insert(pos, (c, node));
    if pos == 0 {
        assert(cs[0] == (c, node));
        assert(cs.drop_first() =~= children);
    } else {
        assert(cs[0] == children[0]);
        assert(children[0].0 != c);
        assert(forall|k: int|
            0 <= k < children.len() - 1 ==> (#[trigger] children.drop_first()[k]) == children[k
                + 1]);
        lemma_lookup_insert(children.drop_first(), pos - 1, c, node);
        assert(cs.drop_first() =~= children.drop_first().insert(pos - 1, (c, node)));
        assert forall|x: char| x != c implies lookup(cs, x) == #[trigger] lookup(children, x) by {
            if cs[0].0 != x {
                assert(lookup(cs, x) == lookup(cs.drop_first(), x));
                assert(lookup(children, x) == lookup(children.drop_first(), x));
            }
        }
    }
}

/// Replacing the subtree at position `j`, whose character `c` occurs nowhere
/// earlier, makes `c` resolve to the new subtree and leaves every other
/// character's resolution unchanged.
proof fn lemma_lookup_update(children: Seq<(char, TrieNode)>, j: int, node: TrieNode)
    requires
        0 <= j < children.len(),
        forall|k: int| 0 <= k < j ==> (#[trigger] children[k]).0 != children[j].0,
    ensures
        lookup(children.update(j, (children[j].0, node)), children[j].0) == Some(node),
        forall|x: char|
            x != children[j].0 ==> lookup(children.update(j, (children[j].0, node)), x)
                == #[trigger] lookup(children, x),
    decreases j,
{
    let c = children[j].0;
    let cs = children.update(j, (c, node));
    if j == 0 {
        assert(cs[0] == (c, node));
        assert(cs.drop_first() =~= children.drop_first());
        assert forall|x: char| x != c implies lookup(cs, x) == #[trigger] lookup(children, x) by {
            assert(lookup(cs, x) == lookup(cs.drop_first(), x));
            assert(lookup(children, x) == lookup(children.drop_first(), x));
        }
    } else {
        assert(cs[0] == children[0]);
        assert(children[0].0 != c);
        assert(forall|k: int|
            0 <= k < children.len() - 1 ==> (#[trigger] children.drop_first()[k]) == children[k
                + 1]);
        assert(children.drop_first()[j - 1] == children[j]);
        lemma_lookup_update(children.drop_first(), j - 1, node);
        assert(cs.drop_first() =~= children.drop_first().update(j - 1, (c, node)));
        assert forall|x: char| x != c implies lookup(cs, x) == #[trigger] lookup(children, x) by {
            if cs[0].0 != x {
                assert(lookup(cs, x) == lookup(cs.drop_first(), x));
                assert(lookup(children, x) == lookup(children.drop_first(), x));
            }
        }
    }
}

/// In a sorted children list every entry is found under its own character:
/// no earlier entry can hide it.
proof fn lemma_lookup_at_index(children: Seq<(char, TrieNode)>, j: int)
    requires
        children_sorted(children),
        0 <= j < children.len(),
    ensures
        lookup(children, children[j].0) == Some(children[j].1),
    decreases j,
{
    if j > 0 {
        assert((children[0].0 as u32) < (children[j].0 as u32));
        assert(children[0].0 != children[j].0);
        assert(forall|k: int|
            0 <= k < children.len() - 1 ==> (#[trigger] children.drop_first()[k]) == children[k
                + 1]);
        assert(children_sorted(children.drop_first()));
        lemma_lookup_at_index(children.drop_first(), j - 1);
        assert(children.drop_first()[j - 1] == children[j]);
    }
}

/// A character that resolves to a child occurs somewhere in the list.
proof fn lemma_lookup_some_index(children: Seq<(char, TrieNode)>, c: char)
    requires
        lookup(children, c) is Some,
    ensures
        exists|k: int| 0 <= k < children.len() && (#[trigger] children[k]).0 == c,
    decreases children.len(),
{
    if children[0].0 == c {
        assert(children[0].0 == c);
    } else {
        lemma_lookup_some_index(children.drop_first(), c);
        let k0 = choose|k: int|
            0 <= k < children.drop_first().len() && (#[trigger] children.drop_first()[k]).0 == c;
        assert(children[k0 + 1] == children.drop_first()[k0]);
        assert(children[k0 + 1].0 == c);
    }
}

/// The position at which a new child labelled `c` keeps the children sorted:
/// everything before it is smaller, everything from it on is larger.
fn insert_position(children: &Vec<(char, TrieNode)>, c: char) -> (pos: usize)
    requires
        children_sorted(children@),
        forall|k: int| 0 <= k < children@.len() ==> (#[trigger] children@[k]).0 != c,
    ensures
        pos <= children@.len(),
        forall|k: int| 0 <= k < pos ==> ((#[trigger] children@[k]).0 as u32) < (c as u32),
        forall|k: int|
            pos <= k < children@.len() ==> (c as u32) < ((#[trigger] children@[k]).0 as u32),
{
    let n = children.len();
    let mut pos: usize = 0;
    while pos < n && (children[pos].0 as u32) < (c as u32)
        invariant
            pos <= n,
            n == children@.len(),
            children_sorted(children@),
            forall|k: int| 0 <= k < children@.len() ==> (#[trigger] children@[k]).0 != c,
            forall|k: int| 0 <= k < pos ==> ((#[trigger] children@[k]).0 as u32) < (c as u32),
        decreases n - pos,
    {
        pos += 1;
    }
    proof {
        if pos < n {
            let d = children@[pos as int].0;
            assert(d != c);
            vstd::utf8::char_u32_cast(d, d as u32);
            vstd::utf8::char_u32_cast(c, c as u32);
            assert((c as u32) < (d as u32));
        }
    }
    pos
}

impl TrieNode {
    /// The word `w` ends at a terminal node reached from this node.
    pub closed spec fn contains_word(self, w: Seq<char>) -> bool
        decreases w.len(),
    {
        if w.len() == 0 {
            self.is_word
        } else {
            match lookup(self.children@, w[0]) {
                Some(child) => child.contains_word(w.drop_first()),
                None => false,
            }
        }
    }

    /// The path `p` can be followed edge by edge from this node.
    pub closed spec fn has_path(self, p: Seq<char>) -> bool
        decreases p.len(),
    {
        if p.len() == 0 {
            true
        } else {
            match lookup(self.children@, p[0]) {
                Some(child) => child.has_path(p.drop_first()),
                None => false,
            }
        }
    }

    /// Some word ends at or below this node.
    pub closed spec fn nonempty(self) -> bool {
        exists|s: Seq<char>| self.contains_word(s)
    }

    /// Well-formedness: children are sorted by strictly ascending character
    /// (so characters are unique), every child is itself well-formed, and
    /// every child subtree holds at least one word. The last point holds of
    /// every trie built by insertion alone: each node was created on the way
    /// to some word's terminal node.
    pub closed spec fn wf(self) -> bool
        decreases self,
    {
        &&& children_sorted(self.children@)
        &&& (forall|k: int|
            0 <= k < self.children@.len() ==> (#[trigger] self.children@[k]).1.wf())
        &&& (forall|k: int|
            0 <= k < self.children@.len() ==> (#[trigger] self.children@[k]).1.nonempty())
    }

    /// A fresh node: not terminal, no children.
    pub fn new() -> (node: TrieNode)
        ensures
            node.wf(),
            forall|w: Seq<char>| !node.contains_word(w),
            forall|p: Seq<char>| node.has_path(p) <==> p.len() == 0,
    {
        let node = TrieNode { is_word: false, children: Vec::new() };
        proof {
            assert forall|w: Seq<char>| !node.contains_word(w) by {
                assert(lookup(node.children@, w[0]) is None) by {
                    assert(node.children@.len() == 0);
                }
            }
            assert forall|p: Seq<char>| node.has_path(p) <==> p.len() == 0 by {
                if p.len() > 0 {
                    assert(lookup(node.children@, p[0]) is None);
                }
            }
        }
        node
    }

    /// A fresh chain of nodes spelling exactly `w[i..]`, whose last node is
    /// terminal: it holds `w[i..]` as its one word, and its paths are
    /// exactly the prefixes of `w[i..]`.
    fn new_chain(w: &Vec<char>, i: usize) -> (node: TrieNode)
        requires
            i <= w@.len(),
        ensures
            node.wf(),
            forall|s: Seq<char>| #[trigger] node.contains_word(s) <==> s == w@.skip(i as int),
            forall|p: Seq<char>|
                #[trigger] node.has_path(p) <==> p.is_prefix_of(w@.skip(i as int)),
        decreases w@.len() - i,
    {
        if i == w.len() {
            let node = TrieNode { is_word: true, children: Vec::new() };
            proof {
                let e = w@.skip(i as int);
                assert(e =~= Seq::<char>::empty());
                assert forall|s: Seq<char>| #[trigger] node.contains_word(s) <==> s == e by {
                    if s.len() == 0 {
                        assert(s =~= e);
                    } else {
                        assert(node.children@.len() == 0);
                    }
                }
                assert forall|p: Seq<char>| #[trigger] node.has_path(p) <==> p.is_prefix_of(
                    e,
                ) by {
                    if p.len() == 0 {
                        assert(p =~= e.subrange(0, 0));
                    } else {
                        assert(node.children@.len() == 0);
                    }
                }
            }
            node
        } else {
            let c = w[i];
            let child = Self::new_chain(w, i + 1);
            let ghost cc = child;
            let mut children: Vec<(char, TrieNode)> = Vec::new();
            children.push((c, child));
            let node = TrieNode { is_word: false, children };
            proof {
                let e = w@.skip(i as int);
                assert(e.len() > 0);
                assert(e[0] == w@[i as int]);
                assert(e.drop_first() =~= w@.skip(i + 1));
                assert(node.children@[0] == (c, cc));
                assert(node.children@.drop_first() =~= Seq::<(char, TrieNode)>::empty());
                assert(lookup(node.children@, c) == Some(cc));
                assert forall|s: Seq<char>| #[trigger] node.contains_word(s) <==> s == e by {
                    if s.len() == 0 {
                        assert(!node.contains_word(s));
                    } else if s[0] == c {
                        assert(node.contains_word(s) == cc.contains_word(s.drop_first()));
                        if s.drop_first() == w@.skip(i + 1) {
                            lemma_eq_head_tail(s, e);
                        }
                    } else {
                        assert(lookup(node.children@.drop_first(), s[0]) is None);
                        assert(lookup(node.children@, s[0]) is None);
                    }
                }
                assert forall|p: Seq<char>| #[trigger] node.has_path(p) <==> p.is_prefix_of(
                    e,
                ) by {
                    if p.len() == 0 {
                        assert(p =~= e.subrange(0, 0));
                    } else if p[0] == c {
                        assert(node.has_path(p) == cc.has_path(p.drop_first()));
                        lemma_prefix_step(p, e);
                    } else {
                        assert(lookup(node.children@.drop_first(), p[0]) is None);
                        assert(lookup(node.children@, p[0]) is None);
                        if p.is_prefix_of(e) {
                            assert(p[0] == e.subrange(0, p.len() as int)[0]);
                        }
                    }
                }
                assert(node.wf()) by {
                    assert(cc.contains_word(w@.skip(i + 1)));
                    assert(cc.nonempty());
                    assert forall|k: int|
                        0 <= k < node.children@.len() implies (#[trigger] node.children@[k]).1.nonempty()
                        by {
                        assert(node.children@[k].1 == cc);
                    }
                }
            }
            node
        }
    }

    /// Inserts the word `w[i..]` below this node: afterwards the node holds
    /// exactly its old words plus `w[i..]`, and its paths are its old paths
    /// plus the prefixes of `w[i..]`. Nothing is ever removed.
    #[verifier::rlimit(100)]
    #[verifier::spinoff_prover]
    fn insert_from(&mut self, w: &Vec<char>, i: usize)
        requires
            old(self).wf(),
            i <= w@.len(),
        ensures
            final(self).wf(),
            forall|s: Seq<char>|
                #[trigger] final(self).contains_word(s) <==> old(self).contains_word(s) || s
                    == w@.skip(i as int),
            forall|p: Seq<char>|
                #[trigger] final(self).has_path(p) <==> old(self).has_path(p) || p.is_prefix_of(
                    w@.skip(i as int),
                ),
        decreases w@.len() - i,
    {
        if i == w.len() {
            self.is_word = true;
            proof {
                let e = w@.skip(i as int);
                assert(e =~= Seq::<char>::empty());
                assert(self.children@ == old(self).children@);
                assert forall|s: Seq<char>|
                    #[trigger] self.contains_word(s) <==> old(self).contains_word(s) || s
                        == e by {
                    if s.len() == 0 {
                        assert(s =~= e);
                        assert(self.contains_word(s));
                    } else {
                        assert(self.contains_word(s) == old(self).contains_word(s));
                    }
                }
                assert forall|p: Seq<char>|
                    #[trigger] self.has_path(p) <==> old(self).has_path(p) || p.is_prefix_of(
                        e,
                    ) by {
                    if p.len() > 0 {
                        assert(self.has_path(p) == old(self).has_path(p));
                        assert(!p.is_prefix_of(e));
                    }
                }
                assert(self.wf()) by {
                    assert(children_sorted(self.children@));
                    assert forall|k: int|
                        0 <= k < self.children@.len() implies (#[trigger] self.children@[k]).1.wf()
                        by {
                        assert(old(self).children@[k].1.wf());
                    }
                    assert forall|k: int|
                        0 <= k < self.children@.len() implies (#[trigger] self.children@[k]).1.nonempty()
                        by {
                        assert(old(self).children@[k].1.nonempty());
                    }
                }
            }
        } else {
            let c = w[i];
            match find_child(&self.children, c) {
                Some(j) => {
                    let ghost oc = old(self).children@;
                    let (ch, mut child) = self.children.remove(j);
                    let ghost oldchild = child;
                    child.insert_from(w, i + 1);
                    let ghost nc = child;
                    self.children.insert(j, (ch, child));
                    proof {
                        let ns = self.children@;
                        let upd = oc.update(j as int, (c, nc));
                        oc.remove_ensures(j as int);
                        oc.remove(j as int).insert_ensures(j as int, (c, nc));
                        assert forall|k: int| 0 <= k < ns.len() implies ns[k] == upd[k] by {
                            if k < j {
                                assert(ns[k] == oc.remove(j as int)[k]);
                            } else if k > j {
                                assert(ns[k] == oc.remove(j as int)[k - 1]);
                            }
                        }
                        assert(ns =~= upd);
                        lemma_lookup_update(oc, j as int, nc);
                        let e = w@.skip(i as int);
                        assert(e.len() > 0);
                        assert(e[0] == w@[i as int]);
                        assert(e.drop_first() =~= w@.skip(i + 1));
                        assert forall|s: Seq<char>|
                            #[trigger] self.contains_word(s) <==> old(self).contains_word(s) || s
                                == e by {
                            if s.len() == 0 {
                                assert(self.contains_word(s) == self.is_word);
                                assert(old(self).contains_word(s) == old(self).is_word);
                            } else if s[0] == c {
                                assert(lookup(ns, s[0]) == Some(nc));
                                assert(lookup(oc, s[0]) == Some(oldchild));
                                assert(self.contains_word(s) == nc.contains_word(s.drop_first()));
                                assert(old(self).contains_word(s) == oldchild.contains_word(
                                    s.drop_first(),
                                ));
                                if s.drop_first() == w@.skip(i + 1) {
                                    lemma_eq_head_tail(s, e);
                                }
                            } else {
                                assert(lookup(ns, s[0]) == lookup(oc, s[0]));
                                assert(self.contains_word(s) == old(self).contains_word(s));
                            }
                        }
                        assert forall|p: Seq<char>|
                            #[trigger] self.has_path(p) <==> old(self).has_path(p)
                                || p.is_prefix_of(e) by {
                            if p.len() == 0 {
                                assert(p =~= e.subrange(0, 0));
                            } else if p[0] == c {
                                assert(lookup(ns, p[0]) == Some(nc));
                                assert(lookup(oc, p[0]) == Some(oldchild));
                                assert(self.has_path(p) == nc.has_path(p.drop_first()));
                                assert(old(self).has_path(p) == oldchild.has_path(
                                    p.drop_first(),
                                ));
                                lemma_prefix_step(p, e);
                            } else {
                                assert(lookup(ns, p[0]) == lookup(oc, p[0]));
                                assert(self.has_path(p) == old(self).has_path(p));
                                if p.is_prefix_of(e) {
                                    assert(p[0] == e.subrange(0, p.len() as int)[0]);
                                }
                            }
                        }
                        assert(self.wf()) by {
                            assert(children_sorted(ns)) by {
                                assert forall|k1: int, k2: int|
                                    0 <= k1 < k2 < ns.len() implies ((#[trigger] ns[k1]).0
                                    as u32) < ((#[trigger] ns[k2]).0 as u32) by {
                                    assert(ns[k1].0 == oc[k1].0);
                                    assert(ns[k2].0 == oc[k2].0);
                                }
                            }
                            assert forall|k: int|
                                0 <= k < ns.len() implies (#[trigger] ns[k]).1.wf() by {
                                if k != j {
                                    assert(ns[k] == oc[k]);
                                }
                            }
                            assert forall|k: int|
                                0 <= k < ns.len() implies (#[trigger] ns[k]).1.nonempty() by {
                                if k == j {
                                    assert(nc.contains_word(w@.skip(i + 1)));
                                    assert(ns[k].1 == nc);
                                    assert(nc.nonempty());
                                } else {
                                    assert(ns[k] == oc[k]);
                                    assert(oc[k].1.nonempty());
                                }
                            }
                        }
                    }
                },
                None => {
                    let ghost oc = old(self).children@;
                    let tail = Self::new_chain(w, i + 1);
                    let ghost nc = tail;
                    let pos = insert_position(&self.children, c);
                    self.children.insert(pos, (c, tail));
                    proof {
                        let ns = self.children@;
                        oc.insert_ensures(pos as int, (c, nc));
                        assert(ns == oc.insert(pos as int, (c, nc)));
                        lemma_lookup_insert(oc, pos as int, c, nc);
                        let e = w@.skip(i as int);
                        assert(e.len() > 0);
                        assert(e[0] == w@[i as int]);
                        assert(e.drop_first() =~= w@.skip(i + 1));
                        assert forall|s: Seq<char>|
                            #[trigger] self.contains_word(s) <==> old(self).contains_word(s) || s
                                == e by {
                            if s.len() == 0 {
                                assert(self.contains_word(s) == self.is_word);
                                assert(old(self).contains_word(s) == old(self).is_word);
                            } else if s[0] == c {
                                assert(lookup(ns, s[0]) == Some(nc));
                                assert(lookup(oc, s[0]) is None);
                                assert(self.contains_word(s) == nc.contains_word(s.drop_first()));
                                assert(!old(self).contains_word(s));
                                if s.drop_first() == w@.skip(i + 1) {
                                    lemma_eq_head_tail(s, e);
                                }
                            } else {
                                assert(lookup(ns, s[0]) == lookup(oc, s[0]));
                                assert(self.contains_word(s) == old(self).contains_word(s));
                            }
                        }
                        assert forall|p: Seq<char>|
                            #[trigger] self.has_path(p) <==> old(self).has_path(p)
                                || p.is_prefix_of(e) by {
                            if p.len() == 0 {
                                assert(p =~= e.subrange(0, 0));
                            } else if p[0] == c {
                                assert(lookup(ns, p[0]) == Some(nc));
                                assert(lookup(oc, p[0]) is None);
                                assert(self.has_path(p) == nc.has_path(p.drop_first()));
                                assert(!old(self).has_path(p));
                                lemma_prefix_step(p, e);
                            } else {
                                assert(lookup(ns, p[0]) == lookup(oc, p[0]));
                                assert(self.has_path(p) == old(self).has_path(p));
                                if p.is_prefix_of(e) {
                                    assert(p[0] == e.subrange(0, p.len() as int)[0]);
                                }
                            }
                        }
                        assert(self.wf()) by {
                            assert(children_sorted(ns)) by {
                                assert forall|k1: int, k2: int|
                                    0 <= k1 < k2 < ns.len() implies ((#[trigger] ns[k1]).0
                                    as u32) < ((#[trigger] ns[k2]).0 as u32) by {
                                    if k2 < pos {
                                        assert(ns[k1] == oc[k1]);
                                        assert(ns[k2] == oc[k2]);
                                    } else if k1 < pos && k2 == pos {
                                        assert(ns[k1] == oc[k1]);
                                    } else if k1 < pos && k2 > pos {
                                        assert(ns[k1] == oc[k1]);
                                        assert(ns[k2] == oc[k2 - 1]);
                                    } else if k1 == pos {
                                        assert(ns[k2] == oc[k2 - 1]);
                                    } else {
                                        assert(ns[k1] == oc[k1 - 1]);
                                        assert(ns[k2] == oc[k2 - 1]);
                                    }
                                }
                            }
                            assert forall|k: int|
                                0 <= k < ns.len() implies (#[trigger] ns[k]).1.wf() by {
                                if k < pos {
                                    assert(ns[k] == oc[k]);
                                } else if k > pos {
                                    assert(ns[k] == oc[k - 1]);
                                }
                            }
                            assert forall|k: int|
                                0 <= k < ns.len() implies (#[trigger] ns[k]).1.nonempty() by {
                                if k == pos {
                                    assert(nc.contains_word(w@.skip(i + 1)));
                                    assert(ns[k].1 == nc);
                                    assert(nc.nonempty());
                                } else if k < pos {
                                    assert(ns[k] == oc[k]);
                                    assert(oc[k].1.nonempty());
                                } else {
                                    assert(ns[k] == oc[k - 1]);
                                    assert(oc[k - 1].1.nonempty());
                                }
                            }
                        }
                    }
                },
            }
        }
    }

    /// The node reached by following `w[i..]` from this node, if that path
    /// exists. Words and paths of the returned node are words and paths of
    /// this node, extended on the left with the characters walked over.
    fn descend<'a>(&'a self, w: &Vec<char>, i: usize) -> (r: Option<&'a TrieNode>)
        requires
            i <= w@.len(),
        ensures
            match r {
                Some(node) => {
                    &&& (self.wf() ==> node.wf())
                    &&& (forall|s: Seq<char>|
                        (#[trigger] node.contains_word(s)) == self.contains_word(
                            w@.skip(i as int) + s,
                        ))
                    &&& (forall|p: Seq<char>|
                        (#[trigger] node.has_path(p)) == self.has_path(w@.skip(i as int) + p))
                },
                None => !self.has_path(w@.skip(i as int)),
            },
        decreases w@.len() - i,
    {
        if i == w.len() {
            proof {
                assert forall|s: Seq<char>|
                    (#[trigger] self.contains_word(s)) == self.contains_word(
                        w@.skip(i as int) + s,
                    ) by {
                    assert(w@.skip(i as int) + s =~= s);
                }
                assert forall|p: Seq<char>|
                    (#[trigger] self.has_path(p)) == self.has_path(w@.skip(i as int) + p) by {
                    assert(w@.skip(i as int) + p =~= p);
                }
            }
            Some(self)
        } else {
            let c = w[i];
            match find_child(&self.children, c) {
                Some(j) => {
                    let child = &self.children[j];
                    let r = child.1.descend(w, i + 1);
                    proof {
                        if self.wf() {
                            assert(self.children@[j as int].1.wf());
                        }
                        if let Some(node) = r {
                            assert forall|s: Seq<char>|
                                (#[trigger] node.contains_word(s)) == self.contains_word(
                                    w@.skip(i as int) + s,
                                ) by {
                                let t = w@.skip(i as int) + s;
                                assert(t.len() > 0);
                                assert(t[0] == w@[i as int]);
                                assert(t.drop_first() =~= w@.skip(i + 1) + s);
                                assert(node.contains_word(s) == child.1.contains_word(
                                    w@.skip(i + 1) + s,
                                ));
                            }
                            assert forall|p: Seq<char>|
                                (#[trigger] node.has_path(p)) == self.has_path(
                                    w@.skip(i as int) + p,
                                ) by {
                                let t = w@.skip(i as int) + p;
                                assert(t.len() > 0);
                                assert(t[0] == w@[i as int]);
                                assert(t.drop_first() =~= w@.skip(i + 1) + p);
                                assert(node.has_path(p) == child.1.has_path(w@.skip(i + 1) + p));
                            }
                        } else {
                            assert(!child.1.has_path(w@.skip(i + 1)));
                            let t = w@.skip(i as int);
                            assert(t.len() > 0);
                            assert(t[0] == w@[i as int]);
                            assert(t.drop_first() =~= w@.skip(i + 1));
                            assert(!self.has_path(t));
                        }
                    }
                    r
                },
                None => {
                    proof {
                        let t = w@.skip(i as int);
                        assert(t.len() > 0);
                        assert(t[0] == w@[i as int]);
                        assert(!self.has_path(t));
                    }
                    None
                },
            }
        }
    }
}

impl TrieNode {
    /// Appends to `result`, in ascending lexicographic order, one entry
    /// `path + s` for every word `s` held at or below this node. `path` is
    /// used as scratch space and restored before returning; entries already
    /// in `result` stay as they are.
    #[verifier::rlimit(100)]
    #[verifier::spinoff_prover]
    fn collect_words(&self, path: &mut Vec<char>, result: &mut Vec<String>)
        requires
            self.wf(),
        ensures
            final(path)@ == old(path)@,
            final(result)@.len() >= old(result)@.len(),
            forall|k: int|
                0 <= k < old(result)@.len() ==> #[trigger] final(result)@[k] == old(result)@[k],
            forall|k: int|
                old(result)@.len() <= k < final(result)@.len() ==> old(path)@.is_prefix_of(
                    (#[trigger] final(result)@[k])@,
                ) && self.contains_word(final(result)@[k]@.skip(old(path)@.len() as int)),
            forall|s: Seq<char>|
                #[trigger] self.contains_word(s) ==> exists|k: int|
                    old(result)@.len() <= k < final(result)@.len()
                        && (#[trigger] final(result)@[k])@ == old(path)@ + s,
            forall|k1: int, k2: int|
                old(result)@.len() <= k1 < k2 < final(result)@.len() ==> lex_lt(
                    final(result)@[k1]@,
                    final(result)@[k2]@,
                ),
        decreases self,
    {
        let ghost op = path@;
        let ghost base = result@.len() as int;
        if self.is_word {
            let word_str = chars_to_string(path);
            result.push(word_str);
        }
        let ghost emitted = result@;
        let ghost start = result@.len() as int;
        let n = self.children.len();
        let mut j: usize = 0;
        while j < n
            invariant
                self.wf(),
                n == self.children@.len(),
                j <= n,
                path@ == op,
                result@.len() >= start,
                start == emitted.len(),
                forall|k: int| 0 <= k < start ==> #[trigger] result@[k] == emitted[k],
                forall|k: int|
                    start <= k < result@.len() ==> op.is_prefix_of((#[trigger] result@[k])@)
                        && self.contains_word(result@[k]@.skip(op.len() as int))
                        && op.len() < result@[k]@.len() && (exists|jj: int|
                        0 <= jj < j && result@[k]@[op.len() as int] == (#[trigger] self.children@[jj]).0),
                forall|s: Seq<char>|
                    (#[trigger] self.contains_word(s)) && s.len() > 0 && (exists|jj: int|
                        0 <= jj < j && s[0] == (#[trigger] self.children@[jj]).0) ==> exists|
                        k: int,
                    |
                        start <= k < result@.len() && (#[trigger] result@[k])@ == op + s,
                forall|k1: int, k2: int|
                    start <= k1 < k2 < result@.len() ==> lex_lt(
                        (#[trigger] result@[k1])@,
                        (#[trigger] result@[k2])@,
                    ),
            decreases n - j,
        {
            let ghost prev = result@;
            let entry = &self.children[j];
            let c = entry.0;
            path.push(c);
            proof {
                assert(path@ == op.push(c));
                assert(entry.1.wf());
            }
            entry.1.collect_words(path, result);
            path.pop();
            proof {
                assert(op.push(c).drop_last() =~= op);
                lemma_lookup_at_index(self.children@, j as int);
                // The fresh entries of this round carry `op + c` as a prefix
                // and spell words that pass through this child.
                assert forall|k: int|
                    start <= k < result@.len() implies op.is_prefix_of((#[trigger] result@[k])@)
                        && self.contains_word(result@[k]@.skip(op.len() as int)) && op.len()
                        < result@[k]@.len() && (exists|jj: int|
                        0 <= jj < j + 1 && result@[k]@[op.len() as int] == (#[trigger] self.children@[jj]).0)
                    by {
                    if k < prev.len() {
                        assert(result@[k] == prev[k]);
                        let jj0 = choose|jj: int|
                            0 <= jj < j && prev[k]@[op.len() as int] == (#[trigger] self.children@[jj]).0;
                        assert(result@[k]@[op.len() as int] == self.children@[jj0].0);
                    } else {
                        let e = result@[k]@;
                        assert(op.push(c).is_prefix_of(e));
                        assert(entry.1.contains_word(e.skip(op.len() as int + 1)));
                        assert forall|kk: int| 0 <= kk < op.len() implies op[kk] == e.subrange(
                            0,
                            op.len() as int,
                        )[kk] by {
                            assert(op.push(c)[kk] == e.subrange(0, op.len() as int + 1)[kk]);
                        }
                        assert(op =~= e.subrange(0, op.len() as int));
                        assert(e[op.len() as int] == op.push(c)[op.len() as int]);
                        assert(e[op.len() as int] == c);
                        let t = e.skip(op.len() as int);
                        assert(t.len() > 0);
                        assert(t[0] == e[op.len() as int]);
                        assert(t.drop_first() =~= e.skip(op.len() as int + 1));
                        assert(self.contains_word(t) == entry.1.contains_word(t.drop_first()));
                        assert(result@[k]@[op.len() as int] == self.children@[j as int].0);
                    }
                }
                // Every word through an already handled child has been
                // written out.
                assert forall|s: Seq<char>|
                    (#[trigger] self.contains_word(s)) && s.len() > 0 && (exists|jj: int|
                        0 <= jj < j + 1 && s[0] == (#[trigger] self.children@[jj]).0) implies
                    exists|k: int|
                        start <= k < result@.len() && (#[trigger] result@[k])@ == op + s by {
                    let jj0 = choose|jj: int|
                        0 <= jj < j + 1 && s[0] == (#[trigger] self.children@[jj]).0;
                    if jj0 < j {
                        let k0 = choose|k: int|
                            start <= k < prev.len() && (#[trigger] prev[k])@ == op + s;
                        assert(result@[k0] == prev[k0]);
                        assert(result@[k0]@ == op + s);
                    } else {
                        assert(s[0] == c);
                        assert(self.contains_word(s) == entry.1.contains_word(s.drop_first()));
                        let k0 = choose|k: int|
                            prev.len() <= k < result@.len() && (#[trigger] result@[k])@ == op.push(
                                c,
                            ) + s.drop_first();
                        assert(op.push(c) + s.drop_first() =~= op + s);
                        assert(result@[k0]@ == op + s);
                    }
                }
                // Order: older entries go through smaller characters.
                assert forall|k1: int, k2: int|
                    start <= k1 < k2 < result@.len() implies lex_lt(
                        (#[trigger] result@[k1])@,
                        (#[trigger] result@[k2])@,
                    ) by {
                    if k2 < prev.len() {
                        assert(result@[k1] == prev[k1]);
                        assert(result@[k2] == prev[k2]);
                    } else if k1 >= prev.len() {
                    } else {
                        assert(result@[k1] == prev[k1]);
                        let e1 = result@[k1]@;
                        let e2 = result@[k2]@;
                        let jj0 = choose|jj: int|
                            0 <= jj < j && prev[k1]@[op.len() as int] == (#[trigger] self.children@[jj]).0;
                        assert((self.children@[jj0].0 as u32) < (self.children@[j as int].0
                            as u32));
                        assert(e1[op.len() as int] == self.children@[jj0].0);
                        assert(op.push(c).is_prefix_of(e2));
                        assert forall|kk: int| 0 <= kk < op.len() implies op[kk] == e2.subrange(
                            0,
                            op.len() as int,
                        )[kk] by {
                            assert(op.push(c)[kk] == e2.subrange(0, op.len() as int + 1)[kk]);
                        }
                        assert(op =~= e2.subrange(0, op.len() as int));
                        assert(e2[op.len() as int] == op.push(c)[op.len() as int]);
                        assert(e2[op.len() as int] == c);
                        assert(op =~= e1.subrange(0, op.len() as int));
                        lemma_lex_lt_common_prefix(op, e1, e2);
                    }
                }
            }
            j += 1;
        }
        proof {
            let ghost fr = result@;
            // Entries handed in stay untouched.
            assert forall|k: int| 0 <= k < base implies #[trigger] fr[k] == old(result)@[k] by {
                assert(fr[k] == emitted[k]);
                assert(emitted[k] == old(result)@[k]);
            }
            // Every entry of this round is a word below this node, prefixed
            // with the path.
            assert forall|k: int|
                base <= k < fr.len() implies op.is_prefix_of((#[trigger] fr[k])@)
                    && self.contains_word(fr[k]@.skip(op.len() as int)) by {
                if k < start {
                    assert(fr[k] == emitted[k]);
                    assert(fr[k]@ == op);
                    assert(op =~= op.subrange(0, op.len() as int));
                    assert(fr[k]@.skip(op.len() as int) =~= Seq::<char>::empty());
                    assert(self.contains_word(Seq::<char>::empty()) == self.is_word);
                }
            }
            // Every word below this node was written out in this round.
            assert forall|s: Seq<char>| #[trigger] self.contains_word(s) implies exists|k: int|
                base <= k < fr.len() && (#[trigger] fr[k])@ == op + s by {
                if s.len() == 0 {
                    assert(self.is_word);
                    assert(fr[base] == emitted[base]);
                    assert(op + s =~= op);
                    assert(fr[base]@ == op + s);
                } else {
                    assert(lookup(self.children@, s[0]) is Some);
                    lemma_lookup_some_index(self.children@, s[0]);
                    let k0 = choose|k: int|
                        start <= k < fr.len() && (#[trigger] fr[k])@ == op + s;
                    assert(base <= k0 < fr.len() && fr[k0]@ == op + s);
                }
            }
            // Order, including the word that ends right here: it is a proper
            // prefix of everything below.
            assert forall|k1: int, k2: int|
                base <= k1 < k2 < fr.len() implies lex_lt(
                    (#[trigger] fr[k1])@,
                    (#[trigger] fr[k2])@,
                ) by {
                if k1 < start {
                    assert(fr[k1] == emitted[k1]);
                    assert(fr[k1]@ == op);
                    assert(op.len() < fr[k2]@.len());
                    assert(op =~= fr[k2]@.subrange(0, op.len() as int));
                    lemma_lex_lt_proper_prefix(op, fr[k2]@);
                }
            }
        }
    }
}

/// Below a well-formed node, every path extends to a full word; for the
/// empty path this needs the node itself to hold some word.
proof fn lemma_wf_extends(node: TrieNode, p: Seq<char>)
    requires
        node.wf(),
        node.has_path(p),
        p.len() > 0 || node.nonempty(),
    ensures
        exists|s: Seq<char>| #[trigger] node.contains_word(s) && p.is_prefix_of(s),
    decreases p.len(),
{
    if p.len() == 0 {
        let s0 = choose|s: Seq<char>| node.contains_word(s);
        assert(p =~= s0.subrange(0, 0));
        assert(node.contains_word(s0) && p.is_prefix_of(s0));
    } else {
        assert(lookup(node.children@, p[0]) is Some);
        lemma_lookup_some_index(node.children@, p[0]);
        let k0 = choose|k: int|
            0 <= k < node.children@.len() && (#[trigger] node.children@[k]).0 == p[0];
        lemma_lookup_at_index(node.children@, k0);
        let child = node.children@[k0].1;
        assert(lookup(node.children@, p[0]) == Some(child));
        assert(node.has_path(p) == child.has_path(p.drop_first()));
        assert(child.wf());
        assert(child.nonempty());
        lemma_wf_extends(child, p.drop_first());
        let s1 = choose|s: Seq<char>|
            #[trigger] child.contains_word(s) && p.drop_first().is_prefix_of(s);
        let s = seq![p[0]] + s1;
        assert(s.len() > 0);
        assert(s[0] == p[0]);
        assert(s.drop_first() =~= s1);
        assert(node.contains_word(s) == child.contains_word(s.drop_first()));
        lemma_prefix_step(p, s);
        assert(node.contains_word(s) && p.is_prefix_of(s));
    }
}

/// A word that is held is also a path: its terminal node is reached by
/// following it.
proof fn lemma_contains_word_has_path(node: TrieNode, w: Seq<char>)
    requires
        node.contains_word(w),
    ensures
        node.has_path(w),
    decreases w.len(),
{
    if w.len() > 0 {
        match lookup(node.children@, w[0]) {
            Some(child) => {
                lemma_contains_word_has_path(child, w.drop_first());
            },
            None => {},
        }
    }
}

/// Every prefix of a path is a path.
proof fn lemma_has_path_take(node: TrieNode, p: Seq<char>, n: int)
    requires
        node.has_path(p),
        0 <= n <= p.len(),
    ensures
        node.has_path(p.take(n)),
    decreases p.len(),
{
    if n > 0 {
        assert(p.take(n)[0] == p[0]);
        match lookup(node.children@, p[0]) {
            Some(child) => {
                lemma_has_path_take(child, p.drop_first(), n - 1);
                assert(p.take(n).drop_first() =~= p.drop_first().take(n - 1));
            },
            None => {},
        }
    }
}

impl Trie {
    /// Whether this trie is well-formed; every trie built through the public
    /// operations is.
    pub closed spec fn wf(self) -> bool {
        self.root.wf()
    }

    /// The set of words held by the trie: exactly the words inserted so far.
    pub closed spec fn words(self) -> Set<Seq<char>> {
        Set::new(|w: Seq<char>| self.root.contains_word(w))
    }

    /// The set of paths of the trie: every sequence that can be followed
    /// edge by edge from the root. The empty sequence is always a path.
    pub closed spec fn paths(self) -> Set<Seq<char>> {
        Set::new(|p: Seq<char>| self.root.has_path(p))
    }

    /// A new, empty trie: it holds no words, and its only path is the empty
    /// sequence.
    pub fn new() -> (trie: Trie)
        ensures
            trie.wf(),
            trie.words() == Set::<Seq<char>>::empty(),
            trie.paths() == Set::new(|p: Seq<char>| p.len() == 0),
    {
        let trie = Trie { root: TrieNode::new() };
        proof {
            assert(trie.words() =~= Set::<Seq<char>>::empty());
            assert(trie.paths() =~= Set::new(|p: Seq<char>| p.len() == 0));
        }
        trie
    }

    /// Inserts `word` into the trie: afterwards the trie holds exactly the
    /// words it held before plus `word`, and its paths are the old paths
    /// plus the prefixes of `word`. Inserting never removes anything, cannot
    /// fail, and inserting a word already present changes nothing.
    ///
    /// The empty string is a valid word: inserting it marks the root itself
    /// terminal, and `search` of the empty string then succeeds.
    pub fn insert(&mut self, word: String)
        requires
            old(self).wf(),
        ensures
            final(self).wf(),
            final(self).words() == old(self).words().insert(word@),
            final(self).paths() == old(self).paths().union(
                Set::new(|p: Seq<char>| p.is_prefix_of(word@)),
            ),
    {
        let w = str_chars(word.as_str());
        self.root.insert_from(&w, 0);
        proof {
            assert(w@.skip(0) =~= word@);
            assert forall|s: Seq<char>| #[trigger] self.words().contains(s)
                == old(self).words().insert(word@).contains(s) by {
                assert(self.root.contains_word(s) <==> old(self).root.contains_word(s) || s
                    == w@.skip(0));
            }
            assert(self.words() =~= old(self).words().insert(word@));
            assert forall|p: Seq<char>| #[trigger] self.paths().contains(p)
                == old(self).paths().union(
                Set::new(|q: Seq<char>| q.is_prefix_of(word@)),
            ).contains(p) by {
                assert(self.root.has_path(p) <==> old(self).root.has_path(p) || p.is_prefix_of(
                    w@.skip(0),
                ));
            }
            assert(self.paths() =~= old(self).paths().union(
                Set::new(|p: Seq<char>| p.is_prefix_of(word@)),
            ));
        }
    }

    /// Whether `word` was inserted as a complete word. Following `word`'s
    /// characters from the root must reach a terminal node; reaching a node
    /// that merely continues into longer words is not enough.
    pub fn search(&self, word: String) -> (found: bool)
        ensures
            found == self.words().contains(word@),
    {
        let w = str_chars(word.as_str());
        match self.root.descend(&w, 0) {
            Some(node) => {
                proof {
                    assert(w@.skip(0) + Seq::<char>::empty() =~= word@);
                    assert(node.contains_word(Seq::<char>::empty()) == node.is_word);
                    assert(self.root.contains_word(word@) == node.is_word);
                }
                node.is_word
            },
            None => {
                proof {
                    assert(w@.skip(0) =~= word@);
                    if self.root.contains_word(word@) {
                        lemma_contains_word_has_path(self.root, word@);
                    }
                }
                false
            },
        }
    }

    /// Whether some path from the root follows all of `prefix`; true exactly
    /// when `prefix` is a prefix of the tree's paths, regardless of terminal
    /// flags. The empty prefix always succeeds, even on an empty trie.
    pub fn starts_with(&self, prefix: String) -> (found: bool)
        ensures
            found == self.paths().contains(prefix@),
    {
        let w = str_chars(prefix.as_str());
        match self.root.descend(&w, 0) {
            Some(node) => {
                proof {
                    assert(w@.skip(0) + Seq::<char>::empty() =~= prefix@);
                    assert(node.has_path(Seq::<char>::empty()));
                }
                true
            },
            None => {
                proof {
                    assert(w@.skip(0) =~= prefix@);
                }
                false
            },
        }
    }

    /// All words of the trie that begin with `prefix`, in ascending
    /// lexicographic order and without duplicates: exactly the set
    /// `{ w : w held, prefix is a prefix of w }`. An unmatched prefix yields
    /// the empty vector, never a failure.
    #[verifier::rlimit(100)]
    #[verifier::spinoff_prover]
    pub fn find_words_with_prefix(&self, prefix: &str) -> (result: Vec<String>)
        requires
            self.wf(),
        ensures
            forall|k: int|
                0 <= k < result@.len() ==> self.words().contains((#[trigger] result@[k])@)
                    && prefix@.is_prefix_of(result@[k]@),
            forall|s: Seq<char>|
                #[trigger] self.words().contains(s) && prefix@.is_prefix_of(s) ==> exists|k: int|
                    0 <= k < result@.len() && (#[trigger] result@[k])@ == s,
            forall|k1: int, k2: int|
                0 <= k1 < k2 < result@.len() ==> lex_lt(result@[k1]@, result@[k2]@),
    {
        let mut w = str_chars(prefix);
        let mut result: Vec<String> = Vec::new();
        match self.root.descend(&w, 0) {
            None => {
                proof {
                    assert(w@.skip(0) =~= prefix@);
                    assert forall|s: Seq<char>|
                        !(#[trigger] self.words().contains(s) && prefix@.is_prefix_of(s)) by {
                        if self.root.contains_word(s) && prefix@.is_prefix_of(s) {
                            lemma_contains_word_has_path(self.root, s);
                            lemma_has_path_take(self.root, s, prefix@.len() as int);
                            assert(s.subrange(0, prefix@.len() as int) == prefix@);
                        }
                    }
                }
                result
            },
            Some(node) => {
                proof {
                    assert(w@ == prefix@);
                }
                node.collect_words(&mut w, &mut result);
                proof {
                    let m = prefix@.len() as int;
                    assert forall|k: int|
                        0 <= k < result@.len() implies self.words().contains(
                        (#[trigger] result@[k])@,
                    ) && prefix@.is_prefix_of(result@[k]@) by {
                        let e = result@[k]@;
                        assert(node.contains_word(e.skip(m)));
                        assert(node.contains_word(e.skip(m)) == self.root.contains_word(
                            w@.skip(0) + e.skip(m),
                        ));
                        assert(prefix@.is_prefix_of(e));
                        assert(prefix@ =~= e.subrange(0, m));
                        assert forall|kk: int|
                            0 <= kk < e.len() implies (prefix@ + e.skip(m))[kk] == e[kk] by {
                            if kk < m {
                                assert(prefix@[kk] == e.subrange(0, m)[kk]);
                            } else {
                                assert(e.skip(m)[kk - m] == e[kk]);
                            }
                        }
                        assert(prefix@ + e.skip(m) =~= e);
                        assert(w@.skip(0) + e.skip(m) =~= e);
                    }
                    assert forall|s: Seq<char>|
                        #[trigger] self.words().contains(s) && prefix@.is_prefix_of(s) implies
                    exists|k: int|
                        0 <= k < result@.len() && (#[trigger] result@[k])@ == s by {
                        assert(prefix@ =~= s.subrange(0, m));
                        assert forall|kk: int|
                            0 <= kk < s.len() implies (prefix@ + s.skip(m))[kk] == s[kk] by {
                            if kk < m {
                                assert(prefix@[kk] == s.subrange(0, m)[kk]);
                            } else {
                                assert(s.skip(m)[kk - m] == s[kk]);
                            }
                        }
                        assert(w@.skip(0) + s.skip(m) =~= s);
                        assert(node.contains_word(s.skip(m)) == self.root.contains_word(
                            w@.skip(0) + s.skip(m),
                        ));
                        assert(node.contains_word(s.skip(m)));
                        let k0 = choose|k: int|
                            0 <= k < result@.len() && (#[trigger] result@[k])@ == prefix@ + s.skip(
                                m,
                            );
                        assert(prefix@ + s.skip(m) =~= s);
                        assert(result@[k0]@ == s);
                    }
                }
                result
            },
        }
    }
}

/// A word is found right after its insertion, and stays found after any
/// later insertion: inserting `w` into any trie and then any `w2` leaves
/// `w` among the words, so `search` answers true for it both times.
pub proof fn lemma_inserted_word_found(t0: Trie, t1: Trie, t2: Trie, w: Seq<char>, w2: Seq<char>)
    requires
        t1.words() == t0.words().insert(w),
        t2.words() == t1.words().insert(w2),
    ensures
        t1.words().contains(w),
        t2.words().contains(w),
{
}

/// A word never inserted is never found: it is absent from the new trie,
/// and inserting any other word keeps it absent, so `search` answers false
/// for it after any run of insertions that avoids it.
pub proof fn lemma_absent_word_stays_absent(t0: Trie, t1: Trie, w: Seq<char>, v: Seq<char>)
    requires
        !t0.words().contains(v),
        t1.words() == t0.words().insert(w),
        v != w,
    ensures
        !t1.words().contains(v),
{
}

/// Every prefix of a word held by the trie is a path of the trie, so
/// `starts_with` answers true on it.
pub proof fn lemma_word_prefix_is_path(t: Trie, w: Seq<char>, n: int)
    requires
        t.words().contains(w),
        0 <= n <= w.len(),
    ensures
        t.paths().contains(w.subrange(0, n)),
{
    assert(t.root.contains_word(w));
    lemma_contains_word_has_path(t.root, w);
    lemma_has_path_take(t.root, w, n);
}

/// Every path of a well-formed trie extends to a held word, so a sequence
/// that is a prefix of no held word is not a path and `starts_with` answers
/// false on it. The one exception is the empty sequence, which is a path of
/// every trie, words or none: it is left out here by the precondition.
pub proof fn lemma_path_extends_to_word(t: Trie, p: Seq<char>)
    requires
        t.wf(),
        t.paths().contains(p),
        p.len() > 0 || exists|s: Seq<char>| t.words().contains(s),
    ensures
        exists|s: Seq<char>| #[trigger] t.words().contains(s) && p.is_prefix_of(s),
{
    if p.len() == 0 {
        let s0 = choose|s: Seq<char>| t.words().contains(s);
        assert(t.root.contains_word(s0));
        assert(t.root.nonempty());
    }
    lemma_wf_extends(t.root, p);
    let s1 = choose|s: Seq<char>| #[trigger] t.root.contains_word(s) && p.is_prefix_of(s);
    assert(t.words().contains(s1) && p.is_prefix_of(s1));
}

/// Inserting a word that the trie already holds changes nothing observable:
/// the words stay the same, so `search` and `find_words_with_prefix` answer
/// as before, and the paths stay the same, so `starts_with` does too.
pub proof fn lemma_insert_idempotent(t1: Trie, t2: Trie, w: Seq<char>)
    requires
        t1.words().contains(w),
        t2.words() == t1.words().insert(w),
        t2.paths() == t1.paths().union(Set::new(|p: Seq<char>| p.is_prefix_of(w))),
    ensures
        t2.words() == t1.words(),
        t2.paths() == t1.paths(),
{
    assert(t2.words() =~= t1.words());
    assert forall|p: Seq<char>| #[trigger] t2.paths().contains(p) == t1.paths().contains(p) by {
        if p.is_prefix_of(w) {
            assert(t1.root.contains_word(w));
            lemma_contains_word_has_path(t1.root, w);
            lemma_has_path_take(t1.root, w, p.len() as int);
            assert(p == w.subrange(0, p.len() as int));
            assert(t1.root.has_path(p));
        }
    }
    assert(t2.paths() =~= t1.paths());
}

} // verus!
