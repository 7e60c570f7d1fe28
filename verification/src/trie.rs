//! The dictionary: a prefix trie annotated with word frequencies.
//!
//! Every distinct corpus word is a path from the root, one edge per
//! character; a node's `count` says how many times a corpus word ends
//! exactly there.

use vstd::prelude::*;

use crate::strutil::str_to_chars;

verus! {

/// One trie node.  The children carry one entry per distinct next character.
pub struct Trie {
    /// How many times a corpus word ends exactly at this node.
    pub count: usize,
    /// One subtrie per distinct next character.
    pub children: Vec<(char, Trie)>,
}

/// The subtrie stored under character `c`: the first entry of `s` whose key
/// is `c`, if any.
pub open spec fn lookup(s: Seq<(char, Trie)>, c: char) -> Option<Trie>
    decreases s.len(),
{
    if s.len() == 0 {
        None
    } else if s[0].0 == c {
        Some(s[0].1)
    } else {
        lookup(s.drop_first(), c)
    }
}

/// The edge characters of `s` are pairwise distinct.
pub open spec fn keys_unique(s: Seq<(char, Trie)>) -> bool {
    forall|i: int, j: int| 0 <= i < j < s.len() ==> (#[trigger] s[i]).0 != (#[trigger] s[j]).0
}

impl Trie {
    /// Well-formed: every node's children have pairwise distinct edge
    /// characters.
    pub open spec fn wf(self) -> bool
        decreases self,
    {
        &&& keys_unique(self.children@)
        &&& forall|i: int|
            0 <= i < self.children@.len() ==> (#[trigger] self.children@[i]).1.wf()
    }

    /// How many times the word `w` was inserted: the `count` of the node
    /// reached from here along `w`, or 0 if no such node exists.
    pub open spec fn spec_count(self, w: Seq<char>) -> nat
        decreases w.len(),
    {
        if w.len() == 0 {
            self.count as nat
        } else {
            match lookup(self.children@, w[0]) {
                Some(t) => t.spec_count(w.drop_first()),
                None => 0,
            }
        }
    }

    /// Whether a node for the prefix `p` exists below this node.
    pub open spec fn has_node(self, p: Seq<char>) -> bool
        decreases p.len(),
    {
        if p.len() == 0 {
            true
        } else {
            match lookup(self.children@, p[0]) {
                Some(t) => t.has_node(p.drop_first()),
                None => false,
            }
        }
    }

    /// An empty trie: no word was inserted, no node but the root exists.
    pub fn new() -> (t: Trie)
        ensures
            t.wf(),
            forall|w: Seq<char>| t.spec_count(w) == 0,
            forall|p: Seq<char>| t.has_node(p) <==> p.len() == 0,
            t.count == 0,
            t.children@.len() == 0,
    {
        let t = Trie { count: 0, children: Vec::new() };
        proof {
            assert forall|w: Seq<char>| t.spec_count(w) == 0 by {
                if w.len() > 0 {
                    assert(lookup(t.children@, w[0]) is None);
                }
            }
            assert forall|p: Seq<char>| t.has_node(p) <==> p.len() == 0 by {
                if p.len() > 0 {
                    assert(lookup(t.children@, p[0]) is None);
                }
            }
        }
        t
    }
}

/// If `c` occurs nowhere among the keys of `s`, the lookup finds nothing,
/// and the other way round.
pub proof fn lemma_lookup_none(s: Seq<(char, Trie)>, c: char)
    ensures
        lookup(s, c) is None <==> (forall|i: int| 0 <= i < s.len() ==> (#[trigger] s[i]).0 != c),
    decreases s.len(),
{
    if s.len() > 0 {
        lemma_lookup_none(s.drop_first(), c);
        if s[0].0 != c {
            if lookup(s, c) is None {
                assert forall|i: int| 0 <= i < s.len() implies (#[trigger] s[i]).0 != c by {
                    if i > 0 {
                        assert(s.drop_first()[i - 1].0 != c);
                        assert(s.drop_first()[i - 1] == s[i]);
                    }
                }
            }
            if forall|i: int| 0 <= i < s.len() ==> (#[trigger] s[i]).0 != c {
                assert forall|i: int|
                    0 <= i < s.drop_first().len() implies (#[trigger] s.drop_first()[i]).0 != c by {
                    assert(s.drop_first()[i] == s[i + 1]);
                    assert(s[i + 1].0 != c);
                }
            }
        }
    }
}

/// The lookup of `c` finds the first entry keyed by `c`.
pub proof fn lemma_lookup_first(s: Seq<(char, Trie)>, c: char, j: int)
    requires
        0 <= j < s.len(),
        s[j].0 == c,
        forall|i: int| 0 <= i < j ==> (#[trigger] s[i]).0 != c,
    ensures
        lookup(s, c) == Some(s[j].1),
    decreases j,
{
    if j > 0 {
        assert forall|i: int| 0 <= i < j - 1 implies (#[trigger] s.drop_first()[i]).0 != c by {
            assert(s.drop_first()[i] == s[i + 1]);
        }
        assert(s.drop_first()[j - 1] == s[j]);
        lemma_lookup_first(s.drop_first(), c, j - 1);
    }
}

/// Under distinct keys, any entry keyed by `c` is what the lookup finds.
pub proof fn lemma_lookup_at(s: Seq<(char, Trie)>, j: int)
    requires
        keys_unique(s),
        0 <= j < s.len(),
    ensures
        lookup(s, s[j].0) == Some(s[j].1),
{
    lemma_lookup_first(s, s[j].0, j);
}

/// Replacing the subtrie of an entry changes no lookup but that entry's.
pub proof fn lemma_lookup_update(s: Seq<(char, Trie)>, j: int, t: Trie)
    requires
        0 <= j < s.len(),
    ensures
        forall|d: char|
            d != s[j].0 ==> #[trigger] lookup(s.update(j, (s[j].0, t)), d) == lookup(s, d),
    decreases s.len(),
{
    let s2 = s.update(j, (s[j].0, t));
    assert forall|d: char| d != s[j].0 implies #[trigger] lookup(s2, d) == lookup(s, d) by {
        if j == 0 {
            assert(s2[0].0 == s[0].0);
            assert(s2.drop_first() =~= s.drop_first());
            assert(lookup(s2, d) == lookup(s2.drop_first(), d));
            assert(lookup(s, d) == lookup(s.drop_first(), d));
        } else {
            assert(s2[0] == s[0]);
            if s[0].0 != d {
                let sd = s.drop_first();
                lemma_lookup_update(sd, j - 1, t);
                assert(sd[j - 1] == s[j]);
                assert(lookup(sd.update(j - 1, (sd[j - 1].0, t)), d) == lookup(sd, d));
                assert(s2.drop_first() =~= sd.update(j - 1, (sd[j - 1].0, t)));
                assert(lookup(s2, d) == lookup(s2.drop_first(), d));
                assert(lookup(s, d) == lookup(sd, d));
            }
        }
    }
}

/// Appending an entry under a fresh key adds exactly that lookup.
pub proof fn lemma_lookup_push(s: Seq<(char, Trie)>, c: char, t: Trie)
    requires
        lookup(s, c) is None,
    ensures
        lookup(s.push((c, t)), c) == Some(t),
        forall|d: char| d != c ==> #[trigger] lookup(s.push((c, t)), d) == lookup(s, d),
    decreases s.len(),
{
    let s2 = s.push((c, t));
    if s.len() == 0 {
        assert(s2[0].0 == c);
        assert forall|d: char| d != c implies #[trigger] lookup(s2, d) == lookup(s, d) by {
            assert(s2.drop_first() =~= Seq::<(char, Trie)>::empty());
            assert(lookup(s2.drop_first(), d) is None);
            assert(lookup(s, d) is None);
        }
    } else {
        let sd = s.drop_first();
        lemma_lookup_push(sd, c, t);
        assert(s2.drop_first() =~= sd.push((c, t)));
        assert(s2[0] == s[0]);
        assert(s[0].0 != c);
        assert(lookup(s2, c) == lookup(s2.drop_first(), c));
        assert(lookup(sd.push((c, t)), c) == Some(t));
        assert forall|d: char| d != c implies #[trigger] lookup(s2, d) == lookup(s, d) by {
            if s[0].0 == d {
                assert(lookup(s2, d) == Some(s2[0].1));
                assert(lookup(s, d) == Some(s[0].1));
            } else {
                assert(lookup(sd.push((c, t)), d) == lookup(sd, d));
                assert(lookup(s2, d) == lookup(s2.drop_first(), d));
                assert(lookup(s, d) == lookup(sd, d));
            }
        }
    }
}

/// One insertion of `w`: every word's count grew by exactly one occurrence
/// of `w`, and by nothing else.
pub open spec fn insert_step(pre: Trie, post: Trie, w: Seq<char>) -> bool {
    forall|v: Seq<char>|
        #[trigger] post.spec_count(v) == pre.spec_count(v) + (if v == w {
            1int
        } else {
            0int
        })
}

/// Two non-empty sequences with the same head and the same tail are equal.
pub proof fn lemma_eq_step(a: Seq<char>, b: Seq<char>)
    requires
        a.len() > 0,
        b.len() > 0,
        a[0] == b[0],
        a.drop_first() == b.drop_first(),
    ensures
        a == b,
{
    assert(a.drop_first().len() == a.len() - 1);
    assert(b.drop_first().len() == b.len() - 1);
    assert(a.len() == b.len());
    assert forall|i: int| 0 <= i < a.len() implies a[i] == b[i] by {
        if i > 0 {
            assert(a.drop_first()[i - 1] == a[i]);
            assert(b.drop_first()[i - 1] == b[i]);
            assert(a.drop_first()[i - 1] == b.drop_first()[i - 1]);
        }
    }
    assert(a =~= b);
}

/// A non-empty sequence is a prefix of another exactly when their heads
/// agree and its tail is a prefix of the other's tail.
pub proof fn lemma_prefix_step(p: Seq<char>, s: Seq<char>)
    requires
        p.len() > 0,
        s.len() > 0,
        p[0] == s[0],
    ensures
        p.is_prefix_of(s) <==> p.drop_first().is_prefix_of(s.drop_first()),
{
    if p.drop_first().is_prefix_of(s.drop_first()) {
        assert forall|i: int| 0 <= i < p.len() implies p[i] == s[i] by {
            if i > 0 {
                assert(p.drop_first()[i - 1] == s.drop_first().subrange(
                    0,
                    p.drop_first().len() as int,
                )[i - 1]);
                assert(p.drop_first()[i - 1] == s.drop_first()[i - 1]);
            }
        }
        assert(p =~= s.subrange(0, p.len() as int));
    }
    if p.is_prefix_of(s) {
        assert forall|i: int| 0 <= i < p.len() - 1 implies p.drop_first()[i]
            == s.drop_first()[i] by {
            assert(p[i + 1] == s.subrange(0, p.len() as int)[i + 1]);
        }
        assert(p.drop_first() =~= s.drop_first().subrange(0, p.drop_first().len() as int));
    }
}

impl Trie {
    /// Adds one occurrence of the word `path`: walks or creates one child
    /// edge per character and increments the final node's `count`.  Every
    /// other word's count, and every node that existed before, is untouched.
    pub fn insert(&mut self, path: Vec<char>)
        requires
            old(self).wf(),
            old(self).spec_count(path@) < usize::MAX,
        ensures
            final(self).wf(),
            insert_step(*old(self), *final(self), path@),
            forall|p: Seq<char>|
                #[trigger] final(self).has_node(p) <==> (old(self).has_node(p) || p.is_prefix_of(path@)),
    {
        proof {
            assert(path@.skip(0) =~= path@);
        }
        self.insert_from(&path, 0);
    }

    /// Adds one occurrence of the suffix of `w` that starts at `i`, below
    /// this node.
    fn insert_from(&mut self, w: &Vec<char>, i: usize)
        requires
            i <= w@.len(),
            old(self).wf(),
            old(self).spec_count(w@.skip(i as int)) < usize::MAX,
        ensures
            final(self).wf(),
            forall|v: Seq<char>|
                #[trigger] final(self).spec_count(v) == old(self).spec_count(v) + (if v == w@.skip(
                    i as int,
                ) {
                    1int
                } else {
                    0int
                }),
            forall|p: Seq<char>|
                #[trigger] final(self).has_node(p) <==> (old(self).has_node(p) || p.is_prefix_of(
                    w@.skip(i as int),
                )),
        decreases w@.len() - i,
    {
        let ghost sfx = w@.skip(i as int);
        if i == w.len() {
            assert(sfx =~= Seq::<char>::empty());
            self.count = self.count + 1;
            assert forall|v: Seq<char>|
                #[trigger] self.spec_count(v) == old(self).spec_count(v) + (if v == sfx {
                    1int
                } else {
                    0int
                }) by {
                if v.len() == 0 {
                    assert(v =~= sfx);
                }
            }
            assert forall|p: Seq<char>|
                #[trigger] self.has_node(p) <==> (old(self).has_node(p) || p.is_prefix_of(
                    sfx,
                )) by {
                if p.is_prefix_of(sfx) {
                    assert(p.len() == 0);
                }
            }
        } else {
            let c = w[i];
            proof {
                assert(sfx[0] == c);
                assert(sfx.drop_first() =~= w@.skip(i as int + 1));
            }
            match child_index(&self.children, c) {
                Some(j) => {
                    let ghost s0 = self.children@;
                    let mut pair = self.children.remove(j);
                    let ghost sub0 = pair.1;
                    pair.1.insert_from(w, i + 1);
                    self.children.insert(j, pair);
                    proof {
                        assert(self.children@ =~= s0.update(j as int, (c, pair.1)));
                        self.lemma_after_child_update(*old(self), s0, j as int, c, sub0, pair.1, sfx);
                    }
                },
                None => {
                    let ghost s0 = self.children@;
                    let mut sub = Trie::new();
                    proof {
                        assert(sub.spec_count(sfx.drop_first()) == 0);
                    }
                    sub.insert_from(w, i + 1);
                    self.children.push((c, sub));
                    proof {
                        self.lemma_after_child_push(*old(self), s0, c, sub, sfx);
                    }
                },
            }
        }
    }

    /// After replacing the subtrie under `sfx[0]` by one whose counts and
    /// nodes grew by exactly the suffix, the whole node's counts and nodes
    /// grew by exactly `sfx`.
    proof fn lemma_after_child_update(
        self,
        pre: Trie,
        s0: Seq<(char, Trie)>,
        j: int,
        c: char,
        sub0: Trie,
        sub1: Trie,
        sfx: Seq<char>,
    )
        requires
            pre.wf(),
            pre.children@ == s0,
            0 <= j < s0.len(),
            s0[j] == (c, sub0),
            sfx.len() > 0,
            sfx[0] == c,
            self.count == pre.count,
            self.children@ == s0.update(j, (c, sub1)),
            sub1.wf(),
            forall|v: Seq<char>|
                #[trigger] sub1.spec_count(v) == sub0.spec_count(v) + (if v == sfx.drop_first() {
                    1int
                } else {
                    0int
                }),
            forall|p: Seq<char>|
                #[trigger] sub1.has_node(p) <==> (sub0.has_node(p) || p.is_prefix_of(
                    sfx.drop_first(),
                )),
        ensures
            self.wf(),
            forall|v: Seq<char>|
                #[trigger] self.spec_count(v) == pre.spec_count(v) + (if v == sfx {
                    1int
                } else {
                    0int
                }),
            forall|p: Seq<char>|
                #[trigger] self.has_node(p) <==> (pre.has_node(p) || p.is_prefix_of(sfx)),
    {
        let s1 = self.children@;
        assert forall|a: int, b: int| 0 <= a < b < s1.len() implies (#[trigger] s1[a]).0 != (
        #[trigger] s1[b]).0 by {
            assert(s1[a].0 == s0[a].0);
            assert(s1[b].0 == s0[b].0);
        }
        assert forall|a: int| 0 <= a < s1.len() implies (#[trigger] s1[a]).1.wf() by {
            if a == j {
                assert(s1[a].1 == sub1);
            } else {
                assert(s1[a] == s0[a]);
            }
        }
        lemma_lookup_update(s0, j, sub1);
        lemma_lookup_at(s0, j);
        lemma_lookup_at(s1, j);
        assert(lookup(s1, c) == Some(sub1));
        assert forall|v: Seq<char>|
            #[trigger] self.spec_count(v) == pre.spec_count(v) + (if v == sfx {
                1int
            } else {
                0int
            }) by {
            if v.len() == 0 {
                assert(v != sfx);
            } else if v[0] == c {
                assert(self.spec_count(v) == sub1.spec_count(v.drop_first()));
                assert(pre.spec_count(v) == sub0.spec_count(v.drop_first()));
                if v.drop_first() == sfx.drop_first() {
                    lemma_eq_step(v, sfx);
                } else {
                    assert(v != sfx);
                }
            } else {
                assert(lookup(s1, v[0]) == lookup(s0, v[0]));
                assert(v != sfx);
            }
        }
        assert forall|p: Seq<char>|
            #[trigger] self.has_node(p) <==> (pre.has_node(p) || p.is_prefix_of(sfx)) by {
            if p.len() == 0 {
                assert(p.is_prefix_of(sfx));
            } else if p[0] == c {
                assert(self.has_node(p) == sub1.has_node(p.drop_first()));
                assert(pre.has_node(p) == sub0.has_node(p.drop_first()));
                lemma_prefix_step(p, sfx);
            } else {
                assert(lookup(s1, p[0]) == lookup(s0, p[0]));
                assert(!p.is_prefix_of(sfx));
            }
        }
    }

    /// After adding a fresh child edge `c` holding exactly the suffix's
    /// tail, the whole node's counts and nodes grew by exactly `sfx`.
    proof fn lemma_after_child_push(
        self,
        pre: Trie,
        s0: Seq<(char, Trie)>,
        c: char,
        sub: Trie,
        sfx: Seq<char>,
    )
        requires
            pre.wf(),
            pre.children@ == s0,
            lookup(s0, c) is None,
            sfx.len() > 0,
            sfx[0] == c,
            self.count == pre.count,
            self.children@ == s0.push((c, sub)),
            sub.wf(),
            forall|v: Seq<char>|
                #[trigger] sub.spec_count(v) == if v == sfx.drop_first() {
                    1int
                } else {
                    0int
                },
            forall|p: Seq<char>| #[trigger] sub.has_node(p) <==> p.is_prefix_of(sfx.drop_first()),
        ensures
            self.wf(),
            forall|v: Seq<char>|
                #[trigger] self.spec_count(v) == pre.spec_count(v) + (if v == sfx {
                    1int
                } else {
                    0int
                }),
            forall|p: Seq<char>|
                #[trigger] self.has_node(p) <==> (pre.has_node(p) || p.is_prefix_of(sfx)),
    {
        let s1 = self.children@;
        lemma_lookup_none(s0, c);
        assert forall|a: int, b: int| 0 <= a < b < s1.len() implies (#[trigger] s1[a]).0 != (
        #[trigger] s1[b]).0 by {
            if b < s0.len() {
                assert(s1[a] == s0[a]);
                assert(s1[b] == s0[b]);
            } else {
                assert(s1[b].0 == c);
                assert(s1[a] == s0[a]);
            }
        }
        assert forall|a: int| 0 <= a < s1.len() implies (#[trigger] s1[a]).1.wf() by {
            if a < s0.len() {
                assert(s1[a] == s0[a]);
            } else {
                assert(s1[a].1 == sub);
            }
        }
        lemma_lookup_push(s0, c, sub);
        assert(lookup(s1, c) == Some(sub));
        assert forall|v: Seq<char>|
            #[trigger] self.spec_count(v) == pre.spec_count(v) + (if v == sfx {
                1int
            } else {
                0int
            }) by {
            if v.len() == 0 {
                assert(v != sfx);
            } else if v[0] == c {
                assert(self.spec_count(v) == sub.spec_count(v.drop_first()));
                assert(pre.spec_count(v) == 0);
                if v.drop_first() == sfx.drop_first() {
                    lemma_eq_step(v, sfx);
                } else {
                    assert(v != sfx);
                }
            } else {
                assert(lookup(s1, v[0]) == lookup(s0, v[0]));
                assert(v != sfx);
            }
        }
        assert forall|p: Seq<char>|
            #[trigger] self.has_node(p) <==> (pre.has_node(p) || p.is_prefix_of(sfx)) by {
            if p.len() == 0 {
                assert(p.is_prefix_of(sfx));
            } else if p[0] == c {
                assert(self.has_node(p) == sub.has_node(p.drop_first()));
                assert(!pre.has_node(p));
                lemma_prefix_step(p, sfx);
            } else {
                assert(lookup(s1, p[0]) == lookup(s0, p[0]));
                assert(!p.is_prefix_of(sfx));
            }
        }
    }

    /// Exact-match test: true iff `path` was inserted at least once.
    pub fn search(&self, path: Vec<char>) -> (r: bool)
        ensures
            r == (self.spec_count(path@) > 0),
    {
        let mut node: &Trie = self;
        let n = path.len();
        proof {
            assert(path@.skip(0) =~= path@);
        }
        for i in 0..n
            invariant
                n == path@.len(),
                node.spec_count(path@.skip(i as int)) == self.spec_count(path@),
        {
            proof {
                assert(path@.skip(i as int)[0] == path@[i as int]);
                assert(path@.skip(i as int).drop_first() =~= path@.skip(i as int + 1));
            }
            match child_index(&node.children, path[i]) {
                Some(j) => {
                    node = &node.children[j].1;
                },
                None => {
                    return false;
                },
            }
        }
        proof {
            assert(path@.skip(n as int) =~= Seq::<char>::empty());
        }
        node.count > 0
    }
}

/// Finds the position of the subtrie stored under `c`, if any.
pub fn child_index(s: &Vec<(char, Trie)>, c: char) -> (r: Option<usize>)
    ensures
        match r {
            Some(j) => j < s@.len() && s@[j as int].0 == c && lookup(s@, c) == Some(
                s@[j as int].1,
            ),
            None => lookup(s@, c) is None,
        },
{
    let n = s.len();
    for j in 0..n
        invariant
            n == s@.len(),
            forall|i: int| 0 <= i < j ==> (#[trigger] s@[i]).0 != c,
    {
        if s[j].0 == c {
            proof {
                lemma_lookup_first(s@, c, j as int);
            }
            return Some(j);
        }
    }
    proof {
        lemma_lookup_none(s@, c);
    }
    None
}

/// Adds one occurrence of `word` to the trie.
pub fn insert_trie(t: &mut Trie, word: String)
    requires
        old(t).wf(),
        old(t).spec_count(word@) < usize::MAX,
    ensures
        final(t).wf(),
        insert_step(*old(t), *final(t), word@),
        forall|p: Seq<char>|
            #[trigger] final(t).has_node(p) <==> (old(t).has_node(p) || p.is_prefix_of(word@)),
{
    let cs = str_to_chars(word.as_str());
    t.insert(cs);
}

/// Exact-match test on a `String` word.
pub fn search_trie(t: &Trie, word: String) -> (r: bool)
    ensures
        r == (t.spec_count(word@) > 0),
{
    let cs = str_to_chars(word.as_str());
    t.search(cs)
}

} // verus!
