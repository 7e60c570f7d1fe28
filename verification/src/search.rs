//! The bounded-edit corrector.
//!
//! `within` is the edit-distance relation: one edit deletes a character of
//! the query, inserts one, replaces one, or transposes two neighboring ones.
//! The search walks the trie and keeps the best terminal node reached:
//! fewest edits first, higher frequency breaking ties on edits.

use vstd::prelude::*;

use crate::trie::lemma_eq_step;
use crate::trie::lemma_lookup_at;
use crate::trie::lemma_lookup_none;
use crate::trie::child_index;
use crate::trie::lookup;
use crate::trie::Trie;
use crate::strutil::chars_to_string;
use crate::strutil::str_to_chars;

verus! {

/// The word `w` can be reached from the query `q` with at most `k` edits,
/// where one edit deletes a character of `q`, inserts one, replaces one, or
/// matches the second of two neighboring characters of `q` before the first
/// (an adjacent transposition).
pub open spec fn within(q: Seq<char>, w: Seq<char>, k: nat) -> bool
    decreases q.len() + w.len(),
{
    if q == w {
        true
    } else if k == 0 {
        false
    } else {
        ||| (q.len() > 0 && w.len() > 0 && q[0] == w[0] && within(
            q.drop_first(),
            w.drop_first(),
            k,
        ))
        ||| (q.len() > 0 && within(q.drop_first(), w, (k - 1) as nat))
        ||| (w.len() > 0 && within(q, w.drop_first(), (k - 1) as nat))
        ||| (q.len() > 0 && w.len() > 0 && within(q.drop_first(), w.drop_first(), (k - 1) as nat))
        ||| (q.len() >= 2 && w.len() > 0 && q[1] == w[0] && within(
            seq![q[0]] + q.skip(2),
            w.drop_first(),
            (k - 1) as nat,
        ))
    }
}

/// The running best candidate of one search invocation.
pub struct CheckResult {
    /// The best correction found so far, as characters, if any qualified yet.
    pub word: Option<Vec<char>>,
    /// The frequency of the node that produced `word`.
    pub count: usize,
    /// The edit count of `word`; while nothing qualified, the edit budget.
    pub edit: usize,
}

/// What the accumulator always satisfies: nothing was found and the budget
/// stands, or the stored word is a corpus word with its frequency, reachable
/// from the query within the stored edit count, inside the budget.
pub open spec fn check_inv(c: CheckResult, root: Trie, q: Seq<char>, max: nat) -> bool {
    match c.word {
        Option::None => c.count == 0 && c.edit == max,
        Option::Some(p) => {
            &&& root.spec_count(p@) == c.count
            &&& c.count > 0
            &&& within(q, p@, c.edit as nat)
            &&& c.edit <= max
        },
    }
}

/// The accumulator beats a candidate that takes `e` edits and has frequency
/// `cnt`: it holds something with strictly fewer edits, or as few edits and
/// at least that frequency.
pub open spec fn beats(c: CheckResult, e: nat, cnt: nat) -> bool {
    &&& c.word is Some
    &&& (c.edit < e || (c.edit == e && c.count >= cnt))
}

/// The accumulator only ever improves: it is unchanged, or it holds a word
/// with strictly fewer edits, or one with as few edits and strictly higher
/// frequency.
pub open spec fn improves(a: CheckResult, b: CheckResult) -> bool {
    ||| b == a
    ||| (b.word is Some && (b.edit < a.edit || (b.edit == a.edit && b.count > a.count)))
}

/// `improves` chains, and whatever the accumulator beats it keeps beating.
pub proof fn lemma_improves_trans(a: CheckResult, b: CheckResult, c: CheckResult)
    requires
        improves(a, b),
        improves(b, c),
    ensures
        improves(a, c),
        forall|e: nat, cnt: nat| beats(a, e, cnt) ==> beats(c, e, cnt),
{
}

/// An exact head match consumes no edit.
pub proof fn lemma_within_match(q: Seq<char>, w: Seq<char>, j: nat)
    requires
        q.len() > 0,
        w.len() > 0,
        q[0] == w[0],
        within(q.drop_first(), w.drop_first(), j),
    ensures
        within(q, w, j),
{
    if q != w {
        assert(j > 0 || q.drop_first() == w.drop_first()) by {
            if j == 0 && q.drop_first() != w.drop_first() {
                assert(!within(q.drop_first(), w.drop_first(), 0));
            }
        }
        if q.drop_first() == w.drop_first() {
            lemma_eq_step(q, w);
        }
    }
}

/// Deleting the head character of the query costs one edit.
pub proof fn lemma_within_delete(q: Seq<char>, w: Seq<char>, j: nat)
    requires
        q.len() > 0,
        within(q.drop_first(), w, j),
    ensures
        within(q, w, j + 1),
{
}

/// Inserting a character in front of the word costs one edit.
pub proof fn lemma_within_insert(q: Seq<char>, w: Seq<char>, j: nat, ch: char)
    requires
        within(q, w, j),
    ensures
        within(q, seq![ch] + w, j + 1),
{
    let w2 = seq![ch] + w;
    assert(w2.drop_first() =~= w);
    assert(w2.len() > 0);
}

/// Replacing the head character of the query costs one edit.
pub proof fn lemma_within_subst(q: Seq<char>, w: Seq<char>, j: nat, ch: char)
    requires
        q.len() > 0,
        within(q.drop_first(), w, j),
    ensures
        within(q, seq![ch] + w, j + 1),
{
    let w2 = seq![ch] + w;
    assert(w2.drop_first() =~= w);
    assert(w2.len() > 0);
}

/// Matching the second query character before the first costs one edit.
pub proof fn lemma_within_transpose(q: Seq<char>, w: Seq<char>, j: nat)
    requires
        q.len() >= 2,
        within(seq![q[0]] + q.skip(2), w, j),
    ensures
        within(q, seq![q[1]] + w, j + 1),
{
    let w2 = seq![q[1]] + w;
    assert(w2.drop_first() =~= w);
    assert(w2[0] == q[1]);
    assert(w2.len() > 0);
}

/// Whatever the query suffix `to_go` reaches in `j` edits, the whole query
/// `q` reaches, prefixed by `path`, in `k + j` edits.
pub open spec fn lifts_edits(to_go: Seq<char>, path: Seq<char>, k: nat, q: Seq<char>) -> bool {
    forall|w: Seq<char>, j: nat| #[trigger] within(to_go, w, j) ==> within(q, path + w, k + j)
}

/// The node holds exactly the root's words that extend `path`.
pub open spec fn lifts_counts(node: Trie, path: Seq<char>, root: Trie) -> bool {
    forall|w: Seq<char>| #[trigger] node.spec_count(w) == root.spec_count(path + w)
}

/// Every corpus word below `node` reachable from `to_go` inside the budget
/// is beaten by the accumulator.
pub open spec fn beats_all(c: CheckResult, node: Trie, to_go: Seq<char>, k: nat, max: nat) -> bool {
    forall|w: Seq<char>, j: nat|
        node.spec_count(w) > 0 && #[trigger] within(to_go, w, j) && k + j <= max ==> beats(
            c,
            k + j,
            node.spec_count(w),
        )
}

/// The accumulator beats every word whose head matches the suffix's head and
/// whose tail is reachable from the suffix's tail.
pub open spec fn beats_heads(c: CheckResult, node: Trie, tg: Seq<char>, k: nat, max: nat) -> bool {
    forall|w: Seq<char>, j: nat|
        node.spec_count(w) > 0 && w.len() > 0 && tg.len() > 0 && w[0] == tg[0] && #[trigger] within(
            tg.drop_first(),
            w.drop_first(),
            j,
        ) && k + j <= max ==> beats(c, k + j, node.spec_count(w))
}

/// The accumulator beats every word reachable by first transposing the two
/// leading characters of the suffix.
pub open spec fn beats_transposed(
    c: CheckResult,
    node: Trie,
    tg: Seq<char>,
    k: nat,
    max: nat,
) -> bool {
    forall|w: Seq<char>, j: nat|
        node.spec_count(w) > 0 && w.len() > 0 && tg.len() >= 2 && w[0] == tg[1] && #[trigger] within(
            seq![tg[0]] + tg.skip(2),
            w.drop_first(),
            j,
        ) && k + 1 + j <= max ==> beats(c, k + 1 + j, node.spec_count(w))
}

/// Whatever one invocation newly records extends `path` by a suffix found
/// below `node`: a word of this subtree whose count the accumulator holds,
/// reached from `to_go` with exactly the edits charged past `k`.
pub open spec fn records_local(
    a: CheckResult,
    b: CheckResult,
    node: Trie,
    to_go: Seq<char>,
    path: Seq<char>,
    k: nat,
) -> bool {
    b != a ==> match b.word {
        Option::Some(p) => k <= b.edit && exists|s: Seq<char>|
            #![auto]
            p@ == path + s && node.spec_count(s) == b.count && within(
                to_go,
                s,
                (b.edit - k) as nat,
            ),
        Option::None => false,
    }
}

/// Newly recorded words chain: whichever of two steps recorded last did so
/// below this node.
pub proof fn lemma_records_trans(
    a: CheckResult,
    b: CheckResult,
    c: CheckResult,
    node: Trie,
    to_go: Seq<char>,
    path: Seq<char>,
    k: nat,
)
    requires
        records_local(a, b, node, to_go, path, k),
        records_local(b, c, node, to_go, path, k),
    ensures
        records_local(a, c, node, to_go, path, k),
{
    if c != a && c == b {
        assert(b != a);
    }
}

/// Lifts a child's newly recorded word through the edge `ch`: prefixing the
/// edge to the child's suffix gives this node's suffix, with the edit step
/// justified by the given clause of `within`.
pub proof fn lemma_records_step(
    a: CheckResult,
    b: CheckResult,
    node: Trie,
    child: Trie,
    ch: char,
    to_go: Seq<char>,
    to_go_child: Seq<char>,
    path: Seq<char>,
    k: nat,
    k_child: nat,
)
    requires
        lookup(node.children@, ch) == Some(child),
        records_local(a, b, child, to_go_child, path + seq![ch], k_child),
        k <= k_child,
        forall|s: Seq<char>, j: nat|
            #[trigger] within(to_go_child, s, j) ==> within(
                to_go,
                seq![ch] + s,
                (j + k_child - k) as nat,
            ),
    ensures
        records_local(a, b, node, to_go, path, k),
{
    if b != a {
        match b.word {
            Option::Some(p) => {
                let s1 = choose|s: Seq<char>|
                    #![auto]
                    p@ == (path + seq![ch]) + s && child.spec_count(s) == b.count && within(
                        to_go_child,
                        s,
                        (b.edit - k_child) as nat,
                    );
                let s2 = seq![ch] + s1;
                assert((path + seq![ch]) + s1 =~= path + s2);
                assert(s2[0] == ch);
                assert(s2.drop_first() =~= s1);
                assert(node.spec_count(s2) == child.spec_count(s1));
                assert(within(to_go, s2, ((b.edit - k_child) as nat + k_child - k) as nat));
                assert(((b.edit - k_child) as nat + k_child - k) as nat == (b.edit - k) as nat);
            },
            Option::None => {},
        }
    }
}

/// Copies the suffix of `v` that starts at `from`.
pub fn tail(v: &Vec<char>, from: usize) -> (r: Vec<char>)
    requires
        from <= v@.len(),
    ensures
        r@ == v@.skip(from as int),
{
    let mut r: Vec<char> = Vec::new();
    let n = v.len();
    for i in from..n
        invariant
            from <= i <= n,
            n == v@.len(),
            r@ == v@.subrange(from as int, i as int),
    {
        r.push(v[i]);
        proof {
            assert(r@ =~= v@.subrange(from as int, i as int + 1));
        }
    }
    proof {
        assert(r@ =~= v@.skip(from as int));
    }
    r
}

/// The recursive bounded-edit exploration.  `node` is the subtrie reached by
/// consuming a prefix of the query `q` with `k` edits, spelling `path`;
/// `to_go` is the query suffix still to match.  On return the accumulator
/// has only improved, still satisfies its invariant, and beats every corpus
/// word below `node` that `to_go` reaches inside the budget.
#[verifier::loop_isolation(false)]
#[verifier::rlimit(60)]
pub fn search_with_k_edit(
    node: &Trie,
    to_go: &Vec<char>,
    path: &mut Vec<char>,
    k: usize,
    check: &mut CheckResult,
    Ghost(root): Ghost<Trie>,
    Ghost(q): Ghost<Seq<char>>,
    Ghost(max): Ghost<nat>,
)
    requires
        node.wf(),
        lifts_edits(to_go@, old(path)@, k as nat, q),
        lifts_counts(*node, old(path)@, root),
        check_inv(*old(check), root, q, max),
    ensures
        final(path)@ == old(path)@,
        improves(*old(check), *final(check)),
        check_inv(*final(check), root, q, max),
        beats_all(*final(check), *node, to_go@, k as nat, max),
        records_local(*old(check), *final(check), *node, to_go@, old(path)@, k as nat),
    decreases *node, to_go@.len(),
{
    let ghost p0 = old(path)@;
    let ghost c_in = *old(check);
    let ghost tg = to_go@;
    if to_go.len() == 0 {
        proof {
            assert(tg =~= Seq::<char>::empty());
        }
        if (k < check.edit && node.count > 0) || (node.count > check.count && k == check.edit) {
            // This node ends a corpus word and wins: fewer edits than the
            // best so far, or as many with higher frequency.
            let found = tail(path, 0);
            proof {
                assert(found@ =~= p0);
            }
            check.count = node.count;
            check.word = Some(found);
            check.edit = k;
            proof {
                let e = Seq::<char>::empty();
                assert(within(tg, e, 0));
                assert(within(q, p0 + e, (k + 0) as nat));
                assert(p0 + e =~= p0);
                assert(node.spec_count(e) == root.spec_count(p0 + e));
                assert(node.spec_count(e) == node.count);
                assert(check_inv(*check, root, q, max));
                assert(improves(c_in, *check));
                assert forall|w: Seq<char>, j: nat|
                    node.spec_count(w) > 0 && #[trigger] within(tg, w, j) && k + j
                        <= max implies beats(*check, (k + j) as nat, node.spec_count(w)) by {
                    if w.len() == 0 {
                        assert(w =~= e);
                    } else {
                        assert(j >= 1);
                    }
                }
                assert(within(tg, e, (check.edit - k) as nat));
                assert(records_local(c_in, *check, *node, tg, p0, k as nat));
            }
        } else {
            if k < check.edit {
                // The query is exhausted but no acceptable word ends here:
                // try appending trailing characters, one insertion each.
                let ghost c0 = *check;
                let n = node.children.len();
                for idx in 0..n
                    invariant
                        path@ == p0,
                        improves(c0, *check),
                        check_inv(*check, root, q, max),
                        records_local(c0, *check, *node, tg, p0, k as nat),
                        forall|w: Seq<char>, jm: nat|
                            w.len() > 0 && (exists|i: int|
                                0 <= i < idx && (#[trigger] node.children@[i]).0 == w[0])
                                && node.spec_count(w) > 0 && k + 1 + jm <= max && #[trigger] within(
                                Seq::<char>::empty(),
                                w.drop_first(),
                                jm,
                            ) ==> beats(*check, (k + 1 + jm) as nat, node.spec_count(w)),
                {
                    let ch = node.children[idx].0;
                    let ghost child = node.children@[idx as int].1;
                    let ghost p1 = p0 + seq![ch];
                    proof {
                        lemma_lookup_at(node.children@, idx as int);
                        assert forall|w: Seq<char>, j: nat| #[trigger] within(tg, w, j) implies within(
                            q,
                            p1 + w,
                            (k + 1) as nat + j,
                        ) by {
                            lemma_within_insert(tg, w, j, ch);
                            assert(within(q, p0 + (seq![ch] + w), k as nat + (j + 1)));
                            assert(p0 + (seq![ch] + w) =~= p1 + w);
                        }
                        assert forall|w: Seq<char>| true implies #[trigger] child.spec_count(w)
                            == root.spec_count(p1 + w) by {
                            let w2 = seq![ch] + w;
                            assert(w2[0] == ch);
                            assert(w2.drop_first() =~= w);
                            assert(node.spec_count(w2) == child.spec_count(w));
                            assert(node.spec_count(w2) == root.spec_count(p0 + w2));
                            assert(p0 + w2 =~= p1 + w);
                        }
                        assert(decreases_to!(*node => node.children@[idx as int].1));
                    }
                    path.push(ch);
                    proof {
                        assert(path@ =~= p1);
                    }
                    let ghost cb = *check;
                    search_with_k_edit(
                        &node.children[idx].1,
                        to_go,
                        path,
                        k + 1,
                        check,
                        Ghost(root),
                        Ghost(q),
                        Ghost(max),
                    );
                    path.pop();
                    proof {
                        assert(path@ =~= p0);
                        lemma_improves_trans(c0, cb, *check);
                        lemma_beats_improves(cb, *check);
                        assert forall|w: Seq<char>, jm: nat|
                            w.len() > 0 && (exists|i: int|
                                0 <= i < idx + 1 && (#[trigger] node.children@[i]).0 == w[0])
                                && node.spec_count(w) > 0 && k + 1 + jm <= max && #[trigger] within(
                                Seq::<char>::empty(),
                                w.drop_first(),
                                jm,
                            ) implies beats(*check, (k + 1 + jm) as nat, node.spec_count(w)) by {
                            let i = choose|i: int|
                                0 <= i < idx + 1 && (#[trigger] node.children@[i]).0 == w[0];
                            if i == idx {
                                assert(lookup(node.children@, ch) == Some(child));
                                assert(w[0] == ch);
                                assert(node.spec_count(w) == child.spec_count(w.drop_first()));
                                assert(beats(*check, ((k + 1) as nat + jm) as nat, child.spec_count(
                                    w.drop_first(),
                                )));
                            }
                        }
                        assert forall|s: Seq<char>, j: nat| #[trigger] within(tg, s, j) implies within(
                            tg,
                            seq![ch] + s,
                            (j + (k + 1) as nat - k as nat) as nat,
                        ) by {
                            lemma_within_insert(tg, s, j, ch);
                        }
                        lemma_records_step(
                            cb,
                            *check,
                            *node,
                            child,
                            ch,
                            tg,
                            tg,
                            p0,
                            k as nat,
                            (k + 1) as nat,
                        );
                        lemma_records_trans(c0, cb, *check, *node, tg, p0, k as nat);
                    }
                }
                proof {
                    assert forall|w: Seq<char>, j: nat|
                        node.spec_count(w) > 0 && #[trigger] within(tg, w, j) && k + j
                            <= max implies beats(*check, (k + j) as nat, node.spec_count(w)) by {
                        if w.len() == 0 {
                            assert(w =~= Seq::<char>::empty());
                            assert(node.spec_count(w) == node.count);
                            assert(false);
                        } else {
                            assert(j >= 1 && within(
                                Seq::<char>::empty(),
                                w.drop_first(),
                                (j - 1) as nat,
                            ));
                            assert(lookup(node.children@, w[0]) is Some);
                            lemma_lookup_none(node.children@, w[0]);
                            assert(exists|i: int|
                                0 <= i < n && (#[trigger] node.children@[i]).0 == w[0]);
                        }
                    }
                    lemma_improves_trans(c_in, c_in, *check);
                    assert(c0 == c_in);
                    assert(records_local(c_in, *check, *node, tg, p0, k as nat));
                }
            } else {
                // The edit budget for this branch is spent and this node did
                // not qualify: nothing deeper can qualify either.
                proof {
                    assert forall|w: Seq<char>, j: nat|
                        node.spec_count(w) > 0 && #[trigger] within(tg, w, j) && k + j
                            <= max implies beats(*check, (k + j) as nat, node.spec_count(w)) by {
                        if w.len() == 0 {
                            assert(w =~= Seq::<char>::empty());
                            assert(node.spec_count(w) == node.count);
                            if c_in.word is None {
                                assert(false);
                            }
                        } else {
                            assert(j >= 1);
                            if c_in.word is None {
                                assert(false);
                            }
                        }
                    }
                }
            }
        }
    } else {
        let c0v = to_go[0];
        let rest = tail(to_go, 1);
        let ghost rest_s = rest@;
        proof {
            assert(rest_s =~= tg.drop_first());
            assert(tg[0] == c0v);
        }
        // Exact character match: no edit spent.
        match child_index(&node.children, c0v) {
            Some(j0) => {
                let ghost child = node.children@[j0 as int].1;
                let ghost p1 = p0 + seq![c0v];
                proof {
                    assert forall|w: Seq<char>, j: nat| #[trigger] within(rest_s, w, j) implies within(
                        q,
                        p1 + w,
                        k as nat + j,
                    ) by {
                        let w2 = seq![c0v] + w;
                        assert(w2.drop_first() =~= w);
                        assert(w2[0] == c0v);
                        lemma_within_match(tg, w2, j);
                        assert(within(q, p0 + (seq![c0v] + w), k as nat + j));
                        assert(p0 + (seq![c0v] + w) =~= p1 + w);
                    }
                    assert forall|w: Seq<char>| true implies #[trigger] child.spec_count(w)
                        == root.spec_count(p1 + w) by {
                        let w2 = seq![c0v] + w;
                        assert(w2[0] == c0v);
                        assert(w2.drop_first() =~= w);
                        assert(node.spec_count(w2) == child.spec_count(w));
                        assert(node.spec_count(w2) == root.spec_count(p0 + w2));
                        assert(p0 + w2 =~= p1 + w);
                    }
                    assert(decreases_to!(*node => node.children@[j0 as int].1));
                }
                path.push(c0v);
                proof {
                    assert(path@ =~= p1);
                }
                search_with_k_edit(
                    &node.children[j0].1,
                    &rest,
                    path,
                    k,
                    check,
                    Ghost(root),
                    Ghost(q),
                    Ghost(max),
                );
                path.pop();
                proof {
                    assert(path@ =~= p0);
                    assert forall|w: Seq<char>, j: nat|
                        node.spec_count(w) > 0 && w.len() > 0 && tg.len() > 0 && w[0] == tg[0]
                            && #[trigger] within(tg.drop_first(), w.drop_first(), j) && k as nat + j
                            <= max implies beats(*check, k as nat + j, node.spec_count(w)) by {
                        assert(lookup(node.children@, c0v) == Some(child));
                        assert(node.spec_count(w) == child.spec_count(w.drop_first()));
                        assert(within(rest_s, w.drop_first(), j));
                        assert(beats(*check, k as nat + j, child.spec_count(w.drop_first())));
                    }
                    assert(beats_heads(*check, *node, tg, k as nat, max));
                    assert forall|s: Seq<char>, j: nat| #[trigger] within(rest_s, s, j) implies within(
                        tg,
                        seq![c0v] + s,
                        (j + k as nat - k as nat) as nat,
                    ) by {
                        let w2 = seq![c0v] + s;
                        assert(w2.drop_first() =~= s);
                        assert(w2[0] == c0v);
                        lemma_within_match(tg, w2, j);
                    }
                    lemma_records_step(
                        c_in,
                        *check,
                        *node,
                        child,
                        c0v,
                        tg,
                        rest_s,
                        p0,
                        k as nat,
                        k as nat,
                    );
                    assert(records_local(c_in, *check, *node, tg, p0, k as nat));
                }
            },
            None => {
                proof {
                    assert forall|w: Seq<char>, j: nat|
                        node.spec_count(w) > 0 && w.len() > 0 && tg.len() > 0 && w[0] == tg[0]
                            && #[trigger] within(tg.drop_first(), w.drop_first(), j) && k as nat + j
                            <= max implies beats(*check, k as nat + j, node.spec_count(w)) by {
                        assert(lookup(node.children@, w[0]) is Some);
                        assert(false);
                    }
                    assert(beats_heads(*check, *node, tg, k as nat, max));
                    assert(records_local(c_in, *check, *node, tg, p0, k as nat));
                }
            },
        }
        let ghost cx = *check;
        proof {
            assert(beats_heads(cx, *node, tg, k as nat, max));
            assert(records_local(c_in, cx, *node, tg, p0, k as nat));
            lemma_improves_trans(c_in, c_in, cx);
        }
        if k >= check.edit {
            // Pruning: a candidate at least as good already exists, so no
            // edited continuation from here can improve on it.
            proof {
                assert forall|w: Seq<char>, j: nat|
                    node.spec_count(w) > 0 && #[trigger] within(tg, w, j) && k + j
                        <= max implies beats(cx, (k + j) as nat, node.spec_count(w)) by {
                    if tg == w {
                        assert(within(tg.drop_first(), w.drop_first(), j));
                        assert(w[0] == tg[0]);
                    } else if w.len() > 0 && tg[0] == w[0] && within(
                        tg.drop_first(),
                        w.drop_first(),
                        j,
                    ) {
                    } else {
                        assert(j >= 1);
                        if cx.word is None {
                            assert(false);
                        }
                    }
                }
            }
            return ;
        }
        // Deletion: treat the head of the suffix as extraneous.
        proof {
            assert forall|w: Seq<char>, j: nat| #[trigger] within(rest_s, w, j) implies within(
                q,
                p0 + w,
                (k + 1) as nat + j,
            ) by {
                lemma_within_delete(tg, w, j);
                assert(within(q, p0 + w, k as nat + (j + 1)));
            }
        }
        search_with_k_edit(node, &rest, path, k + 1, check, Ghost(root), Ghost(q), Ghost(max));
        let ghost cd = *check;
        proof {
            lemma_improves_trans(c_in, cx, cd);
            assert(records_local(cx, cd, *node, tg, p0, k as nat)) by {
                if cd != cx {
                    match cd.word {
                        Option::Some(p) => {
                            let s1 = choose|s: Seq<char>|
                                #![auto]
                                p@ == p0 + s && node.spec_count(s) == cd.count && within(
                                    rest_s,
                                    s,
                                    (cd.edit - (k + 1) as nat) as nat,
                                );
                            lemma_within_delete(tg, s1, (cd.edit - (k + 1) as nat) as nat);
                            assert(within(tg, s1, (cd.edit - k) as nat));
                        },
                        Option::None => {
                            assert(false);
                        },
                    }
                }
            }
            lemma_records_trans(c_in, cx, cd, *node, tg, p0, k as nat);
        }
        // Transposition: match the second suffix character first.
        if to_go.len() > 1 {
            let c1v = to_go[1];
            match child_index(&node.children, c1v) {
                Some(j1) => {
                    let ghost child = node.children@[j1 as int].1;
                    let ghost p1 = p0 + seq![c1v];
                    let mut go = tail(to_go, 2);
                    go.insert(0, c0v);
                    let ghost go_s = go@;
                    proof {
                        assert(go_s =~= seq![tg[0]] + tg.skip(2));
                        assert forall|w: Seq<char>, j: nat| #[trigger] within(go_s, w, j) implies within(
                            q,
                            p1 + w,
                            (k + 1) as nat + j,
                        ) by {
                            lemma_within_transpose(tg, w, j);
                            assert(within(tg, seq![tg[1]] + w, (j + 1) as nat));
                            assert(within(q, p0 + (seq![tg[1]] + w), k as nat + (j + 1)));
                            assert(p0 + (seq![tg[1]] + w) =~= p1 + w);
                        }
                        assert forall|w: Seq<char>| true implies #[trigger] child.spec_count(w)
                            == root.spec_count(p1 + w) by {
                            let w2 = seq![c1v] + w;
                            assert(w2[0] == c1v);
                            assert(w2.drop_first() =~= w);
                            assert(node.spec_count(w2) == child.spec_count(w));
                            assert(node.spec_count(w2) == root.spec_count(p0 + w2));
                            assert(p0 + w2 =~= p1 + w);
                        }
                        assert(decreases_to!(*node => node.children@[j1 as int].1));
                    }
                    path.push(c1v);
                    proof {
                        assert(path@ =~= p1);
                    }
                    search_with_k_edit(
                        &node.children[j1].1,
                        &go,
                        path,
                        k + 1,
                        check,
                        Ghost(root),
                        Ghost(q),
                        Ghost(max),
                    );
                    path.pop();
                    proof {
                        assert(path@ =~= p0);
                        assert forall|w: Seq<char>, j: nat|
                            node.spec_count(w) > 0 && w.len() > 0 && tg.len() >= 2 && w[0] == tg[1]
                                && #[trigger] within(seq![tg[0]] + tg.skip(2), w.drop_first(), j)
                                && k + 1 + j <= max implies beats(
                            *check,
                            (k + 1 + j) as nat,
                            node.spec_count(w),
                        ) by {
                            assert(lookup(node.children@, c1v) == Some(child));
                            assert(node.spec_count(w) == child.spec_count(w.drop_first()));
                            assert(within(go_s, w.drop_first(), j));
                            assert(beats(*check, (k + 1) as nat + j, child.spec_count(
                                w.drop_first(),
                            )));
                        }
                        assert(beats_transposed(*check, *node, tg, k as nat, max));
                        assert forall|s: Seq<char>, j: nat| #[trigger] within(go_s, s, j) implies within(
                            tg,
                            seq![c1v] + s,
                            (j + (k + 1) as nat - k as nat) as nat,
                        ) by {
                            lemma_within_transpose(tg, s, j);
                        }
                        lemma_records_step(
                            cd,
                            *check,
                            *node,
                            child,
                            c1v,
                            tg,
                            go_s,
                            p0,
                            k as nat,
                            (k + 1) as nat,
                        );
                        assert(records_local(cd, *check, *node, tg, p0, k as nat));
                    }
                },
                None => {
                    proof {
                        assert forall|w: Seq<char>, j: nat|
                            node.spec_count(w) > 0 && w.len() > 0 && tg.len() >= 2 && w[0] == tg[1]
                                && #[trigger] within(seq![tg[0]] + tg.skip(2), w.drop_first(), j)
                                && k + 1 + j <= max implies beats(
                            *check,
                            (k + 1 + j) as nat,
                            node.spec_count(w),
                        ) by {
                            assert(lookup(node.children@, w[0]) is Some);
                            assert(false);
                        }
                        assert(beats_transposed(*check, *node, tg, k as nat, max));
                        assert(records_local(cd, *check, *node, tg, p0, k as nat));
                    }
                },
            }
        } else {
            proof {
                assert(beats_transposed(*check, *node, tg, k as nat, max));
                assert(records_local(cd, *check, *node, tg, p0, k as nat));
            }
        }
        let ghost ct = *check;
        proof {
            assert(beats_transposed(ct, *node, tg, k as nat, max));
            assert(records_local(cd, ct, *node, tg, p0, k as nat));
            lemma_records_trans(c_in, cd, ct, *node, tg, p0, k as nat);
            lemma_improves_trans(c_in, cd, ct);
        }
        // Insertion and substitution, one try per child edge.
        let n = node.children.len();
        for idx in 0..n
            invariant
                path@ == p0,
                improves(ct, *check),
                check_inv(*check, root, q, max),
                records_local(ct, *check, *node, tg, p0, k as nat),
                forall|w: Seq<char>, jm: nat|
                    w.len() > 0 && (exists|i: int|
                        0 <= i < idx && (#[trigger] node.children@[i]).0 == w[0])
                        && node.spec_count(w) > 0 && k + 1 + jm <= max && #[trigger] within(
                        tg,
                        w.drop_first(),
                        jm,
                    ) ==> beats(*check, (k + 1 + jm) as nat, node.spec_count(w)),
                forall|w: Seq<char>, jm: nat|
                    w.len() > 0 && (exists|i: int|
                        0 <= i < idx && (#[trigger] node.children@[i]).0 == w[0])
                        && node.spec_count(w) > 0 && k + 1 + jm <= max && #[trigger] within(
                        rest_s,
                        w.drop_first(),
                        jm,
                    ) ==> beats(*check, (k + 1 + jm) as nat, node.spec_count(w)),
        {
            let ch = node.children[idx].0;
            let ghost child = node.children@[idx as int].1;
            let ghost p1 = p0 + seq![ch];
            proof {
                lemma_lookup_at(node.children@, idx as int);
                assert forall|w: Seq<char>, j: nat| #[trigger] within(tg, w, j) implies within(
                    q,
                    p1 + w,
                    (k + 1) as nat + j,
                ) by {
                    lemma_within_insert(tg, w, j, ch);
                    assert(within(q, p0 + (seq![ch] + w), k as nat + (j + 1)));
                    assert(p0 + (seq![ch] + w) =~= p1 + w);
                }
                assert forall|w: Seq<char>| true implies #[trigger] child.spec_count(w)
                    == root.spec_count(p1 + w) by {
                    let w2 = seq![ch] + w;
                    assert(w2[0] == ch);
                    assert(w2.drop_first() =~= w);
                    assert(node.spec_count(w2) == child.spec_count(w));
                    assert(node.spec_count(w2) == root.spec_count(p0 + w2));
                    assert(p0 + w2 =~= p1 + w);
                }
                assert(decreases_to!(*node => node.children@[idx as int].1));
            }
            path.push(ch);
            proof {
                assert(path@ =~= p1);
            }
            let ghost ca = *check;
            search_with_k_edit(
                &node.children[idx].1,
                to_go,
                path,
                k + 1,
                check,
                Ghost(root),
                Ghost(q),
                Ghost(max),
            );
            path.pop();
            let ghost cb = *check;
            proof {
                assert(path@ =~= p0);
                assert forall|w: Seq<char>, j: nat| #[trigger] within(rest_s, w, j) implies within(
                    q,
                    p1 + w,
                    (k + 1) as nat + j,
                ) by {
                    lemma_within_subst(tg, w, j, ch);
                    assert(within(q, p0 + (seq![ch] + w), k as nat + (j + 1)));
                    assert(p0 + (seq![ch] + w) =~= p1 + w);
                }
            }
            path.push(ch);
            proof {
                assert(path@ =~= p1);
            }
            search_with_k_edit(
                &node.children[idx].1,
                &rest,
                path,
                k + 1,
                check,
                Ghost(root),
                Ghost(q),
                Ghost(max),
            );
            path.pop();
            proof {
                assert(path@ =~= p0);
                lemma_improves_trans(ca, cb, *check);
                lemma_improves_trans(ct, ca, *check);
                lemma_beats_improves(ca, *check);
                lemma_beats_improves(cb, *check);
                assert forall|w: Seq<char>, jm: nat|
                    w.len() > 0 && (exists|i: int|
                        0 <= i < idx + 1 && (#[trigger] node.children@[i]).0 == w[0])
                        && node.spec_count(w) > 0 && k + 1 + jm <= max && #[trigger] within(
                        tg,
                        w.drop_first(),
                        jm,
                    ) implies beats(*check, (k + 1 + jm) as nat, node.spec_count(w)) by {
                    let i = choose|i: int|
                        0 <= i < idx + 1 && (#[trigger] node.children@[i]).0 == w[0];
                    if i == idx {
                        assert(lookup(node.children@, ch) == Some(child));
                        assert(node.spec_count(w) == child.spec_count(w.drop_first()));
                        assert(beats(cb, (k + 1) as nat + jm, child.spec_count(w.drop_first())));
                    }
                }
                assert forall|w: Seq<char>, jm: nat|
                    w.len() > 0 && (exists|i: int|
                        0 <= i < idx + 1 && (#[trigger] node.children@[i]).0 == w[0])
                        && node.spec_count(w) > 0 && k + 1 + jm <= max && #[trigger] within(
                        rest_s,
                        w.drop_first(),
                        jm,
                    ) implies beats(*check, (k + 1 + jm) as nat, node.spec_count(w)) by {
                    let i = choose|i: int|
                        0 <= i < idx + 1 && (#[trigger] node.children@[i]).0 == w[0];
                    if i == idx {
                        assert(lookup(node.children@, ch) == Some(child));
                        assert(node.spec_count(w) == child.spec_count(w.drop_first()));
                        assert(beats(*check, (k + 1) as nat + jm, child.spec_count(
                            w.drop_first(),
                        )));
                    }
                }
                assert forall|s: Seq<char>, j: nat| #[trigger] within(tg, s, j) implies within(
                    tg,
                    seq![ch] + s,
                    (j + (k + 1) as nat - k as nat) as nat,
                ) by {
                    lemma_within_insert(tg, s, j, ch);
                }
                lemma_records_step(ca, cb, *node, child, ch, tg, tg, p0, k as nat, (k + 1) as nat);
                assert forall|s: Seq<char>, j: nat| #[trigger] within(rest_s, s, j) implies within(
                    tg,
                    seq![ch] + s,
                    (j + (k + 1) as nat - k as nat) as nat,
                ) by {
                    lemma_within_subst(tg, s, j, ch);
                }
                lemma_records_step(
                    cb,
                    *check,
                    *node,
                    child,
                    ch,
                    tg,
                    rest_s,
                    p0,
                    k as nat,
                    (k + 1) as nat,
                );
                lemma_records_trans(ct, ca, cb, *node, tg, p0, k as nat);
                lemma_records_trans(ct, cb, *check, *node, tg, p0, k as nat);
            }
        }
        proof {
            lemma_records_trans(c_in, ct, *check, *node, tg, p0, k as nat);
            lemma_improves_trans(c_in, ct, *check);
            lemma_beats_improves(cx, *check);
            lemma_beats_improves(cd, *check);
            lemma_beats_improves(ct, *check);
            assert forall|w: Seq<char>, j: nat|
                node.spec_count(w) > 0 && #[trigger] within(tg, w, j) && k + j <= max implies beats(
                *check,
                (k + j) as nat,
                node.spec_count(w),
            ) by {
                if tg == w {
                    assert(within(tg.drop_first(), w.drop_first(), j));
                    assert(w[0] == tg[0]);
                    assert(beats(cx, k as nat + j, node.spec_count(w)));
                } else if w.len() > 0 && tg[0] == w[0] && within(
                    tg.drop_first(),
                    w.drop_first(),
                    j,
                ) {
                    assert(beats(cx, k as nat + j, node.spec_count(w)));
                } else {
                    assert(j >= 1);
                    let jm = (j - 1) as nat;
                    if within(rest_s, w, jm) {
                        // deletion
                        assert(beats(cd, (k + 1) as nat + jm, node.spec_count(w)));
                    } else if w.len() > 0 && within(tg, w.drop_first(), jm) {
                        // insertion
                        assert(lookup(node.children@, w[0]) is Some);
                        lemma_lookup_none(node.children@, w[0]);
                        assert(exists|i: int|
                            0 <= i < n && (#[trigger] node.children@[i]).0 == w[0]);
                    } else if w.len() > 0 && within(rest_s, w.drop_first(), jm) {
                        // substitution
                        assert(lookup(node.children@, w[0]) is Some);
                        lemma_lookup_none(node.children@, w[0]);
                        assert(exists|i: int|
                            0 <= i < n && (#[trigger] node.children@[i]).0 == w[0]);
                    } else {
                        // transposition
                        assert(tg.len() >= 2 && w.len() > 0 && tg[1] == w[0] && within(
                            seq![tg[0]] + tg.skip(2),
                            w.drop_first(),
                            jm,
                        ));
                        assert(beats(ct, (k + 1 + jm) as nat, node.spec_count(w)));
                    }
                }
            }
        }
    }
}

/// Whatever one accumulator beats, any improvement of it beats too.
pub proof fn lemma_beats_improves(a: CheckResult, b: CheckResult)
    requires
        improves(a, b),
    ensures
        forall|e: nat, cnt: nat| beats(a, e, cnt) ==> beats(b, e, cnt),
{
}

/// `p` is a best correction of the query `q` within the budget `max`, found
/// at `e` edits: it is a corpus word reachable within `e <= max` edits, no
/// corpus word inside the budget is reachable in fewer, and none reachable
/// in as few has a higher frequency.
pub open spec fn is_best_correction(d: Trie, q: Seq<char>, max: nat, p: Seq<char>, e: nat) -> bool {
    &&& e <= max
    &&& d.spec_count(p) > 0
    &&& within(q, p, e)
    &&& forall|w: Seq<char>, j: nat|
        d.spec_count(w) > 0 && #[trigger] within(q, w, j) && j <= max ==> e < j || (e == j
            && d.spec_count(w) <= d.spec_count(p))
}

/// No corpus word of `d` lies within `max` edits of the query `q`.
pub open spec fn no_correction(d: Trie, q: Seq<char>, max: nat) -> bool {
    forall|w: Seq<char>, j: nat| #[trigger] within(q, w, j) && j <= max ==> d.spec_count(w) == 0
}

/// The best correction for `word`, or none if no corpus word is within
/// `max_edits` edits.  Best means fewest edits; among ties on edit count,
/// highest frequency; among ties on both, which word is returned depends on
/// the trie's child order and is left open.
pub fn correct(trie: &Trie, word: String, max_edits: usize) -> (r: Option<String>)
    requires
        trie.wf(),
    ensures
        r is Some ==> exists|e: nat|
            is_best_correction(*trie, word@, max_edits as nat, r->Some_0@, e),
        r is None ==> no_correction(*trie, word@, max_edits as nat),
{
    let to_go = str_to_chars(word.as_str());
    let mut path: Vec<char> = Vec::new();
    let mut check = CheckResult { word: None, count: 0, edit: max_edits };
    let ghost q = word@;
    let ghost maxg = max_edits as nat;
    proof {
        assert forall|w: Seq<char>, j: nat| #[trigger] within(q, w, j) implies within(
            q,
            path@ + w,
            0 + j,
        ) by {
            assert(path@ + w =~= w);
        }
        assert forall|w: Seq<char>| true implies #[trigger] trie.spec_count(w) == trie.spec_count(
            path@ + w,
        ) by {
            assert(path@ + w =~= w);
        }
    }
    search_with_k_edit(
        trie,
        &to_go,
        &mut path,
        0,
        &mut check,
        Ghost(*trie),
        Ghost(q),
        Ghost(maxg),
    );
    match &check.word {
        Some(v) => {
            let out = chars_to_string(v);
            proof {
                assert forall|w: Seq<char>, j: nat|
                    trie.spec_count(w) > 0 && #[trigger] within(q, w, j) && j
                        <= maxg implies check.edit < j || (check.edit == j && trie.spec_count(w)
                    <= trie.spec_count(v@)) by {
                    assert(beats(check, (0 + j) as nat, trie.spec_count(w)));
                }
                assert(out@ == v@);
                assert(is_best_correction(*trie, word@, max_edits as nat, out@, check.edit as nat));
            }
            let res = Some(out);
            proof {
                assert(res->Some_0@ == v@);
                assert(is_best_correction(
                    *trie,
                    word@,
                    max_edits as nat,
                    res->Some_0@,
                    check.edit as nat,
                ));
                assert(exists|e: nat|
                    is_best_correction(*trie, word@, max_edits as nat, res->Some_0@, e));
            }
            res
        },
        None => {
            proof {
                assert forall|w: Seq<char>, j: nat| #[trigger] within(q, w, j) && j
                    <= maxg implies trie.spec_count(w) == 0 by {
                    if trie.spec_count(w) > 0 {
                        assert(beats(check, (0 + j) as nat, trie.spec_count(w)));
                    }
                }
            }
            None
        },
    }
}

/// The edit budget of the reference behavior.
pub const SMALL_EDITS: usize = 2;

/// The best correction for `word` within the fixed small-edit budget of 2.
pub fn check_spelling(trie: &Trie, word: String) -> (r: Option<String>)
    requires
        trie.wf(),
    ensures
        match r {
            Some(p) => exists|e: nat| is_best_correction(*trie, word@, SMALL_EDITS as nat, p@, e),
            None => no_correction(*trie, word@, SMALL_EDITS as nat),
        },
{
    correct(trie, word, SMALL_EDITS)
}

} // verus!
