//! Word-frequency counting: a table from words to occurrence counts, and
//! counting the words of a whole text.

use vstd::prelude::*;

use crate::text::all_tokens;
use crate::text::clean_tokens;
use crate::text::line_tokens;
use crate::text::lemma_occurrences_concat;
use crate::text::normalize_word;
use crate::text::occurrences;
use crate::text::split_from;
use crate::text::split_on;
use crate::text::strip_cr;
use crate::text::text_tokens;
use crate::text::views;
use crate::strutil::str_to_chars;

verus! {

/// A table of words and their counts, one entry per distinct word.
pub struct CountTable {
    /// The entries, keys pairwise distinct.
    pub entries: Vec<(String, usize)>,
}

/// The count stored under the word `w`: the first entry keyed by `w`, if
/// any.
pub open spec fn table_get(s: Seq<(String, usize)>, w: Seq<char>) -> Option<usize>
    decreases s.len(),
{
    if s.len() == 0 {
        None
    } else if s[0].0@ == w {
        Some(s[0].1)
    } else {
        table_get(s.drop_first(), w)
    }
}

/// The keys of `s` are pairwise distinct.
pub open spec fn table_keys_unique(s: Seq<(String, usize)>) -> bool {
    forall|i: int, j: int| 0 <= i < j < s.len() ==> (#[trigger] s[i]).0@ != (#[trigger] s[j]).0@
}

/// If `w` occurs nowhere among the keys of `s`, nothing is found, and the
/// other way round.
pub proof fn lemma_table_none(s: Seq<(String, usize)>, w: Seq<char>)
    ensures
        table_get(s, w) is None <==> (forall|i: int|
            0 <= i < s.len() ==> (#[trigger] s[i]).0@ != w),
    decreases s.len(),
{
    if s.len() > 0 {
        lemma_table_none(s.drop_first(), w);
        if s[0].0@ != w {
            if table_get(s, w) is None {
                assert forall|i: int| 0 <= i < s.len() implies (#[trigger] s[i]).0@ != w by {
                    if i > 0 {
                        assert(s.drop_first()[i - 1].0@ != w);
                        assert(s.drop_first()[i - 1] == s[i]);
                    }
                }
            }
            if forall|i: int| 0 <= i < s.len() ==> (#[trigger] s[i]).0@ != w {
                assert forall|i: int|
                    0 <= i < s.drop_first().len() implies (#[trigger] s.drop_first()[i]).0@
                    != w by {
                    assert(s.drop_first()[i] == s[i + 1]);
                    assert(s[i + 1].0@ != w);
                }
            }
        }
    }
}

/// The get finds the first entry keyed by `w`.
pub proof fn lemma_table_first(s: Seq<(String, usize)>, w: Seq<char>, j: int)
    requires
        0 <= j < s.len(),
        s[j].0@ == w,
        forall|i: int| 0 <= i < j ==> (#[trigger] s[i]).0@ != w,
    ensures
        table_get(s, w) == Some(s[j].1),
    decreases j,
{
    if j > 0 {
        assert forall|i: int| 0 <= i < j - 1 implies (#[trigger] s.drop_first()[i]).0@ != w by {
            assert(s.drop_first()[i] == s[i + 1]);
        }
        assert(s.drop_first()[j - 1] == s[j]);
        lemma_table_first(s.drop_first(), w, j - 1);
    }
}

/// Under distinct keys, any entry keyed by `w` is what the get finds.
pub proof fn lemma_table_at(s: Seq<(String, usize)>, j: int)
    requires
        table_keys_unique(s),
        0 <= j < s.len(),
    ensures
        table_get(s, s[j].0@) == Some(s[j].1),
{
    lemma_table_first(s, s[j].0@, j);
}

/// A found count comes from some entry.
pub proof fn lemma_table_some(s: Seq<(String, usize)>, w: Seq<char>)
    requires
        table_get(s, w) is Some,
    ensures
        exists|i: int|
            0 <= i < s.len() && (#[trigger] s[i]).0@ == w && table_get(s, w) == Some(s[i].1),
    decreases s.len(),
{
    if s.len() > 0 && s[0].0@ != w {
        lemma_table_some(s.drop_first(), w);
        let i = choose|i: int|
            0 <= i < s.drop_first().len() && (#[trigger] s.drop_first()[i]).0@ == w && table_get(
                s.drop_first(),
                w,
            ) == Some(s.drop_first()[i].1);
        assert(s[i + 1] == s.drop_first()[i]);
        assert(0 <= i + 1 < s.len() && s[i + 1].0@ == w && table_get(s, w) == Some(s[i + 1].1));
    }
}

impl CountTable {
    /// Well-formed: one entry per distinct word.
    pub open spec fn wf(self) -> bool {
        table_keys_unique(self.entries@)
    }

    /// The count stored for `w`, if `w` has an entry.
    pub open spec fn spec_get(self, w: Seq<char>) -> Option<usize> {
        table_get(self.entries@, w)
    }

    /// The count for `w`, with 0 for a word without an entry.
    pub open spec fn count_of(self, w: Seq<char>) -> nat {
        match self.spec_get(w) {
            Some(c) => c as nat,
            None => 0,
        }
    }

    /// An empty table.
    pub fn new() -> (t: CountTable)
        ensures
            t.wf(),
            t.entries@.len() == 0,
            forall|w: Seq<char>| t.spec_get(w) is None,
    {
        let t = CountTable { entries: Vec::new() };
        proof {
            assert forall|w: Seq<char>| t.spec_get(w) is None by {
                assert(table_get(t.entries@, w) is None);
            }
        }
        t
    }

    /// How many distinct words have an entry.
    pub fn len(&self) -> (r: usize)
        ensures
            r == self.entries@.len(),
    {
        self.entries.len()
    }

    /// The count stored for `word`, if any.
    pub fn get(&self, word: &str) -> (r: Option<usize>)
        ensures
            r == self.spec_get(word@),
    {
        let w = word.to_owned();
        match find_key(&self.entries, &w) {
            Some(j) => Some(self.entries[j].1),
            None => None,
        }
    }

    /// Stores `count` for `word`, replacing an existing entry.
    pub fn insert(&mut self, word: String, count: usize)
        requires
            old(self).wf(),
        ensures
            final(self).wf(),
            final(self).spec_get(word@) == Some(count),
            forall|v: Seq<char>|
                v != word@ ==> #[trigger] final(self).spec_get(v) == old(self).spec_get(v),
            final(self).entries@.len() == old(self).entries@.len() + (if old(self).spec_get(word@)
                is Some {
                0int
            } else {
                1int
            }),
    {
        let ghost s0 = self.entries@;
        match find_key(&self.entries, &word) {
            Some(j) => {
                let e = &mut self.entries[j];
                e.1 = count;
                proof {
                    assert(self.entries@ =~= s0.update(j as int, (s0[j as int].0, count)));
                    lemma_table_keys_update(s0, j as int, count);
                }
            },
            None => {
                self.entries.push((word, count));
                proof {
                    lemma_table_push(s0, self.entries@[s0.len() as int].0, count);
                    assert(self.entries@ =~= s0.push((self.entries@[s0.len() as int].0, count)));
                }
            },
        }
    }
}

/// Replacing the count of entry `j` keeps the keys and changes only that
/// key's lookup.
pub proof fn lemma_table_keys_update(s: Seq<(String, usize)>, j: int, count: usize)
    requires
        table_keys_unique(s),
        0 <= j < s.len(),
    ensures
        table_keys_unique(s.update(j, (s[j].0, count))),
        table_get(s.update(j, (s[j].0, count)), s[j].0@) == Some(count),
        forall|v: Seq<char>|
            v != s[j].0@ ==> #[trigger] table_get(s.update(j, (s[j].0, count)), v) == table_get(
                s,
                v,
            ),
    decreases s.len(),
{
    let s2 = s.update(j, (s[j].0, count));
    assert forall|a: int, b: int| 0 <= a < b < s2.len() implies (#[trigger] s2[a]).0@ != (
    #[trigger] s2[b]).0@ by {
        assert(s2[a].0@ == s[a].0@);
        assert(s2[b].0@ == s[b].0@);
    }
    assert forall|i: int| 0 <= i < j implies (#[trigger] s2[i]).0@ != s[j].0@ by {
        assert(s2[i].0@ == s[i].0@);
    }
    assert(s2[j].0@ == s[j].0@);
    lemma_table_first(s2, s[j].0@, j);
    assert forall|v: Seq<char>| v != s[j].0@ implies #[trigger] table_get(s2, v) == table_get(
        s,
        v,
    ) by {
        if j == 0 {
            assert(s2[0].0@ == s[0].0@);
            assert(s2.drop_first() =~= s.drop_first());
            assert(table_get(s2, v) == table_get(s2.drop_first(), v));
            assert(table_get(s, v) == table_get(s.drop_first(), v));
        } else {
            assert(s2[0] == s[0]);
            if s[0].0@ != v {
                let sd = s.drop_first();
                assert forall|a: int, b: int| 0 <= a < b < sd.len() implies (#[trigger] sd[a]).0@
                    != (#[trigger] sd[b]).0@ by {
                    assert(sd[a] == s[a + 1]);
                    assert(sd[b] == s[b + 1]);
                }
                lemma_table_keys_update(sd, j - 1, count);
                assert(sd[j - 1] == s[j]);
                assert(table_get(sd.update(j - 1, (sd[j - 1].0, count)), v) == table_get(sd, v));
                assert(s2.drop_first() =~= sd.update(j - 1, (sd[j - 1].0, count)));
                assert(table_get(s2, v) == table_get(s2.drop_first(), v));
                assert(table_get(s, v) == table_get(sd, v));
            }
        }
    }
}

/// Appending an entry under a fresh key adds exactly that lookup.
pub proof fn lemma_table_push(s: Seq<(String, usize)>, word: String, count: usize)
    requires
        table_get(s, word@) is None,
    ensures
        table_get(s.push((word, count)), word@) == Some(count),
        forall|v: Seq<char>|
            v != word@ ==> #[trigger] table_get(s.push((word, count)), v) == table_get(s, v),
        table_keys_unique(s) ==> table_keys_unique(s.push((word, count))),
    decreases s.len(),
{
    let s2 = s.push((word, count));
    lemma_table_none(s, word@);
    if s.len() == 0 {
        assert(s2[0].0@ == word@);
        assert forall|v: Seq<char>| v != word@ implies #[trigger] table_get(s2, v) == table_get(
            s,
            v,
        ) by {
            assert(s2.drop_first() =~= Seq::<(String, usize)>::empty());
            assert(table_get(s2.drop_first(), v) is None);
            assert(table_get(s, v) is None);
        }
    } else {
        let sd = s.drop_first();
        lemma_table_push(sd, word, count);
        assert(s2.drop_first() =~= sd.push((word, count)));
        assert(s2[0] == s[0]);
        assert(s[0].0@ != word@);
        assert(table_get(s2, word@) == table_get(s2.drop_first(), word@));
        assert(table_get(sd.push((word, count)), word@) == Some(count));
        assert forall|v: Seq<char>| v != word@ implies #[trigger] table_get(s2, v) == table_get(
            s,
            v,
        ) by {
            if s[0].0@ == v {
                assert(table_get(s2, v) == Some(s2[0].1));
                assert(table_get(s, v) == Some(s[0].1));
            } else {
                assert(table_get(sd.push((word, count)), v) == table_get(sd, v));
                assert(table_get(s2, v) == table_get(s2.drop_first(), v));
                assert(table_get(s, v) == table_get(sd, v));
            }
        }
    }
    if table_keys_unique(s) {
        assert forall|a: int, b: int| 0 <= a < b < s2.len() implies (#[trigger] s2[a]).0@ != (
        #[trigger] s2[b]).0@ by {
            if b < s.len() {
                assert(s2[a] == s[a]);
                assert(s2[b] == s[b]);
            } else {
                assert(s2[b].0@ == word@);
                assert(s2[a] == s[a]);
            }
        }
    }
}

/// Finds the position of the entry for `word`, if any.
pub fn find_key(s: &Vec<(String, usize)>, word: &String) -> (r: Option<usize>)
    ensures
        match r {
            Some(j) => j < s@.len() && s@[j as int].0@ == word@ && table_get(s@, word@) == Some(
                s@[j as int].1,
            ),
            None => table_get(s@, word@) is None,
        },
{
    let n = s.len();
    for j in 0..n
        invariant
            n == s@.len(),
            forall|i: int| 0 <= i < j ==> (#[trigger] s@[i]).0@ != word@,
    {
        if s[j].0.eq(word) {
            proof {
                lemma_table_first(s@, word@, j as int);
            }
            return Some(j);
        }
    }
    proof {
        lemma_table_none(s@, word@);
    }
    None
}

/// Adds one occurrence of `word` to the table: a present word's count grows
/// by one, an absent word gets the count 1.
pub fn increment_word(map: &mut CountTable, word: String)
    requires
        old(map).wf(),
        old(map).count_of(word@) < usize::MAX,
    ensures
        final(map).wf(),
        final(map).count_of(word@) == old(map).count_of(word@) + 1,
        final(map).spec_get(word@) is Some,
        forall|v: Seq<char>|
            v != word@ ==> #[trigger] final(map).spec_get(v) == old(map).spec_get(v),
        final(map).entries@.len() == old(map).entries@.len() + (if old(map).spec_get(word@)
            is Some {
            0int
        } else {
            1int
        }),
{
    let ghost s0 = map.entries@;
    match find_key(&map.entries, &word) {
        Some(j) => {
            let e = &mut map.entries[j];
            let c = e.1;
            e.1 = c + 1;
            proof {
                assert(map.entries@ =~= s0.update(j as int, (s0[j as int].0, (c + 1) as usize)));
                lemma_table_keys_update(s0, j as int, (c + 1) as usize);
            }
        },
        None => {
            map.entries.push((word, 1));
            proof {
                lemma_table_push(s0, map.entries@[s0.len() as int].0, 1);
                assert(map.entries@ =~= s0.push((map.entries@[s0.len() as int].0, 1usize)));
            }
        },
    }
}

/// Whether two tables hold the same counts for every word.
#[verifier::loop_isolation(false)]
pub fn eq_table(a: &CountTable, b: &CountTable) -> (r: bool)
    requires
        a.wf(),
        b.wf(),
    ensures
        r == (forall|w: Seq<char>| a.spec_get(w) == b.spec_get(w)),
{
    let na = a.entries.len();
    for i in 0..na
        invariant
            na == a.entries@.len(),
            forall|k: int|
                0 <= k < i ==> table_get(b.entries@, (#[trigger] a.entries@[k]).0@) == Some(
                    a.entries@[k].1,
                ),
    {
        let e = &a.entries[i];
        match find_key(&b.entries, &e.0) {
            Some(j) => {
                if b.entries[j].1 != e.1 {
                    proof {
                        lemma_table_at(a.entries@, i as int);
                        assert(a.spec_get(e.0@) != b.spec_get(e.0@));
                    }
                    return false;
                }
            },
            None => {
                proof {
                    lemma_table_at(a.entries@, i as int);
                    assert(a.spec_get(e.0@) != b.spec_get(e.0@));
                }
                return false;
            },
        }
    }
    let nb = b.entries.len();
    for i in 0..nb
        invariant
            nb == b.entries@.len(),
            forall|k: int|
                0 <= k < i ==> table_get(a.entries@, (#[trigger] b.entries@[k]).0@) is Some,
            forall|k: int|
                0 <= k < na ==> table_get(b.entries@, (#[trigger] a.entries@[k]).0@) == Some(
                    a.entries@[k].1,
                ),
            na == a.entries@.len(),
    {
        let e = &b.entries[i];
        match find_key(&a.entries, &e.0) {
            Some(_) => {},
            None => {
                proof {
                    lemma_table_at(b.entries@, i as int);
                    assert(a.spec_get(e.0@) != b.spec_get(e.0@));
                }
                return false;
            },
        }
    }
    proof {
        assert forall|w: Seq<char>| a.spec_get(w) == b.spec_get(w) by {
            if a.spec_get(w) is Some {
                lemma_table_some(a.entries@, w);
                let k = choose|k: int|
                    0 <= k < a.entries@.len() && (#[trigger] a.entries@[k]).0@ == w && table_get(
                        a.entries@,
                        w,
                    ) == Some(a.entries@[k].1);
                assert(table_get(b.entries@, a.entries@[k].0@) == Some(a.entries@[k].1));
            } else if b.spec_get(w) is Some {
                lemma_table_some(b.entries@, w);
                let k = choose|k: int|
                    0 <= k < b.entries@.len() && (#[trigger] b.entries@[k]).0@ == w && table_get(
                        b.entries@,
                        w,
                    ) == Some(b.entries@[k].1);
                assert(table_get(a.entries@, b.entries@[k].0@) is Some);
            }
        }
    }
    true
}

/// Normalizes and counts the parts from `i` on; empty tokens are dropped.
pub fn count_tokens(map: &mut CountTable, parts: &Vec<Vec<char>>, i: usize)
    requires
        i <= parts@.len(),
        old(map).wf(),
        forall|w: Seq<char>|
            old(map).count_of(w) + occurrences(
                #[trigger] clean_tokens(views(parts@).skip(i as int)),
                w,
            ) < usize::MAX,
    ensures
        final(map).wf(),
        forall|w: Seq<char>|
            #[trigger] final(map).count_of(w) == old(map).count_of(w) + occurrences(
                clean_tokens(views(parts@).skip(i as int)),
                w,
            ),
        forall|w: Seq<char>|
            #[trigger] final(map).spec_get(w) is Some <==> (old(map).spec_get(w) is Some
                || occurrences(clean_tokens(views(parts@).skip(i as int)), w) > 0),
    decreases parts@.len() - i,
{
    let ghost ts = clean_tokens(views(parts@).skip(i as int));
    if i < parts.len() {
        proof {
            assert(views(parts@).skip(i as int)[0] == parts@[i as int]@);
            assert(views(parts@).skip(i as int).drop_first() =~= views(parts@).skip(i as int + 1));
        }
        let ghost rest_ts = clean_tokens(views(parts@).skip(i as int + 1));
        let n = normalize_word(&parts[i]);
        let ghost nv = n@;
        if n.len() > 0 {
            proof {
                assert(ts =~= seq![nv] + rest_ts);
                assert(ts[0] == nv);
                assert(ts.drop_first() =~= rest_ts);
                assert forall|w: Seq<char>|
                    #[trigger] occurrences(ts, w) == occurrences(rest_ts, w) + (if w == nv {
                        1int
                    } else {
                        0int
                    }) by {}
            }
            let w = crate::strutil::chars_to_string(&n);
            let ghost mid = *map;
            increment_word(map, w);
            proof {
                assert forall|w: Seq<char>|
                    map.count_of(w) + occurrences(
                        #[trigger] clean_tokens(views(parts@).skip(i as int + 1)),
                        w,
                    ) < usize::MAX by {
                    assert(occurrences(ts, w) == occurrences(rest_ts, w) + (if w == nv {
                        1int
                    } else {
                        0int
                    }));
                    assert(mid.count_of(w) + occurrences(
                        clean_tokens(views(parts@).skip(i as int)),
                        w,
                    ) < usize::MAX);
                    if w == nv {
                        assert(map.count_of(w) == mid.count_of(w) + 1);
                    } else {
                        assert(map.spec_get(w) == mid.spec_get(w));
                    }
                }
            }
            count_tokens(map, parts, i + 1);
            proof {
                assert forall|w: Seq<char>|
                    #[trigger] map.count_of(w) == old(map).count_of(w) + occurrences(ts, w) by {
                    assert(occurrences(ts, w) == occurrences(rest_ts, w) + (if w == nv {
                        1int
                    } else {
                        0int
                    }));
                    if w != nv {
                        assert(mid.spec_get(w) == old(map).spec_get(w));
                    }
                }
                assert forall|w: Seq<char>|
                    #[trigger] map.spec_get(w) is Some <==> (old(map).spec_get(w) is Some
                        || occurrences(ts, w) > 0) by {
                    assert(occurrences(ts, w) == occurrences(rest_ts, w) + (if w == nv {
                        1int
                    } else {
                        0int
                    }));
                    if w != nv {
                        assert(mid.spec_get(w) == old(map).spec_get(w));
                    }
                }
            }
        } else {
            proof {
                assert(ts =~= rest_ts);
            }
            count_tokens(map, parts, i + 1);
        }
    } else {
        proof {
            assert(views(parts@).skip(i as int) =~= Seq::<Seq<char>>::empty());
        }
    }
}

/// Counts the tokens of the lines from `i` on.
pub fn count_lines(map: &mut CountTable, lines: &Vec<Vec<char>>, i: usize)
    requires
        i <= lines@.len(),
        old(map).wf(),
        forall|w: Seq<char>|
            old(map).count_of(w) + occurrences(
                #[trigger] all_tokens(views(lines@).skip(i as int)),
                w,
            ) < usize::MAX,
    ensures
        final(map).wf(),
        forall|w: Seq<char>|
            #[trigger] final(map).count_of(w) == old(map).count_of(w) + occurrences(
                all_tokens(views(lines@).skip(i as int)),
                w,
            ),
        forall|w: Seq<char>|
            #[trigger] final(map).spec_get(w) is Some <==> (old(map).spec_get(w) is Some
                || occurrences(all_tokens(views(lines@).skip(i as int)), w) > 0),
    decreases lines@.len() - i,
{
    let ghost ts = all_tokens(views(lines@).skip(i as int));
    if i < lines.len() {
        proof {
            assert(views(lines@).skip(i as int)[0] == lines@[i as int]@);
            assert(views(lines@).skip(i as int).drop_first() =~= views(lines@).skip(i as int + 1));
        }
        let ghost lv = lines@[i as int]@;
        let ghost rest_ts = all_tokens(views(lines@).skip(i as int + 1));
        proof {
            assert(ts =~= line_tokens(lv) + rest_ts);
        }
        let mut line = crate::search::tail(&lines[i], 0);
        proof {
            assert(line@ =~= lv);
        }
        if line.len() > 0 && line[line.len() - 1] == '\r' {
            line.pop();
            proof {
                assert(line@ =~= strip_cr(lv));
            }
        } else {
            proof {
                assert(line@ =~= strip_cr(lv));
            }
        }
        let parts = split_from(&line, 0, ' ');
        proof {
            assert(line@.skip(0) =~= strip_cr(lv));
            assert(views(parts@) == split_on(strip_cr(lv), ' '));
            assert(views(parts@).skip(0) =~= views(parts@));
            assert(clean_tokens(views(parts@)) == line_tokens(lv));
            assert forall|w: Seq<char>|
                map.count_of(w) + occurrences(#[trigger] clean_tokens(views(parts@).skip(0)), w)
                    < usize::MAX by {
                lemma_occurrences_concat(line_tokens(lv), rest_ts, w);
            }
        }
        count_tokens(map, &parts, 0);
        proof {
            assert forall|w: Seq<char>|
                map.count_of(w) + occurrences(
                    #[trigger] all_tokens(views(lines@).skip(i as int + 1)),
                    w,
                ) < usize::MAX by {
                lemma_occurrences_concat(line_tokens(lv), rest_ts, w);
            }
        }
        count_lines(map, lines, i + 1);
        proof {
            assert forall|w: Seq<char>|
                #[trigger] map.count_of(w) == old(map).count_of(w) + occurrences(ts, w) by {
                lemma_occurrences_concat(line_tokens(lv), rest_ts, w);
            }
            assert forall|w: Seq<char>|
                #[trigger] map.spec_get(w) is Some <==> (old(map).spec_get(w) is Some
                    || occurrences(ts, w) > 0) by {
                lemma_occurrences_concat(line_tokens(lv), rest_ts, w);
            }
        }
    } else {
        proof {
            assert(views(lines@).skip(i as int) =~= Seq::<Seq<char>>::empty());
        }
    }
}

/// Counts every normalized token of a whole text: one entry per distinct
/// word, holding how often it occurs.
pub fn count_from_text(text: &str) -> (t: CountTable)
    requires
        forall|w: Seq<char>| #[trigger] occurrences(text_tokens(text@), w) < usize::MAX,
    ensures
        t.wf(),
        forall|w: Seq<char>| #[trigger] t.count_of(w) == occurrences(text_tokens(text@), w),
        forall|w: Seq<char>|
            #[trigger] t.spec_get(w) is Some <==> occurrences(text_tokens(text@), w) > 0,
    {
    let cs = str_to_chars(text);
    let lines = split_from(&cs, 0, '\n');
    let mut t = CountTable::new();
    proof {
        assert(cs@.skip(0) =~= text@);
        assert(views(lines@).skip(0) =~= views(lines@));
        assert(all_tokens(views(lines@)) == text_tokens(text@));
    }
    count_lines(&mut t, &lines, 0);
    t
}

} // verus!
