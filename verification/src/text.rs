//! Corpus tokenization: lines, space-separated words, punctuation trimming
//! and lowercasing, and training a trie from free text.

use vstd::prelude::*;

use crate::strutil::str_to_chars;
use crate::trie::Trie;

verus! {

/// The punctuation marks that are trimmed from both ends of a token.
pub open spec fn is_mark(c: char) -> bool {
    ||| c == ','
    ||| c == '.'
    ||| c == '!'
    ||| c == '?'
    ||| c == ':'
    ||| c == ';'
    ||| c == '('
    ||| c == ')'
    ||| c == '\''
    ||| c == '"'
    ||| c == '['
    ||| c == ']'
    ||| c == '-'
}

/// ASCII whitespace, as trimmed from query lines.
pub open spec fn is_space(c: char) -> bool {
    c == ' ' || c == '\t' || c == '\r' || c == '\n'
}

/// The longest prefix of characters satisfying `m` removed, where `m` is
/// chosen by `marks`: true trims punctuation, false trims whitespace.
pub open spec fn trim_front(s: Seq<char>, marks: bool) -> Seq<char>
    decreases s.len(),
{
    if s.len() > 0 && (if marks {
        is_mark(s[0])
    } else {
        is_space(s[0])
    }) {
        trim_front(s.drop_first(), marks)
    } else {
        s
    }
}

/// The longest suffix of characters satisfying the chosen set removed.
pub open spec fn trim_back(s: Seq<char>, marks: bool) -> Seq<char>
    decreases s.len(),
{
    if s.len() > 0 && (if marks {
        is_mark(s.last())
    } else {
        is_space(s.last())
    }) {
        trim_back(s.drop_last(), marks)
    } else {
        s
    }
}

/// Punctuation marks trimmed from both ends.
pub open spec fn trim_marks(s: Seq<char>) -> Seq<char> {
    trim_back(trim_front(s, true), true)
}

/// Whitespace trimmed from both ends.
pub open spec fn trim_spaces(s: Seq<char>) -> Seq<char> {
    trim_back(trim_front(s, false), false)
}

/// An upper-case ASCII letter mapped to its lower-case form; any other
/// character unchanged.
pub open spec fn lower_char(c: char) -> char {
    if 'A' <= c && c <= 'Z' {
        (((c as u32) + 32) as char)
    } else {
        c
    }
}

/// Every character lowercased.
pub open spec fn lower_all(s: Seq<char>) -> Seq<char> {
    s.map_values(|c: char| lower_char(c))
}

/// A token normalized as the corpus reader does it: punctuation trimmed from
/// both ends, then lowercased.
pub open spec fn normalize(s: Seq<char>) -> Seq<char> {
    lower_all(trim_marks(s))
}

/// `s` split at every occurrence of `sep`.  Splitting the empty sequence
/// gives one empty part; a separator at either end gives an empty part
/// there.
pub open spec fn split_on(s: Seq<char>, sep: char) -> Seq<Seq<char>>
    decreases s.len(),
{
    if s.len() == 0 {
        seq![Seq::<char>::empty()]
    } else if s[0] == sep {
        seq![Seq::<char>::empty()] + split_on(s.drop_first(), sep)
    } else {
        let rest = split_on(s.drop_first(), sep);
        seq![seq![s[0]] + rest[0]] + rest.drop_first()
    }
}

/// The parts, each normalized, with the empty ones dropped.
pub open spec fn clean_tokens(parts: Seq<Seq<char>>) -> Seq<Seq<char>>
    decreases parts.len(),
{
    if parts.len() == 0 {
        Seq::empty()
    } else {
        let n = normalize(parts[0]);
        let rest = clean_tokens(parts.drop_first());
        if n.len() > 0 {
            seq![n] + rest
        } else {
            rest
        }
    }
}

/// A trailing carriage return removed, as reading a line does.
pub open spec fn strip_cr(l: Seq<char>) -> Seq<char> {
    if l.len() > 0 && l.last() == '\r' {
        l.drop_last()
    } else {
        l
    }
}

/// The normalized, non-empty tokens of one corpus line.
pub open spec fn line_tokens(l: Seq<char>) -> Seq<Seq<char>> {
    clean_tokens(split_on(strip_cr(l), ' '))
}

/// The tokens of all lines, in order.
pub open spec fn all_tokens(lines: Seq<Seq<char>>) -> Seq<Seq<char>>
    decreases lines.len(),
{
    if lines.len() == 0 {
        Seq::empty()
    } else {
        line_tokens(lines[0]) + all_tokens(lines.drop_first())
    }
}

/// The corpus tokens of a whole text: its lines' tokens, in order.
pub open spec fn text_tokens(text: Seq<char>) -> Seq<Seq<char>> {
    all_tokens(split_on(text, '\n'))
}

/// How many entries of `tokens` equal `w`.
pub open spec fn occurrences(tokens: Seq<Seq<char>>, w: Seq<char>) -> nat
    decreases tokens.len(),
{
    if tokens.len() == 0 {
        0
    } else {
        occurrences(tokens.drop_first(), w) + (if tokens[0] == w {
            1nat
        } else {
            0nat
        })
    }
}

/// Occurrences distribute over concatenation.
pub proof fn lemma_occurrences_concat(a: Seq<Seq<char>>, b: Seq<Seq<char>>, w: Seq<char>)
    ensures
        occurrences(a + b, w) == occurrences(a, w) + occurrences(b, w),
    decreases a.len(),
{
    if a.len() == 0 {
        assert(a + b =~= b);
    } else {
        assert((a + b)[0] == a[0]);
        assert((a + b).drop_first() =~= a.drop_first() + b);
        lemma_occurrences_concat(a.drop_first(), b, w);
    }
}

/// The views of a sequence of character vectors.
pub open spec fn views(s: Seq<Vec<char>>) -> Seq<Seq<char>> {
    s.map_values(|v: Vec<char>| v@)
}

/// Whether `c` is one of the trimmed punctuation marks.
pub fn is_mark_char(c: char) -> (r: bool)
    ensures
        r == is_mark(c),
{
    c == ',' || c == '.' || c == '!' || c == '?' || c == ':' || c == ';' || c == '(' || c == ')'
        || c == '\'' || c == '"' || c == '[' || c == ']' || c == '-'
}

/// Whether `c` is ASCII whitespace.
pub fn is_space_char(c: char) -> (r: bool)
    ensures
        r == is_space(c),
{
    c == ' ' || c == '\t' || c == '\r' || c == '\n'
}

/// Lowercases one character: ASCII letters only, anything else unchanged.
pub fn to_lower(c: char) -> (r: char)
    ensures
        r == lower_char(c),
{
    if c >= 'A' && c <= 'Z' {
        (((c as u32) + 32) as u8) as char
    } else {
        c
    }
}

/// Whether `c` belongs to the trimmed set: punctuation marks if `marks`,
/// whitespace otherwise.
pub fn in_trim_set(c: char, marks: bool) -> (r: bool)
    ensures
        r == (if marks {
            is_mark(c)
        } else {
            is_space(c)
        }),
{
    if marks {
        is_mark_char(c)
    } else {
        is_space_char(c)
    }
}

/// Trims the chosen character set from both ends of `v`.
pub fn trim_ends(v: &Vec<char>, marks: bool) -> (r: Vec<char>)
    ensures
        r@ == (if marks {
            trim_marks(v@)
        } else {
            trim_spaces(v@)
        }),
{
    let n = v.len();
    let mut lo: usize = 0;
    proof {
        assert(v@.skip(0) =~= v@);
    }
    while lo < n && in_trim_set(v[lo], marks)
        invariant
            lo <= n,
            n == v@.len(),
            trim_front(v@, marks) == trim_front(v@.skip(lo as int), marks),
        decreases n - lo,
    {
        proof {
            assert(v@.skip(lo as int)[0] == v@[lo as int]);
            assert(v@.skip(lo as int).drop_first() =~= v@.skip(lo as int + 1));
        }
        lo = lo + 1;
    }
    proof {
        if lo < n {
            assert(v@.skip(lo as int)[0] == v@[lo as int]);
        }
        assert(trim_front(v@, marks) == v@.skip(lo as int));
    }
    let ghost mid = v@.skip(lo as int);
    let mut hi: usize = n;
    while hi > lo && in_trim_set(v[hi - 1], marks)
        invariant
            lo <= hi <= n,
            n == v@.len(),
            trim_back(mid, marks) == trim_back(v@.subrange(lo as int, hi as int), marks),
        decreases hi,
    {
        proof {
            let cur = v@.subrange(lo as int, hi as int);
            assert(cur.last() == v@[hi - 1]);
            assert(cur.drop_last() =~= v@.subrange(lo as int, hi as int - 1));
        }
        hi = hi - 1;
    }
    proof {
        assert(mid =~= v@.subrange(lo as int, n as int));
        let cur = v@.subrange(lo as int, hi as int);
        if hi > lo {
            assert(cur.last() == v@[hi - 1]);
        }
        assert(trim_back(mid, marks) == cur);
    }
    let mut r: Vec<char> = Vec::new();
    let mut i = lo;
    while i < hi
        invariant
            lo <= i <= hi <= n,
            n == v@.len(),
            r@ == v@.subrange(lo as int, i as int),
        decreases hi - i,
    {
        r.push(v[i]);
        proof {
            assert(r@ =~= v@.subrange(lo as int, i as int + 1));
        }
        i = i + 1;
    }
    r
}

/// Normalizes one token: punctuation trimmed, then lowercased.
pub fn normalize_word(v: &Vec<char>) -> (r: Vec<char>)
    ensures
        r@ == normalize(v@),
{
    let t = trim_ends(v, true);
    let mut r: Vec<char> = Vec::new();
    let n = t.len();
    for i in 0..n
        invariant
            n == t@.len(),
            r@.len() == i,
            forall|k: int| 0 <= k < i ==> r@[k] == lower_char(t@[k]),
    {
        r.push(to_lower(t[i]));
    }
    proof {
        assert(r@ =~= lower_all(t@));
    }
    r
}

/// Splits the suffix of `v` that starts at `i` at every occurrence of `sep`.
pub fn split_from(v: &Vec<char>, i: usize, sep: char) -> (r: Vec<Vec<char>>)
    requires
        i <= v@.len(),
    ensures
        views(r@) == split_on(v@.skip(i as int), sep),
        r@.len() >= 1,
    decreases v@.len() - i,
{
    let ghost s = v@.skip(i as int);
    if i == v.len() {
        let mut r: Vec<Vec<char>> = Vec::new();
        r.push(Vec::new());
        proof {
            assert(s =~= Seq::<char>::empty());
            assert(views(r@) =~= seq![Seq::<char>::empty()]);
        }
        r
    } else if v[i] == sep {
        proof {
            assert(s[0] == sep);
            assert(s.drop_first() =~= v@.skip(i as int + 1));
        }
        let mut rest = split_from(v, i + 1, sep);
        rest.insert(0, Vec::new());
        proof {
            assert(views(rest@) =~= seq![Seq::<char>::empty()] + split_on(
                v@.skip(i as int + 1),
                sep,
            ));
        }
        rest
    } else {
        proof {
            assert(s[0] == v@[i as int]);
            assert(s.drop_first() =~= v@.skip(i as int + 1));
        }
        let mut rest = split_from(v, i + 1, sep);
        let ghost rv = views(rest@);
        let mut first = rest.remove(0);
        first.insert(0, v[i]);
        rest.insert(0, first);
        proof {
            assert(first@ =~= seq![s[0]] + rv[0]);
            assert(views(rest@) =~= seq![seq![s[0]] + rv[0]] + rv.drop_first());
        }
        rest
    }
}

/// Normalizes and inserts the parts from `i` on; empty tokens are dropped.
pub fn insert_tokens(t: &mut Trie, parts: &Vec<Vec<char>>, i: usize)
    requires
        i <= parts@.len(),
        old(t).wf(),
        forall|w: Seq<char>|
            old(t).spec_count(w) + occurrences(
                #[trigger] clean_tokens(views(parts@).skip(i as int)),
                w,
            ) <= usize::MAX,
    ensures
        final(t).wf(),
        forall|w: Seq<char>|
            #[trigger] final(t).spec_count(w) == old(t).spec_count(w) + occurrences(
                clean_tokens(views(parts@).skip(i as int)),
                w,
            ),
    decreases parts@.len() - i,
{
    let ghost ts = clean_tokens(views(parts@).skip(i as int));
    if i < parts.len() {
        proof {
            assert(views(parts@).skip(i as int)[0] == parts@[i as int]@);
            assert(views(parts@).skip(i as int).drop_first() =~= views(parts@).skip(i as int + 1));
        }
        let ghost rest_ts = clean_tokens(views(parts@).skip(i as int + 1));
        let n = normalize_word(&parts[i]);
        let ghost nv = n@;
        if n.len() > 0 {
            proof {
                assert(ts =~= seq![nv] + rest_ts);
                assert(ts[0] == nv);
                assert(ts.drop_first() =~= rest_ts);
                assert(occurrences(ts, nv) == occurrences(rest_ts, nv) + 1);
            }
            t.insert(n);
            proof {
                assert forall|w: Seq<char>|
                    t.spec_count(w) + occurrences(
                        #[trigger] clean_tokens(views(parts@).skip(i as int + 1)),
                        w,
                    ) <= usize::MAX by {
                    assert(occurrences(ts, w) == occurrences(rest_ts, w) + (if w == nv {
                        1int
                    } else {
                        0int
                    }));
                }
            }
            insert_tokens(t, parts, i + 1);
            proof {
                assert forall|w: Seq<char>|
                    #[trigger] t.spec_count(w) == old(t).spec_count(w) + occurrences(ts, w) by {
                    assert(occurrences(ts, w) == occurrences(rest_ts, w) + (if w == nv {
                        1int
                    } else {
                        0int
                    }));
                }
            }
        } else {
            proof {
                assert(ts =~= rest_ts);
            }
            insert_tokens(t, parts, i + 1);
        }
    } else {
        proof {
            assert(views(parts@).skip(i as int) =~= Seq::<Seq<char>>::empty());
            assert forall|w: Seq<char>| occurrences(ts, w) == 0 by {}
        }
    }
}

/// Trains on the lines from `i` on: tokenizes each and inserts its tokens.
pub fn train_lines(t: &mut Trie, lines: &Vec<Vec<char>>, i: usize)
    requires
        i <= lines@.len(),
        old(t).wf(),
        forall|w: Seq<char>|
            old(t).spec_count(w) + occurrences(
                #[trigger] all_tokens(views(lines@).skip(i as int)),
                w,
            ) <= usize::MAX,
    ensures
        final(t).wf(),
        forall|w: Seq<char>|
            #[trigger] final(t).spec_count(w) == old(t).spec_count(w) + occurrences(
                all_tokens(views(lines@).skip(i as int)),
                w,
            ),
    decreases lines@.len() - i,
{
    let ghost ts = all_tokens(views(lines@).skip(i as int));
    if i < lines.len() {
        proof {
            assert(views(lines@).skip(i as int)[0] == lines@[i as int]@);
            assert(views(lines@).skip(i as int).drop_first() =~= views(lines@).skip(i as int + 1));
        }
        let ghost lv = lines@[i as int]@;
        let ghost rest_ts = all_tokens(views(lines@).skip(i as int + 1));
        proof {
            assert(ts =~= line_tokens(lv) + rest_ts);
        }
        let mut line = crate::search::tail(&lines[i], 0);
        proof {
            assert(line@ =~= lv);
        }
        if line.len() > 0 && line[line.len() - 1] == '\r' {
            line.pop();
            proof {
                assert(line@ =~= strip_cr(lv));
            }
        } else {
            proof {
                assert(line@ =~= strip_cr(lv));
            }
        }
        let parts = split_from(&line, 0, ' ');
        proof {
            assert(line@.skip(0) =~= strip_cr(lv));
            assert(views(parts@) == split_on(strip_cr(lv), ' '));
            assert(views(parts@).skip(0) =~= views(parts@));
            assert(clean_tokens(views(parts@)) == line_tokens(lv));
            lemma_occurrences_concat(line_tokens(lv), rest_ts, Seq::<char>::empty());
            assert forall|w: Seq<char>|
                t.spec_count(w) + occurrences(#[trigger] clean_tokens(views(parts@).skip(0)), w)
                    <= usize::MAX by {
                lemma_occurrences_concat(line_tokens(lv), rest_ts, w);
                assert(occurrences(ts, w) == occurrences(line_tokens(lv), w) + occurrences(
                    rest_ts,
                    w,
                ));
            }
        }
        insert_tokens(t, &parts, 0);
        proof {
            assert forall|w: Seq<char>|
                t.spec_count(w) + occurrences(
                    #[trigger] all_tokens(views(lines@).skip(i as int + 1)),
                    w,
                ) <= usize::MAX by {
                lemma_occurrences_concat(line_tokens(lv), rest_ts, w);
            }
        }
        train_lines(t, lines, i + 1);
        proof {
            assert forall|w: Seq<char>|
                #[trigger] t.spec_count(w) == old(t).spec_count(w) + occurrences(ts, w) by {
                lemma_occurrences_concat(line_tokens(lv), rest_ts, w);
            }
        }
    } else {
        proof {
            assert(views(lines@).skip(i as int) =~= Seq::<Seq<char>>::empty());
        }
    }
}

/// Builds the dictionary from a whole training text: every line is split on
/// spaces, every token trimmed of punctuation and lowercased, and every
/// non-empty token inserted, in order.
pub fn train_from_text(text: &str) -> (t: Trie)
    requires
        forall|w: Seq<char>| #[trigger] occurrences(text_tokens(text@), w) <= usize::MAX,
    ensures
        t.wf(),
        forall|w: Seq<char>| #[trigger] t.spec_count(w) == occurrences(text_tokens(text@), w),
{
    let cs = str_to_chars(text);
    let lines = split_from(&cs, 0, '\n');
    let mut t = Trie::new();
    proof {
        assert(cs@.skip(0) =~= text@);
        assert(views(lines@).skip(0) =~= views(lines@));
        assert(all_tokens(views(lines@)) == text_tokens(text@));
    }
    train_lines(&mut t, &lines, 0);
    t
}

/// The query words of an input text: one per line, whitespace-trimmed.  A
/// line that is empty once its terminator is gone is dropped; one that only
/// trims to empty still yields its (empty) word.
pub open spec fn query_words(lines: Seq<Seq<char>>) -> Seq<Seq<char>>
    decreases lines.len(),
{
    if lines.len() == 0 {
        Seq::empty()
    } else {
        let l = strip_cr(lines[0]);
        let rest = query_words(lines.drop_first());
        if l.len() > 0 {
            seq![trim_spaces(l)] + rest
        } else {
            rest
        }
    }
}

/// The views of a sequence of strings.
pub open spec fn string_views(s: Seq<String>) -> Seq<Seq<char>> {
    s.map_values(|v: String| v@)
}

/// Reads the query words out of a whole input text, one per line, trimmed,
/// skipping empty lines.
pub fn parse_query_words(text: &str) -> (r: Vec<String>)
    ensures
        string_views(r@) == query_words(split_on(text@, '\n')),
{
    let cs = str_to_chars(text);
    let lines = split_from(&cs, 0, '\n');
    proof {
        assert(cs@.skip(0) =~= text@);
    }
    let mut r: Vec<String> = Vec::new();
    let n = lines.len();
    for i in 0..n
        invariant
            n == lines@.len(),
            string_views(r@) == query_words(views(lines@).subrange(0, i as int)),
    {
        let mut line = crate::search::tail(&lines[i], 0);
        if line.len() > 0 && line[line.len() - 1] == '\r' {
            line.pop();
            proof {
                assert(line@ =~= strip_cr(lines@[i as int]@));
            }
        } else {
            proof {
                assert(line@ =~= strip_cr(lines@[i as int]@));
            }
        }
        if line.len() > 0 {
            let tr = trim_ends(&line, false);
            let w = crate::strutil::chars_to_string(&tr);
            r.push(w);
        }
        proof {
            let pre = views(lines@).subrange(0, i as int);
            let cur = views(lines@).subrange(0, i as int + 1);
            assert(cur.drop_last() =~= pre);
            assert(cur.last() == lines@[i as int]@);
            lemma_query_words_snoc(cur);
        }
    }
    proof {
        assert(views(lines@).subrange(0, n as int) =~= views(lines@));
    }
    r
}

/// Appending one line appends its trimmed word, if the line has content.
pub proof fn lemma_query_words_snoc(lines: Seq<Seq<char>>)
    requires
        lines.len() > 0,
    ensures
        query_words(lines) == (if strip_cr(lines.last()).len() > 0 {
            query_words(lines.drop_last()) + seq![trim_spaces(strip_cr(lines.last()))]
        } else {
            query_words(lines.drop_last())
        }),
    decreases lines.len(),
{
    if lines.len() == 1 {
        assert(lines.drop_last() =~= Seq::<Seq<char>>::empty());
        assert(lines.drop_first() =~= Seq::<Seq<char>>::empty());
        if strip_cr(lines.last()).len() > 0 {
            assert(query_words(lines) =~= query_words(lines.drop_last()) + seq![trim_spaces(
                strip_cr(lines.last()),
            )]);
        }
    } else {
        lemma_query_words_snoc(lines.drop_first());
        assert(lines.drop_first().last() == lines.last());
        assert(lines.drop_first().drop_last() =~= lines.drop_last().drop_first());
        assert(lines.drop_last()[0] == lines[0]);
        assert(lines.drop_last().len() > 0);
        if strip_cr(lines[0]).len() > 0 {
            if strip_cr(lines.last()).len() > 0 {
                assert(query_words(lines) =~= query_words(lines.drop_last()) + seq![trim_spaces(
                    strip_cr(lines.last()),
                )]);
            } else {
                assert(query_words(lines) =~= query_words(lines.drop_last()));
            }
        } else {
            if strip_cr(lines.last()).len() > 0 {
                assert(query_words(lines) =~= query_words(lines.drop_last()) + seq![trim_spaces(
                    strip_cr(lines.last()),
                )]);
            } else {
                assert(query_words(lines) =~= query_words(lines.drop_last()));
            }
        }
    }
}

} // verus!
