//! Output rendering: the sorted word-frequency table and the correction
//! lines, built as plain text.

use vstd::prelude::*;

use crate::freq::CountTable;
use crate::search::check_spelling;
use crate::search::is_best_correction;
use crate::search::no_correction;
use crate::search::SMALL_EDITS;
use crate::strutil::chars_to_string;
use crate::strutil::str_to_chars;
use crate::text::string_views;
use crate::trie::Trie;

verus! {

/// The decimal digit character for `d`.
pub open spec fn dec_digit(d: nat) -> char {
    if d == 0 {
        '0'
    } else if d == 1 {
        '1'
    } else if d == 2 {
        '2'
    } else if d == 3 {
        '3'
    } else if d == 4 {
        '4'
    } else if d == 5 {
        '5'
    } else if d == 6 {
        '6'
    } else if d == 7 {
        '7'
    } else if d == 8 {
        '8'
    } else {
        '9'
    }
}

/// The decimal digits of `n`, most significant first.
pub open spec fn dec_str(n: nat) -> Seq<char>
    decreases n,
{
    if n < 10 {
        seq![dec_digit(n)]
    } else {
        dec_str(n / 10).push(dec_digit(n % 10))
    }
}

/// The digit character for `d`.
pub fn digit_char(d: usize) -> (r: char)
    requires
        d < 10,
    ensures
        r == dec_digit(d as nat),
{
    if d == 0 {
        '0'
    } else if d == 1 {
        '1'
    } else if d == 2 {
        '2'
    } else if d == 3 {
        '3'
    } else if d == 4 {
        '4'
    } else if d == 5 {
        '5'
    } else if d == 6 {
        '6'
    } else if d == 7 {
        '7'
    } else if d == 8 {
        '8'
    } else {
        '9'
    }
}

/// Appends the decimal digits of `n` to `out`.
pub fn push_decimal(out: &mut Vec<char>, n: usize)
    ensures
        final(out)@ == old(out)@ + dec_str(n as nat),
    decreases n,
{
    if n < 10 {
        out.push(digit_char(n));
        proof {
            assert(out@ =~= old(out)@ + dec_str(n as nat));
        }
    } else {
        push_decimal(out, n / 10);
        out.push(digit_char(n % 10));
        proof {
            assert(out@ =~= old(out)@ + dec_str(n as nat));
        }
    }
}

/// One line of the frequency table: the word, a tabbed colon, the count.
pub open spec fn render_freq_line(w: Seq<char>, c: usize) -> Seq<char> {
    w + seq!['\t', ':', '\t'] + dec_str(c as nat) + seq!['\n']
}

/// The table's word-count pairs as character sequences.
pub open spec fn pairs(s: Seq<(String, usize)>) -> Seq<(Seq<char>, usize)> {
    s.map_values(|e: (String, usize)| (e.0@, e.1))
}

/// The rendered lines of all entries, in order.
pub open spec fn render_freq(s: Seq<(Seq<char>, usize)>) -> Seq<char>
    decreases s.len(),
{
    if s.len() == 0 {
        Seq::empty()
    } else {
        render_freq_line(s[0].0, s[0].1) + render_freq(s.drop_first())
    }
}

/// Rendering one more entry appends one more line.
pub proof fn lemma_render_freq_snoc(s: Seq<(Seq<char>, usize)>, e: (Seq<char>, usize))
    ensures
        render_freq(s.push(e)) == render_freq(s) + render_freq_line(e.0, e.1),
    decreases s.len(),
{
    if s.len() == 0 {
        assert(s.push(e)[0] == e);
        assert(s.push(e).drop_first() =~= Seq::<(Seq<char>, usize)>::empty());
        assert(render_freq(s.push(e).drop_first()) =~= Seq::<char>::empty());
        assert(render_freq(s) =~= Seq::<char>::empty());
        assert(render_freq(s.push(e)) =~= render_freq(s) + render_freq_line(e.0, e.1));
    } else {
        lemma_render_freq_snoc(s.drop_first(), e);
        assert(s.push(e)[0] == s[0]);
        assert(s.push(e).drop_first() =~= s.drop_first().push(e));
        assert(render_freq(s.push(e)) =~= render_freq(s) + render_freq_line(e.0, e.1));
    }
}

/// The counts never grow along the sequence.
pub open spec fn sorted_desc(s: Seq<(String, usize)>) -> bool {
    forall|i: int, j: int| 0 <= i < j < s.len() ==> (#[trigger] s[i]).1 >= (#[trigger] s[j]).1
}

/// Sorts the entries by count, highest first, keeping the order of equal
/// counts as given.
fn sort_desc(v: &Vec<(String, usize)>) -> (r: Vec<(String, usize)>)
    ensures
        sorted_desc(r@),
        r@.to_multiset() == v@.to_multiset(),
{
    broadcast use vstd::seq_lib::group_to_multiset_ensures;

    let n = v.len();
    let mut r: Vec<(String, usize)> = Vec::new();
    proof {
        assert(r@ =~= v@.subrange(0, 0));
    }
    for i in 0..n
        invariant
            n == v@.len(),
            sorted_desc(r@),
            r@.to_multiset() == v@.subrange(0, i as int).to_multiset(),
    {
        let e = (v[i].0.clone(), v[i].1);
        proof {
            assert(e == v@[i as int]);
        }
        let m = r.len();
        let mut j: usize = 0;
        while j < m && r[j].1 >= e.1
            invariant
                m == r@.len(),
                j <= m,
                forall|k: int| 0 <= k < j ==> (#[trigger] r@[k]).1 >= e.1,
            decreases m - j,
        {
            j = j + 1;
        }
        let ghost r0 = r@;
        r.insert(j, e);
        proof {
            let r1 = r@;
            assert(r1 =~= r0.insert(j as int, e));
            assert forall|a: int, b: int| 0 <= a < b < r1.len() implies (#[trigger] r1[a]).1 >= (
            #[trigger] r1[b]).1 by {
                if a == j as int {
                    if b > j as int {
                        assert(r1[b] == r0[b - 1]);
                        assert(r0[b - 1].1 <= r0[j as int].1 || j as int == r0.len());
                    }
                } else if b == j as int {
                    assert(r1[a] == r0[a]);
                } else if a < j as int && b > j as int {
                    assert(r1[a] == r0[a]);
                    assert(r1[b] == r0[b - 1]);
                } else if b < j as int {
                    assert(r1[a] == r0[a]);
                    assert(r1[b] == r0[b]);
                } else {
                    assert(r1[a] == r0[a - 1]);
                    assert(r1[b] == r0[b - 1]);
                }
            }
            // the inserted sequence holds one more copy of `e`
            r0.to_multiset_ensures();
            r1.to_multiset_ensures();
            v@.subrange(0, i as int).to_multiset_ensures();
            v@.subrange(0, i as int + 1).to_multiset_ensures();
            assert(r1.remove(j as int) =~= r0);
            assert(r1.remove(j as int).to_multiset() =~= r1.to_multiset().remove(r1[j as int]));
            assert(r1.to_multiset().count(e) > 0) by {
                assert(r1[j as int] == e);
                assert(r1.contains(e));
            }
            assert(r1.to_multiset() =~= r0.to_multiset().insert(e));
            assert(v@.subrange(0, i as int + 1) =~= v@.subrange(0, i as int).push(v@[i as int]));
            assert(v@.subrange(0, i as int + 1).to_multiset() =~= v@.subrange(
                0,
                i as int,
            ).to_multiset().insert(e));
        }
    }
    proof {
        assert(v@.subrange(0, n as int) =~= v@);
    }
    r
}

/// Renders the word-frequency table, sorted by count with the highest count
/// first; the order of words with equal counts is left open.
pub fn write_word_frequency(table: &CountTable) -> (r: String)
    ensures
        exists|s: Seq<(String, usize)>|
            #![auto]
            s.to_multiset() == table.entries@.to_multiset() && sorted_desc(s) && r@ == render_freq(
                pairs(s),
            ),
{
    let sorted = sort_desc(&table.entries);
    let mut out: Vec<char> = Vec::new();
    let n = sorted.len();
    proof {
        assert(pairs(sorted@).subrange(0, 0) =~= Seq::<(Seq<char>, usize)>::empty());
        assert(out@ =~= render_freq(pairs(sorted@).subrange(0, 0)));
    }
    for i in 0..n
        invariant
            n == sorted@.len(),
            out@ == render_freq(pairs(sorted@).subrange(0, i as int)),
    {
        let mut wchars = str_to_chars(sorted[i].0.as_str());
        out.append(&mut wchars);
        out.push('\t');
        out.push(':');
        out.push('\t');
        push_decimal(&mut out, sorted[i].1);
        out.push('\n');
        proof {
            let pre = pairs(sorted@).subrange(0, i as int);
            let cur = pairs(sorted@).subrange(0, i as int + 1);
            let e = (sorted@[i as int].0@, sorted@[i as int].1);
            assert(cur =~= pre.push(e));
            lemma_render_freq_snoc(pre, e);
            assert(out@ =~= render_freq(pre) + render_freq_line(e.0, e.1));
        }
    }
    proof {
        assert(pairs(sorted@).len() == sorted@.len());
        assert(pairs(sorted@).subrange(0, n as int) =~= pairs(sorted@));
    }
    let r = chars_to_string(&out);
    proof {
        assert(sorted@.to_multiset() == table.entries@.to_multiset() && sorted_desc(sorted@) && r@
            == render_freq(pairs(sorted@)));
    }
    r
}

/// One output line: the word alone if the correction equals it; the word and
/// the correction if one differing from it was found; the word and `-` if
/// none was found.
pub open spec fn render_out_line(w: Seq<char>, ro: Option<Seq<char>>) -> Seq<char> {
    match ro {
        Some(c) => if c == w {
            w + seq!['\n']
        } else {
            w + seq![',', ' '] + c + seq!['\n']
        },
        None => w + seq![',', ' ', '-', '\n'],
    }
}

/// The result `ro` is what the corrector may return for the query `q` under
/// the small-edit budget.
pub open spec fn result_ok(d: Trie, q: Seq<char>, ro: Option<Seq<char>>) -> bool {
    match ro {
        Some(c) => exists|e: nat| is_best_correction(d, q, SMALL_EDITS as nat, c, e),
        None => no_correction(d, q, SMALL_EDITS as nat),
    }
}

/// The rendered lines for all words and their results, in order.
pub open spec fn render_out(ws: Seq<Seq<char>>, rs: Seq<Option<Seq<char>>>) -> Seq<char>
    decreases ws.len(),
{
    if ws.len() == 0 {
        Seq::empty()
    } else {
        render_out_line(ws[0], rs[0]) + render_out(ws.drop_first(), rs.drop_first())
    }
}

/// Rendering one more word appends one more line.
pub proof fn lemma_render_out_snoc(
    ws: Seq<Seq<char>>,
    rs: Seq<Option<Seq<char>>>,
    w: Seq<char>,
    ro: Option<Seq<char>>,
)
    requires
        ws.len() == rs.len(),
    ensures
        render_out(ws.push(w), rs.push(ro)) == render_out(ws, rs) + render_out_line(w, ro),
    decreases ws.len(),
{
    if ws.len() == 0 {
        assert(ws.push(w)[0] == w);
        assert(rs.push(ro)[0] == ro);
        assert(ws.push(w).drop_first() =~= Seq::<Seq<char>>::empty());
        assert(rs.push(ro).drop_first() =~= Seq::<Option<Seq<char>>>::empty());
        assert(render_out(ws.push(w).drop_first(), rs.push(ro).drop_first()) =~= Seq::<
            char,
        >::empty());
        assert(render_out(ws, rs) =~= Seq::<char>::empty());
        assert(render_out(ws.push(w), rs.push(ro)) =~= render_out(ws, rs) + render_out_line(w, ro));
    } else {
        lemma_render_out_snoc(ws.drop_first(), rs.drop_first(), w, ro);
        assert(ws.push(w)[0] == ws[0]);
        assert(rs.push(ro)[0] == rs[0]);
        assert(ws.push(w).drop_first() =~= ws.drop_first().push(w));
        assert(rs.push(ro).drop_first() =~= rs.drop_first().push(ro));
        assert(render_out(ws.push(w), rs.push(ro)) =~= render_out(ws, rs) + render_out_line(w, ro));
    }
}

/// Checks every word against the dictionary and renders one line per word,
/// in input order: the word alone if it is spelled correctly, else the word
/// and its best correction, or `-` if none is within the budget.
#[verifier::loop_isolation(false)]
pub fn write_correct_words(words: Vec<String>, trie: &Trie) -> (r: String)
    requires
        trie.wf(),
    ensures
        exists|rs: Seq<Option<Seq<char>>>|
            #![auto]
            rs.len() == words@.len() && (forall|i: int|
                0 <= i < rs.len() ==> result_ok(*trie, words@[i]@, rs[i])) && r@ == render_out(
                string_views(words@),
                rs,
            ),
{
    let mut out: Vec<char> = Vec::new();
    let ghost mut rs: Seq<Option<Seq<char>>> = Seq::empty();
    let n = words.len();
    proof {
        assert(string_views(words@).subrange(0, 0) =~= Seq::<Seq<char>>::empty());
        assert(out@ =~= render_out(string_views(words@).subrange(0, 0), rs));
    }
    for i in 0..n
        invariant
            n == words@.len(),
            rs.len() == i,
            forall|k: int| 0 <= k < i ==> result_ok(*trie, words@[k]@, #[trigger] rs[k]),
            out@ == render_out(string_views(words@).subrange(0, i as int), rs),
    {
        let word = words[i].clone();
        let found = check_spelling(trie, word.clone());
        let ghost ro: Option<Seq<char>> = match &found {
            Some(c) => Some(c@),
            None => None,
        };
        let mut wchars = str_to_chars(word.as_str());
        match found {
            Some(c) => {
                if c.eq(&word) {
                    out.append(&mut wchars);
                    out.push('\n');
                } else {
                    out.append(&mut wchars);
                    out.push(',');
                    out.push(' ');
                    let mut cchars = str_to_chars(c.as_str());
                    out.append(&mut cchars);
                    out.push('\n');
                }
            },
            None => {
                out.append(&mut wchars);
                out.push(',');
                out.push(' ');
                out.push('-');
                out.push('\n');
            },
        }
        proof {
            let wv = words@[i as int]@;
            let pre = string_views(words@).subrange(0, i as int);
            let cur = string_views(words@).subrange(0, i as int + 1);
            assert(cur =~= pre.push(wv));
            assert(out@ =~= render_out(pre, rs) + render_out_line(wv, ro));
            lemma_render_out_snoc(pre, rs, wv, ro);
            rs = rs.push(ro);
            assert(out@ == render_out(cur, rs));
        }
    }
    proof {
        assert(string_views(words@).subrange(0, n as int) =~= string_views(words@));
    }
    let r = chars_to_string(&out);
    proof {
        assert(rs.len() == words@.len() && (forall|i: int|
            0 <= i < rs.len() ==> result_ok(*trie, words@[i]@, #[trigger] rs[i])) && r@
            == render_out(string_views(words@), rs));
    }
    r
}

} // verus!
