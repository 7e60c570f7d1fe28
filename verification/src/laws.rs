//! The library's general laws, stated once and proved for all inputs.

use vstd::prelude::*;

use crate::search::is_best_correction;
use crate::search::no_correction;
use crate::search::within;
use crate::trie::insert_step;
use crate::trie::Trie;

verus! {

/// Exact membership, first half: a query equal to a corpus word is never
/// without a correction, whatever the edit budget.
pub proof fn lemma_exact_query_found(d: Trie, w: Seq<char>, max: nat)
    requires
        d.spec_count(w) > 0,
    ensures
        !no_correction(d, w, max),
{
    assert(within(w, w, 0));
}

/// Exact membership, second half: for a query equal to a corpus word, every
/// best correction is that word itself, found at zero edits — an exact match
/// beats any edited alternative.
pub proof fn lemma_exact_query_is_best(d: Trie, w: Seq<char>, max: nat, p: Seq<char>, e: nat)
    requires
        d.spec_count(w) > 0,
        is_best_correction(d, w, max, p, e),
    ensures
        p == w,
        e == 0,
{
    assert(within(w, w, 0));
    assert(e == 0);
    if p != w {
        assert(!within(w, p, 0));
    }
}

/// The search is pinned up to the open tie: any two best corrections of the
/// same query take the same number of edits and are equally frequent, so
/// repeated read-only searches can differ at most between words the contract
/// leaves tied.
pub proof fn lemma_best_correction_unique(
    d: Trie,
    q: Seq<char>,
    max: nat,
    p1: Seq<char>,
    e1: nat,
    p2: Seq<char>,
    e2: nat,
)
    requires
        is_best_correction(d, q, max, p1, e1),
        is_best_correction(d, q, max, p2, e2),
    ensures
        e1 == e2,
        d.spec_count(p1) == d.spec_count(p2),
{
    assert(e1 < e2 || (e1 == e2 && d.spec_count(p2) <= d.spec_count(p1)));
    assert(e2 < e1 || (e2 == e1 && d.spec_count(p1) <= d.spec_count(p2)));
}

/// Frequency accumulation: inserting the same word `n` times into a trie
/// that did not hold it leaves that word with count exactly `n`; counts
/// never reset.  `ts` is the chain of tries, one per insertion.
pub proof fn lemma_frequency_accumulation(ts: Seq<Trie>, w: Seq<char>)
    requires
        ts.len() >= 1,
        ts[0].spec_count(w) == 0,
        forall|i: int| 0 <= i < ts.len() - 1 ==> insert_step(#[trigger] ts[i], ts[i + 1], w),
    ensures
        ts.last().spec_count(w) == ts.len() - 1,
    decreases ts.len(),
{
    if ts.len() > 1 {
        let prefix = ts.drop_last();
        assert(prefix[0] == ts[0]);
        assert forall|i: int| 0 <= i < prefix.len() - 1 implies insert_step(
            #[trigger] prefix[i],
            prefix[i + 1],
            w,
        ) by {
            assert(prefix[i] == ts[i]);
            assert(prefix[i + 1] == ts[i + 1]);
        }
        lemma_frequency_accumulation(prefix, w);
        assert(insert_step(ts[ts.len() - 2], ts[ts.len() - 1], w));
        assert(prefix.last() == ts[ts.len() - 2]);
        assert(ts.last() == ts[ts.len() - 1]);
        assert(ts.last().spec_count(w) == prefix.last().spec_count(w) + 1);
    }
}

} // verus!
