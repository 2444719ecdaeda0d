use vstd::prelude::*;

use crate::bow::{accumulated, document_tokens, lossy_text, occurrences, upper_of, words_of};
use crate::classify::admitted_terms;
use crate::table::FreqTable;

verus! {

/// Two positions of `ws` that hold `t` count twice.
proof fn lemma_occurrences_two(ws: Seq<Seq<char>>, i: int, j: int, t: Seq<char>)
    requires
        0 <= i < j < ws.len(),
        ws[i] == t,
        ws[j] == t,
    ensures
        occurrences(ws, t) >= 2,
    decreases ws.len(),
{
    if j == ws.len() - 1 {
        lemma_occurrences_one(ws.drop_last(), i, t);
    } else {
        lemma_occurrences_two(ws.drop_last(), i, j, t);
    }
}

/// A position of `ws` that holds `t` counts once.
proof fn lemma_occurrences_one(ws: Seq<Seq<char>>, i: int, t: Seq<char>)
    requires
        0 <= i < ws.len(),
        ws[i] == t,
    ensures
        occurrences(ws, t) >= 1,
    decreases ws.len(),
{
    if i < ws.len() - 1 {
        lemma_occurrences_one(ws.drop_last(), i, t);
    }
}

/// Counting a document twice into an empty table gives every token exactly
/// twice the count that counting it once gives: counting adds, it is not a no-op.
pub proof fn lemma_accumulate_twice(
    b: Seq<u8>,
    empty: FreqTable,
    once: FreqTable,
    twice: FreqTable,
)
    requires
        empty.wf(),
        empty.entries().len() == 0,
        accumulated(empty, once, b),
        accumulated(once, twice, b),
    ensures
        forall|t: Seq<char>| #[trigger] twice.count(t) == 2 * once.count(t),
        twice.size() == 2 * once.size(),
{
    assert forall|t: Seq<char>| #[trigger] twice.count(t) == 2 * once.count(t) by {
        assert(empty.count(t) == 0);
        assert(once.count(t) == empty.count(t) + occurrences(document_tokens(b), t));
        assert(twice.count(t) == once.count(t) + occurrences(document_tokens(b), t));
    }
    assert(empty.size() == 0);
}

/// Words of a document that differ only in case, that is, with one upper-case
/// form, are counted under that one token: after counting the document into
/// an empty table, the token's count includes both words.
pub proof fn lemma_case_folding(b: Seq<u8>, empty: FreqTable, after: FreqTable, i: int, j: int)
    requires
        empty.wf(),
        empty.entries().len() == 0,
        accumulated(empty, after, b),
        0 <= i < j < words_of(lossy_text(b)).len(),
        upper_of(words_of(lossy_text(b))[i]) == upper_of(words_of(lossy_text(b))[j]),
    ensures
        after.count(upper_of(words_of(lossy_text(b))[i])) >= 2,
        after.count(upper_of(words_of(lossy_text(b))[j])) >= 2,
{
    let t = upper_of(words_of(lossy_text(b))[i]);
    let toks = document_tokens(b);
    assert(toks[i] == t && toks[j] == t);
    lemma_occurrences_two(toks, i, j, t);
    assert(empty.count(t) == 0);
    assert(after.count(t) == empty.count(t) + occurrences(toks, t));
}

/// A token of the document whose combined count in the two tables is under
/// the threshold contributes nothing: leaving it out of the document gives
/// the same admitted terms.
pub proof fn lemma_rare_token_ignored(
    d: Seq<(Seq<char>, nat)>,
    ham: FreqTable,
    spam: FreqTable,
    k: nat,
    i: int,
)
    requires
        0 <= i < d.len(),
        spam.count(d[i].0) + ham.count(d[i].0) < k,
    ensures
        admitted_terms(d, ham, spam, k) == admitted_terms(d.remove(i), ham, spam, k),
    decreases d.len(),
{
    if i == d.len() - 1 {
        assert(d.remove(i) =~= d.drop_last());
    } else {
        assert(d.remove(i).drop_last() =~= d.drop_last().remove(i));
        assert(d.remove(i).last() == d.last());
        lemma_rare_token_ignored(d.drop_last(), ham, spam, k, i);
    }
}

/// A document none of whose tokens reaches the threshold has no admitted
/// terms, so its scores are the priors alone.
pub proof fn lemma_all_rare_no_terms(
    d: Seq<(Seq<char>, nat)>,
    ham: FreqTable,
    spam: FreqTable,
    k: nat,
)
    requires
        forall|i: int| 0 <= i < d.len() ==> #[trigger] spam.count(d[i].0) + ham.count(d[i].0) < k,
    ensures
        admitted_terms(d, ham, spam, k) == Seq::<(nat, nat)>::empty(),
    decreases d.len(),
{
    if d.len() > 0 {
        assert forall|i: int| 0 <= i < d.drop_last().len() implies #[trigger] spam.count(
            d.drop_last()[i].0,
        ) + ham.count(d.drop_last()[i].0) < k by {
            assert(d.drop_last()[i] == d[i]);
        }
        lemma_all_rare_no_terms(d.drop_last(), ham, spam, k);
        assert(spam.count(d[d.len() - 1].0) + ham.count(d[d.len() - 1].0) < k);
    }
}

} // verus!
