use vstd::prelude::*;

use crate::table::{lemma_qualifying_sum_le_size, lemma_qualifying_sum_prefix, qualifying_sum, FreqTable};

verus! {

/// The text that a lossy UTF-8 decode makes of some bytes.
pub uninterp spec fn lossy_text(b: Seq<u8>) -> Seq<char>;

/// The whitespace-separated words of a text, in order.
pub uninterp spec fn words_of(s: Seq<char>) -> Seq<Seq<char>>;

/// The upper-case form of a word.
pub uninterp spec fn upper_of(s: Seq<char>) -> Seq<char>;

/// Relies on `String::from_utf8_lossy`: the text depends on the bytes alone,
/// invalid sequences are replaced, and no bytes give no text.
#[verifier::external_body]
fn decode_lossy(b: &[u8]) -> (r: String)
    ensures
        r@ == lossy_text(b@),
        b@.len() == 0 ==> r@.len() == 0,
{
    String::from_utf8_lossy(b).into_owned()
}

/// Relies on `str::split_whitespace`: the words depend on the text alone, and an
/// empty text has none.
#[verifier::external_body]
fn split_words(s: &str) -> (r: Vec<String>)
    ensures
        r@.map_values(|w: String| w@) == words_of(s@),
        s@.len() == 0 ==> r@.len() == 0,
{
    s.split_whitespace().map(String::from).collect()
}

/// Relies on `str::to_uppercase`: the result depends on the word alone.
#[verifier::external_body]
fn to_upper(s: &str) -> (r: String)
    ensures
        r@ == upper_of(s@),
{
    s.to_uppercase()
}

/// The tokens of a document: its words, upper-cased, in order.
pub open spec fn document_tokens(b: Seq<u8>) -> Seq<Seq<char>> {
    words_of(lossy_text(b)).map_values(|w: Seq<char>| upper_of(w))
}

/// How many times `t` occurs in `ws`.
pub open spec fn occurrences(ws: Seq<Seq<char>>, t: Seq<char>) -> nat
    decreases ws.len(),
{
    if ws.len() == 0 {
        0
    } else {
        occurrences(ws.drop_last(), t) + if ws.last() == t {
            1nat
        } else {
            0nat
        }
    }
}

/// `after` is `before` with every token of the document `b` counted once more.
pub open spec fn accumulated(before: FreqTable, after: FreqTable, b: Seq<u8>) -> bool {
    &&& after.wf()
    &&& after.size() == before.size() + document_tokens(b).len()
    &&& forall|t: Seq<char>| #[trigger]
        after.count(t) == before.count(t) + occurrences(document_tokens(b), t)
}

/// A table can count no more tokens.
#[derive(Debug, Clone, Copy, PartialEq, Eq, Structural)]
pub enum BowError {
    Full,
}

/// Counts every token of the document `bytes` into `bow`.
///
/// Fails, and leaves `bow` as it was, only where the table's total would pass `u64::MAX`.
pub fn add_document_to_bow(bytes: &[u8], bow: &mut FreqTable) -> (r: Result<(), BowError>)
    requires
        old(bow).wf(),
    ensures
        r is Ok <==> old(bow).size() + document_tokens(bytes@).len() <= u64::MAX,
        r is Ok ==> accumulated(*old(bow), *final(bow), bytes@),
        r is Err ==> *final(bow) == *old(bow),
        bytes@.len() == 0 ==> r is Ok && *final(bow) == *old(bow),
{
    let text = decode_lossy(bytes);
    let words = split_words(text.as_str());
    let ghost toks = document_tokens(bytes@);
    assert(toks.len() == words@.len());
    if words.len() as u64 > u64::MAX - bow.total_tokens() {
        return Err(BowError::Full);
    }
    let ghost before = *bow;
    let mut i: usize = 0;
    while i < words.len()
        invariant
            bow.wf(),
            i <= words@.len(),
            words@.map_values(|w: String| w@) == words_of(lossy_text(bytes@)),
            toks == document_tokens(bytes@),
            toks.len() == words@.len(),
            before.size() + words@.len() <= u64::MAX,
            bow.size() == before.size() + i,
            words@.len() == 0 ==> *bow == before,
            forall|t: Seq<char>| #[trigger]
                bow.count(t) == before.count(t) + occurrences(toks.take(i as int), t),
        decreases words@.len() - i,
    {
        let up = to_upper(words[i].as_str());
        assert(toks[i as int] == up@);
        bow.add_token(up);
        assert(toks.take(i + 1).drop_last() =~= toks.take(i as int));
        i = i + 1;
    }
    assert(toks.take(i as int) =~= toks);
    Ok(())
}

/// The sum of the counts of `bow` that are at least `threshold`.
pub fn total_count(bow: &FreqTable, threshold: u64) -> (r: u64)
    requires
        bow.wf(),
    ensures
        r == qualifying_sum(bow.entries(), threshold as nat),
        bow.entries().len() == 0 ==> r == 0,
{
    let ghost e = bow.entries();
    let mut count: u64 = 0;
    let mut i: usize = 0;
    while i < bow.len()
        invariant
            bow.wf(),
            e == bow.entries(),
            i <= e.len(),
            count == qualifying_sum(e.take(i as int), threshold as nat),
        decreases e.len() - i,
    {
        let frequency = bow.count_at(i);
        assert(e.take(i + 1).drop_last() =~= e.take(i as int));
        proof {
            lemma_qualifying_sum_prefix(e, i + 1, threshold as nat);
            lemma_qualifying_sum_le_size(e, threshold as nat);
            assert(bow.size() <= u64::MAX) by {
                bow.lemma_size_fits();
            }
        }
        if frequency >= threshold {
            count = count + frequency;
        }
        i = i + 1;
    }
    assert(e.take(i as int) =~= e);
    count
}

} // verus!
