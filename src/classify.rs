use vstd::prelude::*;

use crate::table::FreqTable;

verus! {

/// A token of a document that passed the admission test: how often the spam
/// corpus and the ham corpus hold it.
#[derive(Debug, Clone, Copy, PartialEq, Eq, Structural)]
pub struct Term {
    pub spam_freq: u64,
    pub ham_freq: u64,
}

/// The (spam, ham) counts of the tokens of the document entries `d` whose
/// combined count in the two tables is at least `k`, in the order of `d`.
pub open spec fn admitted_terms(
    d: Seq<(Seq<char>, nat)>,
    ham: FreqTable,
    spam: FreqTable,
    k: nat,
) -> Seq<(nat, nat)>
    decreases d.len(),
{
    if d.len() == 0 {
        Seq::empty()
    } else {
        let rest = admitted_terms(d.drop_last(), ham, spam, k);
        let t = d.last().0;
        if spam.count(t) + ham.count(t) >= k {
            rest.push((spam.count(t), ham.count(t)))
        } else {
            rest
        }
    }
}

/// The terms as pairs of (spam, ham) counts.
pub open spec fn term_counts(ts: Seq<Term>) -> Seq<(nat, nat)> {
    ts.map_values(|t: Term| (t.spam_freq as nat, t.ham_freq as nat))
}

/// For each distinct token of the document table `doc`, in its order, the
/// token's counts in the spam and ham tables, where together they reach
/// `threshold`. Tokens under the threshold are left out.
pub fn document_terms(
    ham_bow: &FreqTable,
    spam_bow: &FreqTable,
    doc: &FreqTable,
    threshold: u64,
) -> (r: Vec<Term>)
    requires
        ham_bow.wf(),
        spam_bow.wf(),
        doc.wf(),
    ensures
        term_counts(r@) == admitted_terms(doc.entries(), *ham_bow, *spam_bow, threshold as nat),
{
    let ghost d = doc.entries();
    let mut terms: Vec<Term> = Vec::new();
    let mut i: usize = 0;
    while i < doc.len()
        invariant
            ham_bow.wf(),
            spam_bow.wf(),
            doc.wf(),
            d == doc.entries(),
            i <= d.len(),
            term_counts(terms@) == admitted_terms(
                d.take(i as int),
                *ham_bow,
                *spam_bow,
                threshold as nat,
            ),
        decreases d.len() - i,
    {
        let token = doc.token_at(i);
        let spam_freq = spam_bow.get(token);
        let ham_freq = ham_bow.get(token);
        assert(d.take(i + 1).drop_last() =~= d.take(i as int));
        let ghost before = terms@;
        if spam_freq >= threshold || ham_freq >= threshold - spam_freq {
            terms.push(Term { spam_freq, ham_freq });
            assert(term_counts(terms@) =~= term_counts(before).push(
                (spam_freq as nat, ham_freq as nat),
            ));
        }
        i = i + 1;
    }
    assert(d.take(i as int) =~= d);
    terms
}

/// Why the two trained tables cannot give priors.
#[derive(Debug, Clone, Copy, PartialEq, Eq, Structural)]
pub enum TrainingError {
    /// One of the two tables has no qualifying tokens, so its prior would be `ln 0`.
    InsufficientTrainingData,
    /// The two totals together do not fit in a `u64`.
    TotalTooLarge,
}

/// The combined total of the two tables' qualifying counts, the denominator
/// of the priors; an error where a prior would be undefined.
pub fn combined_total(ham_total: u64, spam_total: u64) -> (r: Result<u64, TrainingError>)
    ensures
        r == if ham_total == 0 || spam_total == 0 {
            Err(TrainingError::InsufficientTrainingData)
        } else if ham_total + spam_total > u64::MAX {
            Err(TrainingError::TotalTooLarge)
        } else {
            Ok((ham_total + spam_total) as u64)
        },
{
    if ham_total == 0 || spam_total == 0 {
        Err(TrainingError::InsufficientTrainingData)
    } else if ham_total > u64::MAX - spam_total {
        Err(TrainingError::TotalTooLarge)
    } else {
        Ok(ham_total + spam_total)
    }
}

/// How many of the verdicts are `true`.
pub open spec fn spam_verdicts(v: Seq<bool>) -> nat
    decreases v.len(),
{
    if v.len() == 0 {
        0
    } else {
        spam_verdicts(v.drop_last()) + if v.last() {
            1nat
        } else {
            0nat
        }
    }
}

/// Tallies per-document verdicts (`true` for spam) into (spam count, ham count).
/// Every document is counted once, on one side.
pub fn count_verdicts(is_spam: &Vec<bool>) -> (r: (u64, u64))
    ensures
        r.0 == spam_verdicts(is_spam@),
        r.0 + r.1 == is_spam@.len(),
{
    let mut spam_count: u64 = 0;
    let mut ham_count: u64 = 0;
    let mut i: usize = 0;
    while i < is_spam.len()
        invariant
            i <= is_spam@.len(),
            spam_count == spam_verdicts(is_spam@.take(i as int)),
            spam_count + ham_count == i,
        decreases is_spam@.len() - i,
    {
        assert(is_spam@.take(i + 1).drop_last() =~= is_spam@.take(i as int));
        if is_spam[i] {
            spam_count = spam_count + 1;
        } else {
            ham_count = ham_count + 1;
        }
        i = i + 1;
    }
    assert(is_spam@.take(i as int) =~= is_spam@);
    (spam_count, ham_count)
}

} // verus!
