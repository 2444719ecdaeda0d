use vstd::prelude::*;

verus! {

/// The count that the entries `e` hold for token `t` (0 when `t` is absent).
pub open spec fn lookup(e: Seq<(Seq<char>, nat)>, t: Seq<char>) -> nat
    decreases e.len(),
{
    if e.len() == 0 {
        0
    } else {
        lookup(e.drop_last(), t) + if e.last().0 == t {
            e.last().1
        } else {
            0
        }
    }
}

/// The sum of the counts in `e` that are at least `k`.
pub open spec fn qualifying_sum(e: Seq<(Seq<char>, nat)>, k: nat) -> nat
    decreases e.len(),
{
    if e.len() == 0 {
        0
    } else {
        qualifying_sum(e.drop_last(), k) + if e.last().1 >= k {
            e.last().1
        } else {
            0
        }
    }
}

/// No token occurs twice among the entries.
pub open spec fn keys_distinct(e: Seq<(Seq<char>, nat)>) -> bool {
    forall|i: int, j: int| 0 <= i < j < e.len() ==> e[i].0 != e[j].0
}

/// What changes in `lookup` when entry `i` takes the count `v`.
pub proof fn lemma_lookup_update(e: Seq<(Seq<char>, nat)>, i: int, v: nat, t: Seq<char>)
    requires
        0 <= i < e.len(),
    ensures
        lookup(e.update(i, (e[i].0, v)), t) == if e[i].0 == t {
            lookup(e, t) - e[i].1 + v
        } else {
            lookup(e, t) as int
        },
    decreases e.len(),
{
    let u = e.update(i, (e[i].0, v));
    if i < e.len() - 1 {
        assert(u.drop_last() =~= e.drop_last().update(i, (e[i].0, v)));
        lemma_lookup_update(e.drop_last(), i, v, t);
    } else {
        assert(u.drop_last() =~= e.drop_last());
    }
}

/// What changes in `qualifying_sum` when entry `i` takes the count `v`.
pub proof fn lemma_qualifying_sum_update(e: Seq<(Seq<char>, nat)>, i: int, v: nat, k: nat)
    requires
        0 <= i < e.len(),
    ensures
        qualifying_sum(e.update(i, (e[i].0, v)), k) == qualifying_sum(e, k) - (if e[i].1 >= k {
            e[i].1
        } else {
            0
        }) + (if v >= k {
            v
        } else {
            0
        }),
    decreases e.len(),
{
    let u = e.update(i, (e[i].0, v));
    if i < e.len() - 1 {
        assert(u.drop_last() =~= e.drop_last().update(i, (e[i].0, v)));
        lemma_qualifying_sum_update(e.drop_last(), i, v, k);
    } else {
        assert(u.drop_last() =~= e.drop_last());
    }
}

/// With distinct keys, the count of the token at `i` is the count stored there.
pub proof fn lemma_lookup_at(e: Seq<(Seq<char>, nat)>, i: int)
    requires
        0 <= i < e.len(),
        keys_distinct(e),
    ensures
        lookup(e, e[i].0) == e[i].1,
    decreases e.len(),
{
    if i < e.len() - 1 {
        lemma_lookup_at(e.drop_last(), i);
    } else {
        lemma_lookup_absent(e.drop_last(), e[i].0);
    }
}

/// A token that is no key of `e` has count 0.
pub proof fn lemma_lookup_absent(e: Seq<(Seq<char>, nat)>, t: Seq<char>)
    requires
        forall|i: int| 0 <= i < e.len() ==> e[i].0 != t,
    ensures
        lookup(e, t) == 0,
    decreases e.len(),
{
    if e.len() > 0 {
        lemma_lookup_absent(e.drop_last(), t);
    }
}

/// Counting only the counts of at least `k` never gives more than counting them all.
pub proof fn lemma_qualifying_sum_le_size(e: Seq<(Seq<char>, nat)>, k: nat)
    ensures
        qualifying_sum(e, k) <= qualifying_sum(e, 0),
    decreases e.len(),
{
    if e.len() > 0 {
        lemma_qualifying_sum_le_size(e.drop_last(), k);
    }
}

/// A prefix of the entries never sums to more than all of them.
pub proof fn lemma_qualifying_sum_prefix(e: Seq<(Seq<char>, nat)>, i: int, k: nat)
    requires
        0 <= i <= e.len(),
    ensures
        qualifying_sum(e.take(i), k) <= qualifying_sum(e, k),
    decreases e.len(),
{
    if i == e.len() {
        assert(e.take(i) =~= e);
    } else {
        assert(e.take(i) =~= e.drop_last().take(i));
        lemma_qualifying_sum_prefix(e.drop_last(), i, k);
    }
}

/// A bag of words: each distinct token with the number of times it was seen.
pub struct FreqTable {
    tokens: Vec<String>,
    counts: Vec<u64>,
    size: u64,
}

impl FreqTable {
    /// The entries of the table, in the order in which their tokens first came.
    pub closed spec fn entries(&self) -> Seq<(Seq<char>, nat)> {
        Seq::new(self.tokens@.len(), |i: int| (self.tokens@[i]@, self.counts@[i] as nat))
    }

    /// Keys are unique, every count is positive, and `size` is the sum of all counts.
    pub closed spec fn wf(&self) -> bool {
        &&& self.tokens@.len() == self.counts@.len()
        &&& keys_distinct(self.entries())
        &&& forall|i: int| 0 <= i < self.counts@.len() ==> self.counts@[i] >= 1
        &&& self.size == qualifying_sum(self.entries(), 0)
    }

    /// How many times `t` was counted.
    pub open spec fn count(&self, t: Seq<char>) -> nat {
        lookup(self.entries(), t)
    }

    /// The number of tokens counted, repeats included.
    pub open spec fn size(&self) -> nat {
        qualifying_sum(self.entries(), 0)
    }

    /// The number of tokens counted fits in a `u64`.
    pub proof fn lemma_size_fits(&self)
        requires
            self.wf(),
        ensures
            self.size() <= u64::MAX,
    {
    }

    /// An empty table.
    pub fn new() -> (r: FreqTable)
        ensures
            r.wf(),
            r.entries() == Seq::<(Seq<char>, nat)>::empty(),
    {
        let r = FreqTable { tokens: Vec::new(), counts: Vec::new(), size: 0 };
        assert(r.entries() =~= Seq::<(Seq<char>, nat)>::empty());
        r
    }

    /// The number of distinct tokens.
    pub fn len(&self) -> (r: usize)
        requires
            self.wf(),
        ensures
            r == self.entries().len(),
    {
        self.tokens.len()
    }

    /// The number of tokens counted, repeats included.
    pub fn total_tokens(&self) -> (r: u64)
        requires
            self.wf(),
        ensures
            r == self.size(),
    {
        self.size
    }

    /// The token of entry `i`.
    pub fn token_at(&self, i: usize) -> (r: &String)
        requires
            self.wf(),
            i < self.entries().len(),
        ensures
            r@ == self.entries()[i as int].0,
    {
        &self.tokens[i]
    }

    /// The count of entry `i`.
    pub fn count_at(&self, i: usize) -> (r: u64)
        requires
            self.wf(),
            i < self.entries().len(),
        ensures
            r == self.entries()[i as int].1,
    {
        self.counts[i]
    }

    fn index_of(&self, t: &String) -> (r: Option<usize>)
        requires
            self.wf(),
        ensures
            match r {
                Some(i) => i < self.entries().len() && self.entries()[i as int].0 == t@,
                None => forall|i: int| 0 <= i < self.entries().len() ==> self.entries()[i].0 != t@,
            },
    {
        let mut i: usize = 0;
        while i < self.tokens.len()
            invariant
                self.wf(),
                i <= self.tokens@.len(),
                forall|j: int| 0 <= j < i ==> self.entries()[j].0 != t@,
            decreases self.tokens@.len() - i,
        {
            if self.tokens[i] == *t {
                return Some(i);
            }
            i = i + 1;
        }
        None
    }

    /// How many times `t` was counted (0 when never).
    pub fn get(&self, t: &String) -> (r: u64)
        requires
            self.wf(),
        ensures
            r == self.count(t@),
    {
        match self.index_of(t) {
            Some(i) => {
                proof {
                    lemma_lookup_at(self.entries(), i as int);
                }
                self.counts[i]
            },
            None => {
                proof {
                    lemma_lookup_absent(self.entries(), t@);
                }
                0
            },
        }
    }

    /// Counts one more occurrence of `t`, adding it with count 1 when absent.
    pub fn add_token(&mut self, t: String)
        requires
            old(self).wf(),
            old(self).size() < u64::MAX,
        ensures
            final(self).wf(),
            final(self).size() == old(self).size() + 1,
            forall|s: Seq<char>| #[trigger]
                final(self).count(s) == old(self).count(s) + if s == t@ {
                    1nat
                } else {
                    0nat
                },
    {
        let ghost e = self.entries();
        match self.index_of(&t) {
            Some(i) => {
                let c = self.counts[i];
                proof {
                    lemma_lookup_at(e, i as int);
                    assert(c <= self.size) by {
                        lemma_qualifying_sum_update(e, i as int, 0, 0);
                    }
                }
                self.counts.set(i, c + 1);
                self.size = self.size + 1;
                proof {
                    assert(self.entries() =~= e.update(i as int, (e[i as int].0, (c + 1) as nat)));
                    lemma_qualifying_sum_update(e, i as int, (c + 1) as nat, 0);
                    assert forall|s: Seq<char>|
                        #[trigger] self.count(s) == lookup(e, s) + if s == t@ {
                            1nat
                        } else {
                            0nat
                        } by {
                        lemma_lookup_update(e, i as int, (c + 1) as nat, s);
                    }
                }
            },
            None => {
                let ghost tv = t@;
                self.tokens.push(t);
                self.counts.push(1);
                self.size = self.size + 1;
                proof {
                    assert(self.entries() =~= e.push((tv, 1nat)));
                    assert(self.entries().drop_last() =~= e);
                }
            },
        }
    }
}

} // verus!
