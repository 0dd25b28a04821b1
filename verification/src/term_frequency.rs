//! How often each term occurs in one document.

use vstd::prelude::*;
use vstd::hash_map::StringHashMap;
use crate::lexical_analysis::{token_views, tokenize, tokens_of};

verus! {

/// How often `term` occurs in `tokens`.
pub open spec fn occurrences(tokens: Seq<Seq<char>>, term: Seq<char>) -> nat
    decreases tokens.len(),
{
    if tokens.len() == 0 {
        0
    } else {
        occurrences(tokens.drop_last(), term) + if tokens.last() == term {
            1nat
        } else {
            0nat
        }
    }
}

/// The terms that occur in `tokens`, each with the number of its
/// occurrences.
pub open spec fn term_counts(tokens: Seq<Seq<char>>) -> Map<Seq<char>, nat> {
    Map::new(|term: Seq<char>| occurrences(tokens, term) > 0, |term: Seq<char>| occurrences(tokens, term))
}

/// The count that `counts` gives for `term`: zero where `term` is absent.
pub open spec fn term_count(counts: Map<Seq<char>, nat>, term: Seq<char>) -> nat {
    if counts.contains_key(term) {
        counts[term]
    } else {
        0
    }
}

/// No two elements of `entries` have the same key.
pub open spec fn distinct_keys<V>(entries: Seq<(Seq<char>, V)>) -> bool {
    forall|i: int, j: int| 0 <= i < j < entries.len() ==> (#[trigger] entries[i]).0 != (#[trigger] entries[j]).0
}

/// `entries` lists `map`: each key once, with its value, and nothing else.
pub open spec fn lists<V>(entries: Seq<(Seq<char>, V)>, map: Map<Seq<char>, V>) -> bool {
    &&& forall|i: int|
        0 <= i < entries.len() ==> map.contains_key((#[trigger] entries[i]).0) && map[entries[i].0]
            == entries[i].1
    &&& forall|key: Seq<char>| #[trigger]
        map.contains_key(key) ==> exists|i: int| 0 <= i < entries.len() && (#[trigger] entries[i]).0 == key
    &&& distinct_keys(entries)
}

/// No term occurs more often than there are tokens.
pub proof fn lemma_occurrences_bound(tokens: Seq<Seq<char>>, term: Seq<char>)
    ensures
        occurrences(tokens, term) <= tokens.len(),
    decreases tokens.len(),
{
    if tokens.len() > 0 {
        lemma_occurrences_bound(tokens.drop_last(), term);
    }
}

/// One more token raises the count of that token by one and leaves the
/// other counts as they were.
pub proof fn lemma_term_counts_push(tokens: Seq<Seq<char>>, token: Seq<char>)
    ensures
        term_counts(tokens.push(token)) == term_counts(tokens).insert(
            token,
            term_count(term_counts(tokens), token) + 1,
        ),
{
    let longer = tokens.push(token);
    assert(longer.drop_last() =~= tokens);
    assert(term_counts(longer) =~= term_counts(tokens).insert(
        token,
        term_count(term_counts(tokens), token) + 1,
    ));
}

/// `terms` holds each key of `counts` once and nothing else, and no count is
/// zero.
spec fn counts_terms(terms: Seq<String>, counts: Map<Seq<char>, u64>) -> bool {
    &&& forall|i: int| 0 <= i < terms.len() ==> counts.contains_key(#[trigger] terms[i]@)
    &&& forall|term: Seq<char>| #[trigger]
        counts.contains_key(term) ==> exists|i: int| 0 <= i < terms.len() && (#[trigger] terms[i])@ == term
    &&& forall|i: int, j: int| 0 <= i < j < terms.len() ==> (#[trigger] terms[i])@ != (#[trigger] terms[j])@
    &&& forall|term: Seq<char>| #[trigger] counts.contains_key(term) ==> counts[term] > 0
}

/// Entering a positive count for a term, and the term itself where it is
/// new, keeps the terms and the counts in step.
proof fn lemma_counts_terms_insert(
    old_terms: Seq<String>,
    old_counts: Map<Seq<char>, u64>,
    terms: Seq<String>,
    counts: Map<Seq<char>, u64>,
    term: Seq<char>,
    count: u64,
)
    requires
        counts_terms(old_terms, old_counts),
        count > 0,
        counts == old_counts.insert(term, count),
        old_counts.contains_key(term) ==> terms == old_terms,
        !old_counts.contains_key(term) ==> terms.len() == old_terms.len() + 1 && terms.last()@ == term
            && terms.drop_last() == old_terms,
    ensures
        counts_terms(terms, counts),
{
    assert forall|i: int| 0 <= i < old_terms.len() implies terms[i] == old_terms[i] by {
        if !old_counts.contains_key(term) {
            assert(terms.drop_last()[i] == terms[i]);
        }
    }
    assert forall|i: int| 0 <= i < terms.len() implies counts.contains_key(#[trigger] terms[i]@) by {
        if i < old_terms.len() {
            assert(old_counts.contains_key(old_terms[i]@));
        }
    }
    assert forall|i: int, j: int| 0 <= i < j < terms.len() implies (#[trigger] terms[i])@ != (
    #[trigger] terms[j])@ by {
        assert(old_counts.contains_key(old_terms[i]@));
        if j < old_terms.len() {
            assert(old_terms[i]@ != old_terms[j]@);
        }
    }
    assert forall|key: Seq<char>| #[trigger] counts.contains_key(key) implies counts[key] > 0 by {
        if key != term {
            assert(old_counts.contains_key(key));
        }
    }
    assert forall|key: Seq<char>| #[trigger] counts.contains_key(key) implies exists|i: int|
        0 <= i < terms.len() && (#[trigger] terms[i])@ == key by {
        if old_counts.contains_key(key) {
            let i = choose|i: int| 0 <= i < old_terms.len() && (#[trigger] old_terms[i])@ == key;
            assert(terms[i]@ == key);
        } else {
            assert(terms[terms.len() - 1]@ == key);
        }
    }
}

/// The term frequency of one document: each term that occurs in it, with
/// the number of its occurrences. A term that does not occur has count zero
/// and no entry.
pub struct TermFrequency {
    /// The terms, each once, in the order in which they were first counted.
    terms: Vec<String>,
    /// How often each term of `terms` occurs.
    counts: StringHashMap<u64>,
}

impl View for TermFrequency {
    type V = Map<Seq<char>, nat>;

    closed spec fn view(&self) -> Map<Seq<char>, nat> {
        Map::new(
            |term: Seq<char>| self.counts@.contains_key(term),
            |term: Seq<char>| self.counts@[term] as nat,
        )
    }
}

impl TermFrequency {
    #[verifier::type_invariant]
    spec fn well_formed(self) -> bool {
        counts_terms(self.terms@, self.counts@)
    }

    /// The term frequency of a document without terms.
    pub fn new() -> (frequency: Self)
        ensures
            frequency@ == Map::<Seq<char>, nat>::empty(),
    {
        let frequency = TermFrequency { terms: Vec::new(), counts: StringHashMap::new() };
        assert(frequency@ =~= Map::<Seq<char>, nat>::empty());
        frequency
    }

    /// How often `term` occurs: zero where it does not, and only there.
    pub fn count(&self, term: &str) -> (count: u64)
        ensures
            count == term_count(self@, term@),
            count > 0 <==> self@.contains_key(term@),
    {
        proof {
            use_type_invariant(self);
        }
        match self.counts.get(term) {
            Some(count) => *count,
            None => 0,
        }
    }

    /// Counts one more occurrence of `term`.
    pub fn increment(&mut self, term: &str)
        requires
            term_count(old(self)@, term@) < u64::MAX,
        ensures
            final(self)@ == old(self)@.insert(term@, term_count(old(self)@, term@) + 1),
    {
        proof {
            use_type_invariant(&*self);
        }
        let mut taken = TermFrequency::new();
        std::mem::swap(self, &mut taken);
        let TermFrequency { mut terms, mut counts } = taken;
        let ghost old_terms = terms@;
        let ghost old_counts = counts@;
        let next: u64 = match counts.get(term) {
            Some(count) => *count + 1,
            None => {
                terms.push(term.to_owned());
                1
            },
        };
        counts.insert(term.to_owned(), next);
        proof {
            if !old_counts.contains_key(term@) {
                assert(terms@.drop_last() =~= old_terms);
            }
            lemma_counts_terms_insert(old_terms, old_counts, terms@, counts@, term@, next);
        }
        assert(counts_terms(terms@, counts@));
        *self = TermFrequency { terms, counts };
        assert(self@ =~= old(self)@.insert(term@, term_count(old(self)@, term@) + 1));
    }

    /// Sets the count of `term` to `count`.
    pub fn set(&mut self, term: &str, count: u64)
        requires
            count > 0,
        ensures
            final(self)@ == old(self)@.insert(term@, count as nat),
    {
        proof {
            use_type_invariant(&*self);
        }
        let mut taken = TermFrequency::new();
        std::mem::swap(self, &mut taken);
        let TermFrequency { mut terms, mut counts } = taken;
        let ghost old_terms = terms@;
        let ghost old_counts = counts@;
        if !counts.contains_key(term) {
            terms.push(term.to_owned());
        }
        counts.insert(term.to_owned(), count);
        proof {
            if !old_counts.contains_key(term@) {
                assert(terms@.drop_last() =~= old_terms);
            }
            lemma_counts_terms_insert(old_terms, old_counts, terms@, counts@, term@, count);
        }
        *self = TermFrequency { terms, counts };
        assert(self@ =~= old(self)@.insert(term@, count as nat));
    }

    /// Whether `self` holds each term of `other` with the count that it has
    /// there.
    fn covers(&self, other: &TermFrequency) -> (covered: bool)
        ensures
            covered == forall|term: Seq<char>| #[trigger]
                other@.contains_key(term) ==> self@.contains_key(term) && self@[term] == other@[term],
    {
        let entries = other.entries();
        let ghost listed = entry_views(entries@);
        let mut i: usize = 0;
        while i < entries.len()
            invariant
                i <= entries@.len(),
                listed == entry_views(entries@),
                lists(listed, other@),
                forall|k: int|
                    0 <= k < i ==> self@.contains_key((#[trigger] listed[k]).0) && self@[listed[k].0]
                        == listed[k].1,
                forall|k: int| 0 <= k < entries@.len() ==> (#[trigger] entries@[k]).1 > 0,
            decreases entries@.len() - i,
        {
            let count = self.count(entries[i].0.as_str());
            if count != entries[i].1 {
                proof {
                    let term = listed[i as int].0;
                    assert(other@.contains_key(term) && other@[term] == listed[i as int].1);
                    assert(entries@[i as int].1 > 0);
                }
                return false;
            }
            proof {
                assert(entries@[i as int].1 > 0);
                assert(listed[i as int] == (entries@[i as int].0@, entries@[i as int].1 as nat));
            }
            i += 1;
        }
        proof {
            assert forall|term: Seq<char>| #[trigger] other@.contains_key(term) implies self@.contains_key(term)
                && self@[term] == other@[term] by {
                let k = choose|k: int| 0 <= k < listed.len() && (#[trigger] listed[k]).0 == term;
                assert(self@.contains_key(listed[k].0));
            }
        }
        true
    }

    /// Whether `self` and `other` hold the same terms with the same counts.
    pub fn equals(&self, other: &TermFrequency) -> (same: bool)
        ensures
            same == (self@ == other@),
    {
        let same = self.covers(other) && other.covers(self);
        proof {
            if same {
                assert(self@ =~= other@);
            }
        }
        same
    }

    /// The terms with their counts, each term once.
    pub fn entries(&self) -> (entries: Vec<(String, u64)>)
        ensures
            lists(entry_views(entries@), self@),
            forall|i: int| 0 <= i < entries@.len() ==> (#[trigger] entries@[i]).1 > 0,
    {
        proof {
            use_type_invariant(self);
        }
        let mut entries: Vec<(String, u64)> = Vec::new();
        let mut i: usize = 0;
        while i < self.terms.len()
            invariant
                i <= self.terms@.len(),
                entries@.len() == i,
                forall|k: int| 0 <= k < i ==> (#[trigger] entries@[k]).0@ == self.terms@[k]@,
                forall|k: int| 0 <= k < i ==> (#[trigger] entries@[k]).1 > 0,
                forall|k: int|
                    0 <= k < i ==> self.counts@.contains_key(self.terms@[k]@) && (#[trigger] entries@[k]).1
                        == self.counts@[self.terms@[k]@],
                forall|k: int| 0 <= k < self.terms@.len() ==> self.counts@.contains_key(#[trigger] self.terms@[k]@),
            decreases self.terms@.len() - i,
        {
            let term = self.terms[i].clone();
            let count = self.count(term.as_str());
            entries.push((term, count));
            i += 1;
        }
        proof {
            let listed = entry_views(entries@);
            assert forall|k: int| 0 <= k < listed.len() implies self@.contains_key(
                (#[trigger] listed[k]).0,
            ) && self@[listed[k].0] == listed[k].1 by {
                assert(entries@[k].0@ == self.terms@[k]@);
            }
            assert forall|key: Seq<char>| #[trigger] self@.contains_key(key) implies exists|k: int|
                0 <= k < listed.len() && (#[trigger] listed[k]).0 == key by {
                let k = choose|k: int| 0 <= k < self.terms@.len() && (#[trigger] self.terms@[k])@ == key;
                assert(entries@[k].0@ == self.terms@[k]@);
                assert(listed[k].0 == key);
            }
            assert forall|a: int, b: int| 0 <= a < b < listed.len() implies (#[trigger] listed[a]).0 != (
            #[trigger] listed[b]).0 by {
                assert(entries@[a].0@ == self.terms@[a]@);
                assert(entries@[b].0@ == self.terms@[b]@);
            }
        }
        entries
    }
}

/// The mathematical value of a list of terms with their counts.
pub open spec fn entry_views(entries: Seq<(String, u64)>) -> Seq<(Seq<char>, nat)> {
    Seq::new(entries.len(), |i: int| (entries[i].0@, entries[i].1 as nat))
}

/// Counts the terms of `tokens`.
pub fn count_terms(tokens: &Vec<String>) -> (frequency: TermFrequency)
    ensures
        frequency@ == term_counts(token_views(tokens@)),
{
    let mut frequency = TermFrequency::new();
    let mut i: usize = 0;
    assert(token_views(tokens@).take(0) =~= Seq::<Seq<char>>::empty());
    assert(frequency@ =~= term_counts(Seq::<Seq<char>>::empty()));
    while i < tokens.len()
        invariant
            i <= tokens@.len(),
            frequency@ == term_counts(token_views(tokens@).take(i as int)),
        decreases tokens@.len() - i,
    {
        let ghost seen = token_views(tokens@).take(i as int);
        proof {
            lemma_occurrences_bound(seen, tokens@[i as int]@);
            lemma_term_counts_push(seen, tokens@[i as int]@);
            assert(token_views(tokens@).take(i + 1) =~= seen.push(tokens@[i as int]@));
        }
        frequency.increment(tokens[i].as_str());
        i += 1;
    }
    assert(token_views(tokens@).take(tokens@.len() as int) =~= token_views(tokens@));
    frequency
}

/// The term frequency of a document with the text `text`.
pub fn term_frequency_of(text: &str) -> (frequency: TermFrequency)
    ensures
        frequency@ == term_counts(tokenize(text@)),
{
    let tokens = tokens_of(text);
    count_terms(&tokens)
}

} // verus!
