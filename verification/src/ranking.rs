//! The query ranker: scores each document of an index against a query and
//! orders the documents that match.

use vstd::prelude::*;
use vstd::hash_map::StringHashMap;
use crate::index::TermFrequencyIndex;
use crate::lexical_analysis::{chars_of, token_views, tokenize, tokens_of};
use crate::term_frequency::{term_count, TermFrequency};

verus! {

/// How many documents a ranking holds at most.
pub const RANKING_LIMIT: usize = 20;

/// Whether `a` stands before `b` in the order of document ids: the
/// lexicographic order by code point.
pub open spec fn precedes(a: Seq<char>, b: Seq<char>) -> bool
    decreases a.len(),
{
    if b.len() == 0 {
        false
    } else if a.len() == 0 {
        true
    } else if a[0] != b[0] {
        a[0] < b[0]
    } else {
        precedes(a.drop_first(), b.drop_first())
    }
}

/// No id stands before itself.
pub proof fn lemma_precedes_irreflexive(a: Seq<char>)
    ensures
        !precedes(a, a),
    decreases a.len(),
{
    if a.len() > 0 {
        lemma_precedes_irreflexive(a.drop_first());
    }
}

/// Of two different ids one stands before the other.
pub proof fn lemma_precedes_total(a: Seq<char>, b: Seq<char>)
    ensures
        a == b || precedes(a, b) || precedes(b, a),
    decreases a.len(),
{
    if a.len() > 0 && b.len() > 0 && a[0] == b[0] {
        lemma_precedes_total(a.drop_first(), b.drop_first());
        if a.drop_first() == b.drop_first() {
            assert(a =~= seq![a[0]] + a.drop_first());
            assert(b =~= seq![b[0]] + b.drop_first());
        }
    } else if a.len() == 0 && b.len() == 0 {
        assert(a =~= b);
    }
}

/// The order of ids is transitive.
pub proof fn lemma_precedes_transitive(a: Seq<char>, b: Seq<char>, c: Seq<char>)
    requires
        precedes(a, b),
        precedes(b, c),
    ensures
        precedes(a, c),
    decreases a.len(),
{
    if a.len() > 0 && a[0] == b[0] && b[0] == c[0] {
        lemma_precedes_transitive(a.drop_first(), b.drop_first(), c.drop_first());
    }
}

/// Whether the id `a` stands before the id `b`.
pub fn id_precedes(a: &str, b: &str) -> (before: bool)
    ensures
        before == precedes(a@, b@),
{
    let left = chars_of(a);
    let right = chars_of(b);
    let mut i: usize = 0;
    assert(left@.skip(0) =~= left@);
    assert(right@.skip(0) =~= right@);
    while i < left.len() && i < right.len() && left[i] == right[i]
        invariant
            i <= left@.len(),
            i <= right@.len(),
            precedes(left@, right@) == precedes(left@.skip(i as int), right@.skip(i as int)),
        decreases left@.len() - i,
    {
        proof {
            let l = left@.skip(i as int);
            let r = right@.skip(i as int);
            assert(l[0] == r[0]);
            assert(l.drop_first() =~= left@.skip(i + 1));
            assert(r.drop_first() =~= right@.skip(i + 1));
        }
        i += 1;
    }
    proof {
        let l = left@.skip(i as int);
        let r = right@.skip(i as int);
        if i < left@.len() {
            assert(l[0] == left@[i as int]);
        }
        if i < right@.len() {
            assert(r[0] == right@[i as int]);
        }
    }
    if i >= right.len() {
        false
    } else if i >= left.len() {
        true
    } else {
        left[i] < right[i]
    }
}

/// The distinct tokens of `tokens`, each at the place of its first
/// occurrence.
pub open spec fn distinct(tokens: Seq<Seq<char>>) -> Seq<Seq<char>>
    decreases tokens.len(),
{
    if tokens.len() == 0 {
        Seq::empty()
    } else if tokens.drop_last().contains(tokens.last()) {
        distinct(tokens.drop_last())
    } else {
        distinct(tokens.drop_last()).push(tokens.last())
    }
}

/// The sum of the counts that `counts` gives for each element of `terms`.
pub open spec fn total(counts: Map<Seq<char>, nat>, terms: Seq<Seq<char>>) -> nat
    decreases terms.len(),
{
    if terms.len() == 0 {
        0
    } else {
        total(counts, terms.drop_last()) + term_count(counts, terms.last())
    }
}

/// The score of a document with the term frequency `counts` for the query
/// tokens `query`: the sum, over each distinct token of the query, of the
/// count of that token in the document.
pub open spec fn score(counts: Map<Seq<char>, nat>, query: Seq<Seq<char>>) -> nat {
    total(counts, distinct(query))
}

/// The distinct tokens hold each token of `tokens`, none twice, and nothing
/// else.
pub proof fn lemma_distinct(tokens: Seq<Seq<char>>)
    ensures
        distinct(tokens).no_duplicates(),
        forall|token: Seq<char>| distinct(tokens).contains(token) <==> tokens.contains(token),
    decreases tokens.len(),
{
    if tokens.len() > 0 {
        let earlier = tokens.drop_last();
        let last = tokens.last();
        lemma_distinct(earlier);
        assert forall|token: Seq<char>| distinct(tokens).contains(token) <==> tokens.contains(token) by {
            if tokens.contains(token) {
                let i = choose|i: int| 0 <= i < tokens.len() && tokens[i] == token;
                if i < tokens.len() - 1 {
                    assert(earlier[i] == token);
                }
            }
            if earlier.contains(token) {
                let i = choose|i: int| 0 <= i < earlier.len() && earlier[i] == token;
                assert(tokens[i] == token);
            }
            if distinct(earlier).contains(token) {
                let i = choose|i: int| 0 <= i < distinct(earlier).len() && distinct(earlier)[i] == token;
                if !earlier.contains(last) {
                    assert(distinct(tokens)[i] == token);
                }
            }
            if distinct(tokens).contains(token) {
                let i = choose|i: int| 0 <= i < distinct(tokens).len() && distinct(tokens)[i] == token;
                if !earlier.contains(last) && i < distinct(earlier).len() {
                    assert(distinct(earlier)[i] == token);
                }
            }
            if token == last {
                assert(tokens[tokens.len() - 1] == token);
                if !earlier.contains(last) {
                    assert(distinct(tokens)[distinct(earlier).len() as int] == token);
                }
            }
        }
        if !earlier.contains(last) {
            let longer = distinct(earlier).push(last);
            assert forall|i: int, j: int| 0 <= i < longer.len() && 0 <= j < longer.len() && i != j implies longer[i]
                != longer[j] by {
                if i < distinct(earlier).len() {
                    assert(distinct(earlier).contains(longer[i]));
                }
                if j < distinct(earlier).len() {
                    assert(distinct(earlier).contains(longer[j]));
                }
            }
        }
    }
}

/// A sum of counts is the count of any one of its terms and the sum of the
/// rest.
proof fn lemma_total_remove(counts: Map<Seq<char>, nat>, terms: Seq<Seq<char>>, at: int)
    requires
        0 <= at < terms.len(),
    ensures
        total(counts, terms) == total(counts, terms.remove(at)) + term_count(counts, terms[at]),
    decreases terms.len(),
{
    if at == terms.len() - 1 {
        assert(terms.remove(at) =~= terms.drop_last());
    } else {
        lemma_total_remove(counts, terms.drop_last(), at);
        assert(terms.remove(at).drop_last() =~= terms.drop_last().remove(at));
        assert(terms.remove(at).last() == terms.last());
        assert(terms.drop_last()[at] == terms[at]);
    }
}

/// Two lists that hold the same terms, none of them twice, have the same
/// sum of counts.
proof fn lemma_total_of_same_terms(counts: Map<Seq<char>, nat>, a: Seq<Seq<char>>, b: Seq<Seq<char>>)
    requires
        a.no_duplicates(),
        b.no_duplicates(),
        forall|term: Seq<char>| a.contains(term) <==> b.contains(term),
    ensures
        total(counts, a) == total(counts, b),
    decreases a.len(),
{
    if a.len() == 0 {
        if b.len() > 0 {
            assert(b.contains(b[0]));
            assert(a.contains(b[0]));
        }
    } else {
        let last = a.last();
        let rest = a.drop_last();
        assert(a.contains(last));
        let at = choose|at: int| 0 <= at < b.len() && b[at] == last;
        let others = b.remove(at);
        lemma_total_remove(counts, b, at);
        assert forall|i: int, j: int| 0 <= i < rest.len() && 0 <= j < rest.len() && i != j implies rest[i]
            != rest[j] by {
            assert(rest[i] == a[i] && rest[j] == a[j]);
        }
        assert forall|i: int, j: int| 0 <= i < others.len() && 0 <= j < others.len() && i != j implies others[i]
            != others[j] by {
            let from = |k: int| if k < at { k } else { k + 1 };
            assert(others[i] == b[from(i)] && others[j] == b[from(j)]);
        }
        assert forall|term: Seq<char>| rest.contains(term) <==> others.contains(term) by {
            if rest.contains(term) {
                let i = choose|i: int| 0 <= i < rest.len() && rest[i] == term;
                assert(a[i] == term);
                assert(a.contains(term));
                let j = choose|j: int| 0 <= j < b.len() && b[j] == term;
                assert(j != at);
                if j < at {
                    assert(others[j] == term);
                } else {
                    assert(others[j - 1] == term);
                }
            }
            if others.contains(term) {
                let j = choose|j: int| 0 <= j < others.len() && others[j] == term;
                let k = if j < at { j } else { j + 1 };
                assert(b[k] == term);
                assert(b.contains(term));
                let i = choose|i: int| 0 <= i < a.len() && a[i] == term;
                assert(i != a.len() - 1);
                assert(rest[i] == term);
            }
        }
        lemma_total_of_same_terms(counts, rest, others);
    }
}

/// The score depends on which tokens the query holds, not on their order
/// nor on how often each is repeated.
pub proof fn lemma_score_of_same_tokens(counts: Map<Seq<char>, nat>, a: Seq<Seq<char>>, b: Seq<Seq<char>>)
    requires
        forall|token: Seq<char>| a.contains(token) <==> b.contains(token),
    ensures
        score(counts, a) == score(counts, b),
{
    lemma_distinct(a);
    lemma_distinct(b);
    assert forall|token: Seq<char>| distinct(a).contains(token) <==> distinct(b).contains(token) by {
        assert(distinct(a).contains(token) <==> a.contains(token));
        assert(distinct(b).contains(token) <==> b.contains(token));
    }
    lemma_total_of_same_terms(counts, distinct(a), distinct(b));
}

/// A document with its score for a query.
pub struct ScoredDocument {
    pub id: String,
    pub score: u128,
}

impl View for ScoredDocument {
    type V = (Seq<char>, nat);

    open spec fn view(&self) -> (Seq<char>, nat) {
        (self.id@, self.score as nat)
    }
}

/// The ids and scores of `documents`, in order.
pub open spec fn ranking_view(documents: Seq<ScoredDocument>) -> Seq<(Seq<char>, nat)> {
    Seq::new(documents.len(), |k: int| documents[k]@)
}

/// Whether `a` is ranked before `b`: by the higher score, and among equal
/// scores by the id that stands first.
pub open spec fn outranks(a: (Seq<char>, nat), b: (Seq<char>, nat)) -> bool {
    a.1 > b.1 || (a.1 == b.1 && precedes(a.0, b.0))
}

/// Each element of `ranking` is ranked before all that follow it.
pub open spec fn ranked(ranking: Seq<(Seq<char>, nat)>) -> bool {
    forall|k: int, l: int| 0 <= k < l < ranking.len() ==> outranks(#[trigger] ranking[k], #[trigger] ranking[l])
}

/// Whether the index holds the document `id` and the query scores it above
/// zero.
pub open spec fn is_match(
    index: Map<Seq<char>, Map<Seq<char>, nat>>,
    query: Seq<Seq<char>>,
    id: Seq<char>,
) -> bool {
    index.contains_key(id) && score(index[id], query) > 0
}

/// The document `id` with its score.
pub open spec fn scored(
    index: Map<Seq<char>, Map<Seq<char>, nat>>,
    query: Seq<Seq<char>>,
    id: Seq<char>,
) -> (Seq<char>, nat) {
    (id, score(index[id], query))
}

/// Whether `ranking` holds the document `id`.
pub open spec fn holds(ranking: Seq<(Seq<char>, nat)>, id: Seq<char>) -> bool {
    exists|k: int| 0 <= k < ranking.len() && (#[trigger] ranking[k]).0 == id
}

/// `ranking` holds the `limit` best matches among the documents `among`, or
/// all of them where they are fewer, best first; each with its score, and no
/// document that is no match.
pub open spec fn ranks_among(
    ranking: Seq<(Seq<char>, nat)>,
    index: Map<Seq<char>, Map<Seq<char>, nat>>,
    query: Seq<Seq<char>>,
    limit: nat,
    among: Set<Seq<char>>,
) -> bool {
    &&& ranking.len() <= limit
    &&& ranked(ranking)
    &&& forall|k: int|
        0 <= k < ranking.len() ==> {
            &&& among.contains((#[trigger] ranking[k]).0)
            &&& is_match(index, query, ranking[k].0)
            &&& ranking[k] == scored(index, query, ranking[k].0)
        }
    &&& forall|id: Seq<char>|
        among.contains(id) && #[trigger] is_match(index, query, id) ==> {
            ||| holds(ranking, id)
            ||| ranking.len() == limit && limit > 0 && outranks(ranking[limit - 1], scored(index, query, id))
        }
}

/// `ranking` is the ranking of `index` for `query`, cut off after `limit`
/// documents.
pub open spec fn is_ranking(
    ranking: Seq<(Seq<char>, nat)>,
    index: Map<Seq<char>, Map<Seq<char>, nat>>,
    query: Seq<Seq<char>>,
    limit: nat,
) -> bool {
    ranks_among(ranking, index, query, limit, index.dom())
}

/// The ranking of `index` for `query`: what `is_ranking` accepts with the
/// limit `RANKING_LIMIT`.
pub open spec fn ranking_of(index: Map<Seq<char>, Map<Seq<char>, nat>>, query: Seq<Seq<char>>) -> Seq<
    (Seq<char>, nat),
> {
    choose|ranking: Seq<(Seq<char>, nat)>| is_ranking(ranking, index, query, RANKING_LIMIT as nat)
}

/// A document without terms scores zero for every query.
pub proof fn lemma_no_terms_no_score(terms: Seq<Seq<char>>)
    ensures
        total(Map::empty(), terms) == 0,
        score(Map::empty(), terms) == 0,
    decreases terms.len(),
{
    if terms.len() > 0 {
        lemma_no_terms_no_score(terms.drop_last());
    }
    lemma_no_terms_sum(distinct(terms));
}

/// A sum of counts in a document without terms is zero.
proof fn lemma_no_terms_sum(terms: Seq<Seq<char>>)
    ensures
        total(Map::empty(), terms) == 0,
    decreases terms.len(),
{
    if terms.len() > 0 {
        lemma_no_terms_sum(terms.drop_last());
    }
}

/// A document without terms is in no ranking.
pub proof fn lemma_no_terms_no_rank(
    ranking: Seq<(Seq<char>, nat)>,
    index: Map<Seq<char>, Map<Seq<char>, nat>>,
    query: Seq<Seq<char>>,
    limit: nat,
    id: Seq<char>,
)
    requires
        is_ranking(ranking, index, query, limit),
        index.contains_key(id),
        index[id] == Map::<Seq<char>, nat>::empty(),
    ensures
        !holds(ranking, id),
{
    lemma_no_terms_no_score(query);
    if holds(ranking, id) {
        let k = choose|k: int| 0 <= k < ranking.len() && (#[trigger] ranking[k]).0 == id;
        assert(is_match(index, query, ranking[k].0));
    }
}

/// Of two documents with different ids one is ranked before the other.
pub proof fn lemma_outranks_total(a: (Seq<char>, nat), b: (Seq<char>, nat))
    requires
        a.0 != b.0,
    ensures
        outranks(a, b) || outranks(b, a),
{
    lemma_precedes_total(a.0, b.0);
}

/// The ranking order is transitive.
pub proof fn lemma_outranks_transitive(a: (Seq<char>, nat), b: (Seq<char>, nat), c: (Seq<char>, nat))
    requires
        outranks(a, b),
        outranks(b, c),
    ensures
        outranks(a, c),
{
    if a.1 == b.1 && b.1 == c.1 {
        lemma_precedes_transitive(a.0, b.0, c.0);
    }
}

/// No two documents are ranked before each other, and none before itself.
pub proof fn lemma_outranks_asymmetric(a: (Seq<char>, nat), b: (Seq<char>, nat))
    requires
        outranks(a, b),
    ensures
        !outranks(b, a),
        a != b,
{
    if a.1 == b.1 {
        lemma_precedes_irreflexive(a.0);
        if precedes(b.0, a.0) {
            lemma_precedes_transitive(a.0, b.0, a.0);
        }
    }
}

/// Where two rankings of one index for one query agree below position `n`,
/// the second has at `n` the document that the first has there, or one that
/// is ranked before it.
proof fn lemma_not_worse(
    a: Seq<(Seq<char>, nat)>,
    b: Seq<(Seq<char>, nat)>,
    index: Map<Seq<char>, Map<Seq<char>, nat>>,
    query: Seq<Seq<char>>,
    limit: nat,
    n: int,
)
    requires
        is_ranking(a, index, query, limit),
        is_ranking(b, index, query, limit),
        0 <= n < a.len(),
        n < b.len(),
        forall|j: int| 0 <= j < n ==> a[j] == b[j],
    ensures
        b[n] == a[n] || outranks(b[n], a[n]),
{
    let x = a[n];
    assert(is_match(index, query, x.0));
    if holds(b, x.0) {
        let m = choose|m: int| 0 <= m < b.len() && (#[trigger] b[m]).0 == x.0;
        assert(b[m] == x);
        if m < n {
            assert(outranks(a[m], a[n]));
            lemma_outranks_asymmetric(a[m], a[n]);
        }
    } else {
        if n < limit - 1 {
            lemma_outranks_transitive(b[n], b[limit - 1], x);
        }
    }
}

/// Two rankings of one index for one query agree on every position that
/// both have below `n`.
proof fn lemma_rankings_agree(
    a: Seq<(Seq<char>, nat)>,
    b: Seq<(Seq<char>, nat)>,
    index: Map<Seq<char>, Map<Seq<char>, nat>>,
    query: Seq<Seq<char>>,
    limit: nat,
    n: int,
)
    requires
        is_ranking(a, index, query, limit),
        is_ranking(b, index, query, limit),
        0 <= n <= a.len(),
        n <= b.len(),
    ensures
        forall|j: int| 0 <= j < n ==> a[j] == b[j],
    decreases n,
{
    if n > 0 {
        lemma_rankings_agree(a, b, index, query, limit, n - 1);
        lemma_not_worse(a, b, index, query, limit, n - 1);
        lemma_not_worse(b, a, index, query, limit, n - 1);
        if a[n - 1] != b[n - 1] {
            lemma_outranks_asymmetric(a[n - 1], b[n - 1]);
        }
    }
}

/// A ranking that agrees with a second one on all its positions is not the
/// shorter of the two.
proof fn lemma_not_shorter(
    a: Seq<(Seq<char>, nat)>,
    b: Seq<(Seq<char>, nat)>,
    index: Map<Seq<char>, Map<Seq<char>, nat>>,
    query: Seq<Seq<char>>,
    limit: nat,
)
    requires
        is_ranking(a, index, query, limit),
        is_ranking(b, index, query, limit),
        forall|j: int| 0 <= j < a.len() && j < b.len() ==> a[j] == b[j],
    ensures
        a.len() >= b.len(),
{
    if a.len() < b.len() {
        let x = b[a.len() as int];
        assert(is_match(index, query, x.0));
        assert(holds(a, x.0));
        let m = choose|m: int| 0 <= m < a.len() && (#[trigger] a[m]).0 == x.0;
        assert(a[m] == x);
        assert(outranks(b[m], b[a.len() as int]));
        lemma_outranks_asymmetric(b[m], b[a.len() as int]);
    }
}

/// An index has one ranking for a query and a limit: `is_ranking` admits no
/// second.
pub proof fn lemma_ranking_unique(
    a: Seq<(Seq<char>, nat)>,
    b: Seq<(Seq<char>, nat)>,
    index: Map<Seq<char>, Map<Seq<char>, nat>>,
    query: Seq<Seq<char>>,
    limit: nat,
)
    requires
        is_ranking(a, index, query, limit),
        is_ranking(b, index, query, limit),
    ensures
        a == b,
{
    let n = if a.len() <= b.len() {
        a.len() as int
    } else {
        b.len() as int
    };
    lemma_rankings_agree(a, b, index, query, limit, n);
    lemma_not_shorter(a, b, index, query, limit);
    lemma_not_shorter(b, a, index, query, limit);
    assert(a =~= b);
}

impl ScoredDocument {
    /// Whether `self` is ranked before `other`.
    pub fn outranks(&self, other: &ScoredDocument) -> (before: bool)
        ensures
            before == outranks(self@, other@),
    {
        self.score > other.score || (self.score == other.score && id_precedes(
            self.id.as_str(),
            other.id.as_str(),
        ))
    }
}

/// The distinct tokens of `tokens`, each at the place of its first
/// occurrence.
pub fn distinct_tokens(tokens: &Vec<String>) -> (terms: Vec<String>)
    ensures
        token_views(terms@) == distinct(token_views(tokens@)),
{
    let mut terms: Vec<String> = Vec::new();
    let mut seen: StringHashMap<bool> = StringHashMap::new();
    let ghost all = token_views(tokens@);
    let mut i: usize = 0;
    assert(all.take(0) =~= Seq::<Seq<char>>::empty());
    assert(token_views(terms@) =~= distinct(all.take(0)));
    while i < tokens.len()
        invariant
            i <= tokens@.len(),
            all == token_views(tokens@),
            token_views(terms@) == distinct(all.take(i as int)),
            forall|t: Seq<char>| seen@.contains_key(t) <==> all.take(i as int).contains(t),
        decreases tokens@.len() - i,
    {
        let ghost earlier = all.take(i as int);
        let ghost longer = all.take(i + 1);
        let ghost old_terms = token_views(terms@);
        let token = &tokens[i];
        proof {
            assert(longer.drop_last() =~= earlier);
            assert(longer.last() == token@);
        }
        if !seen.contains_key(token.as_str()) {
            seen.insert(token.clone(), true);
            terms.push(token.clone());
            assert(token_views(terms@) =~= old_terms.push(token@));
        }
        proof {
            assert forall|t: Seq<char>| seen@.contains_key(t) <==> longer.contains(t) by {
                if longer.contains(t) {
                    let k = choose|k: int| 0 <= k < longer.len() && longer[k] == t;
                    if k < i {
                        assert(earlier[k] == t);
                    }
                }
                if earlier.contains(t) {
                    let k = choose|k: int| 0 <= k < earlier.len() && earlier[k] == t;
                    assert(longer[k] == t);
                }
                if t == token@ {
                    assert(longer[i as int] == t);
                }
            }
        }
        i += 1;
    }
    assert(all.take(tokens@.len() as int) =~= all);
    terms
}

/// The sum of the counts of `terms` in `frequency`.
pub fn total_count(frequency: &TermFrequency, terms: &Vec<String>) -> (sum: u128)
    ensures
        sum == total(frequency@, token_views(terms@)),
{
    let mut sum: u128 = 0;
    let mut i: usize = 0;
    let ghost all = token_views(terms@);
    assert(all.take(0) =~= Seq::<Seq<char>>::empty());
    while i < terms.len()
        invariant
            i <= terms@.len(),
            all == token_views(terms@),
            sum == total(frequency@, all.take(i as int)),
            sum <= i * u64::MAX,
        decreases terms@.len() - i,
    {
        proof {
            assert(all.take(i + 1).drop_last() =~= all.take(i as int));
            assert(all.take(i + 1).last() == terms@[i as int]@);
        }
        let count = frequency.count(terms[i].as_str());
        sum = sum + count as u128;
        i += 1;
    }
    assert(all.take(terms@.len() as int) =~= all);
    sum
}

/// Enters `candidate` into the ranking `top` at its rank, and drops the last
/// document where the ranking would then hold more than `RANKING_LIMIT`.
fn place(top: &mut Vec<ScoredDocument>, candidate: ScoredDocument)
    requires
        ranked(ranking_view(old(top)@)),
        old(top)@.len() <= RANKING_LIMIT,
        !holds(ranking_view(old(top)@), candidate.id@),
    ensures
        ranked(ranking_view(final(top)@)),
        final(top)@.len() <= RANKING_LIMIT,
        forall|k: int|
            0 <= k < final(top)@.len() ==> {
                ||| (#[trigger] ranking_view(final(top)@)[k]) == candidate@
                ||| ranking_view(old(top)@).contains(ranking_view(final(top)@)[k])
            },
        kept_or_outranked(ranking_view(final(top)@), candidate@),
        forall|x: (Seq<char>, nat)| #[trigger]
            ranking_view(old(top)@).contains(x) ==> kept_or_outranked(ranking_view(final(top)@), x),
        old(top)@.len() == RANKING_LIMIT ==> final(top)@.len() == RANKING_LIMIT && {
            ||| ranking_view(final(top)@)[RANKING_LIMIT - 1] == ranking_view(old(top)@)[RANKING_LIMIT - 1]
            ||| outranks(
                ranking_view(final(top)@)[RANKING_LIMIT - 1],
                ranking_view(old(top)@)[RANKING_LIMIT - 1],
            )
        },
{
    let ghost before = ranking_view(top@);
    let ghost c = candidate@;
    let mut p: usize = 0;
    while p < top.len() && top[p].outranks(&candidate)
        invariant
            p <= top@.len(),
            before == ranking_view(top@),
            c == candidate@,
            forall|k: int| 0 <= k < p ==> outranks(#[trigger] before[k], c),
        decreases top@.len() - p,
    {
        assert(before[p as int] == top@[p as int]@);
        p += 1;
    }
    proof {
        if p < top@.len() {
            assert(before[p as int] == top@[p as int]@);
            assert(before[p as int].0 != c.0);
            lemma_outranks_total(before[p as int], c);
            assert forall|l: int| p <= l < before.len() implies outranks(c, #[trigger] before[l]) by {
                if l > p {
                    lemma_outranks_transitive(c, before[p as int], before[l]);
                }
            }
        }
    }
    if p == RANKING_LIMIT {
        assert(outranks(before[RANKING_LIMIT - 1], c));
        return ;
    }
    top.insert(p, candidate);
    let ghost entered = ranking_view(top@);
    proof {
        assert(entered =~= before.insert(p as int, c));
        assert forall|k: int, l: int| 0 <= k < l < entered.len() implies outranks(
            #[trigger] entered[k],
            #[trigger] entered[l],
        ) by {
            if l < p {
                assert(entered[k] == before[k] && entered[l] == before[l]);
            } else if l == p {
                assert(entered[k] == before[k]);
            } else if k < p {
                assert(entered[k] == before[k] && entered[l] == before[l - 1]);
            } else if k == p {
                assert(entered[l] == before[l - 1]);
            } else {
                assert(entered[k] == before[k - 1] && entered[l] == before[l - 1]);
            }
        }
        assert(entered[p as int] == c);
        assert forall|x: (Seq<char>, nat)| #[trigger] before.contains(x) implies entered.contains(x) by {
            let k = choose|k: int| 0 <= k < before.len() && before[k] == x;
            if k < p {
                assert(entered[k] == x);
            } else {
                assert(entered[k + 1] == x);
            }
        }
        assert forall|k: int| 0 <= k < entered.len() implies #[trigger] entered[k] == c || before.contains(
            entered[k],
        ) by {
            if k < p {
                assert(entered[k] == before[k]);
            } else if k > p {
                assert(entered[k] == before[k - 1]);
            }
        }
    }
    if top.len() > RANKING_LIMIT {
        top.pop();
        proof {
            let after = ranking_view(top@);
            assert(after =~= entered.take(RANKING_LIMIT as int));
            assert(after[RANKING_LIMIT - 1] == entered[RANKING_LIMIT - 1]);
            assert(entered[RANKING_LIMIT as int] == before[RANKING_LIMIT - 1]);
            assert forall|x: (Seq<char>, nat)| #[trigger] entered.contains(x) implies kept_or_outranked(
                after,
                x,
            ) by {
                let k = choose|k: int| 0 <= k < entered.len() && entered[k] == x;
                if k < RANKING_LIMIT {
                    assert(after[k] == entered[k]);
                }
            }
            assert(entered.contains(c));
            assert forall|k: int| 0 <= k < after.len() implies #[trigger] after[k] == c || before.contains(
                after[k],
            ) by {
                assert(after[k] == entered[k]);
            }
        }
    }
}

/// `ranking` holds `x`, or is full and ranks its last document before `x`.
pub open spec fn kept_or_outranked(ranking: Seq<(Seq<char>, nat)>, x: (Seq<char>, nat)) -> bool {
    ||| ranking.contains(x)
    ||| ranking.len() == RANKING_LIMIT && outranks(ranking[RANKING_LIMIT - 1], x)
}

/// The ranking of `index` for the query tokens `tokens`: the documents that
/// the query scores above zero, best first, cut off after `RANKING_LIMIT`.
pub fn rank_tokens(tokens: &Vec<String>, index: &TermFrequencyIndex) -> (ranking: Vec<ScoredDocument>)
    ensures
        is_ranking(ranking_view(ranking@), index@, token_views(tokens@), RANKING_LIMIT as nat),
        ranking_view(ranking@) == ranking_of(index@, token_views(tokens@)),
{
    let terms = distinct_tokens(tokens);
    let mut top: Vec<ScoredDocument> = Vec::new();
    let count = index.len();
    let ghost query = token_views(tokens@);
    let ghost ids = index.ids();
    let mut i: usize = 0;
    assert(ids.take(0).to_set() =~= Set::<Seq<char>>::empty());
    while i < count
        invariant
            i <= count,
            count == ids.len(),
            ids == index.ids(),
            ids.no_duplicates(),
            query == token_views(tokens@),
            token_views(terms@) == distinct(query),
            ranks_among(
                ranking_view(top@),
                index@,
                query,
                RANKING_LIMIT as nat,
                ids.take(i as int).to_set(),
            ),
        decreases count - i,
    {
        let ghost before = ranking_view(top@);
        let ghost seen = ids.take(i as int).to_set();
        let ghost next = ids.take(i + 1).to_set();
        let (id, frequency) = index.document(i);
        let score = total_count(frequency, &terms);
        proof {
            let shorter = ids.take(i as int);
            let longer = ids.take(i + 1);
            assert(next =~= seen.insert(id@)) by {
                assert forall|x: Seq<char>| next.contains(x) <==> seen.insert(id@).contains(x) by {
                    if longer.contains(x) {
                        let k = choose|k: int| 0 <= k < longer.len() && longer[k] == x;
                        if k < i {
                            assert(shorter[k] == x);
                        }
                    }
                    if shorter.contains(x) {
                        let k = choose|k: int| 0 <= k < shorter.len() && shorter[k] == x;
                        assert(longer[k] == x);
                    }
                    if x == id@ {
                        assert(longer[i as int] == x);
                    }
                }
            }
            assert(!seen.contains(id@)) by {
                if shorter.contains(id@) {
                    let k = choose|k: int| 0 <= k < shorter.len() && shorter[k] == id@;
                    assert(ids[k] == ids[i as int]);
                }
            }
        }
        if score > 0 {
            let candidate = ScoredDocument { id: id.clone(), score };
            proof {
                assert(candidate@ == scored(index@, query, id@));
                if holds(before, id@) {
                    let k = choose|k: int| 0 <= k < before.len() && (#[trigger] before[k]).0 == id@;
                    assert(seen.contains(before[k].0));
                }
            }
            place(&mut top, candidate);
            proof {
                let after = ranking_view(top@);
                let c = scored(index@, query, id@);
                assert forall|k: int| 0 <= k < after.len() implies {
                    &&& next.contains((#[trigger] after[k]).0)
                    &&& is_match(index@, query, after[k].0)
                    &&& after[k] == scored(index@, query, after[k].0)
                } by {
                    if after[k] != c {
                        assert(before.contains(after[k]));
                        let l = choose|l: int| 0 <= l < before.len() && before[l] == after[k];
                        assert(seen.contains(before[l].0));
                    }
                }
                assert forall|x: Seq<char>|
                    next.contains(x) && #[trigger] is_match(index@, query, x) implies {
                    ||| holds(after, x)
                    ||| after.len() == RANKING_LIMIT && outranks(
                        after[RANKING_LIMIT - 1],
                        scored(index@, query, x),
                    )
                } by {
                    let sx = scored(index@, query, x);
                    if x != id@ {
                        assert(seen.contains(x));
                        if holds(before, x) {
                            let l = choose|l: int| 0 <= l < before.len() && (#[trigger] before[l]).0 == x;
                            assert(before[l] == sx);
                            assert(before.contains(sx));
                        } else {
                            let last = before[RANKING_LIMIT - 1];
                            if after[RANKING_LIMIT - 1] != last {
                                lemma_outranks_transitive(after[RANKING_LIMIT - 1], last, sx);
                            }
                        }
                    }
                    if after.contains(sx) {
                        let m = choose|m: int| 0 <= m < after.len() && after[m] == sx;
                        assert(after[m].0 == x);
                    }
                }
            }
        } else {
            proof {
                assert forall|x: Seq<char>|
                    next.contains(x) && #[trigger] is_match(index@, query, x) implies seen.contains(x) by {}
            }
        }
        i += 1;
    }
    proof {
        assert(ids.take(count as int) =~= ids);
        lemma_ranking_unique(
            ranking_view(top@),
            ranking_of(index@, query),
            index@,
            query,
            RANKING_LIMIT as nat,
        );
    }
    top
}

/// The ranking of `index` for the query `query_text`: the documents that the
/// query scores above zero, best first, cut off after `RANKING_LIMIT`.
pub fn rank(query_text: &str, index: &TermFrequencyIndex) -> (ranking: Vec<ScoredDocument>)
    ensures
        is_ranking(ranking_view(ranking@), index@, tokenize(query_text@), RANKING_LIMIT as nat),
        ranking_view(ranking@) == ranking_of(index@, tokenize(query_text@)),
        ranking@.len() <= RANKING_LIMIT,
        forall|k: int|
            0 <= k < ranking@.len() ==> {
                &&& index@.contains_key((#[trigger] ranking@[k]).id@)
                &&& ranking@[k].score == score(index@[ranking@[k].id@], tokenize(query_text@))
                &&& ranking@[k].score > 0
            },
        forall|k: int, l: int|
            0 <= k < l < ranking@.len() ==> (#[trigger] ranking@[k]).score >= (#[trigger] ranking@[l]).score,
{
    let tokens = tokens_of(query_text);
    let ranking = rank_tokens(&tokens, index);
    proof {
        let view = ranking_view(ranking@);
        lemma_ranking_unique(
            view,
            ranking_of(index@, tokenize(query_text@)),
            index@,
            tokenize(query_text@),
            RANKING_LIMIT as nat,
        );
        assert forall|k: int| 0 <= k < ranking@.len() implies {
            &&& index@.contains_key((#[trigger] ranking@[k]).id@)
            &&& ranking@[k].score == score(index@[ranking@[k].id@], tokenize(query_text@))
            &&& ranking@[k].score > 0
        } by {
            assert(view[k] == ranking@[k]@);
            assert(is_match(index@, tokenize(query_text@), view[k].0));
        }
        assert forall|k: int, l: int| 0 <= k < l < ranking@.len() implies (#[trigger] ranking@[k]).score >= (
        #[trigger] ranking@[l]).score by {
            assert(outranks(view[k], view[l]));
        }
    }
    ranking
}

} // verus!
