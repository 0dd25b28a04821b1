//! The snapshot store: the whole index as one JSON document, a mapping from
//! the path of each document to a mapping from each of its terms to the
//! count of that term.

use vstd::prelude::*;
use vstd::string::StringExecFns;
use std::collections::BTreeMap;
use crate::index::TermFrequencyIndex;
use crate::term_frequency::{distinct_keys, entry_views, lists, TermFrequency};

verus! {

/// The error of `serde_json`.
#[verifier::external_type_specification]
#[verifier::external_body]
pub struct ExJsonError(serde_json::Error);

/// A snapshot could not be written or read.
pub struct SerializationFailure {
    /// What the JSON library says of the failure.
    pub message: String,
}

/// The mathematical value of a list of documents, each with the list of its
/// terms and their counts.
pub open spec fn snapshot_view(documents: Seq<(String, Vec<(String, u64)>)>) -> Seq<
    (Seq<char>, Seq<(Seq<char>, nat)>),
> {
    Seq::new(documents.len(), |i: int| (documents[i].0@, entry_views(documents[i].1@)))
}

/// What `serde_json::from_str` makes of `text` as a map of maps of unsigned
/// 64-bit counts, both keyed by strings: the entries of the outer map in
/// the order of their keys, each with the entries of its inner map in the
/// order of theirs; `None` where it rejects `text`.
pub uninterp spec fn json_snapshot(text: Seq<char>) -> Option<Seq<(Seq<char>, Seq<(Seq<char>, nat)>)>>;

/// The JSON text that `serde_json::to_string` gives for the map of maps that
/// holds `documents`; `None` where it fails.
pub uninterp spec fn json_text(documents: Seq<(Seq<char>, Seq<(Seq<char>, nat)>)>) -> Option<Seq<char>>;

/// No document occurs twice in `documents`, and no term twice in a document.
pub open spec fn distinct_throughout(documents: Seq<(Seq<char>, Seq<(Seq<char>, nat)>)>) -> bool {
    &&& distinct_keys(documents)
    &&& forall|i: int| 0 <= i < documents.len() ==> distinct_keys((#[trigger] documents[i]).1)
}

/// Calls `serde_json::from_str` for a `BTreeMap` from strings to `BTreeMap`s
/// from strings to `u64`, and hands the maps out as lists, in the order in
/// which the maps hold them. The outcome depends on `text` alone.
#[verifier::external_body]
fn parse_snapshot(text: &str) -> (parsed: Result<Vec<(String, Vec<(String, u64)>)>, serde_json::Error>)
    ensures
        match parsed {
            Ok(documents) => json_snapshot(text@) == Some(snapshot_view(documents@)),
            Err(_) => json_snapshot(text@) is None,
        },
{
    let documents: BTreeMap<String, BTreeMap<String, u64>> = serde_json::from_str(text)?;
    Ok(documents.into_iter().map(|(id, terms)| (id, terms.into_iter().collect())).collect())
}

/// Calls `serde_json::to_string` on the `BTreeMap` from strings to
/// `BTreeMap`s from strings to `u64` that holds `documents`. With no key
/// twice, the maps hold what the lists hold, and the outcome depends on the
/// lists alone.
#[verifier::external_body]
fn render_snapshot(documents: &Vec<(String, Vec<(String, u64)>)>) -> (text: Result<String, serde_json::Error>)
    requires
        distinct_throughout(snapshot_view(documents@)),
    ensures
        match text {
            Ok(text) => json_text(snapshot_view(documents@)) == Some(text@),
            Err(_) => json_text(snapshot_view(documents@)) is None,
        },
{
    let map: BTreeMap<&str, BTreeMap<&str, u64>> = documents.iter().map(
        |(id, terms)| (id.as_str(), terms.iter().map(|(term, count)| (term.as_str(), *count)).collect()),
    ).collect();
    serde_json::to_string(&map)
}

/// What `serde_json::Error` shows of itself through `Display`.
#[verifier::external_body]
pub(crate) fn failure_message(error: &serde_json::Error) -> String {
    error.to_string()
}

/// The term frequency that `entries` spell: each term with its count, a
/// later entry for a term in place of an earlier one; an entry with the
/// count zero says nothing.
pub open spec fn counts_of(entries: Seq<(Seq<char>, nat)>) -> Map<Seq<char>, nat>
    decreases entries.len(),
{
    if entries.len() == 0 {
        Map::empty()
    } else if entries.last().1 > 0 {
        counts_of(entries.drop_last()).insert(entries.last().0, entries.last().1)
    } else {
        counts_of(entries.drop_last())
    }
}

/// The index that `documents` spell: each document with the term frequency
/// that its entries spell, a later entry for a document in place of an
/// earlier one.
pub open spec fn index_of(documents: Seq<(Seq<char>, Seq<(Seq<char>, nat)>)>) -> Map<
    Seq<char>,
    Map<Seq<char>, nat>,
>
    decreases documents.len(),
{
    if documents.len() == 0 {
        Map::empty()
    } else {
        index_of(documents.drop_last()).insert(documents.last().0, counts_of(documents.last().1))
    }
}

/// `documents` lists `index`: each document once, with a list of its term
/// frequency that holds each term once, with its count.
pub open spec fn lists_index(
    documents: Seq<(Seq<char>, Seq<(Seq<char>, nat)>)>,
    index: Map<Seq<char>, Map<Seq<char>, nat>>,
) -> bool {
    &&& forall|i: int|
        0 <= i < documents.len() ==> index.contains_key((#[trigger] documents[i]).0) && lists(
            documents[i].1,
            index[documents[i].0],
        )
    &&& forall|id: Seq<char>| #[trigger]
        index.contains_key(id) ==> exists|i: int| 0 <= i < documents.len() && (#[trigger] documents[i]).0 == id
    &&& distinct_keys(documents)
}

/// Every count of every document of `index` is positive, as the counts of
/// a term frequency are.
pub open spec fn positive_counts(index: Map<Seq<char>, Map<Seq<char>, nat>>) -> bool {
    forall|id: Seq<char>, term: Seq<char>|
        index.contains_key(id) && #[trigger] index[id].contains_key(term) ==> index[id][term] > 0
}

/// What `counts_of` holds for one term: the term has a count exactly if an
/// entry gives it a positive one, and where no term occurs twice that count
/// is the entry's.
proof fn lemma_counts_of_term(entries: Seq<(Seq<char>, nat)>, term: Seq<char>)
    ensures
        counts_of(entries).contains_key(term) <==> exists|i: int|
            0 <= i < entries.len() && (#[trigger] entries[i]).0 == term && entries[i].1 > 0,
        distinct_keys(entries) ==> forall|i: int|
            0 <= i < entries.len() && (#[trigger] entries[i]).0 == term && entries[i].1 > 0 ==> counts_of(
                entries,
            )[term] == entries[i].1,
    decreases entries.len(),
{
    if entries.len() > 0 {
        let earlier = entries.drop_last();
        lemma_counts_of_term(earlier, term);
        if exists|i: int| 0 <= i < earlier.len() && (#[trigger] earlier[i]).0 == term && earlier[i].1 > 0 {
            let i = choose|i: int| 0 <= i < earlier.len() && (#[trigger] earlier[i]).0 == term && earlier[i].1 > 0;
            assert(entries[i] == earlier[i]);
        }
        if exists|i: int| 0 <= i < entries.len() && (#[trigger] entries[i]).0 == term && entries[i].1 > 0 {
            let i = choose|i: int| 0 <= i < entries.len() && (#[trigger] entries[i]).0 == term && entries[i].1 > 0;
            if i < entries.len() - 1 {
                assert(earlier[i] == entries[i]);
            }
        }
        if distinct_keys(entries) {
            assert forall|i: int, j: int| 0 <= i < j < earlier.len() implies (#[trigger] earlier[i]).0 != (
            #[trigger] earlier[j]).0 by {
                assert(earlier[i] == entries[i] && earlier[j] == entries[j]);
            }
            assert forall|i: int|
                0 <= i < entries.len() && (#[trigger] entries[i]).0 == term && entries[i].1 > 0 implies counts_of(
                entries,
            )[term] == entries[i].1 by {
                if i < entries.len() - 1 {
                    assert(earlier[i] == entries[i]);
                    assert(entries[i].0 != entries[entries.len() - 1].0);
                }
            }
        }
    }
}

/// A list of a term frequency spells that term frequency, in whatever order
/// it holds the terms.
pub proof fn lemma_listing_spells_counts(entries: Seq<(Seq<char>, nat)>, counts: Map<Seq<char>, nat>)
    requires
        lists(entries, counts),
        forall|term: Seq<char>| #[trigger] counts.contains_key(term) ==> counts[term] > 0,
    ensures
        counts_of(entries) == counts,
{
    assert forall|term: Seq<char>| #[trigger]
        counts_of(entries).contains_key(term) == counts.contains_key(term) && (counts.contains_key(term)
            ==> counts_of(entries)[term] == counts[term]) by {
        lemma_counts_of_term(entries, term);
        if counts.contains_key(term) {
            let i = choose|i: int| 0 <= i < entries.len() && (#[trigger] entries[i]).0 == term;
            assert(entries[i].1 == counts[term]);
        }
        if counts_of(entries).contains_key(term) {
            let i = choose|i: int| 0 <= i < entries.len() && (#[trigger] entries[i]).0 == term && entries[i].1 > 0;
            assert(counts.contains_key(entries[i].0));
        }
    }
    assert(counts_of(entries) =~= counts);
}

/// What `index_of` holds for one document: the document is there exactly if
/// an entry names it, and where no document occurs twice its term frequency
/// is what that entry spells.
proof fn lemma_index_of_document(documents: Seq<(Seq<char>, Seq<(Seq<char>, nat)>)>, id: Seq<char>)
    ensures
        index_of(documents).contains_key(id) <==> exists|i: int|
            0 <= i < documents.len() && (#[trigger] documents[i]).0 == id,
        distinct_keys(documents) ==> forall|i: int|
            0 <= i < documents.len() && (#[trigger] documents[i]).0 == id ==> index_of(documents)[id]
                == counts_of(documents[i].1),
    decreases documents.len(),
{
    if documents.len() > 0 {
        let earlier = documents.drop_last();
        lemma_index_of_document(earlier, id);
        if exists|i: int| 0 <= i < earlier.len() && (#[trigger] earlier[i]).0 == id {
            let i = choose|i: int| 0 <= i < earlier.len() && (#[trigger] earlier[i]).0 == id;
            assert(documents[i] == earlier[i]);
        }
        if exists|i: int| 0 <= i < documents.len() && (#[trigger] documents[i]).0 == id {
            let i = choose|i: int| 0 <= i < documents.len() && (#[trigger] documents[i]).0 == id;
            if i < documents.len() - 1 {
                assert(earlier[i] == documents[i]);
            }
        }
        if distinct_keys(documents) {
            assert forall|i: int, j: int| 0 <= i < j < earlier.len() implies (#[trigger] earlier[i]).0 != (
            #[trigger] earlier[j]).0 by {
                assert(earlier[i] == documents[i] && earlier[j] == documents[j]);
            }
            assert forall|i: int| 0 <= i < documents.len() && (#[trigger] documents[i]).0 == id implies index_of(
                documents,
            )[id] == counts_of(documents[i].1) by {
                if i < documents.len() - 1 {
                    assert(earlier[i] == documents[i]);
                    assert(documents[i].0 != documents[documents.len() - 1].0);
                }
            }
        }
    }
}

/// A list of an index spells that index, in whatever order it holds the
/// documents and their terms: an index that is listed and built again from
/// the list is the index that it was.
pub proof fn lemma_listing_spells_index(
    documents: Seq<(Seq<char>, Seq<(Seq<char>, nat)>)>,
    index: Map<Seq<char>, Map<Seq<char>, nat>>,
)
    requires
        lists_index(documents, index),
        positive_counts(index),
    ensures
        index_of(documents) == index,
{
    assert forall|id: Seq<char>| #[trigger]
        index_of(documents).contains_key(id) == index.contains_key(id) && (index.contains_key(id) ==> index_of(
            documents,
        )[id] == index[id]) by {
        lemma_index_of_document(documents, id);
        if index.contains_key(id) {
            let i = choose|i: int| 0 <= i < documents.len() && (#[trigger] documents[i]).0 == id;
            assert forall|term: Seq<char>| #[trigger] index[id].contains_key(term) implies index[id][term]
                > 0 by {}
            lemma_listing_spells_counts(documents[i].1, index[id]);
        }
        if index_of(documents).contains_key(id) {
            let i = choose|i: int| 0 <= i < documents.len() && (#[trigger] documents[i]).0 == id;
            assert(index.contains_key(documents[i].0));
        }
    }
    assert(index_of(documents) =~= index);
}

/// The term frequency that the terms and counts of `entries` spell.
pub fn term_frequency_from(entries: &Vec<(String, u64)>) -> (frequency: TermFrequency)
    ensures
        frequency@ == counts_of(entry_views(entries@)),
{
    let mut frequency = TermFrequency::new();
    let ghost all = entry_views(entries@);
    let mut i: usize = 0;
    assert(all.take(0) =~= Seq::<(Seq<char>, nat)>::empty());
    while i < entries.len()
        invariant
            i <= entries@.len(),
            all == entry_views(entries@),
            frequency@ == counts_of(all.take(i as int)),
        decreases entries@.len() - i,
    {
        proof {
            assert(all.take(i + 1).drop_last() =~= all.take(i as int));
            assert(all.take(i + 1).last() == all[i as int]);
        }
        let count = entries[i].1;
        if count > 0 {
            frequency.set(entries[i].0.as_str(), count);
        }
        i += 1;
    }
    assert(all.take(entries@.len() as int) =~= all);
    frequency
}

/// The index that `documents` spell.
pub fn index_from(documents: &Vec<(String, Vec<(String, u64)>)>) -> (index: TermFrequencyIndex)
    ensures
        index@ == index_of(snapshot_view(documents@)),
{
    let mut index = TermFrequencyIndex::new();
    let ghost all = snapshot_view(documents@);
    let mut i: usize = 0;
    assert(all.take(0) =~= Seq::<(Seq<char>, Seq<(Seq<char>, nat)>)>::empty());
    while i < documents.len()
        invariant
            i <= documents@.len(),
            all == snapshot_view(documents@),
            index@ == index_of(all.take(i as int)),
        decreases documents@.len() - i,
    {
        proof {
            assert(all.take(i + 1).drop_last() =~= all.take(i as int));
            assert(all.take(i + 1).last() == all[i as int]);
        }
        let terms = term_frequency_from(&documents[i].1);
        index.insert(documents[i].0.clone(), terms);
        i += 1;
    }
    assert(all.take(documents@.len() as int) =~= all);
    index
}

/// The documents of `index`, each with its terms and their counts.
pub fn documents_of(index: &TermFrequencyIndex) -> (documents: Vec<(String, Vec<(String, u64)>)>)
    ensures
        lists_index(snapshot_view(documents@), index@),
        distinct_throughout(snapshot_view(documents@)),
        index_of(snapshot_view(documents@)) == index@,
{
    let mut documents: Vec<(String, Vec<(String, u64)>)> = Vec::new();
    let count = index.len();
    let ghost ids = index.ids();
    let mut i: usize = 0;
    while i < count
        invariant
            i <= count,
            count == ids.len(),
            ids == index.ids(),
            ids.no_duplicates(),
            ids.to_set() == index@.dom(),
            documents@.len() == i,
            forall|k: int| 0 <= k < i ==> (#[trigger] snapshot_view(documents@)[k]).0 == ids[k],
            forall|k: int|
                0 <= k < i ==> index@.contains_key(ids[k]) && lists(
                    (#[trigger] snapshot_view(documents@)[k]).1,
                    index@[ids[k]],
                ),
            forall|k: int| 0 <= k < i ==> all_positive((#[trigger] snapshot_view(documents@)[k]).1),
        decreases count - i,
    {
        let ghost before = snapshot_view(documents@);
        let (id, terms) = index.document(i);
        let entries = terms.entries();
        documents.push((id.clone(), entries));
        proof {
            let after = snapshot_view(documents@);
            assert forall|k: int| 0 <= k < i implies after[k] == before[k] by {}
            assert(all_positive(after[i as int].1)) by {
                assert forall|j: int| 0 <= j < after[i as int].1.len() implies (#[trigger] after[i as int].1[j]).1
                    > 0 by {
                    assert(documents@[i as int].1@[j].1 > 0);
                }
            }
        }
        i += 1;
    }
    proof {
        let listed = snapshot_view(documents@);
        assert forall|id: Seq<char>| #[trigger] index@.contains_key(id) implies exists|k: int|
            0 <= k < listed.len() && (#[trigger] listed[k]).0 == id by {
            assert(ids.to_set().contains(id));
            let k = choose|k: int| 0 <= k < ids.len() && ids[k] == id;
            assert(listed[k].0 == id);
        }
        assert forall|a: int, b: int| 0 <= a < b < listed.len() implies (#[trigger] listed[a]).0 != (
        #[trigger] listed[b]).0 by {
            assert(listed[a].0 == ids[a] && listed[b].0 == ids[b]);
        }
        assert forall|k: int| 0 <= k < listed.len() implies distinct_keys((#[trigger] listed[k]).1) by {
            assert(lists(listed[k].1, index@[ids[k]]));
        }
        assert forall|id: Seq<char>, term: Seq<char>|
            index@.contains_key(id) && #[trigger] index@[id].contains_key(term) implies index@[id][term] > 0 by {
            assert(ids.to_set().contains(id));
            let k = choose|k: int| 0 <= k < ids.len() && ids[k] == id;
            let entries = listed[k].1;
            assert(lists(entries, index@[id]));
            assert(all_positive(entries));
            let j = choose|j: int| 0 <= j < entries.len() && (#[trigger] entries[j]).0 == term;
            assert(entries[j].1 > 0);
        }
        lemma_listing_spells_index(listed, index@);
    }
    documents
}

/// Every count of `entries` is positive.
pub open spec fn all_positive(entries: Seq<(Seq<char>, nat)>) -> bool {
    forall|j: int| 0 <= j < entries.len() ==> (#[trigger] entries[j]).1 > 0
}

/// The index that the JSON text `text` holds, or `None` where `text` is no
/// snapshot.
pub open spec fn snapshot_index(text: Seq<char>) -> Option<Map<Seq<char>, Map<Seq<char>, nat>>> {
    match json_snapshot(text) {
        Some(documents) => Some(index_of(documents)),
        None => None,
    }
}

/// Reads an index from the JSON text of a snapshot.
pub fn read_snapshot(text: &str) -> (outcome: Result<TermFrequencyIndex, SerializationFailure>)
    ensures
        match snapshot_index(text@) {
            Some(index) => outcome is Ok && outcome->Ok_0@ == index,
            None => outcome is Err,
        },
{
    match parse_snapshot(text) {
        Ok(documents) => Ok(index_from(&documents)),
        Err(error) => Err(SerializationFailure { message: failure_message(&error) }),
    }
}

/// Writes `index` as the JSON text of a snapshot: the text that the JSON
/// library gives for a list of `index`. The text is read back before it is
/// handed out, and handed out only where it holds `index`: what
/// `write_snapshot` gives, `read_snapshot` reads as the index that was
/// written.
pub fn write_snapshot(index: &TermFrequencyIndex) -> (outcome: Result<String, SerializationFailure>)
    ensures
        outcome is Ok ==> snapshot_index(outcome->Ok_0@) == Some(index@),
        exists|documents: Seq<(Seq<char>, Seq<(Seq<char>, nat)>)>|
            lists_index(documents, index@) && index_of(documents) == index@ && match #[trigger] json_text(
                documents,
            ) {
                Some(text) => if snapshot_index(text) == Some(index@) {
                    outcome is Ok && outcome->Ok_0@ == text
                } else {
                    outcome is Err
                },
                None => outcome is Err,
            },
{
    let documents = documents_of(index);
    let text = match render_snapshot(&documents) {
        Ok(text) => text,
        Err(error) => {
            return Err(SerializationFailure { message: failure_message(&error) });
        },
    };
    match read_snapshot(text.as_str()) {
        Ok(read) => {
            if read.equals(index) {
                Ok(text)
            } else {
                Err(SerializationFailure { message: String::from_str("the snapshot does not hold the index") })
            }
        },
        Err(failure) => Err(failure),
    }
}

} // verus!
