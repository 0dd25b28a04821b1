//! The index of a corpus: for each document, its term frequency.

use vstd::prelude::*;
use vstd::hash_map::StringHashMap;
use crate::term_frequency::TermFrequency;

verus! {

/// `positions` maps the id at each position of `ids` to that position, and
/// holds nothing else.
spec fn positions_of(ids: Seq<String>, positions: Map<Seq<char>, usize>) -> bool {
    &&& forall|i: int|
        0 <= i < ids.len() ==> positions.contains_key(#[trigger] ids[i]@) && positions[ids[i]@] == i
    &&& forall|id: Seq<char>| #[trigger]
        positions.contains_key(id) ==> positions[id] < ids.len() && ids[positions[id] as int]@ == id
}

/// A term-frequency index: a mapping from the id of a document, which is the
/// path under which it was found, to the term frequency of that document.
pub struct TermFrequencyIndex {
    /// The ids of the documents, in the order in which they were inserted.
    ids: Vec<String>,
    /// The term frequency of the document at the same position of `ids`.
    frequencies: Vec<TermFrequency>,
    /// Where in `ids` each id stands.
    positions: StringHashMap<usize>,
}

impl View for TermFrequencyIndex {
    type V = Map<Seq<char>, Map<Seq<char>, nat>>;

    closed spec fn view(&self) -> Map<Seq<char>, Map<Seq<char>, nat>> {
        Map::new(
            |id: Seq<char>| self.positions@.contains_key(id),
            |id: Seq<char>| self.frequencies@[self.positions@[id] as int]@,
        )
    }
}

impl TermFrequencyIndex {
    #[verifier::type_invariant]
    spec fn well_formed(self) -> bool {
        &&& self.frequencies@.len() == self.ids@.len()
        &&& positions_of(self.ids@, self.positions@)
    }

    /// The ids of the documents, in the order in which [`Self::document`]
    /// hands them out.
    pub closed spec fn ids(&self) -> Seq<Seq<char>> {
        Seq::new(self.ids@.len(), |i: int| self.ids@[i]@)
    }

    /// The index of an empty corpus.
    pub fn new() -> (index: Self)
        ensures
            index@ == Map::<Seq<char>, Map<Seq<char>, nat>>::empty(),
    {
        let index = TermFrequencyIndex {
            ids: Vec::new(),
            frequencies: Vec::new(),
            positions: StringHashMap::new(),
        };
        assert(index@ =~= Map::<Seq<char>, Map<Seq<char>, nat>>::empty());
        index
    }

    /// Enters the document `id` with its term frequency, in place of an
    /// earlier entry for `id` if there is one.
    pub fn insert(&mut self, id: String, terms: TermFrequency)
        ensures
            final(self)@ == old(self)@.insert(id@, terms@),
    {
        proof {
            use_type_invariant(&*self);
        }
        let mut taken = TermFrequencyIndex::new();
        std::mem::swap(self, &mut taken);
        let TermFrequencyIndex { mut ids, mut frequencies, mut positions } = taken;
        let ghost old_ids = ids@;
        let ghost old_positions = positions@;
        let found: Option<usize> = match positions.get(id.as_str()) {
            Some(position) => Some(*position),
            None => None,
        };
        match found {
            Some(position) => {
                frequencies.set(position, terms);
            },
            None => {
                positions.insert(id.clone(), ids.len());
                ids.push(id);
                frequencies.push(terms);
                proof {
                    assert forall|i: int| 0 <= i < ids@.len() implies positions@.contains_key(
                        #[trigger] ids@[i]@,
                    ) && positions@[ids@[i]@] == i by {
                        if i < old_ids.len() {
                            assert(ids@[i] == old_ids[i]);
                            assert(old_positions.contains_key(old_ids[i]@));
                        }
                    }
                    assert forall|key: Seq<char>| #[trigger] positions@.contains_key(key) implies positions@[key]
                        < ids@.len() && ids@[positions@[key] as int]@ == key by {
                        if key != id@ {
                            assert(old_positions.contains_key(key));
                            assert(ids@[old_positions[key] as int] == old_ids[old_positions[key] as int]);
                        }
                    }
                }
            },
        }
        assert(positions_of(ids@, positions@));
        *self = TermFrequencyIndex { ids, frequencies, positions };
        assert(self@ =~= old(self)@.insert(id@, terms@)) by {
            assert forall|key: Seq<char>| #[trigger] self@.contains_key(key) implies self@[key] == old(
                self,
            )@.insert(id@, terms@)[key] by {
                if key != id@ {
                    assert(old_positions.contains_key(key));
                }
            }
        }
    }

    /// The term frequency of the document `id`, if the index holds it.
    pub fn get(&self, id: &str) -> (terms: Option<&TermFrequency>)
        ensures
            match terms {
                Some(terms) => self@.contains_key(id@) && terms@ == self@[id@],
                None => !self@.contains_key(id@),
            },
    {
        proof {
            use_type_invariant(self);
        }
        match self.positions.get(id) {
            Some(position) => Some(&self.frequencies[*position]),
            None => None,
        }
    }

    /// The number of documents. Each document has one position below that
    /// number.
    pub fn len(&self) -> (count: usize)
        ensures
            count == self.ids().len(),
            count == self@.dom().len(),
            self.ids().no_duplicates(),
            self.ids().to_set() == self@.dom(),
    {
        proof {
            use_type_invariant(self);
            let ids = self.ids();
            assert forall|i: int, j: int| 0 <= i < ids.len() && 0 <= j < ids.len() && i != j implies ids[i]
                != ids[j] by {
                assert(self.positions@[self.ids@[i]@] == i);
                assert(self.positions@[self.ids@[j]@] == j);
            }
            assert forall|id: Seq<char>| ids.to_set().contains(id) <==> self@.dom().contains(id) by {
                if ids.to_set().contains(id) {
                    let i = choose|i: int| 0 <= i < ids.len() && ids[i] == id;
                    assert(self.positions@.contains_key(self.ids@[i]@));
                }
                if self@.dom().contains(id) {
                    assert(ids[self.positions@[id] as int] == id);
                }
            }
            assert(ids.to_set() =~= self@.dom());
            ids.unique_seq_to_set();
        }
        self.ids.len()
    }

    /// The document at `position`: its id and its term frequency.
    pub fn document(&self, position: usize) -> (document: (&String, &TermFrequency))
        requires
            position < self.ids().len(),
        ensures
            document.0@ == self.ids()[position as int],
            self@.contains_key(document.0@),
            document.1@ == self@[document.0@],
    {
        proof {
            use_type_invariant(self);
            assert(self.positions@[self.ids@[position as int]@] == position);
        }
        (&self.ids[position], &self.frequencies[position])
    }

    /// Whether `self` holds each document of `other`; with `exact`, whether
    /// it holds it with the term frequency that it has there.
    fn covers(&self, other: &TermFrequencyIndex, exact: bool) -> (covered: bool)
        ensures
            covered == forall|id: Seq<char>| #[trigger]
                other@.contains_key(id) ==> self@.contains_key(id) && (exact ==> self@[id] == other@[id]),
    {
        let count = other.len();
        let ghost ids = other.ids();
        let mut i: usize = 0;
        while i < count
            invariant
                i <= count,
                count == ids.len(),
                ids == other.ids(),
                ids.to_set() == other@.dom(),
                forall|k: int|
                    0 <= k < i ==> self@.contains_key(#[trigger] ids[k]) && (exact ==> self@[ids[k]]
                        == other@[ids[k]]),
            decreases count - i,
        {
            let (id, terms) = other.document(i);
            let found = match self.get(id.as_str()) {
                Some(own) => !exact || own.equals(terms),
                None => false,
            };
            if !found {
                assert(other@.contains_key(ids[i as int]));
                return false;
            }
            i += 1;
        }
        proof {
            assert forall|id: Seq<char>| #[trigger] other@.contains_key(id) implies self@.contains_key(id) && (
            exact ==> self@[id] == other@[id]) by {
                assert(ids.to_set().contains(id));
                let k = choose|k: int| 0 <= k < ids.len() && ids[k] == id;
                assert(self@.contains_key(ids[k]));
            }
        }
        true
    }

    /// Whether `self` and `other` hold the same documents with the same term
    /// frequencies.
    pub fn equals(&self, other: &TermFrequencyIndex) -> (same: bool)
        ensures
            same == (self@ == other@),
    {
        let same = self.covers(other, true) && other.covers(self, false);
        proof {
            if same {
                assert(self@ =~= other@);
            }
        }
        same
    }
}

} // verus!
