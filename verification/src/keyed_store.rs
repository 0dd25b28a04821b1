//! The keyed store: one record per document, one counter field per term.
//!
//! The store itself is outside this library. What stands here is what to ask
//! of it, step by step, given what it answered: the record of a document is
//! touched first, by writing the marker field, and then each token is counted
//! by reading its field and writing the count back, raised by one. Reading
//! and writing are two requests: a second writer between them loses an
//! update.

use vstd::prelude::*;
use crate::lexical_analysis::{lemma_tokens_are_tokens, token_views, tokenize};
use crate::term_frequency::{distinct_keys, entry_views, lemma_occurrences_bound, occurrences, term_counts, TermFrequency};

verus! {

/// The name of the field that marks a record as present: the empty string,
/// which no token is.
pub open spec fn marker() -> Seq<char> {
    Seq::empty()
}

/// The name of the field that marks a record as present.
pub fn marker_field() -> (field: String)
    ensures
        field@ == marker(),
{
    String::new()
}

/// No token is the marker.
pub proof fn lemma_marker_is_no_token(text: Seq<char>, i: int)
    requires
        0 <= i < tokenize(text).len(),
    ensures
        tokenize(text)[i] != marker(),
{
    lemma_tokens_are_tokens(text);
}

/// What the store answered to the last request.
#[derive(Clone, Copy, Debug, PartialEq, Eq, Structural)]
pub enum StoreEvent {
    /// The field was written.
    Written,
    /// The field was read and holds this count.
    Found(u64),
    /// The field was read and is not there.
    Absent,
}

/// What to ask of the store next, on the record of the document.
pub enum StoreAction {
    /// Write `value` into `field`.
    Write { field: String, value: u64 },
    /// Read `field`.
    Read { field: String },
    /// Nothing: the document is done.
    Stop,
}

/// The mathematical value of a request.
pub enum Request {
    Write { field: Seq<char>, value: nat },
    Read { field: Seq<char> },
    Stop,
}

impl View for StoreAction {
    type V = Request;

    open spec fn view(&self) -> Request {
        match self {
            StoreAction::Write { field, value } => Request::Write { field: field@, value: *value as nat },
            StoreAction::Read { field } => Request::Read { field: field@ },
            StoreAction::Stop => Request::Stop,
        }
    }
}

/// Why a document could not be written on.
#[derive(Clone, Copy, Debug, PartialEq, Eq, Structural)]
pub enum StoreFault {
    /// The answer does not fit the request that was out.
    UnexpectedReply,
    /// The count that was found cannot be raised.
    CounterOverflow,
}

/// How far the writing of a document has come.
#[derive(Clone, Copy, Debug, PartialEq, Eq, Structural)]
pub enum Progress {
    /// A write is out; the token at `next` is counted after it.
    Writing { next: usize },
    /// The read of the field of the token at `at` is out.
    Reading { at: usize },
    /// All tokens are counted.
    Finished,
}

/// What follows on `event`, for a document with the tokens `tokens` whose
/// writing has come to `progress`: how far the writing has come then, and
/// what to ask of the store.
pub open spec fn next_step(tokens: Seq<Seq<char>>, progress: Progress, event: StoreEvent) -> Result<
    (Progress, Request),
    StoreFault,
> {
    match progress {
        Progress::Writing { next } => match event {
            StoreEvent::Written => if next < tokens.len() {
                Ok((Progress::Reading { at: next }, Request::Read { field: tokens[next as int] }))
            } else {
                Ok((Progress::Finished, Request::Stop))
            },
            _ => Err(StoreFault::UnexpectedReply),
        },
        Progress::Reading { at } => match event {
            StoreEvent::Found(count) => if count < u64::MAX {
                Ok(
                    (
                        Progress::Writing { next: (at + 1) as usize },
                        Request::Write { field: tokens[at as int], value: (count + 1) as nat },
                    ),
                )
            } else {
                Err(StoreFault::CounterOverflow)
            },
            StoreEvent::Absent => Ok(
                (
                    Progress::Writing { next: (at + 1) as usize },
                    Request::Write { field: tokens[at as int], value: 1 },
                ),
            ),
            StoreEvent::Written => Err(StoreFault::UnexpectedReply),
        },
        Progress::Finished => Err(StoreFault::UnexpectedReply),
    }
}

/// What the record of a document holds and what the store answers after it
/// has served `request` on a record that held `record`.
pub open spec fn served(record: Map<Seq<char>, u64>, request: Request) -> (Map<Seq<char>, u64>, StoreEvent) {
    match request {
        Request::Write { field, value } => (record.insert(field, value as u64), StoreEvent::Written),
        Request::Read { field } => (
            record,
            if record.contains_key(field) {
                StoreEvent::Found(record[field])
            } else {
                StoreEvent::Absent
            },
        ),
        Request::Stop => (record, StoreEvent::Written),
    }
}

/// What the record of a document holds after the store has served `request`
/// and up to `steps` requests that follow it, each the one that `next_step`
/// gives on the answer to the one before; and how far the writing has come
/// then.
pub open spec fn run(
    tokens: Seq<Seq<char>>,
    progress: Progress,
    request: Request,
    record: Map<Seq<char>, u64>,
    steps: nat,
) -> (Progress, Map<Seq<char>, u64>)
    decreases steps,
{
    if request is Stop {
        (progress, record)
    } else {
        let (after, event) = served(record, request);
        if steps == 0 {
            (progress, after)
        } else {
            match next_step(tokens, progress, event) {
                Ok((next, then)) => run(tokens, next, then, after, (steps - 1) as nat),
                Err(_) => (progress, after),
            }
        }
    }
}

/// The record of a document after it was touched and the first `count` of
/// `tokens` were counted on it, where it held `record` before.
pub open spec fn counted(tokens: Seq<Seq<char>>, count: nat, record: Map<Seq<char>, u64>) -> Map<Seq<char>, u64>
    decreases count,
{
    if count == 0 || count > tokens.len() {
        record.insert(marker(), 0)
    } else {
        let before = counted(tokens, (count - 1) as nat, record);
        let token = tokens[count - 1];
        before.insert(
            token,
            if before.contains_key(token) {
                (before[token] + 1) as u64
            } else {
                1
            },
        )
    }
}

/// On a record that was not there, the count of a term after the first
/// `count` tokens is the number of its occurrences among them, and the
/// marker holds zero.
pub proof fn lemma_counted_occurrences(tokens: Seq<Seq<char>>, count: nat, term: Seq<char>)
    requires
        count <= tokens.len() < u64::MAX,
        forall|i: int| 0 <= i < tokens.len() ==> tokens[i] != marker(),
    ensures
        counted(tokens, count, Map::empty()).contains_key(marker()),
        counted(tokens, count, Map::empty())[marker()] == 0,
        term != marker() ==> (counted(tokens, count, Map::empty()).contains_key(term) <==> occurrences(
            tokens.take(count as int),
            term,
        ) > 0),
        term != marker() && counted(tokens, count, Map::empty()).contains_key(term) ==> counted(
            tokens,
            count,
            Map::empty(),
        )[term] == occurrences(tokens.take(count as int), term),
    decreases count,
{
    if count > 0 {
        let fewer = (count - 1) as nat;
        lemma_counted_occurrences(tokens, fewer, term);
        lemma_counted_occurrences(tokens, fewer, tokens[count - 1]);
        lemma_occurrences_bound(tokens.take(fewer as int), tokens[count - 1]);
        assert(tokens.take(count as int).drop_last() =~= tokens.take(fewer as int));
        assert(tokens.take(count as int).last() == tokens[count - 1]);
    } else {
        assert(tokens.take(0) =~= Seq::<Seq<char>>::empty());
    }
}

/// From the point where the first `done` tokens are counted and the write
/// for the last of them, or for the marker, is out, the writing runs to its
/// end, and the record then holds what `counted` says.
proof fn lemma_run_rest(
    tokens: Seq<Seq<char>>,
    done: nat,
    request: Request,
    record: Map<Seq<char>, u64>,
    start: Map<Seq<char>, u64>,
    steps: nat,
)
    requires
        done <= tokens.len() < u64::MAX,
        tokens.len() <= usize::MAX,
        request is Write,
        served(record, request).0 == counted(tokens, done, start),
        steps >= 2 * (tokens.len() - done) + 1,
        forall|term: Seq<char>, n: nat|
            n <= tokens.len() && #[trigger] counted(tokens, n, start).contains_key(term) ==> counted(
                tokens,
                n,
                start,
            )[term] < u64::MAX,
    ensures
        run(tokens, Progress::Writing { next: done as usize }, request, record, steps) == (
            Progress::Finished,
            counted(tokens, tokens.len(), start),
        ),
    decreases tokens.len() - done,
{
    let held = counted(tokens, done, start);
    if done < tokens.len() {
        let token = tokens[done as int];
        let read = Request::Read { field: token };
        let event = served(held, read).1;
        let write = Request::Write {
            field: token,
            value: if held.contains_key(token) {
                (held[token] + 1) as nat
            } else {
                1
            },
        };
        assert(next_step(tokens, Progress::Writing { next: done as usize }, StoreEvent::Written) == Ok::<
            (Progress, Request),
            StoreFault,
        >((Progress::Reading { at: done as usize }, read)));
        assert(held.contains_key(token) ==> held[token] < u64::MAX);
        assert(next_step(tokens, Progress::Reading { at: done as usize }, event) == Ok::<
            (Progress, Request),
            StoreFault,
        >((Progress::Writing { next: (done + 1) as usize }, write)));
        assert(served(held, write).0 == counted(tokens, done + 1, start));
        lemma_run_rest(tokens, done + 1, write, held, start, (steps - 2) as nat);
        assert(run(tokens, Progress::Writing { next: done as usize }, request, record, steps) == run(
            tokens,
            Progress::Reading { at: done as usize },
            read,
            held,
            (steps - 1) as nat,
        ));
        assert(run(tokens, Progress::Reading { at: done as usize }, read, held, (steps - 1) as nat) == run(
            tokens,
            Progress::Writing { next: (done + 1) as usize },
            write,
            held,
            (steps - 2) as nat,
        ));
    } else {
        assert(next_step(tokens, Progress::Writing { next: done as usize }, StoreEvent::Written) == Ok::<
            (Progress, Request),
            StoreFault,
        >((Progress::Finished, Request::Stop)));
        assert(run(tokens, Progress::Writing { next: done as usize }, request, record, steps) == run(
            tokens,
            Progress::Finished,
            Request::Stop,
            held,
            (steps - 1) as nat,
        ));
    }
}

/// The term frequency that a record with the fields `record` holds: its
/// fields but the marker, with the counts that are not zero.
pub open spec fn record_frequency(record: Map<Seq<char>, u64>) -> Map<Seq<char>, nat> {
    Map::new(
        |term: Seq<char>| term != marker() && record.contains_key(term) && record[term] > 0,
        |term: Seq<char>| record[term] as nat,
    )
}

/// A document that is written into a store that does not hold it, request
/// by request as the writer asks, ends up there with the marker and with
/// the term frequency of its tokens: the keyed store comes to hold what
/// counting the tokens in memory gives.
pub proof fn lemma_written_record(tokens: Seq<Seq<char>>, steps: nat)
    requires
        tokens.len() <= usize::MAX,
        tokens.len() < u64::MAX,
        forall|i: int| 0 <= i < tokens.len() ==> tokens[i] != marker(),
        steps >= 2 * tokens.len() + 1,
    ensures
        ({
            let (progress, record) = run(
                tokens,
                Progress::Writing { next: 0 },
                Request::Write { field: marker(), value: 0 },
                Map::empty(),
                steps,
            );
            &&& progress == Progress::Finished
            &&& record.contains_key(marker())
            &&& record[marker()] == 0
            &&& record_frequency(record) == term_counts(tokens)
        }),
{
    let start = Map::<Seq<char>, u64>::empty();
    let first = Request::Write { field: marker(), value: 0 };
    assert forall|term: Seq<char>, n: nat|
        n <= tokens.len() && #[trigger] counted(tokens, n, start).contains_key(term) implies counted(
        tokens,
        n,
        start,
    )[term] < u64::MAX by {
        lemma_counted_occurrences(tokens, n, term);
        lemma_occurrences_bound(tokens.take(n as int), term);
    }
    lemma_run_rest(tokens, 0, first, start, start, steps);
    let record = counted(tokens, tokens.len(), start);
    assert(tokens.take(tokens.len() as int) =~= tokens);
    lemma_counted_occurrences(tokens, tokens.len(), marker());
    let frequency = record_frequency(record);
    let counts = term_counts(tokens);
    assert forall|term: Seq<char>| #[trigger] frequency.contains_key(term) == counts.contains_key(term) by {
        lemma_counted_occurrences(tokens, tokens.len(), term);
        if term == marker() {
            lemma_no_occurrence(tokens, term);
        }
    }
    assert forall|term: Seq<char>| #[trigger] frequency.contains_key(term) implies frequency[term]
        == counts[term] by {
        lemma_counted_occurrences(tokens, tokens.len(), term);
    }
    assert(frequency.dom() =~= counts.dom());
    assert(frequency =~= counts);
}

/// A term that is none of the tokens does not occur among them.
proof fn lemma_no_occurrence(tokens: Seq<Seq<char>>, term: Seq<char>)
    requires
        forall|i: int| 0 <= i < tokens.len() ==> tokens[i] != term,
    ensures
        occurrences(tokens, term) == 0,
    decreases tokens.len(),
{
    if tokens.len() > 0 {
        assert forall|i: int| 0 <= i < tokens.drop_last().len() implies tokens.drop_last()[i] != term by {
            assert(tokens.drop_last()[i] == tokens[i]);
        }
        lemma_no_occurrence(tokens.drop_last(), term);
    }
}

/// The writing of one document into the keyed store.
pub struct DocumentWriter {
    id: String,
    tokens: Vec<String>,
    progress: Progress,
}

impl DocumentWriter {
    #[verifier::type_invariant]
    spec fn well_formed(self) -> bool {
        match self.progress {
            Progress::Writing { next } => next <= self.tokens@.len(),
            Progress::Reading { at } => at < self.tokens@.len(),
            Progress::Finished => true,
        }
    }

    /// The id of the document, which names its record.
    pub closed spec fn id(&self) -> Seq<char> {
        self.id@
    }

    /// The tokens of the document.
    pub closed spec fn tokens(&self) -> Seq<Seq<char>> {
        token_views(self.tokens@)
    }

    /// How far the writing has come.
    pub closed spec fn progress(&self) -> Progress {
        self.progress
    }

    /// Begins to write the document `id` with the tokens `tokens`: the first
    /// request touches the record, by writing zero into the marker field.
    pub fn new(id: String, tokens: Vec<String>) -> (begun: (DocumentWriter, StoreAction))
        ensures
            begun.0.id() == id@,
            begun.0.tokens() == token_views(tokens@),
            begun.0.progress() == (Progress::Writing { next: 0 }),
            begun.1@ == (Request::Write { field: marker(), value: 0 }),
    {
        let writer = DocumentWriter { id, tokens, progress: Progress::Writing { next: 0 } };
        (writer, StoreAction::Write { field: marker_field(), value: 0 })
    }

    /// The name of the record that the requests are for.
    pub fn record(&self) -> (name: &str)
        ensures
            name@ == self.id(),
    {
        self.id.as_str()
    }

    /// Takes the answer of the store to the request that is out and gives
    /// the next request. An answer that does not fit, or a count that cannot
    /// be raised, is an error and leaves the writing where it was.
    pub fn step(&mut self, event: StoreEvent) -> (action: Result<StoreAction, StoreFault>)
        ensures
            final(self).id() == old(self).id(),
            final(self).tokens() == old(self).tokens(),
            match next_step(old(self).tokens(), old(self).progress(), event) {
                Ok((progress, request)) => action is Ok && action->Ok_0@ == request && final(self).progress()
                    == progress,
                Err(fault) => action == Err::<StoreAction, StoreFault>(fault) && final(self).progress() == old(
                    self,
                ).progress(),
            },
    {
        proof {
            use_type_invariant(&*self);
        }
        match self.progress {
            Progress::Writing { next } => match event {
                StoreEvent::Written => {
                    if next < self.tokens.len() {
                        let field = self.tokens[next].clone();
                        self.progress = Progress::Reading { at: next };
                        Ok(StoreAction::Read { field })
                    } else {
                        self.progress = Progress::Finished;
                        Ok(StoreAction::Stop)
                    }
                },
                _ => Err(StoreFault::UnexpectedReply),
            },
            Progress::Reading { at } => {
                let value: u64 = match event {
                    StoreEvent::Found(count) => {
                        if count < u64::MAX {
                            count + 1
                        } else {
                            return Err(StoreFault::CounterOverflow);
                        }
                    },
                    StoreEvent::Absent => 1,
                    StoreEvent::Written => {
                        return Err(StoreFault::UnexpectedReply);
                    },
                };
                proof {
                    vstd::std_specs::vec::axiom_spec_len(&self.tokens);
                }
                let field = self.tokens[at].clone();
                self.progress = Progress::Writing { next: at + 1 };
                Ok(StoreAction::Write { field, value })
            },
            Progress::Finished => Err(StoreFault::UnexpectedReply),
        }
    }
}

/// The term frequency that the record with the fields `fields` holds: each
/// field but the marker is a term with its count, a later field for a term
/// in place of an earlier one; a field with the count zero says nothing.
pub open spec fn record_counts(fields: Seq<(Seq<char>, nat)>) -> Map<Seq<char>, nat>
    decreases fields.len(),
{
    if fields.len() == 0 {
        Map::empty()
    } else if fields.last().0 != marker() && fields.last().1 > 0 {
        record_counts(fields.drop_last()).insert(fields.last().0, fields.last().1)
    } else {
        record_counts(fields.drop_last())
    }
}

/// Whether the record with the fields `fields` is there: whether it holds
/// the marker.
pub open spec fn is_present(fields: Seq<(Seq<char>, nat)>) -> bool {
    exists|i: int| 0 <= i < fields.len() && (#[trigger] fields[i]).0 == marker()
}

/// Whether the record with the fields `fields` is there.
pub fn record_exists(fields: &Vec<(String, u64)>) -> (present: bool)
    ensures
        present == is_present(entry_views(fields@)),
{
    let mut i: usize = 0;
    while i < fields.len()
        invariant
            i <= fields@.len(),
            forall|k: int| 0 <= k < i ==> (#[trigger] entry_views(fields@)[k]).0 != marker(),
        decreases fields@.len() - i,
    {
        if fields[i].0.as_str().is_empty() {
            assert(entry_views(fields@)[i as int].0 == marker());
            return true;
        }
        i += 1;
    }
    false
}

/// The term frequency that the record with the fields `fields` holds.
pub fn record_terms(fields: &Vec<(String, u64)>) -> (frequency: TermFrequency)
    ensures
        frequency@ == record_counts(entry_views(fields@)),
{
    let mut frequency = TermFrequency::new();
    let ghost all = entry_views(fields@);
    let mut i: usize = 0;
    assert(all.take(0) =~= Seq::<(Seq<char>, nat)>::empty());
    while i < fields.len()
        invariant
            i <= fields@.len(),
            all == entry_views(fields@),
            frequency@ == record_counts(all.take(i as int)),
        decreases fields@.len() - i,
    {
        proof {
            assert(all.take(i + 1).drop_last() =~= all.take(i as int));
            assert(all.take(i + 1).last() == all[i as int]);
            assert(all[i as int].0.len() == 0 <==> all[i as int].0 =~= marker());
        }
        let count = fields[i].1;
        if count > 0 && !fields[i].0.as_str().is_empty() {
            frequency.set(fields[i].0.as_str(), count);
        }
        i += 1;
    }
    assert(all.take(fields@.len() as int) =~= all);
    frequency
}

/// `fields` lists `record`: each field once, with its value, and nothing
/// else.
pub open spec fn lists_record(fields: Seq<(Seq<char>, nat)>, record: Map<Seq<char>, u64>) -> bool {
    &&& forall|i: int|
        0 <= i < fields.len() ==> record.contains_key((#[trigger] fields[i]).0) && record[fields[i].0]
            == fields[i].1
    &&& forall|field: Seq<char>| #[trigger]
        record.contains_key(field) ==> exists|i: int| 0 <= i < fields.len() && (#[trigger] fields[i]).0 == field
    &&& distinct_keys(fields)
}

/// What `record_counts` holds for one term: the term has a count exactly if
/// it is not the marker and a field gives it a positive count, and where
/// no field occurs twice that count is the field's.
proof fn lemma_record_counts_term(fields: Seq<(Seq<char>, nat)>, term: Seq<char>)
    ensures
        record_counts(fields).contains_key(term) <==> term != marker() && exists|i: int|
            0 <= i < fields.len() && (#[trigger] fields[i]).0 == term && fields[i].1 > 0,
        distinct_keys(fields) ==> forall|i: int|
            0 <= i < fields.len() && (#[trigger] fields[i]).0 == term && fields[i].1 > 0 && term != marker()
                ==> record_counts(fields)[term] == fields[i].1,
    decreases fields.len(),
{
    if fields.len() > 0 {
        let earlier = fields.drop_last();
        lemma_record_counts_term(earlier, term);
        if exists|i: int| 0 <= i < earlier.len() && (#[trigger] earlier[i]).0 == term && earlier[i].1 > 0 {
            let i = choose|i: int| 0 <= i < earlier.len() && (#[trigger] earlier[i]).0 == term && earlier[i].1 > 0;
            assert(fields[i] == earlier[i]);
        }
        if exists|i: int| 0 <= i < fields.len() && (#[trigger] fields[i]).0 == term && fields[i].1 > 0 {
            let i = choose|i: int| 0 <= i < fields.len() && (#[trigger] fields[i]).0 == term && fields[i].1 > 0;
            if i < fields.len() - 1 {
                assert(earlier[i] == fields[i]);
            }
        }
        if distinct_keys(fields) {
            assert forall|i: int, j: int| 0 <= i < j < earlier.len() implies (#[trigger] earlier[i]).0 != (
            #[trigger] earlier[j]).0 by {
                assert(earlier[i] == fields[i] && earlier[j] == fields[j]);
            }
            assert forall|i: int|
                0 <= i < fields.len() && (#[trigger] fields[i]).0 == term && fields[i].1 > 0 && term
                    != marker() implies record_counts(fields)[term] == fields[i].1 by {
                if i < fields.len() - 1 {
                    assert(earlier[i] == fields[i]);
                    assert(fields[i].0 != fields[fields.len() - 1].0);
                }
            }
        }
    }
}

/// A list of the fields of a record spells the term frequency that the
/// record holds, in whatever order it holds the fields.
pub proof fn lemma_listing_spells_record(fields: Seq<(Seq<char>, nat)>, record: Map<Seq<char>, u64>)
    requires
        lists_record(fields, record),
    ensures
        record_counts(fields) == record_frequency(record),
{
    let counts = record_counts(fields);
    let frequency = record_frequency(record);
    assert forall|term: Seq<char>| #[trigger] counts.contains_key(term) == frequency.contains_key(term) by {
        lemma_record_counts_term(fields, term);
        if frequency.contains_key(term) {
            let i = choose|i: int| 0 <= i < fields.len() && (#[trigger] fields[i]).0 == term;
            assert(fields[i].1 == record[term]);
        }
        if counts.contains_key(term) {
            let i = choose|i: int| 0 <= i < fields.len() && (#[trigger] fields[i]).0 == term && fields[i].1 > 0;
            assert(record.contains_key(fields[i].0));
        }
    }
    assert forall|term: Seq<char>| #[trigger] counts.contains_key(term) implies counts[term]
        == frequency[term] by {
        lemma_record_counts_term(fields, term);
        let i = choose|i: int| 0 <= i < fields.len() && (#[trigger] fields[i]).0 == term && fields[i].1 > 0;
        assert(record.contains_key(fields[i].0));
    }
    assert(counts.dom() =~= frequency.dom());
    assert(counts =~= frequency);
}

} // verus!
