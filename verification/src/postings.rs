//! What an index answers, said over the text it was made of.
//!
//! A corpus is a sequence of [`Occurrence`]s: a term, in a document, at a position.
//! [`postings_of`] gathers the occurrences of one term into [`PostingView`]s, one for
//! each stretch of them in the same document. [`vocabulary`] lists the terms in the
//! order in which they were first seen.

use crate::corpus::{DocId, DocumentView};
use crate::tokenize;
use vstd::prelude::*;

verus! {

/// How far positions jump between a document's title and its body.
///
/// Without a gap, the last word of the title and the first word of the body would sit
/// at consecutive positions, and a phrase could match across the join.
pub const FIELD_GAP: u32 = 100;

/// A term, found in a document at a position.
pub struct Occurrence {
    pub term: Seq<char>,
    pub doc: u32,
    pub position: u32,
}

/// One term's occurrences within one document.
pub struct PostingView {
    pub doc: u32,
    pub positions: Seq<u32>,
}

/// The occurrences of the terms of a title and a body in document `doc`: those of the
/// title from position zero on, and those of the body from one gap behind the title's
/// last.
pub open spec fn term_occurrences(
    doc: u32,
    title: Seq<Seq<char>>,
    body: Seq<Seq<char>>,
) -> Seq<Occurrence> {
    Seq::new(title.len(), |k: int| Occurrence { term: title[k], doc, position: k as u32 })
        + Seq::new(
        body.len(),
        |k: int|
            Occurrence { term: body[k], doc, position: (title.len() + FIELD_GAP + k) as u32 },
    )
}

/// Whether the start of a body behind a title of `title` terms and every position of
/// its own `body` terms fit a `u32`.
pub open spec fn counts_fit(title: nat, body: nat) -> bool {
    title + FIELD_GAP <= u32::MAX && title + FIELD_GAP + body <= u32::MAX + 1
}

/// The occurrences of a document's terms.
pub open spec fn document_occurrences(document: DocumentView) -> Seq<Occurrence> {
    term_occurrences(
        document.id,
        tokenize::terms(document.title),
        tokenize::terms(document.body),
    )
}

/// Whether the positions of a document fit.
pub open spec fn positions_fit(document: DocumentView) -> bool {
    counts_fit(tokenize::terms(document.title).len(), tokenize::terms(document.body).len())
}

/// The occurrences of all documents' terms, document by document.
pub open spec fn corpus_occurrences(documents: Seq<DocumentView>) -> Seq<Occurrence>
    decreases documents.len(),
{
    if documents.len() == 0 {
        seq![]
    } else {
        corpus_occurrences(documents.drop_last()) + document_occurrences(documents.last())
    }
}

/// The terms of `events`, in the order in which they were first seen.
pub open spec fn vocabulary(events: Seq<Occurrence>) -> Seq<Seq<char>>
    decreases events.len(),
{
    if events.len() == 0 {
        seq![]
    } else {
        let before = vocabulary(events.drop_last());
        if before.contains(events.last().term) {
            before
        } else {
            before.push(events.last().term)
        }
    }
}

/// Each term with its place in the vocabulary.
pub open spec fn numbered(terms: Seq<Seq<char>>) -> Map<Seq<char>, u32> {
    Map::new(|term: Seq<char>| terms.contains(term), |term: Seq<char>| terms.index_of(term) as u32)
}

/// The postings with one more occurrence: in the last posting where that is of the
/// same document, in a new one elsewhere.
pub open spec fn posted(postings: Seq<PostingView>, doc: u32, position: u32) -> Seq<PostingView> {
    if postings.len() > 0 && postings.last().doc == doc {
        postings.drop_last().push(
            PostingView { doc, positions: postings.last().positions.push(position) },
        )
    } else {
        postings.push(PostingView { doc, positions: seq![position] })
    }
}

/// The postings of `term` in `events`.
pub open spec fn postings_of(events: Seq<Occurrence>, term: Seq<char>) -> Seq<PostingView>
    decreases events.len(),
{
    if events.len() == 0 {
        seq![]
    } else {
        let before = postings_of(events.drop_last(), term);
        let event = events.last();
        if event.term == term {
            posted(before, event.doc, event.position)
        } else {
            before
        }
    }
}

/// How many occurrences the postings hold.
pub open spec fn total(postings: Seq<PostingView>) -> nat
    decreases postings.len(),
{
    if postings.len() == 0 {
        0
    } else {
        total(postings.drop_last()) + postings.last().positions.len()
    }
}

/// How many postings the first `n` of `terms` have in `events`.
pub open spec fn postings_before(events: Seq<Occurrence>, terms: Seq<Seq<char>>, n: int) -> nat
    decreases n,
{
    if n <= 0 {
        0
    } else {
        postings_before(events, terms, n - 1) + postings_of(events, terms[n - 1]).len()
    }
}

/// How many occurrences the first `n` of `terms` have in `events`.
pub open spec fn positions_before(events: Seq<Occurrence>, terms: Seq<Seq<char>>, n: int) -> nat
    decreases n,
{
    if n <= 0 {
        0
    } else {
        positions_before(events, terms, n - 1) + total(postings_of(events, terms[n - 1]))
    }
}

/// Whether every term has as many postings and as many occurrences in `one` as in
/// `other`.
pub open spec fn same_counts(one: Seq<Occurrence>, other: Seq<Occurrence>) -> bool {
    forall|term: Seq<char>|
        #![trigger postings_of(one, term)]
        #![trigger postings_of(other, term)]
        postings_of(one, term).len() == postings_of(other, term).len() && total(
            postings_of(one, term),
        ) == total(postings_of(other, term))
}

/// Whether `event` has room among what was counted, when `placed` has been placed: a
/// further occurrence of its term, and a further posting where it begins one.
pub open spec fn has_place(
    counted: Seq<Occurrence>,
    placed: Seq<Occurrence>,
    event: Occurrence,
) -> bool {
    let have = postings_of(placed, event.term);
    let want = postings_of(counted, event.term);
    &&& total(have) < total(want)
    &&& posted(have, event.doc, event.position).len() <= want.len()
}

/// The events of `seen`, in order, that have room among what was counted.
pub open spec fn placed(counted: Seq<Occurrence>, seen: Seq<Occurrence>) -> Seq<Occurrence>
    decreases seen.len(),
{
    if seen.len() == 0 {
        seq![]
    } else {
        let before = placed(counted, seen.drop_last());
        if has_place(counted, before, seen.last()) {
            before.push(seen.last())
        } else {
            before
        }
    }
}

/// How many of the events of `seen` have a term that was not counted.
pub open spec fn unknown(counted: Seq<Occurrence>, seen: Seq<Occurrence>) -> nat
    decreases seen.len(),
{
    if seen.len() == 0 {
        0
    } else if vocabulary(counted).contains(seen.last().term) {
        unknown(counted, seen.drop_last())
    } else {
        unknown(counted, seen.drop_last()) + 1
    }
}

pub proof fn lemma_unknown(counted: Seq<Occurrence>, seen: Seq<Occurrence>)
    ensures
        unknown(counted, seen) <= seen.len(),
    decreases seen.len(),
{
    if seen.len() > 0 {
        lemma_unknown(counted, seen.drop_last());
    }
}

pub proof fn lemma_posted(postings: Seq<PostingView>, doc: u32, position: u32)
    ensures
        total(posted(postings, doc, position)) == total(postings) + 1,
        posted(postings, doc, position).len() >= postings.len(),
        posted(postings, doc, position).len() <= postings.len() + 1,
        posted(postings, doc, position).len() > 0,
        posted(postings, doc, position).last().doc == doc,
{
    let after = posted(postings, doc, position);
    if postings.len() > 0 && postings.last().doc == doc {
        assert(after.drop_last() =~= postings.drop_last());
    } else {
        assert(after.drop_last() =~= postings);
    }
}

/// No term has more postings than occurrences.
pub proof fn lemma_fewer_postings(events: Seq<Occurrence>, term: Seq<char>)
    ensures
        postings_of(events, term).len() <= total(postings_of(events, term)) <= events.len(),
        postings_of(events, term).len() == 0 <==> total(postings_of(events, term)) == 0,
    decreases events.len(),
{
    if events.len() > 0 {
        lemma_fewer_postings(events.drop_last(), term);
        lemma_posted(
            postings_of(events.drop_last(), term),
            events.last().doc,
            events.last().position,
        );
    }
}

/// A vocabulary names each term once, and those that occur.
pub proof fn lemma_vocabulary(events: Seq<Occurrence>)
    ensures
        vocabulary(events).no_duplicates(),
        vocabulary(events).len() <= events.len(),
        forall|term: Seq<char>|
            vocabulary(events).contains(term) <==> (#[trigger] postings_of(events, term)).len() > 0,
    decreases events.len(),
{
    if events.len() > 0 {
        let before = events.drop_last();
        let event = events.last();
        lemma_vocabulary(before);
        let words = vocabulary(before);
        assert forall|term: Seq<char>|
            vocabulary(events).contains(term) <==> (#[trigger] postings_of(events, term)).len()
                > 0 by {
            lemma_posted(postings_of(before, term), event.doc, event.position);
            assert(words.contains(term) <==> postings_of(before, term).len() > 0);
            if !words.contains(event.term) {
                let now = words.push(event.term);
                if words.contains(term) {
                    let i = words.index_of(term);
                    assert(now[i] == term);
                }
                assert(now[words.len() as int] == event.term);
                if now.contains(term) {
                    let i = now.index_of(term);
                    if i < words.len() {
                        assert(words[i] == term);
                    }
                }
            }
        }
    }
}

/// The vocabulary of a longer run of events starts with that of the shorter.
pub proof fn lemma_vocabulary_grows(before: Seq<Occurrence>, after: Seq<Occurrence>)
    ensures
        vocabulary(before).is_prefix_of(vocabulary(before + after)),
        vocabulary(before).len() <= vocabulary(before + after).len(),
        vocabulary(before + after).len() <= vocabulary(before).len() + after.len(),
    decreases after.len(),
{
    if after.len() == 0 {
        assert(before + after =~= before);
    } else {
        lemma_vocabulary_grows(before, after.drop_last());
        assert((before + after).drop_last() =~= before + after.drop_last());
    }
}

/// Where a term stands in a vocabulary without duplicates.
pub proof fn lemma_numbered(terms: Seq<Seq<char>>, i: int)
    requires
        terms.no_duplicates(),
        0 <= i < terms.len(),
    ensures
        terms.index_of(terms[i]) == i,
        terms.contains(terms[i]),
{
    assert(terms.contains(terms[i]));
    let j = terms.index_of(terms[i]);
    assert(terms[j] == terms[i]);
}

pub proof fn lemma_numbered_push(terms: Seq<Seq<char>>, term: Seq<char>)
    requires
        terms.no_duplicates(),
        !terms.contains(term),
    ensures
        numbered(terms.push(term)) == numbered(terms).insert(term, terms.len() as u32),
        terms.push(term).no_duplicates(),
{
    let now = terms.push(term);
    assert(now.no_duplicates());
    assert(now[terms.len() as int] == term);
    lemma_numbered(now, terms.len() as int);
    assert forall|other: Seq<char>| now.contains(other) <==> terms.contains(other) || other == term by {
        if terms.contains(other) {
            assert(now[terms.index_of(other)] == other);
        }
        if now.contains(other) {
            let i = now.index_of(other);
            if i < terms.len() {
                assert(terms[i] == other);
            }
        }
    }
    assert forall|other: Seq<char>| terms.contains(other) implies terms.index_of(other)
        == now.index_of(other) by {
        let i = terms.index_of(other);
        assert(now[i] == other);
        lemma_numbered(now, i);
    }
    assert(numbered(now) =~= numbered(terms).insert(term, terms.len() as u32));
}

pub proof fn lemma_numbered_len(terms: Seq<Seq<char>>)
    requires
        terms.no_duplicates(),
    ensures
        numbered(terms).dom() == terms.to_set(),
        numbered(terms).dom().finite(),
        numbered(terms).dom().len() == terms.len(),
{
    assert(numbered(terms).dom() =~= terms.to_set());
    terms.unique_seq_to_set();
}

/// One more event adds one occurrence to the sum over the terms, if it is one of
/// them, and at most one posting.
proof fn lemma_before_push(events: Seq<Occurrence>, event: Occurrence, terms: Seq<Seq<char>>, n: int)
    requires
        0 <= n <= terms.len(),
        terms.no_duplicates(),
    ensures
        positions_before(events.push(event), terms, n) == positions_before(events, terms, n) + (
        if terms.take(n).contains(event.term) {
            1nat
        } else {
            0nat
        }),
    decreases n,
{
    let after = events.push(event);
    assert(after.drop_last() =~= events);
    if n > 0 {
        lemma_before_push(events, event, terms, n - 1);
        lemma_posted(postings_of(events, terms[n - 1]), event.doc, event.position);
        assert(terms.take(n) =~= terms.take(n - 1).push(terms[n - 1]));
        if terms.take(n - 1).contains(event.term) {
            let i = terms.take(n - 1).index_of(event.term);
            assert(terms[i] == event.term);
            assert(terms.take(n)[i] == event.term);
            assert(terms[n - 1] != event.term);
        } else if terms[n - 1] == event.term {
            assert(terms.take(n)[n - 1] == event.term);
        } else if terms.take(n).contains(event.term) {
            let i = terms.take(n).index_of(event.term);
            assert(terms.take(n - 1)[i] == event.term);
        }
    }
}

proof fn lemma_before_prefix(events: Seq<Occurrence>, terms: Seq<Seq<char>>, longer: Seq<Seq<char>>, n: int)
    requires
        0 <= n <= terms.len(),
        terms.is_prefix_of(longer),
    ensures
        positions_before(events, terms, n) == positions_before(events, longer, n),
        postings_before(events, terms, n) == postings_before(events, longer, n),
    decreases n,
{
    if n > 0 {
        assert(longer[n - 1] == terms[n - 1]);
        lemma_before_prefix(events, terms, longer, n - 1);
    }
}

/// Every occurrence is one of some term of the vocabulary.
pub proof fn lemma_all_occurrences(events: Seq<Occurrence>)
    ensures
        positions_before(events, vocabulary(events), vocabulary(events).len() as int)
            == events.len(),
    decreases events.len(),
{
    let words = vocabulary(events);
    lemma_vocabulary(events);
    if events.len() > 0 {
        let before = events.drop_last();
        let event = events.last();
        let known = vocabulary(before);
        lemma_vocabulary(before);
        lemma_all_occurrences(before);
        assert(before.push(event) =~= events);
        if known.contains(event.term) {
            lemma_before_push(before, event, known, known.len() as int);
            assert(known.take(known.len() as int) =~= known);
        } else {
            assert(words.take(known.len() as int) =~= known);
            lemma_before_push(before, event, words, words.len() as int);
            assert(words.take(words.len() as int) =~= words);
            assert(words[known.len() as int] == event.term);
            assert(words.contains(event.term));
            lemma_before_prefix(before, known, words, known.len() as int);
            assert(postings_of(before, event.term).len() == 0);
            lemma_fewer_postings(before, event.term);
        }
    }
}

/// Sums over more terms are larger, and a term's own count fits between.
pub proof fn lemma_before_grows(events: Seq<Occurrence>, terms: Seq<Seq<char>>, m: int, n: int)
    requires
        0 <= m <= n <= terms.len(),
    ensures
        positions_before(events, terms, m) <= positions_before(events, terms, n),
        postings_before(events, terms, m) <= postings_before(events, terms, n),
        postings_before(events, terms, n) <= positions_before(events, terms, n),
        m < n ==> positions_before(events, terms, m) + total(postings_of(events, terms[m]))
            <= positions_before(events, terms, n),
        m < n ==> postings_before(events, terms, m) + postings_of(events, terms[m]).len()
            <= postings_before(events, terms, n),
    decreases n,
{
    if n > 0 {
        lemma_fewer_postings(events, terms[n - 1]);
        if m < n {
            lemma_before_grows(events, terms, m, n - 1);
        } else {
            lemma_before_grows(events, terms, 0, n - 1);
        }
    }
}

/// How many occurrences the first postings hold.
pub proof fn lemma_total_take(list: Seq<PostingView>, i: int)
    requires
        0 <= i < list.len(),
    ensures
        total(list.take(i + 1)) == total(list.take(i)) + list[i].positions.len(),
        total(list.take(i)) + list[i].positions.len() <= total(list),
        total(list.take(i)) <= total(list),
    decreases list.len() - i,
{
    assert(list.take(i + 1).drop_last() =~= list.take(i));
    if i + 1 < list.len() {
        lemma_total_take(list, i + 1);
    } else {
        assert(list.take(i + 1) =~= list);
    }
}

/// Whether posting `i` of `list` is written into flat arrays: its document and the
/// start of its positions `i` behind `first`, its positions behind those of the
/// postings before it, the first of which begin at `begin`.
pub open spec fn written_at(
    docs: Seq<DocId>,
    starts: Seq<u32>,
    positions: Seq<u32>,
    first: int,
    begin: int,
    list: Seq<PostingView>,
    i: int,
) -> bool {
    let from = begin + total(list.take(i));
    &&& docs[first + i].0 == list[i].doc
    &&& starts[first + i] == from
    &&& positions.subrange(from, from + list[i].positions.len()) == list[i].positions
}

/// Whether all postings of `list` are written.
pub open spec fn written(
    docs: Seq<DocId>,
    starts: Seq<u32>,
    positions: Seq<u32>,
    first: int,
    begin: int,
    list: Seq<PostingView>,
) -> bool {
    forall|i: int|
        0 <= i < list.len() ==> #[trigger] written_at(
            docs,
            starts,
            positions,
            first,
            begin,
            list,
            i,
        )
}

/// Writing elsewhere leaves written postings as they are.
pub proof fn lemma_written_elsewhere(
    docs: Seq<DocId>,
    starts: Seq<u32>,
    positions: Seq<u32>,
    docs_after: Seq<DocId>,
    starts_after: Seq<u32>,
    positions_after: Seq<u32>,
    first: int,
    begin: int,
    list: Seq<PostingView>,
)
    requires
        written(docs, starts, positions, first, begin, list),
        0 <= begin,
        begin + total(list) <= positions.len() == positions_after.len(),
        forall|x: int|
            first <= x < first + list.len() ==> docs_after[x] == docs[x] && starts_after[x]
                == starts[x],
        forall|y: int|
            begin <= y < begin + total(list) ==> positions_after[y] == positions[y],
    ensures
        written(docs_after, starts_after, positions_after, first, begin, list),
{
    assert forall|i: int| 0 <= i < list.len() implies #[trigger] written_at(
        docs_after,
        starts_after,
        positions_after,
        first,
        begin,
        list,
        i,
    ) by {
        assert(written_at(docs, starts, positions, first, begin, list, i));
        lemma_total_take(list, i);
        let from = begin + total(list.take(i));
        let to = from + list[i].positions.len();
        assert(docs_after[first + i] == docs[first + i] && starts_after[first + i] == starts[first
            + i]);
        assert(positions_after.subrange(from, to) =~= positions.subrange(from, to));
    }
}

/// Writing one more occurrence behind written postings writes them with that
/// occurrence.
pub proof fn lemma_written_posted(
    docs: Seq<DocId>,
    starts: Seq<u32>,
    positions: Seq<u32>,
    docs_after: Seq<DocId>,
    starts_after: Seq<u32>,
    positions_after: Seq<u32>,
    first: int,
    begin: int,
    list: Seq<PostingView>,
    doc: u32,
    position: u32,
)
    requires
        written(docs, starts, positions, first, begin, list),
        0 <= begin,
        begin + total(list) < positions.len() == positions_after.len(),
        forall|x: int|
            first <= x < first + list.len() ==> docs_after[x] == docs[x] && starts_after[x]
                == starts[x],
        forall|y: int|
            begin <= y < begin + total(list) ==> positions_after[y] == positions[y],
        positions_after[begin + total(list) as int] == position,
        posted(list, doc, position).len() > list.len() ==> {
            &&& docs_after[first + list.len() as int].0 == doc
            &&& starts_after[first + list.len() as int] == begin + total(list)
        },
    ensures
        written(
            docs_after,
            starts_after,
            positions_after,
            first,
            begin,
            posted(list, doc, position),
        ),
{
    lemma_written_elsewhere(
        docs,
        starts,
        positions,
        docs_after,
        starts_after,
        positions_after,
        first,
        begin,
        list,
    );
    let now = posted(list, doc, position);
    let last = now.len() - 1;
    let joins = list.len() > 0 && list.last().doc == doc;
    assert forall|i: int| 0 <= i < now.len() implies #[trigger] written_at(
        docs_after,
        starts_after,
        positions_after,
        first,
        begin,
        now,
        i,
    ) by {
        if i < list.len() {
            assert(written_at(docs_after, starts_after, positions_after, first, begin, list, i));
        }
        if i < last {
            assert(now.take(i) =~= list.take(i));
            assert(now[i] == list[i]);
        } else if joins {
            assert(now.take(i) =~= list.take(i));
            lemma_total_take(list, i);
            assert(list.take(i + 1) =~= list);
            let from = begin + total(list.take(i));
            let was = list[i].positions;
            assert(positions_after.subrange(from, from + was.len()) == was);
            assert(positions_after.subrange(from, from + was.len() + 1) =~= was.push(position));
        } else {
            assert(now.take(i) =~= list);
            let from = begin + total(list);
            assert(positions_after.subrange(from, from + 1) =~= seq![position]);
        }
    }
}

/// Whether no number is followed by a smaller one.
pub open spec fn ascending(numbers: Seq<u32>) -> bool {
    forall|i: int, j: int|
        0 <= i <= j < numbers.len() ==> #[trigger] numbers[i] <= #[trigger] numbers[j]
}

/// Numbers each of which is at most the next are ascending.
pub proof fn lemma_ascending(numbers: Seq<u32>)
    requires
        forall|i: int| 0 <= i && i + 1 < numbers.len() ==> #[trigger] numbers[i] <= numbers[i + 1],
    ensures
        ascending(numbers),
{
    assert forall|i: int, j: int| 0 <= i <= j < numbers.len() implies #[trigger] numbers[i]
        <= #[trigger] numbers[j] by {
        lemma_ascending_between(numbers, i, j);
    }
}

proof fn lemma_ascending_between(numbers: Seq<u32>, i: int, j: int)
    requires
        0 <= i <= j < numbers.len(),
        forall|i: int| 0 <= i && i + 1 < numbers.len() ==> #[trigger] numbers[i] <= numbers[i + 1],
    ensures
        numbers[i] <= numbers[j],
    decreases j - i,
{
    if i < j {
        lemma_ascending_between(numbers, i, j - 1);
        assert(numbers[j - 1] <= numbers[j - 1 + 1]);
    }
}

/// What an index holds: its dictionary and its four arrays.
pub struct IndexView {
    pub dictionary: Map<Seq<char>, u32>,
    pub term_postings_start: Seq<u32>,
    pub posting_docs: Seq<DocId>,
    pub posting_positions_start: Seq<u32>,
    pub positions: Seq<u32>,
    pub documents: u32,
}

/// Whether a dictionary gives each of its terms a number of its own, all of them below
/// the number of terms.
pub open spec fn numbers_its_terms(dictionary: Map<Seq<char>, u32>) -> bool {
    &&& forall|term: Seq<char>| #[trigger]
        dictionary.contains_key(term) ==> dictionary[term] < dictionary.dom().len()
    &&& forall|a: Seq<char>, b: Seq<char>|
        #![trigger dictionary.contains_key(a), dictionary.contains_key(b)]
        dictionary.contains_key(a) && dictionary.contains_key(b) && a != b ==> dictionary[a]
            != dictionary[b]
}

impl IndexView {
    /// Whether the parts fit together: a number of its own per term, and an offset per
    /// term and per posting, each with a sentinel, from zero to the end of what they
    /// point into.
    pub open spec fn consistent(self) -> bool {
        &&& self.dictionary.dom().finite()
        &&& numbers_its_terms(self.dictionary)
        &&& self.term_postings_start.len() == self.dictionary.dom().len() + 1
        &&& self.posting_positions_start.len() == self.posting_docs.len() + 1
        &&& self.term_postings_start[0] == 0
        &&& self.posting_positions_start[0] == 0
        &&& self.term_postings_start.last() == self.posting_docs.len()
        &&& self.posting_positions_start.last() == self.positions.len()
        &&& ascending(self.term_postings_start)
        &&& ascending(self.posting_positions_start)
    }

    /// The postings of term number `t`: none where there is no such term.
    pub open spec fn postings(self, t: int) -> Seq<PostingView> {
        if 0 <= t < self.term_postings_start.len() - 1 {
            let first = self.term_postings_start[t] as int;
            Seq::new(
                (self.term_postings_start[t + 1] - first) as nat,
                |i: int|
                    PostingView {
                        doc: self.posting_docs[first + i].0,
                        positions: self.positions.subrange(
                            self.posting_positions_start[first + i] as int,
                            self.posting_positions_start[first + i + 1] as int,
                        ),
                    },
            )
        } else {
            seq![]
        }
    }
}

/// Whether `index` holds the occurrences `events` under a vocabulary that was counted
/// over `counted`.
pub open spec fn indexes(
    index: IndexView,
    counted: Seq<Occurrence>,
    events: Seq<Occurrence>,
    documents: u32,
) -> bool {
    let words = vocabulary(counted);
    &&& index.dictionary == numbered(words)
    &&& index.documents == documents
    &&& index.positions.len() == events.len()
    &&& forall|t: int|
        0 <= t < words.len() ==> index.postings(t) == postings_of(events, #[trigger] words[t])
}

/// Terms with the same counts sum up to the same counts.
pub proof fn lemma_before_same(
    one: Seq<Occurrence>,
    other: Seq<Occurrence>,
    terms: Seq<Seq<char>>,
    n: int,
)
    requires
        0 <= n <= terms.len(),
        same_counts(one, other),
    ensures
        positions_before(one, terms, n) == positions_before(other, terms, n),
        postings_before(one, terms, n) == postings_before(other, terms, n),
    decreases n,
{
    if n > 0 {
        lemma_before_same(one, other, terms, n - 1);
        assert(postings_of(one, terms[n - 1]).len() == postings_of(other, terms[n - 1]).len());
    }
}

/// The events placed are at most those counted, term by term.
pub proof fn lemma_placed(counted: Seq<Occurrence>, seen: Seq<Occurrence>, term: Seq<char>)
    ensures
        postings_of(placed(counted, seen), term).len() <= postings_of(counted, term).len(),
        total(postings_of(placed(counted, seen), term)) <= total(postings_of(counted, term)),
        placed(counted, seen).len() <= seen.len(),
        placed(counted, seen).len() == seen.len() ==> placed(counted, seen) == seen,
    decreases seen.len(),
{
    if seen.len() > 0 {
        let before = placed(counted, seen.drop_last());
        let event = seen.last();
        lemma_placed(counted, seen.drop_last(), term);
        assert(before.push(event).drop_last() =~= before);
        lemma_posted(postings_of(before, term), event.doc, event.position);
        if placed(counted, seen).len() == seen.len() {
            assert(seen.drop_last().push(event) =~= seen);
        }
    }
}

/// Counts only grow with more events.
pub proof fn lemma_counts_grow(before: Seq<Occurrence>, after: Seq<Occurrence>, term: Seq<char>)
    ensures
        postings_of(before, term).len() <= postings_of(before + after, term).len(),
        total(postings_of(before, term)) <= total(postings_of(before + after, term)),
    decreases after.len(),
{
    if after.len() == 0 {
        assert(before + after =~= before);
    } else {
        lemma_counts_grow(before, after.drop_last(), term);
        assert((before + after).drop_last() =~= before + after.drop_last());
        lemma_posted(
            postings_of(before + after.drop_last(), term),
            after.last().doc,
            after.last().position,
        );
    }
}

/// Where the counts agree in the end, every event has its place.
pub proof fn lemma_same_counts_all_placed(
    counted: Seq<Occurrence>,
    seen: Seq<Occurrence>,
    rest: Seq<Occurrence>,
)
    requires
        same_counts(counted, seen + rest),
    ensures
        placed(counted, seen) == seen,
    decreases seen.len(),
{
    if seen.len() > 0 {
        let before = seen.drop_last();
        let event = seen.last();
        assert(before + (seq![event] + rest) =~= seen + rest);
        lemma_same_counts_all_placed(counted, before, seq![event] + rest);
        lemma_counts_grow(seen, rest, event.term);
        lemma_posted(postings_of(before, event.term), event.doc, event.position);
        assert(postings_of(seen, event.term) == posted(
            postings_of(before, event.term),
            event.doc,
            event.position,
        ));
        assert(postings_of(counted, event.term).len() == postings_of(
            seen + rest,
            event.term,
        ).len());
        assert(before.push(event) =~= seen);
    }
}

/// Between the starts of the terms' postings, every posting belongs to a term.
pub proof fn lemma_owner(events: Seq<Occurrence>, terms: Seq<Seq<char>>, n: int, x: int) -> (t: int)
    requires
        0 <= n <= terms.len(),
        0 <= x < postings_before(events, terms, n),
    ensures
        0 <= t < n,
        postings_before(events, terms, t) <= x < postings_before(events, terms, t + 1),
    decreases n,
{
    if x < postings_before(events, terms, n - 1) {
        lemma_owner(events, terms, n - 1, x)
    } else {
        n - 1
    }
}

/// Whether every term's postings are written into the arrays, one term's behind the
/// other's.
pub open spec fn all_written(
    index: IndexView,
    events: Seq<Occurrence>,
    words: Seq<Seq<char>>,
) -> bool {
    &&& index.posting_docs.len() == postings_before(events, words, words.len() as int)
    &&& index.posting_positions_start.len() == index.posting_docs.len() + 1
    &&& index.posting_positions_start.last() == index.positions.len()
    &&& index.positions.len() == positions_before(events, words, words.len() as int)
    &&& forall|t: int|
        0 <= t < words.len() ==> written(
            index.posting_docs,
            index.posting_positions_start,
            index.positions,
            postings_before(events, words, t) as int,
            positions_before(events, words, t) as int,
            postings_of(events, #[trigger] words[t]),
        )
    &&& forall|t: int| 0 <= t < words.len() ==> postings_of(events, #[trigger] words[t]).len() > 0
}

/// Where the positions of posting `i` of term `t` begin, and where they end.
proof fn lemma_posting_bounds(
    index: IndexView,
    events: Seq<Occurrence>,
    words: Seq<Seq<char>>,
    t: int,
    i: int,
)
    requires
        all_written(index, events, words),
        0 <= t < words.len(),
        0 <= i < postings_of(events, words[t]).len(),
    ensures
        ({
            let list = postings_of(events, words[t]);
            let first = postings_before(events, words, t) as int;
            let from = positions_before(events, words, t) as int + total(list.take(i));
            &&& index.posting_docs[first + i].0 == list[i].doc
            &&& index.posting_positions_start[first + i] == from
            &&& index.posting_positions_start[first + i + 1] == from + list[i].positions.len()
            &&& index.positions.subrange(from, from + list[i].positions.len())
                == list[i].positions
        }),
{
    let list = postings_of(events, words[t]);
    let first = postings_before(events, words, t) as int;
    let begin = positions_before(events, words, t) as int;
    let next = if t + 1 < words.len() {
        postings_of(events, words[t + 1])
    } else {
        seq![]
    };
    assert(postings_before(events, words, t + 1) == first + list.len());
    assert(positions_before(events, words, t + 1) == begin + total(list));
    assert(words[t] == words[t]);
    if t + 1 < words.len() {
        assert(words[t + 1] == words[t + 1]);
    }
    lemma_written_bounds(
        index.posting_docs,
        index.posting_positions_start,
        index.positions,
        first,
        begin,
        list,
        next,
        i,
    );
}

/// Where the positions of a written posting begin and end: where those of the next
/// begin, be it of the same term or of the next one, or at the end of them all.
proof fn lemma_written_bounds(
    docs: Seq<DocId>,
    starts: Seq<u32>,
    positions: Seq<u32>,
    first: int,
    begin: int,
    list: Seq<PostingView>,
    next: Seq<PostingView>,
    i: int,
)
    requires
        0 <= i < list.len(),
        written(docs, starts, positions, first, begin, list),
        next.len() > 0 ==> written(
            docs,
            starts,
            positions,
            first + list.len(),
            begin + total(list),
            next,
        ),
        next.len() == 0 ==> starts[first + list.len()] == begin + total(list),
    ensures
        ({
            let from = begin + total(list.take(i));
            &&& docs[first + i].0 == list[i].doc
            &&& starts[first + i] == from
            &&& starts[first + i + 1] == from + list[i].positions.len()
            &&& positions.subrange(from, from + list[i].positions.len()) == list[i].positions
        }),
{
    assert(written_at(docs, starts, positions, first, begin, list, i));
    lemma_total_take(list, i);
    if i + 1 < list.len() {
        assert(written_at(docs, starts, positions, first, begin, list, i + 1));
    } else {
        assert(list.take(i + 1) =~= list);
        if next.len() > 0 {
            assert(written_at(
                docs,
                starts,
                positions,
                first + list.len(),
                begin + total(list),
                next,
                0,
            ));
            assert(next.take(0) =~= Seq::<PostingView>::empty());
        }
    }
}

/// The places in a vocabulary are numbers of its terms.
proof fn lemma_numbers_its_terms(words: Seq<Seq<char>>)
    requires
        words.no_duplicates(),
        words.len() <= u32::MAX,
    ensures
        numbers_its_terms(numbered(words)),
{
    lemma_numbered_len(words);
    let map = numbered(words);
    assert forall|a: Seq<char>, b: Seq<char>|
        #![trigger map.contains_key(a), map.contains_key(b)]
        map.contains_key(a) && map.contains_key(b) && a != b implies map[a] != map[b] by {
        assert(words[words.index_of(a)] == a);
        assert(words[words.index_of(b)] == b);
    }
    assert forall|term: Seq<char>| #[trigger] map.contains_key(term) implies map[term]
        < map.dom().len() by {
        assert(words[words.index_of(term)] == term);
    }
}

/// Arrays in which a term's postings are written hold those postings.
proof fn lemma_assembled_term(
    index: IndexView,
    events: Seq<Occurrence>,
    words: Seq<Seq<char>>,
    t: int,
)
    requires
        words.no_duplicates(),
        index.dictionary == numbered(words),
        index.term_postings_start.len() == words.len() + 1,
        forall|t: int|
            0 <= t <= words.len() ==> #[trigger] index.term_postings_start[t] == postings_before(
                events,
                words,
                t,
            ),
        all_written(index, events, words),
        0 <= t < words.len(),
    ensures
        index.postings(t) == postings_of(events, words[t]),
{
    let list = postings_of(events, words[t]);
    let first = postings_before(events, words, t) as int;
    assert(index.term_postings_start[t] == first);
    assert(index.term_postings_start[t + 1] == first + list.len());
    assert forall|i: int| 0 <= i < list.len() implies #[trigger] index.postings(t)[i]
        == list[i] by {
        lemma_posting_bounds(index, events, words, t, i);
    }
    assert(index.postings(t) =~= list);
}

/// Where every term's postings are written, the starts of their positions ascend.
proof fn lemma_assembled_positions(index: IndexView, events: Seq<Occurrence>, words: Seq<Seq<char>>)
    requires
        words.no_duplicates(),
        index.dictionary == numbered(words),
        index.term_postings_start.len() == words.len() + 1,
        forall|t: int|
            0 <= t <= words.len() ==> #[trigger] index.term_postings_start[t] == postings_before(
                events,
                words,
                t,
            ),
        all_written(index, events, words),
    ensures
        ascending(index.posting_positions_start),
{
    let n = words.len() as int;
    let starts = index.posting_positions_start;
    assert forall|x: int| 0 <= x && x + 1 < starts.len() implies #[trigger] starts[x] <= starts[x
        + 1] by {
        let t = lemma_owner(events, words, n, x);
        lemma_posting_bounds(index, events, words, t, x - postings_before(events, words, t));
    }
    lemma_ascending(starts);
}

/// Arrays in which every term's postings are written fit together and hold those
/// postings.
pub proof fn lemma_assembled(index: IndexView, events: Seq<Occurrence>, words: Seq<Seq<char>>)
    requires
        words.no_duplicates(),
        words.len() <= u32::MAX,
        index.dictionary == numbered(words),
        index.term_postings_start.len() == words.len() + 1,
        forall|t: int|
            0 <= t <= words.len() ==> #[trigger] index.term_postings_start[t] == postings_before(
                events,
                words,
                t,
            ),
        all_written(index, events, words),
    ensures
        index.consistent(),
        forall|t: int|
            0 <= t < words.len() ==> index.postings(t) == postings_of(events, #[trigger] words[t]),
{
    let n = words.len() as int;
    assert forall|t: int| 0 <= t < n implies index.postings(t) == postings_of(
        events,
        #[trigger] words[t],
    ) by {
        lemma_assembled_term(index, events, words, t);
    }
    lemma_assembled_positions(index, events, words);
    assert forall|t: int| 0 <= t && t + 1 < index.term_postings_start.len() implies
        #[trigger] index.term_postings_start[t] <= index.term_postings_start[t + 1] by {
        assert(index.term_postings_start[t + 1] == postings_before(events, words, t + 1));
    }
    lemma_ascending(index.term_postings_start);
    lemma_numbered_len(words);
    lemma_numbers_its_terms(words);
    if n > 0 {
        lemma_posting_bounds(index, events, words, 0, 0);
        assert(postings_of(events, words[0]).take(0) =~= Seq::<PostingView>::empty());
    }
}

/// Summed over terms among which is every term that occurs, the counts make up the
/// number of events.
pub proof fn lemma_sum_is_length(events: Seq<Occurrence>, terms: Seq<Seq<char>>)
    requires
        terms.no_duplicates(),
        forall|k: int| 0 <= k < events.len() ==> terms.contains((#[trigger] events[k]).term),
    ensures
        positions_before(events, terms, terms.len() as int) == events.len(),
    decreases events.len(),
{
    let n = terms.len() as int;
    if events.len() == 0 {
        lemma_no_events(terms, n);
        assert(events =~= Seq::<Occurrence>::empty());
    } else {
        let before = events.drop_last();
        assert forall|k: int| 0 <= k < before.len() implies terms.contains(
            (#[trigger] before[k]).term,
        ) by {
            assert(events[k] == before[k]);
        }
        lemma_sum_is_length(before, terms);
        assert(terms.contains(events[events.len() - 1].term));
        lemma_before_push(before, events.last(), terms, n);
        assert(before.push(events.last()) =~= events);
        assert(terms.take(n) =~= terms);
    }
}

proof fn lemma_no_events(terms: Seq<Seq<char>>, n: int)
    requires
        0 <= n <= terms.len(),
    ensures
        positions_before(Seq::empty(), terms, n) == 0,
    decreases n,
{
    if n > 0 {
        lemma_no_events(terms, n - 1);
    }
}

/// An event's term has postings.
pub proof fn lemma_event_is_posted(events: Seq<Occurrence>, k: int)
    requires
        0 <= k < events.len(),
    ensures
        postings_of(events, events[k].term).len() > 0,
    decreases events.len(),
{
    let term = events[k].term;
    lemma_posted(postings_of(events.drop_last(), term), events.last().doc, events.last().position);
    if k < events.len() - 1 {
        assert(events.drop_last()[k] == events[k]);
        lemma_event_is_posted(events.drop_last(), k);
    }
}

} // verus!
