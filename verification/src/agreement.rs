//! What holds of an index as a whole: it answers as reading every document would.
//!
//! [`scan`] is the answer without an index: go through the documents one by one and
//! note each that has the term, with the positions it has it at.

use crate::corpus::DocumentView;
use crate::postings;
use crate::postings::{IndexView, Occurrence, PostingView};
use crate::tokenize;
use vstd::prelude::*;

verus! {

/// Where `term` occurs among `events`, in order.
pub open spec fn term_positions(events: Seq<Occurrence>, term: Seq<char>) -> Seq<u32>
    decreases events.len(),
{
    if events.len() == 0 {
        seq![]
    } else {
        let before = term_positions(events.drop_last(), term);
        if events.last().term == term {
            before.push(events.last().position)
        } else {
            before
        }
    }
}

/// The documents that have `term`, in order, each with its positions.
pub open spec fn scan(documents: Seq<DocumentView>, term: Seq<char>) -> Seq<PostingView>
    decreases documents.len(),
{
    if documents.len() == 0 {
        seq![]
    } else {
        let before = scan(documents.drop_last(), term);
        let positions = term_positions(postings::document_occurrences(documents.last()), term);
        if positions.len() == 0 {
            before
        } else {
            before.push(PostingView { doc: documents.last().id, positions })
        }
    }
}

/// Whether the documents' ids ascend, as those of a corpus do.
pub open spec fn in_corpus_order(documents: Seq<DocumentView>) -> bool {
    forall|i: int, j: int|
        0 <= i < j < documents.len() ==> (#[trigger] documents[i]).id < (
        #[trigger] documents[j]).id
}

/// The postings behind one document's events: one more, where the document has the
/// term.
proof fn lemma_one_document(
    before: Seq<Occurrence>,
    events: Seq<Occurrence>,
    doc: u32,
    term: Seq<char>,
)
    requires
        forall|k: int| 0 <= k < events.len() ==> (#[trigger] events[k]).doc == doc,
        postings::postings_of(before, term).len() > 0 ==> postings::postings_of(before, term).last().doc != doc,
    ensures
        ({
            let positions = term_positions(events, term);
            postings::postings_of(before + events, term) == if positions.len() == 0 {
                postings::postings_of(before, term)
            } else {
                postings::postings_of(before, term).push(PostingView { doc, positions })
            }
        }),
    decreases events.len(),
{
    if events.len() == 0 {
        assert(before + events =~= before);
    } else {
        let earlier = events.drop_last();
        let event = events.last();
        assert(event == events[events.len() - 1]);
        assert forall|k: int| 0 <= k < earlier.len() implies (#[trigger] earlier[k]).doc == doc by {
            assert(earlier[k] == events[k]);
        }
        lemma_one_document(before, earlier, doc, term);
        assert((before + events).drop_last() =~= before + earlier);
        assert((before + events).last() == event);
        let old = postings::postings_of(before, term);
        let positions = term_positions(earlier, term);
        if event.term == term && positions.len() > 0 {
            assert(old.push(PostingView { doc, positions }).drop_last() =~= old);
        } else if event.term == term {
            assert(positions.push(event.position) =~= seq![event.position]);
        }
    }
}

/// Every document that a scan finds is one that was scanned.
pub proof fn lemma_scanned(documents: Seq<DocumentView>, term: Seq<char>, k: int) -> (i: int)
    requires
        0 <= k < scan(documents, term).len(),
    ensures
        0 <= i < documents.len(),
        scan(documents, term)[k].doc == documents[i].id,
        scan(documents, term)[k].positions == term_positions(
            postings::document_occurrences(documents[i]),
            term,
        ),
        scan(documents, term)[k].positions.len() > 0,
        k == scan(documents, term).len() - 1 || i < documents.len() - 1,
    decreases documents.len(),
{
    let before = documents.drop_last();
    if k < scan(before, term).len() {
        let i = lemma_scanned(before, term, k);
        assert(scan(documents, term)[k] == scan(before, term)[k]);
        i
    } else {
        documents.len() - 1
    }
}

/// The index answers exactly as a scan of the corpus would: for every term, the same
/// documents with the same positions.
pub proof fn the_index_agrees_with_a_scan(documents: Seq<DocumentView>, term: Seq<char>)
    requires
        in_corpus_order(documents),
    ensures
        postings::postings_of(postings::corpus_occurrences(documents), term) == scan(documents, term),
    decreases documents.len(),
{
    if documents.len() > 0 {
        let before = documents.drop_last();
        let document = documents.last();
        assert forall|i: int, j: int| 0 <= i < j < before.len() implies (#[trigger] before[i]).id
            < (#[trigger] before[j]).id by {
            assert(documents[i].id < documents[j].id);
        }
        the_index_agrees_with_a_scan(before, term);
        let found = scan(before, term);
        if found.len() > 0 {
            let i = lemma_scanned(before, term, found.len() - 1);
            assert(documents[i].id < documents[documents.len() - 1].id);
        }
        lemma_one_document(
            postings::corpus_occurrences(before),
            postings::document_occurrences(document),
            document.id,
            term,
        );
    }
}

/// An index that was built answers exactly as a scan of the documents it was filled
/// from would: it knows a term if and only if a document has it, and its postings for
/// the term are the documents that have it, with the positions they have it at.
pub proof fn a_built_index_answers_as_a_scan(
    index: IndexView,
    counted: Seq<Occurrence>,
    documents: Seq<DocumentView>,
    number: u32,
    term: Seq<char>,
)
    requires
        in_corpus_order(documents),
        index.consistent(),
        postings::same_counts(counted, postings::corpus_occurrences(documents)),
        postings::indexes(index, counted, postings::corpus_occurrences(documents), number),
    ensures
        index.dictionary.contains_key(term) <==> scan(documents, term).len() > 0,
        index.dictionary.contains_key(term) ==> index.postings(index.dictionary[term] as int)
            == scan(documents, term),
{
    let words = postings::vocabulary(counted);
    let seen = postings::corpus_occurrences(documents);
    the_index_agrees_with_a_scan(documents, term);
    postings::lemma_vocabulary(counted);
    assert(words.contains(term) <==> postings::postings_of(counted, term).len() > 0);
    assert(postings::postings_of(counted, term).len() == postings::postings_of(seen, term).len());
    if words.contains(term) {
        let t = words.index_of(term);
        assert(words[t] == term);
        postings::lemma_numbered_len(words);
        assert(t < u32::MAX) by {
            lemma_few_terms(index, counted, seen, number);
        }
    }
}

/// An index holds no more terms than a `u32` can number.
proof fn lemma_few_terms(
    index: IndexView,
    counted: Seq<Occurrence>,
    seen: Seq<Occurrence>,
    number: u32,
)
    requires
        index.consistent(),
        postings::same_counts(counted, seen),
        postings::indexes(index, counted, seen, number),
    ensures
        postings::vocabulary(counted).len() <= u32::MAX,
{
    let words = postings::vocabulary(counted);
    postings::lemma_vocabulary(counted);
    assert forall|k: int| 0 <= k < seen.len() implies words.contains((#[trigger] seen[k]).term) by {
        postings::lemma_event_is_posted(seen, k);
        assert(postings::postings_of(counted, seen[k].term).len() > 0);
    }
    postings::lemma_sum_is_length(seen, words);
    postings::lemma_before_same(counted, seen, words, words.len() as int);
    postings::lemma_all_occurrences(counted);
}

/// A scan names documents in ascending order, each once.
proof fn lemma_scan_ascends(documents: Seq<DocumentView>, term: Seq<char>)
    requires
        in_corpus_order(documents),
    ensures
        forall|j: int, k: int|
            0 <= j < k < scan(documents, term).len() ==> (#[trigger] scan(
                documents,
                term,
            )[j]).doc < (#[trigger] scan(documents, term)[k]).doc,
    decreases documents.len(),
{
    if documents.len() > 0 {
        let before = documents.drop_last();
        assert forall|i: int, j: int| 0 <= i < j < before.len() implies (#[trigger] before[i]).id
            < (#[trigger] before[j]).id by {
            assert(documents[i].id < documents[j].id);
        }
        lemma_scan_ascends(before, term);
        let list = scan(documents, term);
        let earlier = scan(before, term);
        assert forall|j: int, k: int| 0 <= j < k < list.len() implies (#[trigger] list[j]).doc < (
        #[trigger] list[k]).doc by {
            assert(list[j] == earlier[j]);
            if k < earlier.len() {
                assert(list[k] == earlier[k]);
            } else {
                let i = lemma_scanned(before, term, j);
                assert(documents[i].id < documents[documents.len() - 1].id);
            }
        }
    }
}

/// The positions of a document's events, which its title and then its body give.
proof fn lemma_positions_ascend(document: DocumentView)
    requires
        postings::positions_fit(document),
    ensures
        forall|i: int, j: int|
            0 <= i < j < postings::document_occurrences(document).len() ==> (
            #[trigger] postings::document_occurrences(document)[i]).position < (
            #[trigger] postings::document_occurrences(document)[j]).position,
{
}

proof fn lemma_term_positions_ascend(events: Seq<Occurrence>, term: Seq<char>)
    requires
        forall|i: int, j: int|
            0 <= i < j < events.len() ==> (#[trigger] events[i]).position < (
            #[trigger] events[j]).position,
    ensures
        forall|i: int, j: int|
            0 <= i < j < term_positions(events, term).len() ==> #[trigger] term_positions(
                events,
                term,
            )[i] < #[trigger] term_positions(events, term)[j],
        term_positions(events, term).len() > 0 ==> events.len() > 0 && term_positions(
            events,
            term,
        ).last() <= events.last().position,
    decreases events.len(),
{
    if events.len() > 0 {
        let before = events.drop_last();
        assert forall|i: int, j: int| 0 <= i < j < before.len() implies (
        #[trigger] before[i]).position < (#[trigger] before[j]).position by {
            assert(events[i].position < events[j].position);
        }
        lemma_term_positions_ascend(before, term);
        if before.len() > 0 {
            assert(events[events.len() - 2].position < events[events.len() - 1].position);
        }
        let all = term_positions(events, term);
        let earlier = term_positions(before, term);
        assert forall|i: int, j: int| 0 <= i < j < all.len() implies #[trigger] all[i]
            < #[trigger] all[j] by {
            if j < earlier.len() {
                assert(earlier[i] < earlier[j]);
            } else if i < earlier.len() - 1 {
                assert(earlier[i] < earlier[earlier.len() - 1]);
            }
        }
    }
}

/// Postings are sorted at both levels: a term's documents ascend, and so do its
/// positions within each of them, of which there is at least one.
pub proof fn postings_are_sorted(documents: Seq<DocumentView>, term: Seq<char>)
    requires
        in_corpus_order(documents),
        forall|i: int| 0 <= i < documents.len() ==> postings::positions_fit(#[trigger] documents[i]),
    ensures
        forall|j: int, k: int|
            0 <= j < k < postings::postings_of(postings::corpus_occurrences(documents), term).len() ==> (
            #[trigger] postings::postings_of(postings::corpus_occurrences(documents), term)[j]).doc < (
            #[trigger] postings::postings_of(postings::corpus_occurrences(documents), term)[k]).doc,
        forall|k: int|
            0 <= k < postings::postings_of(postings::corpus_occurrences(documents), term).len() ==> {
                let positions = (#[trigger] postings::postings_of(
                    postings::corpus_occurrences(documents),
                    term,
                )[k]).positions;
                positions.len() > 0 && strictly_ascending(positions)
            },
{
    the_index_agrees_with_a_scan(documents, term);
    lemma_scan_ascends(documents, term);
    let list = scan(documents, term);
    assert forall|k: int| 0 <= k < list.len() implies {
        let positions = (#[trigger] list[k]).positions;
        positions.len() > 0 && strictly_ascending(positions)
    } by {
        let i = lemma_scanned(documents, term, k);
        lemma_positions_ascend(documents[i]);
        lemma_term_positions_ascend(postings::document_occurrences(documents[i]), term);
    }
}

/// Whether each number is smaller than those behind it.
pub open spec fn strictly_ascending(numbers: Seq<u32>) -> bool {
    forall|i: int, j: int|
        0 <= i < j < numbers.len() ==> #[trigger] numbers[i] < #[trigger] numbers[j]
}

/// A title and a body never bleed into each other: the title's terms have the
/// positions from zero on, the body's those from one gap behind the title on, and
/// nothing lies in between, so a title term and a body term are always more than a
/// gap apart.
pub proof fn the_field_gap_separates_title_and_body(document: DocumentView)
    requires
        postings::positions_fit(document),
    ensures
        ({
            let events = postings::document_occurrences(document);
            let title = tokenize::terms(document.title);
            let body = tokenize::terms(document.body);
            &&& events.len() == title.len() + body.len()
            &&& forall|k: int|
                0 <= k < title.len() ==> (#[trigger] events[k]).term == title[k]
                    && events[k].position == k
            &&& forall|k: int|
                title.len() <= k < events.len() ==> (#[trigger] events[k]).term == body[k
                    - title.len()] && events[k].position == k + postings::FIELD_GAP
            &&& forall|i: int, j: int|
                0 <= i < title.len() <= j < events.len() ==> (#[trigger] events[j]).position - (
                #[trigger] events[i]).position > postings::FIELD_GAP
        }),
{
}

/// The index has a term if and only if the term occurs.
pub proof fn a_term_is_found_if_and_only_if_it_occurs(events: Seq<Occurrence>, term: Seq<char>)
    ensures
        postings::numbered(postings::vocabulary(events)).contains_key(term) <==> exists|k: int|
            0 <= k < events.len() && (#[trigger] events[k]).term == term,
{
    postings::lemma_vocabulary(events);
    assert(postings::vocabulary(events).contains(term) <==> postings::postings_of(events, term).len() > 0);
    if postings::postings_of(events, term).len() > 0 {
        let k = lemma_posted_somewhere(events, term);
        assert(events[k].term == term);
    }
    if exists|k: int| 0 <= k < events.len() && (#[trigger] events[k]).term == term {
        let k = choose|k: int| 0 <= k < events.len() && (#[trigger] events[k]).term == term;
        postings::lemma_event_is_posted(events, k);
    }
}

proof fn lemma_posted_somewhere(events: Seq<Occurrence>, term: Seq<char>) -> (k: int)
    requires
        postings::postings_of(events, term).len() > 0,
    ensures
        0 <= k < events.len(),
        events[k].term == term,
    decreases events.len(),
{
    if events.last().term == term {
        events.len() - 1
    } else {
        let k = lemma_posted_somewhere(events.drop_last(), term);
        assert(events.drop_last()[k] == events[k]);
        k
    }
}

/// Whether `term` occurs in a document's title or body.
pub open spec fn has_term(document: DocumentView, term: Seq<char>) -> bool {
    tokenize::terms(document.title).contains(term) || tokenize::terms(document.body).contains(term)
}

/// Whether `term` occurs in one of the documents.
pub open spec fn occurs_in(documents: Seq<DocumentView>, term: Seq<char>) -> bool {
    exists|i: int| 0 <= i < documents.len() && has_term(#[trigger] documents[i], term)
}

/// The terms that occur in the documents.
pub open spec fn distinct_terms(documents: Seq<DocumentView>) -> Set<Seq<char>> {
    Set::new(|term: Seq<char>| occurs_in(documents, term))
}

proof fn lemma_document_has_term(document: DocumentView, term: Seq<char>)
    ensures
        has_term(document, term) <==> exists|k: int|
            0 <= k < postings::document_occurrences(document).len() && (
            #[trigger] postings::document_occurrences(document)[k]).term == term,
{
    let title = tokenize::terms(document.title);
    let body = tokenize::terms(document.body);
    let events = postings::document_occurrences(document);
    if title.contains(term) {
        let k = title.index_of(term);
        assert(events[k].term == term);
    } else if body.contains(term) {
        let k = body.index_of(term);
        assert(events[title.len() + k].term == term);
    }
    if exists|k: int| 0 <= k < events.len() && (#[trigger] events[k]).term == term {
        let k = choose|k: int| 0 <= k < events.len() && (#[trigger] events[k]).term == term;
        if k < title.len() {
            assert(title[k] == term);
        } else {
            assert(body[k - title.len()] == term);
        }
    }
}

proof fn lemma_occurs_in(documents: Seq<DocumentView>, term: Seq<char>)
    ensures
        occurs_in(documents, term) <==> exists|k: int|
            0 <= k < postings::corpus_occurrences(documents).len() && (
            #[trigger] postings::corpus_occurrences(documents)[k]).term == term,
    decreases documents.len(),
{
    if documents.len() > 0 {
        let fewer = documents.drop_last();
        let before = postings::corpus_occurrences(fewer);
        let last = postings::document_occurrences(documents.last());
        let events = postings::corpus_occurrences(documents);
        lemma_occurs_in(fewer, term);
        lemma_document_has_term(documents.last(), term);
        if occurs_in(documents, term) {
            let i = choose|i: int| 0 <= i < documents.len() && has_term(#[trigger] documents[i], term);
            if i < fewer.len() {
                assert(has_term(fewer[i], term));
                let k = choose|k: int| 0 <= k < before.len() && (#[trigger] before[k]).term == term;
                assert(events[k].term == term);
            } else {
                let k = choose|k: int| 0 <= k < last.len() && (#[trigger] last[k]).term == term;
                assert(events[before.len() + k].term == term);
            }
        }
        if exists|k: int| 0 <= k < events.len() && (#[trigger] events[k]).term == term {
            let k = choose|k: int| 0 <= k < events.len() && (#[trigger] events[k]).term == term;
            if k < before.len() {
                assert(before[k].term == term);
                let i = choose|i: int| 0 <= i < fewer.len() && has_term(#[trigger] fewer[i], term);
                assert(has_term(documents[i], term));
            } else {
                assert(last[k - before.len()].term == term);
                assert(has_term(documents[documents.len() - 1], term));
            }
        }
    }
}

/// As many terms are counted as are distinct among the documents, and just those.
pub proof fn each_distinct_term_is_counted_once(documents: Seq<DocumentView>)
    ensures
        distinct_terms(documents).finite(),
        postings::vocabulary(postings::corpus_occurrences(documents)).to_set() == distinct_terms(
            documents,
        ),
        postings::vocabulary(postings::corpus_occurrences(documents)).len() == distinct_terms(
            documents,
        ).len(),
{
    let events = postings::corpus_occurrences(documents);
    let words = postings::vocabulary(events);
    postings::lemma_vocabulary(events);
    assert forall|term: Seq<char>| words.contains(term) <==> #[trigger] occurs_in(
        documents,
        term,
    ) by {
        lemma_occurs_in(documents, term);
        a_term_is_found_if_and_only_if_it_occurs(events, term);
    }
    assert(words.to_set() =~= distinct_terms(documents));
    words.unique_seq_to_set();
    vstd::seq_lib::seq_to_set_is_finite(words);
}

/// In whatever order the same documents come, and however often each, as many terms are
/// counted.
pub proof fn the_order_of_documents_does_not_change_the_number_of_terms(
    one: Seq<DocumentView>,
    other: Seq<DocumentView>,
)
    requires
        forall|document: DocumentView|
            #![trigger one.contains(document)]
            #![trigger other.contains(document)]
            one.contains(document) <==> other.contains(document),
    ensures
        postings::vocabulary(postings::corpus_occurrences(one)).len() == postings::vocabulary(
            postings::corpus_occurrences(other),
        ).len(),
{
    each_distinct_term_is_counted_once(one);
    each_distinct_term_is_counted_once(other);
    assert forall|term: Seq<char>| occurs_in(one, term) <==> #[trigger] occurs_in(other, term) by {
        if occurs_in(one, term) {
            let i = choose|i: int| 0 <= i < one.len() && has_term(#[trigger] one[i], term);
            assert(one.contains(one[i]));
            let j = other.index_of(one[i]);
            assert(has_term(other[j], term));
        }
        if occurs_in(other, term) {
            let i = choose|i: int| 0 <= i < other.len() && has_term(#[trigger] other[i], term);
            assert(other.contains(other[i]));
            let j = one.index_of(other[i]);
            assert(has_term(one[j], term));
        }
    }
    assert(distinct_terms(one) =~= distinct_terms(other));
}

/// A document without a new term leaves the terms as they are, their number and their
/// order.
pub proof fn a_document_without_new_terms_adds_none(
    documents: Seq<DocumentView>,
    document: DocumentView,
)
    requires
        forall|term: Seq<char>| #[trigger]
            has_term(document, term) ==> occurs_in(documents, term),
    ensures
        postings::vocabulary(postings::corpus_occurrences(documents.push(document)))
            == postings::vocabulary(postings::corpus_occurrences(documents)),
{
    let more = documents.push(document);
    let before = postings::corpus_occurrences(documents);
    assert(more.drop_last() =~= documents);
    postings::lemma_vocabulary_grows(before, postings::document_occurrences(document));
    each_distinct_term_is_counted_once(documents);
    each_distinct_term_is_counted_once(more);
    assert forall|term: Seq<char>| occurs_in(more, term) <==> #[trigger] occurs_in(
        documents,
        term,
    ) by {
        if occurs_in(more, term) {
            let i = choose|i: int| 0 <= i < more.len() && has_term(#[trigger] more[i], term);
            if i < documents.len() {
                assert(has_term(documents[i], term));
            }
        }
        if occurs_in(documents, term) {
            let i = choose|i: int| 0 <= i < documents.len() && has_term(#[trigger] documents[i], term);
            assert(has_term(more[i], term));
        }
    }
    assert(distinct_terms(more) =~= distinct_terms(documents));
    assert(postings::vocabulary(postings::corpus_occurrences(more)) =~= postings::vocabulary(
        before,
    ));
}

/// Different terms have different numbers, and the numbers are those below the number
/// of terms.
pub proof fn term_numbers_are_dense(events: Seq<Occurrence>)
    requires
        postings::vocabulary(events).len() <= u32::MAX + 1,
    ensures
        forall|t: int|
            0 <= t < postings::vocabulary(events).len() ==> postings::numbered(postings::vocabulary(events)).contains_key(
                #[trigger] postings::vocabulary(events)[t],
            ) && postings::numbered(postings::vocabulary(events))[postings::vocabulary(events)[t]] == t,
        forall|term: Seq<char>| #[trigger]
            postings::numbered(postings::vocabulary(events)).contains_key(term) ==> {
                let t = postings::numbered(postings::vocabulary(events))[term] as int;
                0 <= t < postings::vocabulary(events).len() && postings::vocabulary(events)[t] == term
            },
{
    postings::lemma_vocabulary(events);
    let words = postings::vocabulary(events);
    assert forall|t: int| 0 <= t < words.len() implies postings::numbered(words).contains_key(
        #[trigger] words[t],
    ) && postings::numbered(words)[words[t]] == t by {
        postings::lemma_numbered(words, t);
    }
}

/// Going through the same corpus twice finds every occurrence its place, so that both
/// passes agree and the corpus is indexed.
pub proof fn the_same_corpus_twice_agrees(events: Seq<Occurrence>)
    ensures
        postings::same_counts(events, events),
        postings::placed(events, events) == events,
{
    assert(events + Seq::<Occurrence>::empty() =~= events);
    postings::lemma_same_counts_all_placed(events, events, Seq::empty());
}

/// How many postings the first `n` terms of an index have.
pub open spec fn sum_of_frequencies(index: IndexView, n: int) -> nat
    decreases n,
{
    if n <= 0 {
        0
    } else {
        sum_of_frequencies(index, n - 1) + index.postings(n - 1).len()
    }
}

/// How many positions the postings of the first `n` terms of an index hold.
pub open spec fn sum_of_positions(index: IndexView, n: int) -> nat
    decreases n,
{
    if n <= 0 {
        0
    } else {
        sum_of_positions(index, n - 1) + postings::total(index.postings(n - 1))
    }
}

proof fn lemma_total_of_slices(index: IndexView, t: int, k: int)
    requires
        index.consistent(),
        0 <= t < index.term_postings_start.len() - 1,
        0 <= k <= index.postings(t).len(),
    ensures
        postings::total(index.postings(t).take(k)) == index.posting_positions_start[index.term_postings_start[t]
            + k] - index.posting_positions_start[index.term_postings_start[t] as int],
    decreases k,
{
    let list = index.postings(t);
    let first = index.term_postings_start[t] as int;
    let starts = index.posting_positions_start;
    if k > 0 {
        lemma_total_of_slices(index, t, k - 1);
        assert(list.take(k).drop_last() =~= list.take(k - 1));
        assert(list.take(k).last() == list[k - 1]);
        assert(index.term_postings_start[t + 1] <= index.term_postings_start[
            index.term_postings_start.len() - 1]);
        assert(starts[first + k - 1] <= starts[first + k]);
        assert(starts[first + k] <= starts[starts.len() - 1]);
    }
}

proof fn lemma_sums(index: IndexView, n: int)
    requires
        index.consistent(),
        0 <= n < index.term_postings_start.len(),
    ensures
        sum_of_frequencies(index, n) == index.term_postings_start[n],
        sum_of_positions(index, n) == index.posting_positions_start[index.term_postings_start[n] as int],
    decreases n,
{
    if n > 0 {
        lemma_sums(index, n - 1);
        let list = index.postings(n - 1);
        assert(index.term_postings_start[n - 1] <= index.term_postings_start[n]);
        lemma_total_of_slices(index, n - 1, list.len() as int);
        assert(list.take(list.len() as int) =~= list);
    }
}

/// The statistics add up: the postings are those of all terms together, and the
/// positions are those of all postings together.
pub proof fn the_statistics_add_up(index: IndexView)
    requires
        index.consistent(),
    ensures
        index.posting_docs.len() == sum_of_frequencies(index, index.dictionary.dom().len() as int),
        index.positions.len() == sum_of_positions(index, index.dictionary.dom().len() as int),
{
    lemma_sums(index, index.term_postings_start.len() - 1);
}

/// Between offsets that start at zero, every place belongs to one of the slices.
proof fn lemma_slice_of(starts: Seq<u32>, n: int, x: int) -> (t: int)
    requires
        0 <= n < starts.len(),
        starts[0] == 0,
        0 <= x < starts[n],
    ensures
        0 <= t < n,
        starts[t] <= x < starts[t + 1],
    decreases n,
{
    if x < starts[n - 1] {
        lemma_slice_of(starts, n - 1, x)
    } else {
        n - 1
    }
}

proof fn lemma_same_sums(one: IndexView, other: IndexView, n: int)
    requires
        forall|t: int| 0 <= t < n ==> #[trigger] one.postings(t) == other.postings(t),
    ensures
        sum_of_frequencies(one, n) == sum_of_frequencies(other, n),
        sum_of_positions(one, n) == sum_of_positions(other, n),
    decreases n,
{
    if n > 0 {
        lemma_same_sums(one, other, n - 1);
        assert(one.postings(n - 1) == other.postings(n - 1));
    }
}

/// Where a posting's positions start follows from the postings alone.
proof fn lemma_position_start(index: IndexView, t: int, i: int)
    requires
        index.consistent(),
        0 <= t < index.term_postings_start.len() - 1,
        0 <= i <= index.postings(t).len(),
    ensures
        index.posting_positions_start[index.term_postings_start[t] + i] == sum_of_positions(
            index,
            t,
        ) + postings::total(index.postings(t).take(i)),
{
    lemma_sums(index, t);
    lemma_total_of_slices(index, t, i);
}

/// What an index holds follows from its dictionary, the number of its documents and
/// the postings of its terms: two indexes that agree in these hold the same.
pub proof fn an_index_is_determined_by_its_postings(one: IndexView, other: IndexView)
    requires
        one.consistent(),
        other.consistent(),
        one.dictionary == other.dictionary,
        one.documents == other.documents,
        forall|t: int|
            0 <= t < one.dictionary.dom().len() ==> #[trigger] one.postings(t)
                == other.postings(t),
    ensures
        one == other,
{
    let n = one.dictionary.dom().len() as int;
    let a = one.term_postings_start;
    let b = other.term_postings_start;
    assert forall|t: int| 0 <= t < a.len() implies #[trigger] a[t] == b[t] by {
        lemma_same_sums(one, other, t);
        lemma_sums(one, t);
        lemma_sums(other, t);
    }
    assert(a =~= b);
    assert forall|x: int| 0 <= x < one.posting_docs.len() implies #[trigger] one.posting_docs[x]
        == other.posting_docs[x] by {
        let t = lemma_slice_of(a, n, x);
        assert(one.postings(t) == other.postings(t));
        assert(one.postings(t)[x - a[t]] == other.postings(t)[x - a[t]]);
    }
    assert(one.posting_docs =~= other.posting_docs);
    let c = one.posting_positions_start;
    let d = other.posting_positions_start;
    lemma_same_sums(one, other, n);
    lemma_sums(one, n);
    lemma_sums(other, n);
    assert forall|x: int| 0 <= x < c.len() implies #[trigger] c[x] == d[x] by {
        if x < one.posting_docs.len() {
            let t = lemma_slice_of(a, n, x);
            assert(one.postings(t) == other.postings(t));
            lemma_same_sums(one, other, t);
            lemma_position_start(one, t, x - a[t]);
            lemma_position_start(other, t, x - a[t]);
        }
    }
    assert(c =~= d);
    assert forall|y: int| 0 <= y < one.positions.len() implies #[trigger] one.positions[y]
        == other.positions[y] by {
        let x = lemma_slice_of(c, one.posting_docs.len() as int, y);
        let t = lemma_slice_of(a, n, x);
        assert(one.postings(t) == other.postings(t));
        let i = x - a[t];
        assert(one.postings(t)[i] == other.postings(t)[i]);
        assert(c[x + 1] <= c[c.len() - 1]);
        assert(one.positions[y] == one.postings(t)[i].positions[y - c[x]]);
        assert(other.positions[y] == other.postings(t)[i].positions[y - c[x]]);
    }
    assert(one.positions =~= other.positions);
}

/// Indexing is deterministic: over the same corpus two indexes hold the same, and so
/// are saved as the same bytes.
pub proof fn the_same_corpus_makes_the_same_index(
    one: IndexView,
    other: IndexView,
    counted: Seq<Occurrence>,
    events: Seq<Occurrence>,
    documents: u32,
)
    requires
        one.consistent(),
        other.consistent(),
        postings::indexes(one, counted, events, documents),
        postings::indexes(other, counted, events, documents),
    ensures
        one == other,
{
    let words = postings::vocabulary(counted);
    postings::lemma_vocabulary(counted);
    postings::lemma_numbered_len(words);
    assert forall|t: int| 0 <= t < one.dictionary.dom().len() implies #[trigger] one.postings(t)
        == other.postings(t) by {
        assert(words[t] == words[t]);
    }
    an_index_is_determined_by_its_postings(one, other);
}

} // verus!
