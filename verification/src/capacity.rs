//! What can be indexed and saved, and what an index then holds, said over the documents and
//! their terms: nothing is refused but what 32 bits cannot count or place.

use crate::agreement;
use crate::codec;
use crate::corpus::{DocMetaView, Document, DocumentView};
use crate::dictionary;
use crate::error::Error;
use crate::format::SearchIndexView;
use crate::index;
use crate::index::Index;
use crate::ordering;
use crate::postings;
use crate::postings::{Occurrence, PostingView};
use crate::reading;
use crate::roundtrip;
use crate::text;
use crate::tokenize;
use vstd::prelude::*;
use vstd::utf8::*;

verus! {

/// Whether the place where a document's body begins, a hundred positions behind its title,
/// and the position of its last term are at most the largest number of 32 bits.
pub open spec fn placeable(document: DocumentView) -> bool {
    let title = tokenize::terms(document.title).len();
    let body = tokenize::terms(document.body).len();
    &&& title + 100 <= 0xffff_ffff
    &&& body == 0 || title + 100 + body - 1 <= 0xffff_ffff
}

/// How many terms the documents have, each counted as often as it occurs.
pub open spec fn number_of_terms(documents: Seq<DocumentView>) -> nat
    decreases documents.len(),
{
    if documents.len() == 0 {
        0
    } else {
        number_of_terms(documents.drop_last()) + tokenize::terms(documents.last().title).len()
            + tokenize::terms(documents.last().body).len()
    }
}

/// A document fits if and only if its positions do: no limit is set on titles and bodies
/// but the one that a position of 32 bits sets.
pub proof fn a_document_fits_where_its_positions_do(document: DocumentView)
    ensures
        postings::positions_fit(document) <==> placeable(document),
{
}

proof fn lemma_number_of_terms(documents: Seq<DocumentView>)
    ensures
        postings::corpus_occurrences(documents).len() == number_of_terms(documents),
    decreases documents.len(),
{
    if documents.len() > 0 {
        lemma_number_of_terms(documents.drop_last());
    }
}

/// Where a document's terms stand: the title's at the positions from zero on, the body's
/// from a hundred behind the title's end on, every one of them, in order.
pub proof fn every_term_has_its_place(document: DocumentView)
    requires
        placeable(document),
    ensures
        ({
            let events = postings::document_occurrences(document);
            let title = tokenize::terms(document.title);
            let body = tokenize::terms(document.body);
            &&& events.len() == title.len() + body.len()
            &&& forall|k: int|
                0 <= k < title.len() ==> #[trigger] events[k] == (Occurrence {
                    term: title[k],
                    doc: document.id,
                    position: k as u32,
                })
            &&& forall|k: int|
                0 <= k < title.len() ==> (#[trigger] events[k]).position == k
            &&& forall|k: int|
                title.len() <= k < events.len() ==> (#[trigger] events[k]).term == body[k
                    - title.len()] && events[k].doc == document.id && events[k].position == k + 100
        }),
{
}

/// What the documents of a pass hold.
pub open spec fn documents_of(pass: Seq<Result<Document, Error>>) -> Seq<DocumentView> {
    pass.map_values(|item: Result<Document, Error>| item->Ok_0@)
}

/// Whether no document of a pass failed.
pub open spec fn none_failed(pass: Seq<Result<Document, Error>>) -> bool {
    forall|i: int| 0 <= i < pass.len() ==> (#[trigger] pass[i]) is Ok
}

proof fn lemma_no_failure(pass: Seq<Result<Document, Error>>)
    requires
        none_failed(pass),
    ensures
        index::first_failure(pass) is None,
    decreases pass.len(),
{
    if pass.len() > 0 {
        assert(pass[0] is Ok);
        assert forall|i: int| 0 <= i < pass.drop_first().len() implies (
        #[trigger] pass.drop_first()[i]) is Ok by {
            assert(pass[i + 1] is Ok);
        }
        lemma_no_failure(pass.drop_first());
    }
}

proof fn lemma_failure(pass: Seq<Result<Document, Error>>, k: int)
    requires
        0 <= k < pass.len(),
        pass[k] is Err,
        forall|i: int| 0 <= i < k ==> (#[trigger] pass[i]) is Ok,
    ensures
        index::first_failure(pass) == Some(pass[k]->Err_0),
    decreases k,
{
    if k > 0 {
        assert(pass[0] is Ok);
        let rest = pass.drop_first();
        assert(rest[k - 1] == pass[k]);
        assert forall|i: int| 0 <= i < k - 1 implies (#[trigger] rest[i]) is Ok by {
            assert(pass[i + 1] is Ok);
        }
        lemma_failure(rest, k - 1);
    }
}

/// The same documents twice are always indexed, unless a position or the number of all
/// terms together exceeds 32 bits. The index counts every document and every term.
pub proof fn the_same_documents_twice_are_indexed(
    index: Result<Index, Error>,
    counting: Vec<Result<Document, Error>>,
    filling: Vec<Result<Document, Error>>,
)
    requires
        index::built(index, Ok(counting), Ok(filling)),
        none_failed(counting@),
        none_failed(filling@),
        documents_of(counting@) == documents_of(filling@),
        counting@.len() <= u32::MAX,
    ensures
        ({
            let documents = documents_of(counting@);
            &&& index is Ok <==> (forall|i: int|
                0 <= i < documents.len() ==> placeable(#[trigger] documents[i]))
                && number_of_terms(documents) <= 0xffff_ffff
            &&& index is Err ==> index->Err_0 == Error::IndexTooLarge
            &&& index is Ok ==> {
                &&& index->Ok_0@.documents == documents.len()
                &&& index->Ok_0@.positions.len() == number_of_terms(documents)
                &&& index->Ok_0@.dictionary.dom() == agreement::distinct_terms(documents)
            }
        }),
{
    let documents = documents_of(counting@);
    assert(index::views(counting@) =~= documents);
    assert(index::views(filling@) =~= documents);
    lemma_no_failure(counting@);
    lemma_no_failure(filling@);
    lemma_number_of_terms(documents);
    assert(index::all_fit(documents) <==> forall|i: int|
        0 <= i < documents.len() ==> placeable(#[trigger] documents[i])) by {
        assert forall|i: int| 0 <= i < documents.len() implies postings::positions_fit(
            #[trigger] documents[i],
        ) == placeable(documents[i]) by {
            a_document_fits_where_its_positions_do(documents[i]);
        }
    }
    assert(index::agree(documents, documents));
    if index is Ok {
        let words = postings::vocabulary(postings::corpus_occurrences(documents));
        agreement::each_distinct_term_is_counted_once(documents);
        assert(index->Ok_0@.dictionary.dom() =~= words.to_set());
    }
}

/// Passes that are not the same to an index are refused: where they gave another number of
/// documents, or at some place one with another id or other terms, there is no index.
pub proof fn passes_that_differ_are_refused(
    index: Result<Index, Error>,
    counting: Vec<Result<Document, Error>>,
    filling: Vec<Result<Document, Error>>,
)
    requires
        index::built(index, Ok(counting), Ok(filling)),
        none_failed(counting@),
        none_failed(filling@),
        index is Ok,
    ensures
        counting@.len() == filling@.len(),
        forall|i: int|
            0 <= i < counting@.len() ==> {
                let one = (#[trigger] documents_of(counting@)[i]);
                let other = documents_of(filling@)[i];
                &&& one.id == other.id
                &&& tokenize::terms(one.title) == tokenize::terms(other.title)
                &&& tokenize::terms(one.body) == tokenize::terms(other.body)
            },
{
    lemma_no_failure(counting@);
    lemma_no_failure(filling@);
    let first = index::views(counting@);
    let second = index::views(filling@);
    assert(first =~= documents_of(counting@));
    assert(second =~= documents_of(filling@));
    assert(index::agree(first, second));
    assert forall|i: int| 0 <= i < counting@.len() implies {
        let one = (#[trigger] documents_of(counting@)[i]);
        let other = documents_of(filling@)[i];
        &&& one.id == other.id
        &&& tokenize::terms(one.title) == tokenize::terms(other.title)
        &&& tokenize::terms(one.body) == tokenize::terms(other.body)
    } by {
        assert(index::same_to_a_pass(first[i], second[i]));
    }
}

/// What goes wrong in a pass is what is told: that it could not be begun, or the first of
/// its documents that could not be had.
pub proof fn the_first_failure_is_told(
    index: Result<Index, Error>,
    counting: Vec<Result<Document, Error>>,
    filling: Result<Vec<Result<Document, Error>>, Error>,
    k: int,
)
    requires
        index::built(index, Ok(counting), filling),
        0 <= k < counting@.len(),
        counting@[k] is Err,
        forall|i: int| 0 <= i < k ==> (#[trigger] counting@[i]) is Ok,
    ensures
        index == Err::<Index, Error>(counting@[k]->Err_0),
{
    lemma_failure(counting@, k);
}

/// How many of the events have a term that is not among those counted.
pub proof fn only_unknown_terms_are_unexpected(counted: Seq<Occurrence>, seen: Seq<Occurrence>)
    ensures
        postings::unknown(counted, seen) == seen.filter(
            |event: Occurrence| forall|k: int|
                0 <= k < counted.len() ==> (#[trigger] counted[k]).term != event.term,
        ).len(),
    decreases seen.len(),
{
    let new = |event: Occurrence| forall|k: int|
        0 <= k < counted.len() ==> (#[trigger] counted[k]).term != event.term;
    reveal(Seq::filter);
    if seen.len() > 0 {
        only_unknown_terms_are_unexpected(counted, seen.drop_last());
        agreement::a_term_is_found_if_and_only_if_it_occurs(counted, seen.last().term);
        assert(new(seen.last()) <==> !postings::vocabulary(counted).contains(seen.last().term));
    }
}

proof fn lemma_term_positions(events: Seq<Occurrence>, term: Seq<char>, position: u32)
    ensures
        agreement::term_positions(events, term).contains(position) <==> exists|k: int|
            0 <= k < events.len() && (#[trigger] events[k]).term == term && events[k].position
                == position,
    decreases events.len(),
{
    let all = agreement::term_positions(events, term);
    if events.len() == 0 {
        assert(all =~= Seq::<u32>::empty());
    } else {
        let fewer = events.drop_last();
        let before = agreement::term_positions(fewer, term);
        let event = events.last();
        lemma_term_positions(fewer, term, position);
        if all.contains(position) {
            let i = all.index_of(position);
            if i < before.len() {
                assert(before[i] == position);
                let k = choose|k: int|
                    0 <= k < fewer.len() && (#[trigger] fewer[k]).term == term && fewer[k].position
                        == position;
                assert(events[k].term == term && events[k].position == position);
            } else {
                assert(events[events.len() - 1].term == term);
            }
        }
        if exists|k: int|
            0 <= k < events.len() && (#[trigger] events[k]).term == term && events[k].position
                == position {
            let k = choose|k: int|
                0 <= k < events.len() && (#[trigger] events[k]).term == term && events[k].position
                    == position;
            if k < fewer.len() {
                assert(fewer[k].term == term);
                let i = before.index_of(position);
                assert(all[i] == position);
            } else {
                assert(all[before.len() as int] == position);
            }
        }
    }
}

proof fn lemma_scan_finds(documents: Seq<DocumentView>, term: Seq<char>, i: int) -> (j: int)
    requires
        0 <= i < documents.len(),
        agreement::term_positions(postings::document_occurrences(documents[i]), term).len() > 0,
    ensures
        0 <= j < agreement::scan(documents, term).len(),
        agreement::scan(documents, term)[j].doc == documents[i].id,
        agreement::scan(documents, term)[j].positions == agreement::term_positions(
            postings::document_occurrences(documents[i]),
            term,
        ),
    decreases documents.len(),
{
    let before = documents.drop_last();
    if i < before.len() {
        let j = lemma_scan_finds(before, term, i);
        assert(agreement::scan(documents, term)[j] == agreement::scan(before, term)[j]);
        j
    } else {
        agreement::scan(documents, term).len() - 1
    }
}

/// The postings that an index has under a term: none where it does not know the term.
pub open spec fn postings_under(index: Index, term: Seq<char>) -> Seq<PostingView> {
    if index@.dictionary.contains_key(term) {
        index@.postings(index@.dictionary[term] as int)
    } else {
        seq![]
    }
}

/// Whether `postings` have `position` in document `doc`.
pub open spec fn have_position(postings: Seq<PostingView>, doc: u32, position: u32) -> bool {
    exists|j: int|
        0 <= j < postings.len() && (#[trigger] postings[j]).doc == doc
            && postings[j].positions.contains(position)
}

/// What an index answers: a document has a term at a position if and only if the term is
/// the one at that place of its title, or, a hundred positions behind the title's end, of
/// its body.
pub proof fn an_index_knows_every_place_of_every_term(
    index: Result<Index, Error>,
    counting: Vec<Result<Document, Error>>,
    filling: Vec<Result<Document, Error>>,
    term: Seq<char>,
    i: int,
    position: u32,
)
    requires
        index::built(index, Ok(counting), Ok(filling)),
        none_failed(counting@),
        none_failed(filling@),
        index is Ok,
        agreement::in_corpus_order(documents_of(filling@)),
        0 <= i < filling@.len(),
    ensures
        ({
            let document = documents_of(filling@)[i];
            let title = tokenize::terms(document.title);
            let body = tokenize::terms(document.body);
            let start = title.len() + 100;
            have_position(postings_under(index->Ok_0, term), document.id, position) <==> {
                ||| position < title.len() && title[position as int] == term
                ||| start <= position < start + body.len() && body[position - start] == term
            }
        }),
{
    let documents = documents_of(filling@);
    lemma_no_failure(counting@);
    lemma_no_failure(filling@);
    assert(index::views(filling@) =~= documents);
    let counted = postings::corpus_occurrences(index::views(counting@));
    agreement::the_same_corpus_twice_agrees(counted);
    let view = index->Ok_0@;
    agreement::a_built_index_answers_as_a_scan(
        view,
        counted,
        documents,
        counting@.len() as u32,
        term,
    );
    let list = agreement::scan(documents, term);
    assert(postings_under(index->Ok_0, term) =~= list);
    let document = documents[i];
    let events = postings::document_occurrences(document);
    let title = tokenize::terms(document.title);
    let body = tokenize::terms(document.body);
    let start = title.len() + 100;
    assert(postings::positions_fit(document));
    a_document_fits_where_its_positions_do(document);
    every_term_has_its_place(document);
    lemma_term_positions(events, term, position);
    let there = agreement::term_positions(events, term);
    if have_position(list, document.id, position) {
        let j = choose|j: int|
            0 <= j < list.len() && (#[trigger] list[j]).doc == document.id
                && list[j].positions.contains(position);
        let n = agreement::lemma_scanned(documents, term, j);
        assert(n == i) by {
            if n < i {
                assert(documents[n].id < documents[i].id);
            }
            if i < n {
                assert(documents[i].id < documents[n].id);
            }
        }
        assert(there.contains(position));
        let k = choose|k: int|
            0 <= k < events.len() && (#[trigger] events[k]).term == term && events[k].position
                == position;
        assert(events[k].position == position);
    }
    if position < title.len() && title[position as int] == term {
        assert(events[position as int].term == term && events[position as int].position
            == position);
    }
    if start <= position < start + body.len() && body[position - start] == term {
        assert(events[position - 100].term == term && events[position - 100].position == position);
    }
    if there.contains(position) {
        let j = lemma_scan_finds(documents, term, i);
        assert(list[j].doc == document.id && list[j].positions.contains(position));
    }
}

/// The postings under a term are in order, of documents that are there: the documents'
/// numbers ascend, so do the positions in each of them, and there is at least one.
pub proof fn an_index_lists_documents_and_positions_in_order(
    index: Result<Index, Error>,
    counting: Vec<Result<Document, Error>>,
    filling: Vec<Result<Document, Error>>,
    term: Seq<char>,
)
    requires
        index::built(index, Ok(counting), Ok(filling)),
        none_failed(counting@),
        none_failed(filling@),
        index is Ok,
        agreement::in_corpus_order(documents_of(filling@)),
    ensures
        ({
            let list = postings_under(index->Ok_0, term);
            &&& forall|j: int, k: int|
                0 <= j < k < list.len() ==> (#[trigger] list[j]).doc < (#[trigger] list[k]).doc
            &&& forall|j: int|
                0 <= j < list.len() ==> (#[trigger] list[j]).positions.len() > 0
                    && agreement::strictly_ascending(list[j].positions)
            &&& forall|j: int|
                0 <= j < list.len() ==> exists|i: int|
                    0 <= i < filling@.len() && (#[trigger] documents_of(filling@)[i]).id == (
                    #[trigger] list[j]).doc
        }),
{
    let documents = documents_of(filling@);
    lemma_no_failure(counting@);
    lemma_no_failure(filling@);
    assert(index::views(filling@) =~= documents);
    let counted = postings::corpus_occurrences(index::views(counting@));
    agreement::the_same_corpus_twice_agrees(counted);
    let view = index->Ok_0@;
    agreement::a_built_index_answers_as_a_scan(
        view,
        counted,
        documents,
        counting@.len() as u32,
        term,
    );
    agreement::the_index_agrees_with_a_scan(documents, term);
    let list = agreement::scan(documents, term);
    assert(postings_under(index->Ok_0, term) =~= list);
    agreement::postings_are_sorted(documents, term);
    assert forall|j: int| 0 <= j < list.len() implies exists|i: int|
        0 <= i < filling@.len() && (#[trigger] documents[i]).id == (#[trigger] list[j]).doc by {
        let i = agreement::lemma_scanned(documents, term, j);
        assert(documents[i].id == list[j].doc);
    }
}

/// The bytes of all the texts together.
pub open spec fn bytes_of_all(texts: Seq<Seq<char>>) -> nat {
    encode_utf8(texts.flatten()).len()
}

proof fn lemma_bytes_of_all(texts: Seq<Seq<char>>)
    ensures
        codec::bytes_in(texts) == bytes_of_all(texts),
    decreases texts.len(),
{
    if texts.len() == 0 {
        assert(texts.flatten() =~= Seq::<char>::empty());
    } else {
        let before = texts.drop_last();
        lemma_bytes_of_all(before);
        assert(texts =~= before.push(texts.last()));
        before.lemma_flatten_push(texts.last());
        text::lemma_encode_concat(before.flatten(), texts.last());
        codec::lemma_bytes_before_prefix(texts, before.len() as int);
    }
}

proof fn lemma_bytes_of_entries(list: Seq<(Seq<char>, u32)>)
    ensures
        dictionary::bytes_of_list(list) == codec::bytes_in(
            list.map_values(|entry: (Seq<char>, u32)| entry.0),
        ) + list.len() * (vstd::layout::size_of::<Box<str>>() + 5),
    decreases list.len(),
{
    let terms = list.map_values(|entry: (Seq<char>, u32)| entry.0);
    let each = vstd::layout::size_of::<Box<str>>() + 5;
    if list.len() > 0 {
        let fewer = list.drop_last();
        lemma_bytes_of_entries(fewer);
        assert(fewer.map_values(|entry: (Seq<char>, u32)| entry.0) =~= terms.drop_last());
        codec::lemma_bytes_before_prefix(terms, fewer.len() as int);
        assert(list.len() * each == fewer.len() * each + each) by (nonlinear_arith)
            requires
                list.len() == fewer.len() + 1,
        ;
    }
}

proof fn lemma_listed(map: Map<Seq<char>, u32>, terms: Seq<Seq<char>>)
    requires
        terms.no_duplicates(),
        terms.to_set() == map.dom(),
    ensures
        dictionary::lists(Seq::new(terms.len(), |i: int| (terms[i], map[terms[i]])), map),
{
    let list = Seq::new(terms.len(), |i: int| (terms[i], map[terms[i]]));
    assert forall|i: int| 0 <= i < list.len() implies map.contains_key((#[trigger] list[i]).0)
        && map[list[i].0] == list[i].1 by {
        assert(terms.to_set().contains(terms[i]));
    }
    assert forall|term: Seq<char>| #[trigger] map.contains_key(term) implies exists|i: int|
        0 <= i < list.len() && (#[trigger] list[i]).0 == term by {
        assert(terms.to_set().contains(term));
        let i = terms.index_of(term);
        assert(list[i].0 == term);
    }
}

/// In whatever order the terms of a dictionary are listed, they have the same bytes.
proof fn lemma_bytes_of_terms(map: Map<Seq<char>, u32>, terms: Seq<Seq<char>>)
    requires
        map.dom().finite(),
        terms.no_duplicates(),
        terms.to_set() == map.dom(),
    ensures
        codec::bytes_in(crate::format::sorted_terms(map)) == bytes_of_all(terms),
        terms.len() == map.dom().len(),
{
    let list = Seq::new(terms.len(), |i: int| (terms[i], map[terms[i]]));
    let sorted = ordering::sorted_entries(map);
    roundtrip::a_dictionary_can_be_sorted(map);
    lemma_listed(map, terms);
    dictionary::lemma_bytes_of_any_list(list, sorted, map);
    lemma_bytes_of_entries(list);
    lemma_bytes_of_entries(sorted);
    assert(list.map_values(|entry: (Seq<char>, u32)| entry.0) =~= terms);
    lemma_bytes_of_all(terms);
    terms.unique_seq_to_set();
}

/// What an index roughly takes: four bytes for each entry of its arrays, and for each of its
/// terms its bytes, a pointer to them, four bytes for its number and one more.
pub proof fn an_index_takes_four_bytes_per_entry(
    index: postings::IndexView,
    terms: Seq<Seq<char>>,
)
    requires
        index.consistent(),
        terms.no_duplicates(),
        terms.to_set() == index.dictionary.dom(),
    ensures
        index::index_bytes(index) == 4 * (index.term_postings_start.len()
            + index.posting_docs.len() + index.posting_positions_start.len()
            + index.positions.len()) + bytes_of_all(terms) + terms.len() * (vstd::layout::size_of::<
            Box<str>,
        >() + 5),
{
    let map = index.dictionary;
    let list = Seq::new(terms.len(), |i: int| (terms[i], map[terms[i]]));
    lemma_listed(map, terms);
    dictionary::lemma_dictionary_bytes(list, map);
    lemma_bytes_of_entries(list);
    assert(list.map_values(|entry: (Seq<char>, u32)| entry.0) =~= terms);
    lemma_bytes_of_all(terms);
}

/// Saving fails only where 32 bits do not suffice: a bundle is saved if and only if the
/// number of its documents, terms, postings and positions, and the bytes of all its terms,
/// of all its external ids and of all its titles are each at most the largest number of 32
/// bits. What was saved is read back as it was, whatever follows it.
pub proof fn what_32_bits_can_count_is_saved_and_read_back(
    view: SearchIndexView,
    terms: Seq<Seq<char>>,
    behind: Seq<u8>,
)
    requires
        view.index.consistent(),
        terms.no_duplicates(),
        terms.to_set() == view.index.dictionary.dom(),
    ensures
        crate::format::addressable(view) <==> {
            &&& view.documents.len() <= 0xffff_ffff
            &&& terms.len() <= 0xffff_ffff
            &&& view.index.posting_docs.len() <= 0xffff_ffff
            &&& view.index.positions.len() <= 0xffff_ffff
            &&& bytes_of_all(terms) <= 0xffff_ffff
            &&& bytes_of_all(view.documents.map_values(|meta: DocMetaView| meta.external_id))
                <= 0xffff_ffff
            &&& bytes_of_all(view.documents.map_values(|meta: DocMetaView| meta.title))
                <= 0xffff_ffff
        },
        crate::format::addressable(view) ==> reading::parsed(
            crate::format::file_bytes(view) + behind,
        ) == Ok::<SearchIndexView, reading::FileFault>(view),
{
    lemma_bytes_of_terms(view.index.dictionary, terms);
    let ids = view.documents.map_values(|meta: DocMetaView| meta.external_id);
    let titles = view.documents.map_values(|meta: DocMetaView| meta.title);
    assert(ids =~= crate::format::external_ids(view.documents));
    assert(titles =~= crate::format::titles(view.documents));
    lemma_bytes_of_all(ids);
    lemma_bytes_of_all(titles);
    if crate::format::addressable(view) {
        roundtrip::reading_gives_back_what_was_written(view, behind);
    }
}

proof fn lemma_number_in_place(values: Seq<u32>, i: int)
    requires
        0 <= i < values.len(),
    ensures
        codec::numbers_bytes(values).len() == 4 * values.len(),
        codec::numbers_bytes(values).subrange(4 * i, 4 * i + 4) == codec::number_bytes(values[i]),
    decreases values.len(),
{
    codec::lemma_numbers_length(values);
    let before = values.drop_last();
    codec::lemma_numbers_length(before);
    let all = codec::numbers_bytes(values);
    if i < before.len() {
        lemma_number_in_place(before, i);
        assert(all.subrange(4 * i, 4 * i + 4) =~= codec::numbers_bytes(before).subrange(
            4 * i,
            4 * i + 4,
        ));
    } else {
        assert(all.subrange(4 * i, 4 * i + 4) =~= codec::number_bytes(values[i]));
    }
}

/// Whether the four bytes from `at` on are `value`, the least significant first.
pub open spec fn says(bytes: Seq<u8>, at: int, value: nat) -> bool {
    bytes[at] + 256 * bytes[at + 1] + 65536 * bytes[at + 2] + 16777216 * bytes[at + 3] == value
}

proof fn lemma_header_number(magic: Seq<u8>, values: Seq<u32>, behind: Seq<u8>, i: int)
    requires
        magic.len() == 8,
        0 <= i < values.len(),
    ensures
        says(magic + codec::numbers_bytes(values) + behind, 8 + 4 * i, values[i] as nat),
{
    lemma_number_in_place(values, i);
    let numbers = codec::numbers_bytes(values);
    let whole = magic + numbers + behind;
    let four = numbers.subrange(4 * i, 4 * i + 4);
    assert(four[0] == whole[8 + 4 * i]);
    assert(four[1] == whole[8 + 4 * i + 1]);
    assert(four[2] == whole[8 + 4 * i + 2]);
    assert(four[3] == whole[8 + 4 * i + 3]);
    lemma_number_says(values[i]);
}

proof fn lemma_number_says(value: u32)
    ensures
        says(codec::number_bytes(value), 0, value as nat),
        codec::number_bytes(value).len() == 4,
{
    let q = value / 0x100;
    let r = value / 0x1_0000;
    let t = value / 0x100_0000;
    assert(value == 0x100 * q + value % 256);
    assert(q / 256 == r && r / 256 == t);
    assert(q == 0x100 * r + q % 256);
    assert(r == 0x100 * t + r % 256);
    assert(t < 256);
}

/// A file begins with `BOOLIDX` and a byte of one, the version, which is one, four bytes of
/// zero, and its counts: stored documents, terms, postings, positions, bytes of terms, of
/// external ids and of titles, and indexed documents.
pub proof fn a_file_begins_with_its_counts(view: SearchIndexView, terms: Seq<Seq<char>>)
    requires
        view.index.consistent(),
        crate::format::addressable(view),
        terms.no_duplicates(),
        terms.to_set() == view.index.dictionary.dom(),
    ensures
        ({
            let bytes = crate::format::file_bytes(view);
            &&& bytes.len() >= 48
            &&& bytes.take(8) == seq![
                'B' as u8,
                'O' as u8,
                'O' as u8,
                'L' as u8,
                'I' as u8,
                'D' as u8,
                'X' as u8,
                1u8,
            ]
            &&& says(bytes, 8, 1)
            &&& says(bytes, 12, 0)
            &&& says(bytes, 16, view.documents.len())
            &&& says(bytes, 20, terms.len())
            &&& says(bytes, 24, view.index.posting_docs.len())
            &&& says(bytes, 28, view.index.positions.len())
            &&& says(bytes, 32, bytes_of_all(terms))
            &&& says(
                bytes,
                36,
                bytes_of_all(view.documents.map_values(|meta: DocMetaView| meta.external_id)),
            )
            &&& says(
                bytes,
                40,
                bytes_of_all(view.documents.map_values(|meta: DocMetaView| meta.title)),
            )
            &&& says(bytes, 44, view.index.documents as nat)
        }),
{
    let bytes = crate::format::file_bytes(view);
    let counts = crate::format::counts_of(view);
    let magic = crate::format::magic();
    let values = seq![
        crate::format::VERSION,
        0,
        counts.stored_documents,
        counts.terms,
        counts.postings,
        counts.positions,
        counts.term_bytes,
        counts.external_bytes,
        counts.title_bytes,
        counts.indexed_documents,
    ];
    codec::lemma_numbers_length(values);
    let behind = crate::format::dictionary_section(view.index.dictionary)
        + crate::format::arrays_section(view.index) + crate::format::documents_section(
        view.documents,
    );
    assert(bytes =~= magic + codec::numbers_bytes(values) + behind);
    assert(bytes.take(8) =~= magic);
    lemma_bytes_of_terms(view.index.dictionary, terms);
    let ids = view.documents.map_values(|meta: DocMetaView| meta.external_id);
    let titles = view.documents.map_values(|meta: DocMetaView| meta.title);
    assert(ids =~= crate::format::external_ids(view.documents));
    assert(titles =~= crate::format::titles(view.documents));
    lemma_bytes_of_all(ids);
    lemma_bytes_of_all(titles);
    lemma_header_number(magic, values, behind, 0);
    lemma_header_number(magic, values, behind, 1);
    lemma_header_number(magic, values, behind, 2);
    lemma_header_number(magic, values, behind, 3);
    lemma_header_number(magic, values, behind, 4);
    lemma_header_number(magic, values, behind, 5);
    lemma_header_number(magic, values, behind, 6);
    lemma_header_number(magic, values, behind, 7);
    lemma_header_number(magic, values, behind, 8);
    lemma_header_number(magic, values, behind, 9);
}

/// Nothing is read but what begins as an index file of this version does: bytes that begin
/// otherwise are refused for that, and those of another version for their version.
pub proof fn only_index_files_of_this_version_are_read(bytes: Seq<u8>, version: u32)
    ensures
        ({
            let genuine = bytes.take(8) == seq![
                'B' as u8,
                'O' as u8,
                'O' as u8,
                'L' as u8,
                'I' as u8,
                'D' as u8,
                'X' as u8,
                1u8,
            ];
            &&& bytes.len() < 48 ==> reading::parsed(bytes) == Err::<
                SearchIndexView,
                reading::FileFault,
            >(reading::FileFault::Truncated)
            &&& bytes.len() >= 48 && !genuine ==> reading::parsed(bytes) == Err::<
                SearchIndexView,
                reading::FileFault,
            >(reading::FileFault::WrongMagic)
            &&& bytes.len() >= 48 && genuine && says(bytes, 8, version as nat) && version != 1
                ==> reading::parsed(bytes) == Err::<SearchIndexView, reading::FileFault>(
                reading::FileFault::WrongVersion(version),
            )
        }),
{
    let magic = seq![
        'B' as u8,
        'O' as u8,
        'O' as u8,
        'L' as u8,
        'I' as u8,
        'D' as u8,
        'X' as u8,
        1u8,
    ];
    assert(magic =~= crate::format::magic());
}

/// What is read agrees with itself and with its header: there are as many documents, terms,
/// postings and positions as the header says, the terms end where it says, and the parts of
/// the index fit together. Bytes of which that cannot be said are refused.
pub proof fn what_is_read_agrees_with_its_header(bytes: Seq<u8>)
    requires
        reading::parsed(bytes) is Ok,
    ensures
        ({
            let view = reading::parsed(bytes)->Ok_0;
            let terms = view.index.dictionary.dom().len();
            &&& bytes.len() >= 48
            &&& view.index.consistent()
            &&& says(bytes, 8, 1)
            &&& says(bytes, 16, view.documents.len())
            &&& says(bytes, 20, terms)
            &&& says(bytes, 24, view.index.posting_docs.len())
            &&& says(bytes, 28, view.index.positions.len())
            &&& says(bytes, 44, view.index.documents as nat)
            &&& forall|length: nat| #[trigger]
                says(bytes, 32, length) ==> says(bytes, 48 + 4 * terms as int, length)
        }),
{
    let counts = reading::header_in(bytes)->Ok_0;
    let map = reading::dictionary_in(bytes, counts)->Ok_0;
    let n = counts.terms as int;
    let offsets = codec::numbers_at(bytes, 48, (n + 1) as nat);
    let blob = bytes.subrange(reading::term_text_at(counts), reading::term_numbers_at(counts));
    let numbers = codec::numbers_at(bytes, reading::term_numbers_at(counts), n as nat);
    let terms = reading::strings_in(blob, offsets, n as nat);
    reading::lemma_dictionary_of(terms, numbers, n);
    assert(terms.take(n) =~= terms);
    reading::lemma_dense_numbers(terms, numbers);
    assert(offsets.last() == codec::number_at(bytes, 48 + 4 * n));
    lemma_says(bytes, 8);
    lemma_says(bytes, 16);
    lemma_says(bytes, 20);
    lemma_says(bytes, 24);
    lemma_says(bytes, 28);
    lemma_says(bytes, 32);
    lemma_says(bytes, 44);
    lemma_says(bytes, 48 + 4 * n);
}

proof fn lemma_says(bytes: Seq<u8>, at: int)
    ensures
        says(bytes, at, codec::number_at(bytes, at) as nat),
{
}

/// The summary of a built index counts what was indexed: the documents, the terms that are
/// distinct, every occurrence of every term, and for each term the documents that have it.
pub proof fn a_summary_counts_what_was_indexed(
    index: Result<Index, Error>,
    counting: Vec<Result<Document, Error>>,
    filling: Vec<Result<Document, Error>>,
    stats: index::IndexStats,
)
    requires
        index::built(index, Ok(counting), Ok(filling)),
        none_failed(counting@),
        none_failed(filling@),
        counting@.len() <= u32::MAX,
        index is Ok,
        stats.sums_up(index->Ok_0@),
    ensures
        stats.documents == counting@.len(),
        stats.terms == agreement::distinct_terms(documents_of(counting@)).len(),
        stats.positions == number_of_terms(documents_of(counting@)),
        stats.postings == agreement::sum_of_frequencies(index->Ok_0@, stats.terms as int),
{
    lemma_no_failure(counting@);
    lemma_no_failure(filling@);
    let documents = documents_of(counting@);
    assert(index::views(counting@) =~= documents);
    lemma_number_of_terms(documents);
    let events = postings::corpus_occurrences(documents);
    let words = postings::vocabulary(events);
    agreement::each_distinct_term_is_counted_once(documents);
    postings::lemma_vocabulary(events);
    postings::lemma_numbered_len(words);
    agreement::the_statistics_add_up(index->Ok_0@);
}

} // verus!
