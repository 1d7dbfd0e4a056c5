//! What a read gives back of a write.

use crate::codec;
use crate::corpus::{DocId, DocMetaView};
use crate::dictionary;
use crate::format::{Counts, SearchIndexView};
use crate::ordering;
use crate::postings;
use crate::postings::IndexView;
use crate::reading;
use crate::text;
use vstd::prelude::*;
use vstd::utf8::*;

verus! {

/// `entry` put into its place among sorted entries.
spec fn put(list: Seq<(Seq<char>, u32)>, entry: (Seq<char>, u32)) -> Seq<(Seq<char>, u32)>
    decreases list.len(),
{
    if list.len() == 0 || ordering::precedes(list.last().0, entry.0) {
        list.push(entry)
    } else {
        put(list.drop_last(), entry).push(list.last())
    }
}

proof fn lemma_put(list: Seq<(Seq<char>, u32)>, entry: (Seq<char>, u32), map: Map<Seq<char>, u32>)
    requires
        dictionary::lists(list, map),
        ordering::sorted(list),
        !map.contains_key(entry.0),
    ensures
        dictionary::lists(put(list, entry), map.insert(entry.0, entry.1)),
        ordering::sorted(put(list, entry)),
        put(list, entry).len() == list.len() + 1,
    decreases list.len(),
{
    let after = put(list, entry);
    let larger = map.insert(entry.0, entry.1);
    if list.len() == 0 || ordering::precedes(list.last().0, entry.0) {
        assert forall|i: int, j: int| 0 <= i < j < after.len() implies ordering::precedes(
            (#[trigger] after[i]).0,
            (#[trigger] after[j]).0,
        ) by {
            if j < list.len() {
                assert(ordering::precedes(list[i].0, list[j].0));
            } else if i < list.len() - 1 {
                assert(ordering::precedes(list[i].0, list[list.len() - 1].0));
                ordering::preceding_is_transitive(list[i].0, list.last().0, entry.0);
            }
        }
        assert forall|i: int| 0 <= i < after.len() implies larger.contains_key(
            (#[trigger] after[i]).0,
        ) && larger[after[i].0] == after[i].1 by {
            if i < list.len() {
                assert(after[i] == list[i]);
                assert(map.contains_key(list[i].0));
            }
        }
        assert forall|i: int, j: int| 0 <= i < j < after.len() implies (#[trigger] after[i]).0 != (
        #[trigger] after[j]).0 by {
            assert(after[i] == list[i]);
            assert(map.contains_key(list[i].0));
            if j < list.len() {
                assert(after[j] == list[j]);
            }
        }
        assert forall|term: Seq<char>| #[trigger] larger.contains_key(term) implies exists|i: int|
            0 <= i < after.len() && (#[trigger] after[i]).0 == term by {
            if term == entry.0 {
                assert(after[list.len() as int].0 == term);
            } else {
                assert(map.contains_key(term));
                let i = choose|i: int| 0 <= i < list.len() && (#[trigger] list[i]).0 == term;
                assert(after[i] == list[i]);
            }
        }
    } else {
        let last = list.last();
        let rest = list.drop_last();
        let smaller = map.remove(last.0);
        let n = list.len() - 1;
        dictionary::lemma_lists_without(list, map, n);
        assert(list.remove(n) =~= rest);
        assert(list[n] == last);
        assert(map.contains_key(last.0));
        assert(ordering::sorted(rest)) by {
            assert forall|i: int, j: int| 0 <= i < j < rest.len() implies ordering::precedes(
                (#[trigger] rest[i]).0,
                (#[trigger] rest[j]).0,
            ) by {
                assert(rest[i] == list[i] && rest[j] == list[j]);
            }
        }
        lemma_put(rest, entry, smaller);
        ordering::terms_are_totally_ordered(last.0, entry.0);
        let head = put(rest, entry);
        let head_map = smaller.insert(entry.0, entry.1);
        assert forall|i: int| 0 <= i < head.len() implies ordering::precedes(
            (#[trigger] head[i]).0,
            last.0,
        ) by {
            assert(head_map.contains_key(head[i].0));
            if head[i].0 != entry.0 {
                assert(smaller.contains_key(head[i].0));
                let k = choose|k: int| 0 <= k < rest.len() && (#[trigger] rest[k]).0 == head[i].0;
                assert(rest[k] == list[k]);
                assert(ordering::precedes(list[k].0, list[n].0));
            }
        }
        assert forall|i: int, j: int| 0 <= i < j < after.len() implies ordering::precedes(
            (#[trigger] after[i]).0,
            (#[trigger] after[j]).0,
        ) by {
            assert(after[i] == head[i]);
            if j < head.len() {
                assert(after[j] == head[j]);
            }
        }
        assert forall|i: int| 0 <= i < after.len() implies larger.contains_key(
            (#[trigger] after[i]).0,
        ) && larger[after[i].0] == after[i].1 by {
            if i < head.len() {
                assert(after[i] == head[i]);
                assert(head_map.contains_key(head[i].0));
            }
        }
        assert forall|i: int, j: int| 0 <= i < j < after.len() implies (#[trigger] after[i]).0 != (
        #[trigger] after[j]).0 by {
            assert(ordering::precedes(after[i].0, after[j].0));
            ordering::terms_are_totally_ordered(after[i].0, after[j].0);
        }
        assert forall|term: Seq<char>| #[trigger] larger.contains_key(term) implies exists|i: int|
            0 <= i < after.len() && (#[trigger] after[i]).0 == term by {
            if term == last.0 {
                assert(after[head.len() as int].0 == term);
            } else {
                assert(head_map.contains_key(term));
                let i = choose|i: int| 0 <= i < head.len() && (#[trigger] head[i]).0 == term;
                assert(after[i] == head[i]);
            }
        }
    }
}

/// Every dictionary can be listed in order.
pub proof fn a_dictionary_can_be_sorted(map: Map<Seq<char>, u32>)
    requires
        map.dom().finite(),
    ensures
        dictionary::lists(ordering::sorted_entries(map), map),
        ordering::sorted(ordering::sorted_entries(map)),
        ordering::sorted_entries(map).len() == map.dom().len(),
{
    let list = lemma_sorted_list(map);
    assert(dictionary::lists(list, map) && ordering::sorted(list));
    ordering::a_dictionary_is_sorted_one_way(list, ordering::sorted_entries(map), map);
}

proof fn lemma_sorted_list(map: Map<Seq<char>, u32>) -> (list: Seq<(Seq<char>, u32)>)
    requires
        map.dom().finite(),
    ensures
        dictionary::lists(list, map),
        ordering::sorted(list),
        list.len() == map.dom().len(),
    decreases map.dom().len(),
{
    if map.dom().len() == 0 {
        assert(map.dom() =~= Set::<Seq<char>>::empty());
        let none = Seq::<(Seq<char>, u32)>::empty();
        assert forall|term: Seq<char>| #[trigger] map.contains_key(term) implies exists|i: int|
            0 <= i < none.len() && (#[trigger] none[i]).0 == term by {
            assert(map.dom().contains(term));
        }
        none
    } else {
        let term = map.dom().choose();
        let rest = map.remove(term);
        assert(rest.dom() =~= map.dom().remove(term));
        let list = lemma_sorted_list(rest);
        lemma_put(list, (term, map[term]), rest);
        assert(rest.insert(term, map[term]) =~= map);
        put(list, (term, map[term]))
    }
}

/// A part of a part lies where the parts before it end.
proof fn lemma_part(bytes: Seq<u8>, at: int, before: Seq<u8>, part: Seq<u8>, behind: Seq<u8>)
    requires
        0 <= at,
        at + before.len() + part.len() + behind.len() <= bytes.len(),
        bytes.subrange(at, at + before.len() + part.len() + behind.len()) == before + part
            + behind,
    ensures
        bytes.subrange(at + before.len(), at + before.len() + part.len()) == part,
{
    let whole = bytes.subrange(at, at + before.len() + part.len() + behind.len());
    assert(bytes.subrange(at + before.len(), at + before.len() + part.len()) =~= whole.subrange(
        before.len() as int,
        before.len() + part.len() as int,
    ));
    assert(whole.subrange(before.len() as int, before.len() + part.len() as int) =~= part);
}

proof fn lemma_header(bytes: Seq<u8>, counts: Counts)
    requires
        bytes.len() >= 48,
        bytes.take(48) == crate::format::header_bytes(counts),
    ensures
        reading::header_in(bytes) == Ok::<Counts, reading::FileFault>(counts),
{
    let numbers = seq![
        crate::format::VERSION,
        0u32,
        counts.stored_documents,
        counts.terms,
        counts.postings,
        counts.positions,
        counts.term_bytes,
        counts.external_bytes,
        counts.title_bytes,
        counts.indexed_documents,
    ];
    codec::lemma_numbers_length(numbers);
    let header = bytes.take(48);
    assert(bytes.take(8) =~= header.take(8));
    assert(header.take(8) =~= crate::format::magic());
    assert(bytes.subrange(8, 48) =~= header.subrange(8, 48));
    assert(header.subrange(8, 48) =~= codec::numbers_bytes(numbers));
    codec::lemma_numbers_read_back(bytes, 8, numbers);
    let read = codec::numbers_at(bytes, 8, 10);
    assert(read[0] == codec::number_at(bytes, 8));
    assert(read[2] == codec::number_at(bytes, 16));
    assert(read[3] == codec::number_at(bytes, 20));
    assert(read[4] == codec::number_at(bytes, 24));
    assert(read[5] == codec::number_at(bytes, 28));
    assert(read[6] == codec::number_at(bytes, 32));
    assert(read[7] == codec::number_at(bytes, 36));
    assert(read[8] == codec::number_at(bytes, 40));
    assert(read[9] == codec::number_at(bytes, 44));
}

proof fn lemma_header_length(counts: Counts)
    ensures
        crate::format::header_bytes(counts).len() == 48,
{
    codec::lemma_numbers_length(
        seq![
            crate::format::VERSION,
            0u32,
            counts.stored_documents,
            counts.terms,
            counts.postings,
            counts.positions,
            counts.term_bytes,
            counts.external_bytes,
            counts.title_bytes,
            counts.indexed_documents,
        ],
    );
}

/// A run of strings is read back where it was written.
proof fn lemma_strings_section(bytes: Seq<u8>, at: int, strings: Seq<Seq<char>>)
    requires
        0 <= at,
        codec::bytes_in(strings) <= u32::MAX,
        at + 4 * (strings.len() + 1) + codec::bytes_in(strings) <= bytes.len(),
        bytes.subrange(at, at + 4 * (strings.len() + 1) + codec::bytes_in(strings))
            == crate::format::strings_section(strings),
    ensures
        ({
            let n = strings.len();
            let offsets = codec::numbers_at(bytes, at, n + 1);
            let from = at + 4 * (n + 1);
            let blob = bytes.subrange(from, from + codec::bytes_in(strings));
            &&& offsets == codec::offsets_of(strings)
            &&& offsets.last() == codec::bytes_in(strings)
            &&& blob == codec::strings_bytes(strings)
            &&& reading::strings_in(blob, offsets, n) == strings
            &&& forall|i: int|
                0 <= i < n ==> #[trigger] reading::in_range(blob, offsets, i) && valid_utf8(
                    codec::string_bytes_at(blob, offsets, i),
                )
        }),
{
    let n = strings.len();
    let wanted = codec::offsets_of(strings);
    let size = codec::bytes_in(strings) as int;
    let text = codec::strings_bytes(strings);
    codec::lemma_numbers_length(wanted);
    codec::lemma_strings(strings);
    let none = Seq::<u8>::empty();
    let first = codec::numbers_bytes(wanted);
    assert(first + text =~= none + first + text);
    lemma_part(bytes, at, none, first, text);
    codec::lemma_numbers_read_back(bytes, at, wanted);
    assert(first + text =~= first + text + none);
    lemma_part(bytes, at, first, text, none);
    let offsets = codec::numbers_at(bytes, at, n + 1);
    let from = at + 4 * (n + 1);
    let blob = bytes.subrange(from, from + size);
    assert(blob == text);
    assert forall|i: int| 0 <= i < n implies #[trigger] reading::in_range(blob, offsets, i)
        && valid_utf8(codec::string_bytes_at(blob, offsets, i)) by {
        lemma_string_at(strings, i);
    }
    assert forall|i: int| 0 <= i < n implies #[trigger] reading::strings_in(blob, offsets, n)[i]
        == strings[i] by {
        lemma_string_at(strings, i);
    }
    assert(reading::strings_in(blob, offsets, n) =~= strings);
}

proof fn lemma_string_at(strings: Seq<Seq<char>>, i: int)
    requires
        0 <= i < strings.len(),
        codec::bytes_in(strings) <= u32::MAX,
    ensures
        ({
            let blob = codec::strings_bytes(strings);
            let offsets = codec::offsets_of(strings);
            &&& reading::in_range(blob, offsets, i)
            &&& codec::string_bytes_at(blob, offsets, i) == encode_utf8(strings[i])
            &&& valid_utf8(codec::string_bytes_at(blob, offsets, i))
            &&& decode_utf8(codec::string_bytes_at(blob, offsets, i)) == strings[i]
        }),
{
    codec::lemma_strings(strings);
    codec::lemma_bytes_before_grows(strings, i, i + 1);
    codec::lemma_bytes_before_grows(strings, i + 1, strings.len() as int);
    encode_utf8_valid_utf8(strings[i]);
    encode_utf8_decode_utf8(strings[i]);
}

proof fn lemma_no_term_fault(blob: Seq<u8>, offsets: Seq<u32>, rank: int, terms: int)
    requires
        0 <= rank,
        forall|i: int|
            0 <= i < terms ==> #[trigger] reading::in_range(blob, offsets, i) && valid_utf8(
                codec::string_bytes_at(blob, offsets, i),
            ),
    ensures
        reading::term_fault(blob, offsets, rank, terms) is None,
    decreases terms - rank,
{
    if rank < terms {
        assert(reading::in_range(blob, offsets, rank));
        lemma_no_term_fault(blob, offsets, rank + 1, terms);
    }
}

proof fn lemma_no_document_fault(
    id_blob: Seq<u8>,
    id_offsets: Seq<u32>,
    title_blob: Seq<u8>,
    title_offsets: Seq<u32>,
    k: int,
    documents: int,
)
    requires
        0 <= k,
        forall|i: int|
            0 <= i < documents ==> #[trigger] reading::in_range(id_blob, id_offsets, i)
                && valid_utf8(codec::string_bytes_at(id_blob, id_offsets, i)),
        forall|i: int|
            0 <= i < documents ==> #[trigger] reading::in_range(title_blob, title_offsets, i)
                && valid_utf8(codec::string_bytes_at(title_blob, title_offsets, i)),
    ensures
        reading::document_fault(
            id_blob,
            id_offsets,
            title_blob,
            title_offsets,
            k,
            documents,
        ) is None,
    decreases documents - k,
{
    if k < documents {
        assert(reading::in_range(id_blob, id_offsets, k));
        assert(reading::in_range(title_blob, title_offsets, k));
        lemma_no_document_fault(
            id_blob,
            id_offsets,
            title_blob,
            title_offsets,
            k + 1,
            documents,
        );
    }
}

/// A dictionary made of a list of its entries is that dictionary.
proof fn lemma_dictionary_again(
    list: Seq<(Seq<char>, u32)>,
    terms: Seq<Seq<char>>,
    numbers: Seq<u32>,
    map: Map<Seq<char>, u32>,
    n: int,
)
    requires
        dictionary::lists(list, map),
        terms == list.map_values(|entry: (Seq<char>, u32)| entry.0),
        numbers == list.map_values(|entry: (Seq<char>, u32)| entry.1),
        0 <= n <= list.len(),
    ensures
        forall|term: Seq<char>| #[trigger]
            reading::dictionary_of(terms, numbers, n).contains_key(term) <==> exists|i: int|
                0 <= i < n && (#[trigger] list[i]).0 == term,
        forall|term: Seq<char>|
            reading::dictionary_of(terms, numbers, n).contains_key(term) ==> map.contains_key(
                term,
            ) && #[trigger] reading::dictionary_of(terms, numbers, n)[term] == map[term],
    decreases n,
{
    if n > 0 {
        lemma_dictionary_again(list, terms, numbers, map, n - 1);
        let before = reading::dictionary_of(terms, numbers, n - 1);
        let after = reading::dictionary_of(terms, numbers, n);
        assert(terms[n - 1] == list[n - 1].0);
        assert(numbers[n - 1] == list[n - 1].1);
        assert forall|term: Seq<char>| #[trigger] after.contains_key(term) <==> exists|i: int|
            0 <= i < n && (#[trigger] list[i]).0 == term by {
            if before.contains_key(term) {
                let i = choose|i: int| 0 <= i < n - 1 && (#[trigger] list[i]).0 == term;
                assert(0 <= i < n && list[i].0 == term);
            }
            if exists|i: int| 0 <= i < n && (#[trigger] list[i]).0 == term {
                let i = choose|i: int| 0 <= i < n && (#[trigger] list[i]).0 == term;
                if i < n - 1 {
                    assert(before.contains_key(term));
                }
            }
        }
    }
}

/// A dictionary in order: no term twice, each with a number of its own, and the whole
/// of it gives the dictionary again.
proof fn lemma_sorted_dictionary(map: Map<Seq<char>, u32>)
    requires
        map.dom().finite(),
        postings::numbers_its_terms(map),
    ensures
        ({
            let terms = crate::format::sorted_terms(map);
            let numbers = crate::format::sorted_numbers(map);
            let n = map.dom().len();
            &&& terms.len() == n
            &&& numbers.len() == n
            &&& terms.no_duplicates()
            &&& reading::dense(numbers)
            &&& reading::dictionary_of(terms, numbers, n as int) == map
        }),
{
    let list = ordering::sorted_entries(map);
    let terms = crate::format::sorted_terms(map);
    let numbers = crate::format::sorted_numbers(map);
    let n = map.dom().len() as int;
    a_dictionary_can_be_sorted(map);
    assert forall|i: int, j: int| 0 <= i < j < terms.len() implies terms[i] != terms[j] by {
        assert(list[i].0 != list[j].0);
    }
    assert(reading::dense(numbers)) by {
        assert forall|i: int| 0 <= i < numbers.len() implies #[trigger] numbers[i]
            < numbers.len() by {
            assert(map.contains_key(list[i].0));
        }
        assert forall|i: int, j: int| 0 <= i < j < numbers.len() implies numbers[i]
            != numbers[j] by {
            assert(map.contains_key(list[i].0) && map.contains_key(list[j].0));
            assert(list[i].0 != list[j].0);
        }
    }
    lemma_dictionary_again(list, terms, numbers, map, n);
    let again = reading::dictionary_of(terms, numbers, n);
    assert forall|term: Seq<char>| again.contains_key(term) <==> map.contains_key(term) by {
        if map.contains_key(term) {
            let i = choose|i: int| 0 <= i < list.len() && (#[trigger] list[i]).0 == term;
            assert(0 <= i < n && list[i].0 == term);
        }
    }
    assert(again =~= map);
}

/// A run of strings and a run of numbers behind it lie where their lengths say.
proof fn lemma_strings_then_numbers(
    bytes: Seq<u8>,
    at: int,
    strings: Seq<Seq<char>>,
    numbers: Seq<u32>,
)
    requires
        0 <= at,
        ({
            let middle = at + 4 * (strings.len() + 1) + codec::bytes_in(strings);
            let end = middle + 4 * numbers.len();
            &&& end <= bytes.len()
            &&& bytes.subrange(at, end) == crate::format::strings_section(strings)
                + codec::numbers_bytes(numbers)
        }),
    ensures
        ({
            let middle = at + 4 * (strings.len() + 1) + codec::bytes_in(strings);
            &&& bytes.subrange(at, middle) == crate::format::strings_section(strings)
            &&& codec::numbers_at(bytes, middle, numbers.len()) == numbers
        }),
{
    let words = crate::format::strings_section(strings);
    let tail = codec::numbers_bytes(numbers);
    let none = Seq::<u8>::empty();
    codec::lemma_numbers_length(codec::offsets_of(strings));
    codec::lemma_strings(strings);
    codec::lemma_numbers_length(numbers);
    assert(words + tail =~= none + words + tail);
    lemma_part(bytes, at, none, words, tail);
    assert(words + tail =~= words + tail + none);
    lemma_part(bytes, at, words, tail, none);
    codec::lemma_numbers_read_back(
        bytes,
        at + 4 * (strings.len() + 1) + codec::bytes_in(strings),
        numbers,
    );
}

/// The dictionary's section is read back.
proof fn lemma_dictionary_section(bytes: Seq<u8>, counts: Counts, map: Map<Seq<char>, u32>)
    requires
        map.dom().finite(),
        postings::numbers_its_terms(map),
        map.dom().len() <= u32::MAX,
        codec::bytes_in(crate::format::sorted_terms(map)) <= u32::MAX,
        counts.terms == map.dom().len(),
        counts.term_bytes == codec::bytes_in(crate::format::sorted_terms(map)),
        reading::arrays_at(counts) <= bytes.len(),
        bytes.subrange(48, reading::arrays_at(counts)) == crate::format::dictionary_section(map),
    ensures
        reading::dictionary_in(bytes, counts) == Ok::<Map<Seq<char>, u32>, reading::FileFault>(map),
{
    let terms = crate::format::sorted_terms(map);
    let numbers = crate::format::sorted_numbers(map);
    let n = counts.terms as int;
    lemma_sorted_dictionary(map);
    lemma_strings_then_numbers(bytes, 48, terms, numbers);
    lemma_strings_section(bytes, 48, terms);
    let offsets = codec::numbers_at(bytes, 48, (n + 1) as nat);
    let blob = bytes.subrange(reading::term_text_at(counts), reading::term_numbers_at(counts));
    lemma_no_term_fault(blob, offsets, 0, n);
}

/// The arrays are read back.
proof fn lemma_arrays_section(bytes: Seq<u8>, counts: Counts, index: IndexView)
    requires
        index.consistent(),
        index.posting_docs.len() <= u32::MAX,
        index.positions.len() <= u32::MAX,
        counts.terms == index.dictionary.dom().len(),
        counts.postings == index.posting_docs.len(),
        counts.positions == index.positions.len(),
        counts.indexed_documents == index.documents,
        reading::documents_at(counts) <= bytes.len(),
        bytes.subrange(reading::arrays_at(counts), reading::documents_at(counts))
            == crate::format::arrays_section(index),
    ensures
        reading::index_in(bytes, counts, index.dictionary) == Ok::<IndexView, reading::FileFault>(
            index,
        ),
{
    let raw = crate::format::raw_ids(index.posting_docs);
    let a = codec::numbers_bytes(index.term_postings_start);
    let b = codec::numbers_bytes(raw);
    let c = codec::numbers_bytes(index.posting_positions_start);
    let d = codec::numbers_bytes(index.positions);
    let none = Seq::<u8>::empty();
    let at = reading::arrays_at(counts);
    codec::lemma_numbers_length(index.term_postings_start);
    codec::lemma_numbers_length(raw);
    codec::lemma_numbers_length(index.posting_positions_start);
    codec::lemma_numbers_length(index.positions);
    assert(a + b + c + d =~= none + a + (b + c + d));
    lemma_part(bytes, at, none, a, b + c + d);
    assert(a + b + c + d =~= a + b + (c + d));
    lemma_part(bytes, at, a, b, c + d);
    lemma_part(bytes, at, a + b, c, d);
    assert(a + b + c + d =~= (a + b + c) + d + none);
    lemma_part(bytes, at, a + b + c, d, none);
    codec::lemma_numbers_read_back(bytes, at, index.term_postings_start);
    codec::lemma_numbers_read_back(bytes, reading::docs_at(counts), raw);
    codec::lemma_numbers_read_back(
        bytes,
        reading::position_starts_at(counts),
        index.posting_positions_start,
    );
    codec::lemma_numbers_read_back(bytes, reading::positions_at(counts), index.positions);
    assert(raw.map_values(|doc: u32| DocId(doc)) =~= index.posting_docs);
}

/// Two runs of strings, one behind the other, lie where their lengths say.
proof fn lemma_two_runs(bytes: Seq<u8>, at: int, one: Seq<Seq<char>>, other: Seq<Seq<char>>)
    requires
        0 <= at,
        ({
            let middle = at + 4 * (one.len() + 1) + codec::bytes_in(one);
            let end = middle + 4 * (other.len() + 1) + codec::bytes_in(other);
            &&& end <= bytes.len()
            &&& bytes.subrange(at, end) == crate::format::strings_section(one)
                + crate::format::strings_section(other)
        }),
    ensures
        ({
            let middle = at + 4 * (one.len() + 1) + codec::bytes_in(one);
            let end = middle + 4 * (other.len() + 1) + codec::bytes_in(other);
            &&& bytes.subrange(at, middle) == crate::format::strings_section(one)
            &&& bytes.subrange(middle, end) == crate::format::strings_section(other)
        }),
{
    let a = crate::format::strings_section(one);
    let b = crate::format::strings_section(other);
    let none = Seq::<u8>::empty();
    codec::lemma_numbers_length(codec::offsets_of(one));
    codec::lemma_numbers_length(codec::offsets_of(other));
    codec::lemma_strings(one);
    codec::lemma_strings(other);
    assert(a + b =~= none + a + b);
    lemma_part(bytes, at, none, a, b);
    assert(a + b =~= a + b + none);
    lemma_part(bytes, at, a, b, none);
}

/// The documents are read back.
proof fn lemma_documents_section(bytes: Seq<u8>, counts: Counts, documents: Seq<DocMetaView>)
    requires
        documents.len() <= u32::MAX,
        codec::bytes_in(crate::format::external_ids(documents)) <= u32::MAX,
        codec::bytes_in(crate::format::titles(documents)) <= u32::MAX,
        counts.stored_documents == documents.len(),
        counts.external_bytes == codec::bytes_in(crate::format::external_ids(documents)),
        counts.title_bytes == codec::bytes_in(crate::format::titles(documents)),
        reading::file_end(counts) <= bytes.len(),
        bytes.subrange(reading::documents_at(counts), reading::file_end(counts))
            == crate::format::documents_section(documents),
    ensures
        reading::documents_in(bytes, counts) == Ok::<Seq<DocMetaView>, reading::FileFault>(
            documents,
        ),
{
    let ids = crate::format::external_ids(documents);
    let titles = crate::format::titles(documents);
    let n = documents.len() as int;
    let at = reading::documents_at(counts);
    let titles_at = reading::title_offsets_at(counts);
    lemma_two_runs(bytes, at, ids, titles);
    lemma_strings_section(bytes, at, ids);
    lemma_strings_section(bytes, titles_at, titles);
    lemma_no_document_fault(
        bytes.subrange(reading::external_text_at(counts), titles_at),
        codec::numbers_at(bytes, at, (n + 1) as nat),
        bytes.subrange(reading::title_text_at(counts), reading::file_end(counts)),
        codec::numbers_at(bytes, titles_at, (n + 1) as nat),
        0,
        n,
    );
    assert(reading::documents_of(ids, titles) =~= documents);
}

/// How long the sections are.
proof fn lemma_section_lengths(view: SearchIndexView)
    requires
        view.index.consistent(),
        crate::format::addressable(view),
    ensures
        ({
            let counts = crate::format::counts_of(view);
            &&& crate::format::header_bytes(counts).len() == 48
            &&& crate::format::dictionary_section(view.index.dictionary).len()
                == reading::arrays_at(counts) - 48
            &&& crate::format::arrays_section(view.index).len() == reading::documents_at(counts)
                - reading::arrays_at(counts)
            &&& crate::format::documents_section(view.documents).len() == reading::file_end(counts)
                - reading::documents_at(counts)
        }),
{
    let counts = crate::format::counts_of(view);
    let terms = crate::format::sorted_terms(view.index.dictionary);
    let ids = crate::format::external_ids(view.documents);
    let titles = crate::format::titles(view.documents);
    lemma_header_length(counts);
    a_dictionary_can_be_sorted(view.index.dictionary);
    codec::lemma_numbers_length(codec::offsets_of(terms));
    codec::lemma_strings(terms);
    codec::lemma_numbers_length(crate::format::sorted_numbers(view.index.dictionary));
    codec::lemma_numbers_length(view.index.term_postings_start);
    codec::lemma_numbers_length(crate::format::raw_ids(view.index.posting_docs));
    codec::lemma_numbers_length(view.index.posting_positions_start);
    codec::lemma_numbers_length(view.index.positions);
    codec::lemma_numbers_length(codec::offsets_of(ids));
    codec::lemma_numbers_length(codec::offsets_of(titles));
    codec::lemma_strings(ids);
    codec::lemma_strings(titles);
}

/// Reading gives back what was written: from the bytes of a bundle, whatever follows
/// them, the same index and the same documents are read.
pub proof fn reading_gives_back_what_was_written(view: SearchIndexView, behind: Seq<u8>)
    requires
        view.index.consistent(),
        crate::format::addressable(view),
    ensures
        reading::parsed(crate::format::file_bytes(view) + behind) == Ok::<
            SearchIndexView,
            reading::FileFault,
        >(view),
{
    let counts = crate::format::counts_of(view);
    let bytes = crate::format::file_bytes(view) + behind;
    lemma_sections_in_place(view, behind);
    lemma_header(bytes, counts);
    lemma_dictionary_section(bytes, counts, view.index.dictionary);
    lemma_arrays_section(bytes, counts, view.index);
    lemma_documents_section(bytes, counts, view.documents);
    lemma_sections_make_a_file(bytes, counts, view);
}

/// Where the sections lie in a file.
proof fn lemma_sections_in_place(view: SearchIndexView, behind: Seq<u8>)
    requires
        view.index.consistent(),
        crate::format::addressable(view),
    ensures
        ({
            let counts = crate::format::counts_of(view);
            let bytes = crate::format::file_bytes(view) + behind;
            &&& reading::file_end(counts) <= bytes.len()
            &&& bytes.take(48) == crate::format::header_bytes(counts)
            &&& bytes.subrange(48, reading::arrays_at(counts))
                == crate::format::dictionary_section(view.index.dictionary)
            &&& bytes.subrange(reading::arrays_at(counts), reading::documents_at(counts))
                == crate::format::arrays_section(view.index)
            &&& bytes.subrange(reading::documents_at(counts), reading::file_end(counts))
                == crate::format::documents_section(view.documents)
        }),
{
    lemma_section_lengths(view);
    lemma_four_parts(
        crate::format::header_bytes(crate::format::counts_of(view)),
        crate::format::dictionary_section(view.index.dictionary),
        crate::format::arrays_section(view.index),
        crate::format::documents_section(view.documents),
        behind,
    );
}

/// Where every section is read, the file is.
proof fn lemma_sections_make_a_file(bytes: Seq<u8>, counts: Counts, view: SearchIndexView)
    requires
        reading::header_in(bytes) == Ok::<Counts, reading::FileFault>(counts),
        reading::dictionary_in(bytes, counts) == Ok::<Map<Seq<char>, u32>, reading::FileFault>(
            view.index.dictionary,
        ),
        reading::index_in(bytes, counts, view.index.dictionary) == Ok::<
            IndexView,
            reading::FileFault,
        >(view.index),
        reading::documents_in(bytes, counts) == Ok::<Seq<DocMetaView>, reading::FileFault>(
            view.documents,
        ),
    ensures
        reading::parsed(bytes) == Ok::<SearchIndexView, reading::FileFault>(view),
{
}

/// Where the parts lie in a concatenation.
proof fn lemma_four_parts(a: Seq<u8>, b: Seq<u8>, c: Seq<u8>, d: Seq<u8>, behind: Seq<u8>)
    ensures
        ({
            let bytes = a + b + c + d + behind;
            let x = a.len() as int;
            let y = x + b.len();
            let z = y + c.len();
            &&& bytes.take(x) == a
            &&& bytes.subrange(x, y) == b
            &&& bytes.subrange(y, z) == c
            &&& bytes.subrange(z, z + d.len()) == d
        }),
{
    let bytes = a + b + c + d + behind;
    let x = a.len() as int;
    let y = x + b.len();
    let z = y + c.len();
    assert(bytes.take(x) =~= a);
    assert(bytes.subrange(x, y) =~= b);
    assert(bytes.subrange(y, z) =~= c);
    assert(bytes.subrange(z, z + d.len()) =~= d);
}

/// How long a file is: its header and its sections, four bytes for each number in
/// them and the bytes of the strings.
pub proof fn a_file_is_as_long_as_its_sections(view: SearchIndexView)
    requires
        view.index.consistent(),
        crate::format::addressable(view),
    ensures
        crate::format::file_bytes(view).len() == 48 + 4 * (3 * view.index.dictionary.dom().len()
            + 2) + 4 * (2 * view.index.posting_docs.len() + 1) + 4 * view.index.positions.len() + 4
            * (2 * view.documents.len() + 2) + codec::bytes_in(
            crate::format::sorted_terms(view.index.dictionary),
        ) + codec::bytes_in(crate::format::external_ids(view.documents)) + codec::bytes_in(
            crate::format::titles(view.documents),
        ),
{
    lemma_section_lengths(view);
}

/// What of a file lies before a cut is read as it was written.
proof fn lemma_before_a_cut(view: SearchIndexView, length: int)
    requires
        view.index.consistent(),
        crate::format::addressable(view),
        48 <= length <= crate::format::file_bytes(view).len(),
    ensures
        ({
            let counts = crate::format::counts_of(view);
            let cut = crate::format::file_bytes(view).take(length);
            &&& reading::file_end(counts) == crate::format::file_bytes(view).len()
            &&& cut.take(48) == crate::format::header_bytes(counts)
            &&& reading::arrays_at(counts) <= length ==> cut.subrange(
                48,
                reading::arrays_at(counts),
            ) == crate::format::dictionary_section(view.index.dictionary)
            &&& reading::documents_at(counts) <= length ==> cut.subrange(
                reading::arrays_at(counts),
                reading::documents_at(counts),
            ) == crate::format::arrays_section(view.index)
        }),
{
    let counts = crate::format::counts_of(view);
    let bytes = crate::format::file_bytes(view);
    let cut = bytes.take(length);
    let none = Seq::<u8>::empty();
    lemma_section_lengths(view);
    lemma_sections_in_place(view, none);
    assert(bytes + none =~= bytes);
    let arrays = reading::arrays_at(counts);
    let documents = reading::documents_at(counts);
    assert(cut.take(48) =~= bytes.take(48));
    if arrays <= length {
        assert(cut.subrange(48, arrays) =~= bytes.subrange(48, arrays));
    }
    if documents <= length {
        assert(cut.subrange(arrays, documents) =~= bytes.subrange(arrays, documents));
    }
}

/// Where a section is cut short, the file is.
proof fn lemma_cut_short(bytes: Seq<u8>, counts: Counts, index: IndexView)
    requires
        reading::header_in(bytes) == Ok::<Counts, reading::FileFault>(counts),
        bytes.len() < reading::file_end(counts),
        reading::arrays_at(counts) <= bytes.len() ==> reading::dictionary_in(bytes, counts)
            == Ok::<Map<Seq<char>, u32>, reading::FileFault>(index.dictionary),
        reading::documents_at(counts) <= bytes.len() ==> reading::index_in(
            bytes,
            counts,
            index.dictionary,
        ) == Ok::<IndexView, reading::FileFault>(index),
    ensures
        reading::parsed(bytes) == Err::<SearchIndexView, reading::FileFault>(
            reading::FileFault::Truncated,
        ),
{
}

/// A file that was cut short is refused as such, never misread: wherever what was
/// written is cut off, reading says that it is truncated.
pub proof fn a_truncated_file_is_refused(view: SearchIndexView, length: int)
    requires
        view.index.consistent(),
        crate::format::addressable(view),
        0 <= length < crate::format::file_bytes(view).len(),
    ensures
        reading::parsed(crate::format::file_bytes(view).take(length)) == Err::<
            SearchIndexView,
            reading::FileFault,
        >(reading::FileFault::Truncated),
{
    let counts = crate::format::counts_of(view);
    let cut = crate::format::file_bytes(view).take(length);
    if length >= 48 {
        lemma_before_a_cut(view, length);
        lemma_header(cut, counts);
        if reading::arrays_at(counts) <= length {
            lemma_dictionary_section(cut, counts, view.index.dictionary);
        }
        if reading::documents_at(counts) <= length {
            lemma_arrays_section(cut, counts, view.index);
        }
        lemma_cut_short(cut, counts, view.index);
    }
}

/// The same index makes the same file, however its dictionary is laid out in memory:
/// the terms are written in order, each once.
pub proof fn the_dictionary_is_written_in_order(view: SearchIndexView)
    requires
        view.index.consistent(),
    ensures
        ({
            let terms = crate::format::sorted_terms(view.index.dictionary);
            &&& terms.len() == view.index.dictionary.dom().len()
            &&& forall|i: int, j: int|
                0 <= i < j < terms.len() ==> ordering::precedes(
                    #[trigger] terms[i],
                    #[trigger] terms[j],
                )
            &&& forall|i: int|
                0 <= i < terms.len() ==> view.index.dictionary.contains_key(#[trigger] terms[i])
        }),
{
    let map = view.index.dictionary;
    let list = ordering::sorted_entries(map);
    let terms = crate::format::sorted_terms(map);
    a_dictionary_can_be_sorted(map);
    assert forall|i: int, j: int| 0 <= i < j < terms.len() implies ordering::precedes(
        #[trigger] terms[i],
        #[trigger] terms[j],
    ) by {
        assert(terms[i] == list[i].0 && terms[j] == list[j].0);
    }
    assert forall|i: int| 0 <= i < terms.len() implies map.contains_key(#[trigger] terms[i]) by {
        assert(terms[i] == list[i].0);
    }
}

} // verus!
