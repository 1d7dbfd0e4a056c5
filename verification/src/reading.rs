//! Reading an index file.
//!
//! Any bytes at all are either a file that [`parsed`] takes apart, or refused for the
//! first fault found in them: a section that is cut short, or one that does not agree
//! with itself. Bytes behind the last section are not looked at.

use crate::codec;
use crate::corpus::{DocId, DocMeta, DocMetaView, DocStore};
use crate::dictionary;
use crate::error::Error;
use crate::format::{Counts, SearchIndex, SearchIndexView};
use crate::index::Index;
use crate::postings;
use crate::postings::IndexView;
use crate::text;
use rustc_hash::FxHashMap;
use std::io::{Error as IoError, ErrorKind};
use vstd::prelude::*;
use vstd::string::*;
use vstd::utf8::*;

verus! {

/// What is wrong with a file.
#[derive(Debug, Clone, Copy, PartialEq, Eq)]
pub enum FileFault {
    /// It ends before its last section does.
    Truncated,
    /// It does not begin as an index file does.
    WrongMagic,
    /// It was written in this other version of the format.
    WrongVersion(u32),
    /// The last term does not end where the dictionary does.
    DictionaryLength,
    /// A term ends before it begins, or behind the dictionary.
    TermOffsets,
    /// A term is not UTF-8.
    TermText,
    /// A term is listed twice.
    DuplicateTerms,
    /// The terms do not have the numbers below their own number, each one of them.
    TermNumbers,
    /// The last term's postings do not end where the postings do.
    PostingsEnd,
    /// The last posting's positions do not end where the positions do.
    PositionsEnd,
    /// The starts of the terms' postings do not ascend from zero.
    PostingOffsets,
    /// The starts of the postings' positions do not ascend from zero.
    PositionOffsets,
    /// A document's text ends before it begins, or behind its section.
    StringOffset,
    /// An external id is not UTF-8.
    DocumentIdText,
    /// A title is not UTF-8.
    TitleText,
}

/// `std::io::Error::from` makes an error of a kind of error, here that of an unexpected
/// end. Which kind an error is of is left unsaid: the error is opaque.
#[verifier::external_body]
fn unexpected_end() -> (error: IoError) {
    IoError::from(ErrorKind::UnexpectedEof)
}

/// What is said of a fault in the file called `name`.
pub open spec fn fault_text(fault: FileFault, name: Seq<char>) -> Seq<char> {
    match fault {
        FileFault::Truncated => name + " is truncated"@,
        FileFault::WrongMagic => "not an index file: wrong magic number"@,
        FileFault::WrongVersion(version) => "index was written by format version "@
            + text::decimal(version as nat) + ", this build reads 1"@,
        FileFault::DictionaryLength => "term dictionary length does not match its offsets"@,
        FileFault::TermOffsets => "term offsets are out of order"@,
        FileFault::TermText => "a term is not valid UTF-8"@,
        FileFault::DuplicateTerms => "the term dictionary contains duplicates"@,
        FileFault::TermNumbers => "the term numbers do not match the terms"@,
        FileFault::PostingsEnd =>
            "the postings array does not end where the term offsets say it should"@,
        FileFault::PositionsEnd =>
            "the positions array does not end where the posting offsets say it should"@,
        FileFault::PostingOffsets => "the term offsets into the postings are out of order"@,
        FileFault::PositionOffsets => "the posting offsets into the positions are out of order"@,
        FileFault::StringOffset => "a string offset is out of range"@,
        FileFault::DocumentIdText => "a document id is not valid UTF-8"@,
        FileFault::TitleText => "a title is not valid UTF-8"@,
    }
}

fn say(fault: FileFault, name: &str) -> (said: String)
    ensures
        said@ == fault_text(fault, name@),
{
    let mut said = String::new();
    match fault {
        FileFault::Truncated => {
            said.append(name);
            said.append(" is truncated");
        },
        FileFault::WrongMagic => {
            said.append("not an index file: wrong magic number");
        },
        FileFault::WrongVersion(version) => {
            said.append("index was written by format version ");
            text::push_decimal(&mut said, version as u64);
            said.append(", this build reads 1");
        },
        FileFault::DictionaryLength => {
            said.append("term dictionary length does not match its offsets");
        },
        FileFault::TermOffsets => {
            said.append("term offsets are out of order");
        },
        FileFault::TermText => {
            said.append("a term is not valid UTF-8");
        },
        FileFault::DuplicateTerms => {
            said.append("the term dictionary contains duplicates");
        },
        FileFault::TermNumbers => {
            said.append("the term numbers do not match the terms");
        },
        FileFault::PostingsEnd => {
            said.append("the postings array does not end where the term offsets say it should");
        },
        FileFault::PositionsEnd => {
            said.append(
                "the positions array does not end where the posting offsets say it should",
            );
        },
        FileFault::PostingOffsets => {
            said.append("the term offsets into the postings are out of order");
        },
        FileFault::PositionOffsets => {
            said.append("the posting offsets into the positions are out of order");
        },
        FileFault::StringOffset => {
            said.append("a string offset is out of range");
        },
        FileFault::DocumentIdText => {
            said.append("a document id is not valid UTF-8");
        },
        FileFault::TitleText => {
            said.append("a title is not valid UTF-8");
        },
    }
    proof {
        assert(said@ =~= fault_text(fault, name@));
    }
    said
}

/// Where the text of the terms begins.
pub open spec fn term_text_at(counts: Counts) -> int {
    48 + 4 * (counts.terms + 1)
}

/// Where the numbers of the terms begin.
pub open spec fn term_numbers_at(counts: Counts) -> int {
    term_text_at(counts) + counts.term_bytes
}

/// Where the arrays of the index begin, with the starts of the terms' postings.
pub open spec fn arrays_at(counts: Counts) -> int {
    term_numbers_at(counts) + 4 * counts.terms
}

/// Where the postings' documents begin.
pub open spec fn docs_at(counts: Counts) -> int {
    arrays_at(counts) + 4 * (counts.terms + 1)
}

/// Where the starts of the postings' positions begin.
pub open spec fn position_starts_at(counts: Counts) -> int {
    docs_at(counts) + 4 * counts.postings
}

/// Where the positions begin.
pub open spec fn positions_at(counts: Counts) -> int {
    position_starts_at(counts) + 4 * (counts.postings + 1)
}

/// Where the documents begin, with the offsets of their external ids.
pub open spec fn documents_at(counts: Counts) -> int {
    positions_at(counts) + 4 * counts.positions
}

/// Where the text of the external ids begins.
pub open spec fn external_text_at(counts: Counts) -> int {
    documents_at(counts) + 4 * (counts.stored_documents + 1)
}

/// Where the offsets of the titles begin.
pub open spec fn title_offsets_at(counts: Counts) -> int {
    external_text_at(counts) + counts.external_bytes
}

/// Where the text of the titles begins.
pub open spec fn title_text_at(counts: Counts) -> int {
    title_offsets_at(counts) + 4 * (counts.stored_documents + 1)
}

/// Where the last section ends.
pub open spec fn file_end(counts: Counts) -> int {
    title_text_at(counts) + counts.title_bytes
}

/// The counts in a file's header.
pub open spec fn header_in(bytes: Seq<u8>) -> Result<Counts, FileFault> {
    if bytes.len() < 48 {
        Err(FileFault::Truncated)
    } else if bytes.take(8) != crate::format::magic() {
        Err(FileFault::WrongMagic)
    } else if codec::number_at(bytes, 8) != crate::format::VERSION {
        Err(FileFault::WrongVersion(codec::number_at(bytes, 8)))
    } else {
        Ok(
            Counts {
                stored_documents: codec::number_at(bytes, 16),
                terms: codec::number_at(bytes, 20),
                postings: codec::number_at(bytes, 24),
                positions: codec::number_at(bytes, 28),
                term_bytes: codec::number_at(bytes, 32),
                external_bytes: codec::number_at(bytes, 36),
                title_bytes: codec::number_at(bytes, 40),
                indexed_documents: codec::number_at(bytes, 44),
            },
        )
    }
}

/// Whether string `i` lies in the blob, going by its offsets.
pub open spec fn in_range(blob: Seq<u8>, offsets: Seq<u32>, i: int) -> bool {
    offsets[i] <= offsets[i + 1] && offsets[i + 1] <= blob.len()
}

/// What is wrong with the first bad term from `rank` on.
pub open spec fn term_fault(
    blob: Seq<u8>,
    offsets: Seq<u32>,
    rank: int,
    terms: int,
) -> Option<FileFault>
    decreases terms - rank,
{
    if rank >= terms {
        None
    } else if !in_range(blob, offsets, rank) {
        Some(FileFault::TermOffsets)
    } else if !valid_utf8(codec::string_bytes_at(blob, offsets, rank)) {
        Some(FileFault::TermText)
    } else {
        term_fault(blob, offsets, rank + 1, terms)
    }
}

/// The strings in a blob, going by their offsets.
pub open spec fn strings_in(blob: Seq<u8>, offsets: Seq<u32>, count: nat) -> Seq<Seq<char>> {
    Seq::new(count, |i: int| decode_utf8(codec::string_bytes_at(blob, offsets, i)))
}

/// The dictionary of the first `n` terms with their numbers.
pub open spec fn dictionary_of(terms: Seq<Seq<char>>, numbers: Seq<u32>, n: int) -> Map<
    Seq<char>,
    u32,
>
    decreases n,
{
    if n <= 0 {
        Map::empty()
    } else {
        dictionary_of(terms, numbers, n - 1).insert(terms[n - 1], numbers[n - 1])
    }
}

/// Whether the numbers are those below how many there are, each once.
pub open spec fn dense(numbers: Seq<u32>) -> bool {
    &&& forall|i: int| 0 <= i < numbers.len() ==> #[trigger] numbers[i] < numbers.len()
    &&& numbers.no_duplicates()
}

/// The dictionary in a file.
pub open spec fn dictionary_in(bytes: Seq<u8>, counts: Counts) -> Result<
    Map<Seq<char>, u32>,
    FileFault,
> {
    if bytes.len() < arrays_at(counts) {
        Err(FileFault::Truncated)
    } else {
        let n = counts.terms as int;
        let offsets = codec::numbers_at(bytes, 48, (n + 1) as nat);
        let blob = bytes.subrange(term_text_at(counts), term_numbers_at(counts));
        let numbers = codec::numbers_at(bytes, term_numbers_at(counts), n as nat);
        let terms = strings_in(blob, offsets, n as nat);
        if offsets.last() != counts.term_bytes {
            Err(FileFault::DictionaryLength)
        } else {
            match term_fault(blob, offsets, 0, n) {
                Some(fault) => Err(fault),
                None => if !terms.no_duplicates() {
                    Err(FileFault::DuplicateTerms)
                } else if !dense(numbers) {
                    Err(FileFault::TermNumbers)
                } else {
                    Ok(dictionary_of(terms, numbers, n))
                },
            }
        }
    }
}

/// Whether offsets ascend from zero.
pub open spec fn ascend_from_zero(offsets: Seq<u32>) -> bool {
    offsets[0] == 0 && postings::ascending(offsets)
}

/// The index in a file, `map` being its dictionary.
pub open spec fn index_in(bytes: Seq<u8>, counts: Counts, map: Map<Seq<char>, u32>) -> Result<
    IndexView,
    FileFault,
> {
    if bytes.len() < documents_at(counts) {
        Err(FileFault::Truncated)
    } else {
        let starts = codec::numbers_at(bytes, arrays_at(counts), (counts.terms + 1) as nat);
        let docs = codec::numbers_at(bytes, docs_at(counts), counts.postings as nat);
        let position_starts = codec::numbers_at(
            bytes,
            position_starts_at(counts),
            (counts.postings + 1) as nat,
        );
        let positions = codec::numbers_at(bytes, positions_at(counts), counts.positions as nat);
        if starts.last() != counts.postings {
            Err(FileFault::PostingsEnd)
        } else if position_starts.last() != counts.positions {
            Err(FileFault::PositionsEnd)
        } else if !ascend_from_zero(starts) {
            Err(FileFault::PostingOffsets)
        } else if !ascend_from_zero(position_starts) {
            Err(FileFault::PositionOffsets)
        } else {
            Ok(
                IndexView {
                    dictionary: map,
                    term_postings_start: starts,
                    posting_docs: docs.map_values(|doc: u32| DocId(doc)),
                    posting_positions_start: position_starts,
                    positions,
                    documents: counts.indexed_documents,
                },
            )
        }
    }
}

/// What is wrong with the first bad document from `i` on.
pub open spec fn document_fault(
    id_blob: Seq<u8>,
    id_offsets: Seq<u32>,
    title_blob: Seq<u8>,
    title_offsets: Seq<u32>,
    i: int,
    documents: int,
) -> Option<FileFault>
    decreases documents - i,
{
    if i >= documents {
        None
    } else if !in_range(id_blob, id_offsets, i) {
        Some(FileFault::StringOffset)
    } else if !valid_utf8(codec::string_bytes_at(id_blob, id_offsets, i)) {
        Some(FileFault::DocumentIdText)
    } else if !in_range(title_blob, title_offsets, i) {
        Some(FileFault::StringOffset)
    } else if !valid_utf8(codec::string_bytes_at(title_blob, title_offsets, i)) {
        Some(FileFault::TitleText)
    } else {
        document_fault(id_blob, id_offsets, title_blob, title_offsets, i + 1, documents)
    }
}

/// Documents with these external ids and titles.
pub open spec fn documents_of(ids: Seq<Seq<char>>, titles: Seq<Seq<char>>) -> Seq<DocMetaView> {
    Seq::new(ids.len(), |i: int| DocMetaView { external_id: ids[i], title: titles[i] })
}

/// The documents in a file.
pub open spec fn documents_in(bytes: Seq<u8>, counts: Counts) -> Result<
    Seq<DocMetaView>,
    FileFault,
> {
    if bytes.len() < file_end(counts) {
        Err(FileFault::Truncated)
    } else {
        let n = counts.stored_documents as int;
        let id_offsets = codec::numbers_at(bytes, documents_at(counts), (n + 1) as nat);
        let id_blob = bytes.subrange(external_text_at(counts), title_offsets_at(counts));
        let title_offsets = codec::numbers_at(bytes, title_offsets_at(counts), (n + 1) as nat);
        let title_blob = bytes.subrange(title_text_at(counts), file_end(counts));
        match document_fault(id_blob, id_offsets, title_blob, title_offsets, 0, n) {
            Some(fault) => Err(fault),
            None => Ok(
                documents_of(
                    strings_in(id_blob, id_offsets, n as nat),
                    strings_in(title_blob, title_offsets, n as nat),
                ),
            ),
        }
    }
}

/// What a file holds, or the first thing that is wrong with it.
pub open spec fn parsed(bytes: Seq<u8>) -> Result<SearchIndexView, FileFault> {
    match header_in(bytes) {
        Err(fault) => Err(fault),
        Ok(counts) => match dictionary_in(bytes, counts) {
            Err(fault) => Err(fault),
            Ok(map) => match index_in(bytes, counts, map) {
                Err(fault) => Err(fault),
                Ok(index) => match documents_in(bytes, counts) {
                    Err(fault) => Err(fault),
                    Ok(documents) => Ok(SearchIndexView { index, documents }),
                },
            },
        },
    }
}

/// Reads the counts in the header.
fn read_header(bytes: &[u8]) -> (counts: Result<Counts, FileFault>)
    ensures
        counts == header_in(bytes@),
{
    if bytes.len() < crate::format::HEADER_BYTES {
        return Err(FileFault::Truncated);
    }
    let genuine: bool = bytes[0] == 66 && bytes[1] == 79 && bytes[2] == 79 && bytes[3] == 76
        && bytes[4] == 73 && bytes[5] == 68 && bytes[6] == 88 && bytes[7] == 1;
    proof {
        let start = bytes@.take(8);
        let wanted = crate::format::magic();
        if genuine {
            assert(start =~= wanted);
        } else {
            assert(start[0] != wanted[0] || start[1] != wanted[1] || start[2] != wanted[2]
                || start[3] != wanted[3] || start[4] != wanted[4] || start[5] != wanted[5]
                || start[6] != wanted[6] || start[7] != wanted[7]);
        }
    }
    if !genuine {
        return Err(FileFault::WrongMagic);
    }
    let version: u32 = codec::read_number(bytes, 8);
    if version != crate::format::VERSION {
        return Err(FileFault::WrongVersion(version));
    }
    Ok(
        Counts {
            stored_documents: codec::read_number(bytes, 16),
            terms: codec::read_number(bytes, 20),
            postings: codec::read_number(bytes, 24),
            positions: codec::read_number(bytes, 28),
            term_bytes: codec::read_number(bytes, 32),
            external_bytes: codec::read_number(bytes, 36),
            title_bytes: codec::read_number(bytes, 40),
            indexed_documents: codec::read_number(bytes, 44),
        },
    )
}

/// The `from..to` part of some bytes.
fn part(bytes: &[u8], from: usize, to: usize) -> (found: &[u8])
    requires
        from <= to <= bytes@.len(),
    ensures
        found@ == bytes@.subrange(from as int, to as int),
{
    vstd::slice::slice_subrange(bytes, from, to)
}

/// String `i` of a blob, or what is wrong with it.
fn read_string<'a>(blob: &'a [u8], offsets: &Vec<u32>, i: usize) -> (string: Result<
    &'a str,
    bool,
>)
    requires
        i + 1 < offsets@.len(),
    ensures
        match string {
            Ok(string) => {
                &&& in_range(blob@, offsets@, i as int)
                &&& valid_utf8(codec::string_bytes_at(blob@, offsets@, i as int))
                &&& string@ == decode_utf8(codec::string_bytes_at(blob@, offsets@, i as int))
            },
            Err(placed) => {
                &&& placed == in_range(blob@, offsets@, i as int)
                &&& placed ==> !valid_utf8(codec::string_bytes_at(blob@, offsets@, i as int))
            },
        },
{
    let count: usize = offsets.len();
    proof {
        assert(i + 1 < count);
    }
    let from: usize = offsets[i] as usize;
    let to: usize = offsets[i + 1] as usize;
    if from > to || to > blob.len() {
        return Err(false);
    }
    match codec::utf8_of(part(blob, from, to)) {
        Some(string) => {
            proof {
                encode_utf8_decode_utf8(string@);
            }
            Ok(string)
        },
        None => Err(true),
    }
}

/// Terms that are inserted one after the other are each inserted anew if and only if
/// there are as many as the dictionary has.
pub proof fn lemma_dictionary_of(terms: Seq<Seq<char>>, numbers: Seq<u32>, n: int)
    requires
        0 <= n <= terms.len(),
    ensures
        dictionary_of(terms, numbers, n).dom() == terms.take(n).to_set(),
        dictionary_of(terms, numbers, n).dom().finite(),
        dictionary_of(terms, numbers, n).dom().len() == n <==> terms.take(n).no_duplicates(),
    decreases n,
{
    let done = terms.take(n);
    if n > 0 {
        lemma_dictionary_of(terms, numbers, n - 1);
        assert(done =~= terms.take(n - 1).push(terms[n - 1]));
        assert forall|term: Seq<char>| done.to_set().contains(term) <==> terms.take(
            n - 1,
        ).to_set().insert(terms[n - 1]).contains(term) by {
            if done.contains(term) {
                let k = done.index_of(term);
                if k < n - 1 {
                    assert(terms.take(n - 1)[k] == term);
                }
            }
            if terms.take(n - 1).contains(term) {
                let k = terms.take(n - 1).index_of(term);
                assert(done[k] == term);
            }
            assert(done[n - 1] == terms[n - 1]);
        }
        assert(done.to_set() =~= terms.take(n - 1).to_set().insert(terms[n - 1]));
    } else {
        assert(done.to_set() =~= Set::<Seq<char>>::empty());
    }
    assert(dictionary_of(terms, numbers, n).dom() =~= done.to_set());
    vstd::seq_lib::seq_to_set_is_finite(done);
    if done.no_duplicates() {
        done.unique_seq_to_set();
    }
    if done.to_set().len() == n {
        done.lemma_no_dup_set_cardinality();
    }
}

/// Under which number a dictionary without duplicates has a term.
proof fn lemma_dictionary_number(terms: Seq<Seq<char>>, numbers: Seq<u32>, n: int, i: int)
    requires
        0 <= i < n <= terms.len(),
        terms.no_duplicates(),
    ensures
        dictionary_of(terms, numbers, n).contains_key(terms[i]),
        dictionary_of(terms, numbers, n)[terms[i]] == numbers[i],
    decreases n,
{
    if i < n - 1 {
        lemma_dictionary_number(terms, numbers, n - 1, i);
        assert(terms[n - 1] != terms[i]);
    }
}

/// Where the numbers are dense, each term has one of its own.
pub proof fn lemma_dense_numbers(terms: Seq<Seq<char>>, numbers: Seq<u32>)
    requires
        terms.no_duplicates(),
        numbers.len() == terms.len(),
        dense(numbers),
    ensures
        postings::numbers_its_terms(dictionary_of(terms, numbers, terms.len() as int)),
{
    let n = terms.len() as int;
    let map = dictionary_of(terms, numbers, n);
    lemma_dictionary_of(terms, numbers, n);
    assert(terms.take(n) =~= terms);
    assert forall|term: Seq<char>| #[trigger] map.contains_key(term) implies map[term]
        < map.dom().len() by {
        assert(terms.to_set().contains(term));
        let i = terms.index_of(term);
        lemma_dictionary_number(terms, numbers, n, i);
    }
    assert forall|a: Seq<char>, b: Seq<char>|
        #![trigger map.contains_key(a), map.contains_key(b)]
        map.contains_key(a) && map.contains_key(b) && a != b implies map[a] != map[b] by {
        assert(terms.to_set().contains(a) && terms.to_set().contains(b));
        let i = terms.index_of(a);
        let j = terms.index_of(b);
        lemma_dictionary_number(terms, numbers, n, i);
        lemma_dictionary_number(terms, numbers, n, j);
    }
}

/// Whether the numbers are those below how many there are, each once.
fn are_dense(numbers: &Vec<u32>) -> (answer: bool)
    ensures
        answer == dense(numbers@),
{
    let count: usize = numbers.len();
    let mut taken: Vec<bool> = vec![false; count];
    let mut index: usize = 0;
    while index < count
        invariant
            count == numbers@.len(),
            taken@.len() == count,
            index <= count,
            forall|i: int| 0 <= i < index ==> #[trigger] numbers@[i] < count,
            forall|i: int, j: int| 0 <= i < j < index ==> numbers@[i] != numbers@[j],
            forall|i: int| 0 <= i < index ==> taken@[(#[trigger] numbers@[i]) as int],
            forall|k: int|
                0 <= k < count && #[trigger] taken@[k] ==> exists|i: int|
                    0 <= i < index && #[trigger] numbers@[i] == k,
        decreases count - index,
    {
        let number: usize = numbers[index] as usize;
        if number >= count {
            return false;
        }
        if taken[number] {
            return false;
        }
        taken.set(number, true);
        proof {
            assert(numbers@[index as int] == number);
        }
        index += 1;
    }
    true
}

/// Makes a dictionary of the terms in a blob.
fn gather_terms(blob: &[u8], offsets: &Vec<u32>, numbers: &Vec<u32>) -> (dictionary: Result<
    FxHashMap<Box<str>, u32>,
    FileFault,
>)
    requires
        offsets@.len() == numbers@.len() + 1,
    ensures
        ({
            let n = numbers@.len() as int;
            let terms = strings_in(blob@, offsets@, n as nat);
            match term_fault(blob@, offsets@, 0, n) {
                Some(fault) => dictionary == Err::<FxHashMap<Box<str>, u32>, FileFault>(fault),
                None => if !terms.no_duplicates() {
                    dictionary == Err::<FxHashMap<Box<str>, u32>, FileFault>(
                        FileFault::DuplicateTerms,
                    )
                } else if !dense(numbers@) {
                    dictionary == Err::<FxHashMap<Box<str>, u32>, FileFault>(
                        FileFault::TermNumbers,
                    )
                } else {
                    &&& dictionary is Ok
                    &&& dictionary::entries_of(dictionary->Ok_0) == dictionary_of(
                        terms,
                        numbers@,
                        n,
                    )
                    &&& dictionary_of(terms, numbers@, n).dom().finite()
                    &&& dictionary_of(terms, numbers@, n).dom().len() == n
                    &&& postings::numbers_its_terms(dictionary_of(terms, numbers@, n))
                },
            }
        }),
{
    let terms: usize = numbers.len();
    let ghost words = strings_in(blob@, offsets@, terms as nat);
    let room: usize = if terms <= usize::MAX / 256 {
        terms
    } else {
        0
    };
    let mut dictionary = dictionary::with_capacity(room);
    let mut rank: usize = 0;
    proof {
        assert(dictionary::entries_of(dictionary) =~= dictionary_of(words, numbers@, 0));
    }
    while rank < terms
        invariant
            terms == numbers@.len(),
            offsets@.len() == terms + 1,
            words == strings_in(blob@, offsets@, terms as nat),
            rank <= terms,
            term_fault(blob@, offsets@, 0, terms as int) == term_fault(
                blob@,
                offsets@,
                rank as int,
                terms as int,
            ),
            dictionary::entries_of(dictionary) == dictionary_of(words, numbers@, rank as int),
        decreases terms - rank,
    {
        match read_string(blob, offsets, rank) {
            Ok(term) => {
                proof {
                    assert(words[rank as int] == term@);
                }
                dictionary::insert(&mut dictionary, term, numbers[rank]);
            },
            Err(placed) => {
                return Err(
                    if placed {
                        FileFault::TermText
                    } else {
                        FileFault::TermOffsets
                    },
                );
            },
        }
        rank += 1;
    }
    proof {
        lemma_dictionary_of(words, numbers@, terms as int);
        assert(words.take(terms as int) =~= words);
    }
    if dictionary::len(&dictionary) != terms {
        return Err(FileFault::DuplicateTerms);
    }
    if !are_dense(numbers) {
        return Err(FileFault::TermNumbers);
    }
    proof {
        lemma_dense_numbers(words, numbers@);
    }
    Ok(dictionary)
}

/// Reads the dictionary.
fn read_dictionary(bytes: &[u8], counts: &Counts) -> (dictionary: Result<
    FxHashMap<Box<str>, u32>,
    FileFault,
>)
    ensures
        match (dictionary, dictionary_in(bytes@, *counts)) {
            (Ok(dictionary), Ok(map)) => {
                &&& dictionary::entries_of(dictionary) == map
                &&& map.dom().finite()
                &&& map.dom().len() == counts.terms
                &&& postings::numbers_its_terms(map)
            },
            (Err(fault), Err(stated)) => fault == stated,
            _ => false,
        },
{
    let length: usize = bytes.len();
    let text_at: u64 = 48 + 4 * (counts.terms as u64 + 1);
    let numbers_at: u64 = text_at + counts.term_bytes as u64;
    let end: u64 = numbers_at + 4 * counts.terms as u64;
    if (length as u64) < end {
        return Err(FileFault::Truncated);
    }
    let terms: usize = counts.terms as usize;
    let offsets = codec::read_numbers(bytes, 48, terms + 1);
    let blob = part(bytes, text_at as usize, numbers_at as usize);
    let numbers = codec::read_numbers(bytes, numbers_at as usize, terms);
    if offsets[terms] != counts.term_bytes {
        return Err(FileFault::DictionaryLength);
    }
    gather_terms(blob, &offsets, &numbers)
}

/// Whether offsets ascend from zero.
fn do_ascend_from_zero(offsets: &Vec<u32>) -> (answer: bool)
    requires
        offsets@.len() > 0,
    ensures
        answer == ascend_from_zero(offsets@),
{
    if offsets[0] != 0 {
        return false;
    }
    let mut index: usize = 1;
    while index < offsets.len()
        invariant
            1 <= index <= offsets@.len(),
            forall|i: int, j: int|
                0 <= i <= j < index ==> #[trigger] offsets@[i] <= #[trigger] offsets@[j],
        decreases offsets@.len() - index,
    {
        if offsets[index - 1] > offsets[index] {
            return false;
        }
        index += 1;
    }
    true
}

/// Makes document ids of raw ones.
fn doc_ids(raw: &Vec<u32>) -> (ids: Vec<DocId>)
    ensures
        ids@ == raw@.map_values(|doc: u32| DocId(doc)),
{
    let mut ids: Vec<DocId> = Vec::with_capacity(raw.len());
    let mut index: usize = 0;
    while index < raw.len()
        invariant
            index <= raw@.len(),
            ids@.len() == index,
            forall|k: int| 0 <= k < index ==> #[trigger] ids@[k] == DocId(raw@[k]),
        decreases raw@.len() - index,
    {
        ids.push(DocId(raw[index]));
        index += 1;
    }
    proof {
        assert(ids@ =~= raw@.map_values(|doc: u32| DocId(doc)));
    }
    ids
}

/// Reads the arrays of the index.
fn read_index(bytes: &[u8], counts: &Counts, dictionary: FxHashMap<Box<str>, u32>) -> (index:
    Result<Index, FileFault>)
    requires
        dictionary::entries_of(dictionary).dom().finite(),
        dictionary::entries_of(dictionary).dom().len() == counts.terms,
        postings::numbers_its_terms(dictionary::entries_of(dictionary)),
    ensures
        match (index, index_in(bytes@, *counts, dictionary::entries_of(dictionary))) {
            (Ok(index), Ok(view)) => index@ == view && index@.consistent(),
            (Err(fault), Err(stated)) => fault == stated,
            _ => false,
        },
{
    let length: usize = bytes.len();
    let starts_at: u64 = 48 + 4 * (counts.terms as u64 + 1) + counts.term_bytes as u64 + 4
        * counts.terms as u64;
    let docs_begin: u64 = starts_at + 4 * (counts.terms as u64 + 1);
    let position_starts_begin: u64 = docs_begin + 4 * counts.postings as u64;
    let positions_begin: u64 = position_starts_begin + 4 * (counts.postings as u64 + 1);
    let end: u64 = positions_begin + 4 * counts.positions as u64;
    if (length as u64) < end {
        return Err(FileFault::Truncated);
    }
    let terms: usize = counts.terms as usize;
    let postings_count: usize = counts.postings as usize;
    let starts = codec::read_numbers(bytes, starts_at as usize, terms + 1);
    let docs = codec::read_numbers(bytes, docs_begin as usize, postings_count);
    let position_starts = codec::read_numbers(
        bytes,
        position_starts_begin as usize,
        postings_count + 1,
    );
    let positions = codec::read_numbers(
        bytes,
        positions_begin as usize,
        counts.positions as usize,
    );
    if starts[terms] != counts.postings {
        return Err(FileFault::PostingsEnd);
    }
    if position_starts[postings_count] != counts.positions {
        return Err(FileFault::PositionsEnd);
    }
    if !do_ascend_from_zero(&starts) {
        return Err(FileFault::PostingOffsets);
    }
    if !do_ascend_from_zero(&position_starts) {
        return Err(FileFault::PositionOffsets);
    }
    Ok(
        Index::from_parts(
            dictionary,
            starts,
            doc_ids(&docs),
            position_starts,
            positions,
            counts.indexed_documents,
        ),
    )
}

/// Reads the documents.
fn read_documents(bytes: &[u8], counts: &Counts) -> (documents: Result<Vec<DocMeta>, FileFault>)
    ensures
        match (documents, documents_in(bytes@, *counts)) {
            (Ok(documents), Ok(views)) => documents@.map_values(|meta: DocMeta| meta@) == views,
            (Err(fault), Err(stated)) => fault == stated,
            _ => false,
        },
{
    let length: usize = bytes.len();
    let ids_at: u64 = 48 + 4 * (counts.terms as u64 + 1) + counts.term_bytes as u64 + 4
        * counts.terms as u64 + 4 * (counts.terms as u64 + 1) + 4 * counts.postings as u64 + 4 * (
    counts.postings as u64 + 1) + 4 * counts.positions as u64;
    let id_text_at: u64 = ids_at + 4 * (counts.stored_documents as u64 + 1);
    let titles_at: u64 = id_text_at + counts.external_bytes as u64;
    let title_text: u64 = titles_at + 4 * (counts.stored_documents as u64 + 1);
    let end: u64 = title_text + counts.title_bytes as u64;
    if (length as u64) < end {
        return Err(FileFault::Truncated);
    }
    let stored: usize = counts.stored_documents as usize;
    let id_offsets = codec::read_numbers(bytes, ids_at as usize, stored + 1);
    let id_blob = part(bytes, id_text_at as usize, titles_at as usize);
    let title_offsets = codec::read_numbers(bytes, titles_at as usize, stored + 1);
    let title_blob = part(bytes, title_text as usize, end as usize);
    let ghost ids = strings_in(id_blob@, id_offsets@, stored as nat);
    let ghost names = strings_in(title_blob@, title_offsets@, stored as nat);
    let ghost all = documents_of(ids, names);
    let mut documents: Vec<DocMeta> = Vec::with_capacity(stored);
    let mut index: usize = 0;
    while index < stored
        invariant
            stored == counts.stored_documents,
            id_offsets@.len() == stored + 1,
            title_offsets@.len() == stored + 1,
            bytes@.len() >= file_end(*counts),
            id_offsets@ == codec::numbers_at(bytes@, documents_at(*counts), (stored + 1) as nat),
            id_blob@ == bytes@.subrange(external_text_at(*counts), title_offsets_at(*counts)),
            title_offsets@ == codec::numbers_at(
                bytes@,
                title_offsets_at(*counts),
                (stored + 1) as nat,
            ),
            title_blob@ == bytes@.subrange(title_text_at(*counts), file_end(*counts)),
            ids == strings_in(id_blob@, id_offsets@, stored as nat),
            names == strings_in(title_blob@, title_offsets@, stored as nat),
            all == documents_of(ids, names),
            index <= stored,
            documents@.len() == index,
            forall|k: int| 0 <= k < index ==> (#[trigger] documents@[k])@ == all[k],
            document_fault(
                id_blob@,
                id_offsets@,
                title_blob@,
                title_offsets@,
                0,
                stored as int,
            ) == document_fault(
                id_blob@,
                id_offsets@,
                title_blob@,
                title_offsets@,
                index as int,
                stored as int,
            ),
        decreases stored - index,
    {
        let external = match read_string(id_blob, &id_offsets, index) {
            Ok(string) => string,
            Err(placed) => {
                return Err(
                    if placed {
                        FileFault::DocumentIdText
                    } else {
                        FileFault::StringOffset
                    },
                );
            },
        };
        let title = match read_string(title_blob, &title_offsets, index) {
            Ok(string) => string,
            Err(placed) => {
                return Err(
                    if placed {
                        FileFault::TitleText
                    } else {
                        FileFault::StringOffset
                    },
                );
            },
        };
        proof {
            assert(ids[index as int] == external@);
            assert(names[index as int] == title@);
        }
        documents.push(DocMeta { external_id: external.to_owned(), title: title.to_owned() });
        index += 1;
    }
    proof {
        assert(documents@.map_values(|meta: DocMeta| meta@) =~= all);
    }
    Ok(documents)
}

/// Takes a file apart.
fn read(bytes: &[u8]) -> (bundle: Result<SearchIndex, FileFault>)
    ensures
        match (bundle, parsed(bytes@)) {
            (Ok(bundle), Ok(view)) => bundle@ == view && bundle@.index.consistent(),
            (Err(fault), Err(stated)) => fault == stated,
            _ => false,
        },
{
    let counts = match read_header(bytes) {
        Ok(counts) => counts,
        Err(fault) => {
            return Err(fault);
        },
    };
    let dictionary = match read_dictionary(bytes, &counts) {
        Ok(dictionary) => dictionary,
        Err(fault) => {
            return Err(fault);
        },
    };
    let index = match read_index(bytes, &counts, dictionary) {
        Ok(index) => index,
        Err(fault) => {
            return Err(fault);
        },
    };
    match read_documents(bytes, &counts) {
        Ok(documents) => Ok(SearchIndex::new(index, DocStore::from_entries(documents))),
        Err(fault) => Err(fault),
    }
}

impl SearchIndex {
    /// Reads what [`SearchIndex::save`] wrote to the file called `name`.
    ///
    /// [`Error::IndexFormat`] comes of bytes that are not an index file, were written
    /// in another version of the format, are cut short, or do not agree with
    /// themselves.
    pub fn load(name: &str, bytes: &[u8]) -> (bundle: Result<SearchIndex, Error>)
        ensures
            match (bundle, parsed(bytes@)) {
                (Ok(bundle), Ok(view)) => bundle@ == view && bundle@.index.consistent(),
                (Err(error), Err(fault)) => error matches Error::IndexFormat(said) && said@
                    == fault_text(fault, name@),
                _ => false,
            },
    {
        match read(bytes) {
            Ok(bundle) => Ok(bundle),
            Err(fault) => Err(Error::IndexFormat(say(fault, name))),
        }
    }

    /// Reads an index from memory. Where the bytes end too early, that is an
    /// [`Error::Io`], as it is of any reader that ends too early.
    pub fn read_from(bytes: &[u8]) -> (bundle: Result<SearchIndex, Error>)
        ensures
            match (bundle, parsed(bytes@)) {
                (Ok(bundle), Ok(view)) => bundle@ == view && bundle@.index.consistent(),
                (Err(error), Err(FileFault::Truncated)) => error matches Error::Io { path, .. }
                    && path@ == "<index>"@,
                (Err(error), Err(fault)) => error matches Error::IndexFormat(said) && said@
                    == fault_text(fault, "<index>"@),
                _ => false,
            },
    {
        match read(bytes) {
            Ok(bundle) => Ok(bundle),
            Err(FileFault::Truncated) => Err(Error::io("<index>".to_owned(), unexpected_end())),
            Err(fault) => Err(Error::IndexFormat(say(fault, "<index>"))),
        }
    }
}

} // verus!
