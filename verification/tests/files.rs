//! Writing an index to bytes and reading it back.

use boolsearch::codec::read_number;
use boolsearch::format::HEADER_BYTES;
use boolsearch::ordering::is_before;
use boolsearch::{DocId, DocStore, Document, Error, IndexBuilder, SearchIndex};

fn document(id: u32, title: &str, body: &str) -> Document {
    Document {
        id: DocId::new(id),
        external_id: format!("07{id:02}.0001"),
        title: title.to_owned(),
        body: body.to_owned(),
    }
}

fn corpus() -> Vec<Document> {
    vec![
        document(0, "Quantum error correction", "surface code quantum"),
        document(1, "Machine learning", "neural networks learn"),
        document(2, "Quantum computing", "quantum quantum quantum"),
        document(3, "Unicode 量子", "naïve don't 3.14"),
    ]
}

fn build(documents: &[Document]) -> SearchIndex {
    let mut builder = IndexBuilder::new();
    for document in documents {
        builder.add_document(document);
    }

    let mut assembler = builder.finish_counting().expect("small");
    let mut store = DocStore::new();
    for document in documents {
        assembler.add_document(document);
        store.push(document);
    }

    SearchIndex::new(assembler.finish().expect("consistent"), store)
}

fn round_trip(documents: &[Document]) -> (SearchIndex, SearchIndex) {
    let original = build(documents);
    let mut bytes = Vec::new();
    original.write_to(&mut bytes).expect("writing to memory");
    let loaded = SearchIndex::read_from(bytes.as_slice()).expect("reading back");
    (original, loaded)
}

/// A file of one document with two terms.
fn small_file() -> Vec<u8> {
    build(&[document(0, "b a", "")]).save().expect("small")
}

/// What is said of the small file with the number at `at` replaced.
fn refused(at: usize, number: u32) -> String {
    let mut bytes = small_file();
    bytes[at..at + 4].copy_from_slice(&number.to_le_bytes());
    message(&bytes)
}

/// What is said of the small file with the byte at `at` replaced.
fn refused_byte(at: usize, byte: u8) -> String {
    let mut bytes = small_file();
    bytes[at] = byte;
    message(&bytes)
}

fn message(bytes: &[u8]) -> String {
    match SearchIndex::read_from(bytes) {
        Err(Error::IndexFormat(message)) => message,
        other => panic!("got {other:?}"),
    }
}

#[test]
fn a_loaded_index_answers_exactly_as_the_built_one_did() {
    let documents = corpus();
    let (original, loaded) = round_trip(&documents);

    assert_eq!(original.index.stats(), loaded.index.stats());

    for (term, id) in original.index.vocabulary() {
        let loaded_id = loaded
            .index
            .term_id(term)
            .unwrap_or_else(|| panic!("{term:?} was lost"));

        assert_eq!(
            original.index.doc_ids(id),
            loaded.index.doc_ids(loaded_id),
            "{term:?} documents"
        );

        for nth in 0..original.index.document_frequency(id) {
            assert_eq!(
                original.index.positions(id, nth),
                loaded.index.positions(loaded_id, nth),
                "{term:?} positions in posting {nth}"
            );
        }
    }
}

#[test]
fn document_metadata_survives_the_round_trip() {
    let documents = corpus();
    let (original, loaded) = round_trip(&documents);

    assert_eq!(original.documents.len(), loaded.documents.len());
    for (id, meta) in original.documents.iter() {
        let other = loaded.documents.get(id).expect("present");
        assert_eq!(meta.external_id, other.external_id);
        assert_eq!(meta.title, other.title);
    }
}

#[test]
fn non_ascii_text_survives_the_round_trip() {
    let documents = corpus();
    let (_, loaded) = round_trip(&documents);

    assert!(loaded.index.term_id("量").is_some());
    assert!(loaded.index.term_id("naïve").is_some());
    assert!(loaded.index.term_id("don't").is_some());
    assert!(loaded.index.term_id("3.14").is_some());
    assert_eq!(
        loaded.documents.get(DocId::new(3)).unwrap().title,
        "Unicode 量子"
    );
}

#[test]
fn saving_is_deterministic() {
    // Two independently built indexes over the same corpus must serialize
    // to identical bytes. They will not, if the dictionary is written in
    // hash order — which is exactly why it is sorted.
    let documents = corpus();

    let mut first = Vec::new();
    build(&documents).write_to(&mut first).expect("write");

    let mut second = Vec::new();
    build(&documents).write_to(&mut second).expect("write");

    assert_eq!(first, second, "the same corpus produced different bytes");
}

#[test]
fn the_dictionary_is_written_in_sorted_order() {
    let documents = corpus();
    let index = build(&documents);
    let mut bytes = Vec::new();
    index.write_to(&mut bytes).expect("write");

    // Pull the term blob back out and confirm it is sorted.
    let terms = index.index.terms();
    let header = HEADER_BYTES;
    let offsets_at = header;
    let blob_at = offsets_at + (terms + 1) * 4;

    let offsets: Vec<u32> = (0..=terms)
        .map(|i| read_number(&bytes, offsets_at + i * 4))
        .collect();

    let mut previous = String::new();
    for rank in 0..terms {
        let from = blob_at + offsets[rank] as usize;
        let to = blob_at + offsets[rank + 1] as usize;
        let term = std::str::from_utf8(&bytes[from..to]).expect("utf-8");
        assert!(
            previous.as_str() < term,
            "terms out of order: {previous:?} then {term:?}"
        );
        previous = term.to_owned();
    }
}

#[test]
fn an_empty_index_round_trips() {
    let (_, loaded) = round_trip(&[]);

    assert_eq!(loaded.index.terms(), 0);
    assert_eq!(loaded.documents.len(), 0);
    assert!(loaded.index.term_id("quantum").is_none());
}

#[test]
fn a_file_that_is_not_an_index_is_refused() {
    let bytes: &[u8] = b"this is not an index file at all, not even close";
    let error = SearchIndex::read_from(bytes).expect_err("should be refused");

    assert!(
        matches!(&error, Error::IndexFormat(message) if message.contains("magic")),
        "got {error:?}"
    );
}

#[test]
fn a_file_from_another_format_version_is_refused() {
    let mut bytes = Vec::new();
    bytes.extend_from_slice(b"BOOLIDX\x01");
    bytes.extend_from_slice(&99u32.to_le_bytes());
    bytes.extend_from_slice(&[0u8; HEADER_BYTES - 12]);

    let error = SearchIndex::read_from(bytes.as_slice()).expect_err("should be refused");
    assert!(
        matches!(&error, Error::IndexFormat(message) if message.contains("version 99")),
        "got {error:?}"
    );
}

#[test]
fn a_truncated_file_is_refused_rather_than_misread() {
    let documents = corpus();
    let mut bytes = Vec::new();
    build(&documents).write_to(&mut bytes).expect("write");

    // Cut it off anywhere past the header and it must fail, never silently
    // produce a smaller index.
    for cut in [HEADER_BYTES + 1, bytes.len() / 2, bytes.len() - 1] {
        let error = SearchIndex::read_from(&bytes[..cut])
            .expect_err("a truncated file should be refused");
        assert!(
            matches!(error, Error::IndexFormat(_) | Error::Io { .. }),
            "cut at {cut} gave {error:?}"
        );
    }
}

#[test]
fn a_header_promising_more_than_the_file_holds_is_refused() {
    let documents = corpus();
    let mut bytes = Vec::new();
    build(&documents).write_to(&mut bytes).expect("write");

    // Claim a million terms.
    bytes[20..24].copy_from_slice(&1_000_000u32.to_le_bytes());

    let error = SearchIndex::read_from(bytes.as_slice()).expect_err("should be refused");
    assert!(
        matches!(error, Error::IndexFormat(_) | Error::Io { .. }),
        "got {error:?}"
    );
}

#[test]
fn every_cut_of_a_file_is_refused() {
    let bytes = build(&corpus()).save().expect("small");
    for cut in 0..bytes.len() {
        match SearchIndex::load("cut.bin", &bytes[..cut]) {
            Err(Error::IndexFormat(message)) => assert_eq!(message, "cut.bin is truncated"),
            other => panic!("cut at {cut} gave {other:?}"),
        }
    }
}

#[test]
fn bytes_behind_the_last_section_are_not_looked_at() {
    let mut bytes = build(&corpus()).save().expect("small");
    let length = bytes.len();
    bytes.extend_from_slice(b"left over");
    let loaded = SearchIndex::read_from(&bytes).expect("reads");
    assert_eq!(loaded.save().expect("small"), &bytes[..length]);
}

#[test]
fn a_small_file_is_laid_out_byte_for_byte() {
    let mut expected: Vec<u8> = b"BOOLIDX\x01".to_vec();
    for number in [1u32, 0, 1, 2, 2, 2, 2, 9, 3, 1] {
        expected.extend_from_slice(&number.to_le_bytes());
    }
    for number in [0u32, 1, 2] {
        expected.extend_from_slice(&number.to_le_bytes());
    }
    expected.extend_from_slice(b"ab");
    // The numbers of the terms, the four arrays, and the offsets of the external ids.
    for number in [1u32, 0, 0, 1, 2, 0, 0, 0, 1, 2, 0, 1, 0, 9] {
        expected.extend_from_slice(&number.to_le_bytes());
    }
    expected.extend_from_slice(b"0700.0001");
    for number in [0u32, 3] {
        expected.extend_from_slice(&number.to_le_bytes());
    }
    expected.extend_from_slice(b"b a");
    assert_eq!(small_file(), expected);
}

#[test]
fn writing_appends_to_what_is_there() {
    let index = build(&corpus());
    let mut bytes = b"before".to_vec();
    index.write_to(&mut bytes).expect("small");
    assert_eq!(&bytes[..6], b"before");
    assert_eq!(&bytes[6..], index.save().expect("small"));
}

#[test]
fn each_fault_in_a_file_is_named() {
    // Sections of the small file: 48 offsets, 60 terms, 62 numbers, 70 starts of
    // postings, 82 documents, 90 starts of positions, 102 positions, 110 offsets of
    // ids, 118 ids, 127 offsets of titles, 135 titles.
    assert_eq!(small_file().len(), 138);
    assert_eq!(
        refused(8, 99),
        "index was written by format version 99, this build reads 1"
    );
    assert_eq!(refused_byte(7, 2), "not an index file: wrong magic number");
    assert_eq!(
        refused(56, 1),
        "term dictionary length does not match its offsets"
    );
    assert_eq!(refused(52, 5), "term offsets are out of order");
    assert_eq!(refused_byte(60, 0xff), "a term is not valid UTF-8");
    assert_eq!(
        refused_byte(61, b'a'),
        "the term dictionary contains duplicates"
    );
    assert_eq!(refused(62, 2), "the term numbers do not match the terms");
    assert_eq!(refused(62, 0), "the term numbers do not match the terms");
    assert_eq!(
        refused(78, 1),
        "the postings array does not end where the term offsets say it should"
    );
    assert_eq!(
        refused(98, 1),
        "the positions array does not end where the posting offsets say it should"
    );
    assert_eq!(
        refused(70, 1),
        "the term offsets into the postings are out of order"
    );
    assert_eq!(
        refused(74, 3),
        "the term offsets into the postings are out of order"
    );
    assert_eq!(
        refused(90, 1),
        "the posting offsets into the positions are out of order"
    );
    assert_eq!(refused(114, 10), "a string offset is out of range");
    assert_eq!(refused_byte(118, 0xff), "a document id is not valid UTF-8");
    assert_eq!(refused(131, 4), "a string offset is out of range");
    assert_eq!(refused_byte(135, 0xff), "a title is not valid UTF-8");
}

#[test]
fn bytes_that_end_too_early_are_an_unexpected_end() {
    let bytes = small_file();
    for cut in 0..bytes.len() {
        match SearchIndex::read_from(&bytes[..cut]) {
            Err(Error::Io { path, source }) => {
                assert_eq!(path, "<index>");
                assert_eq!(source.kind(), std::io::ErrorKind::UnexpectedEof);
            }
            other => panic!("cut at {cut} gave {other:?}"),
        }
    }
}

#[test]
fn a_file_is_as_long_as_its_sections_are() {
    let documents = corpus();
    let index = build(&documents);
    let stats = index.index.stats();
    let terms: usize = index.index.vocabulary().iter().map(|(term, _)| term.len()).sum();
    let ids: usize = documents.iter().map(|document| document.external_id.len()).sum();
    let titles: usize = documents.iter().map(|document| document.title.len()).sum();
    let numbers = (stats.terms + 1)
        + stats.terms
        + (stats.terms + 1)
        + stats.postings
        + (stats.postings + 1)
        + stats.positions
        + 2 * (stats.documents + 1);
    assert_eq!(
        index.save().expect("small").len(),
        HEADER_BYTES + 4 * numbers + terms + ids + titles
    );
}

#[test]
fn terms_are_ordered_as_their_bytes_are() {
    let terms = ["", "a", "ab", "b", "z", "\u{7f}", "é", "ÿ", "量", "\u{ffff}", "\u{10000}"];
    for a in terms {
        for b in terms {
            assert_eq!(is_before(a, b), a < b, "{a:?} and {b:?}");
        }
    }
}

#[test]
fn a_file_that_cannot_be_used_says_so() {
    let error = SearchIndex::load("index.bin", b"").expect_err("empty");
    assert_eq!(error.to_string(), "invalid index: index.bin is truncated");
}
