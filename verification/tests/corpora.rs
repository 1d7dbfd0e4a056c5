//! Documents, ids, and the reader's decisions.

use std::io::BufRead;

use boolsearch::whitespace::trim;
use boolsearch::{
    normalize_whitespace, ArxivRecord, DocId, DocStore, Document, Error, JsonlCorpus, LineAction,
    ParsedLine, ParsedLines,
};

const SAMPLE: &str = "{\"id\":\"0704.0001\",\"title\":\"Prompt diphoton production\",\"abstract\":\"  A calculation.  \",\"categories\":\"hep-ph\"}\n{\"id\":\"0704.0002\",\"title\":\"Sparsity-certifying graphs\",\"abstract\":\"We describe a decomposition.\",\"submitter\":\"Ileana Streinu\"}\n";

/// The fields of a record, or what the JSON reader objects to.
fn parse(line: &str) -> Result<ArxivRecord, serde_json::Error> {
    let value: serde_json::Value = serde_json::from_str(line)?;
    Ok(ArxivRecord {
        id: serde_json::from_value(value["id"].clone())?,
        title: serde_json::from_value(value["title"].clone())?,
        body: serde_json::from_value(value["abstract"].clone())?,
    })
}

fn open(input: &str) -> JsonlCorpus<&[u8]> {
    JsonlCorpus::from_reader(input.as_bytes(), "test.jsonl".to_owned())
}

/// The next document or error, or `None` at the end of the input.
fn next(corpus: &mut JsonlCorpus<&[u8]>) -> Option<Result<Document, Error>> {
    let mut buffer = String::new();
    loop {
        buffer.clear();
        corpus.begin_line();
        let bytes = match corpus.reader_mut().read_line(&mut buffer) {
            Ok(bytes) => bytes,
            Err(source) => return Some(Err(corpus.read_failed(source))),
        };
        match corpus.line_read(bytes, &buffer) {
            LineAction::EndOfFile => return None,
            LineAction::Blank => {}
            LineAction::Record(line) => {
                let parsed = parse(line);
                return Some(corpus.record_parsed(parsed));
            }
        }
    }
}

fn items(input: &str) -> Vec<Result<Document, Error>> {
    let mut corpus = open(input);
    let mut items = Vec::new();
    while let Some(item) = next(&mut corpus) {
        items.push(item);
    }
    items
}

fn read_all(input: &str) -> Vec<Document> {
    items(input)
        .into_iter()
        .map(|item| item.expect("every record in this fixture is well formed"))
        .collect()
}

/// The same input, its lines parsed beforehand.
fn in_memory(input: &str) -> JsonlCorpus<ParsedLines> {
    let lines = input
        .split_inclusive('\n')
        .map(|line| ParsedLine {
            text: line.to_owned(),
            record: parse(line.trim()),
        })
        .collect();
    JsonlCorpus::from_reader(ParsedLines::new(lines), "test.jsonl".to_owned())
}

#[test]
fn lines_in_memory_are_read_as_lines_of_a_file_are() {
    let good = SAMPLE.split_inclusive('\n').next().expect("two lines");
    for input in [
        String::new(),
        "\n  \n".to_owned(),
        SAMPLE.to_owned(),
        format!("\n{SAMPLE}\nbroken\n \u{a0}\n{SAMPLE}"),
        format!("broken\nbroken\n{}", good.trim()),
    ] {
        let mut streamed = open(&input);
        let mut corpus = in_memory(&input);
        loop {
            let expected = next(&mut streamed);
            let item = corpus.next();
            assert_eq!(corpus.bytes_read(), streamed.bytes_read());
            assert_eq!(corpus.lines_read(), streamed.lines_read());
            match (expected, item) {
                (None, None) => break,
                (Some(Ok(expected)), Some(Ok(document))) => assert_eq!(document, expected),
                (Some(Err(expected)), Some(Err(error))) => {
                    assert_eq!(error.to_string(), expected.to_string());
                }
                other => panic!("got {other:?}"),
            }
        }
        assert_eq!(corpus.bytes_read() as usize, input.len());
    }
}

#[test]
fn reading_everything_gives_one_item_per_line_that_is_not_blank() {
    let input = format!("\n{SAMPLE}\nbroken\n{SAMPLE}");
    let mut corpus = in_memory(&input);
    let items = corpus.read_all();
    let ids: Vec<Option<u32>> = items
        .iter()
        .map(|item| item.as_ref().ok().map(|document| document.id.get()))
        .collect();
    assert_eq!(ids, [Some(0), Some(1), None, Some(2), Some(3)]);
    assert!(matches!(&items[2], Err(Error::MalformedRecord { line: 5, .. })));
    assert_eq!(corpus.lines_read(), 8);
    assert_eq!(corpus.bytes_read() as usize, input.len());
    assert!(corpus.next().is_none());
}

#[test]
fn ids_sort_by_their_raw_value() {
    let mut ids = [DocId::new(9), DocId::first(), DocId::new(3)];
    ids.sort_unstable();
    assert_eq!(ids, [DocId::first(), DocId::new(3), DocId::new(9)]);
}

#[test]
fn ids_round_trip_through_their_raw_value() {
    assert_eq!(DocId::new(42).get(), 42);
    assert_eq!(DocId::new(42).as_usize(), 42);
    assert_eq!(DocId::first().get(), 0);
}

#[test]
fn ids_display_distinguishably_from_a_plain_number() {
    assert_eq!(DocId::new(42).to_string(), "#42");
}

#[test]
fn the_last_id_has_no_successor() {
    assert_eq!(DocId::first().checked_next(), Some(DocId::new(1)));
    assert_eq!(DocId::new(u32::MAX).checked_next(), None);
}

#[test]
fn records_become_documents_numbered_from_zero() {
    let documents = read_all(SAMPLE);

    assert_eq!(documents.len(), 2);
    assert_eq!(documents[0].id, DocId::first());
    assert_eq!(documents[1].id, DocId::new(1));
    assert_eq!(documents[0].external_id, "0704.0001");
    assert_eq!(documents[1].external_id, "0704.0002");
}

#[test]
fn unused_json_fields_are_ignored_rather_than_rejected() {
    let documents = read_all(SAMPLE);
    assert_eq!(documents[0].title, "Prompt diphoton production");
}

#[test]
fn surrounding_whitespace_is_trimmed_from_text() {
    let documents = read_all(SAMPLE);
    assert_eq!(documents[0].body, "A calculation.");
}

#[test]
fn hard_wrapped_text_is_unwrapped() {
    let input = "{\"id\":\"0704.0001\",\"title\":\"Calculation of prompt diphoton production\\n  cross sections\",\"abstract\":\"  A fully differential calculation\\nis presented.\\n\"}\n";

    let documents = read_all(input);

    assert_eq!(
        documents[0].title,
        "Calculation of prompt diphoton production cross sections"
    );
    assert_eq!(
        documents[0].body,
        "A fully differential calculation is presented."
    );
}

#[test]
fn whitespace_normalization_handles_every_kind_of_gap() {
    assert_eq!(normalize_whitespace(""), "");
    assert_eq!(normalize_whitespace("   "), "");
    assert_eq!(normalize_whitespace("one"), "one");
    assert_eq!(normalize_whitespace("  one  "), "one");
    assert_eq!(normalize_whitespace("one\ntwo"), "one two");
    assert_eq!(normalize_whitespace("one \t\r\n two"), "one two");
    assert_eq!(normalize_whitespace("one   two    three"), "one two three");
    assert_eq!(normalize_whitespace("one\u{a0}two"), "one two");
}

#[test]
fn blank_lines_are_skipped_without_consuming_an_id() {
    let input = format!("\n{SAMPLE}\n   \n");
    let documents = read_all(&input);

    assert_eq!(documents.len(), 2);
    assert_eq!(documents[0].id, DocId::first());
    assert_eq!(documents[1].id, DocId::new(1));
}

#[test]
fn a_malformed_line_reports_its_line_number_and_does_not_stop_the_stream() {
    let input = "{\"id\":\"a\",\"title\":\"First\",\"abstract\":\"one\"}\n{ this is not json\n{\"id\":\"b\",\"title\":\"Second\",\"abstract\":\"two\"}\n";

    let items = items(input);

    assert_eq!(items.len(), 3);
    assert!(items[0].is_ok());
    assert!(items[2].is_ok());

    let error = items[1].as_ref().expect_err("line 2 is not valid JSON");
    let Error::MalformedRecord { line, .. } = error else {
        panic!("expected a malformed-record error, got {error:?}");
    };
    assert_eq!(*line, 2);
}

#[test]
fn a_record_missing_a_required_field_is_malformed() {
    let items = items("{\"id\":\"a\",\"title\":\"No abstract here\"}\n");

    assert_eq!(items.len(), 1);
    assert!(matches!(items[0], Err(Error::MalformedRecord { .. })));
}

#[test]
fn ids_stay_dense_when_malformed_records_are_skipped() {
    let input = "{\"id\":\"a\",\"title\":\"First\",\"abstract\":\"one\"}\nnonsense\n{\"id\":\"b\",\"title\":\"Second\",\"abstract\":\"two\"}\n";

    let documents: Vec<_> = items(input).into_iter().filter_map(Result::ok).collect();

    assert_eq!(documents.len(), 2);
    assert_eq!(documents[0].id, DocId::first());
    assert_eq!(documents[1].id, DocId::new(1));
}

#[test]
fn byte_and_line_counters_track_the_whole_file() {
    let mut corpus = open(SAMPLE);
    let mut count = 0;
    while next(&mut corpus).is_some() {
        count += 1;
    }

    assert_eq!(count, 2);
    assert_eq!(corpus.bytes_read(), SAMPLE.len() as u64);
    assert_eq!(corpus.lines_read(), 3); // two records plus the EOF probe
}

#[test]
fn a_doc_store_is_indexed_by_doc_id() {
    let documents = read_all(SAMPLE);
    let mut store = DocStore::new();
    for document in &documents {
        store.push(document);
    }

    assert_eq!(store.len(), 2);
    assert!(!store.is_empty());
    assert_eq!(store.get(DocId::first()).unwrap().external_id, "0704.0001");
    assert_eq!(
        store.get(DocId::new(1)).unwrap().title,
        "Sparsity-certifying graphs"
    );
    assert!(store.get(DocId::new(2)).is_none());
}

#[test]
fn an_empty_doc_store_says_so() {
    let store = DocStore::new();
    assert!(store.is_empty());
    assert_eq!(store.len(), 0);
    assert!(store.get(DocId::first()).is_none());
    assert_eq!(store, DocStore::default());
}

#[test]
fn iterating_a_doc_store_yields_ids_in_corpus_order() {
    let documents = read_all(SAMPLE);
    let mut store = DocStore::with_capacity(documents.len());
    for document in &documents {
        store.push(document);
    }

    let ids: Vec<DocId> = store.iter().into_iter().map(|(id, _)| id).collect();
    assert_eq!(ids, vec![DocId::first(), DocId::new(1)]);
    assert_eq!(store.iter()[1].1.external_id, "0704.0002");
}

#[test]
fn text_len_counts_title_and_body() {
    let documents = read_all(SAMPLE);
    assert_eq!(
        documents[0].text_len(),
        "Prompt diphoton production".len() + "A calculation.".len()
    );
}

#[test]
fn the_line_that_ends_the_file_is_told_from_a_blank_one() {
    let mut corpus = open("");
    corpus.begin_line();
    assert_eq!(corpus.line_read(0, ""), LineAction::EndOfFile);
    assert_eq!(corpus.line_read(1, "\n"), LineAction::Blank);
    assert_eq!(corpus.line_read(3, " \u{a0}"), LineAction::Blank);
    assert_eq!(corpus.line_read(4, " {}\n"), LineAction::Record("{}"));
    assert_eq!(corpus.bytes_read(), 8);
    assert_eq!(corpus.lines_read(), 1);
}

#[test]
fn a_line_that_cannot_be_read_names_the_file() {
    let corpus = open("");
    let error = corpus.read_failed(std::io::Error::new(std::io::ErrorKind::Other, "gone"));
    assert_eq!(error.to_string(), "i/o error on test.jsonl");
}

#[test]
fn a_malformed_record_names_file_and_line() {
    let items = items("\n\nnonsense\n");
    let error = items[0].as_ref().expect_err("line 3 is not valid JSON");
    assert_eq!(error.to_string(), "test.jsonl:3: malformed record");
}

#[test]
fn normalizing_whitespace_twice_changes_nothing() {
    for text in ["", " a ", "a\u{2003}\u{2003}b", "\u{85}x\ty\u{3000}", "plain text"] {
        let once = normalize_whitespace(text);
        assert_eq!(normalize_whitespace(&once), once);
        assert_eq!(once, text.split_whitespace().collect::<Vec<_>>().join(" "));
    }
}

#[test]
fn trimming_agrees_with_the_standard_library() {
    for text in ["", "  ", "a", " a b ", "\u{3000}x\u{a0}", "\nnaïve\r\n", "é "] {
        assert_eq!(trim(text), text.trim());
    }
}

#[test]
fn text_len_counts_characters_not_bytes() {
    let document = Document {
        id: DocId::new(0),
        external_id: "x".to_owned(),
        title: "naïve".to_owned(),
        body: "é".to_owned(),
    };
    assert_eq!(document.text_len(), 6);
}
