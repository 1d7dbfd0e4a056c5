//! The whole engine on a small corpus: twenty records shaped as the arXiv dump shapes
//! them, with the fields that the engine ignores, and a damaged file.

use std::collections::{BTreeMap, BTreeSet};
use std::io::BufRead;

use boolsearch::{
    tokenize, ArxivRecord, DocId, DocStore, Document, Error, Index, IndexBuilder, JsonlCorpus,
    LineAction, Posting, SearchIndex, TermId, Token, FIELD_GAP,
};

/// Twenty records.
const TINY: &str = r##"{"id": "0704.0001", "submitter": "A. Author", "authors": "A. Author and B. Writer", "title": "Calculation of prompt diphoton production cross sections at Tevatron and\n  LHC energies", "comments": null, "journal-ref": null, "doi": null, "report-no": null, "categories": "hep-ph cs.IR", "license": null, "abstract": "  A fully differential calculation in perturbative quantum chromodynamics is\npresented for the production of photon pairs at hadron colliders.\n", "versions": [{"version": "v1", "created": "Mon, 2 Apr 2007 19:18:42 GMT"}], "update_date": "2008-11-26", "authors_parsed": [["Author", "A.", ""], ["Writer", "B.", ""]]}
{"id": "0704.0002", "submitter": "A. Author", "authors": "A. Author and B. Writer", "title": "Sparsity-certifying graph decompositions", "comments": null, "journal-ref": null, "doi": null, "report-no": null, "categories": "hep-ph cs.IR", "license": null, "abstract": "  We describe a new algorithm, the pebble game with colors, and use it to obtain a\ncharacterization of sparse graphs and of their decompositions into trees.\n", "versions": [{"version": "v1", "created": "Mon, 2 Apr 2007 19:18:42 GMT"}], "update_date": "2008-11-26", "authors_parsed": [["Author", "A.", ""], ["Writer", "B.", ""]]}
{"id": "0704.0003", "submitter": "A. Author", "authors": "A. Author and B. Writer", "title": "Surface code quantum error correction at threshold", "comments": null, "journal-ref": null, "doi": null, "report-no": null, "categories": "hep-ph cs.IR", "license": null, "abstract": "  The surface code tolerates noise up to a threshold, and we measure that threshold for\nquantum error correction under circuit level noise.\n", "versions": [{"version": "v1", "created": "Mon, 2 Apr 2007 19:18:42 GMT"}], "update_date": "2008-11-26", "authors_parsed": [["Author", "A.", ""], ["Writer", "B.", ""]]}
{"id": "0704.0004", "submitter": "A. Author", "authors": "A. Author and B. Writer", "title": "A determinant of Stirling cycle numbers counts unlabeled acyclic automata", "comments": null, "journal-ref": null, "doi": null, "report-no": null, "categories": "hep-ph cs.IR", "license": null, "abstract": "  We show that a determinant of Stirling cycle numbers counts unlabeled acyclic single\nsource automata, by a sign reversing involution.\n", "versions": [{"version": "v1", "created": "Mon, 2 Apr 2007 19:18:42 GMT"}], "update_date": "2008-11-26", "authors_parsed": [["Author", "A.", ""], ["Writer", "B.", ""]]}
{"id": "0704.0005", "submitter": "A. Author", "authors": "A. Author and B. Writer", "title": "Compact composition of computable functions", "comments": null, "journal-ref": null, "doi": null, "report-no": null, "categories": "hep-ph cs.IR", "license": null, "abstract": "  We compare compact and computable composition operators, and compute the complexity\nof comparing them.\n", "versions": [{"version": "v1", "created": "Mon, 2 Apr 2007 19:18:42 GMT"}], "update_date": "2008-11-26", "authors_parsed": [["Author", "A.", ""], ["Writer", "B.", ""]]}
{"id": "0704.0006", "submitter": "A. Author", "authors": "A. Author and B. Writer", "title": "Quantum error correction with neural decoders", "comments": null, "journal-ref": null, "doi": null, "report-no": null, "categories": "hep-ph cs.IR", "license": null, "abstract": "  A neural network decodes quantum error correction codes faster than minimum weight\nmatching, without loss of accuracy.\n", "versions": [{"version": "v1", "created": "Mon, 2 Apr 2007 19:18:42 GMT"}], "update_date": "2008-11-26", "authors_parsed": [["Author", "A.", ""], ["Writer", "B.", ""]]}
{"id": "0704.0007", "submitter": "A. Author", "authors": "A. Author and B. Writer", "title": "Machine learning for galaxy classification", "comments": null, "journal-ref": null, "doi": null, "report-no": null, "categories": "hep-ph cs.IR", "license": null, "abstract": "  Convolutional networks classify galaxies by morphology from survey images, and agree\nwith human volunteers.\n", "versions": [{"version": "v1", "created": "Mon, 2 Apr 2007 19:18:42 GMT"}], "update_date": "2008-11-26", "authors_parsed": [["Author", "A.", ""], ["Writer", "B.", ""]]}
{"id": "0704.0008", "submitter": "A. Author", "authors": "A. Author and B. Writer", "title": "On the distribution of prime gaps", "comments": null, "journal-ref": null, "doi": null, "report-no": null, "categories": "hep-ph cs.IR", "license": null, "abstract": "  We study gaps between consecutive primes in short intervals and give new bounds for\nlarge gaps.\n", "versions": [{"version": "v1", "created": "Mon, 2 Apr 2007 19:18:42 GMT"}], "update_date": "2008-11-26", "authors_parsed": [["Author", "A.", ""], ["Writer", "B.", ""]]}
{"id": "0704.0009", "submitter": "A. Author", "authors": "A. Author and B. Writer", "title": "Topological quantum computation with anyons", "comments": null, "journal-ref": null, "doi": null, "report-no": null, "categories": "hep-ph cs.IR", "license": null, "abstract": "  Braiding of anyons realizes quantum gates that are protected from local errors, so\nthat error correction comes from topology.\n", "versions": [{"version": "v1", "created": "Mon, 2 Apr 2007 19:18:42 GMT"}], "update_date": "2008-11-26", "authors_parsed": [["Author", "A.", ""], ["Writer", "B.", ""]]}
{"id": "0704.0010", "submitter": "A. Author", "authors": "A. Author and B. Writer", "title": "Superconducting qubits: a review", "comments": null, "journal-ref": null, "doi": null, "report-no": null, "categories": "hep-ph cs.IR", "license": null, "abstract": "  We review superconducting qubits, their coherence times, and the error rates that a\nsurface code needs.\n", "versions": [{"version": "v1", "created": "Mon, 2 Apr 2007 19:18:42 GMT"}], "update_date": "2008-11-26", "authors_parsed": [["Author", "A.", ""], ["Writer", "B.", ""]]}
{"id": "0704.0011", "submitter": "A. Author", "authors": "A. Author and B. Writer", "title": "Bounded proximity in text retrieval", "comments": null, "journal-ref": null, "doi": null, "report-no": null, "categories": "hep-ph cs.IR", "license": null, "abstract": "  Near and ordered near operators bound the distance between query terms; we measure\nhow far apart relevant terms stand.\n", "versions": [{"version": "v1", "created": "Mon, 2 Apr 2007 19:18:42 GMT"}], "update_date": "2008-11-26", "authors_parsed": [["Author", "A.", ""], ["Writer", "B.", ""]]}
{"id": "0704.0012", "submitter": "A. Author", "authors": "A. Author and B. Writer", "title": "Compression of inverted indexes", "comments": null, "journal-ref": null, "doi": null, "report-no": null, "categories": "hep-ph cs.IR", "license": null, "abstract": "  Posting lists compress well, since document identifiers ascend; we compare codes for\nthe gaps between them.\n", "versions": [{"version": "v1", "created": "Mon, 2 Apr 2007 19:18:42 GMT"}], "update_date": "2008-11-26", "authors_parsed": [["Author", "A.", ""], ["Writer", "B.", ""]]}
{"id": "0704.0013", "submitter": "A. Author", "authors": "A. Author and B. Writer", "title": "Dark matter annihilation in dwarf galaxies", "comments": null, "journal-ref": null, "doi": null, "report-no": null, "categories": "hep-ph cs.IR", "license": null, "abstract": "  Gamma ray limits from dwarf galaxies constrain dark matter annihilation cross\nsections.\n", "versions": [{"version": "v1", "created": "Mon, 2 Apr 2007 19:18:42 GMT"}], "update_date": "2008-11-26", "authors_parsed": [["Author", "A.", ""], ["Writer", "B.", ""]]}
{"id": "0704.0014", "submitter": "A. Author", "authors": "A. Author and B. Writer", "title": "Fault tolerant quantum error correction without measurement", "comments": null, "journal-ref": null, "doi": null, "report-no": null, "categories": "hep-ph cs.IR", "license": null, "abstract": "  Coherent feedback replaces measurement in fault tolerant quantum error correction,\nat the cost of more ancilla qubits.\n", "versions": [{"version": "v1", "created": "Mon, 2 Apr 2007 19:18:42 GMT"}], "update_date": "2008-11-26", "authors_parsed": [["Author", "A.", ""], ["Writer", "B.", ""]]}
{"id": "0704.0015", "submitter": "A. Author", "authors": "A. Author and B. Writer", "title": "Naïve Bayes and the façade of independence", "comments": null, "journal-ref": null, "doi": null, "report-no": null, "categories": "hep-ph cs.IR", "license": null, "abstract": "  Naïve Bayes classifiers assume independence, and yet they rank well; Schrödinger's\nequation plays no part in it.\n", "versions": [{"version": "v1", "created": "Mon, 2 Apr 2007 19:18:42 GMT"}], "update_date": "2008-11-26", "authors_parsed": [["Author", "A.", ""], ["Writer", "B.", ""]]}
{"id": "0704.0016", "submitter": "A. Author", "authors": "A. Author and B. Writer", "title": "Random walks on expanders", "comments": null, "journal-ref": null, "doi": null, "report-no": null, "categories": "hep-ph cs.IR", "license": null, "abstract": "  We bound the mixing time of random walks on expanders, and derandomize algorithms\nwith them.\n", "versions": [{"version": "v1", "created": "Mon, 2 Apr 2007 19:18:42 GMT"}], "update_date": "2008-11-26", "authors_parsed": [["Author", "A.", ""], ["Writer", "B.", ""]]}
{"id": "0704.0017", "submitter": "A. Author", "authors": "A. Author and B. Writer", "title": "Phase transitions in the Ising model", "comments": null, "journal-ref": null, "doi": null, "report-no": null, "categories": "hep-ph cs.IR", "license": null, "abstract": "  Monte Carlo simulation locates the critical temperature of the Ising model on a cubic\nlattice.\n", "versions": [{"version": "v1", "created": "Mon, 2 Apr 2007 19:18:42 GMT"}], "update_date": "2008-11-26", "authors_parsed": [["Author", "A.", ""], ["Writer", "B.", ""]]}
{"id": "0704.0018", "submitter": "A. Author", "authors": "A. Author and B. Writer", "title": "量子誤り訂正符号の構成について", "comments": null, "journal-ref": null, "doi": null, "report-no": null, "categories": "hep-ph cs.IR", "license": null, "abstract": "  A construction of stabilizer codes is described, with an application to storage.\n", "versions": [{"version": "v1", "created": "Mon, 2 Apr 2007 19:18:42 GMT"}], "update_date": "2008-11-26", "authors_parsed": [["Author", "A.", ""], ["Writer", "B.", ""]]}
{"id": "0704.0019", "submitter": "A. Author", "authors": "A. Author and B. Writer", "title": "Strongly interacting Fermi gases", "comments": null, "journal-ref": null, "doi": null, "report-no": null, "categories": "hep-ph cs.IR", "license": null, "abstract": "  The unitary Fermi gas shows universal thermodynamics, which we measure by imaging\ntrapped clouds.\n", "versions": [{"version": "v1", "created": "Mon, 2 Apr 2007 19:18:42 GMT"}], "update_date": "2008-11-26", "authors_parsed": [["Author", "A.", ""], ["Writer", "B.", ""]]}
{"id": "0704.0020", "submitter": "A. Author", "authors": "A. Author and B. Writer", "title": "State-of-the-art: hyphenated terms and apostrophes", "comments": null, "journal-ref": null, "doi": null, "report-no": null, "categories": "hep-ph cs.IR", "license": null, "abstract": "  it's full of hyphenated terms, apostrophes, e.g. abbreviations,\nand numbers like 3.14 and 1,000.\n", "versions": [{"version": "v1", "created": "Mon, 2 Apr 2007 19:18:42 GMT"}], "update_date": "2008-11-26", "authors_parsed": [["Author", "A.", ""], ["Writer", "B.", ""]]}
"##;

/// Three intact records, a blank line, one record cut off, and one without its abstract.
const MALFORMED: &str = r##"{"id": "0705.0001", "submitter": "A. Author", "authors": "A. Author and B. Writer", "title": "Intact record 1", "comments": null, "journal-ref": null, "doi": null, "report-no": null, "categories": "hep-ph cs.IR", "license": null, "abstract": "  It parses.\n", "versions": [{"version": "v1", "created": "Mon, 2 Apr 2007 19:18:42 GMT"}], "update_date": "2008-11-26", "authors_parsed": [["Author", "A.", ""], ["Writer", "B.", ""]]}

{"id":"0705.0002","title":"A record that was cut o
{"id": "0705.0003", "submitter": "A. Author", "authors": "A. Author and B. Writer", "title": "Intact record 3", "comments": null, "journal-ref": null, "doi": null, "report-no": null, "categories": "hep-ph cs.IR", "license": null, "abstract": "  It parses.\n", "versions": [{"version": "v1", "created": "Mon, 2 Apr 2007 19:18:42 GMT"}], "update_date": "2008-11-26", "authors_parsed": [["Author", "A.", ""], ["Writer", "B.", ""]]}
{"id": "0705.0004", "title": "A record without its text"}
{"id": "0705.0005", "submitter": "A. Author", "authors": "A. Author and B. Writer", "title": "Intact record 5", "comments": null, "journal-ref": null, "doi": null, "report-no": null, "categories": "hep-ph cs.IR", "license": null, "abstract": "  It parses.\n", "versions": [{"version": "v1", "created": "Mon, 2 Apr 2007 19:18:42 GMT"}], "update_date": "2008-11-26", "authors_parsed": [["Author", "A.", ""], ["Writer", "B.", ""]]}
"##;

/// The fields of a record, or what the JSON reader objects to.
fn parse(line: &str) -> Result<ArxivRecord, serde_json::Error> {
    let value: serde_json::Value = serde_json::from_str(line)?;
    Ok(ArxivRecord {
        id: serde_json::from_value(value["id"].clone())?,
        title: serde_json::from_value(value["title"].clone())?,
        body: serde_json::from_value(value["abstract"].clone())?,
    })
}

fn open(input: &'static str, name: &str) -> JsonlCorpus<&'static [u8]> {
    JsonlCorpus::from_reader(input.as_bytes(), name.to_owned())
}

/// The next document or error, or `None` at the end of the input.
fn next(corpus: &mut JsonlCorpus<&[u8]>) -> Option<Result<Document, Error>> {
    let mut buffer = String::new();
    loop {
        buffer.clear();
        corpus.begin_line();
        let bytes = match corpus.reader_mut().read_line(&mut buffer) {
            Ok(bytes) => bytes,
            Err(source) => return Some(Err(corpus.read_failed(source))),
        };
        match corpus.line_read(bytes, &buffer) {
            LineAction::EndOfFile => return None,
            LineAction::Blank => {}
            LineAction::Record(line) => {
                let parsed = parse(line);
                return Some(corpus.record_parsed(parsed));
            }
        }
    }
}

fn items(input: &'static str, name: &str) -> Vec<Result<Document, Error>> {
    let mut corpus = open(input, name);
    let mut items = Vec::new();
    while let Some(item) = next(&mut corpus) {
        items.push(item);
    }
    items
}

fn documents() -> Vec<Document> {
    items(TINY, "tiny.jsonl")
        .into_iter()
        .map(|item| item.expect("fixture is well formed"))
        .collect()
}

fn index_of(documents: &[Document]) -> Index {
    let mut builder = IndexBuilder::new();
    for document in documents {
        builder.add_document(document);
    }

    let mut assembler = builder.finish_counting().expect("fixture is small");
    for document in documents {
        assembler.add_document(document);
    }

    assembler.finish().expect("both passes saw the same corpus")
}

fn bundle(documents: &[Document]) -> SearchIndex {
    let mut store = DocStore::new();
    for document in documents {
        store.push(document);
    }
    SearchIndex::new(index_of(documents), store)
}

/// The whole index, built the slow obvious way.
type Reference = BTreeMap<String, BTreeMap<DocId, Vec<u32>>>;

fn reference_of(documents: &[Document]) -> Reference {
    let mut reference = Reference::new();

    for document in documents {
        let mut after_title = 0;
        for token in tokenize(&document.title).collect() {
            reference
                .entry(token.normalized().into_owned())
                .or_default()
                .entry(document.id)
                .or_default()
                .push(token.position);
            after_title = token.position + 1;
        }

        let offset = after_title + FIELD_GAP;
        for token in tokenize(&document.body).collect() {
            reference
                .entry(token.normalized().into_owned())
                .or_default()
                .entry(document.id)
                .or_default()
                .push(token.position + offset);
        }
    }

    reference
}

/// The positions of `term` within one document, or empty if it is absent.
fn positions_in(index: &Index, term: TermId, document: DocId) -> Vec<u32> {
    index
        .postings(term)
        .collect()
        .into_iter()
        .find(|posting| posting.doc_id == document)
        .map(|posting| posting.positions.to_vec())
        .unwrap_or_default()
}

/// Everything that holds of the tokens of any text.
fn assert_invariants(text: &str) {
    let tokens: Vec<Token<'_>> = tokenize(text).collect();
    for (ordinal, token) in tokens.iter().enumerate() {
        assert_eq!(&text[token.offset..token.end()], token.text);
        assert_eq!(token.position as usize, ordinal);
        assert!(!token.text.is_empty());
        assert!(!token.text.contains(char::is_whitespace));
        let normalized = token.normalized();
        assert_eq!(normalized, token.text.to_lowercase());
        assert_eq!(normalized.to_lowercase(), normalized.as_ref());
    }
    for pair in tokens.windows(2) {
        assert!(pair[0].end() <= pair[1].offset);
    }
}

#[test]
fn the_tiny_corpus_loads_every_record() {
    assert_eq!(documents().len(), 20);
}

#[test]
fn document_ids_are_dense_and_start_at_zero() {
    for (position, document) in documents().iter().enumerate() {
        assert_eq!(
            document.id,
            DocId::new(u32::try_from(position).unwrap()),
            "document {position} has the wrong id"
        );
    }
}

#[test]
fn arxiv_ids_survive_the_round_trip() {
    let documents = documents();

    assert_eq!(documents[0].external_id, "0704.0001");
    assert_eq!(documents[19].external_id, "0704.0020");
}

#[test]
fn the_fields_the_engine_ignores_do_not_break_parsing() {
    // Every record carries submitter, authors, journal-ref, report-no, versions and
    // authors_parsed, nulls and nested arrays among them.
    let documents = documents();

    assert_eq!(
        documents[0].title,
        "Calculation of prompt diphoton production cross sections at Tevatron and LHC energies"
    );
    assert!(documents[0]
        .body
        .starts_with("A fully differential calculation"));
}

#[test]
fn no_document_keeps_the_typesetting_whitespace_arxiv_stores() {
    for document in &documents() {
        for (field, text) in [("title", &document.title), ("body", &document.body)] {
            assert!(
                !text.starts_with(char::is_whitespace) && !text.ends_with(char::is_whitespace),
                "{} {field} has whitespace at an end: {text:?}",
                document.external_id
            );
            assert!(
                !text.contains('\n') && !text.contains('\r') && !text.contains('\t'),
                "{} {field} still contains a line break: {text:?}",
                document.external_id
            );
            assert!(
                !text.contains("  "),
                "{} {field} still contains a double space: {text:?}",
                document.external_id
            );
        }
    }
}

#[test]
fn a_hard_wrapped_title_is_rejoined_into_one_line() {
    let documents = documents();

    assert_eq!(
        documents[0].title,
        "Calculation of prompt diphoton production cross sections at Tevatron and LHC energies"
    );
    assert_eq!(
        documents[0].body,
        "A fully differential calculation in perturbative quantum chromodynamics is \
         presented for the production of photon pairs at hadron colliders."
    );
}

#[test]
fn non_ascii_records_survive_intact() {
    let documents = documents();
    let japanese = documents
        .iter()
        .find(|document| document.external_id == "0704.0018")
        .expect("the Unicode fixture record is present");

    assert_eq!(japanese.title, "量子誤り訂正符号の構成について");
    assert!(japanese.title.chars().count() < japanese.title.len());
}

#[test]
fn a_doc_store_built_from_the_corpus_maps_ids_back_to_titles() {
    let documents = documents();
    let mut store = DocStore::with_capacity(documents.len());
    for document in &documents {
        store.push(document);
    }

    assert_eq!(store.len(), 20);

    let meta = store.get(DocId::new(2)).expect("third document exists");
    assert_eq!(meta.external_id, "0704.0003");
    assert_eq!(
        meta.title,
        "Surface code quantum error correction at threshold"
    );

    assert!(store.get(DocId::new(20)).is_none());
}

#[test]
fn the_damaged_corpus_yields_errors_without_losing_the_good_records() {
    let items = items(MALFORMED, "malformed.jsonl");

    let good: Vec<_> = items.iter().filter(|item| item.is_ok()).collect();
    let bad: Vec<_> = items.iter().filter(|item| item.is_err()).collect();

    // The blank line is skipped silently and is neither.
    assert_eq!(good.len(), 3, "good records");
    assert_eq!(bad.len(), 2, "bad records");
}

#[test]
fn malformed_records_name_the_file_and_the_line() {
    let error = items(MALFORMED, "malformed.jsonl")
        .into_iter()
        .find_map(std::result::Result::err)
        .expect("the fixture contains a malformed record");

    let Error::MalformedRecord { path, line, .. } = &error else {
        panic!("expected a malformed-record error, got {error:?}");
    };

    assert_eq!(*line, 3, "the truncated JSON is on line 3");
    assert!(path.ends_with("malformed.jsonl"));

    let rendered = error.to_string();
    assert!(rendered.contains("malformed.jsonl:3"), "got {rendered}");
}

#[test]
fn skipping_bad_records_keeps_ids_dense() {
    let ids: Vec<DocId> = items(MALFORMED, "malformed.jsonl")
        .into_iter()
        .filter_map(std::result::Result::ok)
        .map(|document| document.id)
        .collect();
    assert_eq!(ids, vec![DocId::first(), DocId::new(1), DocId::new(2)]);
}

#[test]
fn byte_counts_match_the_file_on_disk() {
    let expected = TINY.len() as u64;

    let mut corpus = open(TINY, "tiny.jsonl");
    let mut count = 0;
    while next(&mut corpus).is_some() {
        count += 1;
    }

    assert_eq!(count, 20);
    assert_eq!(corpus.bytes_read(), expected);
}

#[test]
fn a_limit_stops_the_stream_early_without_reading_the_rest() {
    let mut corpus = open(TINY, "tiny.jsonl");
    let mut first_five = Vec::new();
    while first_five.len() < 5 {
        first_five.push(next(&mut corpus).expect("twenty records"));
    }

    assert_eq!(first_five.len(), 5);
    assert!(
        corpus.lines_read() <= 5,
        "taking five documents should not have read the whole file, read {} lines",
        corpus.lines_read()
    );
}

#[test]
fn the_reader_counts_what_it_consumed() {
    let mut corpus = open(MALFORMED, "malformed.jsonl");
    assert_eq!((corpus.lines_read(), corpus.bytes_read()), (0, 0));
    let lines: Vec<&str> = MALFORMED.split_inclusive('\n').collect();
    for line in [1, 3, 4, 5, 6] {
        assert!(next(&mut corpus).is_some());
        assert_eq!(corpus.lines_read(), line);
        let bytes: usize = lines[..line].iter().map(|line| line.len()).sum();
        assert_eq!(corpus.bytes_read(), bytes as u64);
    }
    assert!(next(&mut corpus).is_none());
    assert_eq!(corpus.lines_read(), lines.len() + 1);
    assert_eq!(corpus.bytes_read(), MALFORMED.len() as u64);
}

#[test]
fn the_index_agrees_with_a_brute_force_scan_on_every_term() {
    let documents = documents();
    let index = index_of(&documents);
    let reference = reference_of(&documents);

    assert_eq!(index.terms(), reference.len(), "vocabulary size");

    for (term, expected_postings) in &reference {
        let id = index
            .term_id(term)
            .unwrap_or_else(|| panic!("{term:?} is missing from the index"));

        let actual: Vec<Posting<'_>> = index.postings(id).collect();

        assert_eq!(
            actual.len(),
            expected_postings.len(),
            "{term:?} has the wrong document frequency"
        );

        for (posting, (expected_doc, expected_positions)) in actual.iter().zip(expected_postings) {
            assert_eq!(posting.doc_id, *expected_doc, "{term:?} document mismatch");
            assert_eq!(
                posting.positions,
                &expected_positions[..],
                "{term:?} positions in {expected_doc:?} mismatch"
            );
        }
    }
}

#[test]
fn the_index_holds_no_terms_the_corpus_does_not_contain() {
    let documents = documents();
    let index = index_of(&documents);
    let reference = reference_of(&documents);

    for (term, _) in index.vocabulary() {
        assert!(
            reference.contains_key(term),
            "{term:?} is in the index but not in the corpus"
        );
    }
}

#[test]
fn totals_match_the_reference() {
    let documents = documents();
    let index = index_of(&documents);
    let reference = reference_of(&documents);
    let stats = index.stats();

    let postings: usize = reference.values().map(BTreeMap::len).sum();
    let positions: usize = reference
        .values()
        .flat_map(BTreeMap::values)
        .map(Vec::len)
        .sum();

    assert_eq!(stats.documents, documents.len());
    assert_eq!(stats.terms, reference.len());
    assert_eq!(stats.postings, postings);
    assert_eq!(stats.positions, positions);
}

#[test]
fn postings_are_sorted_by_document_throughout() {
    let index = index_of(&documents());

    for (term, id) in index.vocabulary() {
        let docs = index.doc_ids(id);
        assert!(
            docs.windows(2).all(|pair| pair[0] < pair[1]),
            "{term:?} postings are not ascending: {docs:?}"
        );
    }
}

#[test]
fn positions_are_sorted_within_every_posting() {
    let index = index_of(&documents());

    for (term, id) in index.vocabulary() {
        for posting in index.postings(id).collect() {
            assert!(
                !posting.positions.is_empty(),
                "{term:?} has an empty posting in {:?}",
                posting.doc_id
            );
            assert!(
                posting.positions.windows(2).all(|pair| pair[0] < pair[1]),
                "{term:?} positions in {:?} are not ascending: {:?}",
                posting.doc_id,
                posting.positions
            );
        }
    }
}

#[test]
fn a_known_term_lands_in_the_documents_it_should() {
    let documents = documents();
    let index = index_of(&documents);

    let quantum = index.term_id("quantum").expect("indexed");
    let titles: Vec<&str> = index
        .doc_ids(quantum)
        .iter()
        .map(|&id| documents[id.as_usize()].title.as_str())
        .collect();

    assert!(titles.len() >= 4, "expected several, got {titles:?}");
    assert!(
        titles
            .iter()
            .any(|title| title.contains("Surface code quantum error correction")),
        "got {titles:?}"
    );
}

#[test]
fn the_cjk_record_is_indexed_one_character_per_term() {
    let index = index_of(&documents());

    // Record 0704.0018's title is 量子誤り訂正符号の構成について.
    let first = index.term_id("量").expect("量 is a term of its own");
    let second = index.term_id("子").expect("子 is a term of its own");

    let positions = index.positions(first, 0);
    let next = index.positions(second, 0);

    assert_eq!(positions, [0]);
    assert_eq!(next, [1]);
}

#[test]
fn nothing_is_indexed_inside_the_gap_between_title_and_body() {
    let documents = documents();
    let index = index_of(&documents);

    for document in &documents {
        let title_tokens = tokenize(&document.title).collect().len() as u32;
        if title_tokens == 0 || tokenize(&document.body).next().is_none() {
            continue;
        }

        let gap = title_tokens..title_tokens + FIELD_GAP;

        for (term, id) in index.vocabulary() {
            let Some(posting) = index
                .postings(id)
                .collect()
                .into_iter()
                .find(|posting| posting.doc_id == document.id)
            else {
                continue;
            };

            for &position in posting.positions {
                assert!(
                    !gap.contains(&position),
                    "{}: {term:?} sits at {position}, inside the empty gap {gap:?}",
                    document.external_id
                );
            }
        }
    }
}

#[test]
fn the_body_starts_exactly_one_gap_after_the_title() {
    let documents = documents();
    let index = index_of(&documents);

    for document in &documents {
        let title_tokens = tokenize(&document.title).collect().len() as u32;
        let Some(first_body_token) = tokenize(&document.body).next() else {
            continue;
        };

        let term = index
            .term_id(&first_body_token.normalized())
            .expect("indexed");
        let positions = positions_in(&index, term, document.id);

        assert!(
            positions.contains(&(title_tokens + FIELD_GAP)),
            "{}: the first body term {:?} is not at {}, positions are {positions:?}",
            document.external_id,
            first_body_token.text,
            title_tokens + FIELD_GAP
        );
    }
}

#[test]
fn a_term_appearing_many_times_in_one_document_is_one_posting() {
    let index = index_of(&documents());

    for (term, id) in index.vocabulary() {
        let docs = index.doc_ids(id);
        let distinct: BTreeSet<DocId> = docs.iter().copied().collect();
        assert_eq!(
            docs.len(),
            distinct.len(),
            "{term:?} has a document listed twice"
        );
    }
}

#[test]
fn the_invariants_hold_over_every_fixture_document() {
    let mut count = 0;
    let mut tokens = 0;

    for document in documents() {
        assert_invariants(&document.title);
        assert_invariants(&document.body);

        count += 1;
        tokens += tokenize(&document.title).collect().len()
            + tokenize(&document.body).collect().len();
    }

    assert_eq!(count, 20);
    assert!(tokens > 400, "expected a few hundred tokens, got {tokens}");
}

#[test]
fn the_awkward_fixture_record_tokenizes_as_intended() {
    let document = documents()
        .into_iter()
        .find(|document| document.external_id == "0704.0020")
        .expect("the awkward record is present");

    let terms: Vec<&str> = tokenize(&document.body)
        .collect()
        .into_iter()
        .map(|token| token.text)
        .collect();

    assert!(terms.contains(&"it's"), "apostrophe held the word together");
    assert!(terms.contains(&"3.14"), "decimal survived");
    assert!(terms.contains(&"1,000"), "thousands separator survived");
    assert!(
        terms.contains(&"e"),
        "e.g. split, since . only joins digits"
    );
    assert!(terms.contains(&"g"));
    assert!(terms.contains(&"hyphenated"));

    // The title is "State-of-the-art: hyphenated terms and apostrophes".
    let title_terms: Vec<&str> = tokenize(&document.title)
        .collect()
        .into_iter()
        .map(|token| token.text)
        .collect();
    assert_eq!(&title_terms[..4], ["State", "of", "the", "art"]);
}

#[test]
fn the_cjk_fixture_record_is_indexed_one_character_at_a_time() {
    let document = documents()
        .into_iter()
        .find(|document| document.external_id == "0704.0018")
        .expect("the Unicode record is present");

    let terms: Vec<&str> = tokenize(&document.title)
        .collect()
        .into_iter()
        .map(|token| token.text)
        .collect();

    // 量子誤り訂正符号の構成について — fifteen characters, fifteen tokens.
    assert_eq!(terms.len(), document.title.chars().count());
    assert_eq!(&terms[..2], ["量", "子"]);
}

#[test]
fn the_fixture_index_survives_a_trip_through_a_file() {
    let documents = documents();
    let bytes = bundle(&documents).save().expect("save");
    let loaded = SearchIndex::load("index.bin", &bytes).expect("load");
    let reference = reference_of(&documents);

    assert_eq!(loaded.index.terms(), reference.len());

    for (term, expected) in &reference {
        let id = loaded
            .index
            .term_id(term)
            .unwrap_or_else(|| panic!("{term:?} was lost in the round trip"));

        let actual: Vec<_> = loaded.index.postings(id).collect();
        assert_eq!(actual.len(), expected.len(), "{term:?} document frequency");

        for (posting, (document, positions)) in actual.iter().zip(expected) {
            assert_eq!(posting.doc_id, *document, "{term:?}");
            assert_eq!(posting.positions, &positions[..], "{term:?} in {document:?}");
        }
    }
}

#[test]
fn titles_come_back_intact_including_the_awkward_ones() {
    let documents = documents();
    let bytes = bundle(&documents).save().expect("save");
    let loaded = SearchIndex::load("index.bin", &bytes).expect("load");

    for document in &documents {
        let meta = loaded
            .documents
            .get(document.id)
            .unwrap_or_else(|| panic!("{} is missing", document.external_id));

        assert_eq!(meta.external_id, document.external_id);
        assert_eq!(meta.title, document.title);
    }

    let cjk = loaded.documents.get(DocId::new(17)).expect("present");
    assert_eq!(cjk.title, "量子誤り訂正符号の構成について");
}

#[test]
fn the_file_is_exactly_the_size_its_sections_imply() {
    let documents = documents();
    let index = bundle(&documents);
    let actual = index.save().expect("save").len();

    let stats = index.index.stats();
    let terms = stats.terms;
    let postings = stats.postings;
    let positions = stats.positions;
    let count = documents.len();

    let term_bytes: usize = index.index.vocabulary().iter().map(|(term, _)| term.len()).sum();
    let external_bytes: usize = documents.iter().map(|d| d.external_id.len()).sum();
    let title_bytes: usize = documents.iter().map(|d| d.title.len()).sum();

    let expected = 48                                   // header (magic, version, reserved, 8 counts)
        + (terms + 1) * 4 + term_bytes + terms * 4      // dictionary
        + (terms + 1) * 4                               // term_postings_start
        + postings * 4                                  // posting_docs
        + (postings + 1) * 4                            // posting_positions_start
        + positions * 4                                 // positions
        + (count + 1) * 4 + external_bytes              // arXiv ids
        + (count + 1) * 4 + title_bytes; // titles

    assert_eq!(actual, expected, "the file has unaccounted-for bytes");
}

#[test]
fn a_corrupted_byte_in_the_middle_does_not_go_unnoticed() {
    let mut bytes = bundle(&documents()).save().expect("save");

    // Scribble over one of the count fields in the header.
    bytes[24] = bytes[24].wrapping_add(17);

    assert!(
        SearchIndex::load("index.bin", &bytes).is_err(),
        "a corrupted header was accepted"
    );
}
