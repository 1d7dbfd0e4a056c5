//! Building an index in two passes, and asking it.

use std::collections::BTreeMap;

use boolsearch::{
    build, tokenize, DocId, Document, Error, Index, IndexBuilder, Posting, TermId, FIELD_GAP,
};

fn document(id: u32, title: &str, body: &str) -> Document {
    Document {
        id: DocId::new(id),
        external_id: format!("doc{id}"),
        title: title.to_owned(),
        body: body.to_owned(),
    }
}

/// Runs both passes over the same documents.
fn index_of(documents: &[Document]) -> Index {
    let mut builder = IndexBuilder::new();
    for document in documents {
        assert!(builder.can_add(document));
        builder.add_document(document);
    }

    let mut assembler = builder.finish_counting().expect("corpus is small");
    for document in documents {
        assert!(document.positions_fit());
        assembler.add_document(document);
    }

    assembler.finish().expect("both passes saw the same corpus")
}

/// Builds an index from passes none of whose documents failed.
fn build_from(counting: Vec<Document>, filling: Vec<Document>) -> Result<Index, Error> {
    build(
        Ok(counting.into_iter().map(Ok).collect()),
        Ok(filling.into_iter().map(Ok).collect()),
    )
}

fn corpus() -> Vec<Document> {
    vec![
        document(0, "Quantum error correction", "surface code quantum"),
        document(1, "Machine learning", "neural networks learn"),
        document(2, "Quantum computing", "quantum quantum quantum"),
    ]
}

/// Documents with awkward text: empty fields, repeated terms, several scripts.
fn awkward_corpus() -> Vec<Document> {
    vec![
        document(0, "", ""),
        document(1, "Don't panic", "3.14 is pi, isn't it? PI pi"),
        document(2, "量子誤り訂正", "Naïve state-of-the-art codes"),
        document(3, "", "body without a title"),
        document(4, "Title without a body", ""),
        document(5, "İstanbul ΑΣ", "the the the the the"),
    ]
}

/// A whole index, built the slow obvious way.
type Reference = BTreeMap<String, BTreeMap<DocId, Vec<u32>>>;

fn reference_of(documents: &[Document]) -> Reference {
    let mut reference = Reference::new();
    for document in documents {
        let mut after_title = 0;
        for token in tokenize(&document.title).collect() {
            reference
                .entry(token.normalized().into_owned())
                .or_default()
                .entry(document.id)
                .or_default()
                .push(token.position);
            after_title = token.position + 1;
        }
        for token in tokenize(&document.body).collect() {
            reference
                .entry(token.normalized().into_owned())
                .or_default()
                .entry(document.id)
                .or_default()
                .push(token.position + after_title + FIELD_GAP);
        }
    }
    reference
}

#[test]
fn an_empty_corpus_produces_an_empty_index() {
    let index = index_of(&[]);
    let stats = index.stats();

    assert_eq!(stats.documents, 0);
    assert_eq!(stats.terms, 0);
    assert_eq!(stats.postings, 0);
    assert_eq!(stats.positions, 0);
    assert!(index.term_id("anything").is_none());
}

#[test]
fn terms_are_found_by_their_normalized_form() {
    let index = index_of(&corpus());

    assert!(index.term_id("quantum").is_some());
    // The corpus says "Quantum" with a capital Q; the index stores it
    // lowercased, and does not normalize on lookup.
    assert!(index.term_id("Quantum").is_none());
    assert!(index.term_id("nonexistent").is_none());
}

#[test]
fn a_term_lists_exactly_the_documents_containing_it() {
    let index = index_of(&corpus());

    let quantum = index.term_id("quantum").expect("indexed");
    assert_eq!(
        index.doc_ids(quantum),
        [DocId::new(0), DocId::new(1 + 1)] // documents 0 and 2
    );

    let learning = index.term_id("learning").expect("indexed");
    assert_eq!(index.doc_ids(learning), [DocId::new(1)]);
}

#[test]
fn document_ids_within_a_term_are_ascending() {
    let index = index_of(&corpus());

    for (_, id) in index.vocabulary() {
        let docs = index.doc_ids(id);
        assert!(
            docs.windows(2).all(|pair| pair[0] < pair[1]),
            "postings for {id:?} are not sorted: {docs:?}"
        );
    }
}

#[test]
fn positions_record_every_occurrence_in_order() {
    let index = index_of(&corpus());
    let quantum = index.term_id("quantum").expect("indexed");

    // Document 2: title "Quantum computing", body "quantum quantum quantum".
    // Title positions 0..1, body starts at 2 + FIELD_GAP.
    let body_start = 2 + FIELD_GAP;
    assert_eq!(
        index.positions(quantum, 1),
        [0, body_start, body_start + 1, body_start + 2]
    );
}

#[test]
fn the_field_gap_separates_the_title_from_the_body() {
    let index = index_of(&[document(0, "alpha beta", "gamma")]);

    let beta = index.term_id("beta").expect("indexed");
    let gamma = index.term_id("gamma").expect("indexed");

    assert_eq!(index.positions(beta, 0), [1]);
    // "gamma" is the first body token, so it lands a whole gap later rather
    // than at position 2 — no phrase can match across the join.
    assert_eq!(index.positions(gamma, 0), [2 + FIELD_GAP]);
}

#[test]
fn document_frequency_counts_documents_not_occurrences() {
    let index = index_of(&corpus());
    let quantum = index.term_id("quantum").expect("indexed");

    // Four occurrences in document 2 alone, but two documents.
    assert_eq!(index.document_frequency(quantum), 2);
    assert_eq!(index.positions(quantum, 1).len(), 4);
}

#[test]
fn postings_pair_each_document_with_its_positions() {
    let index = index_of(&corpus());
    let quantum = index.term_id("quantum").expect("indexed");

    let postings: Vec<Posting<'_>> = index.postings(quantum).collect();
    assert_eq!(postings.len(), 2);
    assert_eq!(postings[0].doc_id, DocId::new(0));
    assert_eq!(postings[1].doc_id, DocId::new(2));
    assert_eq!(postings[1].frequency(), 4);

    for posting in &postings {
        assert_eq!(
            posting.positions,
            index.positions(
                quantum,
                if posting.doc_id == DocId::new(0) {
                    0
                } else {
                    1
                }
            )
        );
    }
}

#[test]
fn postings_report_their_length_without_being_counted() {
    let index = index_of(&corpus());
    let quantum = index.term_id("quantum").expect("indexed");

    assert_eq!(index.postings(quantum).len(), 2);
}

#[test]
fn an_unknown_term_id_yields_nothing_rather_than_panicking() {
    let index = index_of(&corpus());
    let beyond = TermId::new(9_999);

    assert!(index.doc_ids(beyond).is_empty());
    assert!(index.positions(beyond, 0).is_empty());
    assert_eq!(index.document_frequency(beyond), 0);
}

#[test]
fn asking_for_a_posting_past_the_end_yields_nothing() {
    let index = index_of(&corpus());
    let learning = index.term_id("learning").expect("indexed");

    assert_eq!(index.positions(learning, 0).len(), 1);
    assert!(index.positions(learning, 1).is_empty());
}

#[test]
fn a_second_pass_over_a_different_corpus_is_refused() {
    let mut builder = IndexBuilder::new();
    builder.add_document(&document(0, "alpha", "beta"));

    let mut assembler = builder.finish_counting().expect("small");
    // A term the counting pass never saw.
    assembler.add_document(&document(0, "alpha", "surprise"));

    assert!(matches!(
        assembler.finish(),
        Err(Error::CorpusChanged { .. })
    ));
}

#[test]
fn stats_add_up() {
    let index = index_of(&corpus());
    let stats = index.stats();

    assert_eq!(stats.documents, 3);

    let postings: usize = index
        .vocabulary()
        .into_iter()
        .map(|(_, id)| index.document_frequency(id))
        .sum();
    assert_eq!(stats.postings, postings);

    let positions: usize = index
        .vocabulary()
        .into_iter()
        .flat_map(|(_, id)| index.postings(id).collect())
        .map(|posting| posting.frequency())
        .sum();
    assert_eq!(stats.positions, positions);

    assert!(stats.bytes > stats.positions * 4);
}

#[test]
fn every_position_slice_is_sorted_and_within_the_document() {
    let index = index_of(&corpus());

    for (_, id) in index.vocabulary() {
        for posting in index.postings(id).collect() {
            assert!(!posting.positions.is_empty());
            assert!(
                posting.positions.windows(2).all(|pair| pair[0] < pair[1]),
                "positions out of order: {:?}",
                posting.positions
            );
        }
    }
}

#[test]
fn an_index_of_nothing_is_valid_and_empty() {
    let index = index_of(&[]);
    let stats = index.stats();

    assert_eq!(stats.documents, 0);
    assert_eq!(stats.terms, 0);
    assert_eq!(stats.postings, 0);
    assert_eq!(stats.positions, 0);
    assert!(index.postings_for("quantum").is_none());
}

#[test]
fn an_index_answers_as_a_scan_of_awkward_documents_does() {
    let documents = awkward_corpus();
    let index = index_of(&documents);
    let reference = reference_of(&documents);

    assert_eq!(index.terms(), reference.len());
    for (term, expected) in &reference {
        let actual: Vec<Posting<'_>> = index.postings_for(term).expect("indexed").collect();
        assert_eq!(actual.len(), expected.len(), "{term:?}");
        for (posting, (doc, positions)) in actual.iter().zip(expected) {
            assert_eq!(posting.doc_id, *doc, "{term:?}");
            assert_eq!(posting.positions, &positions[..], "{term:?}");
        }
    }
    for (term, _) in index.vocabulary() {
        assert!(reference.contains_key(term), "{term:?}");
    }

    let stats = index.stats();
    assert_eq!(stats.documents, documents.len());
    assert_eq!(stats.terms, reference.len());
    assert_eq!(
        stats.postings,
        reference.values().map(BTreeMap::len).sum::<usize>()
    );
    assert_eq!(
        stats.positions,
        reference.values().flat_map(BTreeMap::values).map(Vec::len).sum::<usize>()
    );
}

#[test]
fn terms_are_numbered_densely() {
    let index = index_of(&awkward_corpus());
    let mut numbers: Vec<u32> = index.vocabulary().into_iter().map(|(_, id)| id.get()).collect();
    numbers.sort_unstable();
    let all: Vec<u32> = (0..index.terms() as u32).collect();
    assert_eq!(numbers, all);
    for (term, id) in index.vocabulary() {
        assert_eq!(index.term_id(term), Some(id));
    }
}

#[test]
fn terms_are_numbered_as_they_first_occur() {
    let index = index_of(&corpus());
    for (number, term) in ["quantum", "error", "correction", "surface", "code", "machine"]
        .into_iter()
        .enumerate()
    {
        assert_eq!(index.term_id(term), Some(TermId::new(number as u32)));
    }
}

#[test]
fn nothing_is_indexed_inside_the_gap() {
    let documents = awkward_corpus();
    let index = index_of(&documents);
    for (_, id) in index.vocabulary() {
        for posting in index.postings(id).collect() {
            let title = &documents[posting.doc_id.as_usize()].title;
            let tokens = tokenize(title).collect().len() as u32;
            for &position in posting.positions {
                assert!(position < tokens || position >= tokens + FIELD_GAP);
            }
        }
    }
}

#[test]
fn the_first_number_that_no_term_has_yields_nothing() {
    let index = index_of(&corpus());
    let beyond = TermId::new(index.terms() as u32);
    assert!(index.doc_ids(beyond).is_empty());
    assert!(index.positions(beyond, 0).is_empty());
    assert!(index.postings(beyond).collect().is_empty());
    assert!(index.positions(TermId::new(0), usize::MAX).is_empty());
    assert!(index.doc_ids(TermId::new(u32::MAX)).is_empty());
}

#[test]
fn a_second_pass_counts_the_terms_it_did_not_know() {
    let counting = vec![document(0, "alpha", "beta")];
    let filling = vec![document(0, "alpha alpha", "beta surprise")];
    match build_from(counting, filling) {
        Err(Error::CorpusChanged { unexpected_terms }) => assert_eq!(unexpected_terms, 1),
        other => panic!("got {other:?}"),
    }
}

#[test]
fn a_second_pass_that_sees_less_is_refused() {
    let mut builder = IndexBuilder::new();
    builder.add_document(&document(0, "alpha", "beta"));
    let mut assembler = builder.finish_counting().expect("small");
    assembler.add_document(&document(0, "alpha", ""));
    let error = assembler.finish().expect_err("beta is missing");
    assert!(matches!(error, Error::CorpusChanged { unexpected_terms: 0 }));
}

#[test]
fn passes_of_different_lengths_are_refused() {
    // Neither document has a term, so the counts of terms agree.
    let refused = |counting: u32, filling: u32| {
        let pass = |length: u32| (0..length).map(|id| document(id, "", "")).collect();
        matches!(
            build_from(pass(counting), pass(filling)),
            Err(Error::CorpusChanged { unexpected_terms: 0 })
        )
    };
    assert!(refused(0, 1));
    assert!(refused(1, 0));
    assert!(refused(2, 1));
    assert!(!refused(0, 0));
    assert!(!refused(2, 2));

    let assembler = |length: u32| {
        let mut builder = IndexBuilder::new();
        for id in 0..length {
            builder.add_document(&document(id, "", ""));
        }
        builder.finish_counting().expect("small")
    };
    let mut more = assembler(0);
    more.add_document(&document(0, "", ""));
    assert!(matches!(more.finish(), Err(Error::CorpusChanged { unexpected_terms: 0 })));
    assert!(matches!(assembler(1).finish(), Err(Error::CorpusChanged { unexpected_terms: 0 })));
    assert!(assembler(0).finish().is_ok());
}

#[test]
fn passes_in_a_different_order_are_refused() {
    let one = || document(0, "alpha", "beta");
    let other = || document(1, "beta", "alpha");
    let changed = |counting: Vec<Document>, filling: Vec<Document>| {
        matches!(
            build_from(counting, filling),
            Err(Error::CorpusChanged { unexpected_terms: 0 })
        )
    };
    assert!(!changed(vec![one(), other()], vec![one(), other()]));
    assert!(changed(vec![one(), other()], vec![other(), one()]));
    // The same terms as often, in another document, or in another field.
    assert!(changed(vec![one(), other()], vec![document(0, "alpha alpha", "beta"), document(1, "beta", "")]));
    assert!(changed(vec![one()], vec![document(0, "", "alpha beta")]));
    assert!(changed(vec![one()], vec![document(1, "alpha", "beta")]));
    // What is not a term does not matter.
    assert!(!changed(vec![one()], vec![document(0, "Alpha!", "(beta)")]));
}

#[test]
fn building_twice_gives_the_same_answers() {
    let documents = awkward_corpus();
    let first = build_from(documents.clone(), documents.clone()).expect("the same corpus");
    let second = index_of(&documents);
    assert_eq!(first.stats(), second.stats());
    for (term, id) in first.vocabulary() {
        assert_eq!(second.term_id(term), Some(id));
        assert_eq!(first.postings(id).collect(), second.postings(id).collect());
    }
}

#[test]
fn postings_can_be_walked_one_at_a_time() {
    let index = index_of(&corpus());
    let mut list = index.postings_for("quantum").expect("indexed");
    assert_eq!(list.size_hint(), (2, Some(2)));
    assert_eq!(list.next().map(|posting| posting.doc_id), Some(DocId::new(0)));
    assert_eq!(list.len(), 1);
    let rest = list.clone();
    assert_eq!(list.next().map(|posting| posting.doc_id), Some(DocId::new(2)));
    assert!(list.next().is_none());
    assert_eq!(list.size_hint(), (0, Some(0)));
    assert_eq!(rest.len(), 1);
}

#[test]
fn the_bytes_of_an_index_are_its_arrays_and_its_dictionary() {
    let index = index_of(&[document(0, "alpha beta", "alpha")]);
    let stats = index.stats();
    // Three term starts, two documents, three position starts and three positions, and
    // for each term its characters, a boxed string, a number and a control byte.
    let dictionary: usize = "alpha".len() + "beta".len()
        + 2 * (std::mem::size_of::<Box<str>>() + std::mem::size_of::<u32>() + 1);
    assert_eq!(stats.bytes, (3 + 2 + 3 + 3) * 4 + dictionary);
    assert_eq!(index.try_stats(), Some(stats));
}

#[test]
fn a_builder_counts_distinct_terms() {
    let mut builder = IndexBuilder::with_capacity(16);
    assert_eq!(builder.terms(), 0);
    builder.add_document(&document(0, "alpha Beta", "ALPHA"));
    assert_eq!(builder.terms(), 2);
}

#[test]
fn the_number_of_terms_does_not_depend_on_order() {
    let documents = awkward_corpus();
    let count = |documents: &[&Document]| {
        let mut builder = IndexBuilder::new();
        for document in documents {
            builder.add_document(document);
        }
        builder.terms()
    };
    let forward: Vec<&Document> = documents.iter().collect();
    let backward: Vec<&Document> = documents.iter().rev().collect();
    assert_eq!(count(&forward), reference_of(&documents).len());
    assert_eq!(count(&backward), count(&forward));
}

#[test]
fn a_document_without_a_new_term_leaves_the_number_of_terms() {
    let mut builder = IndexBuilder::new();
    builder.add_document(&document(0, "Quantum error", "correction"));
    assert_eq!(builder.terms(), 3);
    builder.add_document(&document(1, "error QUANTUM error", ""));
    assert_eq!(builder.terms(), 3);
    builder.add_document(&document(2, "", "surface error"));
    assert_eq!(builder.terms(), 4);
}

#[test]
fn term_ids_can_be_shown() {
    assert_eq!(TermId::new(7).to_string(), "t7");
    assert_eq!(TermId::new(7).get(), 7);
    assert_eq!(TermId::new(7).as_usize(), 7);
}

#[test]
fn documents_can_be_added_by_their_terms() {
    let title = vec!["alpha".to_owned(), "beta".to_owned()];
    let body = vec!["alpha".to_owned()];
    let mut builder = IndexBuilder::new();
    assert!(builder.can_add_terms(&title, &body));
    builder.add_terms(DocId::new(4), &title, &body);
    assert_eq!(builder.terms(), 2);
    let mut assembler = builder.finish_counting().expect("small");
    assembler.add_terms(DocId::new(4), &title, &body);
    let index = assembler.finish().expect("the same terms");
    let alpha = index.term_id("alpha").expect("indexed");
    assert_eq!(index.doc_ids(alpha), [DocId::new(4)]);
    assert_eq!(index.positions(alpha, 0), [0, 2 + FIELD_GAP]);
}

#[test]
fn only_unknown_terms_are_counted_as_unexpected() {
    let counting = vec![document(0, "a b", "")];
    let filling = vec![document(0, "a a c", "")];
    match build_from(counting, filling) {
        Err(Error::CorpusChanged { unexpected_terms }) => assert_eq!(unexpected_terms, 1),
        other => panic!("got {other:?}"),
    }
}

#[test]
fn a_default_builder_has_counted_nothing() {
    assert_eq!(IndexBuilder::default().terms(), 0);
}

#[test]
fn building_hands_on_the_first_failure() {
    let good = || Ok(vec![Ok(document(0, "a", "b"))]);
    let failed = |terms: u64| Error::CorpusChanged {
        unexpected_terms: terms,
    };
    let said = |index: Result<Index, Error>| match index {
        Err(Error::CorpusChanged { unexpected_terms }) => unexpected_terms,
        other => panic!("got {other:?}"),
    };

    // The corpus could not be opened, for either pass.
    assert_eq!(said(build(Err(failed(11)), good())), 11);
    assert_eq!(said(build(good(), Err(failed(12)))), 12);
    assert_eq!(said(build(Err(failed(13)), Err(failed(14)))), 13);

    // A document could not be had.
    let broken = |first: u64, second: u64| {
        Ok(vec![
            Ok(document(0, "a", "b")),
            Err(failed(first)),
            Ok(document(1, "c", "d")),
            Err(failed(second)),
        ])
    };
    assert_eq!(said(build(broken(15, 16), good())), 15);
    assert_eq!(said(build(good(), broken(17, 18))), 17);
    assert_eq!(said(build(broken(19, 20), Err(failed(21)))), 19);
    assert!(build(good(), good()).is_ok());
}
