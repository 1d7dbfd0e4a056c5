//! Errors, and what is told of a pass over a corpus.

use std::io::{Error as IoError, ErrorKind};

use boolsearch::report::{
    example, format_bytes, format_count, truncate, BuildReport, Notice, Pass,
    MAX_REPORTED_MALFORMED,
};
use boolsearch::{build, DocId, DocStore, Document, Error, IndexStats};

#[test]
fn io_errors_name_the_path_and_keep_their_cause() {
    let error = Error::io(
        "corpus/arxiv.jsonl".to_owned(),
        IoError::new(ErrorKind::NotFound, "no such file"),
    );

    assert_eq!(error.to_string(), "i/o error on corpus/arxiv.jsonl");

    let Error::Io { source: cause, .. } = error else {
        panic!("the io error is kept as the source");
    };
    assert_eq!(cause.to_string(), "no such file");
}

#[test]
fn query_errors_point_at_an_offset() {
    let error = Error::Query {
        offset: 7,
        length: 3,
        message: "expected a term after AND".to_owned(),
    };

    assert_eq!(
        error.to_string(),
        "invalid query at byte 7: expected a term after AND"
    );
}

#[test]
fn every_error_says_what_went_wrong() {
    let json = serde_json::from_str::<u32>("nonsense").expect_err("not a number");
    for (error, said) in [
        (
            Error::IndexFormat("a title is not valid UTF-8".to_owned()),
            "invalid index: a title is not valid UTF-8",
        ),
        (
            Error::MalformedRecord {
                path: "arxiv.jsonl".to_owned(),
                line: 12,
                source: json,
            },
            "arxiv.jsonl:12: malformed record",
        ),
        (
            Error::CorpusTooLarge,
            "corpus exceeds 4294967295 documents, the most a u32 document id can address",
        ),
        (
            Error::IndexTooLarge,
            "index exceeds 4294967295 postings or positions",
        ),
        (
            Error::CorpusChanged { unexpected_terms: 3 },
            "corpus changed between passes: 3 term occurrence(s) the counting pass never saw",
        ),
        (
            Error::NotImplemented("search"),
            "search is not implemented yet",
        ),
    ] {
        assert_eq!(error.to_string(), said);
    }
}

#[test]
fn truncation_counts_characters_not_bytes() {
    assert_eq!(truncate("short", 10), "short");
    assert_eq!(truncate("exactly-10", 10), "exactly-10");
    assert_eq!(truncate("truncate me", 8), "truncat\u{2026}");

    // Multi-byte characters: slicing by byte index here would panic.
    let japanese = "量子誤り訂正符号の構成について";
    assert_eq!(truncate(japanese, 5), "量子誤り\u{2026}");
    assert_eq!(truncate(japanese, 100), japanese);
}

#[test]
fn truncation_never_exceeds_its_limit() {
    assert_eq!(truncate("", 0), "");
    assert_eq!(truncate("a", 0), "");
    assert_eq!(truncate("ab", 1), "\u{2026}");
    for limit in 0..8 {
        assert!(truncate("naïve量子", limit).chars().count() <= limit);
    }
}

#[test]
fn byte_formatting_switches_units_at_the_right_boundaries() {
    assert_eq!(format_bytes(0), "0 B");
    assert_eq!(format_bytes(1023), "1023 B");
    assert_eq!(format_bytes(1024), "1.0 KiB");
    assert_eq!(format_bytes(1024 * 1024), "1.0 MiB");
    assert_eq!(format_bytes(4_724_464_025), "4.4 GiB");
}

#[test]
fn byte_formatting_agrees_with_floating_point() {
    let with_floats = |bytes: u64| {
        let mut value = bytes as f64;
        let mut unit = 0;
        while value >= 1024.0 && unit < 4 {
            value /= 1024.0;
            unit += 1;
        }
        if unit == 0 {
            format!("{bytes} B")
        } else {
            format!("{value:.1} {}", ["B", "KiB", "MiB", "GiB", "TiB"][unit])
        }
    };
    let mut bytes: u64 = 0x9e37_79b9_7f4a_7c15;
    for round in 0..20_000u32 {
        bytes = bytes.wrapping_mul(6_364_136_223_846_793_005).wrapping_add(1_442_695_040_888_963_407);
        let sample = bytes >> (round % 64);
        assert_eq!(format_bytes(sample), with_floats(sample), "{sample}");
    }
    for bytes in [
        // Halfway between two tenths.
        1024 + 256,
        1024 + 768,
        (1 << 20) + (1 << 18),
        (1 << 20) + 3 * (1 << 18),
        // Just below the next unit.
        (1 << 20) - 1,
        (1 << 30) - 1,
        (1 << 40) - 1,
        (1 << 53) + 1,
        (1 << 54) + 2,
        (1 << 54) + 6,
        u64::MAX,
        u64::MAX - 1024,
    ] {
        assert_eq!(format_bytes(bytes), with_floats(bytes), "{bytes}");
    }
}

#[test]
fn counts_get_thousands_separators() {
    assert_eq!(format_count(0), "0");
    assert_eq!(format_count(999), "999");
    assert_eq!(format_count(1000), "1,000");
    assert_eq!(format_count(2_713_961), "2,713,961");
}

#[test]
fn large_counts_keep_their_zeros() {
    assert_eq!(format_count(1_000_007), "1,000,007");
    assert_eq!(format_count(u64::MAX), "18,446,744,073,709,551,615");
}

#[test]
fn a_pass_stops_at_its_limit() {
    let mut pass = Pass::new(Some(2), true);
    assert!(pass.wants_more());
    pass.document_used();
    assert!(pass.wants_more());
    pass.document_used();
    assert!(!pass.wants_more());
    assert_eq!(pass.documents(), 2);
    assert!(!Pass::new(Some(0), true).wants_more());
    assert!(Pass::new(None, false).wants_more());
}

#[test]
fn a_pass_names_the_first_few_bad_records() {
    let mut pass = Pass::new(None, true);
    for _ in 0..MAX_REPORTED_MALFORMED {
        assert_eq!(pass.record_unusable(), Notice::Warn);
    }
    assert_eq!(pass.record_unusable(), Notice::WarnOfMore);
    assert_eq!(pass.record_unusable(), Notice::Silent);
    assert_eq!(pass.malformed(), MAX_REPORTED_MALFORMED + 2);
    assert_eq!(Pass::new(None, false).record_unusable(), Notice::Silent);
}

fn report(malformed: usize) -> BuildReport {
    BuildReport {
        input: "arxiv.jsonl".to_owned(),
        stats: IndexStats {
            documents: 12345,
            terms: 6789,
            postings: 1_000_000,
            positions: 2_000_000,
            bytes: 4096,
        },
        scanned: 3 * 1024 * 1024,
        share: "0.1".to_owned(),
        elapsed: "1.50 s".to_owned(),
        counting: "500 ms".to_owned(),
        filling: "1.00 s".to_owned(),
        documents_per_second: 8230,
        positions_per_second: 1_333_333,
        malformed,
    }
}

#[test]
fn a_build_is_reported_line_by_line() {
    assert_eq!(
        report(0).lines(),
        [
            "indexed 12345 documents from arxiv.jsonl",
            "  terms:        6,789",
            "  postings:     1,000,000",
            "  positions:    2,000,000",
            "  index size:   4.0 KiB",
            "  vs corpus:    0.1% of 3.0 MiB scanned",
            "  build time:   1.50 s (500 ms counting, 1.00 s filling)",
            "  rate:         8,230 docs/s, 1,333,333 positions/s",
        ]
    );
    assert_eq!(
        report(3).lines().last().map(String::as_str),
        Some("  malformed:    3 record(s) skipped")
    );
}

#[test]
fn an_example_shows_where_a_term_first_occurs() {
    let documents = vec![
        Document {
            id: DocId::new(0),
            external_id: "a".to_owned(),
            title: "Nothing".to_owned(),
            body: String::new(),
        },
        Document {
            id: DocId::new(1),
            external_id: "b".to_owned(),
            title: "Quantum quantum".to_owned(),
            body: "quantum quantum quantum".to_owned(),
        },
        Document {
            id: DocId::new(2),
            external_id: "c".to_owned(),
            title: String::new(),
            body: "quantum code".to_owned(),
        },
    ];
    let pass = || Ok(documents.iter().cloned().map(Ok).collect());
    let index = build(pass(), pass()).expect("small");
    let mut store = DocStore::new();
    for document in &documents {
        store.push(document);
    }

    assert_eq!(
        example(&index, &store, "quantum"),
        [
            "  \"quantum\":    2 documents, first is #1 at position(s) [0, 1, 102, 103]",
            "                Quantum quantum",
        ]
    );
    assert_eq!(
        example(&index, &store, "code"),
        ["  \"code\":    1 documents, first is #2 at position(s) [101]"]
    );
    assert!(example(&index, &store, "absent").is_empty());
}
