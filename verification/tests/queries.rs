//! Lexing the query language, and pointing at what is wrong with a query.

use boolsearch::query::{kind_of_terms, parse_u32, TermFault};
use boolsearch::tokenize::terms_of;
use boolsearch::{lex, point_at, Error, Lexeme, LexemeKind, Span};

/// The lexeme kinds, discarding spans.
fn kinds(query: &str) -> Vec<LexemeKind> {
    lex(query)
        .expect("query should lex")
        .into_iter()
        .map(|lexeme| lexeme.kind)
        .collect()
}

fn term(text: &str) -> LexemeKind {
    LexemeKind::Term(text.to_owned())
}

fn phrase(terms: &[&str]) -> LexemeKind {
    LexemeKind::Phrase(terms.iter().map(|&t| t.to_owned()).collect())
}

/// The error's byte offset and length.
fn error_span(query: &str) -> (usize, usize) {
    match lex(query).expect_err("query should be rejected") {
        Error::Query { offset, length, .. } => (offset, length),
        other => panic!("expected a query error, got {other:?}"),
    }
}

/// The error's message.
fn error_message(query: &str) -> String {
    match lex(query).expect_err("query should be rejected") {
        Error::Query { message, .. } => message,
        other => panic!("expected a query error, got {other:?}"),
    }
}

#[test]
fn an_empty_query_lexes_to_nothing() {
    assert!(kinds("").is_empty());
    assert!(kinds("   \t\n  ").is_empty());
}

#[test]
fn a_bare_word_is_a_term() {
    assert_eq!(kinds("quantum"), [term("quantum")]);
}

#[test]
fn terms_are_normalized_the_way_the_index_stores_them() {
    assert_eq!(kinds("QUANTUM"), [term("quantum")]);
    assert_eq!(kinds("Naïve"), [term("naïve")]);
}

#[test]
fn adjacent_words_are_separate_terms() {
    assert_eq!(
        kinds("quantum error correction"),
        [term("quantum"), term("error"), term("correction")]
    );
}

#[test]
fn operators_are_recognised_in_uppercase() {
    assert_eq!(
        kinds("a AND b OR c NOT d"),
        [
            term("a"),
            LexemeKind::And,
            term("b"),
            LexemeKind::Or,
            term("c"),
            LexemeKind::Not,
            term("d"),
        ]
    );
}

#[test]
fn lowercase_operators_are_ordinary_words() {
    // Someone searching for `cats and dogs` means the word.
    assert_eq!(
        kinds("cats and dogs"),
        [term("cats"), term("and"), term("dogs")]
    );
    assert_eq!(kinds("not"), [term("not")]);
    assert_eq!(kinds("Or"), [term("or")]);
}

#[test]
fn parentheses_are_their_own_lexemes() {
    assert_eq!(
        kinds("(a OR b)"),
        [
            LexemeKind::LeftParen,
            term("a"),
            LexemeKind::Or,
            term("b"),
            LexemeKind::RightParen,
        ]
    );
}

#[test]
fn parentheses_do_not_need_spaces_around_them() {
    assert_eq!(
        kinds("(a)"),
        [LexemeKind::LeftParen, term("a"), LexemeKind::RightParen]
    );
}

#[test]
fn double_quotes_make_a_phrase() {
    assert_eq!(
        kinds("\"error correction\""),
        [phrase(&["error", "correction"])]
    );
}

#[test]
fn single_quotes_make_exactly_the_same_phrase() {
    assert_eq!(kinds("'error correction'"), kinds("\"error correction\""));
}

#[test]
fn typographic_quotes_work_too() {
    assert_eq!(
        kinds("\u{2019}error correction\u{2019}"),
        [phrase(&["error", "correction"])]
    );
}

#[test]
fn a_one_word_phrase_is_just_that_word() {
    assert_eq!(kinds("\"quantum\""), [term("quantum")]);
}

#[test]
fn a_phrase_can_sit_inside_a_larger_query() {
    assert_eq!(
        kinds("quantum AND \"error correction\""),
        [
            term("quantum"),
            LexemeKind::And,
            phrase(&["error", "correction"]),
        ]
    );
}

#[test]
fn a_hyphenated_word_becomes_the_phrase_the_index_stored() {
    assert_eq!(
        kinds("state-of-the-art"),
        [phrase(&["state", "of", "the", "art"])]
    );
}

#[test]
fn an_apostrophe_inside_a_word_does_not_open_a_phrase() {
    assert_eq!(kinds("don't"), [term("don't")]);
    assert_eq!(
        kinds("it's 'a phrase'"),
        [term("it's"), phrase(&["a", "phrase"])]
    );
    assert_eq!(kinds("dogs'"), [term("dogs")]);
}

#[test]
fn a_trailing_star_makes_a_prefix() {
    assert_eq!(kinds("comp*"), [LexemeKind::Prefix("comp".to_owned())]);
    assert_eq!(
        kinds("quantum AND comp*"),
        [
            term("quantum"),
            LexemeKind::And,
            LexemeKind::Prefix("comp".to_owned()),
        ]
    );
}

#[test]
fn near_carries_its_distance_and_ordering() {
    assert_eq!(
        kinds("a NEAR/3 b"),
        [
            term("a"),
            LexemeKind::Near {
                distance: 3,
                ordered: false
            },
            term("b"),
        ]
    );
    assert_eq!(
        kinds("a ONEAR/12 b"),
        [
            term("a"),
            LexemeKind::Near {
                distance: 12,
                ordered: true
            },
            term("b"),
        ]
    );
}

#[test]
fn a_whole_query_lexes() {
    assert_eq!(
        kinds("quantum AND (\"error correction\" NEAR/5 surface) NOT class*"),
        [
            term("quantum"),
            LexemeKind::And,
            LexemeKind::LeftParen,
            phrase(&["error", "correction"]),
            LexemeKind::Near {
                distance: 5,
                ordered: false
            },
            term("surface"),
            LexemeKind::RightParen,
            LexemeKind::Not,
            LexemeKind::Prefix("class".to_owned()),
        ]
    );
}

#[test]
fn spans_point_at_the_text_they_came_from() {
    let query = "quantum AND \"error correction\"";
    let lexemes = lex(query).expect("lexes");

    assert_eq!(lexemes[0].span.of(query), "quantum");
    assert_eq!(lexemes[1].span.of(query), "AND");
    assert_eq!(lexemes[2].span.of(query), "\"error correction\"");
}

#[test]
fn spans_survive_multi_byte_characters() {
    let query = "naïve AND 量子";
    let lexemes = lex(query).expect("lexes");

    for lexeme in &lexemes {
        // The span must land on character boundaries, or this panics.
        let _ = lexeme.span.of(query);
    }
    assert_eq!(lexemes[0].span.of(query), "naïve");
    assert_eq!(lexemes[1].span.of(query), "AND");
}

#[test]
fn an_unterminated_phrase_points_at_the_opening_quote() {
    let query = "quantum AND \"error correction";
    let (offset, length) = error_span(query);

    assert_eq!(offset, 12, "should point at the quote");
    assert_eq!(&query[offset..offset + 1], "\"");
    assert_eq!(length, query.len() - 12);
}

#[test]
fn near_without_a_distance_points_at_the_operator() {
    let query = "quantum NEAR surface";
    let (offset, length) = error_span(query);

    assert_eq!(&query[offset..offset + length], "NEAR");
}

#[test]
fn a_non_numeric_distance_points_at_the_operator() {
    let query = "quantum NEAR/many surface";
    let (offset, length) = error_span(query);

    assert_eq!(&query[offset..offset + length], "NEAR/many");
}

#[test]
fn a_zero_distance_is_refused() {
    let query = "a NEAR/0 b";
    let (offset, length) = error_span(query);

    assert_eq!(&query[offset..offset + length], "NEAR/0");
}

#[test]
fn a_wildcard_in_the_middle_points_at_the_star() {
    let query = "quantum comp*uter";
    let (offset, length) = error_span(query);

    assert_eq!(&query[offset..offset + length], "*");
    assert_eq!(offset, 12);
}

#[test]
fn a_word_with_nothing_searchable_in_it_is_refused() {
    let (offset, length) = error_span("---");
    assert_eq!((offset, length), (0, 3));
}

#[test]
fn an_empty_phrase_is_refused() {
    let query = "\"   \"";
    let (offset, length) = error_span(query);
    assert_eq!((offset, length), (0, query.len()));
}

#[test]
fn the_caret_lines_up_under_the_offending_text() {
    let rendered = point_at("quantum NEAR surface", 8, 4);
    let lines: Vec<&str> = rendered.lines().collect();

    assert_eq!(lines[0], "quantum NEAR surface");
    assert_eq!(lines[1], "        ^^^^");
    // The caret starts directly under the N.
    assert_eq!(lines[1].find('^'), lines[0].find("NEAR"));
}

#[test]
fn the_caret_counts_characters_not_bytes() {
    let query = "naïve AND x";
    let lexemes = lex(query).expect("lexes");
    let and = &lexemes[1];

    let rendered = point_at(query, and.span.start, and.span.len());
    let lines: Vec<&str> = rendered.lines().collect();

    assert_eq!(lines[1].find('^'), Some("naïve ".chars().count()));
}

#[test]
fn lexemes_display_as_something_close_to_what_was_written() {
    let query = "quantum AND (\"error correction\" NEAR/5 surface) NOT class*";
    let rendered: Vec<String> = lex(query)
        .expect("lexes")
        .iter()
        .map(Lexeme::to_string)
        .collect();

    assert_eq!(
        rendered.join(" "),
        "quantum AND ( \"error correction\" NEAR/5 surface ) NOT class*"
    );
}

#[test]
fn spans_are_ordered_and_never_overlap() {
    let query = "quantum AND (\"error correction\" NEAR/5 surface) NOT class*";
    let lexemes = lex(query).expect("lexes");

    for pair in lexemes.windows(2) {
        assert!(
            pair[0].span.end <= pair[1].span.start,
            "{:?} overlaps {:?}",
            pair[0],
            pair[1]
        );
    }
}

#[test]
fn a_span_knows_its_own_length() {
    let span = Span::new(4, 9);
    assert_eq!(span.len(), 5);
    assert!(!span.is_empty());
    assert!(Span::new(3, 3).is_empty());
}

#[test]
fn a_backwards_span_is_empty() {
    assert!(Span::new(9, 4).is_empty());
}

#[test]
fn each_fault_says_what_is_wrong() {
    assert_eq!(
        error_message("\"open"),
        "this phrase is never closed — add a matching \""
    );
    assert_eq!(
        error_message("a \u{2019}open"),
        "this phrase is never closed — add a matching \u{2019}"
    );
    assert_eq!(
        error_message("' - '"),
        "this phrase has no searchable terms in it"
    );
    assert_eq!(error_message("NEAR"), "NEAR needs a distance, as in NEAR/3");
    assert_eq!(error_message("ONEAR"), "ONEAR needs a distance, as in ONEAR/3");
    assert_eq!(
        error_message("NEAR/many"),
        "\"many\" is not a distance — write a whole number, as in NEAR/3"
    );
    assert_eq!(
        error_message("ONEAR/\\\u{301}"),
        "\"\\\\\\u{301}\" is not a distance — write a whole number, as in NEAR/3"
    );
    assert_eq!(
        error_message("NEAR/0"),
        "a distance of 0 can never match, since two terms cannot share a position"
    );
    assert_eq!(
        error_message("co*mp"),
        "a wildcard is only supported at the end of a term"
    );
    assert_eq!(
        error_message("-'-"),
        "\"-'-\" has no searchable characters in it"
    );
    assert_eq!(error_message("*"), "\"*\" has no searchable characters in it");
    assert_eq!(
        error_message("well-kn*"),
        "\"well-kn*\" splits into several terms, so the wildcard has nothing to attach to"
    );
}

#[test]
fn a_query_error_names_its_byte() {
    let error = lex("é NEAR").expect_err("no distance");
    assert_eq!(
        error.to_string(),
        "invalid query at byte 3: NEAR needs a distance, as in NEAR/3"
    );
}

#[test]
fn distances_are_read_as_whole_numbers_are() {
    for text in [
        "", "+", "-", "-1", "0", "00", "7", "+7", "++7", "007", "4294967295", "4294967296",
        "+4294967295", "99999999999999999999", "1 ", "1a", "١",
    ] {
        assert_eq!(parse_u32(text), text.parse::<u32>().ok(), "{text:?}");
    }
}

#[test]
fn an_operator_glued_to_a_quote_is_still_an_operator() {
    assert_eq!(
        kinds("a AND\"b c\""),
        [term("a"), LexemeKind::And, phrase(&["b", "c"])]
    );
}

#[test]
fn a_fault_lies_inside_the_query() {
    for query in ["\"", "é ' ", "NEAR", "x NEAR/", "量*子", "-", "( ) *", "a-b*"] {
        let (offset, length) = error_span(query);
        assert!(length > 0);
        assert!(query.get(offset..offset + length).is_some(), "{query:?}");
    }
}

#[test]
fn any_of_the_quotes_makes_the_same_phrase() {
    for inside in ["error correction", "x", "量子", "a-b c"] {
        assert_eq!(
            kinds(&format!("'{inside}'")),
            kinds(&format!("\"{inside}\""))
        );
        assert_eq!(
            kinds(&format!("\u{2019}{inside}\u{2019}")),
            kinds(&format!("\"{inside}\""))
        );
    }
}

#[test]
fn the_caret_stays_within_the_query() {
    assert_eq!(point_at("abc", 1, 1), "abc\n ^");
    assert_eq!(point_at("abc", 1, 0), "abc\n ^");
    assert_eq!(point_at("量子", 3, 3), "量子\n ^");
    assert_eq!(point_at("", 0, 0), "\n^");
    assert_eq!(point_at("abc", 1, 9), "abc\n ^^");
    assert_eq!(point_at("abc", 10, 2), "abc\n   ^");
    // A span that ends inside a character is pointed at by its start.
    assert_eq!(point_at("量子", 0, 4), "量子\n^");
}

#[test]
fn lexemes_and_spans_can_be_shown() {
    assert_eq!(Span::new(4, 9).to_string(), "4..9");
    assert_eq!(LexemeKind::And.to_string(), "AND");
    assert_eq!(
        LexemeKind::Near {
            distance: 12,
            ordered: true
        }
        .to_string(),
        "ONEAR/12"
    );
    assert_eq!(phrase(&["a", "b"]).to_string(), "\"a b\"");
    assert_eq!(phrase(&["a", "b"]).describe(), "a phrase");
    assert_eq!(LexemeKind::Or.describe(), "an operator");
    assert_eq!(LexemeKind::LeftParen.describe(), "an opening parenthesis");
}

#[test]
fn a_query_asks_for_terms_as_they_are_indexed() {
    for text in ["Naïve", "state-of-the-art", "Don't", "3.14,15", "量子X", "ΑΣ"] {
        let asked = match kinds(text).remove(0) {
            LexemeKind::Term(term) => vec![term],
            LexemeKind::Phrase(terms) => terms,
            other => panic!("got {other:?}"),
        };
        assert_eq!(asked, terms_of(text), "{text:?}");
        assert_eq!(kinds(&format!("\"{text}\"")), kinds(text), "{text:?}");
    }
    assert_eq!(kinds("COMP*"), [LexemeKind::Prefix("comp".to_owned())]);
}

#[test]
fn terms_make_a_term_a_prefix_or_a_phrase() {
    let terms = |texts: &[&str]| texts.iter().map(|&text| text.to_owned()).collect::<Vec<_>>();
    assert_eq!(kind_of_terms(terms(&["a"]), false), Ok(term("a")));
    assert_eq!(
        kind_of_terms(terms(&["a"]), true),
        Ok(LexemeKind::Prefix("a".to_owned()))
    );
    assert_eq!(
        kind_of_terms(terms(&["a", "b"]), false),
        Ok(phrase(&["a", "b"]))
    );
    assert_eq!(
        kind_of_terms(terms(&["a", "b"]), true),
        Err(TermFault::SeveralTerms)
    );
    assert_eq!(
        kind_of_terms(Vec::new(), true),
        Err(TermFault::NothingSearchable)
    );
}

#[test]
fn lexing_is_done_piece_by_piece() {
    for one in ["", "quantum", "(a", "\"error correction\" NEAR/3", "naïve 量子", "dogs'"] {
        for other in ["", "x", ") OR comp*", "'a b'", "  é"] {
            let mut expected = lex(one).expect("lexes");
            for mut lexeme in lex(other).expect("lexes") {
                lexeme.span.start += one.len() + 1;
                lexeme.span.end += one.len() + 1;
                expected.push(lexeme);
            }
            assert_eq!(lex(&format!("{one} {other}")).expect("lexes"), expected);
        }
        let (offset, length) = error_span("a NEAR");
        assert_eq!(
            error_span(&format!("{one} a NEAR")),
            (offset + one.len() + 1, length)
        );
    }
}

#[test]
fn shown_lexemes_are_lexed_as_themselves() {
    for query in [
        "",
        "Quantum AND (\"Error  correction\" NEAR/5 surface) NOT class*",
        "state-of-the-art don't 'it's",
        "a ONEAR/4294967295 b",
        "'One' \"two, three\" 3.14 1,000 and or not near",
    ] {
        let Ok(lexemes) = lex(query) else {
            continue;
        };
        let shown: Vec<String> = lexemes.iter().map(Lexeme::to_string).collect();
        let again: Vec<LexemeKind> = kinds(&shown.join(" "));
        assert_eq!(again, kinds(query), "{query:?}");
    }
}
