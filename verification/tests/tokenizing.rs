//! Splitting text into tokens.

use std::borrow::Cow;

use boolsearch::text::{is_alphabetic, is_alphanumeric, is_white_space, width_of};
use boolsearch::tokenize::{
    is_cjk, joins_a_word, scan_word_end, scan_word_end_unicode, terms_of,
};
use boolsearch::{normalize_whitespace, tokenize, Token};

/// The token texts, discarding offsets and positions.
fn terms(text: &str) -> Vec<&str> {
    tokenize(text).collect().into_iter().map(|token| token.text).collect()
}

/// The normalized token texts.
fn normalized(text: &str) -> Vec<String> {
    tokenize(text)
        .collect()
        .into_iter()
        .map(|token| token.normalized().into_owned())
        .collect()
}

/// Everything that holds of the tokens of any text.
fn assert_invariants(text: &str) {
    let tokens: Vec<Token<'_>> = tokenize(text).collect();
    for (ordinal, token) in tokens.iter().enumerate() {
        assert_eq!(&text[token.offset..token.end()], token.text);
        assert_eq!(token.position as usize, ordinal);
        assert!(!token.text.is_empty());
        assert!(!token.text.contains(char::is_whitespace));
        let normalized = token.normalized();
        assert_eq!(normalized, token.text.to_lowercase());
        assert_eq!(normalized.to_lowercase(), normalized.as_ref());
    }
    for pair in tokens.windows(2) {
        assert!(pair[0].end() <= pair[1].offset);
    }
}

#[test]
fn a_plain_sentence_splits_on_spaces() {
    assert_eq!(
        terms("Surface code quantum error correction"),
        ["Surface", "code", "quantum", "error", "correction"]
    );
}

#[test]
fn positions_count_tokens_and_offsets_count_bytes() {
    let tokens: Vec<Token<'_>> = tokenize("Surface code quantum").collect();

    assert_eq!(tokens[0].position, 0);
    assert_eq!(tokens[1].position, 1);
    assert_eq!(tokens[2].position, 2);

    assert_eq!(tokens[0].offset, 0);
    assert_eq!(tokens[1].offset, 8);
    assert_eq!(tokens[2].offset, 13);
}

#[test]
fn positions_stay_consecutive_across_punctuation() {
    let tokens: Vec<Token<'_>> = tokenize("error --- ,,, correction").collect();

    assert_eq!(tokens.len(), 2);
    assert_eq!(tokens[0].position, 0);
    assert_eq!(tokens[1].position, 1);
}

#[test]
fn every_token_is_the_slice_at_its_own_offset() {
    let text = "Naïve  Bayes, 3.14 — 量子 don't";
    for token in tokenize(text).collect() {
        assert_eq!(&text[token.offset..token.end()], token.text);
    }
}

#[test]
fn empty_and_punctuation_only_input_yields_nothing() {
    assert!(terms("").is_empty());
    assert!(terms("   \n\t  ").is_empty());
    assert!(terms("--- ,,, !!! ...").is_empty());
}

#[test]
fn hyphens_split_so_phrase_queries_can_find_the_parts() {
    assert_eq!(terms("state-of-the-art"), ["state", "of", "the", "art"]);
    assert_eq!(terms("well-known"), ["well", "known"]);
    assert_eq!(terms("--leading and trailing--"), ["leading", "and", "trailing"]);
}

#[test]
fn apostrophes_hold_a_word_together() {
    assert_eq!(terms("don't"), ["don't"]);
    assert_eq!(terms("it's Kayan's"), ["it's", "Kayan's"]);
    assert_eq!(terms("don\u{2019}t"), ["don\u{2019}t"]);
}

#[test]
fn an_apostrophe_without_a_word_on_both_sides_is_a_boundary() {
    assert_eq!(terms("dogs'"), ["dogs"]);
    assert_eq!(terms("'quoted'"), ["quoted"]);
    assert_eq!(terms("rock 'n' roll"), ["rock", "n", "roll"]);
}

#[test]
fn digits_keep_their_decimal_points_and_separators() {
    assert_eq!(terms("3.14"), ["3.14"]);
    assert_eq!(terms("1,000,000"), ["1,000,000"]);
    assert_eq!(terms("0704.0001"), ["0704.0001"]);
    assert_eq!(terms("e.g."), ["e", "g"]);
    assert_eq!(terms("end. Next"), ["end", "Next"]);
}

#[test]
fn accented_letters_are_ordinary_letters() {
    assert_eq!(terms("naïve Bayes"), ["naïve", "Bayes"]);
    assert_eq!(terms("Schrödinger's équation"), ["Schrödinger's", "équation"]);
    assert_ne!(normalized("naïve"), normalized("naive"));
}

#[test]
fn cjk_characters_are_one_token_each() {
    assert_eq!(terms("量子誤り"), ["量", "子", "誤", "り"]);

    let tokens: Vec<Token<'_>> = tokenize("量子誤り").collect();
    assert_eq!(tokens[0].position, 0);
    assert_eq!(tokens[1].position, 1);
}

#[test]
fn cjk_and_latin_can_be_mixed() {
    assert_eq!(terms("量子 quantum 誤り"), ["量", "子", "quantum", "誤", "り"]);
    assert_eq!(terms("ABC量子"), ["ABC", "量", "子"]);
    assert_eq!(terms("量子ABC"), ["量", "子", "ABC"]);
}

#[test]
fn normalization_lowercases_without_touching_the_original() {
    let tokens: Vec<Token<'_>> = tokenize("Surface CODE").collect();

    assert_eq!(tokens[0].text, "Surface");
    assert_eq!(tokens[0].normalized(), "surface");
    assert_eq!(tokens[1].normalized(), "code");
}

#[test]
fn already_lowercase_terms_are_not_allocated() {
    let token = tokenize("surface").next().expect("one token");
    assert!(matches!(token.normalized(), Cow::Borrowed(_)));

    let token = tokenize("Surface").next().expect("one token");
    assert!(matches!(token.normalized(), Cow::Owned(_)));
}

#[test]
fn titlecase_characters_are_lowercased() {
    assert_eq!(normalized("\u{01C5}"), ["\u{01C6}"]);
}

#[test]
fn uppercase_characters_without_a_lowercase_mapping_are_left_alone() {
    let token = tokenize("\u{1F130}").next().expect("one token");
    assert_eq!(token.normalized(), "\u{1F130}");
    assert!(matches!(token.normalized(), Cow::Borrowed(_)));
}

#[test]
fn normalization_always_agrees_with_to_lowercase() {
    for text in [
        "surface",
        "Surface",
        "\u{01C5}",
        "\u{1F130}",
        "\u{1E9E}",
        "\u{0130}",
        "\u{03A3}",
    ] {
        let token = tokenize(text).next().expect("one token");
        assert_eq!(token.normalized(), text.to_lowercase(), "disagreed on {text:?}");
    }
}

#[test]
fn normalization_handles_non_ascii_case() {
    assert_eq!(normalized("ÉQUATION Straße"), ["équation", "straße"]);
}

#[test]
fn tokens_borrow_from_the_input_rather_than_copying_it() {
    let text = String::from("borrowed slice");
    let token = tokenize(&text).next().expect("one token");

    assert!(std::ptr::eq(token.text.as_ptr(), text.as_ptr()));
}

#[test]
fn newlines_inside_a_body_are_just_separators() {
    assert_eq!(
        terms("quantum chromodynamics is\npresented for the production"),
        ["quantum", "chromodynamics", "is", "presented", "for", "the", "production"]
    );
}

#[test]
fn stop_words_are_kept_so_positions_stay_truthful() {
    let tokens: Vec<Token<'_>> = tokenize("the cat sat on the mat").collect();

    assert_eq!(tokens.len(), 6);
    assert_eq!(tokens[1].text, "cat");
    assert_eq!(tokens[2].position - tokens[1].position, 1);
}

#[test]
fn the_iterator_is_lazy() {
    let mut tokens = tokenize("one two three four five");
    let first = tokens.next().expect("a token");

    assert_eq!(first.text, "one");
    assert_eq!(tokens.remainder(), " two three four five");
}

#[test]
fn the_invariants_hold_of_awkward_text() {
    for text in [
        "",
        " ",
        "'",
        "a'",
        "'a",
        "a''b",
        "a'b'c",
        "1.2.3",
        "1..2",
        "1.a",
        "a.1",
        "x\u{2019}y\u{2019}",
        "a'量",
        "量'a",
        "é'é é' 'é",
        "\u{a0}a\u{3000}b\u{2003}c",
        "ΑΣ ΑΣΑ Σ",
        "İstanbul",
        "e\u{301}cole",
        "日本語テスト한국어",
        "a\u{20000}b",
        "½ ² Ⅷ",
    ] {
        assert_invariants(text);
    }
}

#[test]
fn a_connector_before_a_cjk_character_is_not_part_of_the_word() {
    assert_eq!(terms("a'量b"), ["a", "量", "b"]);
    assert_eq!(terms("é'量"), ["é", "量"]);
}

#[test]
fn a_word_that_turns_non_ascii_half_way_is_one_token() {
    assert_eq!(terms("na\u{ef}ve's x"), ["na\u{ef}ve's", "x"]);
    assert_eq!(terms("don't\u{e9}"), ["don't\u{e9}"]);
    assert_eq!(terms("abc'"), ["abc"]);
    assert_eq!(terms("l'\u{e9}t\u{e9}"), ["l'\u{e9}t\u{e9}"]);
}

#[test]
fn splitting_at_white_space_keeps_terms_together() {
    for (left, right) in [("don't 3.14", "量子 x"), ("a'", "b"), ("3.", "14"), ("", "x")] {
        for space in [' ', '\n', '\u{a0}', '\u{3000}'] {
            let whole = format!("{left}{space}{right}");
            let mut parts = normalized(left);
            parts.extend(normalized(right));
            assert_eq!(normalized(&whole), parts, "at {space:?} in {whole:?}");
        }
    }
}

#[test]
fn what_stands_before_white_space_moves_what_follows() {
    for (left, right) in [
        ("Naïve café", "don't 3.14"),
        ("", "one two"),
        ("量子 -", "x量 y"),
        ("a b", ""),
        ("it'", "'s"),
    ] {
        let whole = format!("{left} {right}");
        let before = tokenize(left).collect();
        let behind = tokenize(right).collect();
        let all = tokenize(&whole).collect();
        assert_eq!(all.len(), before.len() + behind.len());
        for (token, alone) in all.iter().zip(&before) {
            assert_eq!(token, alone);
        }
        for (token, alone) in all[before.len()..].iter().zip(&behind) {
            assert_eq!(token.text, alone.text);
            assert_eq!(token.offset, alone.offset + left.len() + 1);
            assert_eq!(token.position as usize, alone.position as usize + before.len());
        }
    }
}

#[test]
fn padding_moves_offsets_and_nothing_else() {
    let plain: Vec<Token<'_>> = tokenize("error correction").collect();
    let padded: Vec<Token<'_>> = tokenize(" \u{2003}error correction\t").collect();
    assert_eq!(plain.len(), padded.len());
    for (a, b) in plain.iter().zip(&padded) {
        assert_eq!(a.text, b.text);
        assert_eq!(a.position, b.position);
        assert_eq!(a.offset + 4, b.offset);
    }
}

#[test]
fn characters_are_classified_as_the_standard_library_does() {
    for code in 0..=0x10FFFFu32 {
        if let Some(c) = char::from_u32(code) {
            assert_eq!(is_white_space(c), c.is_whitespace(), "{code:x}");
            assert_eq!(is_alphanumeric(c), c.is_alphanumeric(), "{code:x}");
            assert_eq!(is_alphabetic(c), c.is_alphabetic(), "{code:x}");
            assert_eq!(width_of(c), c.len_utf8(), "{code:x}");
        }
    }
}

#[test]
fn connectors_take_neighbours_on_both_sides() {
    assert!(joins_a_word('\'', Some('n'), Some('t')));
    assert!(joins_a_word('\u{2019}', Some('é'), Some('t')));
    assert!(!joins_a_word('\'', Some('n'), None));
    assert!(!joins_a_word('\'', None, Some('t')));
    assert!(!joins_a_word('\'', Some('1'), Some('2')));
    assert!(joins_a_word('.', Some('1'), Some('2')));
    assert!(joins_a_word(',', Some('1'), Some('2')));
    assert!(!joins_a_word('.', Some('a'), Some('2')));
    assert!(!joins_a_word('.', Some('\u{661}'), Some('2')));
    assert!(!joins_a_word('-', Some('a'), Some('b')));
}

#[test]
fn cjk_ranges_end_where_they_should() {
    for (inside, outside) in [
        ('\u{3040}', '\u{303F}'),
        ('\u{30FF}', '\u{3100}'),
        ('\u{3400}', '\u{33FF}'),
        ('\u{4DBF}', '\u{4DC0}'),
        ('\u{4E00}', '\u{4DFF}'),
        ('\u{9FFF}', '\u{A000}'),
        ('\u{AC00}', '\u{ABFF}'),
        ('\u{D7AF}', '\u{D7B0}'),
        ('\u{F900}', '\u{E000}'),
        ('\u{FAFF}', '\u{FB00}'),
        ('\u{20000}', '\u{1FFFF}'),
        ('\u{2FA1F}', '\u{2FA20}'),
    ] {
        assert!(is_cjk(inside));
        assert!(!is_cjk(outside));
    }
}

#[test]
fn a_size_hint_is_the_bytes_left() {
    let mut tokens = tokenize("né ab");
    assert_eq!(tokens.size_hint(), (0, Some(6)));
    tokens.next();
    assert_eq!(tokens.size_hint(), (0, Some(3)));
    tokens.next();
    assert_eq!(tokens.size_hint(), (0, Some(0)));
    assert!(tokens.next().is_none());
    assert_eq!(tokens.remainder(), "");
}

#[test]
fn scanning_past_the_last_token_leaves_no_remainder() {
    let mut tokens = tokenize("one ...");
    tokens.next();
    assert_eq!(tokens.remainder(), " ...");
    assert!(tokens.clone().next().is_none());
    assert!(tokens.next().is_none());
    assert_eq!(tokens.remainder(), "");
}

#[test]
fn terms_are_the_normalized_tokens() {
    assert_eq!(terms_of("Surface CODE, Don't É"), ["surface", "code", "don't", "é"]);
}

#[test]
fn normalizing_white_space_leaves_the_terms() {
    for text in [
        "",
        "  Calculation of prompt\n  diphoton\tproduction ",
        "don't\u{a0}3.14\u{3000}量子 x",
        "a '\n' b",
    ] {
        assert_eq!(terms_of(&normalize_whitespace(text)), terms_of(text), "{text:?}");
    }
}

#[test]
fn lowercasing_twice_is_lowercasing_once() {
    for text in ["Surface CODE 3.14 Don't", "ΑΣ İ ẞ ǅ"] {
        for term in terms_of(text) {
            assert_eq!(term.to_lowercase(), term);
        }
    }
}

#[test]
fn the_invariants_hold_of_text_put_together_at_random() {
    let alphabet: Vec<char> = "aZ09éß\u{4e00}\u{4e20}'\u{2019}.,-_ \n\tΣİ\u{301}🄰\u{a0}"
        .chars()
        .collect();
    let mut state: u64 = 0x2545_f491_4f6c_dd1d;
    for length in 0..400usize {
        let mut text = String::new();
        for _ in 0..length % 60 {
            state ^= state << 13;
            state ^= state >> 7;
            state ^= state << 17;
            text.push(alphabet[(state % alphabet.len() as u64) as usize]);
        }
        assert_invariants(&text);

        // A cut at white space, wherever one is, changes no term.
        if let Some(at) = text.find(char::is_whitespace) {
            let (left, right) = text.split_at(at);
            let mut parts = terms(left);
            parts.extend(terms(right));
            assert_eq!(terms(&text), parts, "{text:?}");
        }
    }
}

#[test]
fn the_two_word_scans_agree() {
    for text in [
        "plain", "don't stop", "dogs'", "dogs' x", "3.14,15.", "1.", "naïve's", "don'té", "é'a",
        "a'量", "量子a", "a\u{2019}b", "a.b", "9'9", "x",
    ] {
        for (start, character) in text.char_indices() {
            if character.is_alphanumeric() {
                assert_eq!(
                    scan_word_end(text, start),
                    scan_word_end_unicode(text, start),
                    "{text:?} at {start}"
                );
            }
        }
    }
    assert_eq!(scan_word_end("don't stop", 0), 5);
    assert_eq!(scan_word_end("dogs'", 0), 4);
    assert_eq!(scan_word_end("量子", 0), 0);
}

#[test]
fn tokens_that_fit_are_collected() {
    assert_eq!(
        tokenize("one two").try_collect(),
        Some(tokenize("one two").collect())
    );
    assert_eq!(tokenize("").try_collect(), Some(Vec::new()));
}
