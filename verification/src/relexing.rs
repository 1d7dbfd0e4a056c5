//! What comes of lexing queries put together, and of lexing again what was lexed.

use crate::query;
use crate::query::{Fault, Kind, LexemeView};
use crate::text;
use crate::tokenize;
use crate::whitespace;
use vstd::prelude::*;
use vstd::utf8::*;

verus! {

/// A lexeme moved to the right by so many bytes.
pub open spec fn moved_lexeme(lexeme: LexemeView, by: nat) -> LexemeView {
    LexemeView { kind: lexeme.kind, start: lexeme.start + by, end: lexeme.end + by }
}

/// Lexemes moved to the right by so many bytes.
pub open spec fn moved(lexemes: Seq<LexemeView>, by: nat) -> Seq<LexemeView> {
    lexemes.map_values(|lexeme: LexemeView| moved_lexeme(lexeme, by))
}

/// A fault moved to the right by so many bytes.
pub open spec fn moved_fault(fault: Fault, by: nat) -> Fault {
    Fault { offset: fault.offset + by, length: fault.length, message: fault.message }
}

/// A lexeme, or a fault, moved to the right.
spec fn moved_result(result: Result<LexemeView, Fault>, by: nat) -> Result<LexemeView, Fault> {
    match result {
        Ok(lexeme) => Ok(moved_lexeme(lexeme, by)),
        Err(fault) => Err(moved_fault(fault, by)),
    }
}

/// `one`, a space, and `other`.
pub open spec fn with_space(one: Seq<char>, other: Seq<char>) -> Seq<char> {
    one + seq![' '] + other
}

pub proof fn lemma_bytes_behind(one: Seq<char>, other: Seq<char>, k: int)
    requires
        0 <= k <= other.len(),
    ensures
        text::byte_at((one + other), one.len() + k) == text::byte_len(one)
            + text::byte_at(other, k),
        text::byte_len((one + other)) == text::byte_len(one) + text::byte_len(other),
{
    let whole = one + other;
    assert(whole.take(one.len() + k) =~= one + other.take(k));
    text::lemma_encode_concat(one, other.take(k));
    text::lemma_encode_concat(one, other);
}

proof fn lemma_first_of_behind(one: Seq<char>, other: Seq<char>, from: int, wanted: char)
    requires
        0 <= from,
    ensures
        query::first_of((one + other), one.len() + from, wanted) == one.len()
            + query::first_of(other, from, wanted),
    decreases other.len() - from,
{
    let whole = one + other;
    if from < other.len() {
        assert(whole[one.len() + from] == other[from]);
        if other[from] != wanted {
            lemma_first_of_behind(one, other, from + 1, wanted);
        }
    }
}

proof fn lemma_word_end_behind(one: Seq<char>, other: Seq<char>, from: int)
    requires
        0 <= from,
    ensures
        query::bare_word_end((one + other), one.len() + from) == one.len()
            + query::bare_word_end(other, from),
    decreases other.len() - from,
{
    let whole = one + other;
    if from < other.len() {
        assert(whole[one.len() + from] == other[from]);
        if !query::ends_word(other[from]) {
            lemma_word_end_behind(one, other, from + 1);
        }
    }
}

/// A word makes the same lexeme, or the same fault, wherever it stands.
proof fn lemma_word_moved(word: Seq<char>, offset: nat, by: nat)
    ensures
        query::word_lexeme(word, offset + by) == moved_result(
            query::word_lexeme(word, offset),
            by,
        ),
{
    let end = offset + text::byte_len(word);
    let near = word.skip("NEAR/"@.len() as int);
    let ordered = word.skip("ONEAR/"@.len() as int);
    assert(query::near_lexeme(near, false, offset + by, end + by) == moved_result(
        query::near_lexeme(near, false, offset, end),
        by,
    ));
    assert(query::near_lexeme(ordered, true, offset + by, end + by) == moved_result(
        query::near_lexeme(ordered, true, offset, end),
        by,
    ));
    assert(query::term_lexeme(word, offset + by) == moved_result(
        query::term_lexeme(word, offset),
        by,
    ));
}

proof fn lemma_lexeme_behind(one: Seq<char>, other: Seq<char>, start: int)
    requires
        0 <= start < other.len(),
        !text::white_space(other[start]),
    ensures
        query::lexeme_at((one + other), one.len() + start) == moved_result(
            query::lexeme_at(other, start),
            text::byte_len(one),
        ),
        query::lexeme_end((one + other), one.len() + start) == one.len()
            + query::lexeme_end(other, start),
{
    let whole = one + other;
    let base = one.len() as int;
    let by = text::byte_len(one);
    let c = other[start];
    assert(whole[base + start] == c);
    lemma_bytes_behind(one, other, start);
    if c == '(' || c == ')' {
    } else if query::opens_phrase(c) {
        lemma_first_of_behind(one, other, start + 1, c);
        query::lemma_first_of(other, start + 1, c);
        let close = query::first_of(other, start + 1, c);
        text::lemma_byte_at(other, start);
        if close < other.len() {
            lemma_bytes_behind(one, other, close + 1);
            text::lemma_byte_at_monotone(other, start, close + 1);
            assert(whole.subrange(base + start + 1, base + close) =~= other.subrange(
                start + 1,
                close,
            ));
        }
        assert(query::phrase_at(whole, base + start) == moved_result(
            query::phrase_at(other, start),
            by,
        ));
    } else {
        lemma_word_end_behind(one, other, start);
        query::lemma_bare_word_end(other, start);
        let end = query::bare_word_end(other, start);
        assert(whole.subrange(base + start, base + end) =~= other.subrange(start, end));
        lemma_word_moved(other.subrange(start, end), text::byte_at(other, start), by);
    }
}

/// What is lexed behind some text is what would be lexed alone, moved.
pub proof fn lemma_lexed_behind(one: Seq<char>, other: Seq<char>, from: int)
    requires
        0 <= from <= other.len(),
    ensures
        query::lexed_from((one + other), one.len() + from) == (
        match query::lexed_from(other, from) {
            Ok(lexemes) => Ok::<Seq<LexemeView>, Fault>(moved(lexemes, text::byte_len(one))),
            Err(fault) => Err(moved_fault(fault, text::byte_len(one))),
        }),
    decreases other.len() - from,
{
    let whole = one + other;
    let base = one.len() as int;
    let by = text::byte_len(one);
    if from >= other.len() {
        assert(moved(Seq::<LexemeView>::empty(), by) =~= Seq::<LexemeView>::empty());
    } else {
        assert(whole[base + from] == other[from]);
        if text::white_space(other[from]) {
            lemma_lexed_behind(one, other, from + 1);
        } else {
            lemma_lexeme_behind(one, other, from);
            query::lemma_lexeme_end(other, from);
            let end = query::lexeme_end(other, from);
            if let Ok(lexeme) = query::lexeme_at(other, from) {
                lemma_lexed_behind(one, other, end);
                if let Ok(rest) = query::lexed_from(other, end) {
                    assert(moved(seq![lexeme] + rest, by) =~= seq![moved_lexeme(lexeme, by)]
                        + moved(rest, by));
                }
            }
        }
    }
}

proof fn lemma_first_of_before(one: Seq<char>, other: Seq<char>, from: int, wanted: char)
    requires
        0 <= from,
        query::first_of(one, from, wanted) < one.len(),
    ensures
        query::first_of((one + other), from, wanted) == query::first_of(
            one,
            from,
            wanted,
        ),
    decreases one.len() - from,
{
    let whole = one + other;
    if from < one.len() {
        assert(whole[from] == one[from]);
        if one[from] != wanted {
            lemma_first_of_before(one, other, from + 1, wanted);
        }
    }
}

proof fn lemma_word_end_before(one: Seq<char>, other: Seq<char>, from: int)
    requires
        other.len() > 0 ==> query::ends_word(other[0]),
        0 <= from <= one.len(),
    ensures
        query::bare_word_end((one + other), from) == query::bare_word_end(one, from),
    decreases one.len() - from,
{
    let whole = one + other;
    if from < one.len() {
        assert(whole[from] == one[from]);
        if !query::ends_word(one[from]) {
            lemma_word_end_before(one, other, from + 1);
        }
    } else if other.len() > 0 {
        assert(whole[from] == other[0]);
    }
}

/// What is lexed before the end of a word is what would be lexed alone.
proof fn lemma_lexeme_before(one: Seq<char>, other: Seq<char>, start: int)
    requires
        other.len() > 0 ==> query::ends_word(other[0]),
        0 <= start < one.len(),
        !text::white_space(one[start]),
        query::lexeme_at(one, start) is Ok,
    ensures
        query::lexeme_at((one + other), start) == query::lexeme_at(one, start),
        query::lexeme_end((one + other), start) == query::lexeme_end(one, start),
{
    let whole = one + other;
    let c = one[start];
    assert(whole[start] == c);
    assert(whole.take(start) =~= one.take(start));
    if c == '(' || c == ')' {
    } else if query::opens_phrase(c) {
        let close = query::first_of(one, start + 1, c);
        query::lemma_first_of(one, start + 1, c);
        lemma_first_of_before(one, other, start + 1, c);
        assert(whole.take(close + 1) =~= one.take(close + 1));
        assert(whole.subrange(start + 1, close) =~= one.subrange(start + 1, close));
    } else {
        let end = query::bare_word_end(one, start);
        query::lemma_bare_word_end(one, start);
        lemma_word_end_before(one, other, start);
        assert(whole.subrange(start, end) =~= one.subrange(start, end));
    }
}

proof fn lemma_lexed_before(one: Seq<char>, other: Seq<char>, from: int)
    requires
        other.len() > 0 ==> query::ends_word(other[0]),
        0 <= from <= one.len(),
        query::lexed_from(one, from) is Ok,
    ensures
        query::lexed_from((one + other), from) == (match query::lexed_from(
            (one + other),
            one.len() as int,
        ) {
            Ok(rest) => Ok::<Seq<LexemeView>, Fault>(query::lexed_from(one, from)->Ok_0 + rest),
            Err(fault) => Err(fault),
        }),
    decreases one.len() - from,
{
    let whole = one + other;
    let behind = query::lexed_from(whole, one.len() as int);
    if from >= one.len() {
        if let Ok(rest) = behind {
            assert(Seq::<LexemeView>::empty() + rest =~= rest);
        }
    } else {
        assert(whole[from] == one[from]);
        if text::white_space(one[from]) {
            lemma_lexed_before(one, other, from + 1);
        } else {
            query::lemma_lexeme_end(one, from);
            lemma_lexeme_before(one, other, from);
            let end = query::lexeme_end(one, from);
            lemma_lexed_before(one, other, end);
            let lexeme = query::lexeme_at(one, from)->Ok_0;
            if let Ok(rest) = behind {
                let middle = query::lexed_from(one, end)->Ok_0;
                assert(seq![lexeme] + (middle + rest) =~= (seq![lexeme] + middle) + rest);
            }
        }
    }
}

/// Lexemes and then those of another query, or what is wrong with that.
pub open spec fn followed(
    first: Seq<LexemeView>,
    other: Result<Seq<LexemeView>, Fault>,
    by: nat,
) -> Result<Seq<LexemeView>, Fault> {
    match other {
        Ok(lexemes) => Ok(first + moved(lexemes, by)),
        Err(fault) => Err(moved_fault(fault, by)),
    }
}

/// A query that can be lexed, and behind it a space, a parenthesis or a double quote and
/// whatever follows, is lexed as the one and then the other, moved.
pub proof fn lexing_goes_on_where_a_word_ends(one: Seq<char>, other: Seq<char>)
    requires
        query::lexed(one) is Ok,
        other.len() > 0 ==> text::white_space(other[0]) || other[0] == '(' || other[0] == ')'
            || other[0] == '"',
    ensures
        query::lexed(one + other) == followed(
            query::lexed(one)->Ok_0,
            query::lexed(other),
            text::byte_len(one),
        ),
{
    lemma_lexed_before(one, other, 0);
    lemma_lexed_behind(one, other, 0);
}

/// White space is skipped.
pub proof fn white_space_before_a_query_moves_it(space: char, other: Seq<char>)
    requires
        text::white_space(space),
    ensures
        query::lexed(seq![space] + other) == followed(
            seq![],
            query::lexed(other),
            text::char_width(space),
        ),
{
    let one = seq![space];
    text::lemma_char_width(space);
    assert((one + other)[0] == space);
    lemma_lexed_behind(one, other, 0);
    assert(text::byte_len(one) == text::char_width(space));
    if let Ok(lexemes) = query::lexed(other) {
        assert(Seq::<LexemeView>::empty() + moved(lexemes, text::char_width(space)) =~= moved(
            lexemes,
            text::char_width(space),
        ));
    }
}

/// A parenthesis is a lexeme of its own, whatever stands behind it.
pub proof fn a_parenthesis_is_one_lexeme(parenthesis: char, other: Seq<char>)
    requires
        parenthesis == '(' || parenthesis == ')',
    ensures
        query::lexed(seq![parenthesis] + other) == followed(
            seq![
                LexemeView {
                    kind: if parenthesis == '(' {
                        Kind::LeftParen
                    } else {
                        Kind::RightParen
                    },
                    start: 0,
                    end: 1,
                },
            ],
            query::lexed(other),
            1,
        ),
{
    let one = seq![parenthesis];
    let whole = one + other;
    text::lemma_char_width(parenthesis);
    assert(whole[0] == parenthesis);
    text::lemma_byte_at(whole, 0);
    lemma_lexed_behind(one, other, 0);
    assert(text::byte_len(one) == 1);
}

/// Lexing two queries with a space between them gives the lexemes of the one and then
/// those of the other, their spans moved behind the one and the space. What is wrong
/// with the other is wrong there too, at a place moved as far.
pub proof fn lexing_is_piecewise(one: Seq<char>, other: Seq<char>)
    requires
        query::lexed(one) is Ok,
    ensures
        query::lexed(one + seq![' '] + other) == (match query::lexed(other) {
            Ok(lexemes) => Ok::<Seq<LexemeView>, Fault>(
                query::lexed(one)->Ok_0 + moved(lexemes, text::byte_len(one) + 1),
            ),
            Err(fault) => Err(moved_fault(fault, text::byte_len(one) + 1)),
        }),
{
    let behind = seq![' '] + other;
    assert(with_space(one, other) =~= one + behind);
    lexing_goes_on_where_a_word_ends(one, behind);
    white_space_before_a_query_moves_it(' ', other);
    text::lemma_char_width(' ');
    if let Ok(lexemes) = query::lexed(other) {
        assert(moved(moved(lexemes, 1), text::byte_len(one)) =~= moved(
            lexemes,
            text::byte_len(one) + 1,
        ));
    }
}

/// Whether `term` is one that ASCII text can give: one token, in lower case.
pub open spec fn plain_term(term: Seq<char>) -> bool {
    &&& is_ascii_chars(term)
    &&& term.len() > 0
    &&& tokenize::lowercase(term) == term
    &&& tokenize::token_spans(term, 0) == seq![(0int, term.len() as int)]
}

/// Lowercasing keeps what a character is to the tokenizer.
proof fn lemma_lower_char(c: char)
    requires
        text::ascii(c),
    ensures
        text::ascii(tokenize::ascii_lower(c)),
        !tokenize::cjk(c),
        text::alphanumeric(tokenize::ascii_lower(c)) == text::alphanumeric(c),
        text::alphabetic(tokenize::ascii_lower(c)) == text::alphabetic(c),
        text::ascii_digit(tokenize::ascii_lower(c)) == text::ascii_digit(c),
        !text::alphanumeric(c) ==> tokenize::ascii_lower(c) == c,
{
}

/// A token of ASCII text, in lower case, is a term that ASCII text can give.
proof fn lemma_plain_term(chars: Seq<char>, k: int)
    requires
        is_ascii_chars(chars),
        0 <= k < tokenize::token_spans(chars, 0).len(),
    ensures
        plain_term(tokenize::terms(chars)[k]),
{
    let span = tokenize::token_spans(chars, 0)[k];
    tokenize::tokens_come_in_order(chars, 0);
    tokenize::a_token_is_a_word_or_one_cjk_character(chars, 0, k);
    let written = chars.subrange(span.0, span.1);
    assert forall|i: int| 0 <= i < written.len() implies '\0' <= #[trigger] written[i]
        <= '\u{7f}' by {
        assert('\0' <= chars[span.0 + i] <= '\u{7f}');
    }
    let term = tokenize::lowercase(written);
    tokenize::lowercasing_ascii_twice_is_lowercasing_once(written);
    assert(tokenize::terms(chars)[k] == term);
    let n = term.len() as int;
    assert forall|i: int| 0 <= i < n implies #[trigger] term[i] == tokenize::ascii_lower(
        chars[span.0 + i],
    ) && text::ascii(chars[span.0 + i]) by {
        assert('\0' <= chars[span.0 + i] <= '\u{7f}');
        assert(written[i] == chars[span.0 + i]);
    }
    lemma_lower_char(chars[span.0]);
    lemma_lower_char(chars[span.1 - 1]);
    assert(term[0] == tokenize::ascii_lower(chars[span.0]));
    assert(term[n - 1] == tokenize::ascii_lower(chars[span.1 - 1]));
    assert forall|i: int| 0 <= i < n implies tokenize::joined(term, i) by {
        let at = span.0 + i;
        assert(tokenize::joined(chars, at));
        assert(term[i] == tokenize::ascii_lower(chars[at]));
        lemma_lower_char(chars[at]);
        lemma_lower_char(term[i]);
        if !tokenize::word_char(chars[at]) {
            assert(0 < i < n - 1);
            assert(term[i - 1] == tokenize::ascii_lower(chars[at - 1]));
            assert(term[i + 1] == tokenize::ascii_lower(chars[at + 1]));
            lemma_lower_char(chars[at - 1]);
            lemma_lower_char(chars[at + 1]);
        }
    }
    lemma_lower_char(term[0]);
    lemma_lower_char(term[n - 1]);
    tokenize::lemma_scanned_word(term, 0, n, n);
    assert(tokenize::token_start(term, 0) == 0);
    assert(tokenize::token_start(term, n) == n);
    assert(tokenize::token_spans(term, n) =~= Seq::<(int, int)>::empty());
    assert(tokenize::token_spans(term, 0) =~= seq![(0int, n)]);
}

/// What a plain term is made of, and that it is its own only term.
proof fn lemma_in_plain_term(term: Seq<char>)
    requires
        plain_term(term),
    ensures
        tokenize::terms(term) == seq![term],
        text::alphanumeric(term[0]),
        forall|i: int|
            0 <= i < term.len() ==> !query::ends_word(#[trigger] term[i]) && term[i] != '*'
                && !text::ascii_upper(term[i]),
{
    let n = term.len() as int;
    assert(term.subrange(0, n) =~= term);
    assert(tokenize::token_spans(term, 0)[0] == (0int, n));
    assert(tokenize::terms(term) =~= seq![term]);
    tokenize::a_token_is_a_word_or_one_cjk_character(term, 0, 0);
    assert('\0' <= term[0] <= '\u{7f}');
    assert forall|i: int| 0 <= i < n implies !query::ends_word(#[trigger] term[i]) && term[i]
        != '*' && !text::ascii_upper(term[i]) by {
        assert('\0' <= term[i] <= '\u{7f}');
        assert(tokenize::joined(term, i));
        assert(tokenize::lowercase(term)[i] == tokenize::ascii_lower(term[i]));
    }
}

/// Whether `kind` is one that an ASCII query can give.
pub open spec fn plain_kind(kind: Kind) -> bool {
    match kind {
        Kind::Term(term) => plain_term(term),
        Kind::Prefix(stem) => plain_term(stem),
        Kind::Phrase(terms) => terms.len() > 1 && forall|i: int|
            0 <= i < terms.len() ==> plain_term(#[trigger] terms[i]),
        Kind::Near { distance, .. } => distance > 0,
        _ => true,
    }
}

proof fn lemma_kind_of_plain(chars: Seq<char>, wildcard: bool)
    requires
        is_ascii_chars(chars),
    ensures
        query::kind_of(tokenize::terms(chars), wildcard) matches Ok(kind) ==> plain_kind(kind),
{
    let terms = tokenize::terms(chars);
    assert forall|k: int| 0 <= k < terms.len() implies plain_term(#[trigger] terms[k]) by {
        lemma_plain_term(chars, k);
    }
}

proof fn lemma_ascii_part(chars: Seq<char>, from: int, to: int)
    requires
        is_ascii_chars(chars),
        0 <= from <= to <= chars.len(),
    ensures
        is_ascii_chars(chars.subrange(from, to)),
{
    let part = chars.subrange(from, to);
    assert forall|i: int| 0 <= i < part.len() implies '\0' <= #[trigger] part[i] <= '\u{7f}' by {
        assert('\0' <= chars[from + i] <= '\u{7f}');
    }
}

proof fn lemma_plain_lexeme(chars: Seq<char>, start: int)
    requires
        is_ascii_chars(chars),
        0 <= start < chars.len(),
    ensures
        query::lexeme_at(chars, start) matches Ok(lexeme) ==> plain_kind(lexeme.kind),
{
    let c = chars[start];
    query::lemma_first_of(chars, start + 1, c);
    query::lemma_bare_word_end(chars, start);
    let close = query::first_of(chars, start + 1, c);
    if query::opens_phrase(c) {
        if close < chars.len() {
            lemma_ascii_part(chars, start + 1, close);
            lemma_kind_of_plain(chars.subrange(start + 1, close), false);
        }
    } else if c != '(' && c != ')' {
        let end = query::bare_word_end(chars, start);
        let word = chars.subrange(start, end);
        lemma_ascii_part(chars, start, end);
        query::lemma_first_of(word, 0, '*');
        let star = query::first_of(word, 0, '*');
        lemma_ascii_part(word, 0, star);
        assert(word.subrange(0, star) =~= word.take(star));
        lemma_kind_of_plain(word.take(star), star == word.len() - 1);
    }
}

/// The lexemes of an ASCII query are plain.
proof fn lemma_plain_lexemes(chars: Seq<char>, from: int)
    requires
        is_ascii_chars(chars),
        0 <= from <= chars.len(),
        query::lexed_from(chars, from) is Ok,
    ensures
        forall|i: int|
            0 <= i < query::lexed_from(chars, from)->Ok_0.len() ==> plain_kind(
                (#[trigger] query::lexed_from(chars, from)->Ok_0[i]).kind,
            ),
    decreases chars.len() - from,
{
    if from < chars.len() {
        if text::white_space(chars[from]) {
            lemma_plain_lexemes(chars, from + 1);
        } else {
            query::lemma_lexeme_end(chars, from);
            lemma_plain_lexeme(chars, from);
            let end = query::lexeme_end(chars, from);
            lemma_plain_lexemes(chars, end);
            let all = query::lexed_from(chars, from)->Ok_0;
            let rest = query::lexed_from(chars, end)->Ok_0;
            assert forall|i: int| 0 <= i < all.len() implies plain_kind(
                (#[trigger] all[i]).kind,
            ) by {
                if i > 0 {
                    assert(all[i] == rest[i - 1]);
                }
            }
        }
    }
}

/// Whether lexing `chars` gives one lexeme, of this kind.
spec fn lexes_as(chars: Seq<char>, kind: Kind) -> bool {
    &&& query::lexed(chars) is Ok
    &&& query::lexed(chars)->Ok_0.len() == 1
    &&& query::lexed(chars)->Ok_0[0].kind == kind
}

proof fn lemma_whole_word_end(word: Seq<char>, from: int)
    requires
        0 <= from <= word.len(),
        forall|i: int| 0 <= i < word.len() ==> !query::ends_word(#[trigger] word[i]),
    ensures
        query::bare_word_end(word, from) == word.len(),
    decreases word.len() - from,
{
    if from < word.len() {
        lemma_whole_word_end(word, from + 1);
    }
}

/// A query that is one bare word gives what the word gives.
proof fn lemma_one_word(word: Seq<char>, kind: Kind)
    requires
        word.len() > 0,
        forall|i: int| 0 <= i < word.len() ==> !query::ends_word(#[trigger] word[i]),
        !query::opens_phrase(word[0]),
        query::word_lexeme(word, 0) matches Ok(lexeme) && lexeme.kind == kind,
    ensures
        lexes_as(word, kind),
{
    let n = word.len() as int;
    lemma_whole_word_end(word, 0);
    assert(word.subrange(0, n) =~= word);
    text::lemma_byte_at(word, 0);
    assert(!query::ends_word(word[0]));
    let lexeme = query::word_lexeme(word, 0)->Ok_0;
    assert(query::lexeme_at(word, 0) == Ok::<LexemeView, Fault>(lexeme));
    assert(query::lexeme_end(word, 0) == n);
    assert(query::lexed_from(word, n) == Ok::<Seq<LexemeView>, Fault>(seq![]));
    assert(seq![lexeme] + Seq::<LexemeView>::empty() =~= seq![lexeme]);
}

/// Decimal digits spell the number they were made of.
pub proof fn lemma_decimal_read_back(value: nat)
    ensures
        text::decimal(value).len() > 0,
        query::all_digits(text::decimal(value)),
        query::digits_value(text::decimal(value)) == value,
    decreases value,
{
    let digits = text::decimal(value);
    if value < 10 {
        assert(digits.drop_last() =~= Seq::<char>::empty());
        assert(query::digits_value(digits.drop_last()) == 0);
        assert(digits.last() as nat == 48 + value);
    } else {
        lemma_decimal_read_back(value / 10);
        assert(digits.drop_last() =~= text::decimal(value / 10));
        assert(digits.last() as nat == 48 + value % 10);
        assert forall|i: int| 0 <= i < digits.len() implies text::ascii_digit(
            #[trigger] digits[i],
        ) by {
            if i < digits.len() - 1 {
                assert(digits[i] == text::decimal(value / 10)[i]);
            }
        }
    }
}

proof fn lemma_no_star(word: Seq<char>, from: int)
    requires
        0 <= from <= word.len(),
        forall|i: int| 0 <= i < word.len() ==> #[trigger] word[i] != '*',
    ensures
        query::first_of(word, from, '*') == word.len(),
    decreases word.len() - from,
{
    if from < word.len() {
        lemma_no_star(word, from + 1);
    }
}

/// A word that does not begin with a capital is no operator.
proof fn lemma_no_operator(word: Seq<char>)
    requires
        word.len() > 0,
        !text::ascii_upper(word[0]),
    ensures
        query::word_lexeme(word, 0) == query::term_lexeme(word, 0),
{
    reveal_strlit("AND");
    reveal_strlit("OR");
    reveal_strlit("NOT");
    reveal_strlit("NEAR");
    reveal_strlit("ONEAR");
    reveal_strlit("NEAR/");
    reveal_strlit("ONEAR/");
    assert("NEAR/"@[0] == 'N');
    assert("ONEAR/"@[0] == 'O');
}

proof fn lemma_term_again(term: Seq<char>)
    requires
        plain_term(term),
    ensures
        lexes_as(term, Kind::Term(term)),
{
    lemma_in_plain_term(term);
    lemma_no_operator(term);
    lemma_no_star(term, 0);
    assert(term.take(term.len() as int) =~= term);
    assert(!query::opens_phrase(term[0])) by {
        assert('\0' <= term[0] <= '\u{7f}');
    }
    lemma_one_word(term, Kind::Term(term));
}

proof fn lemma_first_star(term: Seq<char>, from: int)
    requires
        0 <= from <= term.len(),
        forall|i: int| 0 <= i < term.len() ==> #[trigger] term[i] != '*',
    ensures
        query::first_of(term + seq!['*'], from, '*') == term.len(),
    decreases term.len() - from,
{
    let word = term + seq!['*'];
    if from < term.len() {
        assert(word[from] == term[from]);
        lemma_first_star(term, from + 1);
    } else {
        assert(word[from] == '*');
    }
}

proof fn lemma_prefix_again(stem: Seq<char>)
    requires
        plain_term(stem),
    ensures
        lexes_as(stem + "*"@, Kind::Prefix(stem)),
{
    reveal_strlit("*");
    assert("*"@ =~= seq!['*']);
    let word = stem + seq!['*'];
    lemma_in_plain_term(stem);
    assert(word[0] == stem[0]);
    lemma_no_operator(word);
    lemma_first_star(stem, 0);
    assert(word.take(stem.len() as int) =~= stem);
    assert(!query::opens_phrase(word[0])) by {
        assert('\0' <= stem[0] <= '\u{7f}');
    }
    assert forall|i: int| 0 <= i < word.len() implies !query::ends_word(#[trigger] word[i]) by {
        if i < stem.len() {
            assert(word[i] == stem[i]);
        }
    }
    lemma_one_word(word, Kind::Prefix(stem));
}

proof fn lemma_near_again(distance: u32, ordered: bool)
    requires
        distance > 0,
    ensures
        lexes_as(
            query::shown_kind(Kind::Near { distance, ordered }),
            Kind::Near { distance, ordered },
        ),
{
    let kind = Kind::Near { distance, ordered };
    let word = query::shown_kind(kind);
    let digits = text::decimal(distance as nat);
    lemma_decimal_read_back(distance as nat);
    assert(text::ascii_digit(digits[0]));
    reveal_strlit("AND");
    reveal_strlit("OR");
    reveal_strlit("NOT");
    reveal_strlit("NEAR");
    reveal_strlit("ONEAR");
    reveal_strlit("NEAR/");
    reveal_strlit("ONEAR/");
    let name = if ordered {
        "ONEAR/"@
    } else {
        "NEAR/"@
    };
    let n = name.len() as int;
    assert(word == name + digits);
    assert(word.skip(n) =~= digits);
    assert(word.take(n) =~= name);
    assert(word[0] == name[0]);
    assert(word[1] == name[1]);
    assert(word[4] == name[4]);
    assert(name.is_prefix_of(word));
    if ordered {
        assert("NEAR/"@[0] == 'N');
        assert(!"NEAR/"@.is_prefix_of(word));
    }
    assert(query::u32_value(digits) == Some(distance));
    assert forall|i: int| 0 <= i < word.len() implies !query::ends_word(#[trigger] word[i]) by {
        if i < n {
            assert(word[i] == name[i]);
        } else {
            assert(word[i] == digits[i - n]);
            assert(text::ascii_digit(digits[i - n]));
        }
    }
    lemma_one_word(word, kind);
}

proof fn lemma_operator_again(kind: Kind)
    requires
        kind is And || kind is Or || kind is Not || kind is LeftParen || kind is RightParen,
    ensures
        lexes_as(query::shown_kind(kind), kind),
{
    reveal_strlit("AND");
    reveal_strlit("OR");
    reveal_strlit("NOT");
    reveal_strlit("(");
    reveal_strlit(")");
    let word = query::shown_kind(kind);
    if kind is LeftParen || kind is RightParen {
        text::lemma_byte_at(word, 0);
        let lexeme = query::lexeme_at(word, 0)->Ok_0;
        assert(query::lexed_from(word, 1) == Ok::<Seq<LexemeView>, Fault>(seq![]));
        assert(seq![lexeme] + Seq::<LexemeView>::empty() =~= seq![lexeme]);
    } else {
        assert("AND"@.len() == 3 && "OR"@.len() == 2 && "NOT"@.len() == 3);
        assert("AND"@[0] == 'A' && "NOT"@[0] == 'N');
        lemma_one_word(word, kind);
    }
}

proof fn lemma_no_quote(terms: Seq<Seq<char>>)
    requires
        forall|i: int| 0 <= i < terms.len() ==> plain_term(#[trigger] terms[i]),
    ensures
        forall|i: int|
            0 <= i < whitespace::spaced(terms).len() ==> #[trigger] whitespace::spaced(terms)[i]
                != '"',
    decreases terms.len(),
{
    if terms.len() > 0 {
        let before = terms.drop_last();
        let last = terms.last();
        assert forall|i: int| 0 <= i < before.len() implies plain_term(#[trigger] before[i]) by {
            assert(terms[i] == before[i]);
        }
        lemma_no_quote(before);
        assert(plain_term(terms[terms.len() - 1]));
        lemma_in_plain_term(last);
        let whole = whitespace::spaced(terms);
        let head = whitespace::spaced(before);
        assert forall|i: int| 0 <= i < whole.len() implies #[trigger] whole[i] != '"' by {
            if terms.len() == 1 {
                assert(whole[i] == last[i]);
                assert(!query::ends_word(last[i]));
            } else if i < head.len() {
                assert(whole[i] == head[i]);
            } else if i > head.len() {
                assert(whole[i] == last[i - head.len() - 1]);
                assert(!query::ends_word(last[i - head.len() - 1]));
            }
        }
    }
}

proof fn lemma_closing_quote(inside: Seq<char>, from: int)
    requires
        0 <= from <= inside.len(),
        forall|i: int| 0 <= i < inside.len() ==> #[trigger] inside[i] != '"',
    ensures
        query::first_of(seq!['"'] + inside + seq!['"'], from + 1, '"') == inside.len() + 1,
    decreases inside.len() - from,
{
    let whole = seq!['"'] + inside + seq!['"'];
    if from < inside.len() {
        assert(whole[from + 1] == inside[from]);
        lemma_closing_quote(inside, from + 1);
    } else {
        assert(whole[from + 1] == '"');
    }
}

proof fn lemma_terms_of_plain(terms: Seq<Seq<char>>)
    requires
        forall|i: int| 0 <= i < terms.len() ==> plain_term(#[trigger] terms[i]),
    ensures
        whitespace::terms_of_words(terms) == terms,
    decreases terms.len(),
{
    if terms.len() > 0 {
        let before = terms.drop_last();
        assert forall|i: int| 0 <= i < before.len() implies plain_term(#[trigger] before[i]) by {
            assert(terms[i] == before[i]);
        }
        lemma_terms_of_plain(before);
        assert(plain_term(terms[terms.len() - 1]));
        lemma_in_plain_term(terms.last());
    }
    assert(whitespace::terms_of_words(terms) =~= terms);
}

proof fn lemma_phrase_again(terms: Seq<Seq<char>>)
    requires
        terms.len() > 1,
        forall|i: int| 0 <= i < terms.len() ==> plain_term(#[trigger] terms[i]),
    ensures
        lexes_as(query::shown_kind(Kind::Phrase(terms)), Kind::Phrase(terms)),
{
    let kind = Kind::Phrase(terms);
    let shown = query::shown_kind(kind);
    let inside = whitespace::spaced(terms);
    reveal_strlit("\"");
    assert("\""@ =~= seq!['"']);
    assert(shown =~= seq!['"'] + inside + seq!['"']);
    lemma_no_quote(terms);
    lemma_closing_quote(inside, 0);
    let n = shown.len() as int;
    assert(shown[0] == '"');
    assert(shown.subrange(1, n - 1) =~= inside);
    whitespace::lemma_terms_of_spaced(terms);
    lemma_terms_of_plain(terms);
    let lexeme = query::lexeme_at(shown, 0)->Ok_0;
    assert(query::phrase_at(shown, 0) is Ok);
    assert(lexeme.kind == kind);
    assert(query::lexeme_end(shown, 0) == n);
    assert(query::lexed_from(shown, n) == Ok::<Seq<LexemeView>, Fault>(seq![]));
    assert(seq![lexeme] + Seq::<LexemeView>::empty() =~= seq![lexeme]);
}

/// A plain lexeme, shown, is lexed as itself.
proof fn lemma_kind_again(kind: Kind)
    requires
        plain_kind(kind),
    ensures
        lexes_as(query::shown_kind(kind), kind),
{
    match kind {
        Kind::Term(term) => lemma_term_again(term),
        Kind::Prefix(stem) => lemma_prefix_again(stem),
        Kind::Phrase(terms) => lemma_phrase_again(terms),
        Kind::Near { distance, ordered } => lemma_near_again(distance, ordered),
        _ => lemma_operator_again(kind),
    }
}

/// The kinds of lexemes.
pub open spec fn kinds(lexemes: Seq<LexemeView>) -> Seq<Kind> {
    lexemes.map_values(|lexeme: LexemeView| lexeme.kind)
}

/// Lexemes shown, with one space between them.
pub open spec fn shown(list: Seq<Kind>) -> Seq<char> {
    whitespace::spaced(list.map_values(|kind: Kind| query::shown_kind(kind)))
}

proof fn lemma_shown_again(list: Seq<Kind>)
    requires
        forall|i: int| 0 <= i < list.len() ==> plain_kind(#[trigger] list[i]),
    ensures
        query::lexed(shown(list)) is Ok,
        kinds(query::lexed(shown(list))->Ok_0) == list,
    decreases list.len(),
{
    let texts = list.map_values(|kind: Kind| query::shown_kind(kind));
    if list.len() == 0 {
        assert(shown(list) =~= Seq::<char>::empty());
        assert(kinds(query::lexed(shown(list))->Ok_0) =~= list);
    } else {
        let last = list.last();
        assert(plain_kind(list[list.len() - 1]));
        lemma_kind_again(last);
        if list.len() == 1 {
            assert(shown(list) == query::shown_kind(last));
            assert(kinds(query::lexed(shown(list))->Ok_0) =~= list);
        } else {
            let before = list.drop_last();
            assert forall|i: int| 0 <= i < before.len() implies plain_kind(
                #[trigger] before[i],
            ) by {
                assert(list[i] == before[i]);
            }
            lemma_shown_again(before);
            assert(texts.drop_last() =~= before.map_values(|kind: Kind| query::shown_kind(kind)));
            assert(shown(list) == shown(before) + seq![' '] + query::shown_kind(last));
            lexing_is_piecewise(shown(before), query::shown_kind(last));
            let first = query::lexed(shown(before))->Ok_0;
            assert forall|i: int| 0 <= i < list.len() implies #[trigger] kinds(
                query::lexed(shown(list))->Ok_0,
            )[i] == list[i] by {
                if i < before.len() {
                    assert(kinds(first)[i] == before[i]);
                }
            }
            assert(kinds(first).len() == before.len());
            assert(kinds(query::lexed(shown(list))->Ok_0) =~= list);
        }
    }
}

/// Showing the lexemes of an ASCII query, with spaces between them, and lexing that again
/// gives the same kinds.
pub proof fn shown_lexemes_lex_as_themselves(chars: Seq<char>)
    requires
        is_ascii_chars(chars),
        query::lexed(chars) is Ok,
    ensures
        query::lexed(shown(kinds(query::lexed(chars)->Ok_0))) is Ok,
        kinds(query::lexed(shown(kinds(query::lexed(chars)->Ok_0)))->Ok_0) == kinds(
            query::lexed(chars)->Ok_0,
        ),
{
    lemma_plain_lexemes(chars, 0);
    let lexemes = query::lexed(chars)->Ok_0;
    assert forall|i: int| 0 <= i < kinds(lexemes).len() implies plain_kind(
        #[trigger] kinds(lexemes)[i],
    ) by {
        assert(plain_kind(lexemes[i].kind));
    }
    lemma_shown_again(kinds(lexemes));
}

} // verus!
