//! What a query asks for, said over the characters it is written with: which words are
//! operators, and that every other word and every phrase asks for the terms that a document
//! with the same text has.
//!
//! A query is white space, parentheses, phrases and bare words. What comes of the first two,
//! and of one query behind another, [`crate::relexing`] says.

use crate::error::Error;
use crate::query;
use crate::query::{Fault, Kind, LexemeView};
use crate::relexing;
use crate::splitting;
use crate::text;
use crate::tokenize;
use vstd::prelude::*;

verus! {

/// Whether `word` is a bare word: some characters, none of them white space, a parenthesis
/// or a double quote, the first of them no apostrophe.
pub open spec fn bare(word: Seq<char>) -> bool {
    &&& word.len() > 0
    &&& word[0] != '\'' && word[0] != '\u{2019}'
    &&& forall|i: int|
        0 <= i < word.len() ==> !text::white_space(#[trigger] word[i]) && word[i] != '(' && word[i]
            != ')' && word[i] != '"'
}

/// Whether a query is one lexeme of this kind, from its first byte to its last.
pub open spec fn is_just(query: Seq<char>, kind: Kind) -> bool {
    query::lexed(query) == Ok::<Seq<LexemeView>, Fault>(
        seq![LexemeView { kind, start: 0, end: text::byte_len(query) }],
    )
}

/// Whether a query is refused for these bytes of it.
pub open spec fn is_refused(query: Seq<char>, offset: nat, length: nat) -> bool {
    query::lexed(query) matches Err(fault) && fault.offset == offset && fault.length == length
}

/// Whether `word` begins as `NEAR/3` and `ONEAR/3` do.
pub open spec fn names_a_distance(word: Seq<char>) -> bool {
    seq!['N', 'E', 'A', 'R', '/'].is_prefix_of(word) || seq![
        'O',
        'N',
        'E',
        'A',
        'R',
        '/',
    ].is_prefix_of(word)
}

/// Whether `word` is one of the words that are not searched for.
pub open spec fn is_reserved(word: Seq<char>) -> bool {
    ||| word == seq!['A', 'N', 'D']
    ||| word == seq!['O', 'R']
    ||| word == seq!['N', 'O', 'T']
    ||| word == seq!['N', 'E', 'A', 'R']
    ||| word == seq!['O', 'N', 'E', 'A', 'R']
}

proof fn lemma_reserved_words()
    ensures
        "AND"@ == seq!['A', 'N', 'D'],
        "OR"@ == seq!['O', 'R'],
        "NOT"@ == seq!['N', 'O', 'T'],
        "NEAR"@ == seq!['N', 'E', 'A', 'R'],
        "ONEAR"@ == seq!['O', 'N', 'E', 'A', 'R'],
        "NEAR/"@ == seq!['N', 'E', 'A', 'R', '/'],
        "ONEAR/"@ == seq!['O', 'N', 'E', 'A', 'R', '/'],
{
    reveal_strlit("AND");
    reveal_strlit("OR");
    reveal_strlit("NOT");
    reveal_strlit("NEAR");
    reveal_strlit("ONEAR");
    reveal_strlit("NEAR/");
    reveal_strlit("ONEAR/");
    assert("AND"@ =~= seq!['A', 'N', 'D']);
    assert("OR"@ =~= seq!['O', 'R']);
    assert("NOT"@ =~= seq!['N', 'O', 'T']);
    assert("NEAR"@ =~= seq!['N', 'E', 'A', 'R']);
    assert("ONEAR"@ =~= seq!['O', 'N', 'E', 'A', 'R']);
    assert("NEAR/"@ =~= seq!['N', 'E', 'A', 'R', '/']);
    assert("ONEAR/"@ =~= seq!['O', 'N', 'E', 'A', 'R', '/']);
}

proof fn lemma_word_goes_on(word: Seq<char>, other: Seq<char>, from: int)
    requires
        bare(word),
        0 <= from <= word.len(),
        other.len() > 0 ==> query::ends_word(other[0]),
    ensures
        query::bare_word_end(word + other, from) == word.len(),
    decreases word.len() - from,
{
    let whole = word + other;
    if from < word.len() {
        assert(whole[from] == word[from]);
        lemma_word_goes_on(word, other, from + 1);
    } else if other.len() > 0 {
        assert(whole[from] == other[0]);
    }
}

/// A bare word is one lexeme or one fault, whatever stands behind it.
proof fn lemma_word(word: Seq<char>, other: Seq<char>)
    requires
        bare(word),
        other.len() > 0 ==> query::ends_word(other[0]),
    ensures
        query::lexed(word + other) == (match query::word_lexeme(word, 0) {
            Ok(lexeme) => relexing::followed(
                seq![lexeme],
                query::lexed(other),
                text::byte_len(word),
            ),
            Err(fault) => Err(fault),
        }),
{
    let whole = word + other;
    assert(whole[0] == word[0]);
    text::lemma_byte_at(whole, 0);
    lemma_word_goes_on(word, other, 0);
    assert(whole.subrange(0, word.len() as int) =~= word);
    relexing::lemma_lexed_behind(word, other, 0);
}

proof fn lemma_word_alone(word: Seq<char>)
    requires
        bare(word),
    ensures
        query::lexed(word) == (match query::word_lexeme(word, 0) {
            Ok(lexeme) => Ok::<Seq<LexemeView>, Fault>(seq![lexeme]),
            Err(fault) => Err(fault),
        }),
        query::word_lexeme(word, 0) matches Ok(lexeme) ==> lexeme.start == 0 && lexeme.end
            == text::byte_len(word),
{
    let none = Seq::<char>::empty();
    lemma_word(word, none);
    assert(word + none =~= word);
    if let Ok(lexeme) = query::word_lexeme(word, 0) {
        assert(seq![lexeme] + relexing::moved(seq![], text::byte_len(word)) =~= seq![lexeme]);
    }
}

/// A bare word is one lexeme, or the query is refused; and where it is refused, so is every
/// query that begins with it, for the same bytes.
pub proof fn a_bare_word_is_one_lexeme(word: Seq<char>, other: Seq<char>)
    requires
        bare(word),
        other.len() > 0 ==> text::white_space(other[0]) || other[0] == '(' || other[0] == ')'
            || other[0] == '"',
    ensures
        query::lexed(word) is Ok ==> query::lexed(word)->Ok_0.len() == 1 && is_just(
            word,
            query::lexed(word)->Ok_0[0].kind,
        ),
        query::lexed(word) is Err ==> query::lexed(word + other) == query::lexed(word),
{
    lemma_word_alone(word);
    lemma_word(word, other);
    if let Ok(lexeme) = query::word_lexeme(word, 0) {
        assert(query::lexed(word)->Ok_0 =~= seq![lexeme]);
    }
}

/// A bare word is a Boolean operator if and only if it is `AND`, `OR` or `NOT`, letter by
/// letter and in capitals: `And` and `and` are words to search for.
pub proof fn operators_are_written_in_capitals(word: Seq<char>)
    requires
        bare(word),
    ensures
        is_just(word, Kind::And) <==> word == seq!['A', 'N', 'D'],
        is_just(word, Kind::Or) <==> word == seq!['O', 'R'],
        is_just(word, Kind::Not) <==> word == seq!['N', 'O', 'T'],
        !is_just(word, Kind::LeftParen),
        !is_just(word, Kind::RightParen),
        word == seq!['N', 'E', 'A', 'R'] || word == seq!['O', 'N', 'E', 'A', 'R'] ==> is_refused(
            word,
            0,
            text::byte_len(word),
        ),
{
    lemma_word_alone(word);
    lemma_reserved_words();
    lemma_kinds_of_words(word);
    let lexed = query::lexed(word);
    if let Ok(lexeme) = query::word_lexeme(word, 0) {
        assert(lexed->Ok_0[0] == lexeme);
        assert(lexed->Ok_0 =~= seq![
            LexemeView { kind: lexeme.kind, start: 0, end: text::byte_len(word) },
        ]);
        assert forall|kind: Kind| #[trigger] is_just(word, kind) implies kind == lexeme.kind by {
            let wanted = seq![LexemeView { kind, start: 0, end: text::byte_len(word) }];
            assert(wanted[0] == lexeme);
        }
    }
    assert(seq!['A', 'N', 'D'].len() == 3 && seq!['O', 'R'].len() == 2 && seq!['N', 'O', 'T'].len()
        == 3 && seq!['N', 'E', 'A', 'R'].len() == 4 && seq!['O', 'N', 'E', 'A', 'R'].len() == 5);
    assert(seq!['A', 'N', 'D'][0] == 'A');
    assert(seq!['N', 'O', 'T'][0] == 'N');
}

proof fn lemma_kinds_of_words(word: Seq<char>)
    ensures
        query::word_lexeme(word, 0) matches Ok(lexeme) ==> {
            &&& lexeme.kind is And ==> word == "AND"@
            &&& lexeme.kind is Or ==> word == "OR"@
            &&& lexeme.kind is Not ==> word == "NOT"@
            &&& !(lexeme.kind is LeftParen)
            &&& !(lexeme.kind is RightParen)
        },
{
}

proof fn lemma_no_star_in(word: Seq<char>, from: int, star: int)
    requires
        0 <= from <= star <= word.len(),
        forall|i: int| from <= i < star ==> #[trigger] word[i] != '*',
        star < word.len() ==> word[star] == '*',
    ensures
        query::first_of(word, from, '*') == star,
    decreases star - from,
{
    if from < star {
        lemma_no_star_in(word, from + 1, star);
    }
}

/// A bare word that is no operator and has no wildcard in it asks for the terms that it
/// would be indexed under, whatever the case of its letters: one term is a term, several
/// are a phrase. Where a letter or a digit is in it, it has a term.
pub proof fn a_word_is_asked_for_as_it_is_indexed(word: Seq<char>)
    requires
        bare(word),
        !is_reserved(word),
        !names_a_distance(word),
        !word.contains('*'),
    ensures
        ({
            let terms = tokenize::terms(word);
            &&& terms.len() == 0 ==> is_refused(word, 0, text::byte_len(word))
            &&& terms.len() == 1 ==> is_just(word, Kind::Term(terms[0]))
            &&& terms.len() > 1 ==> is_just(word, Kind::Phrase(terms))
        }),
        (exists|i: int| 0 <= i < word.len() && text::alphanumeric(#[trigger] word[i]))
            <==> tokenize::terms(word).len() > 0,
{
    lemma_word_alone(word);
    lemma_reserved_words();
    assert forall|i: int| 0 <= i < word.len() implies #[trigger] word[i] != '*' by {
        if word[i] == '*' {
            assert(word.contains('*'));
        }
    }
    lemma_no_star_in(word, 0, word.len() as int);
    assert(word.take(word.len() as int) =~= word);
    lemma_terms_of_letters(word);
}

proof fn lemma_terms_of_letters(word: Seq<char>)
    ensures
        (exists|i: int| 0 <= i < word.len() && text::alphanumeric(#[trigger] word[i]))
            <==> tokenize::terms(word).len() > 0,
{
    if exists|i: int| 0 <= i < word.len() && text::alphanumeric(#[trigger] word[i]) {
        let i = choose|i: int| 0 <= i < word.len() && text::alphanumeric(#[trigger] word[i]);
        let k = tokenize::every_letter_and_digit_is_in_a_token(word, 0, i);
        splitting::every_token_is_a_term(word);
    }
    if tokenize::terms(word).len() > 0 {
        tokenize::tokens_come_in_order(word, 0);
        let span = tokenize::token_spans(word, 0)[0];
        splitting::a_token_is_letters_and_digits_and_what_joins_them(word, 0, span.0);
        assert(text::alphanumeric(word[span.0]));
    }
}

/// A bare word that ends in `*` asks for every term that begins with the one term before
/// the star. Where there is none before it, or several, the word is refused.
pub proof fn a_star_at_the_end_asks_for_a_prefix(stem: Seq<char>)
    requires
        bare(stem + seq!['*']),
        !names_a_distance(stem + seq!['*']),
        !stem.contains('*'),
    ensures
        ({
            let terms = tokenize::terms(stem);
            let word = stem + seq!['*'];
            &&& terms.len() == 1 ==> is_just(word, Kind::Prefix(terms[0]))
            &&& terms.len() != 1 ==> is_refused(word, 0, text::byte_len(word))
        }),
{
    let word = stem + seq!['*'];
    lemma_word_alone(word);
    lemma_reserved_words();
    assert forall|i: int| 0 <= i < stem.len() implies #[trigger] word[i] != '*' by {
        assert(word[i] == stem[i]);
        if stem[i] == '*' {
            assert(stem.contains('*'));
        }
    }
    assert(word[word.len() - 1] == '*');
    assert(seq!['A', 'N', 'D'].last() == 'D' && seq!['O', 'R'].last() == 'R' && seq![
        'N',
        'O',
        'T',
    ].last() == 'T' && seq!['N', 'E', 'A', 'R'].last() == 'R' && seq![
        'O',
        'N',
        'E',
        'A',
        'R',
    ].last() == 'R');
    assert(word.last() == '*');
    lemma_no_star_in(word, 0, stem.len() as int);
    assert(word.take(stem.len() as int) =~= stem);
}

/// A star anywhere but at the end of a bare word is refused, and it is the first such star
/// that is pointed at.
pub proof fn a_star_inside_a_word_is_refused(word: Seq<char>, star: int)
    requires
        bare(word),
        !names_a_distance(word),
        0 <= star < word.len() - 1,
        word[star] == '*',
        forall|i: int| 0 <= i < star ==> #[trigger] word[i] != '*',
    ensures
        is_refused(word, text::byte_at(word, star), 1),
{
    lemma_word_alone(word);
    lemma_reserved_words();
    lemma_no_star_in(word, 0, star);
    if is_reserved(word) {
        assert(word[0] != '*' && word[1] != '*');
        assert(word.len() > 2 ==> word[2] != '*');
        assert(word.len() > 3 ==> word[3] != '*');
        assert(word.len() > 4 ==> word[4] != '*');
    }
    assert(!is_reserved(word));
}

/// So many zeros.
pub open spec fn zeros(count: nat) -> Seq<char> {
    Seq::new(count, |i: int| '0')
}

/// What stands behind the slash for a distance: perhaps a plus sign, zeros that do not
/// matter, and the number.
pub open spec fn distance_written(plus: bool, count: nat, distance: nat) -> Seq<char> {
    (if plus {
        seq!['+']
    } else {
        seq![]
    }) + zeros(count) + text::decimal(distance)
}

/// `NEAR/` or `ONEAR/` and what stands behind the slash.
pub open spec fn near_word(ordered: bool, behind: Seq<char>) -> Seq<char> {
    (if ordered {
        seq!['O', 'N', 'E', 'A', 'R', '/']
    } else {
        seq!['N', 'E', 'A', 'R', '/']
    }) + behind
}

proof fn lemma_zeros_before(count: nat, digits: Seq<char>)
    requires
        query::all_digits(digits),
    ensures
        query::all_digits(zeros(count) + digits),
        query::digits_value(zeros(count) + digits) == query::digits_value(digits),
    decreases count + digits.len(),
{
    let whole = zeros(count) + digits;
    if digits.len() == 0 {
        assert(whole =~= zeros(count));
        if count > 0 {
            let fewer = (count - 1) as nat;
            assert(whole.drop_last() =~= zeros(fewer) + digits);
            lemma_zeros_before(fewer, digits);
        }
    } else {
        assert(whole.drop_last() =~= zeros(count) + digits.drop_last());
        assert(query::all_digits(digits.drop_last()));
        lemma_zeros_before(count, digits.drop_last());
    }
    assert forall|i: int| 0 <= i < whole.len() implies text::ascii_digit(#[trigger] whole[i]) by {
        if i >= count {
            assert(whole[i] == digits[i - count]);
        }
    }
}

/// Digits are zeros and then the number that they spell, nothing where that is zero.
proof fn lemma_digits_written(digits: Seq<char>) -> (count: nat)
    requires
        query::all_digits(digits),
    ensures
        digits == zeros(count) + if query::digits_value(digits) == 0 {
            Seq::<char>::empty()
        } else {
            text::decimal(query::digits_value(digits))
        },
    decreases digits.len(),
{
    let value = query::digits_value(digits);
    if digits.len() == 0 {
        assert(digits =~= zeros(0) + Seq::<char>::empty());
        0
    } else {
        let before = digits.drop_last();
        let last = digits.last();
        assert(text::ascii_digit(digits[digits.len() - 1]));
        assert forall|i: int| 0 <= i < before.len() implies text::ascii_digit(
            #[trigger] before[i],
        ) by {
            assert(before[i] == digits[i]);
        }
        let count = lemma_digits_written(before);
        let earlier = query::digits_value(before);
        assert(last == text::digit((last as nat - 48) as nat));
        assert(digits =~= before.push(last));
        if earlier == 0 {
            assert(before =~= zeros(count));
            if value == 0 {
                assert(last == '0');
                assert(digits =~= zeros(count + 1) + Seq::<char>::empty());
                count + 1
            } else {
                assert(text::decimal(value) =~= seq![last]);
                assert(digits =~= zeros(count) + text::decimal(value));
                count
            }
        } else {
            assert(value / 10 == earlier && value % 10 == last as nat - 48);
            assert(text::decimal(value) == text::decimal(earlier).push(last));
            assert(digits =~= zeros(count) + text::decimal(value));
            count
        }
    }
}

proof fn lemma_near_word(ordered: bool, behind: Seq<char>)
    requires
        forall|i: int|
            0 <= i < behind.len() ==> !text::white_space(#[trigger] behind[i]) && behind[i] != '('
                && behind[i] != ')' && behind[i] != '"',
    ensures
        bare(near_word(ordered, behind)),
        query::word_lexeme(near_word(ordered, behind), 0) == query::near_lexeme(
            behind,
            ordered,
            0,
            text::byte_len(near_word(ordered, behind)),
        ),
{
    let word = near_word(ordered, behind);
    lemma_reserved_words();
    let name = if ordered {
        seq!['O', 'N', 'E', 'A', 'R', '/']
    } else {
        seq!['N', 'E', 'A', 'R', '/']
    };
    let n = name.len() as int;
    assert(word == name + behind);
    assert(word.skip(n) =~= behind);
    assert(name.is_prefix_of(word));
    assert(word[0] == name[0]);
    assert(word[1] == name[1]);
    assert(word[n - 1] == '/');
    assert(word.len() >= 5);
    if ordered {
        assert(seq!['N', 'E', 'A', 'R', '/'][0] == 'N');
        assert(!seq!['N', 'E', 'A', 'R', '/'].is_prefix_of(word));
        assert(word.len() >= 6);
    } else {
        assert(seq!['O', 'N', 'E', 'A', 'R'][0] == 'O');
    }
    assert forall|i: int| 0 <= i < word.len() implies !text::white_space(#[trigger] word[i])
        && word[i] != '(' && word[i] != ')' && word[i] != '"' by {
        if i < n {
            assert(word[i] == name[i]);
        } else {
            assert(word[i] == behind[i - n]);
        }
    }
}

/// `NEAR/` and `ONEAR/` with a whole number behind the slash, from one to the largest of
/// 32 bits, ask for that distance; zeros and a plus sign before the number make no
/// difference.
pub proof fn a_distance_is_the_number_behind_the_slash(
    ordered: bool,
    plus: bool,
    count: nat,
    distance: nat,
)
    ensures
        ({
            let word = near_word(ordered, distance_written(plus, count, distance));
            if 1 <= distance <= 0xffff_ffff {
                is_just(word, Kind::Near { distance: distance as u32, ordered })
            } else {
                is_refused(word, 0, text::byte_len(word))
            }
        }),
{
    let behind = distance_written(plus, count, distance);
    let number = text::decimal(distance);
    let digits = zeros(count) + number;
    relexing::lemma_decimal_read_back(distance);
    lemma_zeros_before(count, number);
    assert(text::ascii_digit(digits[0]));
    if plus {
        assert(behind.skip(1) =~= digits);
        assert(behind[0] == '+');
    } else {
        assert(behind =~= digits);
    }
    assert forall|i: int| 0 <= i < behind.len() implies !text::white_space(#[trigger] behind[i])
        && behind[i] != '(' && behind[i] != ')' && behind[i] != '"' by {
        let k = if plus {
            i - 1
        } else {
            i
        };
        if k >= 0 {
            assert(behind[i] == digits[k]);
            assert(text::ascii_digit(digits[k]));
        }
    }
    lemma_near_word(ordered, behind);
    lemma_word_alone(near_word(ordered, behind));
}

/// Whatever else stands behind the slash is refused.
pub proof fn nothing_but_a_number_is_a_distance(ordered: bool, behind: Seq<char>) -> (written: (
    bool,
    nat,
    nat,
))
    requires
        forall|i: int|
            0 <= i < behind.len() ==> !text::white_space(#[trigger] behind[i]) && behind[i] != '('
                && behind[i] != ')' && behind[i] != '"',
    ensures
        query::lexed(near_word(ordered, behind)) is Ok ==> behind == distance_written(
            written.0,
            written.1,
            written.2,
        ) && 1 <= written.2 <= 0xffff_ffff,
{
    lemma_near_word(ordered, behind);
    lemma_word_alone(near_word(ordered, behind));
    let plus = behind.len() > 0 && behind[0] == '+';
    let digits = if plus {
        behind.skip(1)
    } else {
        behind
    };
    if query::lexed(near_word(ordered, behind)) is Ok {
        let value = query::digits_value(digits);
        let count = lemma_digits_written(digits);
        assert(value > 0);
        assert(digits == zeros(count) + text::decimal(value));
        if plus {
            assert(behind =~= seq!['+'] + digits);
        } else {
            assert(behind =~= Seq::<char>::empty() + digits);
        }
        assert(behind =~= distance_written(plus, count, value));
        (plus, count, value)
    } else {
        (false, 0, 0)
    }
}

/// Text between two quotes of the same kind, be they double quotes or apostrophes, straight
/// or curled, asks for the terms that it would be indexed under: one term is a term, several
/// are a phrase. What stands behind the closing quote is lexed as it would be alone.
pub proof fn quoted_text_asks_for_its_terms(quote: char, contents: Seq<char>, other: Seq<char>)
    requires
        quote == '"' || quote == '\'' || quote == '\u{2019}',
        !contents.contains(quote),
    ensures
        ({
            let quoted = seq![quote] + contents + seq![quote];
            let terms = tokenize::terms(contents);
            let length = text::byte_len(quoted);
            if terms.len() == 0 {
                is_refused(quoted + other, 0, length)
            } else {
                query::lexed(quoted + other) == relexing::followed(
                    seq![
                        LexemeView {
                            kind: if terms.len() == 1 {
                                Kind::Term(terms[0])
                            } else {
                                Kind::Phrase(terms)
                            },
                            start: 0,
                            end: length,
                        },
                    ],
                    query::lexed(other),
                    length,
                )
            }
        }),
{
    let quoted = seq![quote] + contents + seq![quote];
    let whole = quoted + other;
    let last = contents.len() as int + 1;
    assert(whole[0] == quote);
    assert(whole[last] == quote);
    query::lemma_first_of(whole, 1, quote);
    let found = query::first_of(whole, 1, quote);
    if found < last {
        assert(whole[found] == contents[found - 1]);
        assert(contents.contains(quote));
    }
    assert(found == last);
    assert(whole.subrange(1, last) =~= contents);
    text::lemma_byte_at(whole, 0);
    assert(whole.take(last + 1) =~= quoted);
    relexing::lemma_lexed_behind(quoted, other, 0);
    assert(query::lexeme_end(whole, 0) == quoted.len());
}

/// The error for a query says which bytes of it are wrong and what is wrong with them.
pub proof fn an_error_points_at_the_fault(error: Error, fault: Fault)
    requires
        query::reports(error, fault),
    ensures
        error matches Error::Query { offset, length, message } && offset == fault.offset && length
            == fault.length && message@ == fault.message,
{
}

/// Carets stand under the characters that are pointed at, one under each, whatever bytes
/// they take, and as many spaces before them as there are characters before those. Where
/// nothing is pointed at, or something behind the query, there is one caret.
pub proof fn carets_stand_under_characters(query: Seq<char>, i: int, j: int)
    requires
        0 <= i <= j <= query.len(),
    ensures
        ({
            let offset = text::byte_at(query, i);
            let length = (text::byte_at(query, j) - offset) as nat;
            &&& query::caret_column(query, offset) == i
            &&& query::caret_width(query, offset, length) == if i < j {
                j - i
            } else {
                1
            }
        }),
        forall|offset: nat, length: nat|
            offset > text::byte_len(query) ==> #[trigger] query::caret_width(query, offset, length)
                == 1 && query::caret_column(query, offset) == query.len(),
{
    text::lemma_byte_at(query, i);
    text::lemma_byte_at(query, j);
    text::lemma_byte_at(query, query.len() as int);
    text::lemma_byte_at_monotone(query, i, j);
    text::lemma_index_at(query, i);
    text::lemma_index_at(query, j);
    text::lemma_index_at(query, query.len() as int);
}

/// A quote that is never closed is refused, and all the rest of the query is pointed at.
pub proof fn an_open_quote_is_refused(quote: char, rest: Seq<char>)
    requires
        quote == '"' || quote == '\'' || quote == '\u{2019}',
        !rest.contains(quote),
    ensures
        is_refused(seq![quote] + rest, 0, text::byte_len(seq![quote] + rest)),
{
    let whole = seq![quote] + rest;
    assert(whole[0] == quote);
    query::lemma_first_of(whole, 1, quote);
    let found = query::first_of(whole, 1, quote);
    if found < whole.len() {
        assert(whole[found] == rest[found - 1]);
        assert(rest.contains(quote));
    }
    text::lemma_byte_at(whole, 0);
}

} // verus!
