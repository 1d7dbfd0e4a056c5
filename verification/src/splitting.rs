//! What the tokenizer and the white space functions are for, said over the characters of a
//! text: which characters are in a token, which share one, and what becomes of a text that
//! is put together.

use crate::text;
use crate::tokenize;
use crate::whitespace;
use vstd::prelude::*;
use vstd::utf8::*;

verus! {

/// Among ASCII, the letters are `a` to `z` and `A` to `Z`, the digits `0` to `9`, and
/// nothing else is either. Elsewhere Unicode decides, and white space is neither.
pub proof fn letters_and_digits_are_those_of_unicode(c: char)
    ensures
        c <= '\u{7f}' ==> (text::alphabetic(c) <==> 'a' <= c <= 'z' || 'A' <= c <= 'Z'),
        c <= '\u{7f}' ==> (text::alphanumeric(c) <==> 'a' <= c <= 'z' || 'A' <= c <= 'Z' || '0' <= c
            <= '9'),
        c > '\u{7f}' && !text::white_space(c) ==> text::alphabetic(c) == text::unicode_alphabetic(
            c,
        ),
        c > '\u{7f}' && !text::white_space(c) ==> text::alphanumeric(c)
            == text::unicode_alphanumeric(c),
        text::white_space(c) ==> !text::alphabetic(c) && !text::alphanumeric(c),
{
}

/// White space is the tab, the line ends, the form feed and the vertical tab, and the
/// spaces of every width, those that do not break included, and nothing else.
pub proof fn white_space_is_spaces_tabs_and_line_ends(c: char)
    ensures
        text::white_space(c) <==> seq![
            '\t',
            '\n',
            '\u{b}',
            '\u{c}',
            '\r',
            ' ',
            '\u{85}',
            '\u{a0}',
            '\u{1680}',
            '\u{2000}',
            '\u{2001}',
            '\u{2002}',
            '\u{2003}',
            '\u{2004}',
            '\u{2005}',
            '\u{2006}',
            '\u{2007}',
            '\u{2008}',
            '\u{2009}',
            '\u{200a}',
            '\u{2028}',
            '\u{2029}',
            '\u{202f}',
            '\u{205f}',
            '\u{3000}',
        ].contains(c),
{
    let list = seq![
        '\t',
        '\n',
        '\u{b}',
        '\u{c}',
        '\r',
        ' ',
        '\u{85}',
        '\u{a0}',
        '\u{1680}',
        '\u{2000}',
        '\u{2001}',
        '\u{2002}',
        '\u{2003}',
        '\u{2004}',
        '\u{2005}',
        '\u{2006}',
        '\u{2007}',
        '\u{2008}',
        '\u{2009}',
        '\u{200a}',
        '\u{2028}',
        '\u{2029}',
        '\u{202f}',
        '\u{205f}',
        '\u{3000}',
    ];
    if list.contains(c) {
        let i = list.index_of(c);
        assert(list[i] == c);
    }
    if text::white_space(c) {
        let code = c as u32 as int;
        let i: int = if code <= 0xD {
            code - 9
        } else if code == 0x20 {
            5
        } else if code == 0x85 {
            6
        } else if code == 0xA0 {
            7
        } else if code == 0x1680 {
            8
        } else if code <= 0x200A {
            9 + (code - 0x2000)
        } else if code == 0x2028 {
            20
        } else if code == 0x2029 {
            21
        } else if code == 0x202F {
            22
        } else if code == 0x205F {
            23
        } else {
            24
        };
        assert(list[i] == c);
    }
}

/// Whether characters `i` to `j` of a text are all in one token.
pub open spec fn in_one_token(chars: Seq<char>, i: int, j: int) -> bool {
    exists|k: int|
        0 <= k < tokenize::token_spans(chars, 0).len() && (#[trigger] tokenize::token_spans(
            chars,
            0,
        )[k]).0 <= i && j < tokenize::token_spans(chars, 0)[k].1
}

/// Whether `c` is in one of the Unicode blocks of scripts that are written without spaces:
/// kana, Chinese characters with their extensions and compatibility forms, and Hangul
/// syllables.
pub open spec fn of_a_script_without_spaces(c: char) -> bool {
    ||| '\u{3040}' <= c <= '\u{30ff}'
    ||| '\u{3400}' <= c <= '\u{4dbf}'
    ||| '\u{4e00}' <= c <= '\u{9fff}'
    ||| '\u{ac00}' <= c <= '\u{d7af}'
    ||| '\u{f900}' <= c <= '\u{faff}'
    ||| '\u{20000}' <= c <= '\u{2fa1f}'
}

/// The scripts that are written without spaces are those of kana, Chinese characters and
/// Hangul, and no others; no ASCII character is of one.
pub proof fn scripts_without_spaces_are_kana_chinese_and_hangul(c: char)
    ensures
        tokenize::cjk(c) == of_a_script_without_spaces(c),
        c <= '\u{7f}' ==> !tokenize::cjk(c),
{
}

/// What can hold a word together: an apostrophe between letters, and a full stop or a comma
/// between ASCII digits. A character of any other kind never does.
pub proof fn only_apostrophes_stops_and_commas_join(c: char, before: char, after: char)
    ensures
        c == '\'' || c == '\u{2019}' ==> (tokenize::joins(c, before, after) <==> text::alphabetic(
            before,
        ) && text::alphabetic(after)),
        c == '.' || c == ',' ==> (tokenize::joins(c, before, after) <==> '0' <= before <= '9' && '0'
            <= after <= '9'),
        c != '\'' && c != '\u{2019}' && c != '.' && c != ',' ==> !tokenize::joins(
            c,
            before,
            after,
        ),
{
}

/// A character is in one token at most.
proof fn lemma_one_token(chars: Seq<char>, k: int, m: int, i: int)
    requires
        0 <= k < tokenize::token_spans(chars, 0).len(),
        0 <= m < tokenize::token_spans(chars, 0).len(),
        tokenize::token_spans(chars, 0)[k].0 <= i < tokenize::token_spans(chars, 0)[k].1,
        tokenize::token_spans(chars, 0)[m].0 <= i < tokenize::token_spans(chars, 0)[m].1,
    ensures
        k == m,
{
    tokenize::tokens_come_in_order(chars, 0);
    let spans = tokenize::token_spans(chars, 0);
    if k < m {
        assert(spans[k].1 <= spans[m].0);
    }
    if m < k {
        assert(spans[m].1 <= spans[k].0);
    }
}

/// What is in a token: letters and digits, and between them an apostrophe with a letter on
/// either side, or a full stop or a comma with an ASCII digit on either side. Any other
/// character is in no token, and every token begins and ends with a letter or a digit.
pub proof fn a_token_is_letters_and_digits_and_what_joins_them(chars: Seq<char>, k: int, i: int)
    requires
        0 <= k < tokenize::token_spans(chars, 0).len(),
        tokenize::token_spans(chars, 0)[k].0 <= i < tokenize::token_spans(chars, 0)[k].1,
    ensures
        ({
            let span = tokenize::token_spans(chars, 0)[k];
            let c = chars[i];
            &&& text::alphanumeric(chars[span.0]) && text::alphanumeric(chars[span.1 - 1])
            &&& !text::alphanumeric(c) ==> span.0 < i < span.1 - 1 && {
                let before = chars[i - 1];
                let after = chars[i + 1];
                ||| (c == '\'' || c == '\u{2019}') && text::alphabetic(before) && text::alphabetic(
                    after,
                )
                ||| (c == '.' || c == ',') && '0' <= before <= '9' && '0' <= after <= '9'
            }
        }),
{
    tokenize::tokens_come_in_order(chars, 0);
    tokenize::a_token_is_a_word_or_one_cjk_character(chars, 0, k);
    let span = tokenize::token_spans(chars, 0)[k];
    if !tokenize::cjk(chars[span.0]) {
        assert(tokenize::joined(chars, i));
    }
}

/// Every letter and every digit is in a token.
pub proof fn no_letter_or_digit_is_left_out(chars: Seq<char>, i: int)
    requires
        0 <= i < chars.len(),
        text::alphanumeric(chars[i]),
    ensures
        in_one_token(chars, i, i),
{
    let k = tokenize::every_letter_and_digit_is_in_a_token(chars, 0, i);
    assert(tokenize::token_spans(chars, 0)[k].0 <= i);
}

/// Letters and digits side by side are in one token, unless one of them is of a script
/// that is written without spaces: such a character is a token of its own.
pub proof fn letters_and_digits_side_by_side_share_a_token(chars: Seq<char>, i: int)
    requires
        0 <= i < chars.len() - 1,
        text::alphanumeric(chars[i]),
        text::alphanumeric(chars[i + 1]),
    ensures
        in_one_token(chars, i, i + 1) <==> !of_a_script_without_spaces(chars[i])
            && !of_a_script_without_spaces(chars[i + 1]),
{
    let spans = tokenize::token_spans(chars, 0);
    scripts_without_spaces_are_kana_chinese_and_hangul(chars[i]);
    scripts_without_spaces_are_kana_chinese_and_hangul(chars[i + 1]);
    let k = tokenize::every_letter_and_digit_is_in_a_token(chars, 0, i);
    tokenize::tokens_come_in_order(chars, 0);
    tokenize::a_token_is_a_word_or_one_cjk_character(chars, 0, k);
    let span = spans[k];
    if in_one_token(chars, i, i + 1) {
        let m = choose|m: int|
            0 <= m < spans.len() && (#[trigger] spans[m]).0 <= i && i + 1 < spans[m].1;
        lemma_one_token(chars, k, m, i);
        assert(!tokenize::cjk(chars[i]));
        assert(!tokenize::cjk(chars[i + 1]));
    }
    if !tokenize::cjk(chars[i]) && !tokenize::cjk(chars[i + 1]) {
        assert(!tokenize::cjk(chars[span.0]));
        assert(tokenize::longest_word(chars, span.0, span.1));
        if span.1 == i + 1 {
            assert(tokenize::joined(chars, i + 1));
            assert(tokenize::holds_word(chars, span.0, i + 2));
        }
        assert(spans[k].0 <= i && i + 1 < spans[k].1);
    }
}

/// A character between two letters or digits keeps them in one token if and only if it is
/// an apostrophe and both are letters, or a full stop or a comma and both are ASCII digits,
/// neither being of a script that is written without spaces.
pub proof fn apostrophes_and_decimal_points_hold_a_token_together(chars: Seq<char>, i: int)
    requires
        0 < i < chars.len() - 1,
        text::alphanumeric(chars[i - 1]),
        !text::alphanumeric(chars[i]),
        text::alphanumeric(chars[i + 1]),
    ensures
        in_one_token(chars, i - 1, i + 1) <==> {
            let c = chars[i];
            let before = chars[i - 1];
            let after = chars[i + 1];
            ||| (c == '\'' || c == '\u{2019}') && text::alphabetic(before) && text::alphabetic(
                after,
            ) && !of_a_script_without_spaces(before) && !of_a_script_without_spaces(after)
            ||| (c == '.' || c == ',') && '0' <= before <= '9' && '0' <= after <= '9'
        },
{
    let spans = tokenize::token_spans(chars, 0);
    scripts_without_spaces_are_kana_chinese_and_hangul(chars[i - 1]);
    scripts_without_spaces_are_kana_chinese_and_hangul(chars[i + 1]);
    let k = tokenize::every_letter_and_digit_is_in_a_token(chars, 0, i - 1);
    tokenize::tokens_come_in_order(chars, 0);
    tokenize::a_token_is_a_word_or_one_cjk_character(chars, 0, k);
    let span = spans[k];
    let kept = tokenize::joins(chars[i], chars[i - 1], chars[i + 1]) && !tokenize::cjk(chars[i - 1])
        && !tokenize::cjk(chars[i + 1]);
    if in_one_token(chars, i - 1, i + 1) {
        let m = choose|m: int|
            0 <= m < spans.len() && (#[trigger] spans[m]).0 <= i - 1 && i + 1 < spans[m].1;
        lemma_one_token(chars, k, m, i - 1);
        assert(!tokenize::cjk(chars[i - 1]));
        assert(!tokenize::cjk(chars[i + 1]));
        assert(!tokenize::cjk(chars[span.0]));
        assert(tokenize::joined(chars, i));
        assert(kept);
    }
    if kept {
        assert(!tokenize::cjk(chars[span.0]));
        assert(tokenize::longest_word(chars, span.0, span.1));
        if span.1 <= i + 1 {
            assert(span.1 == i) by {
                if span.1 == i + 1 {
                    assert(!text::alphanumeric(chars[span.1 - 1]));
                }
            }
            assert(tokenize::joined(chars, i));
            assert(tokenize::joined(chars, i + 1));
            assert forall|n: int| span.0 <= n < i + 2 implies tokenize::joined(chars, n) by {
                if n < i {
                    assert(tokenize::holds_word(chars, span.0, span.1));
                }
            }
            assert(tokenize::holds_word(chars, span.0, i + 2));
        }
        assert(spans[k].0 <= i - 1 && i + 1 < spans[k].1);
    }
}

/// A word scan from the start of a token ends where the token does; from a character of a
/// script that is written without spaces it does not move.
pub proof fn a_word_scan_ends_with_the_token(chars: Seq<char>, k: int)
    requires
        0 <= k < tokenize::token_spans(chars, 0).len(),
    ensures
        ({
            let span = tokenize::token_spans(chars, 0)[k];
            tokenize::scanned_end(chars, span.0) == if of_a_script_without_spaces(chars[span.0]) {
                span.0
            } else {
                span.1
            }
        }),
{
    tokenize::tokens_come_in_order(chars, 0);
    tokenize::a_token_is_a_word_or_one_cjk_character(chars, 0, k);
    let span = tokenize::token_spans(chars, 0)[k];
    scripts_without_spaces_are_kana_chinese_and_hangul(chars[span.0]);
    if !tokenize::cjk(chars[span.0]) {
        tokenize::lemma_word_end(chars, span.0);
        let end = tokenize::word_end(chars, span.0);
        assert(tokenize::longest_word(chars, span.0, end));
        assert(!(end > span.1));
        assert(!(span.1 > end));
    }
}

/// The index stores one term per token, in the tokens' order: the token's characters in
/// lower case, however short or long they are and whatever they spell.
pub proof fn every_token_is_a_term(chars: Seq<char>)
    ensures
        tokenize::terms(chars).len() == tokenize::token_spans(chars, 0).len(),
        forall|k: int|
            0 <= k < tokenize::terms(chars).len() ==> #[trigger] tokenize::terms(chars)[k]
                == tokenize::lowercase(
                chars.subrange(
                    tokenize::token_spans(chars, 0)[k].0,
                    tokenize::token_spans(chars, 0)[k].1,
                ),
            ),
{
}

/// A token is the characters it was found at, its offset is how many bytes stand before
/// them, and its position how many tokens do.
pub proof fn a_position_counts_the_tokens_before_it(token: tokenize::Token, chars: Seq<char>, k: int)
    requires
        0 <= k < tokenize::token_spans(chars, 0).len(),
        tokenize::is_token(token, chars, tokenize::token_spans(chars, 0)[k], k),
    ensures
        ({
            let span = tokenize::token_spans(chars, 0)[k];
            &&& token.position == k
            &&& token.offset == encode_utf8(chars.take(span.0)).len()
            &&& token.text@ == chars.subrange(span.0, span.1)
        }),
{
}

/// From the beginning of a text every token of it is still to come, and collecting gives
/// each of them, with the position that counts those before it.
pub proof fn collecting_gives_every_token(
    tokens: tokenize::Tokens,
    list: Seq<tokenize::Token>,
    k: int,
)
    requires
        tokens.at() == 0,
        tokens.position() == 0,
        tokens.gives(list),
        0 <= k < list.len(),
    ensures
        list.len() == tokenize::token_spans(tokens.source(), 0).len(),
        list[k].position == k,
        ({
            let span = tokenize::token_spans(tokens.source(), 0)[k];
            list[k].text@ == tokens.source().subrange(span.0, span.1)
        }),
{
    assert(tokenize::is_token(
        list[k],
        tokens.source(),
        tokenize::token_spans(tokens.source(), 0)[k],
        k,
    ));
}

/// Lowercasing ASCII text makes of each capital letter the small letter at its place in the
/// alphabet, and leaves every other character as it is. Elsewhere Unicode decides.
pub proof fn lowercasing_changes_capital_letters_alone(chars: Seq<char>, i: int)
    requires
        0 <= i < chars.len(),
    ensures
        is_ascii_chars(chars) ==> {
            let lowered = tokenize::lowercase(chars);
            let c = chars[i];
            &&& lowered.len() == chars.len()
            &&& 'A' <= c <= 'Z' ==> 'a' <= lowered[i] <= 'z' && lowered[i] as int - 'a' as int == c
                as int - 'A' as int
            &&& !('A' <= c <= 'Z') ==> lowered[i] == c
        },
        !is_ascii_chars(chars) ==> tokenize::lowercase(chars) == tokenize::unicode_lowercase(chars),
{
    if is_ascii_chars(chars) {
        assert('\0' <= chars[i] <= '\u{7f}');
    }
}

/// Two texts that are alike to the tokenizer, character by character, are split alike.
proof fn lemma_alike(a: Seq<char>, b: Seq<char>, from: int)
    requires
        a.len() == b.len(),
        0 <= from <= a.len(),
        forall|k: int|
            0 <= k < a.len() ==> text::alphanumeric(#[trigger] a[k]) == text::alphanumeric(b[k])
                && tokenize::cjk(a[k]) == tokenize::cjk(b[k]),
        forall|k: int|
            0 <= k < a.len() ==> #[trigger] tokenize::joined(a, k) == tokenize::joined(b, k),
    ensures
        tokenize::token_spans(a, from) == tokenize::token_spans(b, from),
    decreases a.len() - from,
{
    lemma_alike_start(a, b, from);
    tokenize::lemma_token_start(a, from);
    let start = tokenize::token_start(a, from);
    if start < a.len() {
        tokenize::lemma_token_end(a, start);
        tokenize::lemma_token_end(b, start);
        if !tokenize::cjk(a[start]) {
            tokenize::lemma_word_end(a, start);
            tokenize::lemma_word_end(b, start);
            assert forall|end: int| tokenize::holds_word(a, start, end) <==> tokenize::holds_word(
                b,
                start,
                end,
            ) by {
                if start < end <= a.len() {
                    assert(text::alphanumeric(a[end - 1]) == text::alphanumeric(b[end - 1]));
                    if tokenize::holds_word(a, start, end) {
                        assert forall|k: int| start <= k < end implies tokenize::joined(b, k) by {
                            assert(tokenize::joined(a, k));
                        }
                    }
                    if tokenize::holds_word(b, start, end) {
                        assert forall|k: int| start <= k < end implies tokenize::joined(a, k) by {
                            assert(tokenize::joined(a, k) == tokenize::joined(b, k));
                        }
                    }
                }
            }
            let x = tokenize::word_end(a, start);
            let y = tokenize::word_end(b, start);
            assert(tokenize::holds_word(b, start, x));
            assert(tokenize::holds_word(a, start, y));
            assert(!(x > y));
            assert(!(y > x));
        }
        lemma_alike(a, b, tokenize::token_end(a, start));
    }
}

proof fn lemma_alike_start(a: Seq<char>, b: Seq<char>, from: int)
    requires
        a.len() == b.len(),
        0 <= from <= a.len(),
        forall|k: int|
            0 <= k < a.len() ==> text::alphanumeric(#[trigger] a[k]) == text::alphanumeric(b[k]),
    ensures
        tokenize::token_start(a, from) == tokenize::token_start(b, from),
    decreases a.len() - from,
{
    if from < a.len() {
        assert(text::alphanumeric(a[from]) == text::alphanumeric(b[from]));
        if !text::alphanumeric(a[from]) {
            lemma_alike_start(a, b, from + 1);
        }
    }
}

/// Case makes no difference: ASCII text has the terms that it has in lower case.
pub proof fn case_does_not_change_the_terms(chars: Seq<char>)
    requires
        is_ascii_chars(chars),
    ensures
        tokenize::terms(tokenize::lowercase(chars)) == tokenize::terms(chars),
{
    let lowered = tokenize::lowercase(chars);
    assert forall|k: int| 0 <= k < chars.len() implies text::ascii(#[trigger] chars[k])
        && text::alphanumeric(chars[k]) == text::alphanumeric(lowered[k]) && text::alphabetic(
        chars[k],
    ) == text::alphabetic(lowered[k]) && tokenize::cjk(chars[k]) == tokenize::cjk(lowered[k])
        && text::ascii_digit(chars[k]) == text::ascii_digit(lowered[k]) && (!text::alphanumeric(
        chars[k],
    ) ==> chars[k] == lowered[k]) by {
        assert('\0' <= chars[k] <= '\u{7f}');
    }
    assert forall|k: int| 0 <= k < chars.len() implies #[trigger] tokenize::joined(chars, k)
        == tokenize::joined(lowered, k) by {
        assert(text::ascii(chars[k]));
        if 0 < k {
            assert(text::ascii(chars[k - 1]));
        }
        if k + 1 < chars.len() {
            assert(text::ascii(chars[k + 1]));
        }
    }
    lemma_alike(chars, lowered, 0);
    tokenize::tokens_come_in_order(chars, 0);
    let spans = tokenize::token_spans(chars, 0);
    assert forall|k: int| 0 <= k < spans.len() implies #[trigger] tokenize::terms(lowered)[k]
        == tokenize::terms(chars)[k] by {
        let part = chars.subrange(spans[k].0, spans[k].1);
        assert(is_ascii_chars(part)) by {
            assert forall|i: int| 0 <= i < part.len() implies '\0' <= #[trigger] part[i]
                <= '\u{7f}' by {
                assert('\0' <= chars[spans[k].0 + i] <= '\u{7f}');
            }
        }
        assert(lowered.subrange(spans[k].0, spans[k].1) =~= tokenize::lowercase(part));
        tokenize::lowercasing_ascii_twice_is_lowercasing_once(part);
    }
    assert(tokenize::terms(lowered) =~= tokenize::terms(chars));
}

/// Text without white space is one word, and no text is no word.
pub proof fn text_without_white_space_is_one_word(chars: Seq<char>)
    requires
        forall|i: int| 0 <= i < chars.len() ==> !text::white_space(#[trigger] chars[i]),
    ensures
        chars.len() > 0 ==> whitespace::words(chars) == seq![chars],
        chars.len() == 0 ==> whitespace::words(chars).len() == 0,
        whitespace::collapsed(chars) == chars,
{
    if chars.len() > 0 {
        let list = seq![chars];
        assert(whitespace::spaced(list) == chars);
        whitespace::spacing_and_splitting_undo_each_other(list);
        assert(whitespace::words(chars) =~= seq![chars]);
    } else {
        assert(whitespace::collapsed(chars) =~= chars);
    }
}

/// A white space character separates words, and is in none: the words of a text are those
/// before it and then those behind it. Normalized, the one half and the other have one
/// space between them, where there is anything on both sides.
pub proof fn white_space_separates_words(left: Seq<char>, space: char, right: Seq<char>)
    requires
        text::white_space(space),
    ensures
        whitespace::words(left + seq![space] + right) == whitespace::words(left)
            + whitespace::words(right),
        ({
            let one = whitespace::collapsed(left);
            let other = whitespace::collapsed(right);
            whitespace::collapsed(left + seq![space] + right) == if one.len() == 0 {
                other
            } else if other.len() == 0 {
                one
            } else {
                one + seq![' '] + other
            }
        }),
{
    whitespace::lemma_words_of_halves(left, space, right, 0);
    whitespace::lemma_spaced_halves(whitespace::words(left), whitespace::words(right));
    whitespace::lemma_words_are_words(left, 0);
    whitespace::lemma_words_are_words(right, 0);
    whitespace::lemma_spaced_is_single_spaces(whitespace::words(left));
    whitespace::lemma_spaced_is_single_spaces(whitespace::words(right));
}

/// Trimming takes the white space off both ends and nothing else. Of white space alone
/// nothing is left.
pub proof fn trimming_takes_white_space_off_the_ends(
    before: Seq<char>,
    chars: Seq<char>,
    behind: Seq<char>,
)
    requires
        forall|i: int| 0 <= i < before.len() ==> text::white_space(#[trigger] before[i]),
        forall|i: int| 0 <= i < behind.len() ==> text::white_space(#[trigger] behind[i]),
        chars.len() > 0 ==> !text::white_space(chars[0]) && !text::white_space(chars.last()),
    ensures
        whitespace::trimmed(before + chars + behind) == chars,
{
    let whole = before + chars + behind;
    let first = before.len() as int;
    let last = first + chars.len();
    assert forall|k: int| 0 <= k < first implies text::white_space(#[trigger] whole[k]) by {
        assert(whole[k] == before[k]);
    }
    assert forall|k: int| last <= k < whole.len() implies text::white_space(#[trigger] whole[k]) by {
        assert(whole[k] == behind[k - last]);
    }
    if chars.len() > 0 {
        assert(whole[first] == chars[0]);
        assert(whole[last - 1] == chars.last());
        whitespace::lemma_same_word_start(whole, 0, first);
        whitespace::lemma_same_text_end(whole, whole.len() as int, last);
        assert(whole.subrange(first, last) =~= chars);
    } else {
        whitespace::lemma_same_word_start(whole, 0, whole.len() as int);
        assert(whitespace::trimmed(whole) =~= chars);
    }
}

} // verus!
