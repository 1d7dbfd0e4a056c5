//! Words between white space: splitting, collapsing and trimming.

use crate::text;
use crate::tokenize;
use vstd::prelude::*;
use vstd::string::*;

verus! {

/// The first character from `from` on that is not white space, or the end.
pub open spec fn word_start(chars: Seq<char>, from: int) -> int
    decreases chars.len() - from,
{
    if from >= chars.len() {
        chars.len() as int
    } else if text::white_space(chars[from]) {
        word_start(chars, from + 1)
    } else {
        from
    }
}

/// The first white space character from `from` on, or the end.
pub open spec fn gap_start(chars: Seq<char>, from: int) -> int
    decreases chars.len() - from,
{
    if from >= chars.len() {
        chars.len() as int
    } else if text::white_space(chars[from]) {
        from
    } else {
        gap_start(chars, from + 1)
    }
}

/// The words from character `from` on: the longest runs without white space.
pub open spec fn words_from(chars: Seq<char>, from: int) -> Seq<Seq<char>>
    decreases chars.len() - from,
    when 0 <= from
{
    proof {
        lemma_word_start(chars, from);
        lemma_gap_start(chars, word_start(chars, from));
    }
    let start = word_start(chars, from);
    if start >= chars.len() {
        seq![]
    } else {
        let end = gap_start(chars, start);
        seq![chars.subrange(start, end)] + words_from(chars, end)
    }
}

/// The words of a text.
pub open spec fn words(chars: Seq<char>) -> Seq<Seq<char>> {
    words_from(chars, 0)
}

/// Words written one after the other with one space between them.
pub open spec fn spaced(words: Seq<Seq<char>>) -> Seq<char>
    decreases words.len(),
{
    if words.len() == 0 {
        seq![]
    } else if words.len() == 1 {
        words[0]
    } else {
        spaced(words.drop_last()) + seq![' '] + words.last()
    }
}

/// A text with every run of white space made one space, and none at the ends.
pub open spec fn collapsed(chars: Seq<char>) -> Seq<char> {
    spaced(words(chars))
}

/// The end of the last character before `to` that is not white space.
pub open spec fn text_end(chars: Seq<char>, to: int) -> int
    decreases to,
{
    if to > 0 && text::white_space(chars[to - 1]) {
        text_end(chars, to - 1)
    } else {
        to
    }
}

/// A text without the white space at its ends.
pub open spec fn trimmed(chars: Seq<char>) -> Seq<char> {
    let start = word_start(chars, 0);
    if start >= chars.len() {
        seq![]
    } else {
        chars.subrange(start, text_end(chars, chars.len() as int))
    }
}

pub proof fn lemma_word_start(chars: Seq<char>, from: int)
    requires
        0 <= from,
    ensures
        from <= chars.len() ==> from <= word_start(chars, from) <= chars.len(),
        word_start(chars, from) <= chars.len(),
        word_start(chars, from) < chars.len() ==> from <= word_start(chars, from)
            && !text::white_space(chars[word_start(chars, from)]),
        forall|k: int|
            from <= k < word_start(chars, from) ==> text::white_space(#[trigger] chars[k]),
    decreases chars.len() - from,
{
    if from < chars.len() && text::white_space(chars[from]) {
        lemma_word_start(chars, from + 1);
    }
}

pub proof fn lemma_gap_start(chars: Seq<char>, from: int)
    requires
        0 <= from,
    ensures
        from <= chars.len() ==> from <= gap_start(chars, from) <= chars.len(),
        gap_start(chars, from) <= chars.len(),
        gap_start(chars, from) < chars.len() ==> text::white_space(
            chars[gap_start(chars, from)],
        ),
        from < chars.len() && !text::white_space(chars[from]) ==> from < gap_start(chars, from),
        forall|k: int|
            from <= k < gap_start(chars, from) ==> !text::white_space(#[trigger] chars[k]),
    decreases chars.len() - from,
{
    if from < chars.len() && !text::white_space(chars[from]) {
        lemma_gap_start(chars, from + 1);
    }
}

/// Skips white space from byte `offset` on.
pub(crate) fn skip_gap(string: &str, offset: usize, Ghost(from): Ghost<int>) -> (start: usize)
    requires
        0 <= from <= string@.len(),
        offset == text::byte_at(string@, from),
    ensures
        start == text::byte_at(string@, word_start(string@, from)),
{
    let ghost chars = string@;
    let length: usize = text::length_of(string);
    let mut index: usize = offset;
    let ghost mut k = from;
    while index < length
        invariant
            chars == string@,
            length == text::byte_len(chars),
            0 <= k <= chars.len(),
            index == text::byte_at(chars, k),
            word_start(chars, from) == word_start(chars, k),
        decreases chars.len() - k,
    {
        proof {
            text::lemma_byte_at(chars, k);
            text::lemma_byte_at_step(chars, k);
        }
        let character = text::char_at(string, index, Ghost(k));
        if !text::is_white_space(character) {
            return index;
        }
        index += text::width_of(character);
        proof {
            k = k + 1;
        }
    }
    proof {
        text::lemma_byte_at(chars, k);
    }
    index
}

/// Skips everything but white space from byte `offset` on.
pub(crate) fn skip_word(string: &str, offset: usize, Ghost(from): Ghost<int>) -> (end: usize)
    requires
        0 <= from <= string@.len(),
        offset == text::byte_at(string@, from),
    ensures
        end == text::byte_at(string@, gap_start(string@, from)),
{
    let ghost chars = string@;
    let length: usize = text::length_of(string);
    let mut index: usize = offset;
    let ghost mut k = from;
    while index < length
        invariant
            chars == string@,
            length == text::byte_len(chars),
            0 <= k <= chars.len(),
            index == text::byte_at(chars, k),
            gap_start(chars, from) == gap_start(chars, k),
        decreases chars.len() - k,
    {
        proof {
            text::lemma_byte_at(chars, k);
            text::lemma_byte_at_step(chars, k);
        }
        let character = text::char_at(string, index, Ghost(k));
        if text::is_white_space(character) {
            return index;
        }
        index += text::width_of(character);
        proof {
            k = k + 1;
        }
    }
    proof {
        text::lemma_byte_at(chars, k);
    }
    index
}

/// Collapses every run of white space to a single space and trims the ends.
///
/// Text comes hard-wrapped and padded, as it was typeset; two titles that differ only
/// in where a line was broken should compare equal.
pub fn normalize_whitespace(text: &str) -> (normalized: String)
    ensures
        normalized@ == collapsed(text@),
{
    let ghost chars = text@;
    let ghost all = words(chars);
    let length: usize = text::length_of(text);
    let mut normalized = String::new();
    let mut offset: usize = 0;
    let ghost mut at: int = 0;
    let ghost mut done: int = 0;
    proof {
        text::lemma_byte_at(chars, 0);
        assert(all.take(0) =~= Seq::<Seq<char>>::empty());
        assert(all.skip(0) =~= all);
    }
    loop
        invariant
            chars == text@,
            all == words(chars),
            length == text::byte_len(chars),
            0 <= at <= chars.len(),
            offset == text::byte_at(chars, at),
            0 <= done <= all.len(),
            words_from(chars, at) == all.skip(done),
            normalized@ == spaced(all.take(done)),
            done == 0 <==> normalized@.len() == 0,
        decreases chars.len() - at,
    {
        let ghost first = word_start(chars, at);
        let ghost last = gap_start(chars, first);
        proof {
            lemma_word_start(chars, at);
            lemma_gap_start(chars, first);
            text::lemma_byte_at(chars, first);
        }
        let start: usize = skip_gap(text, offset, Ghost(at));
        if start >= length {
            proof {
                assert(all.take(done) =~= all);
            }
            return normalized;
        }
        let end: usize = skip_word(text, start, Ghost(first));
        let word = text::slice(text, start, end, Ghost(first), Ghost(last));
        proof {
            assert(all.skip(done)[0] == all[done]);
            assert(all.skip(done).drop_first() =~= all.skip(done + 1));
            assert(words_from(chars, at).drop_first() =~= words_from(chars, last));
            assert(all.take(done + 1).drop_last() =~= all.take(done));
            assert(all.take(done + 1).last() == word@);
            if done == 0 {
                assert(all.take(1)[0] == word@);
                assert(normalized@ + word@ =~= word@);
            } else {
                assert(normalized@.push(' ') + word@ =~= normalized@ + seq![' '] + word@);
            }
        }
        if !normalized.as_str().is_empty() {
            normalized.push(' ');
        }
        normalized.append(word);
        offset = end;
        proof {
            at = last;
            done = done + 1;
        }
    }
}

/// The part of `text` between the white space at its ends.
pub fn trim(text: &str) -> (part: &str)
    ensures
        part@ == trimmed(text@),
{
    let ghost chars = text@;
    let length: usize = text::length_of(text);
    proof {
        text::lemma_byte_at(chars, 0);
        lemma_word_start(chars, 0);
        text::lemma_byte_at(chars, word_start(chars, 0));
    }
    let start: usize = skip_gap(text, 0, Ghost(0));
    let ghost first = word_start(chars, 0);
    if start >= length {
        let nothing = text::slice(text, start, start, Ghost(first), Ghost(first));
        proof {
            assert(nothing@ =~= trimmed(chars));
        }
        return nothing;
    }
    let mut index: usize = start;
    let mut end: usize = start;
    let ghost mut k = first;
    let ghost mut e = first;
    while index < length
        invariant
            chars == text@,
            length == text::byte_len(chars),
            0 <= first <= e <= k <= chars.len(),
            index == text::byte_at(chars, k),
            end == text::byte_at(chars, e),
            text_end(chars, k) == text_end(chars, e),
            e > first ==> !text::white_space(chars[e - 1]),
            first < chars.len(),
            !text::white_space(chars[first]),
            k > first ==> e > first,
        decreases chars.len() - k,
    {
        proof {
            text::lemma_byte_at(chars, k);
            text::lemma_byte_at_step(chars, k);
        }
        let character = text::char_at(text, index, Ghost(k));
        index += text::width_of(character);
        if !text::is_white_space(character) {
            end = index;
            proof {
                e = k + 1;
            }
        }
        proof {
            k = k + 1;
        }
    }
    proof {
        text::lemma_byte_at(chars, k);
    }
    text::slice(text, start, end, Ghost(first), Ghost(e))
}

/// Whether `chars` is a word: some characters, none of them white space.
pub open spec fn is_word(chars: Seq<char>) -> bool {
    &&& chars.len() > 0
    &&& forall|i: int| 0 <= i < chars.len() ==> !text::white_space(#[trigger] chars[i])
}

/// Splitting a text gives words.
pub proof fn lemma_words_are_words(chars: Seq<char>, from: int)
    requires
        0 <= from <= chars.len(),
    ensures
        forall|k: int| 0 <= k < words_from(chars, from).len() ==> is_word(
            #[trigger] words_from(chars, from)[k],
        ),
    decreases chars.len() - from,
{
    lemma_word_start(chars, from);
    let start = word_start(chars, from);
    if start < chars.len() {
        lemma_gap_start(chars, start);
        let end = gap_start(chars, start);
        lemma_words_are_words(chars, end);
        assert forall|k: int| 0 <= k < words_from(chars, from).len() implies is_word(
            #[trigger] words_from(chars, from)[k],
        ) by {
            if k > 0 {
                assert(words_from(chars, from)[k] == words_from(chars, end)[k - 1]);
            }
        }
    }
}

/// What stands before a space splits as it would alone, and what stands behind the
/// space follows it.
proof fn lemma_words_before_word(head: Seq<char>, word: Seq<char>, from: int)
    requires
        is_word(word),
        0 <= from <= head.len(),
    ensures
        words_from(head + seq![' '] + word, from) == words_from(head, from) + seq![word],
    decreases head.len() - from,
{
    let whole = head + seq![' '] + word;
    let gap = head.len() as int;
    lemma_word_start(head, from);
    lemma_word_start(whole, from);
    let start = word_start(head, from);
    assert(whole[gap] == ' ');
    assert forall|k: int| 0 <= k < gap implies #[trigger] whole[k] == head[k] by {}
    if start < gap {
        assert(word_start(whole, from) == start) by {
            lemma_same_word_start(whole, from, start);
        }
        lemma_gap_start(head, start);
        lemma_gap_start(whole, start);
        let end = gap_start(head, start);
        assert(gap_start(whole, start) == end) by {
            assert(text::white_space(whole[end]));
            lemma_same_gap_start(whole, start, end);
        }
        assert(whole.subrange(start, end) =~= head.subrange(start, end));
        lemma_words_before_word(head, word, end);
        assert(words_from(whole, from) =~= words_from(head, from) + seq![word]);
    } else {
        assert(whole[gap + 1] == word[0]);
        assert(word_start(whole, from) == gap + 1) by {
            assert forall|k: int| from <= k < gap + 1 implies text::white_space(
                #[trigger] whole[k],
            ) by {
                if k < gap {
                    assert(whole[k] == head[k]);
                }
            }
            lemma_same_word_start(whole, from, gap + 1);
        }
        assert(gap_start(whole, gap + 1) == whole.len()) by {
            assert forall|k: int| gap + 1 <= k < whole.len() implies !text::white_space(
                #[trigger] whole[k],
            ) by {
                assert(whole[k] == word[k - gap - 1]);
            }
            lemma_same_gap_start(whole, gap + 1, whole.len() as int);
        }
        assert(whole.subrange(gap + 1, whole.len() as int) =~= word);
        assert(words_from(whole, whole.len() as int) =~= Seq::<Seq<char>>::empty());
        assert(words_from(head, from) =~= Seq::<Seq<char>>::empty());
        assert(words_from(whole, from) =~= words_from(head, from) + seq![word]);
    }
}

pub proof fn lemma_same_word_start(chars: Seq<char>, from: int, start: int)
    requires
        0 <= from <= start <= chars.len(),
        start < chars.len() ==> !text::white_space(chars[start]),
        forall|k: int| from <= k < start ==> text::white_space(#[trigger] chars[k]),
    ensures
        word_start(chars, from) == start,
    decreases start - from,
{
    if from < start {
        assert(text::white_space(chars[from]));
        lemma_same_word_start(chars, from + 1, start);
    }
}

proof fn lemma_same_gap_start(chars: Seq<char>, from: int, gap: int)
    requires
        0 <= from <= gap <= chars.len(),
        gap < chars.len() ==> text::white_space(chars[gap]),
        forall|k: int| from <= k < gap ==> !text::white_space(#[trigger] chars[k]),
    ensures
        gap_start(chars, from) == gap,
    decreases gap - from,
{
    if from < gap {
        assert(!text::white_space(chars[from]));
        lemma_same_gap_start(chars, from + 1, gap);
    }
}

/// What is not white space is not behind the end of a text.
pub proof fn lemma_text_end(chars: Seq<char>, to: int, k: int)
    requires
        0 <= k < to <= chars.len(),
        !text::white_space(chars[k]),
    ensures
        k < text_end(chars, to) <= to,
    decreases to,
{
    if text::white_space(chars[to - 1]) {
        lemma_text_end(chars, to - 1, k);
    }
}

pub proof fn lemma_same_text_end(chars: Seq<char>, to: int, end: int)
    requires
        0 < end <= to <= chars.len(),
        !text::white_space(chars[end - 1]),
        forall|k: int| end <= k < to ==> text::white_space(#[trigger] chars[k]),
    ensures
        text_end(chars, to) == end,
    decreases to - end,
{
    if end < to {
        assert(text::white_space(chars[to - 1]));
        lemma_same_text_end(chars, to - 1, end);
    }
}

/// Behind a white space character the words are those of what follows it.
proof fn lemma_words_behind(left: Seq<char>, space: char, right: Seq<char>, from: int)
    requires
        0 <= from <= right.len(),
    ensures
        words_from(left + seq![space] + right, left.len() + 1 + from) == words_from(right, from),
    decreases right.len() - from,
{
    let whole = left + seq![space] + right;
    let by = left.len() as int + 1;
    lemma_word_start(right, from);
    let start = word_start(right, from);
    assert forall|k: int| by <= k < whole.len() implies #[trigger] whole[k] == right[k - by] by {}
    lemma_same_word_start(whole, by + from, by + start);
    if start < right.len() {
        lemma_gap_start(right, start);
        let end = gap_start(right, start);
        lemma_same_gap_start(whole, by + start, by + end);
        assert(whole.subrange(by + start, by + end) =~= right.subrange(start, end));
        lemma_words_behind(left, space, right, end);
    }
}

/// The words of a text with a white space character in it, from some character before
/// that one on.
pub proof fn lemma_words_of_halves(left: Seq<char>, space: char, right: Seq<char>, from: int)
    requires
        text::white_space(space),
        0 <= from <= left.len(),
    ensures
        words_from(left + seq![space] + right, from) == words_from(left, from) + words(right),
    decreases left.len() - from,
{
    let whole = left + seq![space] + right;
    let gap = left.len() as int;
    lemma_word_start(left, from);
    let start = word_start(left, from);
    assert(whole[gap] == space);
    assert forall|k: int| 0 <= k < gap implies #[trigger] whole[k] == left[k] by {}
    if start < gap {
        lemma_same_word_start(whole, from, start);
        lemma_gap_start(left, start);
        let end = gap_start(left, start);
        assert(text::white_space(whole[end]));
        lemma_same_gap_start(whole, start, end);
        assert(whole.subrange(start, end) =~= left.subrange(start, end));
        lemma_words_of_halves(left, space, right, end);
        assert(words_from(whole, from) =~= words_from(left, from) + words(right));
    } else {
        lemma_words_behind(left, space, right, 0);
        lemma_word_start(right, 0);
        let next = word_start(right, 0);
        assert forall|k: int| gap + 1 <= k < whole.len() implies #[trigger] whole[k] == right[k
            - gap - 1] by {}
        lemma_same_word_start(whole, from, gap + 1 + next);
        lemma_same_word_start(whole, gap + 1, gap + 1 + next);
        assert(words_from(left, from) =~= Seq::<Seq<char>>::empty());
        assert(words_from(whole, from) =~= words_from(whole, gap + 1));
        assert(words_from(whole, from) =~= words_from(left, from) + words(right));
    }
}

/// Some words and then others, with spaces between them.
pub proof fn lemma_spaced_halves(one: Seq<Seq<char>>, other: Seq<Seq<char>>)
    ensures
        spaced(one + other) == (if one.len() == 0 {
            spaced(other)
        } else if other.len() == 0 {
            spaced(one)
        } else {
            spaced(one) + seq![' '] + spaced(other)
        }),
    decreases other.len(),
{
    if one.len() == 0 {
        assert(one + other =~= other);
    } else if other.len() == 0 {
        assert(one + other =~= one);
    } else {
        assert((one + other).drop_last() =~= one + other.drop_last());
        lemma_spaced_halves(one, other.drop_last());
        assert(spaced(one + other) =~= spaced(one) + seq![' '] + spaced(other));
    }
}

/// Words written with spaces between them split into those words again.
pub proof fn spacing_and_splitting_undo_each_other(list: Seq<Seq<char>>)
    requires
        forall|k: int| 0 <= k < list.len() ==> is_word(#[trigger] list[k]),
    ensures
        words(spaced(list)) == list,
    decreases list.len(),
{
    if list.len() == 0 {
        assert(words(spaced(list)) =~= list);
    } else if list.len() == 1 {
        let word = list[0];
        lemma_same_word_start(word, 0, 0);
        lemma_same_gap_start(word, 0, word.len() as int);
        assert(word.subrange(0, word.len() as int) =~= word);
        assert(words_from(word, word.len() as int) =~= Seq::<Seq<char>>::empty());
        assert(words(spaced(list)) =~= list);
    } else {
        assert forall|k: int| 0 <= k < list.drop_last().len() implies is_word(
            #[trigger] list.drop_last()[k],
        ) by {
            assert(is_word(list[k]));
        }
        spacing_and_splitting_undo_each_other(list.drop_last());
        assert(is_word(list[list.len() - 1]));
        lemma_words_before_word(spaced(list.drop_last()), list.last(), 0);
        assert(words(spaced(list)) =~= list);
    }
}

/// Normalizing white space keeps the words, and normalizing twice is normalizing once.
pub proof fn normalizing_whitespace_keeps_the_words(chars: Seq<char>)
    ensures
        words(collapsed(chars)) == words(chars),
        collapsed(collapsed(chars)) == collapsed(chars),
{
    lemma_words_are_words(chars, 0);
    spacing_and_splitting_undo_each_other(words(chars));
}

/// Normalized text neither begins nor ends with white space, and the only white space
/// in it is single spaces.
pub proof fn normalized_whitespace_is_single_spaces(chars: Seq<char>)
    ensures
        collapsed(chars).len() > 0 ==> !text::white_space(collapsed(chars)[0])
            && !text::white_space(collapsed(chars).last()),
        forall|i: int|
            0 <= i < collapsed(chars).len() && text::white_space(#[trigger] collapsed(chars)[i])
                ==> collapsed(chars)[i] == ' ' && 0 < i < collapsed(chars).len() - 1
                && !text::white_space(collapsed(chars)[i - 1]) && !text::white_space(
                collapsed(chars)[i + 1],
            ),
{
    lemma_words_are_words(chars, 0);
    lemma_spaced_is_single_spaces(words(chars));
}

pub proof fn lemma_spaced_is_single_spaces(list: Seq<Seq<char>>)
    requires
        forall|k: int| 0 <= k < list.len() ==> is_word(#[trigger] list[k]),
    ensures
        ({
            let whole = spaced(list);
            &&& list.len() > 0 ==> whole.len() > 0 && !text::white_space(whole[0])
                && !text::white_space(whole.last())
            &&& list.len() == 0 ==> whole.len() == 0
            &&& forall|i: int|
                0 <= i < whole.len() && text::white_space(#[trigger] whole[i]) ==> whole[i] == ' '
                    && 0 < i < whole.len() - 1 && !text::white_space(whole[i - 1])
                    && !text::white_space(whole[i + 1])
        }),
    decreases list.len(),
{
    if list.len() == 1 {
        assert(is_word(list[0]));
    } else if list.len() > 1 {
        let head = list.drop_last();
        assert forall|k: int| 0 <= k < head.len() implies is_word(#[trigger] head[k]) by {
            assert(is_word(list[k]));
        }
        lemma_spaced_is_single_spaces(head);
        let before = spaced(head);
        let word = list.last();
        assert(is_word(list[list.len() - 1]));
        let whole = spaced(list);
        assert(whole == before + seq![' '] + word);
        let gap = before.len() as int;
        assert(whole[0] == before[0]);
        assert(whole.last() == word.last());
        assert(whole[gap - 1] == before.last());
        assert(whole[gap + 1] == word[0]);
        assert forall|i: int|
            0 <= i < whole.len() && text::white_space(#[trigger] whole[i]) implies whole[i] == ' '
            && 0 < i < whole.len() - 1 && !text::white_space(whole[i - 1]) && !text::white_space(
            whole[i + 1],
        ) by {
            if i < gap {
                assert(whole[i] == before[i]);
                assert(whole[i - 1] == before[i - 1]);
                assert(whole[i + 1] == before[i + 1]);
            } else if i > gap {
                assert(whole[i] == word[i - gap - 1]);
            }
        }
    }
}

/// The terms of some words, one word's after the other's.
pub open spec fn terms_of_words(list: Seq<Seq<char>>) -> Seq<Seq<char>>
    decreases list.len(),
{
    if list.len() == 0 {
        seq![]
    } else {
        terms_of_words(list.drop_last()) + tokenize::terms(list.last())
    }
}

proof fn lemma_terms_of_first_word(word: Seq<char>, rest: Seq<Seq<char>>)
    ensures
        terms_of_words(seq![word] + rest) == tokenize::terms(word) + terms_of_words(rest),
    decreases rest.len(),
{
    let list = seq![word] + rest;
    if rest.len() == 0 {
        assert(list.drop_last() =~= Seq::<Seq<char>>::empty());
        assert(terms_of_words(list.drop_last()).len() == 0);
        assert(list.last() == word);
        assert(terms_of_words(list) =~= tokenize::terms(word) + terms_of_words(rest));
    } else {
        assert(list.drop_last() =~= seq![word] + rest.drop_last());
        lemma_terms_of_first_word(word, rest.drop_last());
        assert(terms_of_words(list) =~= tokenize::terms(word) + terms_of_words(rest));
    }
}

/// The terms of a text are those of its words.
proof fn lemma_terms_by_words(chars: Seq<char>, from: int)
    requires
        0 <= from <= chars.len(),
    ensures
        tokenize::terms(chars.skip(from)) == terms_of_words(words_from(chars, from)),
    decreases chars.len() - from,
{
    let none = Seq::<char>::empty();
    assert(tokenize::terms(none) =~= Seq::<Seq<char>>::empty());
    lemma_word_start(chars, from);
    let start = word_start(chars, from);
    let gap = chars.subrange(from, start);
    assert forall|i: int| 0 <= i < gap.len() implies text::white_space(#[trigger] gap[i]) by {
        assert(gap[i] == chars[from + i]);
    }
    tokenize::padding_keeps_the_terms(gap, chars.skip(start), none);
    assert(gap + chars.skip(start) + none =~= chars.skip(from));
    if start >= chars.len() {
        assert(chars.skip(start) =~= none);
    } else {
        lemma_gap_start(chars, start);
        let end = gap_start(chars, start);
        let word = chars.subrange(start, end);
        lemma_terms_by_words(chars, end);
        lemma_terms_of_first_word(word, words_from(chars, end));
        if end >= chars.len() {
            assert(chars.skip(end) =~= none);
            assert(chars.skip(start) =~= word);
            assert(tokenize::terms(word) + tokenize::terms(none) =~= tokenize::terms(word));
        } else {
            let tail = chars.skip(end + 1);
            let space = chars[end];
            tokenize::splitting_at_white_space_keeps_the_terms(word, space, tail);
            tokenize::splitting_at_white_space_keeps_the_terms(none, space, tail);
            assert(word + seq![space] + tail =~= chars.skip(start));
            assert(none + seq![space] + tail =~= chars.skip(end));
            assert(tokenize::terms(none) + tokenize::terms(tail) =~= tokenize::terms(tail));
        }
    }
}

/// The terms of words with spaces between them are those of the words.
pub proof fn lemma_terms_of_spaced(list: Seq<Seq<char>>)
    ensures
        tokenize::terms(spaced(list)) == terms_of_words(list),
    decreases list.len(),
{
    if list.len() == 0 {
        assert(tokenize::terms(spaced(list)) =~= terms_of_words(list));
    } else if list.len() == 1 {
        assert(list.drop_last() =~= Seq::<Seq<char>>::empty());
        assert(terms_of_words(list.drop_last()).len() == 0);
        assert(terms_of_words(list) =~= tokenize::terms(list[0]));
    } else {
        lemma_terms_of_spaced(list.drop_last());
        tokenize::splitting_at_white_space_keeps_the_terms(
            spaced(list.drop_last()),
            ' ',
            list.last(),
        );
    }
}

/// Normalizing white space keeps the terms: a document is indexed as if its title and
/// its body had been left as they were typeset.
pub proof fn normalizing_whitespace_keeps_the_terms(chars: Seq<char>)
    ensures
        tokenize::terms(collapsed(chars)) == tokenize::terms(chars),
{
    assert(chars.skip(0) =~= chars);
    lemma_terms_by_words(chars, 0);
    lemma_terms_of_spaced(words(chars));
}

} // verus!
