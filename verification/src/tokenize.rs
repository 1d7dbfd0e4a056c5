//! Splitting text into positioned terms.
//!
//! ```text
//! "Surface code quantum error correction"
//!   |       |     |       |      +- position 4, offset 27
//!   |       |     |       +-------- position 3, offset 21
//!   |       |     +---------------- position 2, offset 13
//!   |       +---------------------- position 1, offset 8
//!   +------------------------------ position 0, offset 0
//! ```
//!
//! The **offset** of a token is where it starts in bytes, which is what slices
//! the original text. Its **position** is its ordinal, which is what phrase and
//! proximity queries compare.
//!
//! What a token is, [`token_spans`] says over the characters of the text:
//!
//! - A run of letters and digits is a word; anything else separates words.
//! - An apostrophe between two letters, and a `.` or `,` between two ASCII
//!   digits, hold a word together ([`joined`]): `don't`, `3.14` and `1,000` are
//!   one token each, `state-of-the-art` is four.
//! - A CJK character is a token of its own ([`cjk`]), since those scripts are
//!   written without spaces.
//!
//! A token keeps the text as it was written; [`Token::normalized`] lowercases it.

use crate::text;
use std::borrow::Cow;
use vstd::prelude::*;
use vstd::utf8::*;

verus! {

/// Whether `c` belongs to a script written without spaces between words.
pub open spec fn cjk(c: char) -> bool {
    let code = c as u32;
    ||| 0x3040 <= code <= 0x30FF
    ||| 0x3400 <= code <= 0x4DBF
    ||| 0x4E00 <= code <= 0x9FFF
    ||| 0xAC00 <= code <= 0xD7AF
    ||| 0xF900 <= code <= 0xFAFF
    ||| 0x20000 <= code <= 0x2FA1F
}

/// Whether `c` spells words together with its neighbours.
pub open spec fn word_char(c: char) -> bool {
    text::alphanumeric(c) && !cjk(c)
}

/// Whether `c`, between `previous` and `next`, holds a word together.
pub open spec fn joins(c: char, previous: char, next: char) -> bool {
    ||| (c == '\'' || c == '\u{2019}') && text::alphabetic(previous) && text::alphabetic(next)
    ||| (c == '.' || c == ',') && text::ascii_digit(previous) && text::ascii_digit(next)
}

/// Whether character `k` can stand inside a word.
pub open spec fn joined(chars: Seq<char>, k: int) -> bool {
    ||| word_char(chars[k])
    ||| 0 < k && k + 1 < chars.len() && joins(chars[k], chars[k - 1], chars[k + 1])
}

/// Whether the characters `start..end` make up a word: nothing in them separates
/// words, and the last one is not a mere connector.
pub open spec fn holds_word(chars: Seq<char>, start: int, end: int) -> bool {
    &&& 0 <= start < end <= chars.len()
    &&& word_char(chars[end - 1])
    &&& forall|k: int| start <= k < end ==> joined(chars, k)
}

/// The end of the longest word that starts at `start`.
pub open spec fn word_end(chars: Seq<char>, start: int) -> int {
    choose|end: int| longest_word(chars, start, end)
}

pub open spec fn longest_word(chars: Seq<char>, start: int, end: int) -> bool {
    &&& holds_word(chars, start, end)
    &&& forall|later: int| later > end ==> !holds_word(chars, start, later)
}

/// The end of the token that starts at `start`.
pub open spec fn token_end(chars: Seq<char>, start: int) -> int {
    if cjk(chars[start]) {
        start + 1
    } else {
        word_end(chars, start)
    }
}

/// The first place from `from` on where a token starts, or the end of the text.
pub open spec fn token_start(chars: Seq<char>, from: int) -> int
    decreases chars.len() - from,
{
    if from >= chars.len() {
        chars.len() as int
    } else if text::alphanumeric(chars[from]) {
        from
    } else {
        token_start(chars, from + 1)
    }
}

/// The tokens from character `from` on, each with its first character and the one
/// after its last.
pub open spec fn token_spans(chars: Seq<char>, from: int) -> Seq<(int, int)>
    decreases chars.len() - from,
    when 0 <= from
{
    proof {
        lemma_token_start(chars, from);
        if token_start(chars, from) < chars.len() {
            lemma_token_end(chars, token_start(chars, from));
        }
    }
    let start = token_start(chars, from);
    if start >= chars.len() {
        seq![]
    } else {
        let end = token_end(chars, start);
        seq![(start, end)] + token_spans(chars, end)
    }
}

/// The tokens of a text as they are written.
pub open spec fn token_texts(chars: Seq<char>) -> Seq<Seq<char>> {
    token_spans(chars, 0).map_values(|span: (int, int)| chars.subrange(span.0, span.1))
}

/// What `str::to_lowercase` makes of a text that is not ASCII alone.
pub uninterp spec fn unicode_lowercase(chars: Seq<char>) -> Seq<char>;

/// A text in lower case.
pub open spec fn lowercase(chars: Seq<char>) -> Seq<char> {
    if is_ascii_chars(chars) {
        chars.map_values(|c: char| ascii_lower(c))
    } else {
        unicode_lowercase(chars)
    }
}

/// The tokens of a text as the index stores them.
pub open spec fn terms(chars: Seq<char>) -> Seq<Seq<char>> {
    token_texts(chars).map_values(|term: Seq<char>| lowercase(term))
}

pub open spec fn ascii_lower(c: char) -> char {
    if text::ascii_upper(c) {
        (c as u32 + 32) as char
    } else {
        c
    }
}

/// `str::to_lowercase` lowercases by the text alone, from Unicode's tables. Where
/// the text is ASCII, it maps `A` to `Z` to `a` to `z` and keeps the rest.
pub assume_specification[ str::to_lowercase ](string: &str) -> (lowered: String)
    ensures
        is_ascii_chars(string@) ==> lowered@ == string@.map_values(|c: char| ascii_lower(c)),
        !is_ascii_chars(string@) ==> lowered@ == unicode_lowercase(string@),
;

/// From `from` on, the first start of a token lies at `from` or later, and the
/// characters before it start none.
pub proof fn lemma_token_start(chars: Seq<char>, from: int)
    requires
        0 <= from,
    ensures
        from <= chars.len() ==> from <= token_start(chars, from) <= chars.len(),
        token_start(chars, from) <= chars.len(),
        token_start(chars, from) < chars.len() ==> from <= token_start(chars, from)
            && text::alphanumeric(chars[token_start(chars, from)]),
        forall|k: int|
            from <= k < token_start(chars, from) ==> !text::alphanumeric(#[trigger] chars[k]),
    decreases chars.len() - from,
{
    if from < chars.len() && !text::alphanumeric(chars[from]) {
        lemma_token_start(chars, from + 1);
    }
}

/// A word that starts at a word character has a longest extent.
pub proof fn lemma_word_end(chars: Seq<char>, start: int)
    requires
        0 <= start < chars.len(),
        word_char(chars[start]),
    ensures
        longest_word(chars, start, word_end(chars, start)),
{
    assert(holds_word(chars, start, start + 1));
    let longest = lemma_longest_from(chars, start, start + 1);
    assert(longest_word(chars, start, longest));
}

proof fn lemma_longest_from(chars: Seq<char>, start: int, end: int) -> (longest: int)
    requires
        holds_word(chars, start, end),
    ensures
        longest_word(chars, start, longest),
    decreases chars.len() - end,
{
    if exists|later: int| later > end && holds_word(chars, start, later) {
        let later = choose|later: int| later > end && holds_word(chars, start, later);
        lemma_longest_from(chars, start, later)
    } else {
        end
    }
}

/// A token ends after it starts and no later than its text.
pub proof fn lemma_token_end(chars: Seq<char>, start: int)
    requires
        0 <= start < chars.len(),
        text::alphanumeric(chars[start]),
    ensures
        start < token_end(chars, start) <= chars.len(),
{
    if !cjk(chars[start]) {
        lemma_word_end(chars, start);
    }
}

/// The longest word ends at `end` where a scan has found nothing but connectors in
/// `end..stop` and cannot go on from `stop`.
pub proof fn lemma_scanned_word(chars: Seq<char>, start: int, end: int, stop: int)
    requires
        0 <= start < end <= stop <= chars.len(),
        word_char(chars[end - 1]),
        forall|k: int| start <= k < stop ==> joined(chars, k),
        forall|k: int| end <= k < stop ==> !word_char(#[trigger] chars[k]),
        stop < chars.len() ==> !joined(chars, stop),
    ensures
        word_end(chars, start) == end,
{
    assert(joined(chars, start));
    assert(holds_word(chars, start, end));
    assert forall|later: int| later > end implies !holds_word(chars, start, later) by {
        if holds_word(chars, start, later) {
            if later <= stop {
                assert(!word_char(chars[later - 1]));
            } else {
                assert(joined(chars, stop));
            }
        }
    }
    assert(longest_word(chars, start, end));
    let chosen = word_end(chars, start);
    assert(longest_word(chars, start, chosen));
    assert(!(chosen > end));
    assert(!(end > chosen));
}

/// Whether a character belongs to a script written without spaces between words,
/// and so should be indexed one character per token.
pub fn is_cjk(character: char) -> (answer: bool)
    ensures
        answer == cjk(character),
{
    let code: u32 = character as u32;
    (0x3040 <= code && code <= 0x30FF) || (0x3400 <= code && code <= 0x4DBF) || (0x4E00 <= code
        && code <= 0x9FFF) || (0xAC00 <= code && code <= 0xD7AF) || (0xF900 <= code && code
        <= 0xFAFF) || (0x20000 <= code && code <= 0x2FA1F)
}

/// Whether `character` holds a word together rather than ending it.
///
/// It takes the right sort of neighbour on both sides, which is what makes `don't`
/// one token while `dogs'` is just `dogs` and `'quoted'` is `quoted`.
pub fn joins_a_word(character: char, previous: Option<char>, next: Option<char>) -> (answer: bool)
    ensures
        answer == (previous is Some && next is Some && joins(character, previous->0, next->0)),
{
    match (previous, next) {
        (Some(previous), Some(next)) => {
            if character == '\'' || character == '\u{2019}' {
                text::is_alphabetic(previous) && text::is_alphabetic(next)
            } else if character == '.' || character == ',' {
                '0' <= previous && previous <= '9' && '0' <= next && next <= '9'
            } else {
                false
            }
        },
        _ => false,
    }
}

fn is_ascii_alphanumeric(byte: u8) -> (answer: bool)
    ensures
        answer == (48 <= byte <= 57 || 65 <= byte <= 90 || 97 <= byte <= 122),
{
    (48 <= byte && byte <= 57) || (65 <= byte && byte <= 90) || (97 <= byte && byte <= 122)
}

/// Where a scan from `start` ends: behind the word that starts there, or at once where
/// a CJK character does, which is a token of its own.
pub open spec fn scanned_end(chars: Seq<char>, start: int) -> int {
    if cjk(chars[start]) {
        start
    } else {
        word_end(chars, start)
    }
}

/// Whether a letter or a digit starts at byte `start` of a text.
pub open spec fn scannable(chars: Seq<char>, start: int) -> bool {
    &&& is_char_boundary(encode_utf8(chars), start)
    &&& start < text::byte_len(chars)
    &&& text::alphanumeric(chars[text::index_at(chars, start)])
}

/// Finds where the word starting at byte `start` ends, as [`scan_word_end_unicode`] does
/// for every text.
///
/// For ASCII a byte is a character, so the common path never decodes UTF-8. The
/// moment a non-ASCII byte appears the word is scanned again, by characters.
pub fn scan_word_end(string: &str, start: usize) -> (end: usize)
    requires
        scannable(string@, start as int),
    ensures
        end == text::byte_at(
            string@,
            scanned_end(string@, text::index_at(string@, start as int)),
        ),
{
    let ghost chars = string@;
    let ghost first = text::lemma_boundary_is_byte_at(chars, start as int);
    proof {
        text::lemma_index_at(chars, first);
        text::lemma_byte_at(chars, first);
    }
    let bytes = string.as_bytes();
    let mut index: usize = start;
    let mut end: usize = start;
    let ghost mut k = first;
    let ghost mut e = first;
    while index < bytes.len()
        invariant
            chars == string@,
            bytes@ == encode_utf8(chars),
            0 <= first <= e <= k <= chars.len(),
            first < chars.len(),
            start == text::byte_at(chars, first),
            first == text::index_at(chars, start as int),
            scannable(chars, start as int),
            k > first ==> word_char(chars[first]),
            index == text::byte_at(chars, k),
            end == text::byte_at(chars, e),
            k > first ==> e > first,
            e > first ==> word_char(chars[e - 1]),
            forall|m: int| first <= m < k ==> joined(chars, m),
            forall|m: int| e <= m < k ==> !word_char(#[trigger] chars[m]),
            forall|m: int| first <= m < k ==> text::ascii(#[trigger] chars[m]),
        decreases chars.len() - k,
    {
        proof {
            text::lemma_byte_at(chars, k);
            text::lemma_first_byte(chars, k);
        }
        let byte: u8 = bytes[index];
        if byte >= 128 {
            return scan_word_end_unicode(string, start);
        }
        proof {
            text::lemma_byte_at_step(chars, k);
            text::lemma_byte_at(chars, k + 1);
        }
        if is_ascii_alphanumeric(byte) {
            index += 1;
            end = index;
            proof {
                assert(word_char(chars[k]));
                assert(joined(chars, k));
                k = k + 1;
                e = k;
            }
            continue;
        }
        if index + 1 >= bytes.len() {
            return scan_word_end_unicode(string, start);
        }
        let next: u8 = bytes[index + 1];
        if next >= 128 {
            return scan_word_end_unicode(string, start);
        }
        proof {
            assert(k > first);
            text::lemma_first_byte(chars, k - 1);
            text::lemma_first_byte(chars, k + 1);
        }
        let previous: u8 = bytes[index - 1];
        if joins_a_word(byte as char, Some(previous as char), Some(next as char)) {
            index += 1;
            proof {
                assert(joined(chars, k));
                k = k + 1;
            }
            continue;
        }
        proof {
            lemma_scanned_word(chars, first, e, k);
        }
        return end;
    }
    proof {
        text::lemma_byte_at(chars, k);
        lemma_scanned_word(chars, first, e, k);
    }
    end
}

/// The word scan by characters, for words with anything but ASCII in them.
pub fn scan_word_end_unicode(string: &str, start: usize) -> (end: usize)
    requires
        scannable(string@, start as int),
    ensures
        end == text::byte_at(
            string@,
            scanned_end(string@, text::index_at(string@, start as int)),
        ),
{
    let ghost chars = string@;
    let ghost first = text::lemma_boundary_is_byte_at(chars, start as int);
    proof {
        text::lemma_index_at(chars, first);
        text::lemma_byte_at(chars, first);
    }
    let length: usize = text::length_of(string);
    let mut index: usize = start;
    let mut end: usize = start;
    let mut previous: Option<char> = None;
    let ghost mut k = first;
    let ghost mut e = first;
    while index < length
        invariant
            chars == string@,
            length == text::byte_len(chars),
            0 <= first <= e <= k <= chars.len(),
            first < chars.len(),
            first == text::index_at(chars, start as int),
            text::alphanumeric(chars[first]),
            k > first ==> word_char(chars[first]),
            start == text::byte_at(chars, first),
            index == text::byte_at(chars, k),
            end == text::byte_at(chars, e),
            k > first ==> e > first,
            e > first ==> word_char(chars[e - 1]),
            previous == (if k > first {
                Some(chars[k - 1])
            } else {
                None
            }),
            forall|m: int| first <= m < k ==> joined(chars, m),
            forall|m: int| e <= m < k ==> !word_char(#[trigger] chars[m]),
        decreases chars.len() - k,
    {
        proof {
            text::lemma_byte_at(chars, k);
            text::lemma_byte_at_step(chars, k);
            text::lemma_byte_at(chars, k + 1);
        }
        let character = text::char_at(string, index, Ghost(k));
        let after: usize = index + text::width_of(character);
        if is_cjk(character) {
            // A CJK character always begins a token of its own.
            proof {
                if k > first {
                    lemma_scanned_word(chars, first, e, k);
                }
            }
            return end;
        }
        if text::is_alphanumeric(character) {
            index = after;
            end = after;
            previous = Some(character);
            proof {
                assert(joined(chars, k));
                k = k + 1;
                e = k;
            }
            continue;
        }
        let next: Option<char> = if after < length {
            Some(text::char_at(string, after, Ghost(k + 1)))
        } else {
            None
        };
        if joins_a_word(character, previous, next) {
            // `end` stays: a trailing connector with no word after it is not part
            // of the token, so `dogs'` ends at the s.
            index = after;
            previous = Some(character);
            proof {
                assert(joined(chars, k));
                k = k + 1;
            }
            continue;
        }
        proof {
            lemma_scanned_word(chars, first, e, k);
        }
        return end;
    }
    proof {
        text::lemma_byte_at(chars, k);
        lemma_scanned_word(chars, first, e, k);
    }
    end
}

/// Finds where the next token starts, from byte `offset` on: past anything that
/// cannot begin a token, or at the end of the text.
fn skip_to_token_start(string: &str, offset: usize, Ghost(from): Ghost<int>) -> (start: usize)
    requires
        0 <= from <= string@.len(),
        offset == text::byte_at(string@, from),
    ensures
        start == text::byte_at(string@, token_start(string@, from)),
{
    let ghost chars = string@;
    let bytes = string.as_bytes();
    let mut index: usize = offset;
    let ghost mut k = from;
    while index < bytes.len()
        invariant
            chars == string@,
            bytes@ == encode_utf8(chars),
            0 <= k <= chars.len(),
            index == text::byte_at(chars, k),
            token_start(chars, from) == token_start(chars, k),
        decreases chars.len() - k,
    {
        proof {
            text::lemma_byte_at(chars, k);
            text::lemma_first_byte(chars, k);
            text::lemma_byte_at_step(chars, k);
        }
        // Most of a corpus is ASCII, and deciding a single byte avoids decoding a
        // character to learn it is a space.
        let byte: u8 = bytes[index];
        if byte < 128 {
            if is_ascii_alphanumeric(byte) {
                return index;
            }
            index += 1;
        } else {
            let character = text::char_at(string, index, Ghost(k));
            if text::is_alphanumeric(character) {
                return index;
            }
            index += text::width_of(character);
        }
        proof {
            k = k + 1;
        }
    }
    proof {
        text::lemma_byte_at(chars, k);
    }
    index
}

/// The bytes of the first token from byte `offset` on.
fn next_span(string: &str, offset: usize, Ghost(from): Ghost<int>) -> (span: Option<(usize, usize)>)
    requires
        0 <= from <= string@.len(),
        offset == text::byte_at(string@, from),
    ensures
        span is Some <==> token_start(string@, from) < string@.len(),
        span matches Some(bytes) ==> {
            let start = token_start(string@, from);
            bytes.0 == text::byte_at(string@, start) && bytes.1 == text::byte_at(
                string@,
                token_end(string@, start),
            )
        },
{
    let ghost chars = string@;
    let ghost first = token_start(chars, from);
    proof {
        lemma_token_start(chars, from);
        text::lemma_byte_at(chars, first);
    }
    let start: usize = skip_to_token_start(string, offset, Ghost(from));
    if start >= text::length_of(string) {
        return None;
    }
    let character = text::char_at(string, start, Ghost(first));
    proof {
        text::lemma_byte_at_step(chars, first);
        text::lemma_byte_at(chars, first + 1);
        text::lemma_index_at(chars, first);
    }
    let end: usize = if is_cjk(character) {
        // One character, one token.
        start + text::width_of(character)
    } else {
        scan_word_end(string, start)
    };
    Some((start, end))
}

/// Whether `string` is ASCII without a capital letter, and so its own lower case.
fn is_lowercase_ascii(string: &str) -> (answer: bool)
    ensures
        answer ==> lowercase(string@) == string@,
        is_ascii_chars(string@) ==> answer == (lowercase(string@) == string@),
{
    let ghost chars = string@;
    let bytes = string.as_bytes();
    let mut index: usize = 0;
    proof {
        text::lemma_byte_at(chars, 0);
    }
    while index < bytes.len()
        invariant
            chars == string@,
            bytes@ == encode_utf8(chars),
            index <= chars.len(),
            index == text::byte_at(chars, index as int),
            forall|i: int|
                0 <= i < index ==> text::ascii(#[trigger] chars[i]) && !text::ascii_upper(chars[i]),
        decreases chars.len() - index,
    {
        proof {
            text::lemma_byte_at(chars, index as int);
            text::lemma_first_byte(chars, index as int);
        }
        let byte: u8 = bytes[index];
        if byte >= 128 || (65 <= byte && byte <= 90) {
            proof {
                if is_ascii_chars(chars) {
                    assert('\0' <= chars[index as int] <= '\u{7f}');
                    assert(lowercase(chars)[index as int] == ascii_lower(chars[index as int]));
                }
            }
            return false;
        }
        index += 1;
    }
    proof {
        text::lemma_byte_at(chars, index as int);
        assert(chars.map_values(|c: char| ascii_lower(c)) =~= chars);
    }
    true
}

/// A single term, borrowed from the text it was found in.
#[derive(Debug, Clone, Copy, PartialEq, Eq)]
pub struct Token<'a> {
    /// The term exactly as it appears in the source, with its original casing.
    pub text: &'a str,
    /// Byte offset of the term within the text it was tokenized from.
    pub offset: usize,
    /// The term's ordinal within the text, counting from zero.
    pub position: u32,
}

/// Whether `token` is the one that takes the characters `span` of `chars` and comes
/// after `position` others.
pub open spec fn is_token(token: Token, chars: Seq<char>, span: (int, int), position: int) -> bool {
    &&& token.text@ == chars.subrange(span.0, span.1)
    &&& token.offset == text::byte_at(chars, span.0)
    &&& token.position == position
}

impl<'a> Token<'a> {
    /// The term lowercased, borrowing when no change is needed. Most terms are ASCII in
    /// lower case already, and for those nothing is allocated.
    pub fn normalized(&self) -> (term: Cow<'a, str>)
        ensures
            term@ == lowercase(self.text@),
            term is Borrowed <==> lowercase(self.text@) == self.text@,
    {
        if is_lowercase_ascii(self.text) {
            return Cow::Borrowed(self.text);
        }
        let lowered = self.text.to_lowercase();
        if text::same_text(lowered.as_str(), self.text) {
            Cow::Borrowed(self.text)
        } else {
            Cow::Owned(lowered)
        }
    }

    /// The byte offset one past the end of the term.
    pub fn end(&self) -> (end: usize)
        requires
            self.offset + text::byte_len(self.text@) <= usize::MAX,
        ensures
            end == self.offset + text::byte_len(self.text@),
    {
        self.offset + text::length_of(self.text)
    }
}

/// The tokens of a text, one at a time. See [`tokenize`].
#[derive(Debug)]
pub struct Tokens<'a> {
    text: &'a str,
    offset: usize,
    position: u32,
}

/// Splits `text` into [`Token`]s, scanning no further than it is asked to.
pub fn tokenize(text: &str) -> (tokens: Tokens<'_>)
    ensures
        tokens.source() == text@,
        tokens.at() == 0,
        tokens.position() == 0,
{
    proof {
        text::lemma_byte_at(text@, 0);
        text::lemma_index_at(text@, 0);
    }
    Tokens { text, offset: 0, position: 0 }
}

impl<'a> Clone for Tokens<'a> {
    fn clone(&self) -> (copy: Self)
        ensures
            copy == *self,
    {
        proof {
            use_type_invariant(self);
        }
        Tokens { text: self.text, offset: self.offset, position: self.position }
    }
}

impl<'a> Tokens<'a> {
    #[verifier::type_invariant]
    spec fn on_boundary(self) -> bool {
        &&& 0 <= self.at() <= self.text@.len()
        &&& self.offset == text::byte_at(self.text@, self.at())
    }

    /// The text being split.
    pub closed spec fn source(self) -> Seq<char> {
        self.text@
    }

    /// How many characters of the text have been scanned.
    pub closed spec fn at(self) -> int {
        text::index_at(self.text@, self.offset as int)
    }

    /// How many tokens have been produced.
    pub closed spec fn position(self) -> u32 {
        self.position
    }

    /// The tokens still to come.
    pub open spec fn remaining(self) -> Seq<(int, int)> {
        token_spans(self.source(), self.at())
    }

    /// The text still to be scanned.
    pub fn remainder(&self) -> (rest: &'a str)
        ensures
            rest@ == self.source().skip(self.at()),
    {
        proof {
            use_type_invariant(self);
        }
        text::suffix(self.text, self.offset, Ghost(self.at()))
    }

    /// The next token, or `None` at the end of the text.
    ///
    /// Positions are counted in a `u32`, which can tell no more than `u32::MAX`
    /// tokens apart.
    pub fn next(&mut self) -> (token: Option<Token<'a>>)
        requires
            old(self).position() < u32::MAX || old(self).remaining().len() == 0,
        ensures
            final(self).source() == old(self).source(),
            match token {
                Some(token) => {
                    &&& old(self).remaining().len() > 0
                    &&& is_token(
                        token,
                        old(self).source(),
                        old(self).remaining()[0],
                        old(self).position() as int,
                    )
                    &&& final(self).at() == old(self).remaining()[0].1
                    &&& final(self).position() == old(self).position() + 1
                    &&& final(self).remaining() == old(self).remaining().drop_first()
                },
                None => {
                    &&& old(self).remaining().len() == 0
                    &&& final(self).at() == old(self).source().len()
                    &&& final(self).position() == old(self).position()
                    &&& final(self).remaining().len() == 0
                },
            },
    {
        proof {
            use_type_invariant(&*self);
        }
        let ghost chars = self.text@;
        let ghost from = self.at();
        let ghost first = token_start(chars, from);
        proof {
            lemma_token_start(chars, from);
        }
        match next_span(self.text, self.offset, Ghost(from)) {
            Some((start, end)) => {
                proof {
                    lemma_token_end(chars, first);
                    text::lemma_index_at(chars, token_end(chars, first));
                    assert(token_spans(chars, from).drop_first() =~= token_spans(
                        chars,
                        token_end(chars, first),
                    ));
                }
                let token = Token {
                    text: text::slice(
                        self.text,
                        start,
                        end,
                        Ghost(first),
                        Ghost(token_end(chars, first)),
                    ),
                    offset: start,
                    position: self.position,
                };
                self.position = self.position + 1;
                self.offset = end;
                Some(token)
            },
            None => {
                proof {
                    text::lemma_byte_at(chars, chars.len() as int);
                    text::lemma_index_at(chars, chars.len() as int);
                }
                self.offset = text::length_of(self.text);
                None
            },
        }
    }

    /// How many tokens are to come: none at least, one per remaining byte at most.
    pub fn size_hint(&self) -> (bounds: (usize, Option<usize>))
        ensures
            bounds.0 == 0,
            bounds.1 == Some(text::byte_len(self.source().skip(self.at())) as usize),
            bounds.1->0 == text::byte_len(self.source().skip(self.at())),
            self.remaining().len() <= bounds.1->0,
    {
        proof {
            use_type_invariant(self);
            text::lemma_byte_at(self.text@, self.at());
            lemma_at_most_one_token_per_byte(self.text@, self.at());
        }
        (0, Some(text::length_of(self.text) - self.offset))
    }

    /// How many tokens are still to come.
    fn count_remaining(&self) -> (count: usize)
        ensures
            count == self.remaining().len(),
    {
        proof {
            use_type_invariant(self);
            text::lemma_byte_at(self.text@, self.at());
            lemma_at_most_one_token_per_byte(self.text@, self.at());
        }
        let ghost chars = self.text@;
        let ghost all = self.remaining();
        let length: usize = text::length_of(self.text);
        let mut offset: usize = self.offset;
        let mut count: usize = 0;
        let ghost mut at = self.at();
        loop
            invariant
                chars == self.text@,
                length == text::byte_len(chars),
                all.len() <= length,
                0 <= at <= chars.len(),
                offset == text::byte_at(chars, at),
                count + token_spans(chars, at).len() == all.len(),
                all == self.remaining(),
            decreases chars.len() - at,
        {
            let ghost first = token_start(chars, at);
            proof {
                lemma_token_start(chars, at);
            }
            match next_span(self.text, offset, Ghost(at)) {
                Some((_, end)) => {
                    proof {
                        lemma_token_end(chars, first);
                    }
                    count += 1;
                    offset = end;
                    proof {
                        at = token_end(chars, first);
                    }
                },
                None => {
                    return count;
                },
            }
        }
    }

    /// Every token still to come, or `None` where they are more than positions can tell
    /// apart.
    pub fn try_collect(self) -> (tokens: Option<Vec<Token<'a>>>)
        ensures
            tokens is Some <==> self.position() + self.remaining().len() <= u32::MAX,
            tokens matches Some(tokens) ==> self.gives(tokens@),
    {
        let count: usize = self.count_remaining();
        if count as u64 <= (u32::MAX - self.position) as u64 {
            Some(self.collect())
        } else {
            None
        }
    }

    /// Whether `tokens` are those still to come.
    pub open spec fn gives(self, tokens: Seq<Token>) -> bool {
        &&& tokens.len() == self.remaining().len()
        &&& forall|k: int|
            0 <= k < tokens.len() ==> is_token(
                #[trigger] tokens[k],
                self.source(),
                self.remaining()[k],
                self.position() + k,
            )
    }

    /// Every token still to come.
    pub fn collect(self) -> (tokens: Vec<Token<'a>>)
        requires
            self.position() + self.remaining().len() <= u32::MAX,
        ensures
            self.gives(tokens@),
    {
        let ghost all = self.remaining();
        let ghost begin = self.position() as int;
        let ghost chars = self.source();
        let mut rest = self;
        let mut tokens: Vec<Token<'a>> = Vec::new();
        loop
            invariant
                rest.source() == chars,
                all == self.remaining(),
                begin == self.position(),
                chars == self.source(),
                begin + all.len() <= u32::MAX,
                tokens@.len() <= all.len(),
                rest.position() == begin + tokens@.len(),
                rest.remaining() == all.skip(tokens@.len() as int),
                forall|k: int|
                    0 <= k < tokens@.len() ==> is_token(
                        #[trigger] tokens@[k],
                        chars,
                        all[k],
                        begin + k,
                    ),
            decreases all.len() - tokens@.len(),
        {
            match rest.next() {
                Some(token) => {
                    proof {
                        assert(all.skip(tokens@.len() as int).drop_first() =~= all.skip(
                            tokens@.len() as int + 1,
                        ));
                    }
                    tokens.push(token);
                },
                None => {
                    return tokens;
                },
            }
        }
    }
}

/// No text has more tokens than bytes.
proof fn lemma_at_most_one_token_per_byte(chars: Seq<char>, from: int)
    requires
        0 <= from <= chars.len(),
    ensures
        token_spans(chars, from).len() <= text::byte_len(chars.skip(from)),
    decreases chars.len() - from,
{
    lemma_token_start(chars, from);
    let start = token_start(chars, from);
    if start < chars.len() {
        lemma_token_end(chars, start);
        let end = token_end(chars, start);
        lemma_at_most_one_token_per_byte(chars, end);
        text::lemma_byte_at(chars, from);
        text::lemma_byte_at(chars, end);
        text::lemma_byte_at_monotone(chars, from, end);
    }
}

/// The tokens of `string` as the index stores them.
pub fn terms_of(string: &str) -> (found: Vec<String>)
    ensures
        found@.map_values(|term: String| term@) == terms(string@),
{
    let ghost chars = string@;
    let ghost all = token_spans(chars, 0);
    let mut found: Vec<String> = Vec::new();
    let mut offset: usize = 0;
    let ghost mut at: int = 0;
    proof {
        text::lemma_byte_at(chars, 0);
    }
    loop
        invariant
            chars == string@,
            all == token_spans(chars, 0),
            0 <= at <= chars.len(),
            offset == text::byte_at(chars, at),
            found@.len() <= all.len(),
            token_spans(chars, at) == all.skip(found@.len() as int),
            forall|k: int|
                0 <= k < found@.len() ==> (#[trigger] found@[k])@ == lowercase(
                    chars.subrange(all[k].0, all[k].1),
                ),
        decreases chars.len() - at,
    {
        let ghost first = token_start(chars, at);
        proof {
            lemma_token_start(chars, at);
        }
        match next_span(string, offset, Ghost(at)) {
            Some((start, end)) => {
                proof {
                    lemma_token_end(chars, first);
                    assert(token_spans(chars, at).drop_first() =~= token_spans(
                        chars,
                        token_end(chars, first),
                    ));
                    assert(all.skip(found@.len() as int)[0] == all[found@.len() as int]);
                    assert(all.skip(found@.len() as int).drop_first() =~= all.skip(
                        found@.len() as int + 1,
                    ));
                }
                let token = text::slice(
                    string,
                    start,
                    end,
                    Ghost(first),
                    Ghost(token_end(chars, first)),
                );
                found.push(token.to_lowercase());
                offset = end;
                proof {
                    at = token_end(chars, first);
                }
            },
            None => {
                proof {
                    assert(found@.map_values(|term: String| term@) =~= terms(chars));
                }
                return found;
            },
        }
    }
}

/// Tokens come in order: each takes at least one character, none reaches into the
/// next, and none leaves the text.
pub proof fn tokens_come_in_order(chars: Seq<char>, from: int)
    requires
        0 <= from <= chars.len(),
    ensures
        forall|k: int|
            0 <= k < token_spans(chars, from).len() ==> {
                let span = #[trigger] token_spans(chars, from)[k];
                from <= span.0 < span.1 <= chars.len()
            },
        forall|j: int, k: int|
            0 <= j < k < token_spans(chars, from).len() ==> (#[trigger] token_spans(
                chars,
                from,
            )[j]).1 <= (#[trigger] token_spans(chars, from)[k]).0,
    decreases chars.len() - from,
{
    lemma_token_start(chars, from);
    let start = token_start(chars, from);
    if start < chars.len() {
        lemma_token_end(chars, start);
        let end = token_end(chars, start);
        tokens_come_in_order(chars, end);
        let rest = token_spans(chars, end);
        assert(token_spans(chars, from) =~= seq![(start, end)] + rest);
        assert forall|k: int| 0 <= k < token_spans(chars, from).len() implies {
            let span = #[trigger] token_spans(chars, from)[k];
            from <= span.0 < span.1 <= chars.len()
        } by {
            if k > 0 {
                assert(token_spans(chars, from)[k] == rest[k - 1]);
            }
        }
        assert forall|j: int, k: int| 0 <= j < k < token_spans(chars, from).len() implies (
        #[trigger] token_spans(chars, from)[j]).1 <= (#[trigger] token_spans(chars, from)[k]).0 by {
            assert(token_spans(chars, from)[k] == rest[k - 1]);
            if j > 0 {
                assert(token_spans(chars, from)[j] == rest[j - 1]);
            }
        }
    }
}

/// A token is the slice of its text's bytes that its offset and length say.
pub proof fn a_token_is_the_slice_at_its_offset(
    token: Token,
    chars: Seq<char>,
    span: (int, int),
    position: int,
)
    requires
        is_token(token, chars, span, position),
        0 <= span.0 <= span.1 <= chars.len(),
    ensures
        token.offset + text::byte_len(token.text@) <= text::byte_len(chars),
        encode_utf8(chars).subrange(
            token.offset as int,
            token.offset + text::byte_len(token.text@),
        ) == encode_utf8(token.text@),
{
    text::lemma_byte_range(chars, span.0, span.1);
    text::lemma_byte_at_monotone(chars, span.0, span.1);
}

/// What a token can be: one CJK character, or a word that has no CJK character in it
/// and nothing that separates words.
pub proof fn a_token_is_a_word_or_one_cjk_character(chars: Seq<char>, from: int, k: int)
    requires
        0 <= from <= chars.len(),
        0 <= k < token_spans(chars, from).len(),
    ensures
        ({
            let span = token_spans(chars, from)[k];
            if cjk(chars[span.0]) {
                span.1 == span.0 + 1
            } else {
                longest_word(chars, span.0, span.1)
            }
        }),
        ({
            let span = token_spans(chars, from)[k];
            text::alphanumeric(chars[span.0]) && text::alphanumeric(chars[span.1 - 1])
        }),
        forall|i: int|
            token_spans(chars, from)[k].0 <= i < token_spans(chars, from)[k].1 && cjk(
                #[trigger] chars[i],
            ) ==> token_spans(chars, from)[k] == (i, i + 1),
    decreases chars.len() - from,
{
    lemma_token_start(chars, from);
    let start = token_start(chars, from);
    lemma_token_end(chars, start);
    let end = token_end(chars, start);
    let rest = token_spans(chars, end);
    if k == 0 {
        if !cjk(chars[start]) {
            lemma_word_end(chars, start);
            assert forall|i: int| start <= i < end implies !cjk(#[trigger] chars[i]) by {
                assert(joined(chars, i));
            }
        }
    } else {
        assert(token_spans(chars, from)[k] == rest[k - 1]);
        a_token_is_a_word_or_one_cjk_character(chars, end, k - 1);
    }
}

/// No token has white space in it.
pub proof fn tokens_hold_no_white_space(chars: Seq<char>, from: int, k: int, i: int)
    requires
        0 <= from <= chars.len(),
        0 <= k < token_spans(chars, from).len(),
        token_spans(chars, from)[k].0 <= i < token_spans(chars, from)[k].1,
    ensures
        !text::white_space(chars[i]),
{
    a_token_is_a_word_or_one_cjk_character(chars, from, k);
    let span = token_spans(chars, from)[k];
    if !cjk(chars[span.0]) {
        assert(joined(chars, i));
    }
}

/// Every letter and every digit of a text is in one of its tokens.
pub proof fn every_letter_and_digit_is_in_a_token(chars: Seq<char>, from: int, i: int) -> (k: int)
    requires
        0 <= from <= i < chars.len(),
        text::alphanumeric(chars[i]),
    ensures
        0 <= k < token_spans(chars, from).len(),
        token_spans(chars, from)[k].0 <= i < token_spans(chars, from)[k].1,
    decreases chars.len() - from,
{
    lemma_token_start(chars, from);
    let start = token_start(chars, from);
    assert(start <= i) by {
        if i < start {
            assert(!text::alphanumeric(chars[i]));
        }
    }
    lemma_token_end(chars, start);
    let end = token_end(chars, start);
    if i < end {
        0
    } else {
        let later = every_letter_and_digit_is_in_a_token(chars, end, i);
        assert(token_spans(chars, from)[later + 1] == token_spans(chars, end)[later]);
        later + 1
    }
}

/// Token extents moved to the right by `by` characters.
pub open spec fn shifted(spans: Seq<(int, int)>, by: int) -> Seq<(int, int)> {
    spans.map_values(|span: (int, int)| (span.0 + by, span.1 + by))
}

proof fn lemma_same_word_end(a: Seq<char>, b: Seq<char>, start: int, by: int)
    requires
        0 <= start < a.len(),
        0 <= start + by < b.len(),
        word_char(a[start]),
        b[start + by] == a[start],
        forall|end: int| holds_word(a, start, end) <==> holds_word(b, start + by, end + by),
    ensures
        word_end(b, start + by) == word_end(a, start) + by,
{
    lemma_word_end(a, start);
    lemma_word_end(b, start + by);
    let x = word_end(a, start);
    let y = word_end(b, start + by);
    assert(holds_word(b, start + by, x + by));
    assert(holds_word(a, start, y - by)) by {
        assert(holds_word(b, start + by, (y - by) + by));
    }
    assert(!(y > x + by));
    assert(!(x > y - by));
}

/// Behind a separator the tokens are those of what follows it, moved.
proof fn lemma_tokens_after_space(left: Seq<char>, space: char, right: Seq<char>, from: int)
    requires
        !text::alphanumeric(space),
        space != '\'' && space != '\u{2019}' && space != '.' && space != ',',
        0 <= from <= right.len(),
    ensures
        token_spans(left + seq![space] + right, left.len() + 1 + from) == shifted(
            token_spans(right, from),
            left.len() as int + 1,
        ),
    decreases right.len() - from,
{
    let whole = left + seq![space] + right;
    let by = left.len() as int + 1;
    lemma_start_after_space(left, space, right, from);
    lemma_token_start(right, from);
    let start = token_start(right, from);
    if start < right.len() {
        assert(whole[start + by] == right[start]);
        lemma_token_end(right, start);
        if !cjk(right[start]) {
            assert forall|k: int| start <= k < right.len() implies joined(whole, k + by)
                == #[trigger] joined(right, k) by {
                assert(whole[k + by] == right[k]);
                if k > 0 {
                    assert(whole[k + by - 1] == right[k - 1]);
                }
                if k + 1 < right.len() {
                    assert(whole[k + by + 1] == right[k + 1]);
                }
            }
            assert forall|end: int| holds_word(right, start, end) <==> holds_word(
                whole,
                start + by,
                end + by,
            ) by {
                if start < end <= right.len() {
                    assert(whole[end + by - 1] == right[end - 1]);
                    if holds_word(right, start, end) {
                        assert forall|k: int| start + by <= k < end + by implies joined(whole, k) by {
                            assert(joined(right, k - by));
                        }
                    }
                    if holds_word(whole, start + by, end + by) {
                        assert forall|k: int| start <= k < end implies joined(right, k) by {
                            assert(joined(whole, k + by));
                        }
                    }
                }
            }
            lemma_same_word_end(right, whole, start, by);
        }
        let end = token_end(right, start);
        assert(token_end(whole, start + by) == end + by);
        lemma_tokens_after_space(left, space, right, end);
        assert(token_spans(whole, by + from) =~= shifted(token_spans(right, from), by));
    } else {
        assert(token_spans(whole, by + from) =~= shifted(token_spans(right, from), by));
    }
}

proof fn lemma_start_after_space(left: Seq<char>, space: char, right: Seq<char>, from: int)
    requires
        0 <= from <= right.len(),
    ensures
        token_start(left + seq![space] + right, left.len() + 1 + from) == left.len() + 1
            + token_start(right, from),
    decreases right.len() - from,
{
    let whole = left + seq![space] + right;
    if from < right.len() {
        assert(whole[left.len() + 1 + from] == right[from]);
        if !text::alphanumeric(right[from]) {
            lemma_start_after_space(left, space, right, from + 1);
        }
    }
}

proof fn lemma_start_before_space(left: Seq<char>, space: char, right: Seq<char>, from: int)
    requires
        !text::alphanumeric(space),
        space != '\'' && space != '\u{2019}' && space != '.' && space != ',',
        0 <= from <= left.len(),
    ensures
        token_start(left, from) < left.len() ==> token_start(left + seq![space] + right, from)
            == token_start(left, from),
        token_start(left, from) == left.len() ==> token_start(left + seq![space] + right, from)
            == token_start(left + seq![space] + right, left.len() as int + 1),
    decreases left.len() - from,
{
    let whole = left + seq![space] + right;
    lemma_token_start(left, from);
    if from < left.len() {
        assert(whole[from] == left[from]);
        if !text::alphanumeric(left[from]) {
            lemma_start_before_space(left, space, right, from + 1);
        }
    } else {
        assert(whole[left.len() as int] == space);
    }
}

/// A character that is neither a letter nor a digit, nor an apostrophe, a full stop or a
/// comma, separates, whatever stands beside it: the tokens of the whole, from some character
/// before it on, are those of what stands before it and then those of what stands
/// behind it, moved to the right.
pub proof fn splitting_at_a_separator_moves_the_tokens(left: Seq<char>, space: char, right: Seq<char>, from: int)
    requires
        !text::alphanumeric(space),
        space != '\'' && space != '\u{2019}' && space != '.' && space != ',',
        0 <= from <= left.len(),
    ensures
        token_spans(left + seq![space] + right, from) == token_spans(left, from) + shifted(
            token_spans(right, 0),
            left.len() as int + 1,
        ),
    decreases left.len() - from,
{
    let whole = left + seq![space] + right;
    lemma_token_start(left, from);
    lemma_start_before_space(left, space, right, from);
    let start = token_start(left, from);
    if start < left.len() {
        assert(whole[start] == left[start]);
        lemma_token_end(left, start);
        if !cjk(left[start]) {
            assert(whole[left.len() as int] == space);
            assert forall|k: int| 0 <= k < left.len() - 1 implies joined(whole, k)
                == #[trigger] joined(left, k) by {
                assert(whole[k] == left[k]);
                if k > 0 {
                    assert(whole[k - 1] == left[k - 1]);
                }
                assert(whole[k + 1] == left[k + 1]);
            }
            assert(!joined(whole, left.len() as int));
            assert forall|end: int| holds_word(left, start, end) <==> holds_word(
                whole,
                start + 0,
                end + 0,
            ) by {
                if start < end <= left.len() {
                    assert(whole[end - 1] == left[end - 1]);
                    if holds_word(left, start, end) {
                        assert forall|k: int| start <= k < end implies joined(whole, k) by {
                            assert(joined(left, k));
                        }
                    }
                    if holds_word(whole, start, end) {
                        assert forall|k: int| start <= k < end implies joined(left, k) by {
                            assert(joined(whole, k));
                        }
                    }
                } else if end > left.len() {
                    if holds_word(whole, start, end) {
                        assert(joined(whole, left.len() as int));
                    }
                }
            }
            lemma_same_word_end(left, whole, start, 0);
        }
        let end = token_end(left, start);
        assert(token_end(whole, start) == end);
        splitting_at_a_separator_moves_the_tokens(left, space, right, end);
        assert(token_spans(whole, from) =~= token_spans(left, from) + shifted(
            token_spans(right, 0),
            left.len() as int + 1,
        ));
    } else {
        lemma_tokens_after_space(left, space, right, 0);
        lemma_token_start(whole, left.len() as int + 1);
        assert(token_spans(whole, from) =~= token_spans(whole, left.len() as int + 1));
        assert(token_spans(left, from) =~= Seq::<(int, int)>::empty());
        assert(token_spans(whole, from) =~= token_spans(left, from) + shifted(
            token_spans(right, 0),
            left.len() as int + 1,
        ));
    }
}

/// What stands at a cut at a separator: the tokens of the one half come first, as they
/// are, and those of the other follow, their texts unchanged, their offsets raised by
/// what stands before them and their positions by how many came first.
pub proof fn splitting_at_a_separator_moves_offsets_and_positions(
    left: Seq<char>,
    space: char,
    right: Seq<char>,
)
    requires
        !text::alphanumeric(space),
        space != '\'' && space != '\u{2019}' && space != '.' && space != ',',
    ensures
        ({
            let whole = left + seq![space] + right;
            let all = token_spans(whole, 0);
            let l = token_spans(left, 0);
            let r = token_spans(right, 0);
            &&& all.len() == l.len() + r.len()
            &&& forall|token: Token, k: int|
                0 <= k < l.len() ==> (#[trigger] is_token(token, whole, all[k], k) <==> is_token(
                    token,
                    left,
                    l[k],
                    k,
                ))
            &&& forall|token: Token, alone: Token, k: int|
                #![trigger is_token(token, whole, all[l.len() + k], l.len() + k), is_token(alone, right, r[k], k)]
                0 <= k < r.len() && is_token(token, whole, all[l.len() + k], l.len() + k)
                    && is_token(alone, right, r[k], k) ==> {
                    &&& token.text@ == alone.text@
                    &&& token.offset == alone.offset + text::byte_len(left) + text::char_width(
                        space,
                    )
                    &&& token.position == alone.position + l.len()
                }
        }),
{
    let whole = left + seq![space] + right;
    let by = left.len() as int + 1;
    let all = token_spans(whole, 0);
    let l = token_spans(left, 0);
    let r = token_spans(right, 0);
    splitting_at_a_separator_moves_the_tokens(left, space, right, 0);
    tokens_come_in_order(left, 0);
    tokens_come_in_order(right, 0);
    assert forall|k: int| 0 <= k < l.len() implies #[trigger] all[k] == l[k] && text::byte_at(
        whole,
        l[k].0,
    ) == text::byte_at(left, l[k].0) && whole.subrange(l[k].0, l[k].1) == left.subrange(
        l[k].0,
        l[k].1,
    ) by {
        assert(whole.take(l[k].0) =~= left.take(l[k].0));
        assert(whole.subrange(l[k].0, l[k].1) =~= left.subrange(l[k].0, l[k].1));
    }
    assert forall|k: int| 0 <= k < r.len() implies #[trigger] r[k] == (
        all[l.len() + k].0 - by,
        all[l.len() + k].1 - by,
    ) && text::byte_at(whole, r[k].0 + by) == text::byte_at(right, r[k].0) + text::byte_len(left)
        + text::char_width(space) && whole.subrange(r[k].0 + by, r[k].1 + by) == right.subrange(
        r[k].0,
        r[k].1,
    ) by {
        let before = left + seq![space];
        assert(whole.take(r[k].0 + by) =~= before + right.take(r[k].0));
        text::lemma_encode_concat(before, right.take(r[k].0));
        text::lemma_encode_concat(left, seq![space]);
        text::lemma_char_width(space);
        assert(whole.subrange(r[k].0 + by, r[k].1 + by) =~= right.subrange(r[k].0, r[k].1));
    }
}

/// Cutting a text at a separator does not change its terms: they are those of the
/// one half and then those of the other.
pub proof fn splitting_at_a_separator_keeps_the_terms(
    left: Seq<char>,
    space: char,
    right: Seq<char>,
)
    requires
        !text::alphanumeric(space),
        space != '\'' && space != '\u{2019}' && space != '.' && space != ',',
    ensures
        token_texts(left + seq![space] + right) == token_texts(left) + token_texts(right),
        terms(left + seq![space] + right) == terms(left) + terms(right),
{
    let whole = left + seq![space] + right;
    let by = left.len() as int + 1;
    splitting_at_a_separator_moves_the_tokens(left, space, right, 0);
    tokens_come_in_order(left, 0);
    tokens_come_in_order(right, 0);
    let l = token_spans(left, 0);
    let r = token_spans(right, 0);
    assert forall|k: int| 0 <= k < l.len() implies whole.subrange(
        #[trigger] l[k].0,
        l[k].1,
    ) == left.subrange(l[k].0, l[k].1) by {
        assert(whole.subrange(l[k].0, l[k].1) =~= left.subrange(l[k].0, l[k].1));
    }
    assert forall|k: int| 0 <= k < r.len() implies whole.subrange(
        #[trigger] r[k].0 + by,
        r[k].1 + by,
    ) == right.subrange(r[k].0, r[k].1) by {
        assert(whole.subrange(r[k].0 + by, r[k].1 + by) =~= right.subrange(r[k].0, r[k].1));
    }
    assert(token_texts(whole) =~= token_texts(left) + token_texts(right));
    assert(terms(whole) =~= terms(left) + terms(right));
}

/// A white space character separates: the tokens of the whole, from some character
/// before it on, are those of what stands before it and then those of what stands
/// behind it, moved to the right.
pub proof fn splitting_at_white_space_moves_the_tokens(left: Seq<char>, space: char, right: Seq<char>, from: int)
    requires
        text::white_space(space),
        0 <= from <= left.len(),
    ensures
        token_spans(left + seq![space] + right, from) == token_spans(left, from) + shifted(
            token_spans(right, 0),
            left.len() as int + 1,
        ),
{
    splitting_at_a_separator_moves_the_tokens(left, space, right, from);
}

/// What stands at a cut at white space: the tokens of the one half come first, as they
/// are, and those of the other follow, their texts unchanged, their offsets raised by
/// what stands before them and their positions by how many came first.
pub proof fn splitting_at_white_space_moves_offsets_and_positions(
    left: Seq<char>,
    space: char,
    right: Seq<char>,
)
    requires
        text::white_space(space),
    ensures
        ({
            let whole = left + seq![space] + right;
            let all = token_spans(whole, 0);
            let l = token_spans(left, 0);
            let r = token_spans(right, 0);
            &&& all.len() == l.len() + r.len()
            &&& forall|token: Token, k: int|
                0 <= k < l.len() ==> (#[trigger] is_token(token, whole, all[k], k) <==> is_token(
                    token,
                    left,
                    l[k],
                    k,
                ))
            &&& forall|token: Token, alone: Token, k: int|
                #![trigger is_token(token, whole, all[l.len() + k], l.len() + k), is_token(alone, right, r[k], k)]
                0 <= k < r.len() && is_token(token, whole, all[l.len() + k], l.len() + k)
                    && is_token(alone, right, r[k], k) ==> {
                    &&& token.text@ == alone.text@
                    &&& token.offset == alone.offset + text::byte_len(left) + text::char_width(
                        space,
                    )
                    &&& token.position == alone.position + l.len()
                }
        }),
{
    splitting_at_a_separator_moves_offsets_and_positions(left, space, right);
}

/// Cutting a text at white space does not change its terms: they are those of the
/// one half and then those of the other.
pub proof fn splitting_at_white_space_keeps_the_terms(
    left: Seq<char>,
    space: char,
    right: Seq<char>,
)
    requires
        text::white_space(space),
    ensures
        token_texts(left + seq![space] + right) == token_texts(left) + token_texts(right),
        terms(left + seq![space] + right) == terms(left) + terms(right),
{
    splitting_at_a_separator_keeps_the_terms(left, space, right);
}

/// White space before and behind a text changes neither its terms nor their number,
/// and so leaves every position as it was.
pub proof fn padding_keeps_the_terms(before: Seq<char>, chars: Seq<char>, behind: Seq<char>)
    requires
        forall|i: int| 0 <= i < before.len() ==> text::white_space(#[trigger] before[i]),
        forall|i: int| 0 <= i < behind.len() ==> text::white_space(#[trigger] behind[i]),
    ensures
        token_texts(before + chars + behind) == token_texts(chars),
        terms(before + chars + behind) == terms(chars),
    decreases before.len() + behind.len(),
{
    let none = Seq::<char>::empty();
    assert(token_texts(none) =~= Seq::<Seq<char>>::empty());
    assert(terms(none) =~= Seq::<Seq<char>>::empty());
    if before.len() > 0 {
        let rest = before.drop_first();
        padding_keeps_the_terms(rest, chars, behind);
        splitting_at_white_space_keeps_the_terms(none, before[0], rest + chars + behind);
        assert(none + seq![before[0]] + (rest + chars + behind) =~= before + chars + behind);
        assert(token_texts(none) + token_texts(rest + chars + behind) =~= token_texts(
            rest + chars + behind,
        ));
        assert(terms(none) + terms(rest + chars + behind) =~= terms(rest + chars + behind));
    } else if behind.len() > 0 {
        let rest = behind.drop_last();
        padding_keeps_the_terms(before, chars, rest);
        splitting_at_white_space_keeps_the_terms(before + chars + rest, behind.last(), none);
        assert((before + chars + rest) + seq![behind.last()] + none =~= before + chars + behind);
        assert(token_texts(before + chars + rest) + token_texts(none) =~= token_texts(
            before + chars + rest,
        ));
        assert(terms(before + chars + rest) + terms(none) =~= terms(before + chars + rest));
    } else {
        assert(before + chars + behind =~= chars);
    }
}

/// Lowercasing ASCII text gives ASCII text, and lowercasing that changes nothing.
pub proof fn lowercasing_ascii_twice_is_lowercasing_once(chars: Seq<char>)
    requires
        is_ascii_chars(chars),
    ensures
        is_ascii_chars(lowercase(chars)),
        lowercase(lowercase(chars)) == lowercase(chars),
{
    let lowered = lowercase(chars);
    assert forall|i: int| 0 <= i < lowered.len() implies '\0' <= #[trigger] lowered[i]
        <= '\u{7f}' && ascii_lower(lowered[i]) == lowered[i] by {
        assert('\0' <= chars[i] <= '\u{7f}');
    }
    assert(lowered.map_values(|c: char| ascii_lower(c)) =~= lowered);
}

} // verus!
