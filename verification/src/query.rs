//! The query language: splitting a query into lexemes.
//!
//! | Written | Means |
//! | --- | --- |
//! | `quantum` | a term |
//! | `comp*` | every term starting with `comp` |
//! | `"error correction"` | those terms, adjacent, in order |
//! | `'error correction'` | exactly the same |
//! | `a NEAR/3 b` | within three positions, either order |
//! | `a ONEAR/3 b` | within three positions, `a` first |
//! | `AND` `OR` `NOT` | Boolean operators, uppercase only |
//! | `(` `)` | grouping |
//!
//! Both quote characters delimit a phrase, so that one of them gets through every
//! shell unescaped. Operators are uppercase only, so `and` stays a searchable word.
//!
//! An apostrophe that begins a lexeme opens a phrase and one inside a word belongs to
//! the word: `'a phrase'` quotes and `don't` does not.
//!
//! Every lexeme carries the bytes it came from, so an error can point at the text that
//! caused it.
//!
//! What a query means lexically, [`lexed`] says over the query's characters.

use crate::error::Error;
use crate::text;
use crate::tokenize;
use crate::whitespace;
use vstd::prelude::*;
use vstd::std_specs::iter::IteratorSpec;
use vstd::string::*;
use vstd::utf8::*;

verus! {

/// A byte range within the query text, from `start` to before `end`.
#[derive(Debug, Clone, Copy, PartialEq, Eq)]
pub struct Span {
    /// Byte offset of the first character.
    pub start: usize,
    /// Byte offset one past the last character.
    pub end: usize,
}

/// One unit of a query, with the text it came from.
#[derive(Debug, Clone, PartialEq, Eq)]
pub struct Lexeme {
    /// What the unit is.
    pub kind: LexemeKind,
    /// Where it was written.
    pub span: Span,
}

/// The kinds of thing a query can be made of.
#[derive(Debug, Clone, PartialEq, Eq)]
pub enum LexemeKind {
    /// A single term, already normalized the way the index stores it.
    Term(String),
    /// A prefix wildcard: the stem of `comp*`, normalized.
    Prefix(String),
    /// A sequence of terms that must appear adjacent and in order. Comes of quoting,
    /// and of writing a word the tokenizer splits, such as `state-of-the-art`.
    Phrase(Vec<String>),
    /// `AND`
    And,
    /// `OR`
    Or,
    /// `NOT`
    Not,
    /// `NEAR/k` or `ONEAR/k`.
    Near {
        /// How many positions apart the two operands may be, at most.
        distance: u32,
        /// Whether the left operand must come first.
        ordered: bool,
    },
    /// `(`
    LeftParen,
    /// `)`
    RightParen,
}

/// What a [`LexemeKind`] holds.
pub enum Kind {
    Term(Seq<char>),
    Prefix(Seq<char>),
    Phrase(Seq<Seq<char>>),
    And,
    Or,
    Not,
    Near { distance: u32, ordered: bool },
    LeftParen,
    RightParen,
}

/// What a [`Lexeme`] holds.
pub struct LexemeView {
    pub kind: Kind,
    pub start: nat,
    pub end: nat,
}

/// Why some terms are nothing that can be asked for.
#[derive(Debug, Clone, Copy, PartialEq, Eq)]
pub enum TermFault {
    /// There are none.
    NothingSearchable,
    /// There are several, and a wildcard follows them.
    SeveralTerms,
}

/// What is wrong with a query, and with which bytes of it.
pub struct Fault {
    pub offset: nat,
    pub length: nat,
    pub message: Seq<char>,
}

impl View for LexemeKind {
    type V = Kind;

    open spec fn view(&self) -> Kind {
        match self {
            LexemeKind::Term(term) => Kind::Term(term@),
            LexemeKind::Prefix(stem) => Kind::Prefix(stem@),
            LexemeKind::Phrase(terms) => Kind::Phrase(terms@.map_values(|term: String| term@)),
            LexemeKind::And => Kind::And,
            LexemeKind::Or => Kind::Or,
            LexemeKind::Not => Kind::Not,
            LexemeKind::Near { distance, ordered } => Kind::Near {
                distance: *distance,
                ordered: *ordered,
            },
            LexemeKind::LeftParen => Kind::LeftParen,
            LexemeKind::RightParen => Kind::RightParen,
        }
    }
}

impl View for Lexeme {
    type V = LexemeView;

    open spec fn view(&self) -> LexemeView {
        LexemeView { kind: self.kind@, start: self.span.start as nat, end: self.span.end as nat }
    }
}

/// Whether `error` reports `fault`.
pub open spec fn reports(error: Error, fault: Fault) -> bool {
    error matches Error::Query { offset, length, message } && offset == fault.offset && length
        == fault.length && message@ == fault.message
}

/// The first `wanted` from `from` on, or the end.
pub open spec fn first_of(chars: Seq<char>, from: int, wanted: char) -> int
    decreases chars.len() - from,
{
    if from >= chars.len() {
        chars.len() as int
    } else if chars[from] == wanted {
        from
    } else {
        first_of(chars, from + 1, wanted)
    }
}

/// Whether `c` opens a phrase where a lexeme begins.
pub open spec fn opens_phrase(c: char) -> bool {
    c == '"' || c == '\'' || c == '\u{2019}'
}

/// Whether `c` ends a bare word. An apostrophe does not: it sits inside words.
pub open spec fn ends_word(c: char) -> bool {
    text::white_space(c) || c == '(' || c == ')' || c == '"'
}

/// The end of the bare word that `from` is in.
pub open spec fn bare_word_end(chars: Seq<char>, from: int) -> int
    decreases chars.len() - from,
{
    if from >= chars.len() {
        chars.len() as int
    } else if ends_word(chars[from]) {
        from
    } else {
        bare_word_end(chars, from + 1)
    }
}

/// The end of the lexeme that starts at `start`.
pub open spec fn lexeme_end(chars: Seq<char>, start: int) -> int {
    let c = chars[start];
    if c == '(' || c == ')' {
        start + 1
    } else if opens_phrase(c) {
        first_of(chars, start + 1, c) + 1
    } else {
        bare_word_end(chars, start)
    }
}

/// The lexeme that starts at `start`, or what is wrong with it.
pub open spec fn lexeme_at(chars: Seq<char>, start: int) -> Result<LexemeView, Fault> {
    let c = chars[start];
    let offset = text::byte_at(chars, start);
    if c == '(' {
        Ok(LexemeView { kind: Kind::LeftParen, start: offset, end: offset + 1 })
    } else if c == ')' {
        Ok(LexemeView { kind: Kind::RightParen, start: offset, end: offset + 1 })
    } else if opens_phrase(c) {
        phrase_at(chars, start)
    } else {
        word_lexeme(chars.subrange(start, bare_word_end(chars, start)), offset)
    }
}

/// What is asked for by text that the tokenizer split into `terms`: one term, a prefix
/// where a wildcard follows it, or a phrase of several.
pub open spec fn kind_of(terms: Seq<Seq<char>>, wildcard: bool) -> Result<Kind, TermFault> {
    if terms.len() == 0 {
        Err(TermFault::NothingSearchable)
    } else if terms.len() == 1 {
        if wildcard {
            Ok(Kind::Prefix(terms[0]))
        } else {
            Ok(Kind::Term(terms[0]))
        }
    } else if wildcard {
        Err(TermFault::SeveralTerms)
    } else {
        Ok(Kind::Phrase(terms))
    }
}

/// The phrase whose opening quote is at `start`. The same character closes it.
pub open spec fn phrase_at(chars: Seq<char>, start: int) -> Result<LexemeView, Fault> {
    let quote = chars[start];
    let close = first_of(chars, start + 1, quote);
    let offset = text::byte_at(chars, start);
    if close >= chars.len() {
        Err(
            Fault {
                offset,
                length: (text::byte_len(chars) - offset) as nat,
                message: "this phrase is never closed — add a matching "@ + seq![quote],
            },
        )
    } else {
        let end = text::byte_at(chars, close + 1);
        match kind_of(tokenize::terms(chars.subrange(start + 1, close)), false) {
            Err(_) => Err(
                Fault {
                    offset,
                    length: (end - offset) as nat,
                    message: "this phrase has no searchable terms in it"@,
                },
            ),
            Ok(kind) => Ok(LexemeView { kind, start: offset, end }),
        }
    }
}

/// A bare word that starts at byte `offset`: an operator, a wildcard, or a term.
pub open spec fn word_lexeme(word: Seq<char>, offset: nat) -> Result<LexemeView, Fault> {
    let end = offset + text::byte_len(word);
    if word == "AND"@ {
        Ok(LexemeView { kind: Kind::And, start: offset, end })
    } else if word == "OR"@ {
        Ok(LexemeView { kind: Kind::Or, start: offset, end })
    } else if word == "NOT"@ {
        Ok(LexemeView { kind: Kind::Not, start: offset, end })
    } else if word == "NEAR"@ || word == "ONEAR"@ {
        Err(
            Fault {
                offset,
                length: text::byte_len(word),
                message: word + " needs a distance, as in "@ + word + "/3"@,
            },
        )
    } else if "NEAR/"@.is_prefix_of(word) {
        near_lexeme(word.skip("NEAR/"@.len() as int), false, offset, end)
    } else if "ONEAR/"@.is_prefix_of(word) {
        near_lexeme(word.skip("ONEAR/"@.len() as int), true, offset, end)
    } else {
        term_lexeme(word, offset)
    }
}

/// `NEAR/` or `ONEAR/` with `distance` behind the slash.
pub open spec fn near_lexeme(distance: Seq<char>, ordered: bool, start: nat, end: nat) -> Result<
    LexemeView,
    Fault,
> {
    match u32_value(distance) {
        None => Err(
            Fault {
                offset: start,
                length: (end - start) as nat,
                message: debug_text(distance)
                    + " is not a distance — write a whole number, as in NEAR/3"@,
            },
        ),
        Some(value) => if value == 0 {
            Err(
                Fault {
                    offset: start,
                    length: (end - start) as nat,
                    message:
                        "a distance of 0 can never match, since two terms cannot share a position"@,
                },
            )
        } else {
            Ok(LexemeView { kind: Kind::Near { distance: value, ordered }, start, end })
        },
    }
}

/// A bare word that is no operator: a term, or a prefix wildcard where it ends in `*`.
pub open spec fn term_lexeme(word: Seq<char>, offset: nat) -> Result<LexemeView, Fault> {
    let star = first_of(word, 0, '*');
    let length = text::byte_len(word);
    let wildcard = star == word.len() - 1;
    let stem = word.take(star);
    if star < word.len() - 1 {
        Err(
            Fault {
                offset: offset + text::byte_at(word, star),
                length: 1,
                message: "a wildcard is only supported at the end of a term"@,
            },
        )
    } else {
        match kind_of(tokenize::terms(stem), wildcard) {
            Err(TermFault::NothingSearchable) => Err(
                Fault {
                    offset,
                    length,
                    message: debug_text(word) + " has no searchable characters in it"@,
                },
            ),
            Err(TermFault::SeveralTerms) => Err(
                Fault {
                    offset,
                    length,
                    message: debug_text(word)
                        + " splits into several terms, so the wildcard has nothing to attach to"@,
                },
            ),
            Ok(kind) => Ok(LexemeView { kind, start: offset, end: offset + length }),
        }
    }
}

/// The lexemes from character `from` on, or the first thing that is wrong.
pub open spec fn lexed_from(chars: Seq<char>, from: int) -> Result<Seq<LexemeView>, Fault>
    decreases chars.len() - from,
    when 0 <= from
{
    proof {
        if from < chars.len() {
            lemma_lexeme_end(chars, from);
        }
    }
    if from >= chars.len() {
        Ok(seq![])
    } else if text::white_space(chars[from]) {
        lexed_from(chars, from + 1)
    } else {
        match lexeme_at(chars, from) {
            Err(fault) => Err(fault),
            Ok(lexeme) => match lexed_from(chars, lexeme_end(chars, from)) {
                Err(fault) => Err(fault),
                Ok(rest) => Ok(seq![lexeme] + rest),
            },
        }
    }
}

/// The lexemes of a query, or the first thing that is wrong with it.
pub open spec fn lexed(query: Seq<char>) -> Result<Seq<LexemeView>, Fault> {
    lexed_from(query, 0)
}

pub open spec fn all_digits(chars: Seq<char>) -> bool {
    forall|i: int| 0 <= i < chars.len() ==> text::ascii_digit(#[trigger] chars[i])
}

/// The number that decimal digits spell.
pub open spec fn digits_value(chars: Seq<char>) -> nat
    decreases chars.len(),
{
    if chars.len() == 0 {
        0
    } else {
        digits_value(chars.drop_last()) * 10 + (chars.last() as nat - 48) as nat
    }
}

/// The `u32` that `chars` spells: an optional `+` and decimal digits, at least one.
pub open spec fn u32_value(chars: Seq<char>) -> Option<u32> {
    let digits = if chars.len() > 0 && chars[0] == '+' {
        chars.skip(1)
    } else {
        chars
    };
    if digits.len() > 0 && all_digits(digits) && digits_value(digits) <= u32::MAX {
        Some(digits_value(digits) as u32)
    } else {
        None
    }
}

/// What `{:?}` makes of a text: quoted, with escapes.
pub uninterp spec fn debug_text(chars: Seq<char>) -> Seq<char>;

/// `format!` with `{:?}` shows a `str` by its characters alone: quoted, with escapes.
#[verifier::external_body]
fn debug_of(string: &str) -> (shown: String)
    ensures
        shown@ == debug_text(string@),
{
    format!("{string:?}")
}

pub proof fn lemma_first_of(chars: Seq<char>, from: int, wanted: char)
    requires
        0 <= from,
    ensures
        from <= chars.len() ==> from <= first_of(chars, from, wanted) <= chars.len(),
        first_of(chars, from, wanted) <= chars.len(),
        first_of(chars, from, wanted) < chars.len() ==> from <= first_of(chars, from, wanted)
            && chars[first_of(chars, from, wanted)] == wanted,
        forall|k: int|
            from <= k < first_of(chars, from, wanted) ==> #[trigger] chars[k] != wanted,
    decreases chars.len() - from,
{
    if from < chars.len() && chars[from] != wanted {
        lemma_first_of(chars, from + 1, wanted);
    }
}

pub proof fn lemma_bare_word_end(chars: Seq<char>, from: int)
    requires
        0 <= from,
    ensures
        from <= chars.len() ==> from <= bare_word_end(chars, from) <= chars.len(),
        bare_word_end(chars, from) <= chars.len(),
        from < chars.len() && !ends_word(chars[from]) ==> from < bare_word_end(chars, from),
    decreases chars.len() - from,
{
    if from < chars.len() && !ends_word(chars[from]) {
        lemma_bare_word_end(chars, from + 1);
    }
}

/// A lexeme takes at least one character.
pub proof fn lemma_lexeme_end(chars: Seq<char>, start: int)
    requires
        0 <= start < chars.len(),
    ensures
        !text::white_space(chars[start]) ==> start < lexeme_end(chars, start),
        !text::white_space(chars[start]) && lexeme_at(chars, start) is Ok ==> lexeme_end(
            chars,
            start,
        ) <= chars.len(),
{
    lemma_first_of(chars, start + 1, chars[start]);
    lemma_bare_word_end(chars, start);
}

impl Span {
    /// A span from `start` to before `end`.
    pub fn new(start: usize, end: usize) -> (span: Span)
        ensures
            span.start == start,
            span.end == end,
    {
        Span { start, end }
    }

    /// How many bytes the span covers.
    pub fn len(&self) -> (length: usize)
        requires
            self.start <= self.end,
        ensures
            length == self.end - self.start,
    {
        self.end - self.start
    }

    /// Whether the span covers nothing.
    pub fn is_empty(&self) -> (empty: bool)
        ensures
            empty == (self.start >= self.end),
    {
        self.start >= self.end
    }

    /// The text this span refers to. The span lies on character boundaries of `query`,
    /// as every span does that was lexed from that query.
    pub fn of<'a>(&self, query: &'a str) -> (part: &'a str)
        requires
            self.start <= self.end,
            is_char_boundary(encode_utf8(query@), self.start as int),
            is_char_boundary(encode_utf8(query@), self.end as int),
        ensures
            encode_utf8(part@) == encode_utf8(query@).subrange(
                self.start as int,
                self.end as int,
            ),
            part@ == query@.subrange(
                text::index_at(query@, self.start as int),
                text::index_at(query@, self.end as int),
            ),
    {
        let ghost i = text::lemma_boundary_is_byte_at(query@, self.start as int);
        let ghost j = text::lemma_boundary_is_byte_at(query@, self.end as int);
        proof {
            text::lemma_index_at(query@, i);
            text::lemma_index_at(query@, j);
            if j < i {
                text::lemma_byte_at_monotone(query@, j, i);
            }
            text::lemma_byte_range(query@, i, j);
        }
        text::slice(query, self.start, self.end, Ghost(i), Ghost(j))
    }

    /// `start..end`.
    pub fn to_string(&self) -> (shown: String)
        ensures
            shown@ == text::decimal(self.start as nat) + ".."@ + text::decimal(self.end as nat),
    {
        let mut shown = String::new();
        text::push_decimal(&mut shown, self.start as u64);
        shown.append("..");
        text::push_decimal(&mut shown, self.end as u64);
        proof {
            assert(shown@ =~= text::decimal(self.start as nat) + ".."@ + text::decimal(
                self.end as nat,
            ));
        }
        shown
    }
}

/// How a lexeme is shown.
pub open spec fn shown_kind(kind: Kind) -> Seq<char> {
    match kind {
        Kind::Term(term) => term,
        Kind::Prefix(stem) => stem + "*"@,
        Kind::Phrase(terms) => "\""@ + whitespace::spaced(terms) + "\""@,
        Kind::And => "AND"@,
        Kind::Or => "OR"@,
        Kind::Not => "NOT"@,
        Kind::Near { distance, ordered } => (if ordered {
            "ONEAR/"@
        } else {
            "NEAR/"@
        }) + text::decimal(distance as nat),
        Kind::LeftParen => "("@,
        Kind::RightParen => ")"@,
    }
}

impl LexemeKind {
    /// Something close to what was written.
    pub fn to_string(&self) -> (shown: String)
        ensures
            shown@ == shown_kind(self@),
    {
        let mut shown = String::new();
        match self {
            LexemeKind::Term(term) => {
                shown.append(term.as_str());
            },
            LexemeKind::Prefix(stem) => {
                shown.append(stem.as_str());
                shown.append("*");
            },
            LexemeKind::Phrase(terms) => {
                shown.append("\"");
                push_spaced(&mut shown, terms);
                shown.append("\"");
            },
            LexemeKind::And => {
                shown.append("AND");
            },
            LexemeKind::Or => {
                shown.append("OR");
            },
            LexemeKind::Not => {
                shown.append("NOT");
            },
            LexemeKind::Near { distance, ordered } => {
                if *ordered {
                    shown.append("ONEAR/");
                } else {
                    shown.append("NEAR/");
                }
                text::push_decimal(&mut shown, *distance as u64);
            },
            LexemeKind::LeftParen => {
                shown.append("(");
            },
            LexemeKind::RightParen => {
                shown.append(")");
            },
        }
        proof {
            assert(shown@ =~= shown_kind(self@));
        }
        shown
    }

    /// A short name for the kind, for error messages.
    pub fn describe(&self) -> (name: &'static str)
        ensures
            name@ == (match self@ {
                Kind::Term(_) => "a term"@,
                Kind::Prefix(_) => "a prefix wildcard"@,
                Kind::Phrase(_) => "a phrase"@,
                Kind::And | Kind::Or | Kind::Not => "an operator"@,
                Kind::Near { .. } => "a proximity operator"@,
                Kind::LeftParen => "an opening parenthesis"@,
                Kind::RightParen => "a closing parenthesis"@,
            }),
    {
        match self {
            LexemeKind::Term(_) => "a term",
            LexemeKind::Prefix(_) => "a prefix wildcard",
            LexemeKind::Phrase(_) => "a phrase",
            LexemeKind::And | LexemeKind::Or | LexemeKind::Not => "an operator",
            LexemeKind::Near { .. } => "a proximity operator",
            LexemeKind::LeftParen => "an opening parenthesis",
            LexemeKind::RightParen => "a closing parenthesis",
        }
    }
}

impl Lexeme {
    /// Something close to what was written.
    pub fn to_string(&self) -> (shown: String)
        ensures
            shown@ == shown_kind(self.kind@),
    {
        self.kind.to_string()
    }
}

/// Appends `terms` with one space between them.
fn push_spaced(out: &mut String, terms: &Vec<String>)
    ensures
        final(out)@ == old(out)@ + whitespace::spaced(terms@.map_values(|term: String| term@)),
{
    let ghost before = out@;
    let ghost all = terms@.map_values(|term: String| term@);
    let mut index: usize = 0;
    proof {
        assert(all.take(0) =~= Seq::<Seq<char>>::empty());
        assert(before + whitespace::spaced(all.take(0)) =~= before);
    }
    while index < terms.len()
        invariant
            index <= terms@.len(),
            all == terms@.map_values(|term: String| term@),
            out@ == before + whitespace::spaced(all.take(index as int)),
        decreases terms@.len() - index,
    {
        proof {
            assert(all.take(index + 1).drop_last() =~= all.take(index as int));
            assert(all.take(index + 1).last() == terms@[index as int]@);
        }
        if index > 0 {
            out.append(" ");
        }
        out.append(terms[index].as_str());
        proof {
            reveal_strlit(" ");
            assert(" "@ =~= seq![' ']);
            assert(out@ =~= before + whitespace::spaced(all.take(index + 1)));
        }
        index += 1;
    }
    proof {
        assert(all.take(index as int) =~= all);
    }
}

/// The byte offset of the first `wanted` from byte `offset` on, or the length.
fn find_char(string: &str, offset: usize, wanted: char, Ghost(from): Ghost<int>) -> (found: usize)
    requires
        0 <= from <= string@.len(),
        offset == text::byte_at(string@, from),
    ensures
        found == text::byte_at(string@, first_of(string@, from, wanted)),
{
    let ghost chars = string@;
    let length: usize = text::length_of(string);
    let mut index: usize = offset;
    let ghost mut k = from;
    while index < length
        invariant
            chars == string@,
            length == text::byte_len(chars),
            0 <= k <= chars.len(),
            index == text::byte_at(chars, k),
            first_of(chars, from, wanted) == first_of(chars, k, wanted),
        decreases chars.len() - k,
    {
        proof {
            text::lemma_byte_at(chars, k);
            text::lemma_byte_at_step(chars, k);
        }
        let character = text::char_at(string, index, Ghost(k));
        if character == wanted {
            return index;
        }
        index += text::width_of(character);
        proof {
            k = k + 1;
        }
    }
    proof {
        text::lemma_byte_at(chars, k);
    }
    index
}

/// The byte offset of the end of the bare word that byte `offset` is in.
fn find_word_end(string: &str, offset: usize, Ghost(from): Ghost<int>) -> (found: usize)
    requires
        0 <= from <= string@.len(),
        offset == text::byte_at(string@, from),
    ensures
        found == text::byte_at(string@, bare_word_end(string@, from)),
{
    let ghost chars = string@;
    let length: usize = text::length_of(string);
    let mut index: usize = offset;
    let ghost mut k = from;
    while index < length
        invariant
            chars == string@,
            length == text::byte_len(chars),
            0 <= k <= chars.len(),
            index == text::byte_at(chars, k),
            bare_word_end(chars, from) == bare_word_end(chars, k),
        decreases chars.len() - k,
    {
        proof {
            text::lemma_byte_at(chars, k);
            text::lemma_byte_at_step(chars, k);
        }
        let character = text::char_at(string, index, Ghost(k));
        if text::is_white_space(character) || character == '(' || character == ')' || character
            == '"' {
            return index;
        }
        index += text::width_of(character);
        proof {
            k = k + 1;
        }
    }
    proof {
        text::lemma_byte_at(chars, k);
    }
    index
}

/// What stands behind `prefix` in `string`, where `string` starts with it.
fn strip_prefix<'a>(string: &'a str, prefix: &str) -> (rest: Option<&'a str>)
    ensures
        match rest {
            Some(rest) => prefix@.is_prefix_of(string@) && rest@ == string@.skip(
                prefix@.len() as int,
            ),
            None => !prefix@.is_prefix_of(string@),
        },
{
    let mut ours = string.chars();
    let mut theirs = prefix.chars();
    let ghost mut k: int = 0;
    proof {
        assert(string@.skip(0) =~= string@);
        assert(prefix@.skip(0) =~= prefix@);
    }
    loop
        invariant
            0 <= k <= prefix@.len(),
            k <= string@.len(),
            ours.remaining() == string@.skip(k),
            theirs.remaining() == prefix@.skip(k),
            forall|m: int| 0 <= m < k ==> string@[m] == prefix@[m],
        decreases prefix@.len() - k,
    {
        match theirs.next() {
            None => {
                proof {
                    assert(prefix@ =~= string@.take(k));
                    text::lemma_byte_at(string@, k);
                }
                return Some(text::suffix(string, text::length_of(prefix), Ghost(k)));
            },
            Some(wanted) => {
                let ghost before = string@.skip(k);
                match ours.next() {
                    None => {
                        return None;
                    },
                    Some(found) => {
                        proof {
                            assert(before[0] == string@[k]);
                            assert(prefix@.skip(k)[0] == prefix@[k]);
                        }
                        if found != wanted {
                            return None;
                        }
                        proof {
                            assert(string@.skip(k).drop_first() =~= string@.skip(k + 1));
                            assert(prefix@.skip(k).drop_first() =~= prefix@.skip(k + 1));
                            k = k + 1;
                        }
                    },
                }
            },
        }
    }
}

/// Whether an outcome is the one that was stated.
pub open spec fn agrees(outcome: Result<Lexeme, Error>, stated: Result<LexemeView, Fault>) -> bool {
    match (outcome, stated) {
        (Ok(lexeme), Ok(view)) => lexeme@ == view,
        (Err(error), Err(fault)) => reports(error, fault),
        _ => false,
    }
}

fn query_error(span: Span, message: String) -> (error: Error)
    requires
        span.start <= span.end,
    ensures
        reports(
            error,
            (Fault {
                offset: span.start as nat,
                length: (span.end - span.start) as nat,
                message: message@,
            }),
        ),
{
    Error::Query { offset: span.start, length: span.len(), message }
}

proof fn lemma_digits_value_grows(chars: Seq<char>, k: int)
    requires
        0 <= k <= chars.len(),
        all_digits(chars),
    ensures
        digits_value(chars.take(k)) <= digits_value(chars),
    decreases chars.len() - k,
{
    if k < chars.len() {
        lemma_digits_value_grows(chars, k + 1);
        assert(chars.take(k + 1).drop_last() =~= chars.take(k));
        assert(text::ascii_digit(chars[k]));
    } else {
        assert(chars.take(k) =~= chars);
    }
}

/// The number that `string` spells, if it spells one that fits.
pub fn parse_u32(string: &str) -> (parsed: Option<u32>)
    ensures
        parsed == u32_value(string@),
{
    let ghost chars = string@;
    let mut characters = string.chars();
    let mut next: Option<char> = characters.next();
    let ghost mut digits = chars;
    proof {
        assert(chars.drop_first() =~= chars.skip(1));
    }
    match next {
        Some('+') => {
            next = characters.next();
            proof {
                digits = chars.skip(1);
            }
        },
        _ => {},
    }
    if next.is_none() {
        return None;
    }
    let mut value: u64 = 0;
    let ghost mut k: int = 0;
    proof {
        assert(digits.drop_first() =~= digits.skip(1));
        assert(digits.take(0) =~= Seq::<char>::empty());
    }
    loop
        invariant
            digits == (if chars.len() > 0 && chars[0] == '+' {
                chars.skip(1)
            } else {
                chars
            }),
            chars == string@,
            digits.len() > 0,
            0 <= k <= digits.len(),
            next == (if k < digits.len() {
                Some(digits[k])
            } else {
                None
            }),
            k < digits.len() ==> characters.remaining() == digits.skip(k + 1),
            value == digits_value(digits.take(k)),
            value <= u32::MAX,
            all_digits(digits.take(k)),
        decreases digits.len() - k,
    {
        match next {
            None => {
                proof {
                    assert(digits.take(k) =~= digits);
                }
                return Some(value as u32);
            },
            Some(digit) => {
                if digit < '0' || '9' < digit {
                    proof {
                        assert(!text::ascii_digit(digits[k]));
                    }
                    return None;
                }
                let code: u32 = digit as u32;
                value = value * 10 + (code - 48) as u64;
                proof {
                    assert(digits.take(k + 1).drop_last() =~= digits.take(k));
                    assert(value == digits_value(digits.take(k + 1)));
                }
                if value > u32::MAX as u64 {
                    proof {
                        if all_digits(digits) {
                            lemma_digits_value_grows(digits, k + 1);
                        }
                    }
                    return None;
                }
                next = characters.next();
                proof {
                    assert forall|m: int| 0 <= m < k + 1 implies text::ascii_digit(
                        #[trigger] digits.take(k + 1)[m],
                    ) by {
                        if m < k {
                            assert(digits.take(k)[m] == digits.take(k + 1)[m]);
                        }
                    }
                    if k + 1 < digits.len() {
                        assert(digits.skip(k + 1)[0] == digits[k + 1]);
                        assert(digits.skip(k + 1).drop_first() =~= digits.skip(k + 2));
                    }
                    k = k + 1;
                }
            },
        }
    }
}

/// Takes the only term out of a list of one.
fn only(terms: Vec<String>) -> (term: String)
    requires
        terms@.len() == 1,
    ensures
        term@ == terms@[0]@,
{
    terms[0].clone()
}

/// What is asked for by text that the tokenizer split into `terms`.
///
/// A one-word phrase is just that word. `state-of-the-art` is four terms in the index,
/// so it is a phrase here.
pub fn kind_of_terms(terms: Vec<String>, wildcard: bool) -> (kind: Result<LexemeKind, TermFault>)
    ensures
        match (kind, kind_of(terms@.map_values(|term: String| term@), wildcard)) {
            (Ok(kind), Ok(view)) => kind@ == view,
            (Err(fault), Err(stated)) => fault == stated,
            _ => false,
        },
{
    if terms.len() == 0 {
        Err(TermFault::NothingSearchable)
    } else if terms.len() == 1 {
        if wildcard {
            Ok(LexemeKind::Prefix(only(terms)))
        } else {
            Ok(LexemeKind::Term(only(terms)))
        }
    } else if wildcard {
        Err(TermFault::SeveralTerms)
    } else {
        Ok(LexemeKind::Phrase(terms))
    }
}

/// Reads a quoted phrase, starting at the opening quote, and goes on behind the closing
/// one. Where there is none, it stays.
fn lex_phrase(query: &str, offset: &mut usize, quote: char, Ghost(first): Ghost<int>) -> (lexeme:
    Result<Lexeme, Error>)
    requires
        0 <= first < query@.len(),
        *old(offset) == text::byte_at(query@, first),
        quote == query@[first],
        opens_phrase(quote),
    ensures
        agrees(lexeme, phrase_at(query@, first)),
        *final(offset) == (if first_of(query@, first + 1, quote) >= query@.len() {
            *old(offset) as nat
        } else {
            text::byte_at(query@, lexeme_end(query@, first))
        }),
{
    let ghost chars = query@;
    let start: usize = *offset;
    let length: usize = text::length_of(query);
    proof {
        text::lemma_byte_at_step(chars, first);
        text::lemma_byte_at(chars, first);
        lemma_first_of(chars, first + 1, quote);
    }
    let ghost close = first_of(chars, first + 1, quote);
    let after_quote: usize = start + text::width_of(quote);
    let end_quote: usize = find_char(query, after_quote, quote, Ghost(first + 1));
    proof {
        text::lemma_byte_at(chars, close);
    }
    if end_quote >= length {
        let mut message = String::new();
        message.append("this phrase is never closed — add a matching ");
        message.push(quote);
        proof {
            assert(message@ =~= "this phrase is never closed — add a matching "@ + seq![quote]);
        }
        return Err(query_error(Span::new(start, length), message));
    }
    let contents = text::slice(query, after_quote, end_quote, Ghost(first + 1), Ghost(close));
    proof {
        text::lemma_byte_at_step(chars, close);
        text::lemma_byte_at_monotone(chars, first, close + 1);
    }
    let end: usize = end_quote + text::width_of(quote);
    *offset = end;
    let span = Span::new(start, end);
    match kind_of_terms(tokenize::terms_of(contents), false) {
        Ok(kind) => Ok(Lexeme { kind, span }),
        Err(_) => Err(query_error(span, "this phrase has no searchable terms in it".to_owned())),
    }
}

/// Reads a bare word: an operator, a wildcard, or a term.
fn lex_word(query: &str, offset: &mut usize, Ghost(first): Ghost<int>) -> (lexeme: Result<
    Lexeme,
    Error,
>)
    requires
        0 <= first < query@.len(),
        *old(offset) == text::byte_at(query@, first),
    ensures
        agrees(
            lexeme,
            word_lexeme(
                query@.subrange(first, bare_word_end(query@, first)),
                text::byte_at(query@, first),
            ),
        ),
        *final(offset) == text::byte_at(query@, bare_word_end(query@, first)),
{
    let ghost chars = query@;
    let ghost last = bare_word_end(chars, first);
    let start: usize = *offset;
    proof {
        lemma_bare_word_end(chars, first);
        text::lemma_byte_at_monotone(chars, first, last);
    }
    let end: usize = find_word_end(query, start, Ghost(first));
    let word = text::slice(query, start, end, Ghost(first), Ghost(last));
    *offset = end;
    let span = Span::new(start, end);
    // Operators are uppercase only, so `and` stays a searchable word.
    if text::same_text(word, "AND") {
        return Ok(Lexeme { kind: LexemeKind::And, span });
    }
    if text::same_text(word, "OR") {
        return Ok(Lexeme { kind: LexemeKind::Or, span });
    }
    if text::same_text(word, "NOT") {
        return Ok(Lexeme { kind: LexemeKind::Not, span });
    }
    if text::same_text(word, "NEAR") || text::same_text(word, "ONEAR") {
        let mut message = word.to_owned();
        message.append(" needs a distance, as in ");
        message.append(word);
        message.append("/3");
        return Err(query_error(span, message));
    }
    if let Some(distance) = strip_prefix(word, "NEAR/") {
        return lex_near(distance, false, span);
    }
    if let Some(distance) = strip_prefix(word, "ONEAR/") {
        return lex_near(distance, true, span);
    }
    lex_term(word, span)
}

/// Reads what stands behind `NEAR/` or `ONEAR/`.
fn lex_near(distance: &str, ordered: bool, span: Span) -> (lexeme: Result<Lexeme, Error>)
    requires
        span.start <= span.end,
    ensures
        agrees(lexeme, near_lexeme(distance@, ordered, span.start as nat, span.end as nat)),
{
    match parse_u32(distance) {
        None => {
            let mut message = debug_of(distance);
            message.append(" is not a distance — write a whole number, as in NEAR/3");
            Err(query_error(span, message))
        },
        Some(distance) => {
            if distance == 0 {
                Err(
                    query_error(
                        span,
                        "a distance of 0 can never match, since two terms cannot share a position".to_owned(),
                    ),
                )
            } else {
                Ok(Lexeme { kind: LexemeKind::Near { distance, ordered }, span })
            }
        },
    }
}

/// Reads a term or a prefix wildcard.
fn lex_term(word: &str, span: Span) -> (lexeme: Result<Lexeme, Error>)
    requires
        span.end == span.start + text::byte_len(word@),
    ensures
        agrees(lexeme, term_lexeme(word@, span.start as nat)),
{
    let ghost chars = word@;
    let ghost star = first_of(chars, 0, '*');
    let length: usize = text::length_of(word);
    proof {
        text::lemma_byte_at(chars, 0);
        lemma_first_of(chars, 0, '*');
        text::lemma_byte_at(chars, star);
    }
    let inner: usize = find_char(word, 0, '*', Ghost(0));
    let wildcard: bool = inner < length;
    if wildcard {
        proof {
            text::lemma_byte_at_step(chars, star);
            text::lemma_byte_at(chars, star + 1);
            text::lemma_char_width('*');
        }
        if inner + 1 < length {
            return Err(
                query_error(
                    Span::new(span.start + inner, span.start + inner + 1),
                    "a wildcard is only supported at the end of a term".to_owned(),
                ),
            );
        }
    }
    // The tokenizer the corpus went through, so that a query term is split the way the
    // indexed term was.
    let stem = text::slice(word, 0, inner, Ghost(0), Ghost(star));
    proof {
        assert(chars.subrange(0, star) =~= chars.take(star));
    }
    match kind_of_terms(tokenize::terms_of(stem), wildcard) {
        Ok(kind) => Ok(Lexeme { kind, span }),
        Err(TermFault::NothingSearchable) => {
            let mut message = debug_of(word);
            message.append(" has no searchable characters in it");
            Err(query_error(span, message))
        },
        Err(TermFault::SeveralTerms) => {
            let mut message = debug_of(word);
            message.append(
                " splits into several terms, so the wildcard has nothing to attach to",
            );
            Err(query_error(span, message))
        },
    }
}

/// Lexemes that were read, and then the rest.
spec fn continued(done: Seq<LexemeView>, rest: Result<Seq<LexemeView>, Fault>) -> Result<
    Seq<LexemeView>,
    Fault,
> {
    match rest {
        Ok(rest) => Ok(done + rest),
        Err(fault) => Err(fault),
    }
}

/// Splits a query into [`Lexeme`]s, or reports the first text of it that cannot be
/// made sense of.
pub fn lex(query: &str) -> (lexemes: Result<Vec<Lexeme>, Error>)
    ensures
        match (lexemes, lexed(query@)) {
            (Ok(lexemes), Ok(views)) => lexemes@.map_values(|lexeme: Lexeme| lexeme@) == views,
            (Err(error), Err(fault)) => reports(error, fault),
            _ => false,
        },
{
    let ghost chars = query@;
    let length: usize = text::length_of(query);
    let mut lexemes: Vec<Lexeme> = Vec::new();
    let ghost mut done = Seq::<LexemeView>::empty();
    let mut offset: usize = 0;
    let ghost mut k: int = 0;
    proof {
        text::lemma_byte_at(chars, 0);
        assert(continued(done, lexed(chars)) =~= lexed(chars)) by {
            if let Ok(rest) = lexed(chars) {
                assert(done + rest =~= rest);
            }
        }
        assert(lexemes@.map_values(|lexeme: Lexeme| lexeme@) =~= done);
    }
    while offset < length
        invariant
            chars == query@,
            length == text::byte_len(chars),
            0 <= k <= chars.len(),
            offset == text::byte_at(chars, k),
            done == lexemes@.map_values(|lexeme: Lexeme| lexeme@),
            lexed(chars) == continued(done, lexed_from(chars, k)),
        decreases chars.len() - k,
    {
        proof {
            text::lemma_byte_at(chars, k);
            text::lemma_byte_at_step(chars, k);
            lemma_lexeme_end(chars, k);
        }
        let character = text::char_at(query, offset, Ghost(k));
        if text::is_white_space(character) {
            offset += text::width_of(character);
            proof {
                k = k + 1;
            }
            continue;
        }
        let ghost after = lexeme_end(chars, k);
        let lexeme = if character == '(' {
            offset += 1;
            proof {
                text::lemma_char_width('(');
            }
            Lexeme { kind: LexemeKind::LeftParen, span: Span::new(offset - 1, offset) }
        } else if character == ')' {
            offset += 1;
            proof {
                text::lemma_char_width(')');
            }
            Lexeme { kind: LexemeKind::RightParen, span: Span::new(offset - 1, offset) }
        } else if character == '"' || character == '\'' || character == '\u{2019}' {
            match lex_phrase(query, &mut offset, character, Ghost(k)) {
                Ok(lexeme) => lexeme,
                Err(error) => {
                    return Err(error);
                },
            }
        } else {
            match lex_word(query, &mut offset, Ghost(k)) {
                Ok(lexeme) => lexeme,
                Err(error) => {
                    return Err(error);
                },
            }
        };
        proof {
            assert(lexeme_at(chars, k) == Ok::<LexemeView, Fault>(lexeme@));
            let rest = lexed_from(chars, after);
            if let Ok(rest) = rest {
                assert(done + (seq![lexeme@] + rest) =~= done.push(lexeme@) + rest);
            }
            assert(lexemes@.push(lexeme).map_values(|lexeme: Lexeme| lexeme@) =~= done.push(
                lexeme@,
            ));
            done = done.push(lexeme@);
            k = after;
        }
        lexemes.push(lexeme);
    }
    proof {
        text::lemma_byte_at(chars, k);
        assert(done + Seq::<LexemeView>::empty() =~= done);
    }
    Ok(lexemes)
}

/// How many characters of `query` stand before byte `offset`.
pub open spec fn caret_column(query: Seq<char>, offset: nat) -> int {
    text::index_at(
        query,
        if offset <= text::byte_len(query) {
            offset as int
        } else {
            text::byte_len(query) as int
        },
    )
}

/// How many carets to put under `length` bytes from `offset` on: one per character,
/// and one where those bytes are no characters of the query.
pub open spec fn caret_width(query: Seq<char>, offset: nat, length: nat) -> int {
    let size = text::byte_len(query);
    let end = if offset + length <= size {
        offset + length
    } else {
        size
    };
    if offset <= end && is_char_boundary(encode_utf8(query), offset as int) && is_char_boundary(
        encode_utf8(query),
        end as int,
    ) {
        let count = text::index_at(query, end as int) - text::index_at(query, offset as int);
        if count > 1 {
            count
        } else {
            1
        }
    } else {
        1
    }
}

/// Appends `c`, `count` times.
fn push_times(out: &mut String, c: char, count: usize)
    ensures
        final(out)@ == old(out)@ + Seq::new(count as nat, |i: int| c),
{
    let ghost before = out@;
    let mut pushed: usize = 0;
    while pushed < count
        invariant
            pushed <= count,
            out@ == before + Seq::new(pushed as nat, |i: int| c),
        decreases count - pushed,
    {
        out.push(c);
        pushed += 1;
        proof {
            assert(out@ =~= before + Seq::new(pushed as nat, |i: int| c));
        }
    }
}

/// Renders a query error as the offending text with carets under it.
///
/// ```text
/// quantum AND NEAR surface
///             ^^^^
/// ```
///
/// Counts characters rather than bytes, so the carets line up under multi-byte text.
pub fn point_at(query: &str, offset: usize, length: usize) -> (shown: String)
    requires
        offset + length <= usize::MAX,
        offset <= text::byte_len(query@) ==> is_char_boundary(encode_utf8(query@), offset as int),
    ensures
        shown@ == query@ + seq!['\n'] + Seq::new(
            caret_column(query@, offset as nat) as nat,
            |i: int| ' ',
        ) + Seq::new(caret_width(query@, offset as nat, length as nat) as nat, |i: int| '^'),
{
    let ghost chars = query@;
    let size: usize = text::length_of(query);
    proof {
        encode_utf8_valid_utf8(chars);
        is_char_boundary_start_end_of_seq(encode_utf8(chars));
    }
    let from: usize = if offset <= size {
        offset
    } else {
        size
    };
    let to: usize = if offset + length <= size {
        offset + length
    } else {
        size
    };
    let ghost i = text::lemma_boundary_is_byte_at(chars, from as int);
    proof {
        text::lemma_index_at(chars, i);
        text::lemma_byte_at(chars, i);
    }
    let leading: usize = text::slice(query, 0, from, Ghost(0), Ghost(i)).unicode_len();
    let mut width: usize = 1;
    if offset <= to && query.is_char_boundary(to) {
        let ghost j = text::lemma_boundary_is_byte_at(chars, to as int);
        proof {
            text::lemma_index_at(chars, j);
            if j < i {
                text::lemma_byte_at_monotone(chars, j, i);
            }
        }
        let count: usize = text::slice(query, from, to, Ghost(i), Ghost(j)).unicode_len();
        if count > 1 {
            width = count;
        }
    }
    let mut shown = query.to_owned();
    shown.push('\n');
    push_times(&mut shown, ' ', leading);
    push_times(&mut shown, '^', width);
    proof {
        assert(shown@ =~= chars + seq!['\n'] + Seq::new(
            caret_column(chars, offset as nat) as nat,
            |i: int| ' ',
        ) + Seq::new(caret_width(chars, offset as nat, length as nat) as nat, |i: int| '^'));
    }
    shown
}

/// Whether the bytes `start..end` are whole characters of `query`, one at least.
pub open spec fn covers_text(query: Seq<char>, start: nat, end: nat) -> bool {
    &&& start < end <= text::byte_len(query)
    &&& is_char_boundary(encode_utf8(query), start as int)
    &&& is_char_boundary(encode_utf8(query), end as int)
}

proof fn lemma_covers_text(query: Seq<char>, i: int, j: int)
    requires
        0 <= i < j <= query.len(),
    ensures
        covers_text(query, text::byte_at(query, i), text::byte_at(query, j)),
{
    text::lemma_byte_at(query, i);
    text::lemma_byte_at(query, j);
    text::lemma_byte_at_monotone(query, i, j);
}

/// A lexeme's span is exactly the characters it was read from.
proof fn lemma_lexeme_span(query: Seq<char>, start: int)
    requires
        0 <= start < query.len(),
        !text::white_space(query[start]),
        lexeme_at(query, start) is Ok,
    ensures
        ({
            let lexeme = lexeme_at(query, start)->Ok_0;
            &&& start < lexeme_end(query, start) <= query.len()
            &&& lexeme.start == text::byte_at(query, start)
            &&& lexeme.end == text::byte_at(query, lexeme_end(query, start))
        }),
{
    lemma_lexeme_end(query, start);
    let c = query[start];
    let end = lexeme_end(query, start);
    if c == '(' || c == ')' {
        text::lemma_byte_at_step(query, start);
        text::lemma_char_width(c);
    } else if !opens_phrase(c) {
        text::lemma_byte_at_monotone(query, start, end);
    }
}

/// The spans of a lexed query are ordered, never overlap, and lie on character
/// boundaries, so each of them can be cut out of the query.
pub proof fn spans_are_ordered_and_never_overlap(query: Seq<char>, from: int)
    requires
        0 <= from <= query.len(),
        lexed_from(query, from) is Ok,
    ensures
        forall|k: int|
            0 <= k < lexed_from(query, from)->Ok_0.len() ==> {
                let lexeme = #[trigger] lexed_from(query, from)->Ok_0[k];
                covers_text(query, lexeme.start, lexeme.end) && text::byte_at(query, from)
                    <= lexeme.start
            },
        forall|j: int, k: int|
            0 <= j < k < lexed_from(query, from)->Ok_0.len() ==> (#[trigger] lexed_from(
                query,
                from,
            )->Ok_0[j]).end <= (#[trigger] lexed_from(query, from)->Ok_0[k]).start,
    decreases query.len() - from,
{
    if from < query.len() {
        if text::white_space(query[from]) {
            spans_are_ordered_and_never_overlap(query, from + 1);
            text::lemma_byte_at_monotone(query, from, from + 1);
        } else {
            lemma_lexeme_span(query, from);
            let lexeme = lexeme_at(query, from)->Ok_0;
            let end = lexeme_end(query, from);
            lemma_covers_text(query, from, end);
            spans_are_ordered_and_never_overlap(query, end);
            text::lemma_byte_at_monotone(query, from, end);
            let rest = lexed_from(query, end)->Ok_0;
            let all = lexed_from(query, from)->Ok_0;
            assert(all =~= seq![lexeme] + rest);
            assert forall|k: int| 0 <= k < all.len() implies {
                let lexeme = #[trigger] all[k];
                covers_text(query, lexeme.start, lexeme.end) && text::byte_at(query, from)
                    <= lexeme.start
            } by {
                if k > 0 {
                    assert(all[k] == rest[k - 1]);
                }
            }
            assert forall|j: int, k: int| 0 <= j < k < all.len() implies (#[trigger] all[j]).end
                <= (#[trigger] all[k]).start by {
                assert(all[k] == rest[k - 1]);
                if j > 0 {
                    assert(all[j] == rest[j - 1]);
                }
            }
        }
    }
}

/// What a query is refused for lies in the query: at least one byte of it, on
/// character boundaries, so that it can be pointed at.
pub proof fn a_fault_lies_in_the_query(query: Seq<char>, from: int)
    requires
        0 <= from <= query.len(),
        lexed_from(query, from) is Err,
    ensures
        ({
            let fault = lexed_from(query, from)->Err_0;
            covers_text(query, fault.offset, fault.offset + fault.length)
        }),
    decreases query.len() - from,
{
    assert(from < query.len());
    if text::white_space(query[from]) {
        a_fault_lies_in_the_query(query, from + 1);
    } else {
        lemma_lexeme_end(query, from);
        match lexeme_at(query, from) {
            Ok(_) => {
                a_fault_lies_in_the_query(query, lexeme_end(query, from));
            },
            Err(fault) => {
                lemma_first_of(query, from + 1, query[from]);
                lemma_bare_word_end(query, from);
                let end = bare_word_end(query, from);
                let close = first_of(query, from + 1, query[from]);
                if opens_phrase(query[from]) {
                    if close >= query.len() {
                        text::lemma_byte_at(query, query.len() as int);
                        lemma_covers_text(query, from, query.len() as int);
                    } else {
                        lemma_covers_text(query, from, close + 1);
                    }
                } else {
                    let word = query.subrange(from, end);
                    text::lemma_byte_at_monotone(query, from, end);
                    lemma_covers_text(query, from, end);
                    let star = first_of(word, 0, '*');
                    lemma_first_of(word, 0, '*');
                    if star < word.len() {
                        assert(word.take(star) =~= query.subrange(from, from + star));
                        text::lemma_byte_at_monotone(query, from, from + star);
                        text::lemma_byte_at_step(query, from + star);
                        text::lemma_char_width('*');
                        lemma_covers_text(query, from + star, from + star + 1);
                    }
                }
            },
        }
    }
}

/// Which quotes enclose a phrase makes no difference to it: two queries that are one
/// phrase each, and differ in the quotes alone, have the same lexeme.
pub proof fn every_quote_makes_the_same_phrase(contents: Seq<char>, one: char, other: char)
    requires
        opens_phrase(one),
        opens_phrase(other),
        !contents.contains(one),
        !contents.contains(other),
    ensures
        ({
            let a = phrase_at(seq![one] + contents + seq![one], 0);
            let b = phrase_at(seq![other] + contents + seq![other], 0);
            match (a, b) {
                (Ok(a), Ok(b)) => a.kind == b.kind,
                (Err(a), Err(b)) => a.message == b.message,
                _ => false,
            }
        }),
        ({
            let a = phrase_at(seq![one] + contents + seq![one], 0);
            let terms = tokenize::terms(contents);
            &&& a is Err <==> terms.len() == 0
            &&& terms.len() == 1 ==> a->Ok_0.kind == Kind::Term(terms[0])
            &&& terms.len() > 1 ==> a->Ok_0.kind == Kind::Phrase(terms)
        }),
{
    lemma_enclosed(contents, one);
    lemma_enclosed(contents, other);
}

proof fn lemma_enclosed(contents: Seq<char>, quote: char)
    requires
        !contents.contains(quote),
    ensures
        ({
            let whole = seq![quote] + contents + seq![quote];
            &&& first_of(whole, 1, quote) == contents.len() + 1
            &&& whole.subrange(1, contents.len() as int + 1) == contents
            &&& whole[0] == quote
            &&& whole.len() == contents.len() + 2
        }),
{
    let whole = seq![quote] + contents + seq![quote];
    lemma_first_of(whole, 1, quote);
    let found = first_of(whole, 1, quote);
    let last = contents.len() as int + 1;
    assert(whole[last] == quote);
    if found < last {
        assert(whole[found] == contents[found - 1]);
        assert(contents.contains(quote));
    }
    assert(whole.subrange(1, last) =~= contents);
}

/// The terms that a lexeme asks for, in order.
pub open spec fn asked_for(kind: Kind) -> Seq<Seq<char>> {
    match kind {
        Kind::Term(term) => seq![term],
        Kind::Prefix(stem) => seq![stem],
        Kind::Phrase(terms) => terms,
        _ => seq![],
    }
}

/// A query spells terms as the index does: a quoted phrase asks for just the terms that
/// a document with the same text has, in the same order.
pub proof fn a_phrase_asks_for_the_terms_in_it(chars: Seq<char>, start: int)
    requires
        0 <= start < chars.len(),
        phrase_at(chars, start) is Ok,
    ensures
        asked_for(phrase_at(chars, start)->Ok_0.kind) == tokenize::terms(
            chars.subrange(start + 1, first_of(chars, start + 1, chars[start])),
        ),
{
    assert(asked_for(phrase_at(chars, start)->Ok_0.kind) =~= tokenize::terms(
        chars.subrange(start + 1, first_of(chars, start + 1, chars[start])),
    ));
}

/// A query spells terms as the index does: a bare word, its wildcard left out, asks for
/// just the terms that a document with the same text has, in the same order.
pub proof fn a_word_asks_for_the_terms_in_it(word: Seq<char>, offset: nat)
    requires
        term_lexeme(word, offset) is Ok,
    ensures
        asked_for(term_lexeme(word, offset)->Ok_0.kind) == tokenize::terms(
            word.take(first_of(word, 0, '*')),
        ),
{
    assert(asked_for(term_lexeme(word, offset)->Ok_0.kind) =~= tokenize::terms(
        word.take(first_of(word, 0, '*')),
    ));
}

} // verus!
