//! Characters, and where they sit in a string's bytes.
//!
//! A string is modelled by its characters, `text@`. What the library stores are
//! byte offsets, because that is what slices a string. The two are tied together
//! by [`byte_at`]: character `i` of `chars` starts at byte `byte_at(chars, i)`.

use vstd::prelude::*;
use vstd::utf8::*;

verus! {

/// How many bytes `chars` takes as UTF-8.
pub open spec fn byte_len(chars: Seq<char>) -> nat {
    encode_utf8(chars).len()
}

/// The byte offset at which character `i` of `chars` starts.
pub open spec fn byte_at(chars: Seq<char>, i: int) -> nat {
    byte_len(chars.take(i))
}

/// The character that starts at byte `offset` of `chars`, counting from zero.
pub open spec fn index_at(chars: Seq<char>, offset: int) -> int {
    choose|i: int| 0 <= i <= chars.len() && byte_at(chars, i) == offset
}

/// How many bytes one character takes as UTF-8.
pub open spec fn char_width(c: char) -> nat {
    encode_scalar(c as u32).len()
}

pub open spec fn ascii(c: char) -> bool {
    c <= '\u{7f}'
}

pub open spec fn ascii_digit(c: char) -> bool {
    '0' <= c <= '9'
}

pub open spec fn ascii_letter(c: char) -> bool {
    'a' <= c <= 'z' || 'A' <= c <= 'Z'
}

pub open spec fn ascii_upper(c: char) -> bool {
    'A' <= c <= 'Z'
}

/// Whether `c` has the Unicode property `White_Space`.
pub open spec fn white_space(c: char) -> bool {
    let code = c as u32;
    ||| 0x09 <= code <= 0x0D
    ||| code == 0x20
    ||| code == 0x85
    ||| code == 0xA0
    ||| code == 0x1680
    ||| 0x2000 <= code <= 0x200A
    ||| code == 0x2028
    ||| code == 0x2029
    ||| code == 0x202F
    ||| code == 0x205F
    ||| code == 0x3000
}

/// What `char::is_alphanumeric` answers.
pub uninterp spec fn unicode_alphanumeric(c: char) -> bool;

/// What `char::is_alphabetic` answers.
pub uninterp spec fn unicode_alphabetic(c: char) -> bool;

/// Whether `c` is a letter or a digit, in any script. White space never is.
pub open spec fn alphanumeric(c: char) -> bool {
    if ascii(c) {
        ascii_letter(c) || ascii_digit(c)
    } else {
        !white_space(c) && unicode_alphanumeric(c)
    }
}

/// Whether `c` is a letter, in any script. White space never is.
pub open spec fn alphabetic(c: char) -> bool {
    if ascii(c) {
        ascii_letter(c)
    } else {
        !white_space(c) && unicode_alphabetic(c)
    }
}

/// `char::is_alphanumeric` answers by the character alone, from Unicode's tables.
pub assume_specification[ char::is_alphanumeric ](c: char) -> (answer: bool)
    ensures
        answer == unicode_alphanumeric(c),
;

/// `char::is_alphabetic` answers by the character alone, from Unicode's tables.
pub assume_specification[ char::is_alphabetic ](c: char) -> (answer: bool)
    ensures
        answer == unicode_alphabetic(c),
;

/// `String::push` appends the character to the end of the string.
pub assume_specification[ String::push ](string: &mut String, c: char)
    ensures
        final(string)@ == old(string)@.push(c),
;

/// Whether `c` is white space.
pub fn is_white_space(c: char) -> (answer: bool)
    ensures
        answer == white_space(c),
{
    let code: u32 = c as u32;
    (0x09 <= code && code <= 0x0D) || code == 0x20 || (code > 0x7F && (code == 0x85 || code == 0xA0
        || code == 0x1680 || (0x2000 <= code && code <= 0x200A) || code == 0x2028 || code == 0x2029
        || code == 0x202F || code == 0x205F || code == 0x3000))
}

/// Whether `c` is a letter or a digit, in any script.
pub fn is_alphanumeric(c: char) -> (answer: bool)
    ensures
        answer == alphanumeric(c),
{
    let code: u32 = c as u32;
    if code < 0x80 {
        ('a' <= c && c <= 'z') || ('A' <= c && c <= 'Z') || ('0' <= c && c <= '9')
    } else {
        !is_white_space(c) && c.is_alphanumeric()
    }
}

/// Whether `c` is a letter, in any script.
pub fn is_alphabetic(c: char) -> (answer: bool)
    ensures
        answer == alphabetic(c),
{
    let code: u32 = c as u32;
    if code < 0x80 {
        ('a' <= c && c <= 'z') || ('A' <= c && c <= 'Z')
    } else {
        !is_white_space(c) && c.is_alphabetic()
    }
}

/// Encoding a concatenation is concatenating the encodings.
pub proof fn lemma_encode_concat(a: Seq<char>, b: Seq<char>)
    ensures
        encode_utf8(a + b) == encode_utf8(a) + encode_utf8(b),
    decreases a.len(),
{
    if a.len() == 0 {
        assert(a + b =~= b);
        assert(encode_utf8(a) + encode_utf8(b) =~= encode_utf8(b));
    } else {
        assert((a + b).drop_first() =~= a.drop_first() + b);
        lemma_encode_concat(a.drop_first(), b);
        assert(encode_utf8(a + b) =~= encode_utf8(a) + encode_utf8(b));
    }
}

/// Two texts with the same bytes have the same characters.
pub proof fn lemma_encode_injective(a: Seq<char>, b: Seq<char>)
    requires
        encode_utf8(a) == encode_utf8(b),
    ensures
        a == b,
{
    encode_utf8_decode_utf8(a);
    encode_utf8_decode_utf8(b);
}

/// A character takes between one and four bytes, and an ASCII one takes one.
pub proof fn lemma_char_width(c: char)
    ensures
        1 <= char_width(c) <= 4,
        ascii(c) <==> char_width(c) == 1,
        char_width(c) == (if (c as u32) < 0x80 {
            1nat
        } else if (c as u32) < 0x800 {
            2nat
        } else if (c as u32) < 0x10000 {
            3nat
        } else {
            4nat
        }),
        byte_len(seq![c]) == char_width(c),
        encode_utf8(seq![c]) == encode_scalar(c as u32),
{
    char_is_scalar(c);
    reveal_with_fuel(encode_utf8, 2);
    assert(seq![c].drop_first() =~= Seq::<char>::empty());
    assert(encode_utf8(seq![c]) =~= encode_scalar(c as u32));
}

/// Cutting a text at character `i` cuts its bytes at `byte_at(chars, i)`.
pub proof fn lemma_byte_at(chars: Seq<char>, i: int)
    requires
        0 <= i <= chars.len(),
    ensures
        byte_at(chars, i) <= byte_len(chars),
        byte_at(chars, 0) == 0,
        byte_at(chars, chars.len() as int) == byte_len(chars),
        encode_utf8(chars).subrange(0, byte_at(chars, i) as int) == encode_utf8(chars.take(i)),
        encode_utf8(chars).subrange(byte_at(chars, i) as int, byte_len(chars) as int)
            == encode_utf8(chars.skip(i)),
        byte_at(chars, i) + byte_len(chars.skip(i)) == byte_len(chars),
        is_char_boundary(encode_utf8(chars), byte_at(chars, i) as int),
        i == 0 <==> byte_at(chars, i) == 0,
        i == chars.len() <==> byte_at(chars, i) == byte_len(chars),
{
    let head = chars.take(i);
    let tail = chars.skip(i);
    assert(chars =~= head + tail);
    lemma_encode_concat(head, tail);
    assert(chars.take(0) =~= Seq::<char>::empty());
    assert(chars.take(chars.len() as int) =~= chars);
    assert(encode_utf8(chars).subrange(0, byte_at(chars, i) as int) =~= encode_utf8(head));
    assert(encode_utf8(chars).subrange(byte_at(chars, i) as int, byte_len(chars) as int)
        =~= encode_utf8(tail));
    lemma_boundary_after_prefix(head, tail);
    if i > 0 {
        lemma_nonempty_bytes(head);
    }
    if i < chars.len() {
        lemma_nonempty_bytes(tail);
    }
}

/// A text with characters has bytes.
pub proof fn lemma_nonempty_bytes(chars: Seq<char>)
    ensures
        chars.len() == 0 <==> byte_len(chars) == 0,
        byte_len(chars) >= chars.len(),
    decreases chars.len(),
{
    if chars.len() > 0 {
        lemma_char_width(chars[0]);
        lemma_nonempty_bytes(chars.drop_first());
    }
}

proof fn lemma_boundary_after_prefix(head: Seq<char>, tail: Seq<char>)
    ensures
        is_char_boundary(encode_utf8(head + tail), encode_utf8(head).len() as int),
    decreases head.len(),
{
    let bytes = encode_utf8(head + tail);
    encode_utf8_valid_utf8(head + tail);
    if head.len() > 0 {
        let rest = head.drop_first();
        assert((head + tail).drop_first() =~= rest + tail);
        lemma_boundary_after_prefix(rest, tail);
        encode_utf8_first_scalar(head + tail);
        assert(pop_first_scalar(bytes) =~= encode_utf8(rest + tail));
        lemma_encode_concat(head, tail);
        lemma_char_width(head[0]);
    }
}

/// Character offsets grow by the width of each character passed.
pub proof fn lemma_byte_at_step(chars: Seq<char>, i: int)
    requires
        0 <= i < chars.len(),
    ensures
        byte_at(chars, i + 1) == byte_at(chars, i) + char_width(chars[i]),
        byte_at(chars, i + 1) <= byte_len(chars),
        byte_at(chars, i) < byte_len(chars),
        1 <= char_width(chars[i]) <= 4,
{
    lemma_byte_at(chars, i + 1);
    assert(chars.take(i + 1) =~= chars.take(i) + seq![chars[i]]);
    lemma_encode_concat(chars.take(i), seq![chars[i]]);
    lemma_char_width(chars[i]);
}

/// Later characters start at later bytes.
pub proof fn lemma_byte_at_monotone(chars: Seq<char>, i: int, j: int)
    requires
        0 <= i <= j <= chars.len(),
    ensures
        byte_at(chars, i) + (j - i) <= byte_at(chars, j),
        byte_at(chars, j) == byte_at(chars, i) + byte_len(chars.subrange(i, j)),
{
    assert(chars.take(j) =~= chars.take(i) + chars.subrange(i, j));
    lemma_encode_concat(chars.take(i), chars.subrange(i, j));
    lemma_nonempty_bytes(chars.subrange(i, j));
}

/// No two characters start at the same byte.
pub proof fn lemma_index_at(chars: Seq<char>, i: int)
    requires
        0 <= i <= chars.len(),
    ensures
        index_at(chars, byte_at(chars, i) as int) == i,
{
    let j = index_at(chars, byte_at(chars, i) as int);
    if i < j {
        lemma_byte_at_monotone(chars, i, j);
    } else if j < i {
        lemma_byte_at_monotone(chars, j, i);
    }
}

/// Cutting out characters `i..j` cuts out the bytes between their offsets.
pub proof fn lemma_byte_range(chars: Seq<char>, i: int, j: int)
    requires
        0 <= i <= j <= chars.len(),
    ensures
        byte_at(chars, i) <= byte_at(chars, j) <= byte_len(chars),
        encode_utf8(chars).subrange(byte_at(chars, i) as int, byte_at(chars, j) as int)
            == encode_utf8(chars.subrange(i, j)),
{
    lemma_byte_at(chars, i);
    lemma_byte_at(chars, j);
    lemma_byte_at_monotone(chars, i, j);
    let bytes = encode_utf8(chars);
    let from = byte_at(chars, i) as int;
    let to = byte_at(chars, j) as int;
    assert(chars.take(j) =~= chars.take(i) + chars.subrange(i, j));
    lemma_encode_concat(chars.take(i), chars.subrange(i, j));
    let whole = encode_utf8(chars.take(j));
    assert(bytes.subrange(from, to) =~= whole.subrange(from, to));
    assert(whole.subrange(from, to) =~= encode_utf8(chars.subrange(i, j)));
}

/// The first byte of a character tells an ASCII character from any other, and is
/// the character where it is ASCII.
pub proof fn lemma_first_byte(chars: Seq<char>, i: int)
    requires
        0 <= i < chars.len(),
    ensures
        byte_at(chars, i) < byte_len(chars),
        encode_utf8(chars)[byte_at(chars, i) as int] < 0x80 <==> ascii(chars[i]),
        ascii(chars[i]) ==> encode_utf8(chars)[byte_at(chars, i) as int] as int == chars[i] as int,
        ascii(chars[i]) ==> byte_at(chars, i + 1) == byte_at(chars, i) + 1,
{
    lemma_byte_at(chars, i);
    lemma_byte_at_step(chars, i);
    let tail = chars.skip(i);
    assert(tail[0] == chars[i]);
    lemma_char_width(chars[i]);
    encode_utf8_first_scalar(tail);
    char_is_scalar(chars[i]);
    let byte = encode_utf8(tail)[0];
    assert(encode_utf8(chars)[byte_at(chars, i) as int] == encode_utf8(chars).subrange(
        byte_at(chars, i) as int,
        byte_len(chars) as int,
    )[0]);
    if ascii(chars[i]) {
        lemma_ascii_encoding(chars[i]);
    }
    assert(encode_scalar(chars[i] as u32)[0] == byte);
}

/// An ASCII character is its own, only, byte.
proof fn lemma_ascii_encoding(c: char)
    requires
        ascii(c),
    ensures
        encode_scalar(c as u32).len() == 1,
        encode_scalar(c as u32)[0] as int == c as int,
{
    let alone = seq![c];
    lemma_char_width(c);
    is_ascii_chars_encode_utf8(alone);
    assert(encode_utf8(alone)[0] == alone[0] as u8);
}

/// The characters before a character boundary of the bytes.
pub proof fn lemma_boundary_is_byte_at(chars: Seq<char>, offset: int) -> (i: int)
    requires
        is_char_boundary(encode_utf8(chars), offset),
    ensures
        0 <= i <= chars.len(),
        byte_at(chars, i) == offset,
    decreases chars.len(),
{
    let bytes = encode_utf8(chars);
    encode_utf8_valid_utf8(chars);
    if offset == 0 {
        lemma_byte_at(chars, 0);
        0
    } else {
        encode_utf8_first_scalar(chars);
        let rest = chars.drop_first();
        assert(pop_first_scalar(bytes) =~= encode_utf8(rest));
        let j = lemma_boundary_is_byte_at(rest, offset - char_width(chars[0]));
        assert(chars.take(j + 1) =~= seq![chars[0]] + rest.take(j));
        lemma_encode_concat(seq![chars[0]], rest.take(j));
        lemma_char_width(chars[0]);
        j + 1
    }
}

/// How many bytes `c` takes as UTF-8.
pub fn width_of(c: char) -> (width: usize)
    ensures
        width == char_width(c),
        1 <= width <= 4,
{
    proof {
        lemma_char_width(c);
    }
    let code: u32 = c as u32;
    if code < 0x80 {
        1
    } else if code < 0x800 {
        2
    } else if code < 0x10000 {
        3
    } else {
        4
    }
}

/// The length of `text` in bytes.
pub fn length_of(text: &str) -> (length: usize)
    ensures
        length == byte_len(text@),
{
    text.as_bytes().len()
}

/// Character `i` of `text`, which starts at byte `offset`.
pub(crate) fn char_at(text: &str, offset: usize, Ghost(i): Ghost<int>) -> (c: char)
    requires
        0 <= i < text@.len(),
        offset == byte_at(text@, i),
    ensures
        c == text@[i],
{
    let rest = suffix(text, offset, Ghost(i));
    let mut characters = rest.chars();
    match characters.next() {
        Some(c) => c,
        None => '\0',
    }
}

/// The characters of `text` from `i` on, where `i` starts at byte `offset`.
pub(crate) fn suffix<'a>(text: &'a str, offset: usize, Ghost(i): Ghost<int>) -> (rest: &'a str)
    requires
        0 <= i <= text@.len(),
        offset == byte_at(text@, i),
    ensures
        rest@ == text@.skip(i),
{
    proof {
        lemma_byte_at(text@, i);
    }
    let rest = text.split_at(offset).1;
    proof {
        lemma_encode_injective(rest@, text@.skip(i));
    }
    rest
}

/// The characters `i..j` of `text`, which take the bytes `from..to`.
pub(crate) fn slice<'a>(text: &'a str, from: usize, to: usize, Ghost(i): Ghost<int>, Ghost(j): Ghost<int>) -> (part: &'a str)
    requires
        0 <= i <= j <= text@.len(),
        from == byte_at(text@, i),
        to == byte_at(text@, j),
    ensures
        part@ == text@.subrange(i, j),
{
    proof {
        lemma_byte_at(text@, j);
        lemma_byte_at_monotone(text@, i, j);
    }
    let head = text.split_at(to).0;
    proof {
        lemma_encode_injective(head@, text@.take(j));
        assert(text@.take(j).take(i) =~= text@.take(i));
    }
    let part = suffix(head, from, Ghost(i));
    proof {
        assert(text@.take(j).skip(i) =~= text@.subrange(i, j));
    }
    part
}

/// Whether two strings hold the same characters.
pub fn same_text(left: &str, right: &str) -> (same: bool)
    ensures
        same == (left@ == right@),
{
    let a = left.as_bytes();
    let b = right.as_bytes();
    if a.len() != b.len() {
        return false;
    }
    let mut k: usize = 0;
    while k < a.len()
        invariant
            k <= a@.len(),
            a@.len() == b@.len(),
            a@ == encode_utf8(left@),
            b@ == encode_utf8(right@),
            forall|m: int| 0 <= m < k ==> a@[m] == b@[m],
        decreases a@.len() - k,
    {
        if a[k] != b[k] {
            return false;
        }
        k += 1;
    }
    proof {
        assert(a@ =~= b@);
        lemma_encode_injective(left@, right@);
    }
    true
}

/// The decimal digit for `value`.
pub open spec fn digit(value: nat) -> char {
    (48 + value) as char
}

/// `value` written in decimal, without leading zeros.
pub open spec fn decimal(value: nat) -> Seq<char>
    decreases value,
{
    if value < 10 {
        seq![digit(value)]
    } else {
        decimal(value / 10).push(digit(value % 10))
    }
}

/// Appends `value` in decimal.
pub fn push_decimal(out: &mut String, value: u64)
    ensures
        final(out)@ == old(out)@ + decimal(value as nat),
    decreases value,
{
    let units: u8 = (value % 10) as u8;
    if value >= 10 {
        push_decimal(out, value / 10);
    }
    out.push((48 + units) as char);
    proof {
        assert(out@ =~= old(out)@ + decimal(value as nat));
    }
}

} // verus!
