//! Numbers and strings as bytes.
//!
//! Every number is four bytes, the least significant first. A run of strings is the
//! offsets at which they start, one more for where the last one ends, and then their
//! UTF-8 one behind the other.

use crate::text;
use vstd::prelude::*;
use vstd::utf8::*;

verus! {

/// The four bytes of a number.
pub open spec fn number_bytes(value: u32) -> Seq<u8> {
    seq![
        (value % 256) as u8,
        ((value / 0x100) % 256) as u8,
        ((value / 0x1_0000) % 256) as u8,
        (value / 0x100_0000) as u8,
    ]
}

/// The number in the four bytes from `at` on.
pub open spec fn number_at(bytes: Seq<u8>, at: int) -> u32 {
    (bytes[at] + 0x100 * bytes[at + 1] + 0x1_0000 * bytes[at + 2] + 0x100_0000 * bytes[at
        + 3]) as u32
}

/// The bytes of a run of numbers.
pub open spec fn numbers_bytes(values: Seq<u32>) -> Seq<u8>
    decreases values.len(),
{
    if values.len() == 0 {
        seq![]
    } else {
        numbers_bytes(values.drop_last()) + number_bytes(values.last())
    }
}

/// The `count` numbers from byte `at` on.
pub open spec fn numbers_at(bytes: Seq<u8>, at: int, count: nat) -> Seq<u32> {
    Seq::new(count, |i: int| number_at(bytes, at + 4 * i))
}

/// How many bytes the first `n` strings take.
pub open spec fn bytes_before(strings: Seq<Seq<char>>, n: int) -> nat
    decreases n,
{
    if n <= 0 {
        0
    } else {
        bytes_before(strings, n - 1) + text::byte_len(strings[n - 1])
    }
}

/// How many bytes a run of strings takes.
pub open spec fn bytes_in(strings: Seq<Seq<char>>) -> nat {
    bytes_before(strings, strings.len() as int)
}

/// Where each of a run of strings starts, and where the last one ends.
pub open spec fn offsets_of(strings: Seq<Seq<char>>) -> Seq<u32> {
    Seq::new(strings.len() + 1, |i: int| bytes_before(strings, i) as u32)
}

/// The bytes of a run of strings.
pub open spec fn strings_bytes(strings: Seq<Seq<char>>) -> Seq<u8>
    decreases strings.len(),
{
    if strings.len() == 0 {
        seq![]
    } else {
        strings_bytes(strings.drop_last()) + encode_utf8(strings.last())
    }
}

/// The bytes of string `i`, going by the offsets.
pub open spec fn string_bytes_at(blob: Seq<u8>, offsets: Seq<u32>, i: int) -> Seq<u8> {
    blob.subrange(offsets[i] as int, offsets[i + 1] as int)
}

/// Four bytes give back the number they were made of.
pub proof fn lemma_number_read_back(bytes: Seq<u8>, at: int, value: u32)
    requires
        0 <= at,
        at + 4 <= bytes.len(),
        bytes.subrange(at, at + 4) == number_bytes(value),
    ensures
        number_at(bytes, at) == value,
{
    let four = bytes.subrange(at, at + 4);
    assert(four[0] == bytes[at]);
    assert(four[1] == bytes[at + 1]);
    assert(four[2] == bytes[at + 2]);
    assert(four[3] == bytes[at + 3]);
    let a = (value % 256) as int;
    let b = ((value / 0x100) % 256) as int;
    let c = ((value / 0x1_0000) % 256) as int;
    let d = (value / 0x100_0000) as int;
    assert(value == a + 0x100 * b + 0x1_0000 * c + 0x100_0000 * d && d < 256);
}

pub proof fn lemma_numbers_length(values: Seq<u32>)
    ensures
        numbers_bytes(values).len() == 4 * values.len(),
    decreases values.len(),
{
    if values.len() > 0 {
        lemma_numbers_length(values.drop_last());
    }
}

/// Where a run of numbers was written, it is read back.
pub proof fn lemma_numbers_read_back(bytes: Seq<u8>, at: int, values: Seq<u32>)
    requires
        0 <= at,
        at + 4 * values.len() <= bytes.len(),
        bytes.subrange(at, at + 4 * values.len()) == numbers_bytes(values),
    ensures
        numbers_at(bytes, at, values.len()) == values,
    decreases values.len(),
{
    if values.len() > 0 {
        let before = values.drop_last();
        let n = before.len() as int;
        lemma_numbers_length(before);
        let all = bytes.subrange(at, at + 4 * values.len());
        assert(bytes.subrange(at, at + 4 * n) =~= all.subrange(0, 4 * n));
        assert(all.subrange(0, 4 * n) =~= numbers_bytes(before));
        lemma_numbers_read_back(bytes, at, before);
        assert(bytes.subrange(at + 4 * n, at + 4 * n + 4) =~= all.subrange(4 * n, 4 * n + 4));
        assert(all.subrange(4 * n, 4 * n + 4) =~= number_bytes(values.last()));
        lemma_number_read_back(bytes, at + 4 * n, values.last());
        assert forall|i: int| 0 <= i < values.len() implies numbers_at(bytes, at, values.len())[i]
            == values[i] by {
            if i < n {
                assert(numbers_at(bytes, at, before.len())[i] == before[i]);
            }
        }
    }
    assert(numbers_at(bytes, at, values.len()) =~= values);
}

pub proof fn lemma_bytes_before_grows(strings: Seq<Seq<char>>, m: int, n: int)
    requires
        0 <= m <= n <= strings.len(),
    ensures
        bytes_before(strings, m) <= bytes_before(strings, n),
        m < n ==> bytes_before(strings, m) + text::byte_len(strings[m]) <= bytes_before(
            strings,
            n,
        ),
    decreases n - m,
{
    if m < n {
        lemma_bytes_before_grows(strings, m + 1, n);
    }
}

pub proof fn lemma_bytes_before_prefix(strings: Seq<Seq<char>>, n: int)
    requires
        strings.len() > 0,
        0 <= n < strings.len(),
    ensures
        bytes_before(strings.drop_last(), n) == bytes_before(strings, n),
    decreases n,
{
    if n > 0 {
        lemma_bytes_before_prefix(strings, n - 1);
        assert(strings.drop_last()[n - 1] == strings[n - 1]);
    }
}

/// A run of strings takes the bytes that it says, and each string lies between its
/// own offset and the next.
pub proof fn lemma_strings(strings: Seq<Seq<char>>)
    ensures
        strings_bytes(strings).len() == bytes_in(strings),
        forall|i: int|
            0 <= i < strings.len() ==> strings_bytes(strings).subrange(
                bytes_before(strings, i) as int,
                bytes_before(strings, i + 1) as int,
            ) == encode_utf8(#[trigger] strings[i]),
    decreases strings.len(),
{
    if strings.len() > 0 {
        let before = strings.drop_last();
        let n = before.len() as int;
        lemma_strings(before);
        lemma_bytes_before_prefix(strings, n);
        let all = strings_bytes(strings);
        let head = strings_bytes(before);
        assert forall|i: int| 0 <= i < strings.len() implies all.subrange(
            bytes_before(strings, i) as int,
            bytes_before(strings, i + 1) as int,
        ) == encode_utf8(#[trigger] strings[i]) by {
            let from = bytes_before(strings, i) as int;
            let to = bytes_before(strings, i + 1) as int;
            if i < n {
                lemma_bytes_before_prefix(strings, i);
                lemma_bytes_before_prefix(strings, i + 1);
                lemma_bytes_before_grows(before, i + 1, n);
                assert(before[i] == strings[i]);
                assert(all.subrange(from, to) =~= head.subrange(from, to));
            } else {
                assert(all.subrange(from, to) =~= encode_utf8(strings[i]));
            }
        }
    }
}

/// Appends the four bytes of a number.
pub fn push_number(out: &mut Vec<u8>, value: u32)
    ensures
        final(out)@ == old(out)@ + number_bytes(value),
{
    out.push((value % 256) as u8);
    out.push(((value / 0x100) % 256) as u8);
    out.push(((value / 0x1_0000) % 256) as u8);
    out.push((value / 0x100_0000) as u8);
    proof {
        assert(out@ =~= old(out)@ + number_bytes(value));
    }
}

/// Appends the bytes of a run of numbers.
pub fn push_numbers(out: &mut Vec<u8>, values: &Vec<u32>)
    ensures
        final(out)@ == old(out)@ + numbers_bytes(values@),
{
    let ghost before = out@;
    let mut index: usize = 0;
    proof {
        assert(values@.take(0) =~= Seq::<u32>::empty());
        assert(before + numbers_bytes(values@.take(0)) =~= before);
    }
    while index < values.len()
        invariant
            index <= values@.len(),
            out@ == before + numbers_bytes(values@.take(index as int)),
        decreases values@.len() - index,
    {
        push_number(out, values[index]);
        index += 1;
        proof {
            let done = values@.take(index as int);
            assert(done.drop_last() =~= values@.take(index - 1));
            assert(out@ =~= before + numbers_bytes(done));
        }
    }
    proof {
        assert(values@.take(index as int) =~= values@);
    }
}

/// Appends the UTF-8 of a string.
pub fn push_string(out: &mut Vec<u8>, string: &str)
    ensures
        final(out)@ == old(out)@ + encode_utf8(string@),
{
    let bytes = string.as_bytes();
    out.extend_from_slice(bytes);
    proof {
        assert(out@ =~= old(out)@ + bytes@);
    }
}

/// The number in the four bytes from `at` on.
pub fn read_number(bytes: &[u8], at: usize) -> (value: u32)
    requires
        at + 4 <= bytes@.len(),
    ensures
        value == number_at(bytes@, at as int),
{
    let a: u32 = bytes[at] as u32;
    let b: u32 = bytes[at + 1] as u32;
    let c: u32 = bytes[at + 2] as u32;
    let d: u32 = bytes[at + 3] as u32;
    a + 0x100 * b + 0x1_0000 * c + 0x100_0000 * d
}

/// The `count` numbers from byte `at` on.
pub fn read_numbers(bytes: &[u8], at: usize, count: usize) -> (values: Vec<u32>)
    requires
        at + 4 * count <= bytes@.len(),
    ensures
        values@ == numbers_at(bytes@, at as int, count as nat),
{
    let length: usize = bytes.len();
    let mut values: Vec<u32> = Vec::with_capacity(count);
    let mut index: usize = 0;
    while index < count
        invariant
            index <= count,
            length == bytes@.len(),
            at + 4 * count <= length,
            values@ == numbers_at(bytes@, at as int, index as nat),
        decreases count - index,
    {
        values.push(read_number(bytes, at + 4 * index));
        index += 1;
        proof {
            assert(values@ =~= numbers_at(bytes@, at as int, index as nat));
        }
    }
    values
}

/// `std::str::from_utf8` takes the bytes for a string if and only if they are UTF-8,
/// and gives the string with those bytes.
#[verifier::external_body]
pub(crate) fn utf8_of(bytes: &[u8]) -> (string: Option<&str>)
    ensures
        match string {
            Some(string) => valid_utf8(bytes@) && encode_utf8(string@) == bytes@,
            None => !valid_utf8(bytes@),
        },
{
    std::str::from_utf8(bytes).ok()
}

} // verus!
