//! The term dictionary: normalized term to term number.
//!
//! A hash map with the Fx hasher, which is fast on short strings and needs no seed.
//! What a dictionary holds, [`entries_of`] names.

use crate::text;
use rustc_hash::{FxBuildHasher, FxHashMap};
use vstd::prelude::*;

verus! {

/// `rustc_hash::FxBuildHasher`, which the map is built with and nobody looks into.
#[verifier::external_type_specification]
#[verifier::external_body]
pub struct ExFxBuildHasher(FxBuildHasher);

/// The terms a dictionary holds, each with its number.
pub uninterp spec fn entries_of(dictionary: FxHashMap<Box<str>, u32>) -> Map<Seq<char>, u32>;

/// `FxHashMap::with_capacity_and_hasher` makes an empty map. It panics where the room
/// asked for is more than can be addressed, and a slot takes less than 256 bytes.
#[verifier::external_body]
pub(crate) fn with_capacity(terms: usize) -> (dictionary: FxHashMap<Box<str>, u32>)
    requires
        terms <= usize::MAX / 256,
    ensures
        entries_of(dictionary).dom() == Set::<Seq<char>>::empty(),
{
    FxHashMap::with_capacity_and_hasher(terms, FxBuildHasher)
}

/// `FxHashMap::get` gives what the map holds for the term, if anything.
#[verifier::external_body]
pub(crate) fn get(dictionary: &FxHashMap<Box<str>, u32>, term: &str) -> (number: Option<u32>)
    ensures
        number == (if entries_of(*dictionary).contains_key(term@) {
            Some(entries_of(*dictionary)[term@])
        } else {
            None
        }),
{
    dictionary.get(term).copied()
}

/// `FxHashMap::insert` makes the map hold the number for the term, in place of any
/// other it held for it.
#[verifier::external_body]
pub(crate) fn insert(dictionary: &mut FxHashMap<Box<str>, u32>, term: &str, number: u32)
    ensures
        entries_of(*final(dictionary)) == entries_of(*old(dictionary)).insert(term@, number),
{
    dictionary.insert(term.into(), number);
}

/// `FxHashMap::len` counts the terms that the map holds.
#[verifier::external_body]
pub(crate) fn len(dictionary: &FxHashMap<Box<str>, u32>) -> (count: usize)
    ensures
        count == entries_of(*dictionary).dom().len(),
{
    dictionary.len()
}

/// `FxHashMap::iter` hands out every term that the map holds, each once, with its
/// number. In which order is left open.
#[verifier::external_body]
pub(crate) fn entries(dictionary: &FxHashMap<Box<str>, u32>) -> (list: Vec<(&str, u32)>)
    ensures
        lists(list@.map_values(|entry: (&str, u32)| (entry.0@, entry.1)), entries_of(*dictionary)),
{
    dictionary.iter().map(|(term, &number)| (&**term, number)).collect()
}

/// Whether `list` holds the entries of `map`, each once.
pub open spec fn lists(list: Seq<(Seq<char>, u32)>, map: Map<Seq<char>, u32>) -> bool {
    &&& forall|i: int|
        0 <= i < list.len() ==> map.contains_key((#[trigger] list[i]).0) && map[list[i].0]
            == list[i].1
    &&& forall|i: int, j: int|
        0 <= i < j < list.len() ==> (#[trigger] list[i]).0 != (#[trigger] list[j]).0
    &&& forall|term: Seq<char>| #[trigger]
        map.contains_key(term) ==> exists|i: int| 0 <= i < list.len() && (#[trigger] list[i]).0 == term
}

/// A map's entries, in some order.
pub open spec fn listed(map: Map<Seq<char>, u32>) -> Seq<(Seq<char>, u32)> {
    choose|list: Seq<(Seq<char>, u32)>| lists(list, map)
}

/// Roughly how many bytes a dictionary takes for the entries of `list`: for each the
/// term's own bytes, the pointer to them, the number, and one control byte.
pub open spec fn bytes_of_list(list: Seq<(Seq<char>, u32)>) -> nat
    decreases list.len(),
{
    if list.len() == 0 {
        0
    } else {
        bytes_of_list(list.drop_last()) + bytes_of_entry(list.last().0)
    }
}

pub open spec fn bytes_of_entry(term: Seq<char>) -> nat {
    text::byte_len(term) + vstd::layout::size_of::<Box<str>>() + 5
}

/// Roughly how many bytes a dictionary takes.
pub open spec fn dictionary_bytes(map: Map<Seq<char>, u32>) -> nat {
    bytes_of_list(listed(map))
}

proof fn lemma_bytes_without(list: Seq<(Seq<char>, u32)>, j: int)
    requires
        0 <= j < list.len(),
    ensures
        bytes_of_list(list) == bytes_of_list(list.remove(j)) + bytes_of_entry(list[j].0),
    decreases list.len(),
{
    if j == list.len() - 1 {
        assert(list.remove(j) =~= list.drop_last());
    } else {
        lemma_bytes_without(list.drop_last(), j);
        assert(list.remove(j).drop_last() =~= list.drop_last().remove(j));
        assert(list.remove(j).last() == list.last());
    }
}

/// A list of a map's entries without the last lists the map without that term.
pub proof fn lemma_lists_without(list: Seq<(Seq<char>, u32)>, map: Map<Seq<char>, u32>, j: int)
    requires
        lists(list, map),
        0 <= j < list.len(),
    ensures
        lists(list.remove(j), map.remove(list[j].0)),
{
    let rest = list.remove(j);
    let left = map.remove(list[j].0);
    assert forall|i: int| 0 <= i < rest.len() implies left.contains_key((#[trigger] rest[i]).0)
        && left[rest[i].0] == rest[i].1 by {
        let k = if i < j {
            i
        } else {
            i + 1
        };
        assert(rest[i] == list[k]);
    }
    assert forall|a: int, b: int| 0 <= a < b < rest.len() implies (#[trigger] rest[a]).0 != (
    #[trigger] rest[b]).0 by {
        let k = if a < j {
            a
        } else {
            a + 1
        };
        let m = if b < j {
            b
        } else {
            b + 1
        };
        assert(rest[a] == list[k] && rest[b] == list[m]);
    }
    assert forall|term: Seq<char>| #[trigger] left.contains_key(term) implies exists|i: int|
        0 <= i < rest.len() && (#[trigger] rest[i]).0 == term by {
        assert(map.contains_key(term));
        let k = choose|k: int| 0 <= k < list.len() && (#[trigger] list[k]).0 == term;
        let i = if k < j {
            k
        } else {
            k - 1
        };
        assert(rest[i] == list[k]);
    }
}

/// In whatever order a map's entries are listed, they take the same bytes.
pub proof fn lemma_bytes_of_any_list(
    one: Seq<(Seq<char>, u32)>,
    other: Seq<(Seq<char>, u32)>,
    map: Map<Seq<char>, u32>,
)
    requires
        lists(one, map),
        lists(other, map),
    ensures
        bytes_of_list(one) == bytes_of_list(other),
        one.len() == other.len(),
    decreases one.len(),
{
    if one.len() == 0 {
        if other.len() > 0 {
            assert(map.contains_key(other[0].0));
        }
    } else {
        let last = one.len() - 1;
        let term = one[last].0;
        assert(map.contains_key(term));
        let j = choose|j: int| 0 <= j < other.len() && (#[trigger] other[j]).0 == term;
        lemma_lists_without(one, map, last);
        lemma_lists_without(other, map, j);
        lemma_bytes_without(one, last);
        lemma_bytes_without(other, j);
        lemma_bytes_of_any_list(one.remove(last), other.remove(j), map.remove(term));
    }
}

/// A list of a map's entries takes the dictionary's bytes.
pub proof fn lemma_dictionary_bytes(list: Seq<(Seq<char>, u32)>, map: Map<Seq<char>, u32>)
    requires
        lists(list, map),
    ensures
        bytes_of_list(list) == dictionary_bytes(map),
{
    lemma_bytes_of_any_list(list, listed(map), map);
}

} // verus!
