//! Terms in the order of their bytes.

use crate::dictionary;
use crate::index::TermId;
use crate::text;
use vstd::prelude::*;
use vstd::utf8::*;

verus! {

/// Whether `a` comes before `b` in a byte-by-byte comparison.
pub open spec fn bytes_precede(a: Seq<u8>, b: Seq<u8>) -> bool
    decreases a.len(),
{
    if b.len() == 0 {
        false
    } else if a.len() == 0 {
        true
    } else if a[0] == b[0] {
        bytes_precede(a.drop_first(), b.drop_first())
    } else {
        a[0] < b[0]
    }
}

/// Whether the term `a` comes before the term `b`.
pub open spec fn precedes(a: Seq<char>, b: Seq<char>) -> bool {
    bytes_precede(encode_utf8(a), encode_utf8(b))
}

/// Whether the entries are in the order of their terms, no term twice.
pub open spec fn sorted(list: Seq<(Seq<char>, u32)>) -> bool {
    forall|i: int, j: int|
        0 <= i < j < list.len() ==> precedes((#[trigger] list[i]).0, (#[trigger] list[j]).0)
}

/// A dictionary's entries in the order of their terms.
pub open spec fn sorted_entries(map: Map<Seq<char>, u32>) -> Seq<(Seq<char>, u32)> {
    choose|list: Seq<(Seq<char>, u32)>| dictionary::lists(list, map) && sorted(list)
}

proof fn lemma_bytes_precede(a: Seq<u8>, b: Seq<u8>)
    ensures
        !(bytes_precede(a, b) && bytes_precede(b, a)),
        !bytes_precede(a, a),
        bytes_precede(a, b) || bytes_precede(b, a) || a == b,
    decreases a.len(),
{
    if a.len() > 0 {
        lemma_bytes_precede(a.drop_first(), a.drop_first());
        if b.len() > 0 {
            lemma_bytes_precede(a.drop_first(), b.drop_first());
            if a[0] == b[0] && a.drop_first() == b.drop_first() {
                assert(a =~= seq![a[0]] + a.drop_first());
                assert(b =~= seq![b[0]] + b.drop_first());
            }
        }
    } else if b.len() == 0 {
        assert(a =~= b);
    }
}

proof fn lemma_bytes_precede_transitive(a: Seq<u8>, b: Seq<u8>, c: Seq<u8>)
    requires
        bytes_precede(a, b),
        bytes_precede(b, c),
    ensures
        bytes_precede(a, c),
    decreases a.len(),
{
    if a.len() > 0 && b.len() > 0 && c.len() > 0 && a[0] == b[0] && b[0] == c[0] {
        lemma_bytes_precede_transitive(a.drop_first(), b.drop_first(), c.drop_first());
    }
}

/// Of two different terms exactly one precedes the other.
pub proof fn terms_are_totally_ordered(a: Seq<char>, b: Seq<char>)
    ensures
        !(precedes(a, b) && precedes(b, a)),
        !precedes(a, a),
        precedes(a, b) || precedes(b, a) || a == b,
{
    lemma_bytes_precede(encode_utf8(a), encode_utf8(b));
    if encode_utf8(a) == encode_utf8(b) {
        text::lemma_encode_injective(a, b);
    }
}

/// What precedes a term precedes what the term precedes.
pub proof fn preceding_is_transitive(a: Seq<char>, b: Seq<char>, c: Seq<char>)
    requires
        precedes(a, b),
        precedes(b, c),
    ensures
        precedes(a, c),
{
    lemma_bytes_precede_transitive(encode_utf8(a), encode_utf8(b), encode_utf8(c));
}

/// Terms are ordered by their bytes: one that another begins with comes before it, and
/// elsewhere the first byte that differs decides.
pub proof fn the_first_byte_that_differs_decides(a: Seq<u8>, b: Seq<u8>, k: int)
    requires
        0 <= k <= a.len(),
        k <= b.len(),
        a.take(k) == b.take(k),
    ensures
        k == a.len() && k < b.len() ==> bytes_precede(a, b),
        k == b.len() ==> !bytes_precede(a, b),
        k < a.len() && k < b.len() && a[k] != b[k] ==> (bytes_precede(a, b) <==> a[k] < b[k]),
    decreases k,
{
    if k > 0 {
        assert forall|i: int| 0 <= i < k implies #[trigger] a[i] == b[i] by {
            let one = a.take(k);
            let other = b.take(k);
            assert(one[i] == a[i] && other[i] == b[i]);
        }
        let c = a.drop_first();
        let d = b.drop_first();
        assert(c.take(k - 1) =~= d.take(k - 1));
        the_first_byte_that_differs_decides(c, d, k - 1);
    }
}

/// There is one way only to list a dictionary in order.
pub proof fn a_dictionary_is_sorted_one_way(
    one: Seq<(Seq<char>, u32)>,
    other: Seq<(Seq<char>, u32)>,
    map: Map<Seq<char>, u32>,
)
    requires
        dictionary::lists(one, map),
        dictionary::lists(other, map),
        sorted(one),
        sorted(other),
    ensures
        one == other,
    decreases one.len(),
{
    dictionary::lemma_bytes_of_any_list(one, other, map);
    if one.len() > 0 {
        let last = one.len() - 1;
        let a = one[last];
        let b = other[last];
        if a.0 != b.0 {
            assert(map.contains_key(a.0));
            assert(map.contains_key(b.0));
            let i = choose|i: int| 0 <= i < other.len() && (#[trigger] other[i]).0 == a.0;
            let j = choose|j: int| 0 <= j < one.len() && (#[trigger] one[j]).0 == b.0;
            assert(precedes(other[i].0, other[last].0));
            assert(precedes(one[j].0, one[last].0));
            terms_are_totally_ordered(a.0, b.0);
        }
        assert(a == b);
        dictionary::lemma_lists_without(one, map, last);
        dictionary::lemma_lists_without(other, map, last);
        assert(one.remove(last) =~= one.drop_last());
        assert(other.remove(last) =~= other.drop_last());
        a_dictionary_is_sorted_one_way(one.drop_last(), other.drop_last(), map.remove(a.0));
        assert(one =~= one.drop_last().push(a));
        assert(other =~= other.drop_last().push(b));
    } else {
        assert(one =~= other);
    }
}

/// Whether `a` comes before `b`.
pub fn is_before(a: &str, b: &str) -> (before: bool)
    ensures
        before == precedes(a@, b@),
{
    let left = a.as_bytes();
    let right = b.as_bytes();
    let mut k: usize = 0;
    proof {
        assert(left@.skip(0) =~= left@);
        assert(right@.skip(0) =~= right@);
    }
    while k < left.len() && k < right.len()
        invariant
            left@ == encode_utf8(a@),
            right@ == encode_utf8(b@),
            k <= left@.len(),
            k <= right@.len(),
            bytes_precede(left@, right@) == bytes_precede(
                left@.skip(k as int),
                right@.skip(k as int),
            ),
        decreases left@.len() - k,
    {
        proof {
            assert(left@.skip(k as int).drop_first() =~= left@.skip(k + 1));
            assert(right@.skip(k as int).drop_first() =~= right@.skip(k + 1));
        }
        if left[k] != right[k] {
            return left[k] < right[k];
        }
        k += 1;
    }
    k < right.len()
}

/// What a list of terms holds.
pub open spec fn entries(list: Seq<(&str, TermId)>) -> Seq<(Seq<char>, u32)> {
    list.map_values(|entry: (&str, TermId)| (entry.0@, entry.1.0))
}

/// Whether no entry is followed by one that comes before it.
spec fn in_order(list: Seq<(&str, TermId)>) -> bool {
    forall|i: int, j: int|
        0 <= i < j < list.len() ==> !precedes((#[trigger] list[j]).0@, (#[trigger] list[i]).0@)
}

/// Puts two ordered lists together in order.
fn merge<'a>(left: &Vec<(&'a str, TermId)>, right: &Vec<(&'a str, TermId)>) -> (merged: Vec<
    (&'a str, TermId),
>)
    requires
        in_order(left@),
        in_order(right@),
    ensures
        in_order(merged@),
        merged@.to_multiset() == left@.to_multiset().add(right@.to_multiset()),
{
    let mut merged: Vec<(&'a str, TermId)> = Vec::new();
    let mut i: usize = 0;
    let mut j: usize = 0;
    proof {
        assert(left@.take(0) =~= Seq::empty());
        assert(right@.take(0) =~= Seq::empty());
        broadcast use vstd::seq_lib::group_to_multiset_ensures;

        assert(merged@.to_multiset() =~= left@.take(0).to_multiset().add(
            right@.take(0).to_multiset(),
        ));
    }
    while i < left.len() || j < right.len()
        invariant
            i <= left@.len(),
            j <= right@.len(),
            in_order(left@),
            in_order(right@),
            in_order(merged@),
            merged@.to_multiset() == left@.take(i as int).to_multiset().add(
                right@.take(j as int).to_multiset(),
            ),
            forall|m: int, x: int|
                0 <= m < merged@.len() && i <= x < left@.len() ==> !precedes(
                    (#[trigger] left@[x]).0@,
                    (#[trigger] merged@[m]).0@,
                ),
            forall|m: int, y: int|
                0 <= m < merged@.len() && j <= y < right@.len() ==> !precedes(
                    (#[trigger] right@[y]).0@,
                    (#[trigger] merged@[m]).0@,
                ),
        decreases left@.len() - i + right@.len() - j,
    {
        broadcast use vstd::seq_lib::group_to_multiset_ensures;

        let from_right: bool = if i >= left.len() {
            true
        } else if j >= right.len() {
            false
        } else {
            is_before(right[j].0, left[i].0)
        };
        if from_right {
            proof {
                assert(right@.take(j + 1) =~= right@.take(j as int).push(right@[j as int]));
                assert(merged@.push(right@[j as int]).to_multiset() =~= left@.take(
                    i as int,
                ).to_multiset().add(right@.take(j + 1).to_multiset()));
                assert forall|x: int| i <= x < left@.len() implies !precedes(
                    (#[trigger] left@[x]).0@,
                    right@[j as int].0@,
                ) by {
                    if precedes(left@[x].0@, right@[j as int].0@) {
                        preceding_is_transitive(
                            left@[x].0@,
                            right@[j as int].0@,
                            left@[i as int].0@,
                        );
                        terms_are_totally_ordered(left@[x].0@, left@[x].0@);
                    }
                }
                terms_are_totally_ordered(right@[j as int].0@, right@[j as int].0@);
            }
            merged.push(right[j]);
            j += 1;
        } else {
            proof {
                assert(left@.take(i + 1) =~= left@.take(i as int).push(left@[i as int]));
                assert(merged@.push(left@[i as int]).to_multiset() =~= left@.take(
                    i + 1,
                ).to_multiset().add(right@.take(j as int).to_multiset()));
                assert forall|y: int| j <= y < right@.len() implies !precedes(
                    (#[trigger] right@[y]).0@,
                    left@[i as int].0@,
                ) by {
                    if precedes(right@[y].0@, left@[i as int].0@) && y > j {
                        terms_are_totally_ordered(left@[i as int].0@, right@[j as int].0@);
                        if precedes(left@[i as int].0@, right@[j as int].0@) {
                            preceding_is_transitive(
                                right@[y].0@,
                                left@[i as int].0@,
                                right@[j as int].0@,
                            );
                        }
                    }
                }
                terms_are_totally_ordered(left@[i as int].0@, left@[i as int].0@);
            }
            merged.push(left[i]);
            i += 1;
        }
    }
    proof {
        assert(left@.take(i as int) =~= left@);
        assert(right@.take(j as int) =~= right@);
    }
    merged
}

/// Sorts the entries `from..to` by merging sorted halves.
fn merge_sort<'a>(list: &Vec<(&'a str, TermId)>, from: usize, to: usize) -> (sorted_list: Vec<
    (&'a str, TermId),
>)
    requires
        from <= to <= list@.len(),
    ensures
        in_order(sorted_list@),
        sorted_list@.to_multiset() == list@.subrange(from as int, to as int).to_multiset(),
    decreases to - from,
{
    if to - from <= 1 {
        let mut single: Vec<(&'a str, TermId)> = Vec::new();
        if from < to {
            single.push(list[from]);
        }
        proof {
            assert(single@ =~= list@.subrange(from as int, to as int));
        }
        return single;
    }
    let middle: usize = from + (to - from) / 2;
    let left = merge_sort(list, from, middle);
    let right = merge_sort(list, middle, to);
    proof {
        let a = list@.subrange(from as int, middle as int);
        let b = list@.subrange(middle as int, to as int);
        assert(list@.subrange(from as int, to as int) =~= a + b);
        vstd::seq_lib::lemma_multiset_commutative(a, b);
    }
    merge(&left, &right)
}

/// Puts a dictionary's entries in the order of their terms.
pub(crate) fn sort_terms<'a>(
    list: &Vec<(&'a str, TermId)>,
    Ghost(map): Ghost<Map<Seq<char>, u32>>,
) -> (sorted_list: Vec<(&'a str, TermId)>)
    requires
        dictionary::lists(entries(list@), map),
    ensures
        entries(sorted_list@) == sorted_entries(map),
        dictionary::lists(entries(sorted_list@), map),
        sorted(entries(sorted_list@)),
{
    let sorted_list = merge_sort(list, 0, list.len());
    proof {
        assert(list@.subrange(0, list@.len() as int) =~= list@);
        lemma_same_entries(list@, sorted_list@, map);
        lemma_strictly_sorted(sorted_list@, map);
        a_dictionary_is_sorted_one_way(
            entries(sorted_list@),
            sorted_entries(map),
            map,
        );
    }
    sorted_list
}

/// A list in another order lists the same dictionary.
proof fn lemma_same_entries(
    list: Seq<(&str, TermId)>,
    other: Seq<(&str, TermId)>,
    map: Map<Seq<char>, u32>,
)
    requires
        other.to_multiset() == list.to_multiset(),
        dictionary::lists(entries(list), map),
    ensures
        dictionary::lists(entries(other), map),
{
    let a = entries(list);
    let b = entries(other);
    list.to_multiset_ensures();
    other.to_multiset_ensures();
    assert(list.no_duplicates()) by {
        assert forall|i: int, j: int| 0 <= i < j < list.len() implies list[i] != list[j] by {
            assert(a[i].0 != a[j].0);
        }
    }
    list.lemma_multiset_has_no_duplicates();
    other.lemma_multiset_has_no_duplicates_conv();
    assert forall|i: int| 0 <= i < b.len() implies map.contains_key((#[trigger] b[i]).0)
        && map[b[i].0] == b[i].1 by {
        let k = lemma_also_in(list, other, i);
        assert(a[k] == b[i]);
    }
    assert forall|i: int, j: int| 0 <= i < j < b.len() implies (#[trigger] b[i]).0 != (
    #[trigger] b[j]).0 by {
        let k = lemma_also_in(list, other, i);
        let m = lemma_also_in(list, other, j);
        assert(a[k] == b[i] && a[m] == b[j]);
        if k == m {
            assert(other[i] == other[j]);
        } else if k < m {
            assert(a[k].0 != a[m].0);
        } else {
            assert(a[m].0 != a[k].0);
        }
    }
    assert forall|term: Seq<char>| #[trigger] map.contains_key(term) implies exists|i: int|
        0 <= i < b.len() && (#[trigger] b[i]).0 == term by {
        let k = choose|k: int| 0 <= k < a.len() && (#[trigger] a[k]).0 == term;
        let i = lemma_also_in(other, list, k);
        assert(b[i] == a[k]);
    }
}

/// An element of one list is in any list of the same elements.
proof fn lemma_also_in(list: Seq<(&str, TermId)>, other: Seq<(&str, TermId)>, i: int) -> (k: int)
    requires
        other.to_multiset() == list.to_multiset(),
        0 <= i < other.len(),
    ensures
        0 <= k < list.len(),
        list[k] == other[i],
{
    list.to_multiset_ensures();
    other.to_multiset_ensures();
    assert(other.contains(other[i]));
    assert(other.to_multiset().count(other[i]) > 0);
    assert(list.to_multiset().count(other[i]) > 0);
    assert(list.contains(other[i]));
    list.index_of(other[i])
}

/// An ordered list without a term twice is strictly sorted.
proof fn lemma_strictly_sorted(list: Seq<(&str, TermId)>, map: Map<Seq<char>, u32>)
    requires
        in_order(list),
        dictionary::lists(entries(list), map),
    ensures
        sorted(entries(list)),
{
    let all = entries(list);
    assert forall|i: int, j: int| 0 <= i < j < all.len() implies precedes(
        (#[trigger] all[i]).0,
        (#[trigger] all[j]).0,
    ) by {
        assert(!precedes(list[j].0@, list[i].0@));
        terms_are_totally_ordered(all[i].0, all[j].0);
    }
}

} // verus!
