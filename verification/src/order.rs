//! Byte strings in lexicographic order.
//!
//! Keys and digest parts are kept in this order. On UTF-8 text it is the order in which `str`
//! compares.

use vstd::prelude::*;
use vstd::relations::{sorted_by, total_ordering};

verus! {

/// `a` comes no later than `b`: the first byte in which they differ decides, and a proper prefix
/// comes before what it is a prefix of.
pub open spec fn lex_le(a: Seq<u8>, b: Seq<u8>) -> bool
    decreases a.len(),
{
    if a.len() == 0 {
        true
    } else if b.len() == 0 {
        false
    } else if a[0] != b[0] {
        a[0] < b[0]
    } else {
        lex_le(a.drop_first(), b.drop_first())
    }
}

/// [`lex_le`] as a value.
pub open spec fn lex_order() -> spec_fn(Seq<u8>, Seq<u8>) -> bool {
    |a: Seq<u8>, b: Seq<u8>| lex_le(a, b)
}

pub proof fn lemma_lex_reflexive(a: Seq<u8>)
    ensures
        lex_le(a, a),
    decreases a.len(),
{
    if a.len() > 0 {
        lemma_lex_reflexive(a.drop_first());
    }
}

pub proof fn lemma_lex_antisymmetric(a: Seq<u8>, b: Seq<u8>)
    requires
        lex_le(a, b),
        lex_le(b, a),
    ensures
        a == b,
    decreases a.len(),
{
    if a.len() > 0 && b.len() > 0 {
        lemma_lex_antisymmetric(a.drop_first(), b.drop_first());
        assert(a =~= seq![a[0]] + a.drop_first());
        assert(b =~= seq![b[0]] + b.drop_first());
    } else {
        assert(a =~= b);
    }
}

pub proof fn lemma_lex_transitive(a: Seq<u8>, b: Seq<u8>, c: Seq<u8>)
    requires
        lex_le(a, b),
        lex_le(b, c),
    ensures
        lex_le(a, c),
    decreases a.len(),
{
    if a.len() > 0 && b.len() > 0 && c.len() > 0 && a[0] == b[0] && b[0] == c[0] {
        lemma_lex_transitive(a.drop_first(), b.drop_first(), c.drop_first());
    }
}

pub proof fn lemma_lex_total(a: Seq<u8>, b: Seq<u8>)
    ensures
        lex_le(a, b) || lex_le(b, a),
    decreases a.len(),
{
    if a.len() > 0 && b.len() > 0 && a[0] == b[0] {
        lemma_lex_total(a.drop_first(), b.drop_first());
    }
}

pub proof fn lemma_lex_total_ordering()
    ensures
        total_ordering(lex_order()),
{
    let leq = lex_order();
    assert forall|a: Seq<u8>| #[trigger] leq(a, a) by {
        lemma_lex_reflexive(a);
    }
    assert forall|a: Seq<u8>, b: Seq<u8>| #[trigger] leq(a, b) && #[trigger] leq(b, a) implies a
        == b by {
        lemma_lex_antisymmetric(a, b);
    }
    assert forall|a: Seq<u8>, b: Seq<u8>, c: Seq<u8>| #[trigger]
        leq(a, b) && #[trigger] leq(b, c) implies leq(a, c) by {
        lemma_lex_transitive(a, b, c);
    }
    assert forall|a: Seq<u8>, b: Seq<u8>| #[trigger] leq(a, b) || #[trigger] leq(b, a) by {
        lemma_lex_total(a, b);
    }
}

/// What the first `n` bytes decide, when they agree.
proof fn lemma_lex_common(a: Seq<u8>, b: Seq<u8>, n: int)
    requires
        0 <= n <= a.len(),
        n <= b.len(),
        a.take(n) == b.take(n),
    ensures
        lex_le(a, b) == lex_le(a.skip(n), b.skip(n)),
    decreases n,
{
    if n == 0 {
        assert(a.skip(0) =~= a);
        assert(b.skip(0) =~= b);
    } else {
        assert(a[0] == a.take(n)[0] && b[0] == b.take(n)[0]);
        assert(a.drop_first().take(n - 1) =~= a.take(n).drop_first());
        assert(b.drop_first().take(n - 1) =~= b.take(n).drop_first());
        lemma_lex_common(a.drop_first(), b.drop_first(), n - 1);
        assert(a.drop_first().skip(n - 1) =~= a.skip(n));
        assert(b.drop_first().skip(n - 1) =~= b.skip(n));
    }
}

/// Whether `a` comes no later than `b`.
pub fn bytes_le(a: &[u8], b: &[u8]) -> (r: bool)
    ensures
        r == lex_le(a@, b@),
{
    let mut i: usize = 0;
    while i < a.len() && i < b.len() && a[i] == b[i]
        invariant
            i <= a@.len(),
            i <= b@.len(),
            a@.take(i as int) == b@.take(i as int),
        decreases a@.len() - i,
    {
        proof {
            assert(a@.take(i + 1) =~= a@.take(i as int).push(a@[i as int]));
            assert(b@.take(i + 1) =~= b@.take(i as int).push(b@[i as int]));
        }
        i = i + 1;
    }
    proof {
        lemma_lex_common(a@, b@, i as int);
    }
    if i == a.len() {
        true
    } else if i == b.len() {
        false
    } else {
        a[i] < b[i]
    }
}

/// Whether the two byte strings are the same.
pub fn bytes_eq(a: &[u8], b: &[u8]) -> (r: bool)
    ensures
        r == (a@ == b@),
{
    if a.len() != b.len() {
        return false;
    }
    let mut i: usize = 0;
    while i < a.len()
        invariant
            i <= a@.len(),
            a@.len() == b@.len(),
            forall|j: int| 0 <= j < i ==> a@[j] == b@[j],
        decreases a@.len() - i,
    {
        if a[i] != b[i] {
            return false;
        }
        i = i + 1;
    }
    assert(a@ =~= b@);
    true
}

/// Whether `data` starts with `prefix`.
pub fn starts_with(data: &[u8], prefix: &[u8]) -> (r: bool)
    ensures
        r == prefix@.is_prefix_of(data@),
{
    if prefix.len() > data.len() {
        return false;
    }
    let mut i: usize = 0;
    while i < prefix.len()
        invariant
            i <= prefix@.len() <= data@.len(),
            forall|j: int| 0 <= j < i ==> prefix@[j] == data@[j],
        decreases prefix@.len() - i,
    {
        if prefix[i] != data[i] {
            assert(prefix@[i as int] != data@.subrange(0, prefix@.len() as int)[i as int]);
            return false;
        }
        i = i + 1;
    }
    assert(prefix@ =~= data@.subrange(0, prefix@.len() as int));
    true
}

/// The byte strings of a list.
pub open spec fn views(list: Seq<Vec<u8>>) -> Seq<Seq<u8>> {
    list.map_values(|v: Vec<u8>| v@)
}

/// The list put in lexicographic order.
pub open spec fn in_order(list: Seq<Seq<u8>>) -> Seq<Seq<u8>> {
    list.sort_by(lex_order())
}

/// Two lists of the same byte strings, each as often, have one order.
pub proof fn lemma_in_order_unique(list: Seq<Seq<u8>>, sorted: Seq<Seq<u8>>)
    requires
        sorted_by(sorted, lex_order()),
        sorted.to_multiset() == list.to_multiset(),
    ensures
        sorted == in_order(list),
{
    lemma_lex_total_ordering();
    list.lemma_sort_by_ensures(lex_order());
    vstd::seq_lib::lemma_sorted_unique(sorted, in_order(list), lex_order());
}

/// The order depends only on which byte strings the list holds, and how often.
pub proof fn lemma_in_order_same(a: Seq<Seq<u8>>, b: Seq<Seq<u8>>)
    requires
        a.to_multiset() == b.to_multiset(),
    ensures
        in_order(a) == in_order(b),
{
    lemma_lex_total_ordering();
    a.lemma_sort_by_ensures(lex_order());
    lemma_in_order_unique(b, in_order(a));
}

/// Where `item` belongs in a sorted list, behind everything that comes no later.
fn insert_position(list: &Vec<Vec<u8>>, item: &Vec<u8>) -> (r: usize)
    requires
        sorted_by(views(list@), lex_order()),
    ensures
        r <= list@.len(),
        forall|j: int| 0 <= j < r ==> lex_le(#[trigger] views(list@)[j], item@),
        forall|j: int| r <= j < list@.len() ==> lex_le(item@, #[trigger] views(list@)[j]),
{
    let mut low: usize = 0;
    let mut high: usize = list.len();
    while low < high
        invariant
            low <= high <= list@.len(),
            sorted_by(views(list@), lex_order()),
            forall|j: int| 0 <= j < low ==> lex_le(#[trigger] views(list@)[j], item@),
            forall|j: int| high <= j < list@.len() ==> lex_le(item@, #[trigger] views(list@)[j]),
        decreases high - low,
    {
        let mid: usize = low + (high - low) / 2;
        let ghost middle = views(list@)[mid as int];
        if bytes_le(list[mid].as_slice(), item.as_slice()) {
            proof {
                assert forall|j: int| 0 <= j < mid + 1 implies lex_le(
                    #[trigger] views(list@)[j],
                    item@,
                ) by {
                    if j < mid {
                        let leq = lex_order();
                        assert(leq(views(list@)[j], middle));
                        lemma_lex_transitive(views(list@)[j], middle, item@);
                    }
                }
            }
            low = mid + 1;
        } else {
            proof {
                lemma_lex_total(middle, item@);
                assert forall|j: int| mid <= j < list@.len() implies lex_le(
                    item@,
                    #[trigger] views(list@)[j],
                ) by {
                    if mid < j {
                        let leq = lex_order();
                        assert(leq(middle, views(list@)[j]));
                        lemma_lex_transitive(item@, middle, views(list@)[j]);
                    }
                }
            }
            high = mid;
        }
    }
    low
}

/// The list in lexicographic order.
pub fn sort(list: Vec<Vec<u8>>) -> (r: Vec<Vec<u8>>)
    ensures
        views(r@) == in_order(views(list@)),
{
    let mut list = list;
    let mut sorted: Vec<Vec<u8>> = Vec::new();
    let ghost all = views(list@);
    proof {
        broadcast use vstd::seq_lib::group_to_multiset_ensures;

        assert(views(sorted@) =~= Seq::<Seq<u8>>::empty());
        assert(all.to_multiset() =~= views(list@).to_multiset().add(
            views(sorted@).to_multiset(),
        ));
    }
    while list.len() > 0
        invariant
            sorted_by(views(sorted@), lex_order()),
            all.to_multiset() == views(list@).to_multiset().add(views(sorted@).to_multiset()),
        decreases list@.len(),
    {
        let ghost before = views(list@);
        let ghost done = views(sorted@);
        match list.pop() {
            None => {},
            Some(item) => {
                let at: usize = insert_position(&sorted, &item);
                let ghost value = item@;
                sorted.insert(at, item);
                proof {
                    broadcast use vstd::seq_lib::group_to_multiset_ensures;
                    broadcast use vstd::multiset::group_multiset_axioms;

                    assert(before =~= views(list@).push(value));
                    assert(views(sorted@) =~= done.insert(at as int, value));
                    assert(before.to_multiset() =~= views(list@).to_multiset().insert(value));
                    assert(views(sorted@).to_multiset() =~= done.to_multiset().insert(value));
                    assert(all.to_multiset() =~= views(list@).to_multiset().add(
                        views(sorted@).to_multiset(),
                    ));
                    let leq = lex_order();
                    assert forall|i: int, j: int| 0 <= i < j < views(sorted@).len() implies leq(
                        #[trigger] views(sorted@)[i],
                        #[trigger] views(sorted@)[j],
                    ) by {
                        let a = if i < at { i } else { i - 1 };
                        let b = if j < at { j } else { j - 1 };
                        if i != at && j != at {
                            assert(leq(done[a], done[b]));
                        }
                    }
                }
            },
        }
    }
    proof {
        broadcast use vstd::seq_lib::group_to_multiset_ensures;
        broadcast use vstd::multiset::group_multiset_axioms;

        assert(views(list@) =~= Seq::<Seq<u8>>::empty());
        assert(views(sorted@).to_multiset() =~= all.to_multiset());
        lemma_in_order_unique(all, views(sorted@));
    }
    sorted
}

/// The first byte in which two byte strings differ decides their order, and where one ends before they
/// differ, it comes first.
pub proof fn law_first_difference_decides(a: Seq<u8>, b: Seq<u8>, n: int)
    requires
        0 <= n <= a.len(),
        n <= b.len(),
        forall|i: int| 0 <= i < n ==> #[trigger] a[i] == b[i],
    ensures
        n < a.len() && n < b.len() && a[n] != b[n] ==> (lex_le(a, b) <==> a[n] < b[n]),
        n == a.len() ==> lex_le(a, b),
        n == b.len() && n < a.len() ==> !lex_le(a, b),
{
    assert(a.take(n) =~= b.take(n));
    lemma_lex_common(a, b, n);
    if n < a.len() {
        assert(a.skip(n)[0] == a[n]);
    }
    if n < b.len() {
        assert(b.skip(n)[0] == b[n]);
    }
}

proof fn lemma_difference(a: Seq<u8>, b: Seq<u8>)
    requires
        lex_le(a, b),
    ensures
        (a.len() <= b.len() && forall|i: int| 0 <= i < a.len() ==> #[trigger] a[i] == b[i])
            || exists|n: int|
            0 <= n < a.len() && n < b.len() && #[trigger] a[n] < b[n] && forall|i: int|
                0 <= i < n ==> #[trigger] a[i] == b[i],
    decreases a.len(),
{
    if a.len() > 0 && b.len() > 0 {
        if a[0] != b[0] {
            assert(a[0] < b[0]);
        } else {
            let x = a.drop_first();
            let y = b.drop_first();
            lemma_difference(x, y);
            if x.len() <= y.len() && forall|i: int| 0 <= i < x.len() ==> #[trigger] x[i] == y[i] {
                assert forall|i: int| 0 <= i < a.len() implies #[trigger] a[i] == b[i] by {
                    if i > 0 {
                        assert(x[i - 1] == y[i - 1]);
                    }
                }
            } else {
                let n = choose|n: int|
                    0 <= n < x.len() && n < y.len() && #[trigger] x[n] < y[n] && forall|i: int|
                        0 <= i < n ==> #[trigger] x[i] == y[i];
                assert(a[n + 1] < b[n + 1]);
                assert forall|i: int| 0 <= i < n + 1 implies #[trigger] a[i] == b[i] by {
                    if i > 0 {
                        assert(x[i - 1] == y[i - 1]);
                    }
                }
            }
        }
    }
}

/// A list that is put in order holds the same byte strings, each as often, and of any two of them the
/// one that comes first is a prefix of the other, or has the smaller byte where they first differ.
pub proof fn law_in_order_is_ascending(list: Seq<Seq<u8>>)
    ensures
        in_order(list).len() == list.len(),
        in_order(list).to_multiset() == list.to_multiset(),
        forall|i: int, j: int|
            0 <= i < j < list.len() ==> {
                let a = #[trigger] in_order(list)[i];
                let b = #[trigger] in_order(list)[j];
                ||| a.len() <= b.len() && forall|k: int|
                    0 <= k < a.len() ==> #[trigger] a[k] == b[k]
                ||| exists|n: int|
                    0 <= n < a.len() && n < b.len() && #[trigger] a[n] < b[n] && forall|k: int|
                        0 <= k < n ==> #[trigger] a[k] == b[k]
            },
{
    broadcast use vstd::seq_lib::group_to_multiset_ensures;

    lemma_lex_total_ordering();
    list.lemma_sort_by_ensures(lex_order());
    assert(in_order(list).len() == in_order(list).to_multiset().len());
    assert(list.len() == list.to_multiset().len());
    let leq = lex_order();
    assert forall|i: int, j: int| 0 <= i < j < list.len() implies {
        let a = #[trigger] in_order(list)[i];
        let b = #[trigger] in_order(list)[j];
        ||| a.len() <= b.len() && forall|k: int| 0 <= k < a.len() ==> #[trigger] a[k] == b[k]
        ||| exists|n: int|
            0 <= n < a.len() && n < b.len() && #[trigger] a[n] < b[n] && forall|k: int|
                0 <= k < n ==> #[trigger] a[k] == b[k]
    } by {
        assert(leq(in_order(list)[i], in_order(list)[j]));
        lemma_difference(in_order(list)[i], in_order(list)[j]);
    }
}

/// What is told of a list of byte strings is all that it holds.
pub proof fn law_byte_strings_are_told(list: Seq<Vec<u8>>)
    ensures
        views(list).len() == list.len(),
        forall|i: int| 0 <= i < list.len() ==> #[trigger] views(list)[i] == list[i]@,
{
}

} // verus!
