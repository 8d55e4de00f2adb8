//! Counting the items of a sequence that are among some names.

use vstd::prelude::*;

verus! {

/// How many of the first `n` items equal `name`.
pub open spec fn count_of<K>(items: Seq<K>, name: K, n: int) -> int
    decreases n,
{
    if n <= 0 {
        0
    } else {
        count_of(items, name, n - 1) + if n <= items.len() && items[n - 1] == name {
            1int
        } else {
            0int
        }
    }
}

/// How many of the first `n` items are among `names`.
pub open spec fn count_in<K>(items: Seq<K>, names: Seq<K>, n: int) -> int
    decreases n,
{
    if n <= 0 {
        0
    } else {
        count_in(items, names, n - 1) + if n <= items.len() && names.contains(items[n - 1]) {
            1int
        } else {
            0int
        }
    }
}

/// A name that is counted stands among the items.
proof fn lemma_count_of_witness<K>(items: Seq<K>, name: K, n: int)
    requires
        count_of(items, name, n) > 0,
    ensures
        exists|k: int| 0 <= k < n && k < items.len() && items[k] == name,
    decreases n,
{
    if n > 0 {
        if n <= items.len() && items[n - 1] == name {
            assert(items[n - 1] == name);
        } else {
            lemma_count_of_witness(items, name, n - 1);
        }
    }
}

/// A name that stands among the first `n` items is counted.
pub proof fn lemma_count_of_present<K>(items: Seq<K>, name: K, n: int, k: int)
    requires
        0 <= k < n <= items.len(),
        items[k] == name,
    ensures
        count_of(items, name, n) >= 1,
    decreases n,
{
    lemma_count_of_sign(items, name, n - 1);
    if k < n - 1 {
        lemma_count_of_present(items, name, n - 1, k);
    }
}

/// A count is not negative.
pub proof fn lemma_count_of_sign<K>(items: Seq<K>, name: K, n: int)
    ensures
        count_of(items, name, n) >= 0,
    decreases n,
{
    if n > 0 {
        lemma_count_of_sign(items, name, n - 1);
    }
}

/// Among items of which none stands twice, a name stands at most once.
pub proof fn lemma_count_of_once<K>(items: Seq<K>, name: K, n: int)
    requires
        items.no_duplicates(),
    ensures
        0 <= count_of(items, name, n) <= 1,
    decreases n,
{
    if n > 0 {
        lemma_count_of_once(items, name, n - 1);
        if n <= items.len() && items[n - 1] == name && count_of(items, name, n - 1) > 0 {
            lemma_count_of_witness(items, name, n - 1);
            let k = choose|k: int| 0 <= k < n - 1 && k < items.len() && items[k] == name;
            assert(items[k] == items[n - 1]);
        }
    }
}

/// A count is not negative.
proof fn lemma_count_in_sign<K>(items: Seq<K>, names: Seq<K>, n: int)
    ensures
        0 <= count_in(items, names, n),
    decreases n,
{
    if n > 0 {
        lemma_count_in_sign(items, names, n - 1);
    }
}

/// No item is among no names.
proof fn lemma_count_in_none<K>(items: Seq<K>, names: Seq<K>, n: int)
    requires
        names.len() == 0,
    ensures
        count_in(items, names, n) == 0,
    decreases n,
{
    if n > 0 {
        lemma_count_in_none(items, names, n - 1);
    }
}

/// An item among some names is among all but the last of them, or is the
/// last.
proof fn lemma_count_in_split<K>(items: Seq<K>, names: Seq<K>, n: int)
    requires
        names.len() > 0,
    ensures
        count_in(items, names, n) <= count_in(items, names.drop_last(), n) + count_of(
            items,
            names.last(),
            n,
        ),
        0 <= count_of(items, names.last(), n),
    decreases n,
{
    if n > 0 {
        lemma_count_in_split(items, names, n - 1);
        if n <= items.len() && names.contains(items[n - 1]) {
            let item = items[n - 1];
            let i = choose|i: int| 0 <= i < names.len() && names[i] == item;
            if i < names.len() - 1 {
                assert(names.drop_last()[i] == item);
            }
        }
    }
}

/// Of items of which none stands twice, no more are among some names than
/// there are names.
pub proof fn lemma_count_in_bounded<K>(items: Seq<K>, names: Seq<K>, n: int)
    requires
        items.no_duplicates(),
    ensures
        0 <= count_in(items, names, n) <= names.len(),
    decreases names.len(),
{
    lemma_count_in_sign(items, names, n);
    if names.len() == 0 {
        lemma_count_in_none(items, names, n);
    } else {
        lemma_count_in_bounded(items, names.drop_last(), n);
        lemma_count_in_split(items, names, n);
        lemma_count_of_once(items, names.last(), n);
    }
}

/// Where two sequences hold together what a third holds, and nothing
/// stands twice in the third, what one of the two holds the third holds
/// and the other does not.
pub proof fn lemma_parts<K>(a: Seq<K>, b: Seq<K>, whole: Seq<K>)
    requires
        a.to_multiset().add(b.to_multiset()) == whole.to_multiset(),
        whole.no_duplicates(),
    ensures
        forall|x: K| a.contains(x) ==> whole.contains(x) && !b.contains(x),
        forall|x: K| b.contains(x) ==> whole.contains(x) && !a.contains(x),
{
    whole.lemma_multiset_has_no_duplicates();
    assert forall|x: K| a.contains(x) implies whole.contains(x) && !b.contains(x) by {
        vstd::seq_lib::to_multiset_contains(a, x);
        vstd::seq_lib::to_multiset_contains(b, x);
        vstd::seq_lib::to_multiset_contains(whole, x);
        assert(whole.to_multiset().count(x) == a.to_multiset().count(x) + b.to_multiset().count(
            x,
        ));
    }
    assert forall|x: K| b.contains(x) implies whole.contains(x) && !a.contains(x) by {
        vstd::seq_lib::to_multiset_contains(a, x);
        vstd::seq_lib::to_multiset_contains(b, x);
        vstd::seq_lib::to_multiset_contains(whole, x);
        assert(whole.to_multiset().count(x) == a.to_multiset().count(x) + b.to_multiset().count(
            x,
        ));
    }
}

} // verus!
