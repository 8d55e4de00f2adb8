//! The order of the roles of an event: by the digit of their slot, and among
//! equal digits by first occurrence.

use vstd::multiset::Multiset;
use vstd::prelude::*;

verus! {

/// The indices of a sequence as integers.
pub open spec fn as_ints(v: Seq<usize>) -> Seq<int> {
    v.map_values(|p: usize| p as int)
}

/// The positions among the first `n` of `numbers` that hold `d`, rising.
pub open spec fn positions_of(numbers: Seq<u32>, d: int, n: int) -> Seq<int>
    decreases n,
{
    if n <= 0 {
        Seq::empty()
    } else {
        let head = positions_of(numbers, d, n - 1);
        if n <= numbers.len() && numbers[n - 1] == d {
            head.push(n - 1)
        } else {
            head
        }
    }
}

/// The positions of `numbers` that hold a number below `upto`, ordered by
/// that number, and rising among those of one number.
pub open spec fn order_upto(numbers: Seq<u32>, upto: int) -> Seq<int>
    decreases upto,
{
    if upto <= 0 {
        Seq::empty()
    } else {
        order_upto(numbers, upto - 1) + positions_of(numbers, upto - 1, numbers.len() as int)
    }
}

/// The positions of the slot digits `numbers`, ordered by digit, and by
/// position among those of one digit.
pub open spec fn slot_order(numbers: Seq<u32>) -> Seq<int> {
    order_upto(numbers, 10)
}

/// How many of the first `n` of `numbers` are below `upto`.
pub open spec fn count_below(numbers: Seq<u32>, upto: int, n: int) -> int
    decreases n,
{
    if n <= 0 {
        0
    } else {
        count_below(numbers, upto, n - 1) + if n <= numbers.len() && numbers[n - 1] < upto {
            1int
        } else {
            0int
        }
    }
}

/// The positions that hold `d` are positions of `numbers` below `n`, hold
/// `d`, and rise.
pub proof fn lemma_positions(numbers: Seq<u32>, d: int, n: int)
    ensures
        forall|k: int|
            0 <= k < positions_of(numbers, d, n).len() ==> {
                let p = #[trigger] positions_of(numbers, d, n)[k];
                0 <= p < n && p < numbers.len() && numbers[p] == d
            },
        forall|j: int, k: int|
            0 <= j < k < positions_of(numbers, d, n).len() ==> positions_of(numbers, d, n)[j]
                < positions_of(numbers, d, n)[k],
    decreases n,
{
    if n > 0 {
        lemma_positions(numbers, d, n - 1);
        let head = positions_of(numbers, d, n - 1);
        let all = positions_of(numbers, d, n);
        assert forall|k: int| 0 <= k < all.len() implies {
            let p = #[trigger] all[k];
            0 <= p < n && p < numbers.len() && numbers[p] == d
        } by {
            if k < head.len() {
                assert(all[k] == head[k]);
            }
        }
        assert forall|j: int, k: int| 0 <= j < k < all.len() implies all[j] < all[k] by {
            assert(all[j] == head[j]);
            if k < head.len() {
                assert(all[k] == head[k]);
            }
        }
    }
}

/// A number is below `upto` if it is below `upto - 1` or equal to it.
proof fn lemma_count_split(numbers: Seq<u32>, upto: int, n: int)
    requires
        upto >= 1,
    ensures
        count_below(numbers, upto, n) == count_below(numbers, upto - 1, n) + positions_of(
            numbers,
            upto - 1,
            n,
        ).len(),
    decreases n,
{
    if n > 0 {
        lemma_count_split(numbers, upto, n - 1);
    }
}

/// Where every number is below `upto`, all of them count.
proof fn lemma_count_all(numbers: Seq<u32>, upto: int, n: int)
    requires
        0 <= n <= numbers.len(),
        forall|i: int| 0 <= i < numbers.len() ==> numbers[i] < upto,
    ensures
        count_below(numbers, upto, n) == n,
    decreases n,
{
    if n > 0 {
        lemma_count_all(numbers, upto, n - 1);
    }
}

/// The order up to a number holds positions of `numbers` with a number below
/// it, each once, as many as there are.
pub proof fn lemma_order_upto(numbers: Seq<u32>, upto: int)
    ensures
        order_upto(numbers, upto).len() == count_below(numbers, upto, numbers.len() as int),
        forall|k: int|
            0 <= k < order_upto(numbers, upto).len() ==> {
                let p = #[trigger] order_upto(numbers, upto)[k];
                0 <= p < numbers.len() && numbers[p] < upto
            },
        order_upto(numbers, upto).no_duplicates(),
    decreases upto,
{
    if upto > 0 {
        lemma_order_upto(numbers, upto - 1);
        lemma_positions(numbers, upto - 1, numbers.len() as int);
        lemma_count_split(numbers, upto, numbers.len() as int);
        let head = order_upto(numbers, upto - 1);
        let tail = positions_of(numbers, upto - 1, numbers.len() as int);
        assert forall|j: int, k: int|
            0 <= j < (head + tail).len() && 0 <= k < (head + tail).len() && j != k implies (head
            + tail)[j] != (head + tail)[k] by {
            if j < head.len() {
                assert((head + tail)[j] == head[j]);
            } else {
                assert((head + tail)[j] == tail[j - head.len()]);
            }
            if k < head.len() {
                assert((head + tail)[k] == head[k]);
            } else {
                assert((head + tail)[k] == tail[k - head.len()]);
            }
        }
    } else {
        lemma_count_none(numbers, upto, numbers.len() as int);
    }
}

/// No number is below zero.
proof fn lemma_count_none(numbers: Seq<u32>, upto: int, n: int)
    requires
        upto <= 0,
    ensures
        count_below(numbers, upto, n) == 0,
    decreases n,
{
    if n > 0 {
        lemma_count_none(numbers, upto, n - 1);
    }
}

/// The order of slot digits holds every position once.
pub proof fn lemma_slot_order(numbers: Seq<u32>)
    requires
        forall|i: int| 0 <= i < numbers.len() ==> numbers[i] < 10,
    ensures
        slot_order(numbers).len() == numbers.len(),
        forall|k: int|
            0 <= k < slot_order(numbers).len() ==> 0 <= #[trigger] slot_order(numbers)[k]
                < numbers.len(),
        slot_order(numbers).no_duplicates(),
{
    lemma_order_upto(numbers, 10);
    lemma_count_all(numbers, 10, numbers.len() as int);
}

/// The items at some positions.
pub open spec fn picked<A>(items: Seq<A>, positions: Seq<int>) -> Seq<A> {
    positions.map_values(|p: int| items[p])
}

/// The items among the first `n` whose number is `d`.
pub open spec fn bag_of<A>(items: Seq<A>, numbers: Seq<u32>, d: int, n: int) -> Multiset<A>
    decreases n,
{
    if n <= 0 {
        Multiset::empty()
    } else if n <= numbers.len() && numbers[n - 1] == d {
        bag_of(items, numbers, d, n - 1).insert(items[n - 1])
    } else {
        bag_of(items, numbers, d, n - 1)
    }
}

/// The items among the first `n` whose number is below `upto`.
pub open spec fn bag_below<A>(items: Seq<A>, numbers: Seq<u32>, upto: int, n: int) -> Multiset<A>
    decreases n,
{
    if n <= 0 {
        Multiset::empty()
    } else if n <= numbers.len() && numbers[n - 1] < upto {
        bag_below(items, numbers, upto, n - 1).insert(items[n - 1])
    } else {
        bag_below(items, numbers, upto, n - 1)
    }
}

/// The items at the positions of a number are the items of that number.
proof fn lemma_picked_positions<A>(items: Seq<A>, numbers: Seq<u32>, d: int, n: int)
    ensures
        picked(items, positions_of(numbers, d, n)).to_multiset() == bag_of(items, numbers, d, n),
    decreases n,
{
    if n <= 0 {
        assert(picked(items, positions_of(numbers, d, n)) =~= Seq::<A>::empty());
        assert(Seq::<A>::empty().to_multiset() =~= Multiset::<A>::empty()) by {
            vstd::seq_lib::to_multiset_len(Seq::<A>::empty());
            vstd::multiset::lemma_multiset_empty_len(Seq::<A>::empty().to_multiset());
        }
    } else {
        lemma_picked_positions(items, numbers, d, n - 1);
        if n <= numbers.len() && numbers[n - 1] == d {
            let head = positions_of(numbers, d, n - 1);
            assert(picked(items, head.push(n - 1)) =~= picked(items, head).push(items[n - 1]));
            vstd::seq_lib::to_multiset_build(picked(items, head), items[n - 1]);
        }
    }
}

/// The items below a number are those below the number before and those of
/// it.
proof fn lemma_bag_split<A>(items: Seq<A>, numbers: Seq<u32>, upto: int, n: int)
    requires
        upto >= 1,
    ensures
        bag_below(items, numbers, upto, n) == bag_below(items, numbers, upto - 1, n).add(
            bag_of(items, numbers, upto - 1, n),
        ),
    decreases n,
{
    if n > 0 {
        lemma_bag_split(items, numbers, upto, n - 1);
    }
    assert(bag_below(items, numbers, upto, n) =~= bag_below(items, numbers, upto - 1, n).add(
        bag_of(items, numbers, upto - 1, n),
    ));
}

/// No item has a number below zero.
proof fn lemma_bag_none<A>(items: Seq<A>, numbers: Seq<u32>, upto: int, n: int)
    requires
        upto <= 0,
    ensures
        bag_below(items, numbers, upto, n) == Multiset::<A>::empty(),
    decreases n,
{
    if n > 0 {
        lemma_bag_none(items, numbers, upto, n - 1);
    }
}

/// Where every number is below `upto`, the items below it are all items.
proof fn lemma_bag_all<A>(items: Seq<A>, numbers: Seq<u32>, upto: int, n: int)
    requires
        0 <= n <= items.len(),
        items.len() == numbers.len(),
        forall|i: int| 0 <= i < numbers.len() ==> numbers[i] < upto,
    ensures
        bag_below(items, numbers, upto, n) == items.take(n).to_multiset(),
    decreases n,
{
    if n <= 0 {
        assert(items.take(n) =~= Seq::<A>::empty());
        assert(Seq::<A>::empty().to_multiset() =~= Multiset::<A>::empty()) by {
            vstd::seq_lib::to_multiset_len(Seq::<A>::empty());
            vstd::multiset::lemma_multiset_empty_len(Seq::<A>::empty().to_multiset());
        }
    } else {
        lemma_bag_all(items, numbers, upto, n - 1);
        assert(items.take(n) =~= items.take(n - 1).push(items[n - 1]));
        vstd::seq_lib::to_multiset_build(items.take(n - 1), items[n - 1]);
    }
}

/// The items in the order up to a number are the items below that number.
proof fn lemma_picked_order<A>(items: Seq<A>, numbers: Seq<u32>, upto: int)
    ensures
        picked(items, order_upto(numbers, upto)).to_multiset() == bag_below(
            items,
            numbers,
            upto,
            numbers.len() as int,
        ),
    decreases upto,
{
    if upto <= 0 {
        lemma_bag_none(items, numbers, upto, numbers.len() as int);
        assert(picked(items, order_upto(numbers, upto)) =~= Seq::<A>::empty());
        assert(Seq::<A>::empty().to_multiset() =~= Multiset::<A>::empty()) by {
            vstd::seq_lib::to_multiset_len(Seq::<A>::empty());
            vstd::multiset::lemma_multiset_empty_len(Seq::<A>::empty().to_multiset());
        }
    } else {
        lemma_picked_order(items, numbers, upto - 1);
        lemma_picked_positions(items, numbers, upto - 1, numbers.len() as int);
        lemma_bag_split(items, numbers, upto, numbers.len() as int);
        let head = order_upto(numbers, upto - 1);
        let tail = positions_of(numbers, upto - 1, numbers.len() as int);
        assert(picked(items, head + tail) =~= picked(items, head) + picked(items, tail));
        vstd::seq_lib::lemma_multiset_commutative(picked(items, head), picked(items, tail));
    }
}

/// The items in the order of their slot digits are the same items.
pub proof fn lemma_slot_order_bag<A>(items: Seq<A>, numbers: Seq<u32>)
    requires
        items.len() == numbers.len(),
        forall|i: int| 0 <= i < numbers.len() ==> numbers[i] < 10,
    ensures
        picked(items, slot_order(numbers)).to_multiset() == items.to_multiset(),
{
    lemma_picked_order(items, numbers, 10);
    lemma_bag_all(items, numbers, 10, items.len() as int);
    assert(items.take(items.len() as int) =~= items);
}

/// The positions of the slot digits `numbers`, ordered by digit, and by
/// position among those of one digit.
pub fn order_by_number(numbers: &Vec<u32>) -> (r: Vec<usize>)
    requires
        forall|i: int| 0 <= i < numbers.len() ==> numbers[i] < 10,
    ensures
        as_ints(r@) == slot_order(numbers@),
        r.len() == numbers.len(),
        forall|k: int| 0 <= k < r.len() ==> #[trigger] r[k] < numbers.len(),
{
    let mut out: Vec<usize> = Vec::new();
    let mut d: u32 = 0;
    assert(as_ints(out@) =~= order_upto(numbers@, 0));
    while d < 10
        invariant
            d <= 10,
            as_ints(out@) == order_upto(numbers@, d as int),
        decreases 10 - d,
    {
        let ghost head = as_ints(out@);
        let mut i: usize = 0;
        assert(as_ints(out@) =~= head + positions_of(numbers@, d as int, 0));
        while i < numbers.len()
            invariant
                i <= numbers.len(),
                as_ints(out@) == head + positions_of(numbers@, d as int, i as int),
            decreases numbers.len() - i,
        {
            if numbers[i] == d {
                let ghost before = as_ints(out@);
                out.push(i);
                assert(as_ints(out@) =~= before.push(i as int));
                assert(positions_of(numbers@, d as int, i + 1) == positions_of(
                    numbers@,
                    d as int,
                    i as int,
                ).push(i as int));
                assert(as_ints(out@) =~= head + positions_of(numbers@, d as int, i + 1));
            }
            i += 1;
        }
        d += 1;
    }
    proof {
        lemma_slot_order(numbers@);
        assert forall|k: int| 0 <= k < out.len() implies #[trigger] out[k] < numbers.len() by {
            assert(as_ints(out@)[k] == out[k]);
        }
    }
    out
}

} // verus!
