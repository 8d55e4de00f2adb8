//! Drawing tributes out of a pool, one after the other and without putting
//! any back.

use vstd::prelude::*;
use crate::tribute::{ids_distinct, ids_of, Tribute};

verus! {

/// What is left of a pool after the tributes at the places `picks` have been
/// taken from it one after the other, each place counted in what was left
/// before it.
pub open spec fn left(pool: Seq<Tribute>, picks: Seq<int>) -> Seq<Tribute>
    decreases picks.len(),
{
    if picks.len() == 0 {
        pool
    } else {
        left(pool, picks.drop_last()).remove(picks.last())
    }
}

/// The tributes taken from a pool at the places `picks`, in the order in
/// which they were taken.
pub open spec fn drawn(pool: Seq<Tribute>, picks: Seq<int>) -> Seq<Tribute>
    decreases picks.len(),
{
    if picks.len() == 0 {
        Seq::empty()
    } else {
        drawn(pool, picks.drop_last()).push(left(pool, picks.drop_last())[picks.last()])
    }
}

/// Whether each of `picks` is a place in what is left of a pool of `len`
/// tributes when it is taken.
pub open spec fn valid_picks(len: int, picks: Seq<int>) -> bool {
    forall|k: int| 0 <= k < picks.len() ==> 0 <= #[trigger] picks[k] < len - k
}

/// Each draw takes one tribute out of the pool.
pub proof fn lemma_draw_len(pool: Seq<Tribute>, picks: Seq<int>)
    requires
        valid_picks(pool.len() as int, picks),
    ensures
        left(pool, picks).len() == pool.len() - picks.len(),
        drawn(pool, picks).len() == picks.len(),
    decreases picks.len(),
{
    if picks.len() > 0 {
        let before = picks.drop_last();
        assert forall|k: int| 0 <= k < before.len() implies 0 <= #[trigger] before[k] < pool.len()
            - k by {
            assert(before[k] == picks[k]);
        }
        lemma_draw_len(pool, before);
        assert(0 <= picks[picks.len() - 1] < pool.len() - (picks.len() - 1));
    }
}

/// The tributes drawn from a pool, and those left in it, are tributes of
/// the pool.
pub proof fn lemma_draw_within(pool: Seq<Tribute>, picks: Seq<int>)
    requires
        valid_picks(pool.len() as int, picks),
    ensures
        forall|k: int|
            0 <= k < drawn(pool, picks).len() ==> pool.contains(#[trigger] drawn(pool, picks)[k]),
        forall|j: int|
            0 <= j < left(pool, picks).len() ==> pool.contains(#[trigger] left(pool, picks)[j]),
    decreases picks.len(),
{
    lemma_draw_len(pool, picks);
    if picks.len() > 0 {
        let before = picks.drop_last();
        assert forall|k: int| 0 <= k < before.len() implies 0 <= #[trigger] before[k] < pool.len()
            - k by {
            assert(before[k] == picks[k]);
        }
        lemma_draw_len(pool, before);
        lemma_draw_within(pool, before);
        let p = picks.last();
        assert(0 <= picks[picks.len() - 1] < pool.len() - (picks.len() - 1));
        let d0 = drawn(pool, before);
        let l0 = left(pool, before);
        let d1 = drawn(pool, picks);
        let l1 = left(pool, picks);
        assert forall|k: int| 0 <= k < d1.len() implies pool.contains(#[trigger] d1[k]) by {
            if k < d0.len() {
                assert(d1[k] == d0[k]);
            } else {
                assert(d1[k] == l0[p]);
            }
        }
        assert forall|j: int| 0 <= j < l1.len() implies pool.contains(#[trigger] l1[j]) by {
            if j < p {
                assert(l1[j] == l0[j]);
            } else {
                assert(l1[j] == l0[j + 1]);
            }
        }
    }
}

/// The tributes drawn from a pool and those left in it are, together, the
/// tributes of the pool.
pub proof fn lemma_draw_bag(pool: Seq<Tribute>, picks: Seq<int>)
    requires
        valid_picks(pool.len() as int, picks),
    ensures
        ids_of(drawn(pool, picks)).to_multiset().add(ids_of(left(pool, picks)).to_multiset())
            == ids_of(pool).to_multiset(),
    decreases picks.len(),
{
    lemma_draw_len(pool, picks);
    if picks.len() == 0 {
        assert(ids_of(drawn(pool, picks)) =~= Seq::<usize>::empty());
        vstd::seq_lib::lemma_multiset_commutative(
            ids_of(drawn(pool, picks)),
            ids_of(left(pool, picks)),
        );
        assert(ids_of(drawn(pool, picks)) + ids_of(left(pool, picks)) =~= ids_of(pool));
    } else {
        let before = picks.drop_last();
        assert forall|k: int| 0 <= k < before.len() implies 0 <= #[trigger] before[k] < pool.len()
            - k by {
            assert(before[k] == picks[k]);
        }
        lemma_draw_len(pool, before);
        lemma_draw_bag(pool, before);
        let p = picks.last();
        assert(0 <= picks[picks.len() - 1] < pool.len() - (picks.len() - 1));
        let d0 = ids_of(drawn(pool, before));
        let l0 = ids_of(left(pool, before));
        let d1 = ids_of(drawn(pool, picks));
        let l1 = ids_of(left(pool, picks));
        assert(d1 =~= d0.push(l0[p]));
        assert(l1 =~= l0.remove(p));
        vstd::seq_lib::to_multiset_build(d0, l0[p]);
        vstd::seq_lib::to_multiset_remove(l0, p);
        vstd::seq_lib::to_multiset_contains(l0, l0[p]);
        assert(l0.contains(l0[p]));
        assert(d1.to_multiset().add(l1.to_multiset()) =~= d0.to_multiset().add(l0.to_multiset()));
    }
}

/// The tributes drawn from a pool and those left in it are the tributes of
/// the pool: where no identity stood twice in the pool, none stands twice
/// among them.
pub proof fn lemma_draw_distinct(pool: Seq<Tribute>, picks: Seq<int>)
    requires
        valid_picks(pool.len() as int, picks),
        ids_distinct(pool),
    ensures
        ids_distinct(drawn(pool, picks) + left(pool, picks)),
        ids_distinct(drawn(pool, picks)),
        ids_distinct(left(pool, picks)),
    decreases picks.len(),
{
    lemma_draw_len(pool, picks);
    if picks.len() == 0 {
        assert(drawn(pool, picks) + left(pool, picks) =~= pool);
    } else {
        let before = picks.drop_last();
        assert forall|k: int| 0 <= k < before.len() implies 0 <= #[trigger] before[k] < pool.len()
            - k by {
            assert(before[k] == picks[k]);
        }
        lemma_draw_len(pool, before);
        lemma_draw_distinct(pool, before);
        let p = picks.last();
        assert(0 <= picks[picks.len() - 1] < pool.len() - (picks.len() - 1));
        let d0 = drawn(pool, before);
        let l0 = left(pool, before);
        let all0 = d0 + l0;
        let d1 = drawn(pool, picks);
        let l1 = left(pool, picks);
        let all1 = d1 + l1;
        let n = d0.len() as int;
        // where each tribute stood before this draw
        let origin = |i: int|
            if i < n {
                i
            } else if i == n {
                n + p
            } else if i - n - 1 < p {
                i - 1
            } else {
                i
            };
        assert forall|i: int| 0 <= i < all1.len() implies 0 <= origin(i) < all0.len()
            && #[trigger] all1[i] == all0[origin(i)] by {
            if i < n {
                assert(all1[i] == d1[i]);
            } else if i == n {
                assert(all1[i] == d1[i]);
            } else {
                assert(all1[i] == l1[i - n - 1]);
            }
        }
        assert forall|i: int, j: int| 0 <= i < j < all1.len() implies all1[i].id
            != all1[j].id by {
            assert(all1[i] == all0[origin(i)]);
            assert(all1[j] == all0[origin(j)]);
            assert(origin(i) != origin(j));
            if origin(i) < origin(j) {
                assert(all0[origin(i)].id != all0[origin(j)].id);
            } else {
                assert(all0[origin(j)].id != all0[origin(i)].id);
            }
        }
    }
    let d = drawn(pool, picks);
    let l = left(pool, picks);
    assert forall|i: int, j: int| 0 <= i < j < d.len() implies d[i].id != d[j].id by {
        assert((d + l)[i] == d[i]);
        assert((d + l)[j] == d[j]);
    }
    assert forall|i: int, j: int| 0 <= i < j < l.len() implies l[i].id != l[j].id by {
        assert((d + l)[d.len() + i] == l[i]);
        assert((d + l)[d.len() + j] == l[j]);
    }
}

} // verus!
