//! The buy-side container: a depth-bounded ordered set of bids keyed by
//! `(price, venue)`, kept as a vector sorted worst-to-best in the storage
//! order `bid_before`, with no zero-quantity entries and no duplicate keys.

use crate::order_book::price_level::{
    bid_before, bid_cmp_spec, bid_same_key, Bid, LevelOrdering,
};
use vstd::prelude::*;

verus! {

/// Well-formedness of a stored buy side: strictly sorted worst-to-best,
/// no two entries with the same `(price, venue)`, and no zero quantities.
pub open spec fn bid_side_wf(s: Seq<Bid>) -> bool {
    &&& forall|i: int, j: int| 0 <= i < j < s.len() ==> #[trigger] bid_before(s[i], s[j])
    &&& forall|i: int, j: int| 0 <= i < j < s.len() ==> !#[trigger] bid_same_key(s[i], s[j])
    &&& forall|i: int| 0 <= i < s.len() ==> (#[trigger] s[i]).quantity != 0
}

/// The stored sequence with any entry keyed like `b` removed.
pub open spec fn bid_remove_key(s: Seq<Bid>, b: Bid) -> Seq<Bid>
    decreases s.len(),
{
    if s.len() == 0 {
        s
    } else if bid_same_key(s[0], b) {
        s.drop_first()
    } else {
        seq![s[0]] + bid_remove_key(s.drop_first(), b)
    }
}

/// The stored sequence with `b` placed at its sorted position.
pub open spec fn bid_insert_sorted(s: Seq<Bid>, b: Bid) -> Seq<Bid>
    decreases s.len(),
{
    if s.len() == 0 {
        seq![b]
    } else if bid_before(b, s[0]) {
        seq![b] + s
    } else {
        seq![s[0]] + bid_insert_sorted(s.drop_first(), b)
    }
}

/// One update applied to a stored buy side of depth bound `d`: quantity `0`
/// deletes the entry with the same key; below the bound the entry is inserted
/// or replaced; at the bound the worst entry is evicted first, but only when
/// the new bid strictly improves on it, and the update is dropped otherwise.
pub open spec fn bid_update_spec(s: Seq<Bid>, b: Bid, d: nat) -> Seq<Bid> {
    if b.quantity == 0 {
        bid_remove_key(s, b)
    } else if s.len() < d {
        bid_insert_sorted(bid_remove_key(s, b), b)
    } else if s.len() > 0 && bid_cmp_spec(b, s[0]) == LevelOrdering::Greater {
        bid_insert_sorted(bid_remove_key(s.drop_first(), b), b)
    } else {
        s
    }
}

proof fn lemma_bid_remove_key_no_match(s: Seq<Bid>, b: Bid)
    requires
        forall|i: int| 0 <= i < s.len() ==> !bid_same_key(#[trigger] s[i], b),
    ensures
        bid_remove_key(s, b) == s,
    decreases s.len(),
{
    if s.len() > 0 {
        assert(forall|i: int|
            0 <= i < s.drop_first().len() ==> !bid_same_key(
                #[trigger] s.drop_first()[i],
                b,
            )) by {
            assert(forall|i: int|
                0 <= i < s.drop_first().len() ==> #[trigger] s.drop_first()[i] == s[i + 1]);
        }
        lemma_bid_remove_key_no_match(s.drop_first(), b);
        assert(seq![s[0]] + s.drop_first() =~= s);
    }
}

proof fn lemma_bid_remove_key_at(s: Seq<Bid>, b: Bid, i: int)
    requires
        0 <= i < s.len(),
        bid_same_key(s[i], b),
        forall|j: int| 0 <= j < i ==> !bid_same_key(#[trigger] s[j], b),
    ensures
        bid_remove_key(s, b) == s.remove(i),
    decreases i,
{
    if i == 0 {
        assert(s.drop_first() =~= s.remove(0));
    } else {
        lemma_bid_remove_key_at(s.drop_first(), b, i - 1);
        assert(seq![s[0]] + s.drop_first().remove(i - 1) =~= s.remove(i));
    }
}

proof fn lemma_bid_insert_sorted_at(s: Seq<Bid>, b: Bid, i: int)
    requires
        0 <= i <= s.len(),
        forall|j: int| 0 <= j < i ==> !bid_before(b, #[trigger] s[j]),
        i < s.len() ==> bid_before(b, s[i]),
    ensures
        bid_insert_sorted(s, b) == s.insert(i, b),
    decreases s.len(),
{
    if s.len() == 0 {
        assert(seq![b] =~= s.insert(0, b));
    } else if i == 0 {
        assert(seq![b] + s =~= s.insert(0, b));
    } else {
        lemma_bid_insert_sorted_at(s.drop_first(), b, i - 1);
        assert(seq![s[0]] + s.drop_first().insert(i - 1, b) =~= s.insert(i, b));
    }
}

proof fn lemma_bid_remove_key_len(s: Seq<Bid>, b: Bid)
    ensures
        bid_remove_key(s, b).len() <= s.len(),
        bid_remove_key(s, b).len() >= s.len() - 1,
    decreases s.len(),
{
    if s.len() > 0 && !bid_same_key(s[0], b) {
        lemma_bid_remove_key_len(s.drop_first(), b);
    }
}

proof fn lemma_bid_insert_sorted_len(s: Seq<Bid>, b: Bid)
    ensures
        bid_insert_sorted(s, b).len() == s.len() + 1,
    decreases s.len(),
{
    if s.len() > 0 && !bid_before(b, s[0]) {
        lemma_bid_insert_sorted_len(s.drop_first(), b);
    }
}

/// Applying one update never grows a side beyond the depth bound.
pub proof fn lemma_bid_update_len(s: Seq<Bid>, b: Bid, d: nat)
    requires
        s.len() <= d,
    ensures
        bid_update_spec(s, b, d).len() <= d,
{
    lemma_bid_remove_key_len(s, b);
    if b.quantity != 0 {
        if s.len() < d {
            lemma_bid_insert_sorted_len(bid_remove_key(s, b), b);
        } else if s.len() > 0 && bid_cmp_spec(b, s[0]) == LevelOrdering::Greater {
            lemma_bid_remove_key_len(s.drop_first(), b);
            lemma_bid_insert_sorted_len(bid_remove_key(s.drop_first(), b), b);
        }
    }
}

proof fn lemma_bid_wf_remove_idx(s: Seq<Bid>, m: int)
    requires
        bid_side_wf(s),
        0 <= m < s.len(),
    ensures
        bid_side_wf(s.remove(m)),
{
    let r = s.remove(m);
    assert forall|p: int, q: int| 0 <= p < q < r.len() implies #[trigger] bid_before(r[p], r[q]) by {
        let p0: int = if p < m { p } else { p + 1 };
        let q0: int = if q < m { q } else { q + 1 };
        assert(r[p] == s[p0]);
        assert(r[q] == s[q0]);
        assert(bid_before(s[p0], s[q0]));
    }
    assert forall|p: int, q: int|
        0 <= p < q < r.len() implies !#[trigger] bid_same_key(r[p], r[q]) by {
        let p0: int = if p < m { p } else { p + 1 };
        let q0: int = if q < m { q } else { q + 1 };
        assert(r[p] == s[p0]);
        assert(r[q] == s[q0]);
        assert(!bid_same_key(s[p0], s[q0]));
    }
    assert forall|p: int| 0 <= p < r.len() implies (#[trigger] r[p]).quantity != 0 by {
        let p0: int = if p < m { p } else { p + 1 };
        assert(r[p] == s[p0]);
    }
}

/// Where the removal by key lands: either no entry matches and the side is
/// unchanged, or exactly the matching entry is taken out.
proof fn lemma_bid_remove_key_characterize(s: Seq<Bid>, b: Bid)
    requires
        bid_side_wf(s),
    ensures
        forall|m: int|
            0 <= m < s.len() && bid_same_key(#[trigger] s[m], b) ==> bid_remove_key(s, b)
                == s.remove(m),
        (forall|m: int| 0 <= m < s.len() ==> !bid_same_key(#[trigger] s[m], b))
            ==> bid_remove_key(s, b) == s,
{
    if exists|m: int| 0 <= m < s.len() && bid_same_key(#[trigger] s[m], b) {
        let m = choose|m: int| 0 <= m < s.len() && bid_same_key(#[trigger] s[m], b);
        assert forall|j: int| 0 <= j < m implies !bid_same_key(#[trigger] s[j], b) by {
            if bid_same_key(s[j], b) {
                assert(!bid_same_key(s[j], s[m]));
            }
        }
        lemma_bid_remove_key_at(s, b, m);
        assert forall|m2: int|
            0 <= m2 < s.len() && bid_same_key(#[trigger] s[m2], b) implies bid_remove_key(s, b)
            == s.remove(m2) by {
            if m2 != m {
                if m2 < m {
                    assert(!bid_same_key(s[m2], s[m]));
                } else {
                    assert(!bid_same_key(s[m], s[m2]));
                }
            }
        }
    } else {
        lemma_bid_remove_key_no_match(s, b);
    }
}

proof fn lemma_bid_remove_key_wf(s: Seq<Bid>, b: Bid)
    requires
        bid_side_wf(s),
    ensures
        bid_side_wf(bid_remove_key(s, b)),
        forall|i: int|
            0 <= i < bid_remove_key(s, b).len() ==> !bid_same_key(
                #[trigger] bid_remove_key(s, b)[i],
                b,
            ),
{
    lemma_bid_remove_key_characterize(s, b);
    if exists|m: int| 0 <= m < s.len() && bid_same_key(#[trigger] s[m], b) {
        let m = choose|m: int| 0 <= m < s.len() && bid_same_key(#[trigger] s[m], b);
        lemma_bid_wf_remove_idx(s, m);
        let r = s.remove(m);
        assert forall|i: int| 0 <= i < r.len() implies !bid_same_key(#[trigger] r[i], b) by {
            let i0: int = if i < m { i } else { i + 1 };
            assert(r[i] == s[i0]);
            if bid_same_key(s[i0], b) {
                if i0 < m {
                    assert(!bid_same_key(s[i0], s[m]));
                } else {
                    assert(!bid_same_key(s[m], s[i0]));
                }
            }
        }
    }
}

/// The sorted insertion is an insertion at one position, before every level
/// that the new bid precedes and after every level it does not.
proof fn lemma_bid_insert_sorted_shape(s: Seq<Bid>, b: Bid)
    ensures
        exists|i: int|
            {
                &&& 0 <= i <= s.len()
                &&& bid_insert_sorted(s, b) == s.insert(i, b)
                &&& forall|j: int| 0 <= j < i ==> !bid_before(b, #[trigger] s[j])
                &&& i < s.len() ==> bid_before(b, s[i])
            },
    decreases s.len(),
{
    if s.len() == 0 {
        assert(seq![b] =~= s.insert(0, b));
        assert({
            &&& 0 <= 0 <= s.len()
            &&& bid_insert_sorted(s, b) == s.insert(0, b)
            &&& forall|j: int| 0 <= j < 0 ==> !bid_before(b, #[trigger] s[j])
            &&& 0 < s.len() ==> bid_before(b, s[0])
        });
    } else if bid_before(b, s[0]) {
        assert(seq![b] + s =~= s.insert(0, b));
        assert({
            &&& 0 <= 0 <= s.len()
            &&& bid_insert_sorted(s, b) == s.insert(0, b)
            &&& forall|j: int| 0 <= j < 0 ==> !bid_before(b, #[trigger] s[j])
            &&& 0 < s.len() ==> bid_before(b, s[0])
        });
    } else {
        lemma_bid_insert_sorted_shape(s.drop_first(), b);
        let t = s.drop_first();
        let i0 = choose|i: int|
            {
                &&& 0 <= i <= t.len()
                &&& bid_insert_sorted(t, b) == t.insert(i, b)
                &&& forall|j: int| 0 <= j < i ==> !bid_before(b, #[trigger] t[j])
                &&& i < t.len() ==> bid_before(b, t[i])
            };
        let i = i0 + 1;
        assert(seq![s[0]] + t.insert(i0, b) =~= s.insert(i, b));
        assert forall|j: int| 0 <= j < i implies !bid_before(b, #[trigger] s[j]) by {
            if j > 0 {
                assert(!bid_before(b, t[j - 1]));
            }
        }
        assert({
            &&& 0 <= i <= s.len()
            &&& bid_insert_sorted(s, b) == s.insert(i, b)
            &&& forall|j: int| 0 <= j < i ==> !bid_before(b, #[trigger] s[j])
            &&& i < s.len() ==> bid_before(b, s[i])
        });
    }
}

proof fn lemma_bid_insert_sorted_wf(s: Seq<Bid>, b: Bid)
    requires
        bid_side_wf(s),
        b.quantity != 0,
        forall|i: int| 0 <= i < s.len() ==> !bid_same_key(#[trigger] s[i], b),
    ensures
        bid_side_wf(bid_insert_sorted(s, b)),
{
    lemma_bid_insert_sorted_shape(s, b);
    let i = choose|i: int|
        {
            &&& 0 <= i <= s.len()
            &&& bid_insert_sorted(s, b) == s.insert(i, b)
            &&& forall|j: int| 0 <= j < i ==> !bid_before(b, #[trigger] s[j])
            &&& i < s.len() ==> bid_before(b, s[i])
        };
    let fs = s.insert(i, b);
    assert forall|j: int| 0 <= j < i implies bid_before(#[trigger] s[j], b) by {
        assert(!bid_before(b, s[j]));
        assert(!bid_same_key(s[j], b));
    }
    assert forall|j: int| i <= j < s.len() implies bid_before(b, #[trigger] s[j]) by {
        if j > i {
            assert(bid_before(s[i], s[j]));
        }
    }
    assert forall|p: int, q: int| 0 <= p < q < fs.len() implies #[trigger] bid_before(
        fs[p],
        fs[q],
    ) && !bid_same_key(fs[p], fs[q]) by {
        let p0: int = if p < i { p } else { p - 1 };
        let q0: int = if q < i { q } else { q - 1 };
        if p == i {
            assert(fs[p] == b);
            assert(fs[q] == s[q0]);
            assert(!bid_same_key(s[q0], b));
        } else if q == i {
            assert(fs[q] == b);
            assert(fs[p] == s[p0]);
            assert(!bid_same_key(s[p0], b));
        } else {
            assert(fs[p] == s[p0]);
            assert(fs[q] == s[q0]);
            assert(bid_before(s[p0], s[q0]) && !bid_same_key(s[p0], s[q0]));
        }
    }
    assert forall|p: int| 0 <= p < fs.len() implies (#[trigger] fs[p]).quantity != 0 by {
        if p != i {
            let p0: int = if p < i { p } else { p - 1 };
            assert(fs[p] == s[p0]);
        }
    }
}

/// Applying one update keeps the side well formed.
pub proof fn lemma_bid_update_wf(s: Seq<Bid>, b: Bid, d: nat)
    requires
        bid_side_wf(s),
    ensures
        bid_side_wf(bid_update_spec(s, b, d)),
{
    lemma_bid_remove_key_wf(s, b);
    if b.quantity != 0 {
        if s.len() < d {
            lemma_bid_insert_sorted_wf(bid_remove_key(s, b), b);
        } else if s.len() > 0 && bid_cmp_spec(b, s[0]) == LevelOrdering::Greater {
            lemma_bid_wf_remove_idx(s, 0);
            assert(s.remove(0) =~= s.drop_first());
            lemma_bid_remove_key_wf(s.drop_first(), b);
            lemma_bid_insert_sorted_wf(bid_remove_key(s.drop_first(), b), b);
        }
    }
}

/// The best `k` levels of a side survive any update whose price falls short
/// of the worst of them.
pub proof fn lemma_bid_update_keeps_suffix(s: Seq<Bid>, b: Bid, d: nat, k: nat)
    requires
        bid_side_wf(s),
        1 <= k <= s.len(),
        b.price < s[s.len() - k].price,
    ensures
        bid_update_spec(s, b, d).len() >= k,
        bid_update_spec(s, b, d).subrange(
            bid_update_spec(s, b, d).len() - k,
            bid_update_spec(s, b, d).len() as int,
        ) == s.subrange(s.len() - k, s.len() as int),
{
    let len = s.len() as int;
    assert forall|j: int| len - k <= j < len implies (#[trigger] s[j]).price >= s[len - k].price by {
        if j > len - k {
            assert(bid_before(s[len - k], s[j]));
        }
    }
    assert forall|j: int| len - k <= j < len implies !bid_same_key(#[trigger] s[j], b)
        && bid_before(b, s[j]) by {
        assert(s[j].price >= s[len - k].price);
    }
    if b.quantity == 0 {
        lemma_bid_remove_key_suffix(s, b, k);
    } else if s.len() < d {
        lemma_bid_remove_key_suffix(s, b, k);
        let r1 = bid_remove_key(s, b);
        assert forall|j: int| r1.len() - k <= j < r1.len() implies bid_before(
            b,
            #[trigger] r1[j],
        ) by {
            let t = j - (r1.len() - k);
            assert(r1.subrange(r1.len() - k, r1.len() as int)[t] == r1[j]);
            assert(s.subrange(len - k, len)[t] == s[len - k + t]);
        }
        lemma_bid_insert_sorted_suffix(r1, b, k);
        assert(bid_insert_sorted(r1, b).subrange(
            bid_insert_sorted(r1, b).len() - k,
            bid_insert_sorted(r1, b).len() as int,
        ) == s.subrange(len - k, len));
    } else if s.len() > 0 && bid_cmp_spec(b, s[0]) == LevelOrdering::Greater {
        assert(k < s.len()) by {
            if k == s.len() {
                assert(b.price < s[0].price);
            }
        }
        let t = s.drop_first();
        assert(t =~= s.remove(0));
        lemma_bid_wf_remove_idx(s, 0);
        assert(t.subrange(t.len() - k, t.len() as int) =~= s.subrange(len - k, len));
        assert(t[t.len() - k] == s[len - k]);
        lemma_bid_remove_key_suffix(t, b, k);
        let r1 = bid_remove_key(t, b);
        assert forall|j: int| r1.len() - k <= j < r1.len() implies bid_before(
            b,
            #[trigger] r1[j],
        ) by {
            let u = j - (r1.len() - k);
            assert(r1.subrange(r1.len() - k, r1.len() as int)[u] == r1[j]);
            assert(t.subrange(t.len() - k, t.len() as int)[u] == t[t.len() - k + u]);
            assert(s.subrange(len - k, len)[u] == s[len - k + u]);
        }
        lemma_bid_insert_sorted_suffix(r1, b, k);
    }
}

/// Removing a key whose entry is not among the top `k` leaves them alone.
proof fn lemma_bid_remove_key_suffix(s: Seq<Bid>, b: Bid, k: nat)
    requires
        bid_side_wf(s),
        1 <= k <= s.len(),
        forall|j: int| s.len() - k <= j < s.len() ==> !bid_same_key(#[trigger] s[j], b),
    ensures
        bid_remove_key(s, b).len() >= k,
        bid_remove_key(s, b).subrange(
            bid_remove_key(s, b).len() - k,
            bid_remove_key(s, b).len() as int,
        ) == s.subrange(s.len() - k, s.len() as int),
{
    let len = s.len() as int;
    lemma_bid_remove_key_characterize(s, b);
    if exists|m: int| 0 <= m < s.len() && bid_same_key(#[trigger] s[m], b) {
        let m = choose|m: int| 0 <= m < s.len() && bid_same_key(#[trigger] s[m], b);
        assert(m < len - k);
        let r = s.remove(m);
        assert(r.subrange(r.len() - k, r.len() as int) =~= s.subrange(len - k, len));
    }
}

/// Inserting a level that every one of the top `k` outranks leaves them at
/// the top.
proof fn lemma_bid_insert_sorted_suffix(s: Seq<Bid>, b: Bid, k: nat)
    requires
        k <= s.len(),
        forall|j: int| s.len() - k <= j < s.len() ==> bid_before(b, #[trigger] s[j]),
    ensures
        bid_insert_sorted(s, b).len() == s.len() + 1,
        bid_insert_sorted(s, b).subrange(
            s.len() + 1 - k,
            s.len() + 1 as int,
        ) == s.subrange(s.len() - k, s.len() as int),
    decreases s.len(),
{
    lemma_bid_insert_sorted_len(s, b);
    let len = s.len() as int;
    let r = bid_insert_sorted(s, b);
    if s.len() == 0 {
        assert(r.subrange(1 - k, 1) =~= s.subrange(0 - k, 0));
    } else if bid_before(b, s[0]) {
        assert(r == seq![b] + s);
        assert(r.subrange(len + 1 - k, len + 1) =~= s.subrange(len - k, len));
    } else {
        let t = s.drop_first();
        assert(k <= t.len()) by {
            if k == s.len() {
                assert(bid_before(b, s[0]));
            }
        }
        assert(forall|j: int|
            t.len() - k <= j < t.len() ==> bid_before(b, #[trigger] t[j])) by {
            assert(forall|j: int| 0 <= j < t.len() ==> t[j] == s[j + 1]);
        }
        lemma_bid_insert_sorted_suffix(t, b, k);
        assert(r == seq![s[0]] + bid_insert_sorted(t, b));
        assert(r.subrange(len + 1 - k, len + 1) =~= bid_insert_sorted(t, b).subrange(
            t.len() + 1 - k,
            t.len() + 1 as int,
        ));
        assert(t.subrange(t.len() - k, t.len() as int) =~= s.subrange(len - k, len));
    }
}

proof fn lemma_bid_remove_key_same(s: Seq<Bid>, b1: Bid, b2: Bid)
    requires
        bid_same_key(b1, b2),
    ensures
        bid_remove_key(s, b1) == bid_remove_key(s, b2),
    decreases s.len(),
{
    if s.len() > 0 && !bid_same_key(s[0], b1) {
        lemma_bid_remove_key_same(s.drop_first(), b1, b2);
    }
}

/// Law: the best bid is the maximum of the side: every other stored level
/// comes before it in the storage order, and none ranks above it in the
/// bid priority order.
pub proof fn lemma_best_bid_is_maximum(s: Seq<Bid>)
    requires
        bid_side_wf(s),
        s.len() > 0,
    ensures
        forall|i: int| 0 <= i < s.len() - 1 ==> bid_before(#[trigger] s[i], s[s.len() - 1]),
        forall|i: int|
            0 <= i < s.len() - 1 ==> bid_cmp_spec(#[trigger] s[i], s[s.len() - 1])
                != LevelOrdering::Greater,
{
    assert forall|i: int| 0 <= i < s.len() - 1 implies bid_cmp_spec(
        #[trigger] s[i],
        s[s.len() - 1],
    ) != LevelOrdering::Greater by {
        assert(bid_before(s[i], s[s.len() - 1]));
        assert(!bid_same_key(s[i], s[s.len() - 1]));
    }
}

/// Law: deleting a freshly inserted level restores the side exactly.
///
/// This holds when the level's key was not stored before the insertion and
/// the side was below its depth bound, so that the insertion neither
/// replaced an entry nor evicted one.
pub proof fn lemma_bid_update_round_trip(s: Seq<Bid>, b: Bid, d: nat)
    requires
        bid_side_wf(s),
        b.quantity != 0,
        s.len() < d,
        forall|i: int| 0 <= i < s.len() ==> !bid_same_key(#[trigger] s[i], b),
    ensures
        bid_update_spec(bid_update_spec(s, b, d), Bid { quantity: 0, ..b }, d) == s,
{
    lemma_bid_remove_key_no_match(s, b);
    let r1 = bid_insert_sorted(s, b);
    lemma_bid_insert_sorted_shape(s, b);
    let i = choose|i: int|
        {
            &&& 0 <= i <= s.len()
            &&& bid_insert_sorted(s, b) == s.insert(i, b)
            &&& forall|j: int| 0 <= j < i ==> !bid_before(b, #[trigger] s[j])
            &&& i < s.len() ==> bid_before(b, s[i])
        };
    lemma_bid_insert_sorted_wf(s, b);
    let z = Bid { quantity: 0, ..b };
    assert(bid_same_key(r1[i], z));
    lemma_bid_remove_key_characterize(r1, z);
    assert(bid_update_spec(r1, z, d) == r1.remove(i));
    assert(r1.remove(i) =~= s);
}

/// Law: updating the same `(price, venue)` entry twice keeps only the
/// second quantity; the pair of updates lands where the second alone would.
///
/// This holds below the depth bound, with one spare slot in case the key
/// was not stored yet; at the bound an update that does not improve on the
/// worst stored level is dropped instead.
pub proof fn lemma_bid_update_replacement(s: Seq<Bid>, b1: Bid, b2: Bid, d: nat)
    requires
        bid_side_wf(s),
        bid_same_key(b1, b2),
        b1.quantity != 0,
        b2.quantity != 0,
        s.len() + 1 < d,
    ensures
        bid_update_spec(bid_update_spec(s, b1, d), b2, d) == bid_update_spec(s, b2, d),
        exists|i: int|
            0 <= i < bid_update_spec(bid_update_spec(s, b1, d), b2, d).len()
                && #[trigger] bid_update_spec(bid_update_spec(s, b1, d), b2, d)[i] == b2,
        forall|i: int|
            0 <= i < bid_update_spec(bid_update_spec(s, b1, d), b2, d).len() && bid_same_key(
                #[trigger] bid_update_spec(bid_update_spec(s, b1, d), b2, d)[i],
                b2,
            ) ==> bid_update_spec(bid_update_spec(s, b1, d), b2, d)[i] == b2,
{
    let rk = bid_remove_key(s, b1);
    lemma_bid_remove_key_wf(s, b1);
    lemma_bid_remove_key_len(s, b1);
    lemma_bid_remove_key_same(s, b1, b2);
    let r1 = bid_insert_sorted(rk, b1);
    lemma_bid_insert_sorted_len(rk, b1);
    assert(forall|i: int| 0 <= i < rk.len() ==> !bid_same_key(#[trigger] rk[i], b1));
    lemma_bid_insert_sorted_wf(rk, b1);
    lemma_bid_insert_sorted_shape(rk, b1);
    let i = choose|i: int|
        {
            &&& 0 <= i <= rk.len()
            &&& bid_insert_sorted(rk, b1) == rk.insert(i, b1)
            &&& forall|j: int| 0 <= j < i ==> !bid_before(b1, #[trigger] rk[j])
            &&& i < rk.len() ==> bid_before(b1, rk[i])
        };
    assert(r1.len() < d);
    assert(bid_update_spec(s, b1, d) == r1);
    assert(bid_update_spec(r1, b2, d) == bid_insert_sorted(bid_remove_key(r1, b2), b2));
    assert(bid_same_key(r1[i], b2));
    lemma_bid_remove_key_characterize(r1, b2);
    assert(bid_remove_key(r1, b2) == r1.remove(i));
    assert(r1.remove(i) =~= rk);
    assert(bid_remove_key(s, b2) == rk);
    assert(bid_update_spec(s, b2, d) == bid_insert_sorted(rk, b2));
    let r2 = bid_insert_sorted(rk, b2);
    assert(forall|j: int| 0 <= j < rk.len() ==> !bid_same_key(#[trigger] rk[j], b2));
    lemma_bid_insert_sorted_shape(rk, b2);
    let i2 = choose|i: int|
        {
            &&& 0 <= i <= rk.len()
            &&& bid_insert_sorted(rk, b2) == rk.insert(i, b2)
            &&& forall|j: int| 0 <= j < i ==> !bid_before(b2, #[trigger] rk[j])
            &&& i < rk.len() ==> bid_before(b2, rk[i])
        };
    assert(r2[i2] == b2);
    lemma_bid_insert_sorted_wf(rk, b2);
    assert forall|j: int|
        0 <= j < r2.len() && bid_same_key(#[trigger] r2[j], b2) implies r2[j] == b2 by {
        if j != i2 {
            let j0: int = if j < i2 {
                j
            } else {
                j - 1
            };
            assert(r2[j] == rk[j0]);
        }
    }
}

/// The depth-bounded buy side of the aggregated book.
pub struct BuySide {
    levels: Vec<Bid>,
}

impl View for BuySide {
    type V = Seq<Bid>;

    closed spec fn view(&self) -> Seq<Bid> {
        self.levels@
    }
}

impl BuySide {
    /// Well-formedness of this side; every public operation preserves it.
    pub open spec fn wf(&self) -> bool {
        bid_side_wf(self@)
    }

    /// An empty buy side.
    pub fn new() -> (r: BuySide)
        ensures
            r@ == Seq::<Bid>::empty(),
            r.wf(),
    {
        BuySide { levels: Vec::new() }
    }

    /// How many levels the side currently holds.
    pub fn len(&self) -> (r: usize)
        ensures
            r == self@.len(),
    {
        self.levels.len()
    }

    /// The levels, worst to best.
    pub fn levels(&self) -> (r: &Vec<Bid>)
        ensures
            r@ == self@,
    {
        &self.levels
    }

    /// Removes the entry sharing `b`'s key, if one is stored.
    fn remove_key(&mut self, b: &Bid)
        requires
            old(self).wf(),
        ensures
            final(self).wf(),
            final(self)@ == bid_remove_key(old(self)@, *b),
            final(self)@.len() <= old(self)@.len(),
            forall|i: int|
                0 <= i < final(self)@.len() ==> !bid_same_key(#[trigger] final(self)@[i], *b),
    {
        let ghost s = self.levels@;
        let n = self.levels.len();
        let mut i: usize = 0;
        while i < n
            invariant
                n == s.len(),
                s == old(self)@,
                self.levels@ == s,
                bid_side_wf(s),
                0 <= i <= n,
                forall|j: int| 0 <= j < i ==> !bid_same_key(#[trigger] s[j], *b),
            decreases n - i,
        {
            let entry = &self.levels[i];
            if entry.price == b.price && entry.exchange == b.exchange {
                self.levels.remove(i);
                proof {
                    lemma_bid_remove_key_at(s, *b, i as int);
                    let fs = self.levels@;
                    assert(fs == s.remove(i as int));
                    assert forall|p: int, q: int|
                        0 <= p < q < fs.len() implies #[trigger] bid_before(fs[p], fs[q])
                        && !bid_same_key(fs[p], fs[q]) by {
                        let p0: int = if p < i { p } else { p + 1 };
                        let q0: int = if q < i { q } else { q + 1 };
                        assert(fs[p] == s[p0]);
                        assert(fs[q] == s[q0]);
                    }
                    assert forall|p: int| 0 <= p < fs.len() implies (#[trigger] fs[p]).quantity
                        != 0 by {
                        let p0: int = if p < i { p } else { p + 1 };
                        assert(fs[p] == s[p0]);
                    }
                    assert forall|p: int|
                        0 <= p < fs.len() implies !bid_same_key(#[trigger] fs[p], *b) by {
                        let p0: int = if p < i { p } else { p + 1 };
                        assert(fs[p] == s[p0]);
                        if p0 != i && bid_same_key(s[p0], *b) {
                            if p0 < i {
                                assert(bid_before(s[p0], s[i as int]) && !bid_same_key(
                                    s[p0],
                                    s[i as int],
                                ));
                            } else {
                                assert(bid_before(s[i as int], s[p0]) && !bid_same_key(
                                    s[i as int],
                                    s[p0],
                                ));
                            }
                        }
                    }
                }
                return ;
            }
            i = i + 1;
        }
        proof {
            lemma_bid_remove_key_no_match(s, *b);
        }
    }

    /// Inserts `b` at its sorted position; the key must not be stored yet.
    fn insert_sorted(&mut self, b: Bid)
        requires
            old(self).wf(),
            b.quantity != 0,
            forall|i: int| 0 <= i < old(self)@.len() ==> !bid_same_key(#[trigger] old(self)@[i], b),
            old(self)@.len() < usize::MAX,
        ensures
            final(self).wf(),
            final(self)@ == bid_insert_sorted(old(self)@, b),
    {
        let ghost s = self.levels@;
        let i = self.find_insert_pos(&b);
        self.levels.insert(i, b);
        proof {
            lemma_bid_insert_sorted_at(s, b, i as int);
            let fs = self.levels@;
            assert(fs == s.insert(i as int, b));
            assert forall|j: int| 0 <= j < i implies bid_before(#[trigger] s[j], b) by {
                assert(!bid_before(b, s[j]));
                assert(!bid_same_key(s[j], b));
            }
            assert forall|j: int| i <= j < s.len() implies bid_before(b, #[trigger] s[j]) by {
                if j > i {
                    assert(bid_before(s[i as int], s[j]));
                }
            }
            assert forall|p: int, q: int|
                0 <= p < q < fs.len() implies #[trigger] bid_before(fs[p], fs[q]) && !bid_same_key(
                fs[p],
                fs[q],
            ) by {
                let p0: int = if p < i { p } else { p - 1 };
                let q0: int = if q < i { q } else { q - 1 };
                if p == i {
                    assert(fs[p] == b);
                    assert(fs[q] == s[q0]);
                    assert(bid_before(b, s[q0]));
                    assert(!bid_same_key(s[q0], b));
                } else if q == i {
                    assert(fs[q] == b);
                    assert(fs[p] == s[p0]);
                    assert(bid_before(s[p0], b));
                    assert(!bid_same_key(s[p0], b));
                } else {
                    assert(fs[p] == s[p0]);
                    assert(fs[q] == s[q0]);
                    assert(bid_before(s[p0], s[q0]) && !bid_same_key(s[p0], s[q0]));
                }
            }
            assert forall|p: int| 0 <= p < fs.len() implies (#[trigger] fs[p]).quantity != 0 by {
                if p != i {
                    let p0: int = if p < i { p } else { p - 1 };
                    assert(fs[p] == s[p0]);
                }
            }
        }
    }

    /// The sorted position for `b`: the index of the first stored level that
    /// `b` strictly precedes.
    fn find_insert_pos(&self, b: &Bid) -> (r: usize)
        ensures
            r <= self@.len(),
            forall|j: int| 0 <= j < r ==> !bid_before(*b, #[trigger] self@[j]),
            r < self@.len() ==> bid_before(*b, self@[r as int]),
    {
        let n = self.levels.len();
        let mut i: usize = 0;
        while i < n
            invariant
                n == self@.len(),
                0 <= i <= n,
                forall|j: int| 0 <= j < i ==> !bid_before(*b, #[trigger] self@[j]),
            decreases n - i,
        {
            if Self::precedes(b, &self.levels[i]) {
                return i;
            }
            i = i + 1;
        }
        i
    }

    /// Whether `a` comes strictly earlier than `b` in the storage order.
    fn precedes(a: &Bid, b: &Bid) -> (r: bool)
        ensures
            r == bid_before(*a, *b),
    {
        a.price < b.price || (a.price == b.price && (a.quantity < b.quantity || (a.quantity
            == b.quantity && a.exchange.rank() < b.exchange.rank())))
    }

    /// Applies one bid update under the depth bound `max_depth`.
    ///
    /// Quantity `0` deletes the entry with the bid's key. Otherwise the bid
    /// is inserted, replacing any stored entry with the same key; when the
    /// side already holds `max_depth` levels, the worst level is evicted
    /// first if the new bid strictly improves on it, and the update is
    /// dropped if it does not.
    pub fn update_bids(&mut self, bid: Bid, max_depth: usize)
        requires
            old(self).wf(),
            max_depth >= 1,
        ensures
            final(self).wf(),
            final(self)@ == bid_update_spec(old(self)@, bid, max_depth as nat),
    {
        if bid.quantity == 0 {
            self.remove_key(&bid);
        } else if self.levels.len() < max_depth {
            self.remove_key(&bid);
            self.insert_sorted(bid);
        } else {
            let worst = self.levels[0];
            if bid.cmp(&worst).is_gt() {
                let ghost s = self.levels@;
                self.levels.remove(0);
                proof {
                    assert(self.levels@ =~= s.drop_first());
                    assert forall|p: int, q: int|
                        0 <= p < q < self.levels@.len() implies #[trigger] bid_before(
                        self.levels@[p],
                        self.levels@[q],
                    ) && !bid_same_key(self.levels@[p], self.levels@[q]) by {
                        assert(self.levels@[p] == s[p + 1]);
                        assert(self.levels@[q] == s[q + 1]);
                        assert(bid_before(s[p + 1], s[q + 1]) && !bid_same_key(s[p + 1], s[q + 1]));
                    }
                }
                self.remove_key(&bid);
                self.insert_sorted(bid);
            }
        }
    }

    /// The best bid: the maximum of the side in the storage order.
    pub fn get_best_bid(&self) -> (r: Option<Bid>)
        requires
            self.wf(),
        ensures
            self@.len() == 0 ==> r is None,
            self@.len() > 0 ==> r == Some(self@[self@.len() - 1]),
    {
        if self.levels.len() == 0 {
            None
        } else {
            Some(self.levels[self.levels.len() - 1])
        }
    }

    /// The up-to-`n` best bids, best first. When the side holds fewer than
    /// `n` levels the result is short: every slot carries a stored level,
    /// with no padding.
    pub fn get_best_n_bids(&self, n: usize) -> (r: Vec<Option<Bid>>)
        requires
            self.wf(),
        ensures
            n <= self@.len() ==> r@.len() == n,
            self@.len() < n ==> r@.len() == self@.len(),
            forall|i: int| 0 <= i < r@.len() ==> r@[i] == Some(self@[self@.len() - 1 - i]),
    {
        let mut r: Vec<Option<Bid>> = Vec::new();
        let len = self.levels.len();
        let m = if n <= len {
            n
        } else {
            len
        };
        let mut i: usize = 0;
        while i < m
            invariant
                0 <= i <= m,
                m <= len,
                len == self@.len(),
                self.wf(),
                r@.len() == i,
                forall|j: int| 0 <= j < i ==> r@[j] == Some(self@[self@.len() - 1 - j]),
            decreases m - i,
        {
            r.push(Some(self.levels[len - 1 - i]));
            i = i + 1;
        }
        r
    }
}

} // verus!
