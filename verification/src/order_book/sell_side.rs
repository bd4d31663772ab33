//! The sell-side container: a depth-bounded ordered set of asks keyed by
//! `(price, venue)`, kept as a vector sorted best-to-worst in the storage
//! order `ask_before`, with no zero-quantity entries and no duplicate keys.

use crate::order_book::price_level::{
    ask_before, ask_cmp_spec, ask_same_key, Ask, LevelOrdering,
};
use vstd::prelude::*;

verus! {

/// Well-formedness of a stored sell side: strictly sorted best-to-worst,
/// no two entries with the same `(price, venue)`, and no zero quantities.
pub open spec fn ask_side_wf(s: Seq<Ask>) -> bool {
    &&& forall|i: int, j: int| 0 <= i < j < s.len() ==> #[trigger] ask_before(s[i], s[j])
    &&& forall|i: int, j: int| 0 <= i < j < s.len() ==> !#[trigger] ask_same_key(s[i], s[j])
    &&& forall|i: int| 0 <= i < s.len() ==> (#[trigger] s[i]).quantity != 0
}

/// The stored sequence with any entry keyed like `a` removed.
pub open spec fn ask_remove_key(s: Seq<Ask>, a: Ask) -> Seq<Ask>
    decreases s.len(),
{
    if s.len() == 0 {
        s
    } else if ask_same_key(s[0], a) {
        s.drop_first()
    } else {
        seq![s[0]] + ask_remove_key(s.drop_first(), a)
    }
}

/// The stored sequence with `a` placed at its sorted position.
pub open spec fn ask_insert_sorted(s: Seq<Ask>, a: Ask) -> Seq<Ask>
    decreases s.len(),
{
    if s.len() == 0 {
        seq![a]
    } else if ask_before(a, s[0]) {
        seq![a] + s
    } else {
        seq![s[0]] + ask_insert_sorted(s.drop_first(), a)
    }
}

/// One update applied to a stored sell side of depth bound `d`: quantity `0`
/// deletes the entry with the same key; below the bound the entry is inserted
/// or replaced; at the bound the worst entry is evicted first, but only when
/// the new ask strictly improves on it, and the update is dropped otherwise.
pub open spec fn ask_update_spec(s: Seq<Ask>, a: Ask, d: nat) -> Seq<Ask> {
    if a.quantity == 0 {
        ask_remove_key(s, a)
    } else if s.len() < d {
        ask_insert_sorted(ask_remove_key(s, a), a)
    } else if s.len() > 0 && ask_cmp_spec(a, s[s.len() - 1]) == LevelOrdering::Less {
        ask_insert_sorted(ask_remove_key(s.drop_last(), a), a)
    } else {
        s
    }
}

proof fn lemma_ask_remove_key_no_match(s: Seq<Ask>, a: Ask)
    requires
        forall|i: int| 0 <= i < s.len() ==> !ask_same_key(#[trigger] s[i], a),
    ensures
        ask_remove_key(s, a) == s,
    decreases s.len(),
{
    if s.len() > 0 {
        assert(forall|i: int|
            0 <= i < s.drop_first().len() ==> !ask_same_key(#[trigger] s.drop_first()[i], a)) by {
            assert(forall|i: int|
                0 <= i < s.drop_first().len() ==> #[trigger] s.drop_first()[i] == s[i + 1]);
        }
        lemma_ask_remove_key_no_match(s.drop_first(), a);
        assert(seq![s[0]] + s.drop_first() =~= s);
    }
}

proof fn lemma_ask_remove_key_at(s: Seq<Ask>, a: Ask, i: int)
    requires
        0 <= i < s.len(),
        ask_same_key(s[i], a),
        forall|j: int| 0 <= j < i ==> !ask_same_key(#[trigger] s[j], a),
    ensures
        ask_remove_key(s, a) == s.remove(i),
    decreases i,
{
    if i == 0 {
        assert(s.drop_first() =~= s.remove(0));
    } else {
        lemma_ask_remove_key_at(s.drop_first(), a, i - 1);
        assert(seq![s[0]] + s.drop_first().remove(i - 1) =~= s.remove(i));
    }
}

proof fn lemma_ask_insert_sorted_at(s: Seq<Ask>, a: Ask, i: int)
    requires
        0 <= i <= s.len(),
        forall|j: int| 0 <= j < i ==> !ask_before(a, #[trigger] s[j]),
        i < s.len() ==> ask_before(a, s[i]),
    ensures
        ask_insert_sorted(s, a) == s.insert(i, a),
    decreases s.len(),
{
    if s.len() == 0 {
        assert(seq![a] =~= s.insert(0, a));
    } else if i == 0 {
        assert(seq![a] + s =~= s.insert(0, a));
    } else {
        lemma_ask_insert_sorted_at(s.drop_first(), a, i - 1);
        assert(seq![s[0]] + s.drop_first().insert(i - 1, a) =~= s.insert(i, a));
    }
}

proof fn lemma_ask_remove_key_len(s: Seq<Ask>, a: Ask)
    ensures
        ask_remove_key(s, a).len() <= s.len(),
        ask_remove_key(s, a).len() >= s.len() - 1,
    decreases s.len(),
{
    if s.len() > 0 && !ask_same_key(s[0], a) {
        lemma_ask_remove_key_len(s.drop_first(), a);
    }
}

proof fn lemma_ask_insert_sorted_len(s: Seq<Ask>, a: Ask)
    ensures
        ask_insert_sorted(s, a).len() == s.len() + 1,
    decreases s.len(),
{
    if s.len() > 0 && !ask_before(a, s[0]) {
        lemma_ask_insert_sorted_len(s.drop_first(), a);
    }
}

/// Applying one update never grows a side beyond the depth bound.
pub proof fn lemma_ask_update_len(s: Seq<Ask>, a: Ask, d: nat)
    requires
        s.len() <= d,
    ensures
        ask_update_spec(s, a, d).len() <= d,
{
    lemma_ask_remove_key_len(s, a);
    if a.quantity != 0 {
        if s.len() < d {
            lemma_ask_insert_sorted_len(ask_remove_key(s, a), a);
        } else if s.len() > 0 && ask_cmp_spec(a, s[s.len() - 1]) == LevelOrdering::Less {
            lemma_ask_remove_key_len(s.drop_last(), a);
            lemma_ask_insert_sorted_len(ask_remove_key(s.drop_last(), a), a);
        }
    }
}

proof fn lemma_ask_wf_remove_idx(s: Seq<Ask>, m: int)
    requires
        ask_side_wf(s),
        0 <= m < s.len(),
    ensures
        ask_side_wf(s.remove(m)),
{
    let r = s.remove(m);
    assert forall|p: int, q: int| 0 <= p < q < r.len() implies #[trigger] ask_before(r[p], r[q]) by {
        let p0: int = if p < m { p } else { p + 1 };
        let q0: int = if q < m { q } else { q + 1 };
        assert(r[p] == s[p0]);
        assert(r[q] == s[q0]);
        assert(ask_before(s[p0], s[q0]));
    }
    assert forall|p: int, q: int|
        0 <= p < q < r.len() implies !#[trigger] ask_same_key(r[p], r[q]) by {
        let p0: int = if p < m { p } else { p + 1 };
        let q0: int = if q < m { q } else { q + 1 };
        assert(r[p] == s[p0]);
        assert(r[q] == s[q0]);
        assert(!ask_same_key(s[p0], s[q0]));
    }
    assert forall|p: int| 0 <= p < r.len() implies (#[trigger] r[p]).quantity != 0 by {
        let p0: int = if p < m { p } else { p + 1 };
        assert(r[p] == s[p0]);
    }
}

/// Where the removal by key lands: either no entry matches and the side is
/// unchanged, or exactly the matching entry is taken out.
proof fn lemma_ask_remove_key_characterize(s: Seq<Ask>, a: Ask)
    requires
        ask_side_wf(s),
    ensures
        forall|m: int|
            0 <= m < s.len() && ask_same_key(#[trigger] s[m], a) ==> ask_remove_key(s, a)
                == s.remove(m),
        (forall|m: int| 0 <= m < s.len() ==> !ask_same_key(#[trigger] s[m], a))
            ==> ask_remove_key(s, a) == s,
{
    if exists|m: int| 0 <= m < s.len() && ask_same_key(#[trigger] s[m], a) {
        let m = choose|m: int| 0 <= m < s.len() && ask_same_key(#[trigger] s[m], a);
        assert forall|j: int| 0 <= j < m implies !ask_same_key(#[trigger] s[j], a) by {
            if ask_same_key(s[j], a) {
                assert(!ask_same_key(s[j], s[m]));
            }
        }
        lemma_ask_remove_key_at(s, a, m);
        assert forall|m2: int|
            0 <= m2 < s.len() && ask_same_key(#[trigger] s[m2], a) implies ask_remove_key(s, a)
            == s.remove(m2) by {
            if m2 != m {
                if m2 < m {
                    assert(!ask_same_key(s[m2], s[m]));
                } else {
                    assert(!ask_same_key(s[m], s[m2]));
                }
            }
        }
    } else {
        lemma_ask_remove_key_no_match(s, a);
    }
}

proof fn lemma_ask_remove_key_wf(s: Seq<Ask>, a: Ask)
    requires
        ask_side_wf(s),
    ensures
        ask_side_wf(ask_remove_key(s, a)),
        forall|i: int|
            0 <= i < ask_remove_key(s, a).len() ==> !ask_same_key(
                #[trigger] ask_remove_key(s, a)[i],
                a,
            ),
{
    lemma_ask_remove_key_characterize(s, a);
    if exists|m: int| 0 <= m < s.len() && ask_same_key(#[trigger] s[m], a) {
        let m = choose|m: int| 0 <= m < s.len() && ask_same_key(#[trigger] s[m], a);
        lemma_ask_wf_remove_idx(s, m);
        let r = s.remove(m);
        assert forall|i: int| 0 <= i < r.len() implies !ask_same_key(#[trigger] r[i], a) by {
            let i0: int = if i < m { i } else { i + 1 };
            assert(r[i] == s[i0]);
            if ask_same_key(s[i0], a) {
                if i0 < m {
                    assert(!ask_same_key(s[i0], s[m]));
                } else {
                    assert(!ask_same_key(s[m], s[i0]));
                }
            }
        }
    }
}

/// The sorted insertion is an insertion at one position, before every level
/// that the new ask precedes and after every level it does not.
proof fn lemma_ask_insert_sorted_shape(s: Seq<Ask>, a: Ask)
    ensures
        exists|i: int|
            {
                &&& 0 <= i <= s.len()
                &&& ask_insert_sorted(s, a) == s.insert(i, a)
                &&& forall|j: int| 0 <= j < i ==> !ask_before(a, #[trigger] s[j])
                &&& i < s.len() ==> ask_before(a, s[i])
            },
    decreases s.len(),
{
    if s.len() == 0 {
        assert(seq![a] =~= s.insert(0, a));
        assert({
            &&& 0 <= 0 <= s.len()
            &&& ask_insert_sorted(s, a) == s.insert(0, a)
            &&& forall|j: int| 0 <= j < 0 ==> !ask_before(a, #[trigger] s[j])
            &&& 0 < s.len() ==> ask_before(a, s[0])
        });
    } else if ask_before(a, s[0]) {
        assert(seq![a] + s =~= s.insert(0, a));
        assert({
            &&& 0 <= 0 <= s.len()
            &&& ask_insert_sorted(s, a) == s.insert(0, a)
            &&& forall|j: int| 0 <= j < 0 ==> !ask_before(a, #[trigger] s[j])
            &&& 0 < s.len() ==> ask_before(a, s[0])
        });
    } else {
        lemma_ask_insert_sorted_shape(s.drop_first(), a);
        let t = s.drop_first();
        let i0 = choose|i: int|
            {
                &&& 0 <= i <= t.len()
                &&& ask_insert_sorted(t, a) == t.insert(i, a)
                &&& forall|j: int| 0 <= j < i ==> !ask_before(a, #[trigger] t[j])
                &&& i < t.len() ==> ask_before(a, t[i])
            };
        let i = i0 + 1;
        assert(seq![s[0]] + t.insert(i0, a) =~= s.insert(i, a));
        assert forall|j: int| 0 <= j < i implies !ask_before(a, #[trigger] s[j]) by {
            if j > 0 {
                assert(!ask_before(a, t[j - 1]));
            }
        }
        assert({
            &&& 0 <= i <= s.len()
            &&& ask_insert_sorted(s, a) == s.insert(i, a)
            &&& forall|j: int| 0 <= j < i ==> !ask_before(a, #[trigger] s[j])
            &&& i < s.len() ==> ask_before(a, s[i])
        });
    }
}

proof fn lemma_ask_insert_sorted_wf(s: Seq<Ask>, a: Ask)
    requires
        ask_side_wf(s),
        a.quantity != 0,
        forall|i: int| 0 <= i < s.len() ==> !ask_same_key(#[trigger] s[i], a),
    ensures
        ask_side_wf(ask_insert_sorted(s, a)),
{
    lemma_ask_insert_sorted_shape(s, a);
    let i = choose|i: int|
        {
            &&& 0 <= i <= s.len()
            &&& ask_insert_sorted(s, a) == s.insert(i, a)
            &&& forall|j: int| 0 <= j < i ==> !ask_before(a, #[trigger] s[j])
            &&& i < s.len() ==> ask_before(a, s[i])
        };
    let fs = s.insert(i, a);
    assert forall|j: int| 0 <= j < i implies ask_before(#[trigger] s[j], a) by {
        assert(!ask_before(a, s[j]));
        assert(!ask_same_key(s[j], a));
    }
    assert forall|j: int| i <= j < s.len() implies ask_before(a, #[trigger] s[j]) by {
        if j > i {
            assert(ask_before(s[i], s[j]));
        }
    }
    assert forall|p: int, q: int| 0 <= p < q < fs.len() implies #[trigger] ask_before(
        fs[p],
        fs[q],
    ) && !ask_same_key(fs[p], fs[q]) by {
        let p0: int = if p < i { p } else { p - 1 };
        let q0: int = if q < i { q } else { q - 1 };
        if p == i {
            assert(fs[p] == a);
            assert(fs[q] == s[q0]);
            assert(!ask_same_key(s[q0], a));
        } else if q == i {
            assert(fs[q] == a);
            assert(fs[p] == s[p0]);
            assert(!ask_same_key(s[p0], a));
        } else {
            assert(fs[p] == s[p0]);
            assert(fs[q] == s[q0]);
            assert(ask_before(s[p0], s[q0]) && !ask_same_key(s[p0], s[q0]));
        }
    }
    assert forall|p: int| 0 <= p < fs.len() implies (#[trigger] fs[p]).quantity != 0 by {
        if p != i {
            let p0: int = if p < i { p } else { p - 1 };
            assert(fs[p] == s[p0]);
        }
    }
}

/// Applying one update keeps the side well formed.
pub proof fn lemma_ask_update_wf(s: Seq<Ask>, a: Ask, d: nat)
    requires
        ask_side_wf(s),
    ensures
        ask_side_wf(ask_update_spec(s, a, d)),
{
    lemma_ask_remove_key_wf(s, a);
    if a.quantity != 0 {
        if s.len() < d {
            lemma_ask_insert_sorted_wf(ask_remove_key(s, a), a);
        } else if s.len() > 0 && ask_cmp_spec(a, s[s.len() - 1]) == LevelOrdering::Less {
            lemma_ask_wf_remove_idx(s, s.len() - 1);
            assert(s.remove(s.len() - 1) =~= s.drop_last());
            lemma_ask_remove_key_wf(s.drop_last(), a);
            lemma_ask_insert_sorted_wf(ask_remove_key(s.drop_last(), a), a);
        }
    }
}

/// The best `k` levels of a side survive any update whose price exceeds the
/// worst of them.
pub proof fn lemma_ask_update_keeps_prefix(s: Seq<Ask>, a: Ask, d: nat, k: nat)
    requires
        ask_side_wf(s),
        1 <= k <= s.len(),
        a.price > s[k - 1].price,
    ensures
        ask_update_spec(s, a, d).len() >= k,
        ask_update_spec(s, a, d).subrange(0, k as int) == s.subrange(0, k as int),
{
    let len = s.len() as int;
    assert forall|j: int| 0 <= j < k implies (#[trigger] s[j]).price <= s[k - 1].price by {
        if j < k - 1 {
            assert(ask_before(s[j], s[k - 1]));
        }
    }
    assert forall|j: int| 0 <= j < k implies !ask_same_key(#[trigger] s[j], a) && ask_before(
        s[j],
        a,
    ) by {
        assert(s[j].price <= s[k - 1].price);
    }
    if a.quantity == 0 {
        lemma_ask_remove_key_prefix(s, a, k);
    } else if s.len() < d {
        lemma_ask_remove_key_prefix(s, a, k);
        let r1 = ask_remove_key(s, a);
        assert forall|j: int| 0 <= j < k implies ask_before(#[trigger] r1[j], a) by {
            assert(r1.subrange(0, k as int)[j] == r1[j]);
            assert(s.subrange(0, k as int)[j] == s[j]);
        }
        lemma_ask_insert_sorted_prefix(r1, a, k);
    } else if s.len() > 0 && ask_cmp_spec(a, s[len - 1]) == LevelOrdering::Less {
        assert(k < s.len()) by {
            if k == s.len() {
                assert(a.price > s[len - 1].price);
            }
        }
        let t = s.drop_last();
        assert(t =~= s.remove(len - 1));
        lemma_ask_wf_remove_idx(s, len - 1);
        assert(t.subrange(0, k as int) =~= s.subrange(0, k as int));
        assert(t[k - 1] == s[k - 1]);
        assert forall|j: int| 0 <= j < k implies !ask_same_key(#[trigger] t[j], a) by {
            assert(t[j] == s[j]);
        }
        lemma_ask_remove_key_prefix(t, a, k);
        let r1 = ask_remove_key(t, a);
        assert forall|j: int| 0 <= j < k implies ask_before(#[trigger] r1[j], a) by {
            assert(r1.subrange(0, k as int)[j] == r1[j]);
            assert(t.subrange(0, k as int)[j] == t[j]);
            assert(t[j] == s[j]);
        }
        lemma_ask_insert_sorted_prefix(r1, a, k);
    }
}

/// Removing a key whose entry is not among the top `k` leaves them alone.
proof fn lemma_ask_remove_key_prefix(s: Seq<Ask>, a: Ask, k: nat)
    requires
        ask_side_wf(s),
        1 <= k <= s.len(),
        forall|j: int| 0 <= j < k ==> !ask_same_key(#[trigger] s[j], a),
    ensures
        ask_remove_key(s, a).len() >= k,
        ask_remove_key(s, a).subrange(0, k as int) == s.subrange(0, k as int),
{
    lemma_ask_remove_key_characterize(s, a);
    if exists|m: int| 0 <= m < s.len() && ask_same_key(#[trigger] s[m], a) {
        let m = choose|m: int| 0 <= m < s.len() && ask_same_key(#[trigger] s[m], a);
        assert(m >= k);
        let r = s.remove(m);
        assert(r.subrange(0, k as int) =~= s.subrange(0, k as int));
    }
}

/// Inserting a level that every one of the top `k` outranks leaves them at
/// the top.
proof fn lemma_ask_insert_sorted_prefix(s: Seq<Ask>, a: Ask, k: nat)
    requires
        k <= s.len(),
        forall|j: int| 0 <= j < k ==> ask_before(#[trigger] s[j], a),
    ensures
        ask_insert_sorted(s, a).len() == s.len() + 1,
        ask_insert_sorted(s, a).subrange(0, k as int) == s.subrange(0, k as int),
    decreases s.len(),
{
    lemma_ask_insert_sorted_len(s, a);
    let r = ask_insert_sorted(s, a);
    if s.len() == 0 {
        assert(r.subrange(0, 0) =~= s.subrange(0, 0));
    } else if ask_before(a, s[0]) {
        assert(k == 0) by {
            if k > 0 {
                assert(ask_before(s[0], a));
            }
        }
        assert(r.subrange(0, 0) =~= s.subrange(0, 0));
    } else {
        if k == 0 {
            assert(r.subrange(0, 0) =~= s.subrange(0, 0));
        } else {
            let t = s.drop_first();
            assert(forall|j: int| 0 <= j < k - 1 ==> ask_before(#[trigger] t[j], a)) by {
                assert(forall|j: int| 0 <= j < t.len() ==> t[j] == s[j + 1]);
            }
            lemma_ask_insert_sorted_prefix(t, a, (k - 1) as nat);
            assert(r == seq![s[0]] + ask_insert_sorted(t, a));
            assert(r.subrange(0, k as int) =~= s.subrange(0, k as int)) by {
                assert(forall|j: int|
                    0 <= j < k - 1 ==> ask_insert_sorted(t, a)[j] == t.subrange(
                        0,
                        k - 1 as int,
                    )[j]);
            }
        }
    }
}

proof fn lemma_ask_remove_key_same(s: Seq<Ask>, a1: Ask, a2: Ask)
    requires
        ask_same_key(a1, a2),
    ensures
        ask_remove_key(s, a1) == ask_remove_key(s, a2),
    decreases s.len(),
{
    if s.len() > 0 && !ask_same_key(s[0], a1) {
        lemma_ask_remove_key_same(s.drop_first(), a1, a2);
    }
}

/// Law: the best ask is the minimum of the side: every other stored level
/// comes after it in the storage order, and the best ranks strictly below
/// each of them in the ask priority order.
pub proof fn lemma_best_ask_is_minimum(s: Seq<Ask>)
    requires
        ask_side_wf(s),
        s.len() > 0,
    ensures
        forall|i: int| 1 <= i < s.len() ==> ask_before(s[0], #[trigger] s[i]),
        forall|i: int|
            1 <= i < s.len() ==> ask_cmp_spec(s[0], #[trigger] s[i]) == LevelOrdering::Less,
{
    assert forall|i: int| 1 <= i < s.len() implies ask_cmp_spec(s[0], #[trigger] s[i])
        == LevelOrdering::Less by {
        assert(ask_before(s[0], s[i]));
        assert(!ask_same_key(s[0], s[i]));
    }
}

/// Law: deleting a freshly inserted level restores the side exactly.
///
/// This holds when the level's key was not stored before the insertion and
/// the side was below its depth bound, so that the insertion neither
/// replaced an entry nor evicted one.
pub proof fn lemma_ask_update_round_trip(s: Seq<Ask>, a: Ask, d: nat)
    requires
        ask_side_wf(s),
        a.quantity != 0,
        s.len() < d,
        forall|i: int| 0 <= i < s.len() ==> !ask_same_key(#[trigger] s[i], a),
    ensures
        ask_update_spec(ask_update_spec(s, a, d), Ask { quantity: 0, ..a }, d) == s,
{
    lemma_ask_remove_key_no_match(s, a);
    let r1 = ask_insert_sorted(s, a);
    lemma_ask_insert_sorted_shape(s, a);
    let i = choose|i: int|
        {
            &&& 0 <= i <= s.len()
            &&& ask_insert_sorted(s, a) == s.insert(i, a)
            &&& forall|j: int| 0 <= j < i ==> !ask_before(a, #[trigger] s[j])
            &&& i < s.len() ==> ask_before(a, s[i])
        };
    lemma_ask_insert_sorted_wf(s, a);
    let z = Ask { quantity: 0, ..a };
    assert(ask_same_key(r1[i], z));
    lemma_ask_remove_key_characterize(r1, z);
    assert(ask_update_spec(r1, z, d) == r1.remove(i));
    assert(r1.remove(i) =~= s);
}

/// Law: updating the same `(price, venue)` entry twice keeps only the
/// second quantity; the pair of updates lands where the second alone would.
///
/// This holds below the depth bound, with one spare slot in case the key
/// was not stored yet; at the bound an update that does not improve on the
/// worst stored level is dropped instead.
pub proof fn lemma_ask_update_replacement(s: Seq<Ask>, a1: Ask, a2: Ask, d: nat)
    requires
        ask_side_wf(s),
        ask_same_key(a1, a2),
        a1.quantity != 0,
        a2.quantity != 0,
        s.len() + 1 < d,
    ensures
        ask_update_spec(ask_update_spec(s, a1, d), a2, d) == ask_update_spec(s, a2, d),
        exists|i: int|
            0 <= i < ask_update_spec(ask_update_spec(s, a1, d), a2, d).len()
                && #[trigger] ask_update_spec(ask_update_spec(s, a1, d), a2, d)[i] == a2,
        forall|i: int|
            0 <= i < ask_update_spec(ask_update_spec(s, a1, d), a2, d).len() && ask_same_key(
                #[trigger] ask_update_spec(ask_update_spec(s, a1, d), a2, d)[i],
                a2,
            ) ==> ask_update_spec(ask_update_spec(s, a1, d), a2, d)[i] == a2,
{
    let rk = ask_remove_key(s, a1);
    lemma_ask_remove_key_wf(s, a1);
    lemma_ask_remove_key_len(s, a1);
    lemma_ask_remove_key_same(s, a1, a2);
    let r1 = ask_insert_sorted(rk, a1);
    lemma_ask_insert_sorted_len(rk, a1);
    assert(forall|i: int| 0 <= i < rk.len() ==> !ask_same_key(#[trigger] rk[i], a1));
    lemma_ask_insert_sorted_wf(rk, a1);
    lemma_ask_insert_sorted_shape(rk, a1);
    let i = choose|i: int|
        {
            &&& 0 <= i <= rk.len()
            &&& ask_insert_sorted(rk, a1) == rk.insert(i, a1)
            &&& forall|j: int| 0 <= j < i ==> !ask_before(a1, #[trigger] rk[j])
            &&& i < rk.len() ==> ask_before(a1, rk[i])
        };
    assert(r1.len() < d);
    assert(ask_update_spec(s, a1, d) == r1);
    assert(ask_update_spec(r1, a2, d) == ask_insert_sorted(ask_remove_key(r1, a2), a2));
    assert(ask_same_key(r1[i], a2));
    lemma_ask_remove_key_characterize(r1, a2);
    assert(ask_remove_key(r1, a2) == r1.remove(i));
    assert(r1.remove(i) =~= rk);
    assert(ask_remove_key(s, a2) == rk);
    assert(ask_update_spec(s, a2, d) == ask_insert_sorted(rk, a2));
    let r2 = ask_insert_sorted(rk, a2);
    assert(forall|j: int| 0 <= j < rk.len() ==> !ask_same_key(#[trigger] rk[j], a2));
    lemma_ask_insert_sorted_shape(rk, a2);
    let i2 = choose|i: int|
        {
            &&& 0 <= i <= rk.len()
            &&& ask_insert_sorted(rk, a2) == rk.insert(i, a2)
            &&& forall|j: int| 0 <= j < i ==> !ask_before(a2, #[trigger] rk[j])
            &&& i < rk.len() ==> ask_before(a2, rk[i])
        };
    assert(r2[i2] == a2);
    lemma_ask_insert_sorted_wf(rk, a2);
    assert forall|j: int|
        0 <= j < r2.len() && ask_same_key(#[trigger] r2[j], a2) implies r2[j] == a2 by {
        if j != i2 {
            let j0: int = if j < i2 {
                j
            } else {
                j - 1
            };
            assert(r2[j] == rk[j0]);
        }
    }
}

/// The depth-bounded sell side of the aggregated book.
pub struct SellSide {
    levels: Vec<Ask>,
}

impl View for SellSide {
    type V = Seq<Ask>;

    closed spec fn view(&self) -> Seq<Ask> {
        self.levels@
    }
}

impl SellSide {
    /// Well-formedness of this side; every public operation preserves it.
    pub open spec fn wf(&self) -> bool {
        ask_side_wf(self@)
    }

    /// An empty sell side.
    pub fn new() -> (r: SellSide)
        ensures
            r@ == Seq::<Ask>::empty(),
            r.wf(),
    {
        SellSide { levels: Vec::new() }
    }

    /// How many levels the side currently holds.
    pub fn len(&self) -> (r: usize)
        ensures
            r == self@.len(),
    {
        self.levels.len()
    }

    /// The levels, best to worst.
    pub fn levels(&self) -> (r: &Vec<Ask>)
        ensures
            r@ == self@,
    {
        &self.levels
    }

    /// Removes the entry sharing `a`'s key, if one is stored.
    fn remove_key(&mut self, a: &Ask)
        requires
            old(self).wf(),
        ensures
            final(self).wf(),
            final(self)@ == ask_remove_key(old(self)@, *a),
            final(self)@.len() <= old(self)@.len(),
            forall|i: int|
                0 <= i < final(self)@.len() ==> !ask_same_key(#[trigger] final(self)@[i], *a),
    {
        let ghost s = self.levels@;
        let n = self.levels.len();
        let mut i: usize = 0;
        while i < n
            invariant
                n == s.len(),
                s == old(self)@,
                self.levels@ == s,
                ask_side_wf(s),
                0 <= i <= n,
                forall|j: int| 0 <= j < i ==> !ask_same_key(#[trigger] s[j], *a),
            decreases n - i,
        {
            let entry = &self.levels[i];
            if entry.price == a.price && entry.exchange == a.exchange {
                self.levels.remove(i);
                proof {
                    lemma_ask_remove_key_at(s, *a, i as int);
                    let fs = self.levels@;
                    assert(fs == s.remove(i as int));
                    assert forall|p: int, q: int|
                        0 <= p < q < fs.len() implies #[trigger] ask_before(fs[p], fs[q])
                        && !ask_same_key(fs[p], fs[q]) by {
                        let p0: int = if p < i { p } else { p + 1 };
                        let q0: int = if q < i { q } else { q + 1 };
                        assert(fs[p] == s[p0]);
                        assert(fs[q] == s[q0]);
                    }
                    assert forall|p: int| 0 <= p < fs.len() implies (#[trigger] fs[p]).quantity
                        != 0 by {
                        let p0: int = if p < i { p } else { p + 1 };
                        assert(fs[p] == s[p0]);
                    }
                    assert forall|p: int|
                        0 <= p < fs.len() implies !ask_same_key(#[trigger] fs[p], *a) by {
                        let p0: int = if p < i { p } else { p + 1 };
                        assert(fs[p] == s[p0]);
                        if p0 != i && ask_same_key(s[p0], *a) {
                            if p0 < i {
                                assert(ask_before(s[p0], s[i as int]) && !ask_same_key(
                                    s[p0],
                                    s[i as int],
                                ));
                            } else {
                                assert(ask_before(s[i as int], s[p0]) && !ask_same_key(
                                    s[i as int],
                                    s[p0],
                                ));
                            }
                        }
                    }
                }
                return ;
            }
            i = i + 1;
        }
        proof {
            lemma_ask_remove_key_no_match(s, *a);
        }
    }

    /// Inserts `a` at its sorted position; the key must not be stored yet.
    fn insert_sorted(&mut self, a: Ask)
        requires
            old(self).wf(),
            a.quantity != 0,
            forall|i: int| 0 <= i < old(self)@.len() ==> !ask_same_key(#[trigger] old(self)@[i], a),
            old(self)@.len() < usize::MAX,
        ensures
            final(self).wf(),
            final(self)@ == ask_insert_sorted(old(self)@, a),
    {
        let ghost s = self.levels@;
        let i = self.find_insert_pos(&a);
        self.levels.insert(i, a);
        proof {
            lemma_ask_insert_sorted_at(s, a, i as int);
            let fs = self.levels@;
            assert(fs == s.insert(i as int, a));
            assert forall|j: int| 0 <= j < i implies ask_before(#[trigger] s[j], a) by {
                assert(!ask_before(a, s[j]));
                assert(!ask_same_key(s[j], a));
            }
            assert forall|j: int| i <= j < s.len() implies ask_before(a, #[trigger] s[j]) by {
                if j > i {
                    assert(ask_before(s[i as int], s[j]));
                }
            }
            assert forall|p: int, q: int|
                0 <= p < q < fs.len() implies #[trigger] ask_before(fs[p], fs[q]) && !ask_same_key(
                fs[p],
                fs[q],
            ) by {
                let p0: int = if p < i { p } else { p - 1 };
                let q0: int = if q < i { q } else { q - 1 };
                if p == i {
                    assert(fs[p] == a);
                    assert(fs[q] == s[q0]);
                    assert(ask_before(a, s[q0]));
                    assert(!ask_same_key(s[q0], a));
                } else if q == i {
                    assert(fs[q] == a);
                    assert(fs[p] == s[p0]);
                    assert(ask_before(s[p0], a));
                    assert(!ask_same_key(s[p0], a));
                } else {
                    assert(fs[p] == s[p0]);
                    assert(fs[q] == s[q0]);
                    assert(ask_before(s[p0], s[q0]) && !ask_same_key(s[p0], s[q0]));
                }
            }
            assert forall|p: int| 0 <= p < fs.len() implies (#[trigger] fs[p]).quantity != 0 by {
                if p != i {
                    let p0: int = if p < i { p } else { p - 1 };
                    assert(fs[p] == s[p0]);
                }
            }
        }
    }

    /// The sorted position for `a`: the index of the first stored level that
    /// `a` strictly precedes.
    fn find_insert_pos(&self, a: &Ask) -> (r: usize)
        ensures
            r <= self@.len(),
            forall|j: int| 0 <= j < r ==> !ask_before(*a, #[trigger] self@[j]),
            r < self@.len() ==> ask_before(*a, self@[r as int]),
    {
        let n = self.levels.len();
        let mut i: usize = 0;
        while i < n
            invariant
                n == self@.len(),
                0 <= i <= n,
                forall|j: int| 0 <= j < i ==> !ask_before(*a, #[trigger] self@[j]),
            decreases n - i,
        {
            if Self::precedes(a, &self.levels[i]) {
                return i;
            }
            i = i + 1;
        }
        i
    }

    /// Whether `a` comes strictly earlier than `b` in the storage order.
    fn precedes(a: &Ask, b: &Ask) -> (r: bool)
        ensures
            r == ask_before(*a, *b),
    {
        a.price < b.price || (a.price == b.price && (a.quantity > b.quantity || (a.quantity
            == b.quantity && a.exchange.rank() > b.exchange.rank())))
    }

    /// Applies one ask update under the depth bound `max_depth`.
    ///
    /// Quantity `0` deletes the entry with the ask's key. Otherwise the ask
    /// is inserted, replacing any stored entry with the same key; when the
    /// side already holds `max_depth` levels, the worst level is evicted
    /// first if the new ask strictly improves on it, and the update is
    /// dropped if it does not.
    pub fn update_asks(&mut self, ask: Ask, max_depth: usize)
        requires
            old(self).wf(),
            max_depth >= 1,
        ensures
            final(self).wf(),
            final(self)@ == ask_update_spec(old(self)@, ask, max_depth as nat),
    {
        if ask.quantity == 0 {
            self.remove_key(&ask);
        } else if self.levels.len() < max_depth {
            self.remove_key(&ask);
            self.insert_sorted(ask);
        } else {
            let last = self.levels.len() - 1;
            let worst = self.levels[last];
            if ask.cmp(&worst).is_lt() {
                let ghost s = self.levels@;
                self.levels.remove(last);
                proof {
                    assert(self.levels@ =~= s.drop_last());
                    assert forall|p: int, q: int|
                        0 <= p < q < self.levels@.len() implies #[trigger] ask_before(
                        self.levels@[p],
                        self.levels@[q],
                    ) && !ask_same_key(self.levels@[p], self.levels@[q]) by {
                        assert(self.levels@[p] == s[p]);
                        assert(self.levels@[q] == s[q]);
                        assert(ask_before(s[p], s[q]) && !ask_same_key(s[p], s[q]));
                    }
                    assert forall|p: int|
                        0 <= p < self.levels@.len() implies (#[trigger] self.levels@[p]).quantity
                        != 0 by {
                        assert(self.levels@[p] == s[p]);
                    }
                }
                self.remove_key(&ask);
                self.insert_sorted(ask);
            }
        }
    }

    /// The best ask: the minimum of the side in the storage order.
    pub fn get_best_ask(&self) -> (r: Option<Ask>)
        requires
            self.wf(),
        ensures
            self@.len() == 0 ==> r is None,
            self@.len() > 0 ==> r == Some(self@[0]),
    {
        if self.levels.len() == 0 {
            None
        } else {
            Some(self.levels[0])
        }
    }

    /// The up-to-`n` best asks, best first. When the side holds fewer than
    /// `n` levels the result is short: every slot carries a stored level,
    /// with no padding.
    pub fn get_best_n_asks(&self, n: usize) -> (r: Vec<Option<Ask>>)
        requires
            self.wf(),
        ensures
            n <= self@.len() ==> r@.len() == n,
            self@.len() < n ==> r@.len() == self@.len(),
            forall|i: int| 0 <= i < r@.len() ==> r@[i] == Some(self@[i]),
    {
        let mut r: Vec<Option<Ask>> = Vec::new();
        let len = self.levels.len();
        let m = if n <= len {
            n
        } else {
            len
        };
        let mut i: usize = 0;
        while i < m
            invariant
                0 <= i <= m,
                m <= len,
                len == self@.len(),
                self.wf(),
                r@.len() == i,
                forall|j: int| 0 <= j < i ==> r@[j] == Some(self@[j]),
            decreases m - i,
        {
            r.push(Some(self.levels[i]));
            i = i + 1;
        }
        r
    }
}

} // verus!
