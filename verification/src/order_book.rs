//! The aggregated order book: price-level value types, the two depth-bounded
//! side containers, and the aggregator that turns batches of price-level
//! updates into published summaries.

pub mod binary_tree;
pub mod buy_side;
pub mod price_level;
pub mod sell_side;

use crate::exchanges::{exchange_name, Exchange};
use crate::order_book::buy_side::{
    bid_side_wf, bid_update_spec, lemma_bid_update_keeps_suffix, lemma_bid_update_len,
    lemma_bid_update_wf, BuySide,
};
use crate::order_book::price_level::{
    ask_before, ask_same_key, bid_before, bid_same_key, Ask, Bid, PriceLevelUpdate,
};
use crate::order_book::sell_side::{
    ask_side_wf, ask_update_spec, lemma_ask_update_keeps_prefix, lemma_ask_update_len,
    lemma_ask_update_wf, SellSide,
};
use vstd::prelude::*;

verus! {

/// One published price level: the encoded price and quantity, and the name
/// of the venue it rests on.
#[derive(Debug, Clone)]
pub struct Level {
    pub price: u64,
    pub amount: u64,
    pub exchange: String,
}

/// True when the published level carries exactly the bid's data.
pub open spec fn level_is_bid(l: Level, b: Bid) -> bool {
    l.price == b.price && l.amount == b.quantity && l.exchange@ == exchange_name(b.exchange)
}

/// True when the published level carries exactly the ask's data.
pub open spec fn level_is_ask(l: Level, a: Ask) -> bool {
    l.price == a.price && l.amount == a.quantity && l.exchange@ == exchange_name(a.exchange)
}

/// The smaller of the requested depth and the stored depth.
pub open spec fn topn_len(n: nat, len: nat) -> nat {
    if n <= len {
        n
    } else {
        len
    }
}

/// The up-to-`n` best bids of a stored side, best first.
pub open spec fn best_bids_of(s: Seq<Bid>, n: nat) -> Seq<Bid> {
    Seq::new(topn_len(n, s.len()), |i: int| s[s.len() - 1 - i])
}

/// The up-to-`n` best asks of a stored side, best first.
pub open spec fn best_asks_of(s: Seq<Ask>, n: nat) -> Seq<Ask> {
    Seq::new(topn_len(n, s.len()), |i: int| s[i])
}

/// The published cache holds exactly the best `n` bids of the side.
pub open spec fn cache_matches_bids(cache: Seq<Level>, s: Seq<Bid>, n: nat) -> bool {
    &&& cache.len() == best_bids_of(s, n).len()
    &&& forall|i: int|
        0 <= i < cache.len() ==> level_is_bid(#[trigger] cache[i], best_bids_of(s, n)[i])
}

/// The published cache holds exactly the best `n` asks of the side.
pub open spec fn cache_matches_asks(cache: Seq<Level>, s: Seq<Ask>, n: nat) -> bool {
    &&& cache.len() == best_asks_of(s, n).len()
    &&& forall|i: int|
        0 <= i < cache.len() ==> level_is_ask(#[trigger] cache[i], best_asks_of(s, n)[i])
}

/// One published snapshot of the aggregated top of book: the price of the
/// best bid and of the best ask, whose difference is the spread, and the
/// best-`n` levels of each side, best first.
#[derive(Debug, Clone)]
pub struct Summary {
    pub best_bid_price: u64,
    pub best_ask_price: u64,
    pub bids: Vec<Level>,
    pub asks: Vec<Level>,
}

/// A stored buy side after one batch of bid updates, applied in order.
pub open spec fn bids_after(s: Seq<Bid>, us: Seq<Bid>, d: nat) -> Seq<Bid>
    decreases us.len(),
{
    if us.len() == 0 {
        s
    } else {
        bids_after(bid_update_spec(s, us[0], d), us.drop_first(), d)
    }
}

/// A stored sell side after one batch of ask updates, applied in order.
pub open spec fn asks_after(s: Seq<Ask>, us: Seq<Ask>, d: nat) -> Seq<Ask>
    decreases us.len(),
{
    if us.len() == 0 {
        s
    } else {
        asks_after(ask_update_spec(s, us[0], d), us.drop_first(), d)
    }
}

proof fn lemma_bids_after_snoc(s: Seq<Bid>, us: Seq<Bid>, b: Bid, d: nat)
    ensures
        bids_after(s, us.push(b), d) == bid_update_spec(bids_after(s, us, d), b, d),
    decreases us.len(),
{
    if us.len() == 0 {
        assert(us.push(b).drop_first() =~= us);
        assert(us.push(b)[0] == b);
        assert(bids_after(bid_update_spec(s, b, d), us, d) == bid_update_spec(s, b, d));
        assert(bids_after(s, us.push(b), d) == bids_after(
            bid_update_spec(s, b, d),
            us.push(b).drop_first(),
            d,
        ));
    } else {
        assert(us.push(b)[0] == us[0]);
        assert(us.push(b).drop_first() =~= us.drop_first().push(b));
        lemma_bids_after_snoc(bid_update_spec(s, us[0], d), us.drop_first(), b, d);
        assert(bids_after(s, us.push(b), d) == bids_after(
            bid_update_spec(s, us[0], d),
            us.push(b).drop_first(),
            d,
        ));
        assert(bids_after(s, us, d) == bids_after(bid_update_spec(s, us[0], d), us.drop_first(), d));
    }
}

proof fn lemma_asks_after_snoc(s: Seq<Ask>, us: Seq<Ask>, a: Ask, d: nat)
    ensures
        asks_after(s, us.push(a), d) == ask_update_spec(asks_after(s, us, d), a, d),
    decreases us.len(),
{
    if us.len() == 0 {
        assert(us.push(a).drop_first() =~= us);
        assert(us.push(a)[0] == a);
        assert(asks_after(ask_update_spec(s, a, d), us, d) == ask_update_spec(s, a, d));
        assert(asks_after(s, us.push(a), d) == asks_after(
            ask_update_spec(s, a, d),
            us.push(a).drop_first(),
            d,
        ));
    } else {
        assert(us.push(a)[0] == us[0]);
        assert(us.push(a).drop_first() =~= us.drop_first().push(a));
        lemma_asks_after_snoc(ask_update_spec(s, us[0], d), us.drop_first(), a, d);
        assert(asks_after(s, us.push(a), d) == asks_after(
            ask_update_spec(s, us[0], d),
            us.push(a).drop_first(),
            d,
        ));
        assert(asks_after(s, us, d) == asks_after(ask_update_spec(s, us[0], d), us.drop_first(), d));
    }
}

/// Law: after any batch of updates under depth bound `d`, a buy side that
/// started within the bound still holds at most `d` levels, none of them
/// with quantity zero, and no two of them sharing `(price, venue)`.
pub proof fn lemma_bid_updates_invariants(s: Seq<Bid>, us: Seq<Bid>, d: nat)
    requires
        bid_side_wf(s),
        s.len() <= d,
    ensures
        bids_after(s, us, d).len() <= d,
        bid_side_wf(bids_after(s, us, d)),
        forall|i: int|
            0 <= i < bids_after(s, us, d).len() ==> (#[trigger] bids_after(s, us, d)[i]).quantity
                != 0,
        forall|i: int, j: int|
            0 <= i < j < bids_after(s, us, d).len() ==> !bid_same_key(
                bids_after(s, us, d)[i],
                bids_after(s, us, d)[j],
            ),
    decreases us.len(),
{
    if us.len() > 0 {
        lemma_bid_update_len(s, us[0], d);
        lemma_bid_update_wf(s, us[0], d);
        lemma_bid_updates_invariants(bid_update_spec(s, us[0], d), us.drop_first(), d);
    }
}

/// Law: after any batch of updates under depth bound `d`, a sell side that
/// started within the bound still holds at most `d` levels, none of them
/// with quantity zero, and no two of them sharing `(price, venue)`.
pub proof fn lemma_ask_updates_invariants(s: Seq<Ask>, us: Seq<Ask>, d: nat)
    requires
        ask_side_wf(s),
        s.len() <= d,
    ensures
        asks_after(s, us, d).len() <= d,
        ask_side_wf(asks_after(s, us, d)),
        forall|i: int|
            0 <= i < asks_after(s, us, d).len() ==> (#[trigger] asks_after(s, us, d)[i]).quantity
                != 0,
        forall|i: int, j: int|
            0 <= i < j < asks_after(s, us, d).len() ==> !ask_same_key(
                asks_after(s, us, d)[i],
                asks_after(s, us, d)[j],
            ),
    decreases us.len(),
{
    if us.len() > 0 {
        lemma_ask_update_len(s, us[0], d);
        lemma_ask_update_wf(s, us[0], d);
        lemma_ask_updates_invariants(ask_update_spec(s, us[0], d), us.drop_first(), d);
    }
}

/// Law: the best-`n` bid view is sorted best first and is a prefix of the
/// whole side read best first.
pub proof fn lemma_best_n_bids_sorted_prefix(s: Seq<Bid>, n: nat)
    requires
        bid_side_wf(s),
    ensures
        forall|i: int, j: int|
            0 <= i < j < best_bids_of(s, n).len() ==> bid_before(
                best_bids_of(s, n)[j],
                best_bids_of(s, n)[i],
            ),
        best_bids_of(s, n) == best_bids_of(s, s.len()).take(topn_len(n, s.len()) as int),
{
    assert forall|i: int, j: int|
        0 <= i < j < best_bids_of(s, n).len() implies bid_before(
        best_bids_of(s, n)[j],
        best_bids_of(s, n)[i],
    ) by {
        assert(best_bids_of(s, n)[i] == s[s.len() - 1 - i]);
        assert(best_bids_of(s, n)[j] == s[s.len() - 1 - j]);
        assert(bid_before(s[s.len() - 1 - j], s[s.len() - 1 - i]));
    }
    assert(best_bids_of(s, n) =~= best_bids_of(s, s.len()).take(topn_len(n, s.len()) as int));
}

/// Law: the best-`n` ask view is sorted best first and is a prefix of the
/// whole side read best first.
pub proof fn lemma_best_n_asks_sorted_prefix(s: Seq<Ask>, n: nat)
    requires
        ask_side_wf(s),
    ensures
        forall|i: int, j: int|
            0 <= i < j < best_asks_of(s, n).len() ==> ask_before(
                best_asks_of(s, n)[i],
                best_asks_of(s, n)[j],
            ),
        best_asks_of(s, n) == best_asks_of(s, s.len()).take(topn_len(n, s.len()) as int),
{
    assert forall|i: int, j: int|
        0 <= i < j < best_asks_of(s, n).len() implies ask_before(
        best_asks_of(s, n)[i],
        best_asks_of(s, n)[j],
    ) by {
        assert(best_asks_of(s, n)[i] == s[i]);
        assert(best_asks_of(s, n)[j] == s[j]);
        assert(ask_before(s[i], s[j]));
    }
    assert(best_asks_of(s, n) =~= best_asks_of(s, s.len()).take(topn_len(n, s.len()) as int));
}

/// The aggregated order book: both side containers, owned exclusively by the
/// consumer of the update channel, together with the cached top-of-book view
/// published to subscribers.
pub struct AggregatedOrderBook {
    pub pair: [String; 2],
    pub exchanges: Vec<Exchange>,
    pub bids: BuySide,
    pub asks: SellSide,
    pub best_bid_price: u64,
    pub best_ask_price: u64,
    pub best_n_bids: Vec<Level>,
    pub best_n_asks: Vec<Level>,
    pub last_bid: Bid,
    pub last_ask: Ask,
}

impl AggregatedOrderBook {
    /// The aggregator's invariant at published depth `n`: both sides are
    /// well formed, each cached top-`n` mirrors its side, the tracked worst
    /// cached entries are the sides' `n`-th best levels, and the tracked
    /// head prices are the sides' best prices.
    pub open spec fn consistent(&self, n: nat) -> bool {
        &&& self.bids.wf()
        &&& self.asks.wf()
        &&& cache_matches_bids(self.best_n_bids@, self.bids@, n)
        &&& cache_matches_asks(self.best_n_asks@, self.asks@, n)
        &&& n >= 1 && self.best_n_bids@.len() == n ==> self.last_bid == self.bids@[self.bids@.len()
            - n]
        &&& n >= 1 && self.best_n_asks@.len() == n ==> self.last_ask == self.asks@[n - 1]
        &&& self.best_n_bids@.len() > 0 ==> self.best_bid_price == self.bids@[self.bids@.len()
            - 1].price
        &&& self.best_n_asks@.len() > 0 ==> self.best_ask_price == self.asks@[0].price
    }

    /// A fresh aggregated book for one pair over the given venues; both
    /// sides start empty, as they do on startup.
    pub fn new(pair: [&str; 2], exchanges: Vec<Exchange>, bids: BuySide, asks: SellSide) -> (r:
        AggregatedOrderBook)
        requires
            bids@.len() == 0,
            asks@.len() == 0,
        ensures
            forall|n: nat| r.consistent(n),
            r.bids@.len() == 0,
            r.asks@.len() == 0,
            r.exchanges == exchanges,
            r.pair@.len() == 2,
    {
        let r = AggregatedOrderBook {
            pair: [pair[0].to_owned(), pair[1].to_owned()],
            exchanges,
            bids,
            asks,
            best_bid_price: 0,
            best_ask_price: 0,
            best_n_bids: Vec::new(),
            best_n_asks: Vec::new(),
            last_bid: Bid::default(),
            last_ask: Ask::default(),
        };
        proof {
            assert forall|n: nat| r.consistent(n) by {
                assert(best_bids_of(r.bids@, n).len() == 0);
                assert(best_asks_of(r.asks@, n).len() == 0);
            }
        }
        r
    }

    /// Reads the up-to-`n` best levels of the buy side into published form,
    /// together with the `n`-th best bid (the refresh threshold) and the
    /// best price.
    fn build_bid_cache(side: &BuySide, n: usize) -> (r: (Vec<Level>, Bid, u64))
        requires
            side.wf(),
            n >= 1,
        ensures
            cache_matches_bids(r.0@, side@, n as nat),
            r.0@.len() == n ==> r.1 == side@[side@.len() - n],
            side@.len() > 0 ==> r.2 == side@[side@.len() - 1].price,
    {
        let len = side.len();
        let m = if n <= len {
            n
        } else {
            len
        };
        let levels = side.levels();
        let mut cache: Vec<Level> = Vec::new();
        let mut k: usize = 0;
        while k < m
            invariant
                m <= len,
                len == side@.len(),
                0 <= k <= m,
                cache@.len() == k,
                forall|j: int|
                    0 <= j < k ==> level_is_bid(#[trigger] cache@[j], side@[side@.len() - 1 - j]),
                levels@ == side@,
            decreases m - k,
        {
            let b = levels[len - 1 - k];
            cache.push(Level { price: b.price, amount: b.quantity, exchange: b.exchange.to_string() });
            k = k + 1;
        }
        let last = if m >= 1 {
            levels[len - m]
        } else {
            Bid::default()
        };
        let head_price = if len > 0 {
            levels[len - 1].price
        } else {
            0
        };
        proof {
            assert(cache@.len() == best_bids_of(side@, n as nat).len());
            assert forall|i: int| 0 <= i < cache@.len() implies level_is_bid(
                #[trigger] cache@[i],
                best_bids_of(side@, n as nat)[i],
            ) by {
                assert(best_bids_of(side@, n as nat)[i] == side@[side@.len() - 1 - i]);
            }
        }
        (cache, last, head_price)
    }

    /// Reads the up-to-`n` best levels of the sell side into published form,
    /// together with the `n`-th best ask (the refresh threshold) and the
    /// best price.
    fn build_ask_cache(side: &SellSide, n: usize) -> (r: (Vec<Level>, Ask, u64))
        requires
            side.wf(),
            n >= 1,
        ensures
            cache_matches_asks(r.0@, side@, n as nat),
            r.0@.len() == n ==> r.1 == side@[n - 1],
            side@.len() > 0 ==> r.2 == side@[0].price,
    {
        let len = side.len();
        let m = if n <= len {
            n
        } else {
            len
        };
        let levels = side.levels();
        let mut cache: Vec<Level> = Vec::new();
        let mut k: usize = 0;
        while k < m
            invariant
                m <= len,
                len == side@.len(),
                0 <= k <= m,
                cache@.len() == k,
                forall|j: int| 0 <= j < k ==> level_is_ask(#[trigger] cache@[j], side@[j]),
                levels@ == side@,
            decreases m - k,
        {
            let a = levels[k];
            cache.push(Level { price: a.price, amount: a.quantity, exchange: a.exchange.to_string() });
            k = k + 1;
        }
        let last = if m >= 1 {
            levels[m - 1]
        } else {
            Ask::default()
        };
        let head_price = if len > 0 {
            levels[0].price
        } else {
            0
        };
        proof {
            assert(cache@.len() == best_asks_of(side@, n as nat).len());
            assert forall|i: int| 0 <= i < cache@.len() implies level_is_ask(
                #[trigger] cache@[i],
                best_asks_of(side@, n as nat)[i],
            ) by {
                assert(best_asks_of(side@, n as nat)[i] == side@[i]);
            }
        }
        (cache, last, head_price)
    }

    /// Copies a published level sequence field for field.
    fn copy_levels(v: &Vec<Level>) -> (r: Vec<Level>)
        ensures
            r@.len() == v@.len(),
            forall|i: int|
                0 <= i < v@.len() ==> (#[trigger] r@[i]).price == v@[i].price && r@[i].amount
                    == v@[i].amount && r@[i].exchange@ == v@[i].exchange@,
    {
        let mut r: Vec<Level> = Vec::new();
        let n = v.len();
        let mut i: usize = 0;
        while i < n
            invariant
                n == v@.len(),
                0 <= i <= n,
                r@.len() == i,
                forall|j: int|
                    0 <= j < i ==> (#[trigger] r@[j]).price == v@[j].price && r@[j].amount
                        == v@[j].amount && r@[j].exchange@ == v@[j].exchange@,
            decreases n - i,
        {
            let l = &v[i];
            r.push(Level { price: l.price, amount: l.amount, exchange: l.exchange.clone() });
            i = i + 1;
        }
        r
    }

    /// Applies one batch of price-level updates and assembles the summary to
    /// publish, if any.
    ///
    /// Every bid and ask of the batch is applied to its side in order under
    /// the depth bound. A side's cached top-`best_n` is refreshed whenever
    /// the cache is not full or some update of the batch could reach it; the
    /// refresh guard errs toward refreshing, and the contract states that
    /// the caches mirror the sides exactly afterwards. A summary is returned
    /// exactly when both sides hold at least one level; it carries both
    /// cached top-`best_n` sequences (best first) and the two head prices
    /// whose difference is the published spread.
    pub fn apply_update(
        &mut self,
        update: PriceLevelUpdate,
        max_depth: usize,
        best_n: usize,
    ) -> (r: Option<Summary>)
        requires
            old(self).consistent(best_n as nat),
            max_depth >= 1,
            best_n >= 1,
        ensures
            final(self).consistent(best_n as nat),
            final(self).bids@ == bids_after(old(self).bids@, update.bids@, max_depth as nat),
            final(self).asks@ == asks_after(old(self).asks@, update.asks@, max_depth as nat),
            final(self).pair == old(self).pair,
            final(self).exchanges == old(self).exchanges,
            r is Some <==> final(self).bids@.len() > 0 && final(self).asks@.len() > 0,
            r is Some ==> {
                &&& cache_matches_bids(r->0.bids@, final(self).bids@, best_n as nat)
                &&& cache_matches_asks(r->0.asks@, final(self).asks@, best_n as nat)
                &&& r->0.best_bid_price == final(self).bids@[final(self).bids@.len() - 1].price
                &&& r->0.best_ask_price == final(self).asks@[0].price
            },
    {
        let ghost n = best_n as nat;
        let ghost d = max_depth as nat;
        let ghost s0_bids = self.bids@;
        let ghost s0_asks = self.asks@;

        // Apply the bid batch, tracking whether the cached top-n could have
        // changed: it cannot once it is full and every update prices below
        // its worst entry.
        let mut dirty_bids = false;
        let nb = update.bids.len();
        let mut i: usize = 0;
        while i < nb
            invariant
                nb == update.bids@.len(),
                0 <= i <= nb,
                max_depth >= 1,
                best_n >= 1,
                n == best_n as nat,
                d == max_depth as nat,
                s0_bids == old(self).bids@,
                old(self).consistent(n),
                self.bids.wf(),
                self.bids@ == bids_after(s0_bids, update.bids@.subrange(0, i as int), d),
                self.asks == old(self).asks,
                self.best_n_bids == old(self).best_n_bids,
                self.best_n_asks == old(self).best_n_asks,
                self.last_bid == old(self).last_bid,
                self.last_ask == old(self).last_ask,
                self.best_bid_price == old(self).best_bid_price,
                self.best_ask_price == old(self).best_ask_price,
                self.pair == old(self).pair,
                self.exchanges == old(self).exchanges,
                !dirty_bids ==> best_bids_of(self.bids@, n) == best_bids_of(s0_bids, n),
            decreases nb - i,
        {
            let b = update.bids[i];
            let ghost pre = self.bids@;
            let was_dirty = dirty_bids;
            if self.best_n_bids.len() < best_n || b.price >= self.last_bid.price {
                dirty_bids = true;
            }
            self.bids.update_bids(b, max_depth);
            proof {
                assert(update.bids@.subrange(0, i + 1) =~= update.bids@.subrange(0, i as int).push(
                    b,
                ));
                lemma_bids_after_snoc(s0_bids, update.bids@.subrange(0, i as int), b, d);
                if !dirty_bids {
                    // The cache was full and this bid prices strictly below
                    // its worst entry, so the top-n suffix is untouched.
                    assert(self.best_n_bids@.len() == best_bids_of(s0_bids, n).len());
                    assert(self.best_n_bids@.len() >= n);
                    assert(best_bids_of(s0_bids, n).len() <= n);
                    assert(best_bids_of(s0_bids, n).len() == n);
                    assert(s0_bids.len() >= n);
                    assert(best_bids_of(pre, n).len() == n);
                    assert(pre.len() >= n);
                    assert(self.last_bid == s0_bids[s0_bids.len() - n]);
                    assert(best_bids_of(s0_bids, n)[n - 1] == s0_bids[s0_bids.len() - n]);
                    assert(best_bids_of(pre, n)[n - 1] == pre[pre.len() - n]);
                    assert(pre[pre.len() - n] == s0_bids[s0_bids.len() - n]);
                    assert(b.price < pre[pre.len() - n].price);
                    lemma_bid_update_keeps_suffix(pre, b, d, n);
                    let post = bid_update_spec(pre, b, d);
                    assert(post.len() >= n);
                    assert forall|t: int|
                        0 <= t < n implies best_bids_of(post, n)[t] == best_bids_of(pre, n)[t] by {
                        let u = n - 1 - t;
                        assert(post.subrange(post.len() - n, post.len() as int)[u] == post[post.len()
                            - n + u]);
                        assert(pre.subrange(pre.len() - n, pre.len() as int)[u] == pre[pre.len() - n
                            + u]);
                    }
                    assert(best_bids_of(post, n) =~= best_bids_of(pre, n));
                }
            }
            i = i + 1;
        }
        proof {
            assert(update.bids@.subrange(0, nb as int) =~= update.bids@);
        }

        // Apply the ask batch the same way.
        let mut dirty_asks = false;
        let na = update.asks.len();
        let mut j: usize = 0;
        while j < na
            invariant
                na == update.asks@.len(),
                0 <= j <= na,
                max_depth >= 1,
                best_n >= 1,
                n == best_n as nat,
                d == max_depth as nat,
                s0_asks == old(self).asks@,
                old(self).consistent(n),
                self.asks.wf(),
                self.asks@ == asks_after(s0_asks, update.asks@.subrange(0, j as int), d),
                self.bids@ == bids_after(old(self).bids@, update.bids@, d),
                self.bids.wf(),
                self.best_n_bids == old(self).best_n_bids,
                self.best_n_asks == old(self).best_n_asks,
                self.last_bid == old(self).last_bid,
                self.last_ask == old(self).last_ask,
                self.best_bid_price == old(self).best_bid_price,
                self.best_ask_price == old(self).best_ask_price,
                self.pair == old(self).pair,
                self.exchanges == old(self).exchanges,
                !dirty_bids ==> best_bids_of(self.bids@, n) == best_bids_of(s0_bids, n),
                s0_bids == old(self).bids@,
                !dirty_asks ==> best_asks_of(self.asks@, n) == best_asks_of(s0_asks, n),
            decreases na - j,
        {
            let a = update.asks[j];
            let ghost pre = self.asks@;
            if self.best_n_asks.len() < best_n || a.price <= self.last_ask.price {
                dirty_asks = true;
            }
            self.asks.update_asks(a, max_depth);
            proof {
                assert(update.asks@.subrange(0, j + 1) =~= update.asks@.subrange(0, j as int).push(
                    a,
                ));
                lemma_asks_after_snoc(s0_asks, update.asks@.subrange(0, j as int), a, d);
                if !dirty_asks {
                    assert(self.best_n_asks@.len() == best_asks_of(s0_asks, n).len());
                    assert(best_asks_of(s0_asks, n).len() == n);
                    assert(s0_asks.len() >= n);
                    assert(best_asks_of(pre, n).len() == n);
                    assert(pre.len() >= n);
                    assert(self.last_ask == s0_asks[n - 1]);
                    assert(best_asks_of(s0_asks, n)[n - 1] == s0_asks[n - 1]);
                    assert(best_asks_of(pre, n)[n - 1] == pre[n - 1]);
                    assert(pre[n - 1] == s0_asks[n - 1]);
                    assert(a.price > pre[n - 1].price);
                    lemma_ask_update_keeps_prefix(pre, a, d, n);
                    let post = ask_update_spec(pre, a, d);
                    assert(post.len() >= n);
                    assert forall|t: int|
                        0 <= t < n implies best_asks_of(post, n)[t] == best_asks_of(pre, n)[t] by {
                        assert(post.subrange(0, n as int)[t] == post[t]);
                        assert(pre.subrange(0, n as int)[t] == pre[t]);
                    }
                    assert(best_asks_of(post, n) =~= best_asks_of(pre, n));
                }
            }
            j = j + 1;
        }
        proof {
            assert(update.asks@.subrange(0, na as int) =~= update.asks@);
        }

        // Refresh the cached views that may have changed.
        if dirty_bids {
            let built = Self::build_bid_cache(&self.bids, best_n);
            self.best_n_bids = built.0;
            self.last_bid = built.1;
            if self.best_n_bids.len() > 0 {
                self.best_bid_price = built.2;
            }
        }
        if dirty_asks {
            let built = Self::build_ask_cache(&self.asks, best_n);
            self.best_n_asks = built.0;
            self.last_ask = built.1;
            if self.best_n_asks.len() > 0 {
                self.best_ask_price = built.2;
            }
        }

        proof {
            let fb = self.bids@;
            let fa = self.asks@;
            if !dirty_bids {
                assert(best_bids_of(fb, n) == best_bids_of(s0_bids, n));
                assert(cache_matches_bids(self.best_n_bids@, fb, n));
                if n >= 1 && self.best_n_bids@.len() == n {
                    assert(fb.len() >= n && s0_bids.len() >= n);
                    assert(best_bids_of(fb, n)[n - 1] == best_bids_of(s0_bids, n)[n - 1]);
                    assert(self.last_bid == fb[fb.len() - n]);
                }
                if self.best_n_bids@.len() > 0 {
                    assert(fb.len() >= 1 && s0_bids.len() >= 1);
                    assert(best_bids_of(fb, n)[0] == best_bids_of(s0_bids, n)[0]);
                    assert(self.best_bid_price == fb[fb.len() - 1].price);
                }
            }
            if !dirty_asks {
                assert(best_asks_of(fa, n) == best_asks_of(s0_asks, n));
                assert(cache_matches_asks(self.best_n_asks@, fa, n));
                if n >= 1 && self.best_n_asks@.len() == n {
                    assert(fa.len() >= n && s0_asks.len() >= n);
                    assert(best_asks_of(fa, n)[n - 1] == best_asks_of(s0_asks, n)[n - 1]);
                    assert(self.last_ask == fa[n - 1]);
                }
                if self.best_n_asks@.len() > 0 {
                    assert(fa.len() >= 1 && s0_asks.len() >= 1);
                    assert(best_asks_of(fa, n)[0] == best_asks_of(s0_asks, n)[0]);
                    assert(self.best_ask_price == fa[0].price);
                }
            }
            assert(self.consistent(n));
            assert(self.best_n_bids@.len() > 0 <==> fb.len() > 0);
            assert(self.best_n_asks@.len() > 0 <==> fa.len() > 0);
        }
        // Publish only when both sides hold at least one level.
        if self.best_n_bids.len() > 0 && self.best_n_asks.len() > 0 {
            let bids_out = Self::copy_levels(&self.best_n_bids);
            let asks_out = Self::copy_levels(&self.best_n_asks);
            proof {
                assert forall|i: int| 0 <= i < bids_out@.len() implies level_is_bid(
                    #[trigger] bids_out@[i],
                    best_bids_of(self.bids@, n)[i],
                ) by {
                    assert(level_is_bid(self.best_n_bids@[i], best_bids_of(self.bids@, n)[i]));
                }
                assert forall|i: int| 0 <= i < asks_out@.len() implies level_is_ask(
                    #[trigger] asks_out@[i],
                    best_asks_of(self.asks@, n)[i],
                ) by {
                    assert(level_is_ask(self.best_n_asks@[i], best_asks_of(self.asks@, n)[i]));
                }
            }
            Some(
                Summary {
                    best_bid_price: self.best_bid_price,
                    best_ask_price: self.best_ask_price,
                    bids: bids_out,
                    asks: asks_out,
                },
            )
        } else {
            None
        }
    }
}

} // verus!
