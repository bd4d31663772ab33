//! The sequence-ID venue adaptor: snapshot/delta reconciliation keyed on a
//! contiguous range of update IDs.
//!
//! Each depth update carries the range `[first_update_id, final_updated_id]`
//! of the venue's update IDs it covers. Starting from a snapshot tagged
//! `last_update_id`, a delta is applied exactly when it covers the next
//! unseen ID; older deltas are dropped as stale, and a gap the snapshot
//! cannot repair aborts the adaptor so the supervisor reconnects.

use crate::exchanges::exchange_utils::{
    asks_of_rows, bids_of_rows, convert_rows_to_asks, convert_rows_to_bids,
};
use crate::exchanges::Exchange;
use crate::order_book::price_level::PriceLevelUpdate;
use vstd::prelude::*;

verus! {

/// The sequence-ID venue.
pub struct Binance;

impl Binance {
    /// A handle on the venue.
    pub fn new() -> (r: Binance) {
        Binance {  }
    }
}

/// The event-kind envelope of one text frame.
#[derive(Debug, Clone)]
pub struct OrderBookEvent {
    pub event: String,
}

impl OrderBookEvent {
    /// True when the frame announces a depth update; frames of any other
    /// kind are ignored by the handler.
    pub fn is_depth_update(&self) -> (r: bool)
        ensures
            r == (self.event@ == "depthUpdate"@),
    {
        self.event == String::from_str("depthUpdate")
    }
}

/// One full depth snapshot, decoded to plain rows.
#[derive(Debug, Clone)]
pub struct OrderBookSnapshot {
    pub last_update_id: u64,
    pub bids: Vec<(u64, u64)>,
    pub asks: Vec<(u64, u64)>,
}

/// One incremental depth update, decoded to plain rows.
#[derive(Debug, Clone)]
pub struct OrderBookUpdate {
    pub event_time: u64,
    pub first_update_id: u64,
    pub final_updated_id: u64,
    pub bids: Vec<(u64, u64)>,
    pub asks: Vec<(u64, u64)>,
}

impl OrderBookUpdate {
    /// Packs one decoded depth update.
    pub fn new(
        event_time: u64,
        first_update_id: u64,
        final_updated_id: u64,
        bids: Vec<(u64, u64)>,
        asks: Vec<(u64, u64)>,
    ) -> (r: OrderBookUpdate)
        ensures
            r.event_time == event_time,
            r.first_update_id == first_update_id,
            r.final_updated_id == final_updated_id,
            r.bids == bids,
            r.asks == asks,
    {
        OrderBookUpdate { event_time, first_update_id, final_updated_id, bids, asks }
    }
}

/// The protocol violation the adaptor cannot heal: a delta that starts past
/// the next unseen update ID.
#[derive(Debug, Clone, Copy, PartialEq, Eq, Structural)]
pub enum BinanceError {
    InvalidUpdateId,
}

/// A delta covering `[first, fin]` is stale once every ID it carries has
/// been seen.
pub open spec fn delta_is_stale(last: u64, fin: u64) -> bool {
    fin <= last
}

/// A delta covering `[first, fin]` continues the stream at watermark `last`
/// exactly when it covers the next unseen ID `last + 1`.
pub open spec fn delta_in_sequence(last: u64, first: u64, fin: u64) -> bool {
    first <= last + 1 && last + 1 <= fin
}

/// The watermark after one delta covering `[first, fin]` is decided: an
/// in-sequence delta advances it to `fin`, everything else leaves it.
pub open spec fn watermark_step(last: u64, first: u64, fin: u64) -> u64 {
    if delta_in_sequence(last, first, fin) {
        fin
    } else {
        last
    }
}

/// The watermark after a run of deltas, each decided in order.
pub open spec fn run_watermark(last0: u64, deltas: Seq<(u64, u64)>) -> u64
    decreases deltas.len(),
{
    if deltas.len() == 0 {
        last0
    } else {
        run_watermark(watermark_step(last0, deltas[0].0, deltas[0].1), deltas.drop_first())
    }
}

/// Whether the `k`-th delta of the run is accepted, given everything
/// decided before it.
pub open spec fn delta_accepted_at(last0: u64, deltas: Seq<(u64, u64)>, k: int) -> bool {
    delta_in_sequence(run_watermark(last0, deltas.take(k)), deltas[k].0, deltas[k].1)
}

proof fn lemma_run_watermark_snoc(last0: u64, deltas: Seq<(u64, u64)>, x: (u64, u64))
    ensures
        run_watermark(last0, deltas.push(x)) == watermark_step(
            run_watermark(last0, deltas),
            x.0,
            x.1,
        ),
    decreases deltas.len(),
{
    if deltas.len() == 0 {
        assert(deltas.push(x).drop_first() =~= deltas);
        assert(deltas.push(x)[0] == x);
        assert(run_watermark(watermark_step(last0, x.0, x.1), deltas) == watermark_step(
            last0,
            x.0,
            x.1,
        ));
    } else {
        assert(deltas.push(x)[0] == deltas[0]);
        assert(deltas.push(x).drop_first() =~= deltas.drop_first().push(x));
        lemma_run_watermark_snoc(
            watermark_step(last0, deltas[0].0, deltas[0].1),
            deltas.drop_first(),
            x,
        );
        assert(run_watermark(last0, deltas.push(x)) == run_watermark(
            watermark_step(last0, deltas[0].0, deltas[0].1),
            deltas.push(x).drop_first(),
        ));
        assert(run_watermark(last0, deltas) == run_watermark(
            watermark_step(last0, deltas[0].0, deltas[0].1),
            deltas.drop_first(),
        ));
    }
}

/// Law: across any run of deltas, an accepted delta covers the watermark
/// left behind by the previously accepted one: where delta `k` is accepted
/// and delta `j` was the last one accepted before it,
/// `first_k <= final_j + 1 <= final_k`.
pub proof fn lemma_accepted_deltas_contiguous(
    last0: u64,
    deltas: Seq<(u64, u64)>,
    j: int,
    k: int,
)
    requires
        0 <= j < k < deltas.len(),
        delta_accepted_at(last0, deltas, j),
        delta_accepted_at(last0, deltas, k),
        forall|m: int| j < m < k ==> !delta_accepted_at(last0, deltas, m),
    ensures
        deltas[k].0 <= deltas[j].1 + 1 <= deltas[k].1,
{
    lemma_watermark_constant_after(last0, deltas, j, k);
}

/// The watermark right before delta `k` equals the final ID of delta `j`,
/// when `j` was accepted and nothing between `j` and `k` was.
proof fn lemma_watermark_constant_after(last0: u64, deltas: Seq<(u64, u64)>, j: int, k: int)
    requires
        0 <= j < k <= deltas.len(),
        delta_accepted_at(last0, deltas, j),
        forall|m: int| j < m < k ==> !delta_accepted_at(last0, deltas, m),
    ensures
        run_watermark(last0, deltas.take(k)) == deltas[j].1,
    decreases k - j,
{
    if k == j + 1 {
        assert(deltas.take(k) =~= deltas.take(j).push(deltas[j]));
        lemma_run_watermark_snoc(last0, deltas.take(j), deltas[j]);
    } else {
        lemma_watermark_constant_after(last0, deltas, j, k - 1);
        assert(deltas.take(k) =~= deltas.take(k - 1).push(deltas[k - 1]));
        lemma_run_watermark_snoc(last0, deltas.take(k - 1), deltas[k - 1]);
        assert(!delta_accepted_at(last0, deltas, k - 1));
    }
}

/// Reconciliation state for one connection lifetime: the ID of the last
/// update applied, reset by every snapshot.
pub struct Reconciler {
    pub last_update_id: u64,
}

impl Reconciler {
    /// A fresh reconciliation state, before any snapshot.
    pub fn new() -> (r: Reconciler)
        ensures
            r.last_update_id == 0,
    {
        Reconciler { last_update_id: 0 }
    }

    /// Applies a depth snapshot: the watermark becomes the snapshot's ID and
    /// every snapshot row is emitted as a level of the venue.
    pub fn apply_snapshot(&mut self, snapshot: &OrderBookSnapshot) -> (r: PriceLevelUpdate)
        ensures
            final(self).last_update_id == snapshot.last_update_id,
            r.bids@ == bids_of_rows(snapshot.bids@, Exchange::Binance),
            r.asks@ == asks_of_rows(snapshot.asks@, Exchange::Binance),
    {
        self.last_update_id = snapshot.last_update_id;
        PriceLevelUpdate {
            bids: convert_rows_to_bids(&snapshot.bids, Exchange::Binance),
            asks: convert_rows_to_asks(&snapshot.asks, Exchange::Binance),
        }
    }

    /// Decides one depth update against the watermark.
    ///
    /// A stale delta is dropped and changes nothing. A delta that covers the
    /// next unseen ID is emitted and advances the watermark to its final ID.
    /// Any other delta is a gap: the adaptor reports `InvalidUpdateId`,
    /// forwards nothing, and leaves the watermark unchanged.
    pub fn apply_delta(&mut self, update: &OrderBookUpdate) -> (r: Result<
        Option<PriceLevelUpdate>,
        BinanceError,
    >)
        requires
            old(self).last_update_id < u64::MAX,
        ensures
            delta_is_stale(old(self).last_update_id, update.final_updated_id) ==> r == Ok::<
                Option<PriceLevelUpdate>,
                BinanceError,
            >(None) && final(self).last_update_id == old(self).last_update_id,
            delta_in_sequence(
                old(self).last_update_id,
                update.first_update_id,
                update.final_updated_id,
            ) ==> {
                &&& r is Ok
                &&& r->Ok_0 is Some
                &&& r->Ok_0->0.bids@ == bids_of_rows(update.bids@, Exchange::Binance)
                &&& r->Ok_0->0.asks@ == asks_of_rows(update.asks@, Exchange::Binance)
                &&& final(self).last_update_id == update.final_updated_id
            },
            !delta_is_stale(old(self).last_update_id, update.final_updated_id)
                && !delta_in_sequence(
                old(self).last_update_id,
                update.first_update_id,
                update.final_updated_id,
            ) ==> r == Err::<Option<PriceLevelUpdate>, BinanceError>(BinanceError::InvalidUpdateId)
                && final(self).last_update_id == old(self).last_update_id,
    {
        if update.final_updated_id <= self.last_update_id {
            Ok(None)
        } else if update.first_update_id <= self.last_update_id + 1 {
            self.last_update_id = update.final_updated_id;
            Ok(
                Some(
                    PriceLevelUpdate {
                        bids: convert_rows_to_bids(&update.bids, Exchange::Binance),
                        asks: convert_rows_to_asks(&update.asks, Exchange::Binance),
                    },
                ),
            )
        } else {
            Err(BinanceError::InvalidUpdateId)
        }
    }
}

} // verus!
