//! The timestamp venue adaptor: snapshot/delta reconciliation keyed on a
//! strictly increasing microsecond timestamp.
//!
//! After the subscribe handshake the venue streams diff-order-book frames
//! tagged with a `microtimestamp`; a frame is applied exactly when its
//! timestamp is newer than the last applied one, so replays and reordered
//! frames are dropped without error.

use crate::exchanges::exchange_utils::{
    asks_of_rows, bids_of_rows, convert_rows_to_asks, convert_rows_to_bids,
};
use crate::exchanges::Exchange;
use crate::order_book::price_level::PriceLevelUpdate;
use vstd::prelude::*;

verus! {

/// The timestamp venue.
pub struct Bitstamp;

impl Bitstamp {
    /// A handle on the venue.
    pub fn new() -> (r: Bitstamp) {
        Bitstamp {  }
    }
}

/// The channel field of a subscribe message.
#[derive(Debug, Clone)]
pub struct SubscriptionData {
    pub channel: String,
}

impl SubscriptionData {
    /// Names the channel to subscribe to.
    pub fn new(channel: &str) -> (r: SubscriptionData)
        ensures
            r.channel@ == channel@,
    {
        SubscriptionData { channel: channel.to_owned() }
    }
}

/// The subscribe handshake the client sends right after connecting.
#[derive(Debug, Clone)]
pub struct SubscribeMessage {
    pub event: String,
    pub data: SubscriptionData,
}

impl SubscribeMessage {
    /// A subscribe request for the named channel.
    pub fn new(channel: &str) -> (r: SubscribeMessage)
        ensures
            r.event@ == "bts:subscribe"@,
            r.data.channel@ == channel@,
    {
        SubscribeMessage {
            event: String::from_str("bts:subscribe"),
            data: SubscriptionData::new(channel),
        }
    }
}

/// The event-kind envelope of one text frame.
#[derive(Debug, Clone)]
pub struct OrderBookEvent {
    pub event: String,
}

impl OrderBookEvent {
    /// True when the frame carries order-book data; frames of any other
    /// kind are ignored by the handler.
    pub fn is_data(&self) -> (r: bool)
        ensures
            r == (self.event@ == "data"@),
    {
        self.event == String::from_str("data")
    }
}

/// One full order-book snapshot, decoded to plain rows.
#[derive(Debug, Clone)]
pub struct OrderBookSnapshot {
    pub timestamp: u64,
    pub microtimestamp: u64,
    pub bids: Vec<(u64, u64)>,
    pub asks: Vec<(u64, u64)>,
}

/// The payload of one diff-order-book frame, decoded to plain rows.
#[derive(Debug, Clone)]
pub struct OrderBookUpdateData {
    pub microtimestamp: u64,
    pub bids: Vec<(u64, u64)>,
    pub asks: Vec<(u64, u64)>,
}

/// One diff-order-book frame.
#[derive(Debug, Clone)]
pub struct OrderBookUpdate {
    pub data: OrderBookUpdateData,
}

/// The watermark after one frame's timestamp is decided: a strictly newer
/// timestamp advances it, everything else leaves it.
pub open spec fn micro_step(last: u64, micro: u64) -> u64 {
    if micro > last {
        micro
    } else {
        last
    }
}

/// The watermark after a run of frames, each decided in order.
pub open spec fn run_micro(last0: u64, micros: Seq<u64>) -> u64
    decreases micros.len(),
{
    if micros.len() == 0 {
        last0
    } else {
        run_micro(micro_step(last0, micros[0]), micros.drop_first())
    }
}

/// Whether the `k`-th frame of the run is accepted, given everything
/// decided before it.
pub open spec fn micro_accepted_at(last0: u64, micros: Seq<u64>, k: int) -> bool {
    micros[k] > run_micro(last0, micros.take(k))
}

proof fn lemma_run_micro_snoc(last0: u64, micros: Seq<u64>, x: u64)
    ensures
        run_micro(last0, micros.push(x)) == micro_step(run_micro(last0, micros), x),
    decreases micros.len(),
{
    if micros.len() == 0 {
        assert(micros.push(x).drop_first() =~= micros);
        assert(micros.push(x)[0] == x);
        assert(run_micro(micro_step(last0, x), micros) == micro_step(last0, x));
    } else {
        assert(micros.push(x)[0] == micros[0]);
        assert(micros.push(x).drop_first() =~= micros.drop_first().push(x));
        lemma_run_micro_snoc(micro_step(last0, micros[0]), micros.drop_first(), x);
        assert(run_micro(last0, micros.push(x)) == run_micro(
            micro_step(last0, micros[0]),
            micros.push(x).drop_first(),
        ));
        assert(run_micro(last0, micros) == run_micro(
            micro_step(last0, micros[0]),
            micros.drop_first(),
        ));
    }
}

proof fn lemma_run_micro_monotone(last0: u64, micros: Seq<u64>, k: int)
    requires
        0 <= k <= micros.len(),
    ensures
        run_micro(last0, micros.take(k)) >= last0,
        forall|j: int|
            0 <= j <= k ==> run_micro(last0, micros.take(j)) <= run_micro(last0, micros.take(k)),
    decreases k,
{
    if k == 0 {
        assert(micros.take(0) =~= Seq::<u64>::empty());
    } else {
        lemma_run_micro_monotone(last0, micros, k - 1);
        assert(micros.take(k) =~= micros.take(k - 1).push(micros[k - 1]));
        lemma_run_micro_snoc(last0, micros.take(k - 1), micros[k - 1]);
    }
}

/// Law: the microtimestamps of accepted frames are strictly increasing
/// across the run.
pub proof fn lemma_accepted_micros_increase(last0: u64, micros: Seq<u64>, j: int, k: int)
    requires
        0 <= j < k < micros.len(),
        micro_accepted_at(last0, micros, j),
        micro_accepted_at(last0, micros, k),
    ensures
        micros[j] < micros[k],
{
    assert(micros.take(j + 1) =~= micros.take(j).push(micros[j]));
    lemma_run_micro_snoc(last0, micros.take(j), micros[j]);
    assert(run_micro(last0, micros.take(j + 1)) == micros[j]);
    lemma_run_micro_monotone(last0, micros, k);
    assert(run_micro(last0, micros.take(j + 1)) <= run_micro(last0, micros.take(k)));
}

/// Reconciliation state for one connection lifetime: the microtimestamp of
/// the last applied frame, reset by every snapshot.
pub struct Reconciler {
    pub last_microtimestamp: u64,
}

impl Reconciler {
    /// A fresh reconciliation state, before any snapshot.
    pub fn new() -> (r: Reconciler)
        ensures
            r.last_microtimestamp == 0,
    {
        Reconciler { last_microtimestamp: 0 }
    }

    /// Applies a snapshot: the watermark becomes the snapshot's timestamp
    /// and every snapshot row is emitted as a level of the venue.
    pub fn apply_snapshot(&mut self, snapshot: &OrderBookSnapshot) -> (r: PriceLevelUpdate)
        ensures
            final(self).last_microtimestamp == snapshot.microtimestamp,
            r.bids@ == bids_of_rows(snapshot.bids@, Exchange::Bitstamp),
            r.asks@ == asks_of_rows(snapshot.asks@, Exchange::Bitstamp),
    {
        self.last_microtimestamp = snapshot.microtimestamp;
        PriceLevelUpdate {
            bids: convert_rows_to_bids(&snapshot.bids, Exchange::Bitstamp),
            asks: convert_rows_to_asks(&snapshot.asks, Exchange::Bitstamp),
        }
    }

    /// Decides one diff frame against the watermark: a frame is emitted and
    /// advances the watermark exactly when its microtimestamp is strictly
    /// newer; anything else is dropped and changes nothing.
    pub fn apply_update(&mut self, update: &OrderBookUpdateData) -> (r: Option<PriceLevelUpdate>)
        ensures
            update.microtimestamp <= old(self).last_microtimestamp ==> r is None
                && final(self).last_microtimestamp == old(self).last_microtimestamp,
            update.microtimestamp > old(self).last_microtimestamp ==> {
                &&& r is Some
                &&& r->0.bids@ == bids_of_rows(update.bids@, Exchange::Bitstamp)
                &&& r->0.asks@ == asks_of_rows(update.asks@, Exchange::Bitstamp)
                &&& final(self).last_microtimestamp == update.microtimestamp
            },
    {
        if update.microtimestamp <= self.last_microtimestamp {
            None
        } else {
            self.last_microtimestamp = update.microtimestamp;
            Some(
                PriceLevelUpdate {
                    bids: convert_rows_to_bids(&update.bids, Exchange::Bitstamp),
                    asks: convert_rows_to_asks(&update.asks, Exchange::Bitstamp),
                },
            )
        }
    }
}

} // verus!
