//! End-to-end behavior of the side containers and the aggregator: the
//! scenario walk-throughs of the design, and the published summaries.

use bid_ask_service::exchanges::Exchange;
use bid_ask_service::order_book::buy_side::BuySide;
use bid_ask_service::order_book::price_level::{Ask, Bid, PriceLevelUpdate};
use bid_ask_service::order_book::sell_side::SellSide;
use bid_ask_service::order_book::AggregatedOrderBook;

fn enc(x: f64) -> u64 {
    x.to_bits()
}

fn dec(x: u64) -> f64 {
    f64::from_bits(x)
}

// Insertion under depth: three bids inserted into an empty container.
#[test]
fn test_insertion_under_depth() {
    let mut bids = BuySide::new();
    bids.update_bids(Bid::new(enc(100.0), enc(50.0), Exchange::Binance), 10);
    bids.update_bids(Bid::new(enc(101.0), enc(50.0), Exchange::Bitstamp), 10);
    bids.update_bids(Bid::new(enc(99.0), enc(50.0), Exchange::Binance), 10);

    let best = bids.get_best_bid().expect("Could not get best bid");
    assert_eq!(best, Bid::new(enc(101.0), enc(50.0), Exchange::Bitstamp));
    assert_eq!(bids.len(), 3);
}

// Eviction at depth: a worse bid is dropped, a better one evicts the worst.
#[test]
fn test_eviction_at_depth() {
    let mut bids = BuySide::new();
    for price in [100.0, 100.5, 101.0, 103.0, 104.0] {
        bids.update_bids(Bid::new(enc(price), enc(50.0), Exchange::Binance), 5);
    }

    bids.update_bids(Bid::new(enc(99.0), enc(50.0), Exchange::Binance), 5);
    assert_eq!(bids.len(), 5);
    assert!(!bids
        .levels()
        .iter()
        .any(|b| b.price == enc(99.0)));

    bids.update_bids(Bid::new(enc(105.0), enc(50.0), Exchange::Binance), 5);
    assert_eq!(bids.len(), 5);
    assert!(bids.levels().iter().any(|b| b.price == enc(105.0)));
    assert!(!bids.levels().iter().any(|b| b.price == enc(100.0)));
}

// Ask ordering under equal price: the higher quantity wins.
#[test]
fn test_ask_ordering_under_equal_price() {
    let mut asks = SellSide::new();
    asks.update_asks(Ask::new(enc(100.0), enc(50.0), Exchange::Binance), 10);
    asks.update_asks(Ask::new(enc(100.0), enc(1000.0), Exchange::Bitstamp), 10);

    let best = asks.get_best_ask().expect("Could not get best ask");
    assert_eq!(best, Ask::new(enc(100.0), enc(1000.0), Exchange::Bitstamp));
}

// Deletion by zero quantity removes the entry keyed by price and venue.
#[test]
fn test_deletion_by_zero_quantity() {
    let mut bids = BuySide::new();
    bids.update_bids(Bid::new(enc(100.0), enc(50.0), Exchange::Binance), 10);
    bids.update_bids(Bid::new(enc(101.0), enc(50.0), Exchange::Bitstamp), 10);
    bids.update_bids(Bid::new(enc(99.0), enc(50.0), Exchange::Binance), 10);

    bids.update_bids(Bid::new(enc(101.0), enc(0.0), Exchange::Bitstamp), 10);

    let best = bids.get_best_bid().expect("Could not get best bid");
    assert_eq!(best, Bid::new(enc(100.0), enc(50.0), Exchange::Binance));
    assert_eq!(bids.len(), 2);
}

// The round trip: inserting a fresh level and deleting it restores the side.
#[test]
fn test_update_round_trip() {
    let mut bids = BuySide::new();
    bids.update_bids(Bid::new(enc(100.0), enc(50.0), Exchange::Binance), 10);
    bids.update_bids(Bid::new(enc(102.0), enc(25.0), Exchange::Bitstamp), 10);
    let before = bids.levels().clone();

    bids.update_bids(Bid::new(enc(101.0), enc(75.0), Exchange::Binance), 10);
    bids.update_bids(Bid::new(enc(101.0), enc(0.0), Exchange::Binance), 10);

    assert_eq!(*bids.levels(), before);
}

// Replacement idempotence: two updates of one key keep only the second.
#[test]
fn test_update_replacement() {
    let mut bids = BuySide::new();
    bids.update_bids(Bid::new(enc(100.0), enc(50.0), Exchange::Binance), 10);
    bids.update_bids(Bid::new(enc(100.0), enc(75.0), Exchange::Binance), 10);

    assert_eq!(bids.len(), 1);
    assert_eq!(
        bids.get_best_bid().expect("Could not get best bid"),
        Bid::new(enc(100.0), enc(75.0), Exchange::Binance)
    );
}

// After an arbitrary mix of updates the side holds at most the depth bound,
// no zero-quantity level, and no two levels keyed by the same price and
// venue.
#[test]
fn test_side_invariants_hold() {
    let mut bids = BuySide::new();
    let updates = [
        (100.0, 50.0, Exchange::Binance),
        (100.0, 75.0, Exchange::Binance),
        (100.0, 10.0, Exchange::Bitstamp),
        (101.0, 0.0, Exchange::Binance),
        (101.0, 20.0, Exchange::Binance),
        (102.0, 30.0, Exchange::Bitstamp),
        (100.0, 0.0, Exchange::Binance),
        (103.0, 40.0, Exchange::Binance),
        (104.0, 50.0, Exchange::Bitstamp),
    ];
    for (price, qty, venue) in updates {
        bids.update_bids(Bid::new(enc(price), enc(qty), venue), 3);
    }

    let levels = bids.levels();
    assert!(levels.len() <= 3);
    assert!(levels.iter().all(|b| b.quantity != 0));
    for i in 0..levels.len() {
        for j in 0..levels.len() {
            if i != j {
                assert!(
                    levels[i].price != levels[j].price
                        || levels[i].exchange != levels[j].exchange
                );
            }
        }
    }
}

// Cross-venue aggregation: the better bid of the other venue takes the top
// of the published summary, and the spread follows the best ask.
#[test]
fn test_cross_venue_aggregation() {
    let mut book = AggregatedOrderBook::new(
        ["eth", "btc"],
        Exchange::all_exchanges(),
        BuySide::new(),
        SellSide::new(),
    );

    // Venue A publishes its best bid and an ask.
    let update = PriceLevelUpdate::new(
        vec![Bid::new(enc(100.0), enc(50.0), Exchange::Binance)],
        vec![Ask::new(enc(110.0), enc(5.0), Exchange::Binance)],
    );
    let summary = book
        .apply_update(update, 25, 10)
        .expect("both sides are populated");
    assert_eq!(summary.bids[0].price, enc(100.0));
    assert_eq!(summary.bids[0].exchange, "binance");
    assert_eq!(dec(summary.best_ask_price) - dec(summary.best_bid_price), 10.0);

    // Venue B publishes a better bid: it takes the top of the summary.
    let update = PriceLevelUpdate::new(
        vec![Bid::new(enc(100.5), enc(40.0), Exchange::Bitstamp)],
        vec![],
    );
    let summary = book
        .apply_update(update, 25, 10)
        .expect("both sides are populated");
    assert_eq!(summary.bids[0].price, enc(100.5));
    assert_eq!(summary.bids[0].amount, enc(40.0));
    assert_eq!(summary.bids[0].exchange, "bitstamp");
    assert_eq!(summary.bids[1].exchange, "binance");
    assert_eq!(summary.best_bid_price, enc(100.5));

    // Venue A improves its ask: the spread follows.
    let update = PriceLevelUpdate::new(
        vec![],
        vec![Ask::new(enc(105.0), enc(5.0), Exchange::Binance)],
    );
    let summary = book
        .apply_update(update, 25, 10)
        .expect("both sides are populated");
    assert_eq!(summary.best_ask_price, enc(105.0));
    assert_eq!(dec(summary.best_ask_price) - dec(summary.best_bid_price), 4.5);
    assert_eq!(summary.asks[0].price, enc(105.0));
    assert_eq!(summary.asks.len(), 2);
}

// No summary is published until both sides hold at least one level.
#[test]
fn test_one_sided_book_publishes_nothing() {
    let mut book = AggregatedOrderBook::new(
        ["eth", "btc"],
        Exchange::all_exchanges(),
        BuySide::new(),
        SellSide::new(),
    );

    let update = PriceLevelUpdate::new(
        vec![Bid::new(enc(100.0), enc(50.0), Exchange::Binance)],
        vec![],
    );
    assert!(book.apply_update(update, 25, 10).is_none());

    let update = PriceLevelUpdate::new(
        vec![],
        vec![Ask::new(enc(101.0), enc(5.0), Exchange::Binance)],
    );
    let summary = book
        .apply_update(update, 25, 10)
        .expect("both sides are now populated");
    assert_eq!(summary.best_bid_price, enc(100.0));
    assert_eq!(summary.best_ask_price, enc(101.0));
    assert_eq!(summary.bids.len(), 1);
    assert_eq!(summary.asks.len(), 1);
}

// The published sequences are best first and cover at most the requested
// depth.
#[test]
fn test_summary_is_best_first() {
    let mut book = AggregatedOrderBook::new(
        ["eth", "btc"],
        Exchange::all_exchanges(),
        BuySide::new(),
        SellSide::new(),
    );

    let update = PriceLevelUpdate::new(
        vec![
            Bid::new(enc(100.0), enc(1.0), Exchange::Binance),
            Bid::new(enc(102.0), enc(1.0), Exchange::Binance),
            Bid::new(enc(101.0), enc(1.0), Exchange::Binance),
        ],
        vec![
            Ask::new(enc(104.0), enc(1.0), Exchange::Binance),
            Ask::new(enc(103.0), enc(1.0), Exchange::Binance),
            Ask::new(enc(105.0), enc(1.0), Exchange::Binance),
        ],
    );
    let summary = book
        .apply_update(update, 25, 2)
        .expect("both sides are populated");

    assert_eq!(summary.bids.len(), 2);
    assert_eq!(summary.bids[0].price, enc(102.0));
    assert_eq!(summary.bids[1].price, enc(101.0));
    assert_eq!(summary.asks.len(), 2);
    assert_eq!(summary.asks[0].price, enc(103.0));
    assert_eq!(summary.asks[1].price, enc(104.0));
    assert_eq!(summary.best_bid_price, enc(102.0));
    assert_eq!(summary.best_ask_price, enc(103.0));
}
