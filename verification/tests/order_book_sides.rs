//! The depth-bounded side containers: insertion, replacement, deletion,
//! eviction at the depth bound, and best-n queries.

use bid_ask_service::exchanges::Exchange;
use bid_ask_service::order_book::buy_side::BuySide;
use bid_ask_service::order_book::price_level::{Ask, Bid};
use bid_ask_service::order_book::sell_side::SellSide;

fn enc(x: f64) -> u64 {
    x.to_bits()
}

#[test]
fn mod_test_insert_bid() {
    let mut order_book = BuySide::new();

    let bid_0 = Bid::new(enc(100.00), enc(50.0), Exchange::Binance);
    let bid_1 = Bid::new(enc(100.00), enc(50.0), Exchange::Bitstamp);
    let bid_2 = Bid::new(enc(101.00), enc(50.0), Exchange::Binance);
    let bid_3 = Bid::new(enc(101.00), enc(50.0), Exchange::Bitstamp);
    let bid_4 = Bid::new(enc(103.00), enc(50.0), Exchange::Binance);
    let bid_5 = Bid::new(enc(102.00), enc(50.0), Exchange::Binance);
    let bid_6 = Bid::new(enc(104.00), enc(50.0), Exchange::Binance);

    // the expected contents, worst to best in the storage order
    let expected_bids = vec![bid_1, bid_0, bid_3, bid_2, bid_5, bid_4, bid_6];

    order_book.update_bids(bid_0, 10);
    order_book.update_bids(bid_1, 10);
    order_book.update_bids(bid_2, 10);
    order_book.update_bids(bid_3, 10);
    order_book.update_bids(bid_4, 10);
    order_book.update_bids(bid_5, 10);
    order_book.update_bids(bid_6, 10);

    let best_bid = order_book.get_best_bid();
    assert!(best_bid.expect("Could not get best bid") == bid_6);

    assert_eq!(*order_book.levels(), expected_bids);
}

#[test]
fn test_insert_bid_past_max_depth() {
    let mut order_book = BuySide::new();

    let bid_0 = Bid::new(enc(100.00), enc(50.0), Exchange::Binance);
    let bid_1 = Bid::new(enc(100.00), enc(50.0), Exchange::Bitstamp);
    let bid_2 = Bid::new(enc(101.00), enc(50.0), Exchange::Binance);
    let bid_3 = Bid::new(enc(101.00), enc(50.0), Exchange::Bitstamp);
    let bid_4 = Bid::new(enc(103.00), enc(50.0), Exchange::Binance);
    let bid_5 = Bid::new(enc(102.00), enc(50.0), Exchange::Binance);
    let bid_6 = Bid::new(enc(104.00), enc(50.0), Exchange::Binance);

    // the two bids at 100 are evicted once the depth bound is hit
    let expected_bids = vec![bid_3, bid_2, bid_5, bid_4, bid_6];

    order_book.update_bids(bid_0, 5);
    order_book.update_bids(bid_1, 5);
    order_book.update_bids(bid_2, 5);
    order_book.update_bids(bid_3, 5);
    order_book.update_bids(bid_4, 5);
    order_book.update_bids(bid_5, 5);
    order_book.update_bids(bid_6, 5);

    let best_bid = order_book.get_best_bid();
    assert!(best_bid.expect("Could not get best bid") == bid_6);
    assert!(order_book.len() == 5);
    assert_eq!(*order_book.levels(), expected_bids);
}

#[test]
fn test_remove_bid() {
    let mut order_book = BuySide::new();

    let bid_0 = Bid::new(enc(100.00), enc(50.0), Exchange::Binance);
    let mut bid_1 = Bid::new(enc(100.50), enc(50.0), Exchange::Bitstamp);
    let bid_2 = Bid::new(enc(101.00), enc(50.0), Exchange::Binance);
    let bid_3 = Bid::new(enc(101.00), enc(50.0), Exchange::Bitstamp);
    let mut bid_4 = Bid::new(enc(103.00), enc(50.0), Exchange::Binance);
    let bid_5 = Bid::new(enc(103.50), enc(50.0), Exchange::Binance);
    let mut bid_6 = Bid::new(enc(104.00), enc(50.0), Exchange::Binance);

    let expected_bids = vec![bid_0, bid_3, bid_2, bid_5];

    order_book.update_bids(bid_0, 10);
    order_book.update_bids(bid_1, 10);
    order_book.update_bids(bid_2, 10);
    order_book.update_bids(bid_3, 10);
    order_book.update_bids(bid_4, 10);
    order_book.update_bids(bid_5, 10);
    order_book.update_bids(bid_6, 10);

    bid_1.set_quantity(0);
    bid_4.set_quantity(0);
    bid_6.set_quantity(0);

    order_book.update_bids(bid_1, 10);
    order_book.update_bids(bid_4, 10);
    order_book.update_bids(bid_6, 10);

    let best_bid = order_book.get_best_bid();
    assert!(best_bid.expect("Could not get best bid") == bid_5);

    assert_eq!(*order_book.levels(), expected_bids);
}

#[test]
fn test_update_bid() {
    let mut order_book = BuySide::new();

    let bid_0 = Bid::new(enc(100.00), enc(50.0), Exchange::Binance);
    let bid_1 = Bid::new(enc(100.00), enc(50.0), Exchange::Bitstamp);
    let bid_2 = Bid::new(enc(100.50), enc(400.0), Exchange::Bitstamp);
    let bid_3 = Bid::new(enc(101.00), enc(499.0), Exchange::Binance);
    let bid_4 = Bid::new(enc(103.00), enc(50.0), Exchange::Binance);
    let bid_5 = Bid::new(enc(102.00), enc(50.0), Exchange::Binance);
    let bid_6 = Bid::new(enc(104.00), enc(50.0), Exchange::Bitstamp);

    let replacement_bid_1 = Bid::new(enc(100.00), enc(3404.0), Exchange::Bitstamp);
    let replacement_bid_3 = Bid::new(enc(101.00), enc(250.0), Exchange::Binance);
    let replacement_bid_6 = Bid::new(enc(104.00), enc(20.0), Exchange::Bitstamp);

    let expected_bids = vec![
        bid_0,
        replacement_bid_1,
        bid_2,
        replacement_bid_3,
        bid_5,
        bid_4,
        replacement_bid_6,
    ];

    order_book.update_bids(bid_0, 10);
    order_book.update_bids(bid_1, 10);
    order_book.update_bids(bid_2, 10);
    order_book.update_bids(bid_3, 10);
    order_book.update_bids(bid_4, 10);
    order_book.update_bids(bid_5, 10);
    order_book.update_bids(bid_6, 10);

    //insert the replacement bids
    order_book.update_bids(replacement_bid_6, 10);
    order_book.update_bids(replacement_bid_3, 10);
    order_book.update_bids(replacement_bid_1, 10);

    let best_bid = order_book.get_best_bid();
    assert!(best_bid.expect("Could not get best bid") == replacement_bid_6);

    assert_eq!(*order_book.levels(), expected_bids);
}

#[test]
fn test_get_best_n_bids() {
    let mut order_book = BuySide::new();
    let bid_0 = Bid::new(enc(100.00), enc(50.0), Exchange::Binance);
    let bid_1 = Bid::new(enc(100.00), enc(1000.0), Exchange::Bitstamp);
    let bid_2 = Bid::new(enc(101.00), enc(50.0), Exchange::Binance);
    let bid_3 = Bid::new(enc(101.00), enc(50.0), Exchange::Bitstamp);
    let bid_4 = Bid::new(enc(103.00), enc(50.0), Exchange::Binance);
    let bid_5 = Bid::new(enc(102.00), enc(50.0), Exchange::Binance);
    let bid_6 = Bid::new(enc(104.00), enc(50.0), Exchange::Binance);

    let replacement_bid_1 = Bid::new(enc(100.00), enc(3404.0), Exchange::Bitstamp);
    let replacement_bid_3 = Bid::new(enc(101.00), enc(250.0), Exchange::Bitstamp);
    let replacement_bid_6 = Bid::new(enc(104.00), enc(20.0), Exchange::Binance);

    let expected_bids = vec![Some(replacement_bid_6), Some(bid_4), Some(bid_5)];

    order_book.update_bids(bid_4, 5);
    order_book.update_bids(bid_5, 5);
    order_book.update_bids(bid_6, 5);
    order_book.update_bids(bid_0, 5);
    order_book.update_bids(bid_1, 5);
    order_book.update_bids(bid_2, 5);
    order_book.update_bids(bid_3, 5);

    //insert the replacement bids
    order_book.update_bids(replacement_bid_6, 10);
    order_book.update_bids(replacement_bid_3, 10);
    order_book.update_bids(replacement_bid_1, 10);

    let best_bids = order_book.get_best_n_bids(3);

    assert_eq!(expected_bids, best_bids);

    // An empty side yields a short result: nothing, rather than padding.
    let empty_order_book = BuySide::new();

    let best_bids = empty_order_book.get_best_n_bids(10);
    let expected_bids: Vec<Option<Bid>> = vec![];

    assert_eq!(best_bids, expected_bids);
}

#[test]
fn test_insert_ask() {
    let mut order_book = SellSide::new();

    let ask_0 = Ask::new(enc(100.00), enc(50.0), Exchange::Binance);
    let ask_1 = Ask::new(enc(100.00), enc(1000.0), Exchange::Bitstamp);
    let ask_2 = Ask::new(enc(101.00), enc(50.0), Exchange::Binance);
    let ask_3 = Ask::new(enc(101.00), enc(50.0), Exchange::Bitstamp);
    let ask_4 = Ask::new(enc(103.00), enc(50.0), Exchange::Binance);
    let ask_5 = Ask::new(enc(102.00), enc(50.0), Exchange::Binance);
    let ask_6 = Ask::new(enc(104.00), enc(50.0), Exchange::Binance);

    // the expected contents, best to worst in the storage order
    let expected_asks = vec![ask_1, ask_0, ask_2, ask_3, ask_5, ask_4, ask_6];

    order_book.update_asks(ask_0, 10);
    order_book.update_asks(ask_1, 10);
    order_book.update_asks(ask_2, 10);
    order_book.update_asks(ask_3, 10);
    order_book.update_asks(ask_4, 10);
    order_book.update_asks(ask_5, 10);
    order_book.update_asks(ask_6, 10);

    let best_ask = order_book.get_best_ask();
    assert!(best_ask.expect("Could not get best ask") == ask_1);

    assert_eq!(*order_book.levels(), expected_asks);
}

#[test]
fn test_insert_ask_past_max_depth() {
    let mut order_book = SellSide::new();

    let ask_0 = Ask::new(enc(100.00), enc(50.0), Exchange::Binance);
    let ask_1 = Ask::new(enc(100.00), enc(1000.0), Exchange::Bitstamp);
    let ask_2 = Ask::new(enc(101.00), enc(50.0), Exchange::Binance);
    let ask_3 = Ask::new(enc(101.00), enc(50.0), Exchange::Bitstamp);
    let ask_4 = Ask::new(enc(102.00), enc(50.0), Exchange::Binance);
    let ask_5 = Ask::new(enc(103.00), enc(50.0), Exchange::Binance);
    let ask_6 = Ask::new(enc(104.00), enc(50.0), Exchange::Binance);

    // the two worst prices are evicted once the depth bound is hit
    let expected_asks = vec![ask_1, ask_0, ask_2, ask_3, ask_4];

    order_book.update_asks(ask_6, 5);
    order_book.update_asks(ask_5, 5);
    order_book.update_asks(ask_2, 5);
    order_book.update_asks(ask_3, 5);
    order_book.update_asks(ask_4, 5);
    order_book.update_asks(ask_0, 5);
    order_book.update_asks(ask_1, 5);

    let best_ask = order_book.get_best_ask();
    assert!(best_ask.expect("Could not get best ask") == ask_1);
    assert!(order_book.len() == 5);
    assert_eq!(*order_book.levels(), expected_asks);
}

#[test]
fn test_remove_ask() {
    let mut order_book = SellSide::new();

    let ask_0 = Ask::new(enc(100.00), enc(50.0), Exchange::Binance);
    let mut ask_1 = Ask::new(enc(100.00), enc(1000.0), Exchange::Bitstamp);
    let ask_2 = Ask::new(enc(101.00), enc(50.0), Exchange::Binance);
    let ask_3 = Ask::new(enc(101.00), enc(50.0), Exchange::Bitstamp);
    let mut ask_4 = Ask::new(enc(103.00), enc(50.0), Exchange::Binance);
    let ask_5 = Ask::new(enc(102.00), enc(50.0), Exchange::Binance);
    let mut ask_6 = Ask::new(enc(104.00), enc(50.0), Exchange::Binance);

    let expected_asks = vec![ask_0, ask_2, ask_3, ask_5];

    order_book.update_asks(ask_0, 10);
    order_book.update_asks(ask_1, 10);
    order_book.update_asks(ask_2, 10);
    order_book.update_asks(ask_3, 10);
    order_book.update_asks(ask_4, 10);
    order_book.update_asks(ask_5, 10);
    order_book.update_asks(ask_6, 10);

    ask_1.set_quantity(0);
    ask_4.set_quantity(0);
    ask_6.set_quantity(0);

    order_book.update_asks(ask_1, 10);
    order_book.update_asks(ask_4, 10);
    order_book.update_asks(ask_6, 10);

    let best_ask = order_book.get_best_ask();
    assert!(best_ask.expect("Could not get best ask") == ask_0);

    assert_eq!(*order_book.levels(), expected_asks);
}

#[test]
fn test_update_ask() {
    let mut order_book = SellSide::new();
    let ask_0 = Ask::new(enc(100.00), enc(50.0), Exchange::Binance);
    let ask_1 = Ask::new(enc(100.00), enc(1000.0), Exchange::Bitstamp);
    let ask_2 = Ask::new(enc(101.00), enc(50.0), Exchange::Binance);
    let ask_3 = Ask::new(enc(101.00), enc(50.0), Exchange::Bitstamp);
    let ask_4 = Ask::new(enc(103.00), enc(50.0), Exchange::Binance);
    let ask_5 = Ask::new(enc(102.00), enc(50.0), Exchange::Binance);
    let ask_6 = Ask::new(enc(104.00), enc(50.0), Exchange::Binance);

    let replacement_ask_1 = Ask::new(enc(100.00), enc(3404.0), Exchange::Bitstamp);
    let replacement_ask_3 = Ask::new(enc(101.00), enc(250.0), Exchange::Bitstamp);
    let replacement_ask_6 = Ask::new(enc(104.00), enc(20.0), Exchange::Binance);

    let expected_asks = vec![
        replacement_ask_1,
        ask_0,
        replacement_ask_3,
        ask_2,
        ask_5,
        ask_4,
        replacement_ask_6,
    ];

    order_book.update_asks(ask_0, 10);
    order_book.update_asks(ask_1, 10);
    order_book.update_asks(ask_2, 10);
    order_book.update_asks(ask_3, 10);
    order_book.update_asks(ask_4, 10);
    order_book.update_asks(ask_5, 10);
    order_book.update_asks(ask_6, 10);

    //insert the replacement asks
    order_book.update_asks(replacement_ask_6, 10);
    order_book.update_asks(replacement_ask_3, 10);
    order_book.update_asks(replacement_ask_1, 10);

    let best_ask = order_book.get_best_ask();
    assert!(best_ask.expect("Could not get best ask") == replacement_ask_1);

    assert_eq!(*order_book.levels(), expected_asks);
}

#[test]
fn test_get_best_n_asks() {
    let mut order_book = SellSide::new();
    let ask_0 = Ask::new(enc(100.00), enc(50.0), Exchange::Binance);
    let ask_1 = Ask::new(enc(100.00), enc(1000.0), Exchange::Bitstamp);
    let ask_2 = Ask::new(enc(101.00), enc(50.0), Exchange::Binance);
    let ask_3 = Ask::new(enc(101.00), enc(50.0), Exchange::Bitstamp);
    let ask_4 = Ask::new(enc(103.00), enc(50.0), Exchange::Binance);
    let ask_5 = Ask::new(enc(102.00), enc(50.0), Exchange::Binance);
    let ask_6 = Ask::new(enc(104.00), enc(50.0), Exchange::Binance);

    let replacement_ask_1 = Ask::new(enc(100.00), enc(3404.0), Exchange::Bitstamp);
    let replacement_ask_3 = Ask::new(enc(101.00), enc(250.0), Exchange::Bitstamp);
    let replacement_ask_6 = Ask::new(enc(104.00), enc(20.0), Exchange::Binance);

    let expected_asks = vec![Some(replacement_ask_1), Some(ask_0), Some(replacement_ask_3)];

    order_book.update_asks(ask_4, 5);
    order_book.update_asks(ask_5, 5);
    order_book.update_asks(ask_6, 5);
    order_book.update_asks(ask_0, 5);
    order_book.update_asks(ask_1, 5);
    order_book.update_asks(ask_2, 5);
    order_book.update_asks(ask_3, 5);

    //insert the replacement asks
    order_book.update_asks(replacement_ask_6, 10);
    order_book.update_asks(replacement_ask_3, 10);
    order_book.update_asks(replacement_ask_1, 10);

    let best_asks = order_book.get_best_n_asks(3);

    assert_eq!(expected_asks, best_asks);

    // An empty side yields a short result: nothing, rather than padding.
    let empty_order_book = SellSide::new();

    let best_asks = empty_order_book.get_best_n_asks(10);
    let expected_asks: Vec<Option<Ask>> = vec![];

    assert_eq!(best_asks, expected_asks);
}
