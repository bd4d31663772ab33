//! Ranking of bid and ask price levels.

use bid_ask_service::exchanges::Exchange;
use bid_ask_service::order_book::price_level::{Ask, Bid};

fn enc(x: f64) -> u64 {
    x.to_bits()
}

#[test]
fn bid_test_bid_greater() {
    //the price is greater but the quantity is the same
    let bid_0 = Bid::new(enc(1.23), enc(1200.56), Exchange::Binance);
    let bid_1 = Bid::new(enc(1.20), enc(1200.56), Exchange::Binance);

    assert!(bid_0.cmp(&bid_1).is_gt());

    //the price is greater but the quantity is the same and the exchanges are different
    let bid_4 = Bid::new(enc(1.24), enc(1200.56), Exchange::Bitstamp);
    let bid_5 = Bid::new(enc(1.20), enc(1200.56), Exchange::Binance);
    assert!(bid_4.cmp(&bid_5).is_gt());

    //the price is the same but the quantity is greater and the exchanges are different
    let bid_6 = Bid::new(enc(1.20), enc(1300.56), Exchange::Binance);
    let bid_7 = Bid::new(enc(1.20), enc(1200.56), Exchange::Bitstamp);

    assert!(bid_6.cmp(&bid_7).is_gt());

    //the price and quantity are different
    let bid_8 = Bid::new(enc(1.23), enc(1000.56), Exchange::Binance);
    let bid_9 = Bid::new(enc(1.20), enc(1200.56), Exchange::Bitstamp);
    assert!(bid_8.cmp(&bid_9).is_gt());

    //the price and quantity are the same but the exchange is different: the
    //comparison resolves to strictly less whichever way it is asked, so an
    //ordered search keeps walking instead of stopping on the wrong venue
    let bid_10 = Bid::new(enc(1.20), enc(1000.56), Exchange::Binance);
    let bid_11 = Bid::new(enc(1.20), enc(1000.56), Exchange::Bitstamp);

    assert!(bid_10.cmp(&bid_11).is_lt());
    assert!(bid_11.cmp(&bid_10).is_lt());
}

#[test]
fn bid_test_bid_less() {
    //the price is less but the quantity is the same
    let bid_0 = Bid::new(enc(1.23), enc(1200.56), Exchange::Binance);
    let bid_1 = Bid::new(enc(1.20), enc(1200.56), Exchange::Binance);

    assert!(bid_1.cmp(&bid_0).is_lt());

    //the price is less but the quantity is the same and the exchanges are different
    let bid_4 = Bid::new(enc(1.25), enc(1200.56), Exchange::Bitstamp);
    let bid_5 = Bid::new(enc(1.20), enc(1200.56), Exchange::Binance);

    assert!(bid_5.cmp(&bid_4).is_lt());

    //the price is the same but the quantity is less and the exchanges are different
    let bid_6 = Bid::new(enc(1.20), enc(1300.56), Exchange::Bitstamp);
    let bid_7 = Bid::new(enc(1.20), enc(1200.56), Exchange::Binance);

    assert!(bid_7.cmp(&bid_6).is_lt());

    //the price and quantity are different
    let bid_8 = Bid::new(enc(1.23), enc(1000.56), Exchange::Bitstamp);
    let bid_9 = Bid::new(enc(1.20), enc(1200.56), Exchange::Binance);

    assert!(bid_9.cmp(&bid_8).is_lt());

    //the price and quantity are the same but the exchange is different
    let bid_10 = Bid::new(enc(1.20), enc(1000.56), Exchange::Binance);
    let bid_11 = Bid::new(enc(1.20), enc(1000.56), Exchange::Bitstamp);

    assert!(bid_11.cmp(&bid_10).is_lt());
}

#[test]
fn bid_test_bid_equal() {
    //the price, quantity and the exchanges are the same
    let bid_0 = Bid::new(enc(1.20), enc(1200.56), Exchange::Binance);
    let bid_1 = Bid::new(enc(1.20), enc(1200.56), Exchange::Binance);

    assert!(bid_0 == bid_1);

    //the price and exchange are the same but the quantity is different
    let bid_2 = Bid::new(enc(1.20), enc(12309.56), Exchange::Binance);
    let bid_3 = Bid::new(enc(1.20), enc(1200.56), Exchange::Binance);

    assert!(bid_2.cmp(&bid_3).is_eq());
    assert!(bid_2 != bid_3);
}

#[test]
fn ask_test_ask_less() {
    //the price is less but the quantity is the same
    let ask_0 = Ask::new(enc(1.23), enc(1200.56), Exchange::Binance);
    let ask_1 = Ask::new(enc(1.20), enc(1200.56), Exchange::Bitstamp);

    assert!(ask_1.cmp(&ask_0).is_lt());

    //the price is the same but the quantity is less
    let ask_2 = Ask::new(enc(1.20), enc(1200.56), Exchange::Binance);
    let ask_3 = Ask::new(enc(1.20), enc(1300.56), Exchange::Bitstamp);

    assert!(ask_3.cmp(&ask_2).is_lt());

    //the price is less but the quantity is the same and the exchanges are different
    let ask_4 = Ask::new(enc(1.25), enc(1200.56), Exchange::Binance);
    let ask_5 = Ask::new(enc(1.20), enc(1200.56), Exchange::Bitstamp);

    assert!(ask_5.cmp(&ask_4).is_lt());

    //the price is the same but the quantity is less and the exchanges are different
    let ask_6 = Ask::new(enc(1.20), enc(1200.56), Exchange::Bitstamp);
    let ask_7 = Ask::new(enc(1.20), enc(1300.56), Exchange::Binance);

    assert!(ask_7.cmp(&ask_6).is_lt());

    //the price and quantity are different
    let ask_8 = Ask::new(enc(1.23), enc(1500.56), Exchange::Binance);
    let ask_9 = Ask::new(enc(1.20), enc(1200.56), Exchange::Bitstamp);

    assert!(ask_9.cmp(&ask_8).is_lt());

    //the price and quantity are the same but the exchange is different
    let ask_10 = Ask::new(enc(1.20), enc(1000.56), Exchange::Bitstamp);
    let ask_11 = Ask::new(enc(1.20), enc(1000.56), Exchange::Binance);

    assert!(ask_11.cmp(&ask_10).is_lt());
}

#[test]
fn ask_test_ask_greater() {
    //the price is greater but the quantity is the same
    let ask_0 = Ask::new(enc(1.23), enc(1200.56), Exchange::Binance);
    let ask_1 = Ask::new(enc(1.20), enc(1200.56), Exchange::Bitstamp);

    assert!(ask_0.cmp(&ask_1).is_gt());

    //the price is the same but the quantity is greater
    let ask_2 = Ask::new(enc(1.20), enc(1200.56), Exchange::Binance);
    let ask_3 = Ask::new(enc(1.20), enc(1300.56), Exchange::Bitstamp);

    assert!(ask_2.cmp(&ask_3).is_gt());

    //the price is greater but the quantity is the same and the exchanges are different
    let ask_4 = Ask::new(enc(1.25), enc(1200.56), Exchange::Binance);
    let ask_5 = Ask::new(enc(1.20), enc(1200.56), Exchange::Bitstamp);

    assert!(ask_4.cmp(&ask_5).is_gt());

    //the price is the same but the quantity is greater and the exchanges are different
    let ask_6 = Ask::new(enc(1.20), enc(1200.56), Exchange::Bitstamp);
    let ask_7 = Ask::new(enc(1.20), enc(1300.56), Exchange::Binance);

    assert!(ask_6.cmp(&ask_7).is_gt());

    //the price and quantity are the same but the exchange is different
    let ask_8 = Ask::new(enc(1.20), enc(1000.56), Exchange::Bitstamp);
    let ask_9 = Ask::new(enc(1.20), enc(1000.56), Exchange::Binance);
    assert!(ask_9.cmp(&ask_8).is_lt());
}

#[test]
fn ask_test_ask_equal() {
    //the price, quantity and the exchanges are the same
    let ask_0 = Ask::new(enc(1.20), enc(1200.56), Exchange::Binance);
    let ask_1 = Ask::new(enc(1.20), enc(1200.56), Exchange::Binance);

    assert!(ask_0 == ask_1);

    //the price and exchange are the same but the quantity is different
    let ask_2 = Ask::new(enc(1.20), enc(234235.56), Exchange::Bitstamp);
    let ask_3 = Ask::new(enc(1.20), enc(1200.56), Exchange::Bitstamp);

    assert!(ask_2.cmp(&ask_3).is_eq());
    assert!(ask_2 != ask_3);
}

#[test]
fn price_level_test_bid_greater() {
    let bid_0 = Bid::new(enc(1.23), enc(1200.56), Exchange::Binance);
    let bid_1 = Bid::new(enc(1.20), enc(1200.56), Exchange::Binance);
    assert!(bid_0.cmp(&bid_1).is_gt());

    let bid_4 = Bid::new(enc(1.24), enc(1200.56), Exchange::Bitstamp);
    let bid_5 = Bid::new(enc(1.20), enc(1200.56), Exchange::Binance);
    assert!(bid_4.cmp(&bid_5).is_gt());

    let bid_6 = Bid::new(enc(1.20), enc(1300.56), Exchange::Binance);
    let bid_7 = Bid::new(enc(1.20), enc(1200.56), Exchange::Bitstamp);
    assert!(bid_6.cmp(&bid_7).is_gt());

    let bid_8 = Bid::new(enc(1.23), enc(1000.56), Exchange::Binance);
    let bid_9 = Bid::new(enc(1.20), enc(1200.56), Exchange::Bitstamp);
    assert!(bid_8.cmp(&bid_9).is_gt());

    //equal price and quantity on different venues: strictly less either way
    let bid_10 = Bid::new(enc(1.20), enc(1000.56), Exchange::Binance);
    let bid_11 = Bid::new(enc(1.20), enc(1000.56), Exchange::Bitstamp);
    assert!(bid_10.cmp(&bid_11).is_lt());
    assert!(bid_11.cmp(&bid_10).is_lt());
}

#[test]
fn price_level_test_bid_less() {
    let bid_0 = Bid::new(enc(1.23), enc(1200.56), Exchange::Binance);
    let bid_1 = Bid::new(enc(1.20), enc(1200.56), Exchange::Binance);
    assert!(bid_1.cmp(&bid_0).is_lt());

    let bid_4 = Bid::new(enc(1.25), enc(1200.56), Exchange::Bitstamp);
    let bid_5 = Bid::new(enc(1.20), enc(1200.56), Exchange::Binance);
    assert!(bid_5.cmp(&bid_4).is_lt());

    let bid_6 = Bid::new(enc(1.20), enc(1300.56), Exchange::Bitstamp);
    let bid_7 = Bid::new(enc(1.20), enc(1200.56), Exchange::Binance);
    assert!(bid_7.cmp(&bid_6).is_lt());

    let bid_8 = Bid::new(enc(1.23), enc(1000.56), Exchange::Bitstamp);
    let bid_9 = Bid::new(enc(1.20), enc(1200.56), Exchange::Binance);
    assert!(bid_9.cmp(&bid_8).is_lt());

    let bid_10 = Bid::new(enc(1.20), enc(1000.56), Exchange::Binance);
    let bid_11 = Bid::new(enc(1.20), enc(1000.56), Exchange::Bitstamp);
    assert!(bid_11.cmp(&bid_10).is_lt());
}

#[test]
fn price_level_test_bid_equal() {
    //the price, quantity and the exchanges are the same
    let bid_0 = Bid::new(enc(1.20), enc(1200.56), Exchange::Binance);
    let bid_1 = Bid::new(enc(1.20), enc(1200.56), Exchange::Binance);
    assert!(bid_0.cmp(&bid_1).is_eq());

    //the price and exchange are the same but the quantity is different
    let bid_2 = Bid::new(enc(1.20), enc(12309.56), Exchange::Binance);
    let bid_3 = Bid::new(enc(1.20), enc(1200.56), Exchange::Binance);
    assert!(bid_2.cmp(&bid_3).is_eq());
}

#[test]
fn price_level_test_ask_less() {
    let ask_0 = Ask::new(enc(1.23), enc(1200.56), Exchange::Binance);
    let ask_1 = Ask::new(enc(1.20), enc(1200.56), Exchange::Bitstamp);
    assert!(ask_1.cmp(&ask_0).is_lt());

    let ask_2 = Ask::new(enc(1.20), enc(1200.56), Exchange::Binance);
    let ask_3 = Ask::new(enc(1.20), enc(1300.56), Exchange::Bitstamp);
    assert!(ask_3.cmp(&ask_2).is_lt());

    let ask_4 = Ask::new(enc(1.25), enc(1200.56), Exchange::Binance);
    let ask_5 = Ask::new(enc(1.20), enc(1200.56), Exchange::Bitstamp);
    assert!(ask_5.cmp(&ask_4).is_lt());

    let ask_6 = Ask::new(enc(1.20), enc(1200.56), Exchange::Bitstamp);
    let ask_7 = Ask::new(enc(1.20), enc(1300.56), Exchange::Binance);
    assert!(ask_7.cmp(&ask_6).is_lt());

    let ask_8 = Ask::new(enc(1.23), enc(1500.56), Exchange::Binance);
    let ask_9 = Ask::new(enc(1.20), enc(1200.56), Exchange::Bitstamp);
    assert!(ask_9.cmp(&ask_8).is_lt());

    let ask_10 = Ask::new(enc(1.20), enc(1000.56), Exchange::Bitstamp);
    let ask_11 = Ask::new(enc(1.20), enc(1000.56), Exchange::Binance);
    assert!(ask_11.cmp(&ask_10).is_lt());
}

#[test]
fn price_level_test_ask_greater() {
    let ask_0 = Ask::new(enc(1.23), enc(1200.56), Exchange::Binance);
    let ask_1 = Ask::new(enc(1.20), enc(1200.56), Exchange::Bitstamp);
    assert!(ask_0.cmp(&ask_1).is_gt());

    let ask_2 = Ask::new(enc(1.20), enc(1200.56), Exchange::Binance);
    let ask_3 = Ask::new(enc(1.20), enc(1300.56), Exchange::Bitstamp);
    assert!(ask_2.cmp(&ask_3).is_gt());

    let ask_4 = Ask::new(enc(1.25), enc(1200.56), Exchange::Binance);
    let ask_5 = Ask::new(enc(1.20), enc(1200.56), Exchange::Bitstamp);
    assert!(ask_4.cmp(&ask_5).is_gt());

    let ask_6 = Ask::new(enc(1.20), enc(1200.56), Exchange::Bitstamp);
    let ask_7 = Ask::new(enc(1.20), enc(1300.56), Exchange::Binance);
    assert!(ask_6.cmp(&ask_7).is_gt());

    let ask_8 = Ask::new(enc(1.20), enc(1000.56), Exchange::Bitstamp);
    let ask_9 = Ask::new(enc(1.20), enc(1000.56), Exchange::Binance);
    assert!(ask_9.cmp(&ask_8).is_lt());
}

#[test]
fn price_level_test_ask_equal() {
    //the price, quantity and the exchanges are the same
    let ask_0 = Ask::new(enc(1.20), enc(1200.56), Exchange::Binance);
    let ask_1 = Ask::new(enc(1.20), enc(1200.56), Exchange::Binance);
    assert!(ask_0.cmp(&ask_1).is_eq());

    //the price and exchange are the same but the quantity is different
    let ask_2 = Ask::new(enc(1.20), enc(234235.56), Exchange::Bitstamp);
    let ask_3 = Ask::new(enc(1.20), enc(1200.56), Exchange::Bitstamp);
    assert!(ask_2.cmp(&ask_3).is_eq());
}
