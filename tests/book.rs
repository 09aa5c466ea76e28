use poloniex::actors::{Accountant, Logger, Processor};
use poloniex::book::{Book, BookAccounting, Levels, TradePairs};
use poloniex::clock::Timespec;
use poloniex::error::PoloError;
use poloniex::messages::{BookUpdate, RecordUpdate};
use poloniex::trade::TradeBook;
use std::str::FromStr;

fn units(x: f64) -> u64 {
    (x * 1e8).round() as u64
}

fn same_levels(a: &Levels, b: &Levels) -> bool {
    a.len() == b.len() && a.levels().iter().all(|l| b.get(&l.rate) == Some(l.amount))
}

const INITIAL: &str = r#"[189, 5130995, [["i", {"currencyPair": "BTC_BCH", "orderBook": [{"0.13161901": 0.23709568, "0.13164313": "0.17328089"}, {"0.13169621": 0.2331}]}]]]"#;

#[test]
fn model_works() {
    let mut b = Book::new(TradePairs::BtcBch);
    b.sell.insert(String::from("0.001"), units(10.1));
    b.buy.insert(String::from("0.001"), units(10.1));
    b.update_buy_orders("0.001".to_owned(), units(10.0));
    assert_eq!(b.book_ref().buy.get("0.001"), Some(units(10.0)));
}

#[test]
fn initial_order() {
    let mut accountant = Accountant::new(TradeBook::new());
    let order = String::from(INITIAL);
    accountant.process_message(order.clone()).unwrap();
    let actor_book = accountant.tb.book_by_id(189).unwrap().book_ref();
    match BookUpdate::from_str(&order).unwrap().records[0] {
        RecordUpdate::Initial(ref book) => {
            assert!(same_levels(&book.sell, &actor_book.sell));
            assert!(same_levels(&book.buy, &actor_book.buy));
        }
        _ => panic!("BookUpdate::from_str were not able to parse RecordUpdate::Initial"),
    }
}

#[test]
fn initial_snapshot_applied() {
    let mut accountant = Accountant::new(TradeBook::new());
    accountant.process_message(String::from(INITIAL)).unwrap();
    let b = accountant.tb.book_by_id(189).unwrap();
    assert_eq!(b.book_ref().sell.get("0.13161901"), Some(units(0.23709568)));
    assert_eq!(b.book_ref().sell.get("0.13164313"), Some(units(0.17328089)));
    assert_eq!(b.book_ref().sell.len(), 2);
    assert_eq!(b.book_ref().buy.get("0.13169621"), Some(units(0.2331)));
    assert_eq!(b.book_ref().buy.len(), 1);
    assert_eq!(b.stats.min_sell as f64 / 1e8, 0.13161901);
    assert_eq!(b.stats.max_buy as f64 / 1e8, 0.13169621);
}

#[test]
fn shift_to_zero_moves_best_sell() {
    let mut accountant = Accountant::new(TradeBook::new());
    accountant.process_message(String::from(INITIAL)).unwrap();
    accountant
        .process_message(String::from(r#"[189, 5130996, [["o", 0, "0.13161901", "0.00000000"]]]"#))
        .unwrap();
    let b = accountant.tb.book_by_id(189).unwrap();
    assert_eq!(b.stats.min_sell as f64 / 1e8, 0.13164313);
    assert_eq!(b.book_ref().sell.get("0.13161901"), None);
}

#[test]
fn zero_update_removes_and_returns_prior() {
    let mut b = Book::new(TradePairs::UsdtBtc);
    assert_eq!(b.update_sell_orders("0.5".to_string(), 7), None);
    assert_eq!(b.update_sell_orders("0.5".to_string(), 9), Some(7));
    assert_eq!(b.update_sell_orders("0.5".to_string(), 0), Some(9));
    assert_eq!(b.sell.get("0.5"), None);
    assert_eq!(b.update_sell_orders("0.5".to_string(), 0), None);
    assert_eq!(b.sell.len(), 0);
    b.update_buy_orders("0.4".to_string(), 3);
    b.reset_orders();
    assert_eq!(b.buy.len(), 0);
}

#[test]
fn unknown_book_id_is_reported() {
    let mut accountant = Accountant::new(TradeBook::new());
    let r = accountant.process_message(String::from(r#"[7, 1, [["o", 0, "0.5", "1"]]]"#));
    assert!(matches!(r, Err(PoloError::BookNotInitialized)));
    assert!(accountant.tb.book_by_id(7).is_none());
}

#[test]
fn record_errors_do_not_stop_the_frame() {
    let mut accountant = Accountant::new(TradeBook::new());
    accountant.process_message(String::from(INITIAL)).unwrap();
    let frame = r#"[189, 1, [["t", "1", 0, "bad", "1", 5], ["o", 1, "0.2", "3"], ["t", "2", 1, "0.3", "2", 6]]]"#;
    let r = accountant.process_message(String::from(frame));
    assert!(r.is_err());
    let b = accountant.tb.book_by_id(189).unwrap();
    assert_eq!(b.book_ref().buy.get("0.2"), Some(units(3.0)));
    assert_eq!(b.book_ref().deals.timestamps_len(), 1);
    assert_eq!(b.book_ref().deals.data[0].amount, units(2.0) as i64);
    assert_eq!(b.book_ref().deals.data[0].id, 6);
}

#[test]
fn sell_deals_are_negative() {
    let mut accountant = Accountant::new(TradeBook::new());
    accountant.process_message(String::from(INITIAL)).unwrap();
    accountant
        .process_message(String::from(r#"[189, 2, [["t", "714116", 0, "0.12906425", "0.05946471", 1504163848]]]"#))
        .unwrap();
    let b = accountant.tb.book_by_id(189).unwrap();
    let d = b.book_ref().deals.data[0];
    assert_eq!(d.amount, -(units(0.05946471) as i64));
    assert_eq!(d.rate, units(0.12906425));
}

#[test]
fn snapshot_replaces_book_of_same_pair() {
    let mut tb = TradeBook::new();
    let mut accountant = Accountant::new(TradeBook::new());
    accountant.process_message(String::from(INITIAL)).unwrap();
    let other = r#"[200, 1, [["i", {"currencyPair": "BTC_BCH", "orderBook": [{"0.2": 1}, {}]}]]]"#;
    accountant.process_message(String::from(other)).unwrap();
    assert_eq!(accountant.tb.books.len(), 1);
    assert_eq!(accountant.tb.book_by_id(200).unwrap().book_ref().sell.get("0.2"), Some(units(1.0)));
    assert_eq!(accountant.tb.book_by_id(189).unwrap().book_ref().sell.len(), 1);
    tb.add_book(Book::new(TradePairs::UsdtXrp), 3);
    tb.add_book(Book::new(TradePairs::UsdtZec), 4);
    assert_eq!(tb.books.len(), 2);
}

#[test]
fn pair_names_round_trip() {
    for p in [TradePairs::BtcEth, TradePairs::BtcBch, TradePairs::UsdtXrp, TradePairs::UsdtLtc] {
        assert_eq!(TradePairs::from_name(p.name()), Some(p));
    }
    assert_eq!(TradePairs::from_name("BTC_DOGE"), None);
}

#[test]
fn logger_stamps_millis() {
    let l = Logger;
    assert_eq!(l.stamp(Timespec { sec: 12, nsec: 345_678_901 }), (12, 345));
}
