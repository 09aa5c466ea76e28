use poloniex::book::{Book, BookAccounting, TradePairs};
use poloniex::json::parse;
use poloniex::stats::{BookStats, BookWithStats};

fn units(x: f64) -> u64 {
    (x * 1e8).round() as u64
}

fn rate(x: u64) -> f64 {
    x as f64 / 1e8
}

fn book_of(text: &str) -> Book {
    Book::from_json(&parse(text).unwrap()).unwrap()
}

fn stats_of(text: &str) -> BookStats {
    BookWithStats::new(book_of(text)).stats
}

const BOOK: &str = r#"{"currencyPair": "BTC_BCH", "orderBook": [{"0.13161901": 0.23709568, "0.13164313": "0.17328089"}, {"0.13109621": 0.2331, "0.13069621": 0.2331}]}"#;

const DEPTH: &str = r#"{"currencyPair": "BTC_BCH", "orderBook": [{"0.1110": 10.0, "0.1111": 100.0, "0.1112": 100.0, "0.1113": 1000.0}, {"0.1004": 0.1, "0.1003": 1.0, "0.1002": 1.0, "0.1001": 10.0}]}"#;

#[test]
fn stats_init() {
    let book_stats = stats_of(BOOK);
    assert_eq!(rate(book_stats.min_sell), 0.13161901);
    assert_eq!(rate(book_stats.max_buy), 0.13109621);
}

#[test]
fn stats_init_wrong_order() {
    let book_init = r#"{"currencyPair": "BTC_BCH", "orderBook": [{"0.13361901": 0.23709568, "0.13164313": "0.17328089"}, {"0.12909621": 0.2331, "0.13069621": 0.2331}]}"#;
    let book_stats = stats_of(book_init);
    assert_eq!(rate(book_stats.min_sell), 0.13164313);
    assert_eq!(rate(book_stats.max_buy), 0.13069621);
}

#[test]
fn stats_update_sell_zero() {
    let mut book_stats = stats_of(BOOK);
    book_stats.update_sell_orders(units(0.1), units(0.0), None);
    assert_eq!(rate(book_stats.min_sell), 0.13161901);
}

#[test]
fn stats_update_sell_shift_zero() {
    let mut book_stats = stats_of(BOOK);
    book_stats.update_sell_orders(units(0.13161901), units(0.0), Some(units(0.23709568)));
    assert_eq!(rate(book_stats.min_sell), 0.13164313);
}

#[test]
fn stats_update_sell() {
    let mut book_stats = stats_of(BOOK);
    book_stats.update_sell_orders(units(0.1), units(1.0), None);
    assert_eq!(rate(book_stats.min_sell), 0.1);
}

#[test]
fn stats_update_buy_zero() {
    let mut book_stats = stats_of(BOOK);
    book_stats.update_buy_orders(units(100.0), units(0.0), None);
    assert_eq!(rate(book_stats.max_buy), 0.13109621);
}

#[test]
fn stats_update_buy_shift_zero() {
    let mut book_stats = stats_of(BOOK);
    book_stats.update_buy_orders(units(0.13109621), units(0.0), Some(units(0.2331)));
    assert_eq!(rate(book_stats.max_buy), 0.13069621);
}

#[test]
fn stats_update_buy() {
    let mut book_stats = stats_of(BOOK);
    book_stats.update_buy_orders(units(100.0), units(1.0), None);
    assert_eq!(rate(book_stats.max_buy), 100.0);
}

#[test]
fn stats_skin() {
    let book_init = r#"{"currencyPair": "BTC_BCH", "orderBook": [{"0.1111": 100.0, "0.1112": 100.0, "0.1113": 1000.0}, {"0.1003": 1.0, "0.1002": 1.0, "0.1001": 10.0}]}"#;
    let book_stats = stats_of(book_init);
    assert_eq!(rate(book_stats.skin_sell), 0.1112);
    assert_eq!(rate(book_stats.skin_buy), 0.1002);
}

#[test]
fn stats_surface() {
    let book_stats = stats_of(DEPTH);
    assert_eq!(rate(book_stats.surface_sell), 0.1111);
    assert_eq!(rate(book_stats.surface_buy), 0.1003);
}

#[test]
fn stats_surface_update() {
    let mut book_stats = stats_of(DEPTH);
    book_stats.update_sell_orders(units(0.1109), units(10.0), None);
    book_stats.update_buy_orders(units(0.1005), units(0.1), None);
    assert_eq!(rate(book_stats.surface_sell), 0.1110);
    assert_eq!(rate(book_stats.surface_buy), 0.1004);
}

#[test]
fn sums_and_order_follow_updates() {
    let mut st = stats_of(DEPTH);
    assert_eq!(st.sum_sell, units(1210.0) as i128);
    assert_eq!(st.sum_buy, units(12.1) as i128);
    st.update_sell_orders(units(0.1115), units(5.0), None);
    st.update_sell_orders(units(0.1111), units(50.0), Some(units(100.0)));
    st.update_sell_orders(units(0.1110), 0, Some(units(10.0)));
    st.update_buy_orders(units(0.1002), 0, Some(units(1.0)));
    let sell_total: u64 = st.vec_sell.iter().map(|r| r.amount).sum();
    let buy_total: u64 = st.vec_buy.iter().map(|r| r.amount).sum();
    assert_eq!(st.sum_sell, sell_total as i128);
    assert_eq!(st.sum_buy, buy_total as i128);
    assert!(st.vec_sell.windows(2).all(|w| w[0].rate <= w[1].rate));
    assert!(st.vec_buy.windows(2).all(|w| w[0].rate >= w[1].rate));
    assert_eq!(st.min_sell, st.vec_sell[0].rate);
    assert_eq!(st.max_buy, st.vec_buy[0].rate);
    assert_eq!(rate(st.min_sell), 0.1111);
}

#[test]
fn emptied_side_has_no_best() {
    let mut st = stats_of(r#"{"currencyPair": "BTC_BCH", "orderBook": [{"0.5": 1}, {"0.4": 1}]}"#);
    st.update_sell_orders(units(0.5), 0, Some(units(1.0)));
    st.update_buy_orders(units(0.4), 0, Some(units(1.0)));
    assert_eq!(st.vec_sell.len(), 0);
    assert_eq!(st.min_sell, 0);
    assert_eq!(st.max_buy, 0);
    assert_eq!(st.sum_sell, 0);
}

#[test]
fn distant_levels_stay_in_book_only() {
    let text = r#"{"currencyPair": "USDT_BTC", "orderBook": [{"1.0": 1, "10.0": 2, "10.5": 3}, {"5.0": 1, "0.5": 2, "0.4": 3}]}"#;
    let with_stats = BookWithStats::new(book_of(text));
    let st = &with_stats.stats;
    let sell_rates: Vec<u64> = st.vec_sell.iter().map(|r| r.rate).collect();
    let buy_rates: Vec<u64> = st.vec_buy.iter().map(|r| r.rate).collect();
    assert_eq!(sell_rates, vec![units(1.0), units(10.0)]);
    assert_eq!(buy_rates, vec![units(5.0), units(0.5)]);
    assert_eq!(with_stats.book_ref().sell.get("10.5"), Some(units(3.0)));
    assert_eq!(with_stats.book_ref().buy.get("0.4"), Some(units(3.0)));
    assert_eq!(st.sum_sell, units(3.0) as i128);
}

#[test]
fn fresh_book_is_empty() {
    let b = Book::new(TradePairs::UsdtEth);
    assert_eq!(b.sell.len(), 0);
    assert_eq!(b.buy.len(), 0);
    assert!(b.last_updated.nsec >= 0 && b.last_updated.nsec < 1_000_000_000);
    let st = BookStats::new(&b);
    assert_eq!((st.min_sell, st.max_buy, st.skin_sell, st.surface_buy), (0, 0, 0, 0));
}

#[test]
fn reset_clears_stats_too() {
    let mut b = BookWithStats::new(book_of(DEPTH));
    b.reset_orders();
    assert_eq!(b.book_ref().sell.len(), 0);
    assert_eq!(b.stats.vec_sell.len(), 0);
    assert_eq!(b.stats.vec_buy.len(), 0);
    assert_eq!((b.stats.min_sell, b.stats.max_buy, b.stats.sum_sell), (0, 0, 0));
}

#[test]
fn book_updates_reach_stats() {
    let mut b = BookWithStats::new(book_of(BOOK));
    assert_eq!(b.update_sell_orders("0.13161901".to_string(), 0), Some(units(0.23709568)));
    assert_eq!(rate(b.stats.min_sell), 0.13164313);
    assert_eq!(b.stats.sum_sell, units(0.17328089) as i128);
    b.update_buy_orders("1.5e-1".to_string(), units(2.0));
    assert_eq!(rate(b.stats.max_buy), 0.15);
}

#[test]
fn deal_history_stays_newest_first() {
    let mut b = Book::new(TradePairs::BtcBch);
    for i in 0..5 {
        b.new_deal(i, "0.1".to_string(), 1).unwrap();
    }
    let d = &b.deals.data;
    for i in 1..d.len() {
        let (a, c) = (d[i - 1].time, d[i].time);
        assert!((a.sec, a.nsec) >= (c.sec, c.nsec));
    }
    assert_eq!(d[0].id, 4);
}
