use poloniex::book::{Book, BookAccounting, Deal, TradePairs};
use poloniex::clock::Timespec;
use poloniex::stats::BookWithStats;
use poloniex::tradestats::TradeStats;

const TIME: Timespec = Timespec { sec: 1, nsec: 0 };

fn units(x: f64) -> i64 {
    (x * 1e8).round() as i64
}

fn deal(id: u64, rate: f64, amount: f64) -> Deal {
    Deal { time: TIME, id, rate: units(rate) as u64, amount: units(amount) }
}

fn volume(x: u128) -> f64 {
    x as f64 / 1e8
}

fn dest(x: u128) -> f64 {
    x as f64 / 1e16
}

#[test]
fn stats_default() {
    let default = TradeStats::default();
    assert_eq!(volume(default.sum_buy), 0.0);
}

#[test]
fn stats_new() {
    let deal = deal(1, 0.1, 10.0);
    let deals = vec![&deal];
    let stats = TradeStats::new(&deals);
    assert_eq!(volume(stats.sum_buy), 10.0);
}

#[test]
fn stats_add_deal() {
    let deal = deal(1, 0.1, 10.0);
    let stats = TradeStats::default().add_deal(&deal);
    assert_eq!(volume(stats.sum_buy), 10.0);
}

#[test]
fn stats_deals() {
    let deal1 = deal(1, 0.1, 10.0);
    let deal2 = deal(2, 0.1, -10.0);
    let stats = TradeStats::new(&[&deal1, &deal2]);
    assert_eq!((volume(stats.sum_buy), stats.num_buy, dest(stats.sum_buy_dest)), (10.0, 1, 1.0));
    assert_eq!((volume(stats.sum_sell), stats.num_sell, dest(stats.sum_sell_dest)), (10.0, 1, 1.0));
}

#[test]
fn stats_sub() {
    let deal1 = deal(1, 0.1, 10.0);
    let deal2 = deal(2, 0.1, -10.0);
    let stats1 = TradeStats::new(&[&deal1, &deal2]);
    let stats2 = TradeStats::new(&[&deal2]);
    let stats = stats1.sub_stats(&stats2);
    assert_eq!((volume(stats.sum_buy), stats.num_buy), (10.0, 1));
    assert_eq!((volume(stats.sum_sell), stats.num_sell), (0.0, 0));
}

#[test]
fn stats_sub_exact() {
    let deal1 = deal(1, 0.1, 10.0);
    let deal2 = deal(2, 0.1, -10.0);
    let stats1 = TradeStats::new(&[&deal1, &deal2]);
    let stats2 = stats1;
    let stats = stats1.sub_stats(&stats2);
    assert_eq!(stats, TradeStats::default());
}

#[test]
fn add_then_sub_restores() {
    let a = TradeStats::new(&[&deal(1, 0.2, 3.0), &deal(2, 0.3, -1.5)]);
    let b = TradeStats::new(&[&deal(3, 0.1, 7.0)]);
    assert_eq!(a.add_stats(&b).sub_stats(&b), a);
    let c = TradeStats::new(&[&deal(4, 0.5, -2.0), &deal(5, 0.5, 4.0), &deal(6, 0.4, -1.0)]);
    assert_eq!(c.sub_stats(&c), TradeStats::default());
}

#[test]
fn rolling_window_subtract() {
    let mut b = BookWithStats::new(Book::new(TradePairs::BtcBch));
    assert!(b.new_deal(1, "0.1".to_string(), units(10.0)).is_ok());
    assert!(b.new_deal(2, "0.1".to_string(), -units(10.0)).is_ok());
    assert_eq!(b.book_ref().deals.timestamps_len(), 2);
    let t = b.book_ref().deals.data[0].time;
    let last = b.update_stats_at(t);
    assert_eq!(last.len(), 2);
    let bucket = b.trade_series_1s[0];
    assert_eq!((volume(bucket.sum_buy), volume(bucket.sum_sell)), (10.0, 10.0));
    assert_eq!((bucket.num_buy, bucket.num_sell), (1, 1));
    assert_eq!(b.trade_stats_1m, bucket);
    assert_eq!(bucket.sub_stats(&bucket), TradeStats::default());
}

#[test]
fn minute_forgets_expired_buckets() {
    let mut b = BookWithStats::new(Book::new(TradePairs::BtcBch));
    assert!(b.new_deal(1, "0.1".to_string(), units(2.0)).is_ok());
    let t = b.book_ref().deals.data[0].time;
    b.update_stats_at(t);
    assert_eq!(b.trade_stats_1m.num_buy, 1);
    for s in 1..=60 {
        b.update_stats_at(Timespec { sec: t.sec + s, nsec: t.nsec });
    }
    assert_eq!(b.trade_series_1s.len(), 61);
    assert_eq!(b.trade_stats_1m, TradeStats::default());
    b.update_stats_at(Timespec { sec: t.sec + 700, nsec: t.nsec });
    assert_eq!(b.book_ref().deals.timestamps_len(), 0);
}

#[test]
fn bad_deal_rate_is_rejected() {
    let mut b = Book::new(TradePairs::BtcBch);
    assert!(b.new_deal(1, "x".to_string(), 5).is_err());
    assert_eq!(b.deals.timestamps_len(), 0);
    assert_eq!(b.new_deal(1, "0.5".to_string(), 5).unwrap(), 50_000_000);
    assert_eq!(b.deals.data[0].amount, 5);
}
