//! Per-pair book state: the two sides' aggregated levels and recent deals.
use crate::clock::{now, Timespec};
use crate::decimal::{decimal_units, parse_units, MAX_UNITS};
use crate::error::{Field, PoloError};
use crate::json::text_eq;
use crate::timeseries::{Timeseries, WithTime};
use vstd::prelude::*;

verus! {

/// The market pairs that the library follows.
#[derive(Clone, Copy, Debug, PartialEq, Eq, Hash, Structural)]
pub enum TradePairs {
    BtcEth,
    BtcBch,
    BtcLtc,
    BtcZec,
    UsdtBtc,
    UsdtEth,
    UsdtLtc,
    UsdtBch,
    UsdtZec,
    UsdtXrp,
}

/// The pair that a wire name stands for.
pub open spec fn pair_named(s: Seq<char>) -> Option<TradePairs> {
    if s == "BTC_BCH"@ {
        Some(TradePairs::BtcBch)
    } else if s == "BTC_ETH"@ {
        Some(TradePairs::BtcEth)
    } else if s == "BTC_LTC"@ {
        Some(TradePairs::BtcLtc)
    } else if s == "BTC_ZEC"@ {
        Some(TradePairs::BtcZec)
    } else if s == "USDT_BTC"@ {
        Some(TradePairs::UsdtBtc)
    } else if s == "USDT_ETH"@ {
        Some(TradePairs::UsdtEth)
    } else if s == "USDT_LTC"@ {
        Some(TradePairs::UsdtLtc)
    } else if s == "USDT_BCH"@ {
        Some(TradePairs::UsdtBch)
    } else if s == "USDT_ZEC"@ {
        Some(TradePairs::UsdtZec)
    } else if s == "USDT_XRP"@ {
        Some(TradePairs::UsdtXrp)
    } else {
        None
    }
}

/// The wire name of a pair.
pub open spec fn wire_name(p: TradePairs) -> Seq<char> {
    match p {
        TradePairs::BtcEth => "BTC_ETH"@,
        TradePairs::BtcBch => "BTC_BCH"@,
        TradePairs::BtcLtc => "BTC_LTC"@,
        TradePairs::BtcZec => "BTC_ZEC"@,
        TradePairs::UsdtBtc => "USDT_BTC"@,
        TradePairs::UsdtEth => "USDT_ETH"@,
        TradePairs::UsdtLtc => "USDT_LTC"@,
        TradePairs::UsdtBch => "USDT_BCH"@,
        TradePairs::UsdtZec => "USDT_ZEC"@,
        TradePairs::UsdtXrp => "USDT_XRP"@,
    }
}

/// A pair's wire name reads back as that pair.
pub proof fn law_pair_name_round_trip(p: TradePairs)
    ensures
        pair_named(wire_name(p)) == Some(p),
{
    reveal_strlit("BTC_BCH");
    reveal_strlit("BTC_ETH");
    reveal_strlit("BTC_LTC");
    reveal_strlit("BTC_ZEC");
    reveal_strlit("USDT_BTC");
    reveal_strlit("USDT_ETH");
    reveal_strlit("USDT_LTC");
    reveal_strlit("USDT_BCH");
    reveal_strlit("USDT_ZEC");
    reveal_strlit("USDT_XRP");
    assert("BTC_ETH"@[4] != "BTC_BCH"@[4]);
    assert("BTC_LTC"@[4] != "BTC_BCH"@[4]);
    assert("BTC_LTC"@[4] != "BTC_ETH"@[4]);
    assert("BTC_ZEC"@[4] != "BTC_BCH"@[4]);
    assert("BTC_ZEC"@[4] != "BTC_ETH"@[4]);
    assert("BTC_ZEC"@[4] != "BTC_LTC"@[4]);
    assert("USDT_ETH"@[5] != "USDT_BTC"@[5]);
    assert("USDT_LTC"@[5] != "USDT_BTC"@[5]);
    assert("USDT_LTC"@[5] != "USDT_ETH"@[5]);
    assert("USDT_BCH"@[6] != "USDT_BTC"@[6]);
    assert("USDT_BCH"@[5] != "USDT_ETH"@[5]);
    assert("USDT_BCH"@[5] != "USDT_LTC"@[5]);
    assert("USDT_ZEC"@[5] != "USDT_BTC"@[5]);
    assert("USDT_ZEC"@[5] != "USDT_ETH"@[5]);
    assert("USDT_ZEC"@[5] != "USDT_LTC"@[5]);
    assert("USDT_ZEC"@[5] != "USDT_BCH"@[5]);
    assert("USDT_XRP"@[5] != "USDT_BTC"@[5]);
    assert("USDT_XRP"@[5] != "USDT_ETH"@[5]);
    assert("USDT_XRP"@[5] != "USDT_LTC"@[5]);
    assert("USDT_XRP"@[5] != "USDT_BCH"@[5]);
    assert("USDT_XRP"@[5] != "USDT_ZEC"@[5]);
}

impl TradePairs {
    /// The pair for a wire name such as `BTC_BCH`.
    pub fn from_name(s: &str) -> (r: Option<TradePairs>)
        ensures
            r == pair_named(s@),
    {
        if text_eq(s, "BTC_BCH") {
            Some(TradePairs::BtcBch)
        } else if text_eq(s, "BTC_ETH") {
            Some(TradePairs::BtcEth)
        } else if text_eq(s, "BTC_LTC") {
            Some(TradePairs::BtcLtc)
        } else if text_eq(s, "BTC_ZEC") {
            Some(TradePairs::BtcZec)
        } else if text_eq(s, "USDT_BTC") {
            Some(TradePairs::UsdtBtc)
        } else if text_eq(s, "USDT_ETH") {
            Some(TradePairs::UsdtEth)
        } else if text_eq(s, "USDT_LTC") {
            Some(TradePairs::UsdtLtc)
        } else if text_eq(s, "USDT_BCH") {
            Some(TradePairs::UsdtBch)
        } else if text_eq(s, "USDT_ZEC") {
            Some(TradePairs::UsdtZec)
        } else if text_eq(s, "USDT_XRP") {
            Some(TradePairs::UsdtXrp)
        } else {
            None
        }
    }

    /// The pair's wire name.
    pub fn name(&self) -> (r: &'static str)
        ensures
            r@ == wire_name(*self),
    {
        match self {
            TradePairs::BtcEth => "BTC_ETH",
            TradePairs::BtcBch => "BTC_BCH",
            TradePairs::BtcLtc => "BTC_LTC",
            TradePairs::BtcZec => "BTC_ZEC",
            TradePairs::UsdtBtc => "USDT_BTC",
            TradePairs::UsdtEth => "USDT_ETH",
            TradePairs::UsdtLtc => "USDT_LTC",
            TradePairs::UsdtBch => "USDT_BCH",
            TradePairs::UsdtZec => "USDT_ZEC",
            TradePairs::UsdtXrp => "USDT_XRP",
        }
    }
}

/// The aggregated volume resting at one rate.
pub struct Level {
    /// The rate exactly as the exchange wrote it.
    pub rate: String,
    /// Volume in units of 10^-8.
    pub amount: u64,
}

/// One side of a book: volume by rate text, each rate at most once.
pub struct Levels {
    items: Vec<Level>,
}

pub open spec fn level_at(s: Seq<Level>, k: Seq<char>, i: int) -> bool {
    0 <= i < s.len() && s[i].rate@ == k
}

/// The amount that a map holds for a key, if any.
pub open spec fn lookup(m: Map<Seq<char>, u64>, k: Seq<char>) -> Option<u64> {
    if m.contains_key(k) {
        Some(m[k])
    } else {
        None
    }
}

impl View for Levels {
    type V = Map<Seq<char>, u64>;

    closed spec fn view(&self) -> Map<Seq<char>, u64> {
        Map::new(
            |k: Seq<char>| exists|i: int| level_at(self.items@, k, i),
            |k: Seq<char>| self.items@[choose|i: int| level_at(self.items@, k, i)].amount,
        )
    }
}

impl Levels {
    /// No rate text occurs twice.
    pub closed spec fn wf(&self) -> bool {
        forall|i: int, j: int|
            0 <= i < self.items@.len() && 0 <= j < self.items@.len() && i != j
                ==> #[trigger] self.items@[i].rate@ != #[trigger] self.items@[j].rate@
    }

    /// The levels in the order they are held.
    pub closed spec fn entries(&self) -> Seq<Level> {
        self.items@
    }

    proof fn lemma_view_at(&self, i: int)
        requires
            self.wf(),
            0 <= i < self.items@.len(),
        ensures
            self@.contains_key(self.items@[i].rate@),
            self@[self.items@[i].rate@] == self.items@[i].amount,
    {
        let k = self.items@[i].rate@;
        assert(level_at(self.items@, k, i));
        let j = choose|j: int| level_at(self.items@, k, j);
        assert(j == i);
    }

    /// Every held level is in the map, and the map holds nothing else.
    pub proof fn lemma_entries(&self)
        requires
            self.wf(),
        ensures
            forall|i: int|
                0 <= i < self.entries().len() ==> #[trigger] self@.contains_key(
                    self.entries()[i].rate@,
                ) && self@[self.entries()[i].rate@] == self.entries()[i].amount,
            forall|k: Seq<char>|
                #[trigger] self@.contains_key(k) ==> exists|i: int|
                    0 <= i < self.entries().len() && self.entries()[i].rate@ == k,
    {
        assert forall|i: int| 0 <= i < self.entries().len() implies #[trigger] self@.contains_key(
            self.entries()[i].rate@,
        ) && self@[self.entries()[i].rate@] == self.entries()[i].amount by {
            self.lemma_view_at(i);
        }
        assert forall|k: Seq<char>| #[trigger] self@.contains_key(k) implies exists|i: int|
            0 <= i < self.entries().len() && self.entries()[i].rate@ == k by {
            let i = choose|i: int| level_at(self.items@, k, i);
            assert(level_at(self.items@, k, i));
            assert(self.entries()[i].rate@ == k);
        }
    }

    /// The level at `i` is in the map with its volume.
    pub proof fn lemma_entry(&self, i: int)
        requires
            self.wf(),
            0 <= i < self.entries().len(),
        ensures
            self@.contains_key(self.entries()[i].rate@),
            self@[self.entries()[i].rate@] == self.entries()[i].amount,
    {
        self.lemma_view_at(i);
    }

    /// Distinct levels have distinct rate texts.
    pub proof fn lemma_keys_distinct(&self)
        requires
            self.wf(),
        ensures
            forall|i: int, j: int|
                0 <= i < self.entries().len() && 0 <= j < self.entries().len() && i != j
                    ==> #[trigger] self.entries()[i].rate@ != #[trigger] self.entries()[j].rate@,
    {
    }

    pub fn new() -> (r: Levels)
        ensures
            r.wf(),
            r@ == Map::<Seq<char>, u64>::empty(),
            r.entries().len() == 0,
    {
        let r = Levels { items: Vec::new() };
        assert(r@ =~= Map::<Seq<char>, u64>::empty());
        r
    }

    /// All levels, in the order they are held.
    pub fn levels(&self) -> (r: &Vec<Level>)
        ensures
            r@ == self.entries(),
    {
        &self.items
    }

    pub fn len(&self) -> (r: usize)
        ensures
            r == self.entries().len(),
    {
        self.items.len()
    }

    fn find(&self, rate: &str) -> (r: Option<usize>)
        ensures
            match r {
                Some(i) => level_at(self.items@, rate@, i as int),
                None => forall|i: int| !level_at(self.items@, rate@, i),
            },
    {
        let mut i: usize = 0;
        while i < self.items.len()
            invariant
                i <= self.items@.len(),
                forall|j: int| 0 <= j < i ==> !level_at(self.items@, rate@, j),
            decreases self.items@.len() - i,
        {
            if text_eq(self.items[i].rate.as_str(), rate) {
                return Some(i);
            }
            i = i + 1;
        }
        None
    }

    /// The volume resting at a rate text.
    pub fn get(&self, rate: &str) -> (r: Option<u64>)
        requires
            self.wf(),
        ensures
            r == lookup(self@, rate@),
    {
        match self.find(rate) {
            Some(i) => {
                proof {
                    self.lemma_view_at(i as int);
                }
                Some(self.items[i].amount)
            },
            None => None,
        }
    }

    /// Sets the volume at a rate text; gives the volume it had.
    pub fn insert(&mut self, rate: String, amount: u64) -> (r: Option<u64>)
        requires
            old(self).wf(),
        ensures
            final(self).wf(),
            r == lookup(old(self)@, rate@),
            final(self)@ == old(self)@.insert(rate@, amount),
    {
        let ghost k = rate@;
        match self.find(rate.as_str()) {
            Some(i) => {
                proof {
                    self.lemma_view_at(i as int);
                }
                let prev = self.items[i].amount;
                let ghost s0 = self.items@;
                self.items.set(i, Level { rate, amount });
                proof {
                    let s1 = self.items@;
                    assert(s1 == s0.update(i as int, s1[i as int]));
                    assert forall|a: int, b: int|
                        0 <= a < s1.len() && 0 <= b < s1.len() && a != b implies #[trigger] s1[a].rate@
                        != #[trigger] s1[b].rate@ by {
                        assert(s1[a].rate@ == s0[a].rate@);
                        assert(s1[b].rate@ == s0[b].rate@);
                    }
                    assert forall|k2: Seq<char>| #[trigger] self@.contains_key(k2) == old(self)@.contains_key(k2) by {
                        if exists|j: int| level_at(s1, k2, j) {
                            let j = choose|j: int| level_at(s1, k2, j);
                            assert(level_at(s0, k2, j));
                        }
                        if exists|j: int| level_at(s0, k2, j) {
                            let j = choose|j: int| level_at(s0, k2, j);
                            assert(level_at(s1, k2, j));
                        }
                    }
                    assert forall|k2: Seq<char>| #[trigger] self@.contains_key(k2) implies self@[k2]
                        == old(self)@.insert(k, amount)[k2] by {
                        let j = choose|j: int| level_at(s1, k2, j);
                        if k2 == k {
                            assert(j == i);
                        } else {
                            let j0 = choose|j: int| level_at(s0, k2, j);
                            assert(j0 == j);
                        }
                    }
                    assert(self@ =~= old(self)@.insert(k, amount));
                }
                Some(prev)
            },
            None => {
                let ghost s0 = self.items@;
                self.items.push(Level { rate, amount });
                proof {
                    let s1 = self.items@;
                    let n = s0.len() as int;
                    assert forall|a: int, b: int|
                        0 <= a < s1.len() && 0 <= b < s1.len() && a != b implies #[trigger] s1[a].rate@
                        != #[trigger] s1[b].rate@ by {
                        if a == n {
                            assert(!level_at(s0, k, b));
                        } else if b == n {
                            assert(!level_at(s0, k, a));
                        }
                    }
                    assert forall|k2: Seq<char>| #[trigger] self@.contains_key(k2) == (k2 == k
                        || old(self)@.contains_key(k2)) by {
                        if exists|j: int| level_at(s1, k2, j) {
                            let j = choose|j: int| level_at(s1, k2, j);
                            if j < n {
                                assert(level_at(s0, k2, j));
                            }
                        }
                        if k2 == k {
                            assert(level_at(s1, k2, n));
                        }
                        if exists|j: int| level_at(s0, k2, j) {
                            let j = choose|j: int| level_at(s0, k2, j);
                            assert(level_at(s1, k2, j));
                        }
                    }
                    assert forall|k2: Seq<char>| #[trigger] self@.contains_key(k2) implies self@[k2]
                        == old(self)@.insert(k, amount)[k2] by {
                        let j = choose|j: int| level_at(s1, k2, j);
                        if k2 == k {
                            assert(level_at(s1, k2, n));
                            assert(j == n);
                        } else {
                            let j0 = choose|j: int| level_at(s0, k2, j);
                            assert(level_at(s1, k2, j0));
                            assert(j0 == j);
                        }
                    }
                    assert(self@ =~= old(self)@.insert(k, amount));
                }
                None
            },
        }
    }

    /// Takes out the level at a rate text; gives the volume it had.
    pub fn remove(&mut self, rate: &str) -> (r: Option<u64>)
        requires
            old(self).wf(),
        ensures
            final(self).wf(),
            r == lookup(old(self)@, rate@),
            final(self)@ == old(self)@.remove(rate@),
    {
        let ghost k = rate@;
        match self.find(rate) {
            Some(i) => {
                proof {
                    self.lemma_view_at(i as int);
                }
                let ghost s0 = self.items@;
                let lv = self.items.remove(i);
                proof {
                    let s1 = self.items@;
                    assert(s1 == s0.remove(i as int));
                    assert forall|a: int, b: int|
                        0 <= a < s1.len() && 0 <= b < s1.len() && a != b implies #[trigger] s1[a].rate@
                        != #[trigger] s1[b].rate@ by {
                        let a0 = if a < i { a } else { a + 1 };
                        let b0 = if b < i { b } else { b + 1 };
                        assert(s1[a] == s0[a0]);
                        assert(s1[b] == s0[b0]);
                    }
                    assert forall|k2: Seq<char>| #[trigger] self@.contains_key(k2) == (k2 != k
                        && old(self)@.contains_key(k2)) by {
                        if exists|j: int| level_at(s1, k2, j) {
                            let j = choose|j: int| level_at(s1, k2, j);
                            let j0 = if j < i { j } else { j + 1 };
                            assert(s1[j] == s0[j0]);
                            assert(level_at(s0, k2, j0));
                            assert(j0 != i);
                        }
                        if k2 != k && exists|j: int| level_at(s0, k2, j) {
                            let j0 = choose|j: int| level_at(s0, k2, j);
                            assert(j0 != i);
                            let j = if j0 < i { j0 } else { j0 - 1 };
                            assert(s1[j] == s0[j0]);
                            assert(level_at(s1, k2, j));
                        }
                    }
                    assert forall|k2: Seq<char>| #[trigger] self@.contains_key(k2) implies self@[k2]
                        == old(self)@.remove(k)[k2] by {
                        let j = choose|j: int| level_at(s1, k2, j);
                        let j0 = if j < i { j } else { j + 1 };
                        assert(s1[j] == s0[j0]);
                        assert(level_at(s0, k2, j0));
                        let c = choose|c: int| level_at(s0, k2, c);
                        assert(c == j0);
                    }
                    assert(self@ =~= old(self)@.remove(k));
                }
                Some(lv.amount)
            },
            None => {
                proof {
                    assert(self@ =~= old(self)@.remove(k));
                }
                None
            },
        }
    }
}

/// An executed trade. A negative amount is a sell, any other a buy.
#[derive(Clone, Copy, Debug, PartialEq, Eq, Structural)]
pub struct Deal {
    pub time: Timespec,
    pub id: u64,
    /// Rate in units of 10^-8.
    pub rate: u64,
    /// Signed volume in units of 10^-8.
    pub amount: i64,
}

impl WithTime for Deal {
    open spec fn time_spec(&self) -> Timespec {
        self.time
    }

    fn get_time(&self) -> (r: Timespec) {
        self.time
    }
}

/// The state of one pair.
pub struct Book {
    pub last_updated: Timespec,
    pub pair: TradePairs,
    pub sell: Levels,
    pub buy: Levels,
    pub deals: Timeseries<Deal>,
}

/// What the book-keeping of one pair offers its driver.
pub trait BookAccounting {
    /// The plain book behind the handle.
    spec fn book_spec(&self) -> Book;

    spec fn inv(&self) -> bool;

    /// What else a sell update changes: true of a plain book; for a book
    /// with statistics, how they follow.
    spec fn sell_effect(&self, before: Self, rate: Seq<char>, amount: u64, r: Option<u64>) -> bool where
        Self: Sized;

    /// What else a buy update changes.
    spec fn buy_effect(&self, before: Self, rate: Seq<char>, amount: u64, r: Option<u64>) -> bool where
        Self: Sized;

    /// What else recording a deal changes.
    spec fn deal_effect(&self, before: Self) -> bool where Self: Sized;

    /// What else emptying the sides changes.
    spec fn reset_effect(&self, before: Self) -> bool where Self: Sized;

    /// Sets the sell volume at `rate` (removes the level when `amount` is
    /// zero); gives the volume the level had.
    fn update_sell_orders(&mut self, rate: String, amount: u64) -> (r: Option<u64>) where Self: Sized
        requires
            old(self).inv(),
            amount <= MAX_UNITS,
        ensures
            final(self).inv(),
            final(self).sell_effect(*old(self), rate@, amount, r),
            r == lookup(old(self).book_spec().sell@, rate@),
            amount == 0 ==> final(self).book_spec().sell@ == old(self).book_spec().sell@.remove(
                rate@,
            ),
            amount != 0 ==> final(self).book_spec().sell@ == old(self).book_spec().sell@.insert(
                rate@,
                amount,
            ),
            final(self).book_spec().buy@ == old(self).book_spec().buy@,
            final(self).book_spec().pair == old(self).book_spec().pair,
            final(self).book_spec().deals.records() == old(self).book_spec().deals.records(),
    ;

    /// Sets the buy volume at `rate` (removes the level when `amount` is
    /// zero); gives the volume the level had.
    fn update_buy_orders(&mut self, rate: String, amount: u64) -> (r: Option<u64>) where Self: Sized
        requires
            old(self).inv(),
            amount <= MAX_UNITS,
        ensures
            final(self).inv(),
            final(self).buy_effect(*old(self), rate@, amount, r),
            r == lookup(old(self).book_spec().buy@, rate@),
            amount == 0 ==> final(self).book_spec().buy@ == old(self).book_spec().buy@.remove(
                rate@,
            ),
            amount != 0 ==> final(self).book_spec().buy@ == old(self).book_spec().buy@.insert(
                rate@,
                amount,
            ),
            final(self).book_spec().sell@ == old(self).book_spec().sell@,
            final(self).book_spec().pair == old(self).book_spec().pair,
            final(self).book_spec().deals.records() == old(self).book_spec().deals.records(),
    ;

    /// Records a deal at the front of the history; gives its rate in units.
    fn new_deal(&mut self, id: u64, rate: String, amount: i64) -> (r: Result<u64, PoloError>) where Self: Sized
        requires
            old(self).inv(),
        ensures
            final(self).inv(),
            final(self).deal_effect(*old(self)),
            final(self).book_spec().sell@ == old(self).book_spec().sell@,
            final(self).book_spec().buy@ == old(self).book_spec().buy@,
            final(self).book_spec().pair == old(self).book_spec().pair,
            match r {
                Ok(v) => {
                    &&& decimal_units(rate@) == Some(v as nat)
                    &&& final(self).book_spec().deals.records().len() == old(self).book_spec().deals.records().len() + 1
                    &&& final(self).book_spec().deals.records().skip(1) == old(self).book_spec().deals.records()
                    &&& final(self).book_spec().deals.records()[0].id == id
                    &&& final(self).book_spec().deals.records()[0].rate == v
                    &&& final(self).book_spec().deals.records()[0].amount == amount
                },
                Err(e) => {
                    &&& decimal_units(rate@) is None
                    &&& e == PoloError::Number(Field::Rate)
                    &&& final(self).book_spec().deals.records() == old(self).book_spec().deals.records()
                },
            },
    ;

    /// The plain book.
    fn book_ref(&self) -> (r: &Book)
        ensures
            *r == self.book_spec(),
    ;

    /// Empties both sides; the deal history stays.
    fn reset_orders(&mut self) where Self: Sized
        requires
            old(self).inv(),
        ensures
            final(self).inv(),
            final(self).reset_effect(*old(self)),
            final(self).book_spec().sell@ == Map::<Seq<char>, u64>::empty(),
            final(self).book_spec().buy@ == Map::<Seq<char>, u64>::empty(),
            final(self).book_spec().pair == old(self).book_spec().pair,
            final(self).book_spec().deals.records() == old(self).book_spec().deals.records(),
    ;
}

/// Every level holds a positive volume no larger than `MAX_UNITS`: zero
/// removes a level and is never stored.
pub open spec fn sane_side(m: Map<Seq<char>, u64>) -> bool {
    forall|k: Seq<char>| #[trigger] m.contains_key(k) ==> 0 < m[k] <= MAX_UNITS
}

impl Book {
    pub open spec fn wf(&self) -> bool {
        &&& self.sell.wf()
        &&& self.buy.wf()
        &&& self.deals.wf()
        &&& sane_side(self.sell@)
        &&& sane_side(self.buy@)
    }

    /// An empty book for a pair.
    pub fn new(pair: TradePairs) -> (r: Book)
        ensures
            r.wf(),
            r.pair == pair,
            r.sell@ == Map::<Seq<char>, u64>::empty(),
            r.buy@ == Map::<Seq<char>, u64>::empty(),
            r.deals.records() == Seq::<Deal>::empty(),
    {
        Book {
            last_updated: now(),
            pair,
            sell: Levels::new(),
            buy: Levels::new(),
            deals: Timeseries::new(),
        }
    }
}

impl Default for Book {
    fn default() -> (r: Book)
        ensures
            r.wf(),
            r.pair == TradePairs::UsdtBtc,
            r.sell@ == Map::<Seq<char>, u64>::empty(),
            r.buy@ == Map::<Seq<char>, u64>::empty(),
            r.deals.records() == Seq::<Deal>::empty(),
    {
        Book::new(TradePairs::UsdtBtc)
    }
}

impl BookAccounting for Book {
    open spec fn book_spec(&self) -> Book {
        *self
    }

    open spec fn inv(&self) -> bool {
        self.wf()
    }

    open spec fn sell_effect(&self, before: Self, rate: Seq<char>, amount: u64, r: Option<u64>) -> bool {
        true
    }

    open spec fn buy_effect(&self, before: Self, rate: Seq<char>, amount: u64, r: Option<u64>) -> bool {
        true
    }

    open spec fn deal_effect(&self, before: Self) -> bool {
        true
    }

    open spec fn reset_effect(&self, before: Self) -> bool {
        true
    }

    fn update_sell_orders(&mut self, rate: String, amount: u64) -> (r: Option<u64>) {
        self.last_updated = now();
        if amount == 0 {
            self.sell.remove(rate.as_str())
        } else {
            self.sell.insert(rate, amount)
        }
    }

    fn update_buy_orders(&mut self, rate: String, amount: u64) -> (r: Option<u64>) {
        self.last_updated = now();
        if amount == 0 {
            self.buy.remove(rate.as_str())
        } else {
            self.buy.insert(rate, amount)
        }
    }

    fn new_deal(&mut self, id: u64, rate: String, amount: i64) -> (r: Result<u64, PoloError>) {
        self.last_updated = now();
        let rate = match parse_units(rate.as_str()) {
            Some(v) => v,
            None => {
                return Err(PoloError::Number(Field::Rate));
            },
        };
        // a clock that steps back does not reorder the history
        let mut time = now();
        match self.deals.newest() {
            Some(t) => {
                if time.before(t) {
                    time = t;
                }
            },
            None => {},
        }
        self.deals.add(Deal { time, id, rate, amount });
        Ok(rate)
    }

    fn book_ref(&self) -> (r: &Book) {
        self
    }

    fn reset_orders(&mut self) {
        self.last_updated = now();
        self.sell = Levels::new();
        self.buy = Levels::new();
    }
}

/// No level ever holds a zero volume: a level update with zero removes
/// the rate, any other volume (at most `MAX_UNITS`) is stored as given.
pub proof fn law_no_zero_level(m: Map<Seq<char>, u64>, rate: Seq<char>, amount: u64)
    requires
        sane_side(m),
        amount <= MAX_UNITS,
    ensures
        sane_side(
            if amount == 0 {
                m.remove(rate)
            } else {
                m.insert(rate, amount)
            },
        ),
{
}

} // verus!
