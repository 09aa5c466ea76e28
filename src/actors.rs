//! Consumers of the frame stream.
use crate::book::{lookup, BookAccounting};
use crate::clock::Timespec;
use crate::decimal::{decimal_units, MAX_UNITS};
use crate::error::{Field, PoloError};
use crate::json::json_tree;
use crate::messages::{frame_spec, models, BookUpdate, FrameModel, RecordUpdate};
use crate::stats::{buy_updated, sell_updated};
use crate::trade::{book_added, TradeBook};
use vstd::prelude::*;

verus! {

/// Anything that consumes text frames one by one.
pub trait Processor {
    spec fn ready(&self) -> bool;

    /// What processing `msg` from the state `before` leads to: `self` and `r`.
    spec fn processed(&self, before: Self, msg: Seq<char>, r: Result<(), PoloError>) -> bool where
        Self: Sized;

    fn process_message(&mut self, msg: String) -> (r: Result<(), PoloError>) where Self: Sized
        requires
            old(self).ready(),
        ensures
            final(self).ready(),
            final(self).processed(*old(self), msg@, r),
    ;
}

/// Stamps frames with the time they are seen.
#[derive(Clone, Copy, Debug, Default)]
pub struct Logger;

impl Logger {
    /// The stamp of a frame seen at `t`: whole seconds and milliseconds.
    pub fn stamp(&self, t: Timespec) -> (r: (i64, i32))
        requires
            t.wf(),
        ensures
            r.0 == t.sec,
            r.1 == t.nsec / 1_000_000,
            0 <= r.1 < 1000,
    {
        (t.sec, t.nsec / 1_000_000)
    }
}

/// Keeps the books: decodes each frame and applies its records.
pub struct Accountant {
    pub tb: TradeBook,
}

impl Accountant {
    pub fn new(tb: TradeBook) -> (r: Accountant)
        ensures
            r.tb == tb,
    {
        Accountant { tb }
    }

    /// Applies one record of a frame of channel `book_id`.
    pub fn apply(&mut self, book_id: u16, rec: RecordUpdate) -> (r: Result<(), PoloError>)
        requires
            old(self).tb.wf(),
            rec.wf(),
        ensures
            final(self).tb.wf(),
            record_applied(old(self).tb, final(self).tb, book_id, rec, r),
    {
        match rec {
            RecordUpdate::Initial(book) => {
                self.tb.add_book(book, book_id);
                Ok(())
            },
            RecordUpdate::SellTotal(x) => {
                if x.amount > MAX_UNITS {
                    if self.tb.by_id.get(&book_id).is_none() {
                        return Err(PoloError::BookNotInitialized);
                    }
                    return Err(PoloError::Number(Field::Amount));
                }
                match self.tb.book_by_id(book_id) {
                    Some(b) => {
                        b.apply_sell(x.rate, x.amount);
                        Ok(())
                    },
                    None => Err(PoloError::BookNotInitialized),
                }
            },
            RecordUpdate::BuyTotal(x) => {
                if x.amount > MAX_UNITS {
                    if self.tb.by_id.get(&book_id).is_none() {
                        return Err(PoloError::BookNotInitialized);
                    }
                    return Err(PoloError::Number(Field::Amount));
                }
                match self.tb.book_by_id(book_id) {
                    Some(b) => {
                        b.apply_buy(x.rate, x.amount);
                        Ok(())
                    },
                    None => Err(PoloError::BookNotInitialized),
                }
            },
            RecordUpdate::Sell(t) => self.record_deal(book_id, t.id, t.rate, t.amount, true),
            RecordUpdate::Buy(t) => self.record_deal(book_id, t.id, t.rate, t.amount, false),
        }
    }

    fn record_deal(&mut self, book_id: u16, id: u64, rate: String, amount: u64, sell: bool) -> (r:
        Result<(), PoloError>)
        requires
            old(self).tb.wf(),
        ensures
            final(self).tb.wf(),
            deal_applied(
                old(self).tb,
                final(self).tb,
                book_id,
                id,
                rate@,
                if sell {
                    -(amount as int)
                } else {
                    amount as int
                },
                amount as int,
                r,
            ),
    {
        if amount > MAX_UNITS {
            if self.tb.by_id.get(&book_id).is_none() {
                return Err(PoloError::BookNotInitialized);
            }
            return Err(PoloError::Number(Field::Amount));
        }
        let signed: i64 = if sell {
            -(amount as i64)
        } else {
            amount as i64
        };
        match self.tb.book_by_id(book_id) {
            Some(b) => match b.new_deal(id, rate, signed) {
                Ok(_) => Ok(()),
                Err(e) => Err(e),
            },
            None => Err(PoloError::BookNotInitialized),
        }
    }

    /// Decodes a frame and applies its records in order. A frame that does
    /// not decode changes nothing; a record that cannot be applied is
    /// skipped, and the first such error is returned once the rest are in.
    pub fn process_frame(&mut self, msg: &str) -> (r: Result<(), PoloError>)
        requires
            old(self).tb.wf(),
        ensures
            final(self).tb.wf(),
            frame_processed(old(self).tb, final(self).tb, msg@, r),
    {
        let update = match BookUpdate::parse_frame(msg) {
            Ok(u) => u,
            Err(e) => {
                return Err(e);
            },
        };
        let ghost fm = update.model();
        let book_id = update.book_id;
        let mut records = update.records;
        let ghost recs = records@;
        assert(models(recs) == fm.records);
        let ghost mut states: Seq<TradeBook> = seq![self.tb];
        let ghost mut outs: Seq<Result<(), PoloError>> = Seq::empty();
        let mut first: Option<PoloError> = None;
        let ghost mut first_at: int = 0;
        let ghost n = recs.len() as int;
        assert(recs.skip(0) =~= recs);
        while records.len() > 0
            invariant
                self.tb.wf(),
                models(recs) == fm.records,
                fm.book_id == book_id as nat,
                match json_tree(msg@) {
                    Some(j) => frame_spec(j) == Ok::<FrameModel, PoloError>(fm),
                    None => false,
                },
                0 <= outs.len() <= n,
                n == recs.len(),
                records@ == recs.skip(outs.len() as int),
                forall|i: int| 0 <= i < recs.len() ==> #[trigger] recs[i].wf(),
                states.len() == outs.len() + 1,
                states[0] == old(self).tb,
                states.last() == self.tb,
                forall|i: int|
                    0 <= i < outs.len() ==> #[trigger] record_applied(
                        states[i],
                        states[i + 1],
                        book_id,
                        recs[i],
                        outs[i],
                    ),
                match first {
                    None => forall|i: int| 0 <= i < outs.len() ==> #[trigger] outs[i] is Ok,
                    Some(e) => first_error_at(outs, first_at, e),
                },
            decreases records@.len(),
        {
            let ghost k = outs.len() as int;
            assert(recs.skip(k)[0] == recs[k]);
            let rec = records.remove(0);
            let ghost before = self.tb;
            let res = self.apply(book_id, rec);
            proof {
                assert(records@ =~= recs.skip(k + 1));
                states = states.push(self.tb);
                outs = outs.push(res);
                assert(record_applied(states[k], states[k + 1], book_id, recs[k], outs[k]));
                assert forall|i: int| 0 <= i < outs.len() implies #[trigger] record_applied(
                    states[i],
                    states[i + 1],
                    book_id,
                    recs[i],
                    outs[i],
                ) by {
                    if i < k {
                        assert(states[i] == states.drop_last()[i]);
                        assert(states[i + 1] == states.drop_last()[i + 1]);
                        assert(outs[i] == outs.drop_last()[i]);
                    }
                }
            }
            match res {
                Ok(()) => {
                    proof {
                        if first is None {
                            assert forall|i: int| 0 <= i < outs.len() implies #[trigger] outs[i] is Ok by {
                                if i < k {
                                    assert(outs[i] == outs.drop_last()[i]);
                                }
                            }
                        } else {
                            lemma_first_error_grows(outs.drop_last(), first_at, first->Some_0, outs.last());
                            assert(outs.drop_last().push(outs.last()) =~= outs);
                        }
                    }
                },
                Err(e) => {
                    if first.is_none() {
                        proof {
                            first_at = k;
                            assert forall|i: int| 0 <= i < first_at implies #[trigger] outs[i] is Ok by {
                                assert(outs[i] == outs.drop_last()[i]);
                            }
                        }
                        first = Some(e);
                    } else {
                        proof {
                            lemma_first_error_grows(outs.drop_last(), first_at, first->Some_0, outs.last());
                            assert(outs.drop_last().push(outs.last()) =~= outs);
                        }
                    }
                },
            }
        }
        let r = match first {
            Some(e) => Err(e),
            None => Ok(()),
        };
        proof {
            assert(run_of(old(self).tb, self.tb, book_id, recs, r, states, outs));
            assert(frame_applied(old(self).tb, self.tb, book_id, recs, r));
            assert(fm.book_id as u16 == book_id);
            assert(frame_applied(old(self).tb, self.tb, fm.book_id as u16, recs, r));
            assert(frame_outcome(old(self).tb, self.tb, fm, r));
        }
        r
    }
}

/// The outcome of processing the text `msg`: text that is not JSON gives
/// a JSON error, a frame that does not decode gives its decode error, both
/// leaving the registry as it was; a frame that decodes has its records
/// applied in order (`frame_outcome`).
pub open spec fn frame_processed(a: TradeBook, b: TradeBook, msg: Seq<char>, r: Result<(), PoloError>) -> bool {
    match json_tree(msg) {
        None => r matches Err(e) && e is Json && b == a,
        Some(j) => match frame_spec(j) {
            Err(e) => r == Err::<(), PoloError>(e) && b == a,
            Ok(fm) => frame_outcome(a, b, fm, r),
        },
    }
}

/// Some records that say what the frame `fm` says were applied in order,
/// taking the registry from `a` to `b`, with result `r`.
pub open spec fn frame_outcome(a: TradeBook, b: TradeBook, fm: FrameModel, r: Result<(), PoloError>) -> bool {
    exists|recs: Seq<RecordUpdate>|
        #![trigger frame_applied(a, b, fm.book_id as u16, recs, r)]
        models(recs) == fm.records && frame_applied(a, b, fm.book_id as u16, recs, r)
}

/// `outs` holds its first error `e` at `at`.
pub open spec fn first_error_at(outs: Seq<Result<(), PoloError>>, at: int, e: PoloError) -> bool {
    &&& 0 <= at < outs.len()
    &&& outs[at] == Err::<(), PoloError>(e)
    &&& forall|i: int| 0 <= i < at ==> #[trigger] outs[i] is Ok
}

proof fn lemma_first_error_grows(
    outs: Seq<Result<(), PoloError>>,
    at: int,
    e: PoloError,
    next: Result<(), PoloError>,
)
    requires
        first_error_at(outs, at, e),
    ensures
        first_error_at(outs.push(next), at, e),
{
    assert forall|i: int| 0 <= i < at implies #[trigger] outs.push(next)[i] is Ok by {
        assert(outs.push(next)[i] == outs[i]);
    }
}

/// A run of a frame's records from `a` to `b`: `states` are the registry
/// before and after each record, `outs` each record's outcome, and the
/// frame's result is the first error, or success when there is none.
pub open spec fn run_of(
    a: TradeBook,
    b: TradeBook,
    book_id: u16,
    recs: Seq<RecordUpdate>,
    r: Result<(), PoloError>,
    states: Seq<TradeBook>,
    outs: Seq<Result<(), PoloError>>,
) -> bool {
    &&& states.len() == recs.len() + 1
    &&& outs.len() == recs.len()
    &&& states[0] == a
    &&& states.last() == b
    &&& forall|i: int|
        0 <= i < recs.len() ==> #[trigger] record_applied(
            states[i],
            states[i + 1],
            book_id,
            recs[i],
            outs[i],
        )
    &&& match r {
        Ok(()) => forall|i: int| 0 <= i < outs.len() ==> #[trigger] outs[i] is Ok,
        Err(e) => exists|at: int| #[trigger] first_error_at(outs, at, e),
    }
}

/// The records of a frame were applied in order, taking the registry from
/// `a` to `b`, with result `r`.
pub open spec fn frame_applied(
    a: TradeBook,
    b: TradeBook,
    book_id: u16,
    recs: Seq<RecordUpdate>,
    r: Result<(), PoloError>,
) -> bool {
    exists|states: Seq<TradeBook>, outs: Seq<Result<(), PoloError>>|
        #[trigger] run_of(a, b, book_id, recs, r, states, outs)
}

/// The outcome of applying one record of a frame of channel `book_id`:
/// a snapshot installs its book; a level update changes that side of the
/// channel's book and nothing else; a deal is recorded at the front of the
/// channel's history. An unknown channel or an amount above `MAX_UNITS`
/// changes nothing and gives the matching error.
pub open spec fn record_applied(
    before: TradeBook,
    after: TradeBook,
    book_id: u16,
    rec: RecordUpdate,
    r: Result<(), PoloError>,
) -> bool {
    match rec {
        RecordUpdate::Initial(book) => r is Ok && book_added(before, after, book, book_id),
        RecordUpdate::SellTotal(x) => if !before.by_id@.contains_key(book_id) {
            r == Err::<(), PoloError>(PoloError::BookNotInitialized) && after == before
        } else if x.amount > MAX_UNITS {
            r == Err::<(), PoloError>(PoloError::Number(Field::Amount)) && after == before
        } else {
            let i = before.by_id@[book_id] as int;
            &&& r is Ok
            &&& after.by_id@ == before.by_id@
            &&& after.books@.len() == before.books@.len()
            &&& forall|j: int|
                0 <= j < before.books@.len() && j != i ==> #[trigger] after.books@[j] == before.books@[j]
            &&& after.books@[i].book.sell@ == if x.amount == 0 {
                before.books@[i].book.sell@.remove(x.rate@)
            } else {
                before.books@[i].book.sell@.insert(x.rate@, x.amount)
            }
            &&& after.books@[i].book.buy@ == before.books@[i].book.buy@
            &&& after.books@[i].book.pair == before.books@[i].book.pair
            &&& after.books@[i].book.deals.records() == before.books@[i].book.deals.records()
            &&& after.books@[i].trade_series_1s@ == before.books@[i].trade_series_1s@
            &&& after.books@[i].trade_stats_1m == before.books@[i].trade_stats_1m
            &&& match decimal_units(x.rate@) {
                Some(u) => if u > 0 {
                    sell_updated(
                        before.books@[i].stats,
                        after.books@[i].stats,
                        u as u64,
                        x.amount,
                        lookup(before.books@[i].book.sell@, x.rate@),
                    )
                } else {
                    after.books@[i].stats == before.books@[i].stats
                },
                None => after.books@[i].stats == before.books@[i].stats,
            }
        },
        RecordUpdate::BuyTotal(x) => if !before.by_id@.contains_key(book_id) {
            r == Err::<(), PoloError>(PoloError::BookNotInitialized) && after == before
        } else if x.amount > MAX_UNITS {
            r == Err::<(), PoloError>(PoloError::Number(Field::Amount)) && after == before
        } else {
            let i = before.by_id@[book_id] as int;
            &&& r is Ok
            &&& after.by_id@ == before.by_id@
            &&& after.books@.len() == before.books@.len()
            &&& forall|j: int|
                0 <= j < before.books@.len() && j != i ==> #[trigger] after.books@[j] == before.books@[j]
            &&& after.books@[i].book.buy@ == if x.amount == 0 {
                before.books@[i].book.buy@.remove(x.rate@)
            } else {
                before.books@[i].book.buy@.insert(x.rate@, x.amount)
            }
            &&& after.books@[i].book.sell@ == before.books@[i].book.sell@
            &&& after.books@[i].book.pair == before.books@[i].book.pair
            &&& after.books@[i].book.deals.records() == before.books@[i].book.deals.records()
            &&& after.books@[i].trade_series_1s@ == before.books@[i].trade_series_1s@
            &&& after.books@[i].trade_stats_1m == before.books@[i].trade_stats_1m
            &&& match decimal_units(x.rate@) {
                Some(u) => if u > 0 {
                    buy_updated(
                        before.books@[i].stats,
                        after.books@[i].stats,
                        u as u64,
                        x.amount,
                        lookup(before.books@[i].book.buy@, x.rate@),
                    )
                } else {
                    after.books@[i].stats == before.books@[i].stats
                },
                None => after.books@[i].stats == before.books@[i].stats,
            }
        },
        RecordUpdate::Sell(t) => deal_applied(before, after,
            book_id,
            t.id,
            t.rate@,
            -(t.amount as int),
            t.amount as int,
            r,
        ),
        RecordUpdate::Buy(t) => deal_applied(before, after,
            book_id,
            t.id,
            t.rate@,
            t.amount as int,
            t.amount as int,
            r,
        ),
    }
}

/// The outcome of recording a deal of `volume` units, signed `amount`, at
/// the rate text `rate` on channel `book_id`.
pub open spec fn deal_applied(
    a: TradeBook,
    b: TradeBook,
    book_id: u16,
    id: u64,
    rate: Seq<char>,
    amount: int,
    volume: int,
    r: Result<(), PoloError>,
) -> bool {
    if !a.by_id@.contains_key(book_id) {
        r == Err::<(), PoloError>(PoloError::BookNotInitialized) && b == a
    } else if volume > MAX_UNITS {
        r == Err::<(), PoloError>(PoloError::Number(Field::Amount)) && b == a
    } else {
        let i = a.by_id@[book_id] as int;
        &&& b.by_id@ == a.by_id@
        &&& b.books@.len() == a.books@.len()
        &&& forall|j: int| 0 <= j < a.books@.len() && j != i ==> #[trigger] b.books@[j] == a.books@[j]
        &&& b.books@[i].book.sell@ == a.books@[i].book.sell@
        &&& b.books@[i].book.buy@ == a.books@[i].book.buy@
        &&& b.books@[i].book.pair == a.books@[i].book.pair
        &&& b.books@[i].stats == a.books@[i].stats
        &&& b.books@[i].trade_series_1s@ == a.books@[i].trade_series_1s@
        &&& b.books@[i].trade_stats_1m == a.books@[i].trade_stats_1m
        &&& match decimal_units(rate) {
            Some(u) => {
                &&& r is Ok
                &&& b.books@[i].book.deals.records().len() == a.books@[i].book.deals.records().len()
                    + 1
                &&& b.books@[i].book.deals.records().skip(1) == a.books@[i].book.deals.records()
                &&& b.books@[i].book.deals.records()[0].id == id
                &&& b.books@[i].book.deals.records()[0].rate == u
                &&& b.books@[i].book.deals.records()[0].amount == amount
            },
            None => {
                &&& r == Err::<(), PoloError>(PoloError::Number(Field::Rate))
                &&& b.books@[i].book.deals.records() == a.books@[i].book.deals.records()
            },
        }
    }
}

impl Processor for Accountant {
    open spec fn ready(&self) -> bool {
        self.tb.wf()
    }

    open spec fn processed(&self, before: Self, msg: Seq<char>, r: Result<(), PoloError>) -> bool {
        frame_processed(before.tb, self.tb, msg, r)
    }

    fn process_message(&mut self, msg: String) -> (r: Result<(), PoloError>) {
        self.process_frame(msg.as_str())
    }
}

} // verus!
