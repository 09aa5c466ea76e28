//! The registry of books, by channel id and by pair.
use crate::book::{Book, TradePairs};
use crate::stats::{fresh_stats, BookWithStats};
use crate::tradestats::zero_stats;
use std::collections::HashMap;
use vstd::prelude::*;

verus! {

broadcast use vstd::std_specs::hash::group_hash_axioms;

/// The side of a trade.
#[derive(Clone, Copy, Debug, PartialEq, Eq, Structural)]
pub enum TradeOp {
    Sell,
    Buy,
}

/// All books, each pair at most once, with the channel ids that lead to them.
pub struct TradeBook {
    pub books: Vec<BookWithStats>,
    pub by_id: HashMap<u16, usize>,
}

/// The index of the book for `pair`, if any.
pub open spec fn pair_index(books: Seq<BookWithStats>, pair: TradePairs) -> Option<int> {
    if exists|i: int| 0 <= i < books.len() && #[trigger] books[i].book.pair == pair {
        Some(choose|i: int| 0 <= i < books.len() && #[trigger] books[i].book.pair == pair)
    } else {
        None
    }
}

/// `b` is `a` with `book` installed for channel `id`, with fresh statistics
/// and an empty trade window: in place of the book of the same pair if
/// there is one, at the end otherwise; the channel leads to it, and all
/// other books and channels stay.
pub open spec fn book_added(a: TradeBook, b: TradeBook, book: Book, id: u16) -> bool {
    let idx = b.by_id@[id] as int;
    &&& b.by_id@ == a.by_id@.insert(id, idx as usize)
    &&& b.books@[idx].book == book
    &&& fresh_stats(b.books@[idx].stats, book)
    &&& b.books@[idx].trade_series_1s@.len() == 0
    &&& b.books@[idx].trade_stats_1m == zero_stats()
    &&& match pair_index(a.books@, book.pair) {
        Some(i) => idx == i && b.books@ == a.books@.update(i, b.books@[idx]),
        None => idx == a.books@.len() && b.books@ == a.books@.push(b.books@[idx]),
    }
}

impl TradeBook {
    pub open spec fn wf(&self) -> bool {
        &&& forall|i: int| 0 <= i < self.books@.len() ==> #[trigger] self.books@[i].wf()
        &&& forall|i: int, j: int|
            0 <= i < self.books@.len() && 0 <= j < self.books@.len() && i != j
                ==> #[trigger] self.books@[i].book.pair != #[trigger] self.books@[j].book.pair
        &&& forall|id: u16| #[trigger]
            self.by_id@.contains_key(id) ==> self.by_id@[id] < self.books@.len()
    }

    pub fn new() -> (r: TradeBook)
        ensures
            r.wf(),
            r.books@.len() == 0,
            r.by_id@ == Map::<u16, usize>::empty(),
    {
        TradeBook { books: Vec::new(), by_id: HashMap::new() }
    }

    fn find_pair(&self, pair: TradePairs) -> (r: Option<usize>)
        requires
            self.wf(),
        ensures
            match r {
                Some(i) => pair_index(self.books@, pair) == Some(i as int),
                None => pair_index(self.books@, pair) is None,
            },
    {
        let mut i: usize = 0;
        while i < self.books.len()
            invariant
                self.wf(),
                i <= self.books@.len(),
                forall|j: int| 0 <= j < i ==> #[trigger] self.books@[j].book.pair != pair,
            decreases self.books@.len() - i,
        {
            if self.books[i].book.pair == pair {
                proof {
                    assert(self.books@[i as int].book.pair == pair);
                    let c = choose|j: int|
                        0 <= j < self.books@.len() && #[trigger] self.books@[j].book.pair == pair;
                    assert(c == i);
                }
                return Some(i);
            }
            i = i + 1;
        }
        None
    }

    /// Installs a snapshot's book for channel `id`: it replaces the book of
    /// the same pair, if there is one, and is added otherwise.
    pub fn add_book(&mut self, book: Book, id: u16)
        requires
            old(self).wf(),
            book.wf(),
        ensures
            final(self).wf(),
            book_added(*old(self), *final(self), book, id),
    {
        let pair = book.pair;
        let idx: usize;
        match self.find_pair(pair) {
            Some(i) => {
                idx = i;
                self.books.set(i, BookWithStats::new(book));
                proof {
                    assert forall|a: int, b: int|
                        0 <= a < self.books@.len() && 0 <= b < self.books@.len() && a != b
                            implies #[trigger] self.books@[a].book.pair
                        != #[trigger] self.books@[b].book.pair by {
                        assert(self.books@[a].book.pair == old(self).books@[a].book.pair);
                        assert(self.books@[b].book.pair == old(self).books@[b].book.pair);
                    }
                }
            },
            None => {
                self.books.push(BookWithStats::new(book));
                idx = self.books.len() - 1;
                proof {
                    assert forall|a: int, b: int|
                        0 <= a < self.books@.len() && 0 <= b < self.books@.len() && a != b
                            implies #[trigger] self.books@[a].book.pair
                        != #[trigger] self.books@[b].book.pair by {
                        if a == idx {
                            assert(old(self).books@[b].book.pair != pair);
                        } else if b == idx {
                            assert(old(self).books@[a].book.pair != pair);
                        }
                    }
                }
            },
        }
        self.by_id.insert(id, idx);
    }

    /// The book that channel `id` leads to.
    pub fn book_by_id(&mut self, id: u16) -> (r: Option<&mut BookWithStats>)
        requires
            old(self).wf(),
        ensures
            match r {
                Some(b) => {
                    &&& old(self).by_id@.contains_key(id)
                    &&& *b == old(self).books@[old(self).by_id@[id] as int]
                    &&& final(self).books@ == old(self).books@.update(
                        old(self).by_id@[id] as int,
                        *final(b),
                    )
                    &&& final(self).by_id@ == old(self).by_id@
                },
                None => {
                    &&& !old(self).by_id@.contains_key(id)
                    &&& *final(self) == *old(self)
                },
            },
    {
        match self.by_id.get(&id) {
            Some(idx) => {
                let i = *idx;
                Some(&mut self.books[i])
            },
            None => None,
        }
    }
}

} // verus!
