//! A flat order-book model: one list of records, both sides, sorted by rate.
use vstd::prelude::*;

verus! {

#[derive(Clone, Copy, Debug, PartialEq, Eq, Structural)]
pub enum TradePairs {
    BtcEth,
    BtcBch,
}

#[derive(Clone, Copy, Debug, PartialEq, Eq, Structural)]
pub enum OrderType {
    Ask,
    Bid,
}

pub struct Book {
    pub pairs: TradePairs,
    pub records: Vec<Record>,
}

/// An order, grouped by price; rate and amount in units of 10^-8.
#[derive(Clone, Copy, Debug, PartialEq, Eq, Structural)]
pub struct Record {
    pub kind: OrderType,
    pub rate: u64,
    pub amount: u64,
}

} // verus!
