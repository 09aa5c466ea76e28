//! The library's error type.
use vstd::prelude::*;

verus! {

#[verifier::external_type_specification]
#[verifier::external_body]
pub struct ExJsonError(json::Error);

/// A field of a wire frame, named in decode errors.
#[derive(Clone, Copy, Debug, PartialEq, Eq, Structural)]
pub enum Field {
    Frame,
    BookId,
    RecordId,
    Records,
    Record,
    Tag,
    Direction,
    Rate,
    Amount,
    TradeId,
    Time,
    Book,
    Pair,
    OrderBook,
    Level,
}

impl Field {
    /// The field's name as it appears in messages.
    pub fn name(&self) -> (r: &'static str) {
        match self {
            Field::Frame => "frame",
            Field::BookId => "book id",
            Field::RecordId => "record id",
            Field::Records => "records",
            Field::Record => "record",
            Field::Tag => "record tag",
            Field::Direction => "direction",
            Field::Rate => "rate",
            Field::Amount => "amount",
            Field::TradeId => "trade id",
            Field::Time => "trade time",
            Field::Book => "initial book",
            Field::Pair => "currency pair",
            Field::OrderBook => "order book",
            Field::Level => "order book level",
        }
    }
}

#[derive(Debug)]
pub enum PoloError {
    /// The frame is not JSON text.
    Json(json::Error),
    /// A value has the wrong JSON kind or the wrong number of items.
    Shape(Field),
    /// A numeric value cannot be read as the number the field needs.
    Number(Field),
    /// A currency pair that the library does not know.
    UnknownPair,
    /// A direction code other than 0 (sell) and 1 (buy).
    UnknownDirection,
    /// A record tag other than "i", "o" and "t".
    UnknownTag,
    /// An update for a book id that no snapshot has introduced.
    BookNotInitialized,
    /// Data that does not fit what is expected, with a description.
    Type(String),
    /// The channel that delivers frames was closed.
    Receive,
}

impl PoloError {
    pub fn wrong_data(msg: String) -> (r: PoloError)
        ensures
            r matches PoloError::Type(m) && m@ == msg@,
    {
        PoloError::Type(msg)
    }
}

} // verus!
