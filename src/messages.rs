//! Wire frames: `[book_id, record_id, [record, ...]]`, each record a tagged
//! array (`"i"` snapshot, `"o"` level update, `"t"` trade).
use crate::book::{pair_named, sane_side, Book, Levels, TradePairs};
use crate::error::{Field, PoloError};
use crate::json::{integer_spec, json_tree, parse, text_eq, units_spec, Json};
use vstd::prelude::*;

verus! {

/// A trade: `["t", tid, dir, rate, amount, unix_seconds]`.
pub struct TradeRecord {
    /// The trade's unix time, which the feed uses as its id.
    pub id: u64,
    pub tid: String,
    pub rate: String,
    /// Volume in units of 10^-8.
    pub amount: u64,
}

/// A level update: `["o", dir, rate, amount]`.
pub struct BookRecord {
    pub rate: String,
    /// Volume in units of 10^-8; zero removes the level.
    pub amount: u64,
}

pub enum RecordUpdate {
    SellTotal(BookRecord),
    BuyTotal(BookRecord),
    Sell(TradeRecord),
    Buy(TradeRecord),
    Initial(Book),
}

pub struct BookUpdate {
    pub book_id: u16,
    pub record_id: u64,
    pub records: Vec<RecordUpdate>,
}

/// What a record says, as mathematical values.
pub enum RecordModel {
    SellTotal(Seq<char>, nat),
    BuyTotal(Seq<char>, nat),
    Sell(nat, Seq<char>, Seq<char>, nat),
    Buy(nat, Seq<char>, Seq<char>, nat),
    Initial(TradePairs, Map<Seq<char>, u64>, Map<Seq<char>, u64>),
}

pub struct FrameModel {
    pub book_id: nat,
    pub record_id: nat,
    pub records: Seq<RecordModel>,
}

impl RecordUpdate {
    pub open spec fn model(&self) -> RecordModel {
        match self {
            RecordUpdate::SellTotal(b) => RecordModel::SellTotal(b.rate@, b.amount as nat),
            RecordUpdate::BuyTotal(b) => RecordModel::BuyTotal(b.rate@, b.amount as nat),
            RecordUpdate::Sell(t) => RecordModel::Sell(t.id as nat, t.tid@, t.rate@, t.amount as nat),
            RecordUpdate::Buy(t) => RecordModel::Buy(t.id as nat, t.tid@, t.rate@, t.amount as nat),
            RecordUpdate::Initial(b) => RecordModel::Initial(b.pair, b.sell@, b.buy@),
        }
    }

    /// A snapshot's book is well formed and has no deals yet.
    pub open spec fn wf(&self) -> bool {
        self matches RecordUpdate::Initial(b) ==> b.wf() && b.deals.records().len() == 0
    }
}

/// What a sequence of records says.
pub open spec fn models(recs: Seq<RecordUpdate>) -> Seq<RecordModel> {
    recs.map_values(|r: RecordUpdate| r.model())
}

impl BookUpdate {
    pub open spec fn model(&self) -> FrameModel {
        FrameModel {
            book_id: self.book_id as nat,
            record_id: self.record_id as nat,
            records: models(self.records@),
        }
    }

    pub open spec fn wf(&self) -> bool {
        forall|i: int| 0 <= i < self.records@.len() ==> #[trigger] self.records@[i].wf()
    }
}

/// The `i`-th item of an array, `null` past its end.
pub open spec fn item(a: Seq<Json>, i: int) -> Json {
    if 0 <= i < a.len() {
        a[i]
    } else {
        Json::Null
    }
}

pub open spec fn u64_of(j: Json) -> Option<nat> {
    match integer_spec(j) {
        Some(v) => if v <= u64::MAX {
            Some(v)
        } else {
            None
        },
        None => None,
    }
}

pub open spec fn u16_of(j: Json) -> Option<nat> {
    match integer_spec(j) {
        Some(v) => if v <= u16::MAX {
            Some(v)
        } else {
            None
        },
        None => None,
    }
}

/// The value of the first member named `key`.
pub open spec fn member(es: Seq<(String, Json)>, key: Seq<char>) -> Option<Json>
    decreases es.len(),
{
    if es.len() == 0 {
        None
    } else if es[0].0@ == key {
        Some(es[0].1)
    } else {
        member(es.skip(1), key)
    }
}

/// The levels of a snapshot side, read in order: a zero amount removes
/// the rate, any other sets it.
pub open spec fn levels_from(es: Seq<(String, Json)>) -> Result<Map<Seq<char>, u64>, PoloError>
    decreases es.len(),
{
    if es.len() == 0 {
        Ok(Map::empty())
    } else {
        match levels_from(es.drop_last()) {
            Err(e) => Err(e),
            Ok(m) => match units_spec(es.last().1) {
                None => Err(PoloError::Number(Field::Amount)),
                Some(a) => if a == 0 {
                    Ok(m.remove(es.last().0@))
                } else {
                    Ok(m.insert(es.last().0@, a as u64))
                },
            },
        }
    }
}

pub open spec fn levels_spec(j: Json) -> Result<Map<Seq<char>, u64>, PoloError> {
    match j {
        Json::Object(es) => levels_from(es@),
        _ => Err(PoloError::Shape(Field::Level)),
    }
}

/// A snapshot: `{"currencyPair": name, "orderBook": [sell, buy]}`.
pub open spec fn snapshot_spec(j: Json) -> Result<RecordModel, PoloError> {
    match j {
        Json::Object(es) => match member(es@, "orderBook"@) {
            Some(Json::Array(ob)) => if ob@.len() != 2 {
                Err(PoloError::Shape(Field::OrderBook))
            } else {
                match member(es@, "currencyPair"@) {
                    Some(Json::Text(name)) => match pair_named(name@) {
                        None => Err(PoloError::UnknownPair),
                        Some(pair) => match levels_spec(ob@[0]) {
                            Err(e) => Err(e),
                            Ok(sell) => match levels_spec(ob@[1]) {
                                Err(e) => Err(e),
                                Ok(buy) => Ok(RecordModel::Initial(pair, sell, buy)),
                            },
                        },
                    },
                    _ => Err(PoloError::Shape(Field::Pair)),
                }
            },
            _ => Err(PoloError::Shape(Field::OrderBook)),
        },
        _ => Err(PoloError::Shape(Field::Book)),
    }
}

/// `[_, _, rate, amount]`: the rate text and the amount in units.
pub open spec fn book_record_spec(a: Seq<Json>) -> Result<(Seq<char>, nat), PoloError> {
    if a.len() != 4 {
        Err(PoloError::Shape(Field::Record))
    } else {
        match a[2] {
            Json::Text(rate) => match units_spec(a[3]) {
                None => Err(PoloError::Number(Field::Amount)),
                Some(amount) => Ok((rate@, amount)),
            },
            _ => Err(PoloError::Shape(Field::Rate)),
        }
    }
}

/// `[_, tid, _, rate, amount, unix_seconds]`: id, trade id, rate, amount.
pub open spec fn trade_record_spec(a: Seq<Json>) -> Result<
    (nat, Seq<char>, Seq<char>, nat),
    PoloError,
> {
    if a.len() != 6 {
        Err(PoloError::Shape(Field::Record))
    } else {
        match u64_of(a[5]) {
            None => Err(PoloError::Number(Field::Time)),
            Some(id) => match a[1] {
                Json::Text(tid) => match a[3] {
                    Json::Text(rate) => match units_spec(a[4]) {
                        None => Err(PoloError::Number(Field::Amount)),
                        Some(amount) => Ok((id, tid@, rate@, amount)),
                    },
                    _ => Err(PoloError::Shape(Field::Rate)),
                },
                _ => Err(PoloError::Shape(Field::TradeId)),
            },
        }
    }
}

/// `["o", dir, rate, amount]`.
pub open spec fn order_spec(a: Seq<Json>) -> Result<RecordModel, PoloError> {
    match u64_of(item(a, 1)) {
        None => Err(PoloError::Number(Field::Direction)),
        Some(dir) => match book_record_spec(a) {
            Err(e) => Err(e),
            Ok((rate, amount)) => if dir == 0 {
                Ok(RecordModel::SellTotal(rate, amount))
            } else if dir == 1 {
                Ok(RecordModel::BuyTotal(rate, amount))
            } else {
                Err(PoloError::UnknownDirection)
            },
        },
    }
}

/// `["t", tid, dir, rate, amount, unix_seconds]`.
pub open spec fn trade_spec(a: Seq<Json>) -> Result<RecordModel, PoloError> {
    match u64_of(item(a, 2)) {
        None => Err(PoloError::Number(Field::Direction)),
        Some(dir) => match trade_record_spec(a) {
            Err(e) => Err(e),
            Ok((id, tid, rate, amount)) => if dir == 0 {
                Ok(RecordModel::Sell(id, tid, rate, amount))
            } else if dir == 1 {
                Ok(RecordModel::Buy(id, tid, rate, amount))
            } else {
                Err(PoloError::UnknownDirection)
            },
        },
    }
}

pub open spec fn record_spec(j: Json) -> Result<RecordModel, PoloError> {
    match j {
        Json::Array(a) => if a@.len() < 2 {
            Err(PoloError::Shape(Field::Record))
        } else {
            match a@[0] {
                Json::Text(tag) => if tag@ == "o"@ {
                    order_spec(a@)
                } else if tag@ == "t"@ {
                    trade_spec(a@)
                } else if tag@ == "i"@ {
                    snapshot_spec(a@[1])
                } else {
                    Err(PoloError::UnknownTag)
                },
                _ => Err(PoloError::UnknownTag),
            }
        },
        _ => Err(PoloError::Shape(Field::Record)),
    }
}

/// The records of a frame, read in order; the first bad one fails them all.
pub open spec fn records_spec(rs: Seq<Json>) -> Result<Seq<RecordModel>, PoloError>
    decreases rs.len(),
{
    if rs.len() == 0 {
        Ok(Seq::empty())
    } else {
        match records_spec(rs.drop_last()) {
            Err(e) => Err(e),
            Ok(ms) => match record_spec(rs.last()) {
                Err(e) => Err(e),
                Ok(m) => Ok(ms.push(m)),
            },
        }
    }
}

pub open spec fn frame_spec(j: Json) -> Result<FrameModel, PoloError> {
    match j {
        Json::Array(a) => if a@.len() != 3 {
            Err(PoloError::Shape(Field::Frame))
        } else {
            match a@[2] {
                Json::Array(rs) => match records_spec(rs@) {
                    Err(e) => Err(e),
                    Ok(records) => match u16_of(a@[0]) {
                        None => Err(PoloError::Number(Field::BookId)),
                        Some(book_id) => match u64_of(a@[1]) {
                            None => Err(PoloError::Number(Field::RecordId)),
                            Some(record_id) => Ok(FrameModel { book_id, record_id, records }),
                        },
                    },
                },
                _ => Err(PoloError::Shape(Field::Records)),
            }
        },
        _ => Err(PoloError::Shape(Field::Frame)),
    }
}

/// The first member named `key`.
fn find_member<'a>(es: &'a Vec<(String, Json)>, key: &str) -> (r: Option<&'a Json>)
    ensures
        match r {
            Some(v) => member(es@, key@) == Some(*v),
            None => member(es@, key@) is None,
        },
{
    let mut i: usize = 0;
    assert(es@.skip(0) =~= es@);
    while i < es.len()
        invariant
            i <= es@.len(),
            member(es@, key@) == member(es@.skip(i as int), key@),
        decreases es@.len() - i,
    {
        assert(es@.skip(i as int)[0] == es@[i as int]);
        if text_eq(es[i].0.as_str(), key) {
            return Some(&es[i].1);
        }
        assert(es@.skip(i as int).skip(1) =~= es@.skip(i as int + 1));
        i = i + 1;
    }
    None
}

fn get_item(a: &Vec<Json>, i: usize) -> (r: Option<&Json>)
    ensures
        match r {
            Some(v) => i < a@.len() && *v == a@[i as int] && item(a@, i as int) == *v,
            None => i >= a@.len() && item(a@, i as int) == Json::Null,
        },
{
    if i < a.len() {
        Some(&a[i])
    } else {
        None
    }
}

fn u64_item(a: &Vec<Json>, i: usize, field: Field) -> (r: Result<u64, PoloError>)
    ensures
        match r {
            Ok(v) => u64_of(item(a@, i as int)) == Some(v as nat),
            Err(e) => u64_of(item(a@, i as int)) is None && e == PoloError::Number(field),
        },
{
    match get_item(a, i) {
        Some(v) => v.expect_u64(field),
        None => Err(PoloError::Number(field)),
    }
}

impl Levels {
    /// The levels of one snapshot side.
    pub fn from_json(v: &Json) -> (r: Result<Levels, PoloError>)
        ensures
            match r {
                Ok(l) => l.wf() && sane_side(l@) && levels_spec(*v) == Ok::<
                    Map<Seq<char>, u64>,
                    PoloError,
                >(l@),
                Err(e) => levels_spec(*v) == Err::<Map<Seq<char>, u64>, PoloError>(e),
            },
    {
        let es = match v {
            Json::Object(es) => es,
            _ => {
                return Err(PoloError::Shape(Field::Level));
            },
        };
        let mut levels = Levels::new();
        let mut i: usize = 0;
        assert(es@.take(0) =~= Seq::<(String, Json)>::empty());
        while i < es.len()
            invariant
                i <= es@.len(),
                levels.wf(),
                sane_side(levels@),
                levels_spec(*v) == levels_from(es@),
                levels_from(es@.take(i as int)) == Ok::<Map<Seq<char>, u64>, PoloError>(levels@),
            decreases es@.len() - i,
        {
            let amount = match es[i].1.expect_units(Field::Amount) {
                Ok(a) => a,
                Err(e) => {
                    proof {
                        lemma_levels_from_err(es@, i as int);
                    }
                    return Err(e);
                },
            };
            assert(es@.take(i as int + 1).drop_last() =~= es@.take(i as int));
            if amount == 0 {
                levels.remove(es[i].0.as_str());
            } else {
                levels.insert(es[i].0.clone(), amount);
            }
            i = i + 1;
        }
        assert(es@.take(es@.len() as int) =~= es@);
        Ok(levels)
    }
}

/// A failing level stays fatal as the rest of the side is read.
proof fn lemma_levels_from_err(es: Seq<(String, Json)>, i: int)
    requires
        0 <= i < es.len(),
        levels_from(es.take(i)) is Ok,
        units_spec(es[i].1) is None,
    ensures
        levels_from(es) == Err::<Map<Seq<char>, u64>, PoloError>(PoloError::Number(Field::Amount)),
    decreases es.len() - i,
{
    if i + 1 == es.len() {
        assert(es.drop_last() =~= es.take(i));
    } else {
        assert(es.drop_last().take(i) =~= es.take(i));
        lemma_levels_from_err(es.drop_last(), i);
    }
}

impl Book {
    /// A book from a snapshot object.
    pub fn from_json(v: &Json) -> (r: Result<Book, PoloError>)
        ensures
            match r {
                Ok(b) => b.wf() && b.deals.records().len() == 0 && snapshot_spec(*v) == Ok::<
                    RecordModel,
                    PoloError,
                >(RecordModel::Initial(b.pair, b.sell@, b.buy@)),
                Err(e) => snapshot_spec(*v) == Err::<RecordModel, PoloError>(e),
            },
    {
        proof {
            reveal_strlit("orderBook");
            reveal_strlit("currencyPair");
        }
        let es = match v {
            Json::Object(es) => es,
            _ => {
                return Err(PoloError::Shape(Field::Book));
            },
        };
        let ob = match find_member(es, "orderBook") {
            Some(Json::Array(ob)) => ob,
            _ => {
                return Err(PoloError::Shape(Field::OrderBook));
            },
        };
        if ob.len() != 2 {
            return Err(PoloError::Shape(Field::OrderBook));
        }
        let pair = match find_member(es, "currencyPair") {
            Some(Json::Text(name)) => match TradePairs::from_name(name.as_str()) {
                Some(p) => p,
                None => {
                    return Err(PoloError::UnknownPair);
                },
            },
            _ => {
                return Err(PoloError::Shape(Field::Pair));
            },
        };
        let sell = Levels::from_json(&ob[0])?;
        let buy = Levels::from_json(&ob[1])?;
        let mut book = Book::new(pair);
        book.sell = sell;
        book.buy = buy;
        Ok(book)
    }
}

impl BookRecord {
    /// The rate and amount of a level update.
    pub fn from_json(a: &Vec<Json>) -> (r: Result<BookRecord, PoloError>)
        ensures
            match r {
                Ok(b) => book_record_spec(a@) == Ok::<(Seq<char>, nat), PoloError>(
                    (b.rate@, b.amount as nat),
                ),
                Err(e) => book_record_spec(a@) == Err::<(Seq<char>, nat), PoloError>(e),
            },
    {
        if a.len() != 4 {
            return Err(PoloError::Shape(Field::Record));
        }
        let rate = a[2].expect_text(Field::Rate)?;
        let amount = a[3].expect_units(Field::Amount)?;
        Ok(BookRecord { rate, amount })
    }
}

impl TradeRecord {
    /// The id, trade id, rate and amount of a trade.
    pub fn from_json(a: &Vec<Json>) -> (r: Result<TradeRecord, PoloError>)
        ensures
            match r {
                Ok(t) => trade_record_spec(a@) == Ok::<(nat, Seq<char>, Seq<char>, nat), PoloError>(
                    (t.id as nat, t.tid@, t.rate@, t.amount as nat),
                ),
                Err(e) => trade_record_spec(a@) == Err::<(nat, Seq<char>, Seq<char>, nat), PoloError>(
                    e,
                ),
            },
    {
        if a.len() != 6 {
            return Err(PoloError::Shape(Field::Record));
        }
        let id = a[5].expect_u64(Field::Time)?;
        let tid = a[1].expect_text(Field::TradeId)?;
        let rate = a[3].expect_text(Field::Rate)?;
        let amount = a[4].expect_units(Field::Amount)?;
        Ok(TradeRecord { id, tid, rate, amount })
    }
}

impl RecordUpdate {
    /// Reads one tagged record.
    pub fn from_json(v: &Json) -> (r: Result<RecordUpdate, PoloError>)
        ensures
            match r {
                Ok(u) => u.wf() && record_spec(*v) == Ok::<RecordModel, PoloError>(u.model()),
                Err(e) => record_spec(*v) == Err::<RecordModel, PoloError>(e),
            },
    {
        let a = match v {
            Json::Array(a) => a,
            _ => {
                return Err(PoloError::Shape(Field::Record));
            },
        };
        if a.len() < 2 {
            return Err(PoloError::Shape(Field::Record));
        }
        let tag = match &a[0] {
            Json::Text(t) => t,
            _ => {
                return Err(PoloError::UnknownTag);
            },
        };
        if text_eq(tag.as_str(), "o") {
            let dir = u64_item(a, 1, Field::Direction)?;
            let record = BookRecord::from_json(a)?;
            if dir == 0 {
                Ok(RecordUpdate::SellTotal(record))
            } else if dir == 1 {
                Ok(RecordUpdate::BuyTotal(record))
            } else {
                Err(PoloError::UnknownDirection)
            }
        } else if text_eq(tag.as_str(), "t") {
            let dir = u64_item(a, 2, Field::Direction)?;
            let record = TradeRecord::from_json(a)?;
            if dir == 0 {
                Ok(RecordUpdate::Sell(record))
            } else if dir == 1 {
                Ok(RecordUpdate::Buy(record))
            } else {
                Err(PoloError::UnknownDirection)
            }
        } else if text_eq(tag.as_str(), "i") {
            let book = Book::from_json(&a[1])?;
            Ok(RecordUpdate::Initial(book))
        } else {
            Err(PoloError::UnknownTag)
        }
    }
}

/// A failing record stays fatal as the rest of the frame is read.
proof fn lemma_records_err(rs: Seq<Json>, i: int)
    requires
        0 <= i < rs.len(),
        records_spec(rs.take(i)) is Ok,
        record_spec(rs[i]) is Err,
    ensures
        records_spec(rs) == Err::<Seq<RecordModel>, PoloError>(record_spec(rs[i])->Err_0),
    decreases rs.len() - i,
{
    if i + 1 == rs.len() {
        assert(rs.drop_last() =~= rs.take(i));
    } else {
        assert(rs.drop_last().take(i) =~= rs.take(i));
        lemma_records_err(rs.drop_last(), i);
    }
}

impl BookUpdate {
    /// Reads a frame from its JSON tree.
    pub fn from_json(v: &Json) -> (r: Result<BookUpdate, PoloError>)
        ensures
            match r {
                Ok(u) => u.wf() && frame_spec(*v) == Ok::<FrameModel, PoloError>(u.model()),
                Err(e) => frame_spec(*v) == Err::<FrameModel, PoloError>(e),
            },
    {
        let a = match v {
            Json::Array(a) => a,
            _ => {
                return Err(PoloError::Shape(Field::Frame));
            },
        };
        if a.len() != 3 {
            return Err(PoloError::Shape(Field::Frame));
        }
        let rs = match &a[2] {
            Json::Array(rs) => rs,
            _ => {
                return Err(PoloError::Shape(Field::Records));
            },
        };
        let mut records: Vec<RecordUpdate> = Vec::new();
        let mut i: usize = 0;
        assert(rs@.take(0) =~= Seq::<Json>::empty());
        assert(models(records@) =~= Seq::<RecordModel>::empty());
        while i < rs.len()
            invariant
                i <= rs@.len(),
                a@.len() == 3,
                frame_spec(*v) == (match records_spec(rs@) {
                    Err(e) => Err(e),
                    Ok(records) => match u16_of(a@[0]) {
                        None => Err(PoloError::Number(Field::BookId)),
                        Some(book_id) => match u64_of(a@[1]) {
                            None => Err(PoloError::Number(Field::RecordId)),
                            Some(record_id) => Ok(FrameModel { book_id, record_id, records }),
                        },
                    },
                }),
                records@.len() == i,
                forall|j: int| 0 <= j < i ==> #[trigger] records@[j].wf(),
                records_spec(rs@.take(i as int)) == Ok::<Seq<RecordModel>, PoloError>(
                    models(records@),
                ),
            decreases rs@.len() - i,
        {
            match RecordUpdate::from_json(&rs[i]) {
                Ok(u) => {
                    let ghost before = records@;
                    records.push(u);
                    proof {
                        assert(rs@.take(i as int + 1).drop_last() =~= rs@.take(i as int));
                        assert(models(records@) =~= models(before).push(u.model()));
                    }
                },
                Err(e) => {
                    proof {
                        lemma_records_err(rs@, i as int);
                    }
                    return Err(e);
                },
            }
            i = i + 1;
        }
        assert(rs@.take(rs@.len() as int) =~= rs@);
        let book_id = a[0].expect_u16(Field::BookId)?;
        let record_id = a[1].expect_u64(Field::RecordId)?;
        let u = BookUpdate { book_id, record_id, records };
        Ok(u)
    }

    /// Reads a frame from its text.
    pub fn parse_frame(text: &str) -> (r: Result<BookUpdate, PoloError>)
        ensures
            match json_tree(text@) {
                None => r matches Err(e) && e is Json,
                Some(j) => match r {
                    Ok(u) => u.wf() && frame_spec(j) == Ok::<FrameModel, PoloError>(u.model()),
                    Err(e) => frame_spec(j) == Err::<FrameModel, PoloError>(e),
                },
            },
    {
        let v = parse(text)?;
        BookUpdate::from_json(&v)
    }
}

impl std::str::FromStr for BookUpdate {
    type Err = PoloError;

    fn from_str(text: &str) -> Result<BookUpdate, PoloError> {
        BookUpdate::parse_frame(text)
    }
}

/// A snapshot side reads the same whether its amounts are JSON numbers
/// or decimal texts: two sides with the same rates, in the same order, and
/// amounts that denote the same units give the same levels.
pub proof fn law_amount_form_irrelevant(a: Seq<(String, Json)>, b: Seq<(String, Json)>)
    requires
        a.len() == b.len(),
        forall|i: int| 0 <= i < a.len() ==> #[trigger] a[i].0@ == b[i].0@,
        forall|i: int| 0 <= i < a.len() ==> #[trigger] units_spec(a[i].1) == units_spec(b[i].1),
    ensures
        levels_from(a) == levels_from(b),
    decreases a.len(),
{
    if a.len() > 0 {
        let a0 = a.drop_last();
        let b0 = b.drop_last();
        assert forall|i: int| 0 <= i < a0.len() implies #[trigger] a0[i].0@ == b0[i].0@ by {
            assert(a0[i] == a[i] && b0[i] == b[i]);
        }
        assert forall|i: int| 0 <= i < a0.len() implies #[trigger] units_spec(a0[i].1) == units_spec(
            b0[i].1,
        ) by {
            assert(a0[i] == a[i] && b0[i] == b[i]);
        }
        law_amount_form_irrelevant(a0, b0);
        assert(a.last().0@ == b.last().0@);
        assert(units_spec(a.last().1) == units_spec(b.last().1));
    }
}

/// Decoded snapshot sides never hold a zero volume.
pub proof fn law_snapshot_levels_nonzero(es: Seq<(String, Json)>)
    ensures
        levels_from(es) matches Ok(m) ==> sane_side(m),
    decreases es.len(),
{
    if es.len() > 0 {
        law_snapshot_levels_nonzero(es.drop_last());
    }
}

} // verus!
