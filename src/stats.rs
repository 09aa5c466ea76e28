//! Sorted projections of a book's two sides and the statistics derived
//! from them, kept up to date as the book changes.
use crate::book::{Book, BookAccounting, Deal, Level, Levels, lookup};
use crate::clock::{now, Timespec};
use crate::decimal::{decimal_units, parse_units, MAX_UNITS};
use crate::error::PoloError;
use crate::tradestats::{add_spec, sub_spec, TradeStats};
use std::collections::VecDeque;
use vstd::prelude::*;

verus! {

/// Volume resting at a rate, both in units of 10^-8.
#[derive(Clone, Copy, Debug, PartialEq, Eq, Structural)]
pub struct Record {
    pub rate: u64,
    pub amount: u64,
}

/// Rates never fall from front to back.
pub open spec fn ascending(s: Seq<Record>) -> bool {
    forall|i: int, j: int| 0 <= i <= j < s.len() ==> #[trigger] s[i].rate <= #[trigger] s[j].rate
}

/// Rates never rise from front to back.
pub open spec fn descending(s: Seq<Record>) -> bool {
    forall|i: int, j: int| 0 <= i <= j < s.len() ==> #[trigger] s[i].rate >= #[trigger] s[j].rate
}

pub open spec fn sum_amounts(s: Seq<Record>) -> int
    decreases s.len(),
{
    if s.len() == 0 {
        0
    } else {
        sum_amounts(s.drop_last()) + s.last().amount
    }
}

/// The rate of the first record at which the running volume, times
/// `divisor`, exceeds `total`; 0 if none does. `acc` is the volume before `s`.
pub open spec fn depth_from(s: Seq<Record>, acc: int, total: int, divisor: int) -> u64
    decreases s.len(),
{
    if s.len() == 0 {
        0
    } else if divisor * (acc + s[0].amount) > total {
        s[0].rate
    } else {
        depth_from(s.skip(1), acc + s[0].amount, total, divisor)
    }
}

/// The rate at which the running volume first exceeds `total / divisor`.
pub open spec fn depth_rate(s: Seq<Record>, total: int, divisor: int) -> u64 {
    depth_from(s, 0, total, divisor)
}

/// The rate of the first record, or 0 when there is none.
pub open spec fn front_rate(s: Seq<Record>) -> u64 {
    if s.len() > 0 {
        s[0].rate
    } else {
        0
    }
}

/// The first index whose rate is at least `rate` (or the length).
pub open spec fn first_at_least(s: Seq<Record>, rate: u64) -> int
    decreases s.len(),
{
    if s.len() == 0 || s[0].rate >= rate {
        0
    } else {
        1 + first_at_least(s.skip(1), rate)
    }
}

/// The first index whose rate is at most `rate` (or the length).
pub open spec fn first_at_most(s: Seq<Record>, rate: u64) -> int
    decreases s.len(),
{
    if s.len() == 0 || s[0].rate <= rate {
        0
    } else {
        1 + first_at_most(s.skip(1), rate)
    }
}

/// The side after setting `amount` at `rate`, where `p` is the place
/// where `rate` is or belongs: zero removes the record, anything else
/// overwrites or inserts it.
pub open spec fn apply_level(s: Seq<Record>, p: int, rate: u64, amount: u64) -> Seq<Record> {
    let found = p < s.len() && s[p].rate == rate;
    if amount == 0 {
        if found {
            s.remove(p)
        } else {
            s
        }
    } else if found {
        s.update(p, Record { rate, amount })
    } else {
        s.insert(p, Record { rate, amount })
    }
}

pub open spec fn clamp_i128(x: int) -> i128 {
    if x > i128::MAX {
        i128::MAX
    } else if x < i128::MIN {
        i128::MIN
    } else {
        x as i128
    }
}

proof fn lemma_first_at_least(s: Seq<Record>, rate: u64, p: int)
    requires
        0 <= p <= s.len(),
        forall|i: int| 0 <= i < p ==> #[trigger] s[i].rate < rate,
        p < s.len() ==> s[p].rate >= rate,
    ensures
        first_at_least(s, rate) == p,
    decreases s.len(),
{
    if s.len() > 0 && p > 0 {
        assert forall|i: int| 0 <= i < p - 1 implies #[trigger] s.skip(1)[i].rate < rate by {
            assert(s.skip(1)[i] == s[i + 1]);
        }
        lemma_first_at_least(s.skip(1), rate, p - 1);
    }
}

proof fn lemma_first_at_most(s: Seq<Record>, rate: u64, p: int)
    requires
        0 <= p <= s.len(),
        forall|i: int| 0 <= i < p ==> #[trigger] s[i].rate > rate,
        p < s.len() ==> s[p].rate <= rate,
    ensures
        first_at_most(s, rate) == p,
    decreases s.len(),
{
    if s.len() > 0 && p > 0 {
        assert forall|i: int| 0 <= i < p - 1 implies #[trigger] s.skip(1)[i].rate > rate by {
            assert(s.skip(1)[i] == s[i + 1]);
        }
        lemma_first_at_most(s.skip(1), rate, p - 1);
    }
}

/// Where `rate` is or belongs in an ascending side.
fn search_ascending(v: &Vec<Record>, rate: u64) -> (p: usize)
    requires
        ascending(v@),
    ensures
        p == first_at_least(v@, rate),
        p <= v@.len(),
        forall|i: int| 0 <= i < p ==> #[trigger] v@[i].rate < rate,
        forall|i: int| p <= i < v@.len() ==> #[trigger] v@[i].rate >= rate,
{
    let mut lo: usize = 0;
    let mut hi: usize = v.len();
    while lo < hi
        invariant
            0 <= lo <= hi <= v@.len(),
            ascending(v@),
            forall|i: int| 0 <= i < lo ==> #[trigger] v@[i].rate < rate,
            forall|i: int| hi <= i < v@.len() ==> #[trigger] v@[i].rate >= rate,
        decreases hi - lo,
    {
        let mid = lo + (hi - lo) / 2;
        if v[mid].rate < rate {
            lo = mid + 1;
        } else {
            hi = mid;
        }
    }
    proof {
        lemma_first_at_least(v@, rate, lo as int);
    }
    lo
}

/// Where `rate` is or belongs in a descending side.
fn search_descending(v: &Vec<Record>, rate: u64) -> (p: usize)
    requires
        descending(v@),
    ensures
        p == first_at_most(v@, rate),
        p <= v@.len(),
        forall|i: int| 0 <= i < p ==> #[trigger] v@[i].rate > rate,
        forall|i: int| p <= i < v@.len() ==> #[trigger] v@[i].rate <= rate,
{
    let mut lo: usize = 0;
    let mut hi: usize = v.len();
    while lo < hi
        invariant
            0 <= lo <= hi <= v@.len(),
            descending(v@),
            forall|i: int| 0 <= i < lo ==> #[trigger] v@[i].rate > rate,
            forall|i: int| hi <= i < v@.len() ==> #[trigger] v@[i].rate <= rate,
        decreases hi - lo,
    {
        let mid = lo + (hi - lo) / 2;
        if v[mid].rate > rate {
            lo = mid + 1;
        } else {
            hi = mid;
        }
    }
    proof {
        lemma_first_at_most(v@, rate, lo as int);
    }
    lo
}

proof fn lemma_sum_bound(s: Seq<Record>)
    requires
        forall|i: int| 0 <= i < s.len() ==> #[trigger] s[i].amount <= MAX_UNITS,
    ensures
        0 <= sum_amounts(s) <= s.len() * MAX_UNITS,
    decreases s.len(),
{
    if s.len() > 0 {
        lemma_sum_bound(s.drop_last());
        assert(sum_amounts(s) <= s.len() * MAX_UNITS) by (nonlinear_arith)
            requires
                sum_amounts(s) == sum_amounts(s.drop_last()) + s.last().amount,
                sum_amounts(s.drop_last()) <= (s.len() - 1) * MAX_UNITS,
                s.last().amount <= MAX_UNITS,
        ;
    }
}

/// The rate at which the running volume of `v`, from its front, first
/// exceeds `total / divisor`; 0 if it never does.
fn rate_by_amount(v: &Vec<Record>, total: i128, divisor: u128) -> (r: u64)
    requires
        divisor > 0,
    ensures
        r == depth_rate(v@, total as int, divisor as int),
{
    let mut acc: u128 = 0;
    let mut i: usize = 0;
    let ghost s = v@;
    assert(s.skip(0) =~= s);
    while i < v.len()
        invariant
            i <= s.len(),
            s == v@,
            divisor > 0,
            acc <= i * u64::MAX,
            depth_rate(s, total as int, divisor as int) == depth_from(
                s.skip(i as int),
                acc as int,
                total as int,
                divisor as int,
            ),
        decreases s.len() - i,
    {
        let a = v[i].amount;
        assert(acc + a <= (i + 1) * u64::MAX) by (nonlinear_arith)
            requires
                acc <= i * u64::MAX,
                a <= u64::MAX,
        ;
        assert((i + 1) * u64::MAX <= u128::MAX) by (nonlinear_arith)
            requires
                i < s.len(),
                s.len() <= usize::MAX,
        ;
        let next = acc + a as u128;
        assert(s.skip(i as int)[0] == s[i as int]);
        let exceeds = if total < 0 {
            assert(divisor * next >= 0) by (nonlinear_arith)
                requires
                    divisor > 0,
            ;
            true
        } else {
            let t = total as u128;
            assert((divisor * next > t) == (next > t / divisor)) by (nonlinear_arith)
                requires
                    divisor > 0,
            ;
            next > t / divisor
        };
        if exceeds {
            return v[i].rate;
        }
        assert(s.skip(i as int).skip(1) =~= s.skip(i as int + 1));
        acc = next;
        i = i + 1;
    }
    0
}

/// Facts about `first_at_least` on an ascending side.
proof fn lemma_first_at_least_props(s: Seq<Record>, rate: u64)
    requires
        ascending(s),
    ensures
        0 <= first_at_least(s, rate) <= s.len(),
        forall|i: int| 0 <= i < first_at_least(s, rate) ==> #[trigger] s[i].rate < rate,
        forall|i: int| first_at_least(s, rate) <= i < s.len() ==> #[trigger] s[i].rate >= rate,
    decreases s.len(),
{
    if s.len() > 0 && s[0].rate < rate {
        let t = s.skip(1);
        assert forall|i: int, j: int| 0 <= i <= j < t.len() implies #[trigger] t[i].rate
            <= #[trigger] t[j].rate by {
            assert(t[i] == s[i + 1] && t[j] == s[j + 1]);
        }
        lemma_first_at_least_props(t, rate);
        assert forall|i: int| 0 <= i < first_at_least(s, rate) implies #[trigger] s[i].rate
            < rate by {
            if i > 0 {
                assert(s[i] == t[i - 1]);
            }
        }
        assert forall|i: int| first_at_least(s, rate) <= i < s.len() implies #[trigger] s[i].rate
            >= rate by {
            assert(s[i] == t[i - 1]);
        }
    } else if s.len() > 0 {
        assert forall|i: int| 0 <= i < s.len() implies #[trigger] s[i].rate >= rate by {
            assert(s[0].rate <= s[i].rate);
        }
    }
}

/// Facts about `first_at_most` on a descending side.
proof fn lemma_first_at_most_props(s: Seq<Record>, rate: u64)
    requires
        descending(s),
    ensures
        0 <= first_at_most(s, rate) <= s.len(),
        forall|i: int| 0 <= i < first_at_most(s, rate) ==> #[trigger] s[i].rate > rate,
        forall|i: int| first_at_most(s, rate) <= i < s.len() ==> #[trigger] s[i].rate <= rate,
    decreases s.len(),
{
    if s.len() > 0 && s[0].rate > rate {
        let t = s.skip(1);
        assert forall|i: int, j: int| 0 <= i <= j < t.len() implies #[trigger] t[i].rate
            >= #[trigger] t[j].rate by {
            assert(t[i] == s[i + 1] && t[j] == s[j + 1]);
        }
        lemma_first_at_most_props(t, rate);
        assert forall|i: int| 0 <= i < first_at_most(s, rate) implies #[trigger] s[i].rate
            > rate by {
            if i > 0 {
                assert(s[i] == t[i - 1]);
            }
        }
        assert forall|i: int| first_at_most(s, rate) <= i < s.len() implies #[trigger] s[i].rate
            <= rate by {
            assert(s[i] == t[i - 1]);
        }
    } else if s.len() > 0 {
        assert forall|i: int| 0 <= i < s.len() implies #[trigger] s[i].rate <= rate by {
            assert(s[0].rate >= s[i].rate);
        }
    }
}

/// Setting a level where it belongs keeps an ascending side ascending.
proof fn lemma_apply_ascending(s: Seq<Record>, rate: u64, amount: u64)
    requires
        ascending(s),
    ensures
        ascending(apply_level(s, first_at_least(s, rate), rate, amount)),
{
    lemma_first_at_least_props(s, rate);
    let p = first_at_least(s, rate);
    let t = apply_level(s, p, rate, amount);
    let found = p < s.len() && s[p].rate == rate;
    assert forall|i: int, j: int| 0 <= i <= j < t.len() implies #[trigger] t[i].rate
        <= #[trigger] t[j].rate by {
        if amount == 0 {
            if found {
                let i0 = if i < p { i } else { i + 1 };
                let j0 = if j < p { j } else { j + 1 };
                assert(t[i] == s[i0] && t[j] == s[j0]);
            }
        } else if found {
            assert(t[i].rate == s[i].rate && t[j].rate == s[j].rate);
        } else {
            let i0 = if i < p { i } else { i - 1 };
            let j0 = if j < p { j } else { j - 1 };
            if i != p {
                assert(t[i] == s[i0]);
            }
            if j != p {
                assert(t[j] == s[j0]);
            }
        }
    }
}

/// Setting a level where it belongs keeps a descending side descending.
proof fn lemma_apply_descending(s: Seq<Record>, rate: u64, amount: u64)
    requires
        descending(s),
    ensures
        descending(apply_level(s, first_at_most(s, rate), rate, amount)),
{
    lemma_first_at_most_props(s, rate);
    let p = first_at_most(s, rate);
    let t = apply_level(s, p, rate, amount);
    let found = p < s.len() && s[p].rate == rate;
    assert forall|i: int, j: int| 0 <= i <= j < t.len() implies #[trigger] t[i].rate
        >= #[trigger] t[j].rate by {
        if amount == 0 {
            if found {
                let i0 = if i < p { i } else { i + 1 };
                let j0 = if j < p { j } else { j + 1 };
                assert(t[i] == s[i0] && t[j] == s[j0]);
            }
        } else if found {
            assert(t[i].rate == s[i].rate && t[j].rate == s[j].rate);
        } else {
            let i0 = if i < p { i } else { i - 1 };
            let j0 = if j < p { j } else { j - 1 };
            if i != p {
                assert(t[i] == s[i0]);
            }
            if j != p {
                assert(t[j] == s[j0]);
            }
        }
    }
}

/// Sets `amount` at `rate` at the place `p` where it is or belongs.
fn apply_at(v: &mut Vec<Record>, p: usize, rate: u64, amount: u64)
    requires
        p <= old(v)@.len(),
    ensures
        final(v)@ == apply_level(old(v)@, p as int, rate, amount),
{
    let found = p < v.len() && v[p].rate == rate;
    if amount == 0 {
        if found {
            v.remove(p);
        }
    } else if found {
        v.set(p, Record { rate, amount });
    } else {
        v.insert(p, Record { rate, amount });
    }
}

/// The best rate after a level update, from the one before: a removal at
/// the best rate (or from an unset best) moves it to the new front, an
/// insertion better than the best (or into an unset best) takes its place.
pub open spec fn next_best(best: u64, better: bool, rate: u64, amount: u64, side: Seq<Record>) -> u64 {
    if amount == 0 {
        if best == rate || best == 0 || side.len() == 0 {
            front_rate(side)
        } else {
            best
        }
    } else if better || best == 0 {
        rate
    } else {
        best
    }
}

/// The sorted sides of a book and what is derived from them.
#[derive(Debug)]
pub struct BookStats {
    pub min_sell: u64,
    pub max_buy: u64,
    pub sum_sell: i128,
    pub sum_buy: i128,
    pub vec_buy: Vec<Record>,
    pub vec_sell: Vec<Record>,
    pub skin_buy: u64,
    pub skin_sell: u64,
    pub surface_buy: u64,
    pub surface_sell: u64,
}

/// Depth thresholds: skin at a tenth of a side's volume, surface at a hundredth.
pub const SKIN_DIVISOR: u128 = 10;

pub const SURFACE_DIVISOR: u128 = 100;

pub open spec fn prev_units(prev: Option<u64>) -> int {
    match prev {
        Some(a) => a as int,
        None => 0,
    }
}

/// `b` is `a` after setting the sell volume at `rate` to `amount`, the
/// book having held `prev` there: the record is set where the rate belongs
/// (or removed for zero), the best rate follows, the total moves by
/// `amount - prev`, and skin and surface are walked again when `rate` lies
/// below them. The buy side stays.
pub open spec fn sell_updated(a: BookStats, b: BookStats, rate: u64, amount: u64, prev: Option<u64>) -> bool {
    &&& b.vec_sell@ == apply_level(a.vec_sell@, first_at_least(a.vec_sell@, rate), rate, amount)
    &&& b.min_sell == next_best(a.min_sell, rate < a.min_sell, rate, amount, b.vec_sell@)
    &&& b.sum_sell == clamp_i128(a.sum_sell + amount - prev_units(prev))
    &&& b.skin_sell == if rate < a.skin_sell {
        depth_rate(b.vec_sell@, b.sum_sell as int, SKIN_DIVISOR as int)
    } else {
        a.skin_sell
    }
    &&& b.surface_sell == if rate < a.surface_sell {
        depth_rate(b.vec_sell@, b.sum_sell as int, SURFACE_DIVISOR as int)
    } else {
        a.surface_sell
    }
    &&& b.vec_buy@ == a.vec_buy@
    &&& b.max_buy == a.max_buy
    &&& b.sum_buy == a.sum_buy
    &&& b.skin_buy == a.skin_buy
    &&& b.surface_buy == a.surface_buy
}

/// `b` is `a` after setting the buy volume at `rate` to `amount`; as
/// `sell_updated`, with rates descending and skin and surface walked again
/// when `rate` lies above them. The sell side stays.
pub open spec fn buy_updated(a: BookStats, b: BookStats, rate: u64, amount: u64, prev: Option<u64>) -> bool {
    &&& b.vec_buy@ == apply_level(a.vec_buy@, first_at_most(a.vec_buy@, rate), rate, amount)
    &&& b.max_buy == next_best(a.max_buy, rate > a.max_buy, rate, amount, b.vec_buy@)
    &&& b.sum_buy == clamp_i128(a.sum_buy + amount - prev_units(prev))
    &&& b.skin_buy == if rate > a.skin_buy {
        depth_rate(b.vec_buy@, b.sum_buy as int, SKIN_DIVISOR as int)
    } else {
        a.skin_buy
    }
    &&& b.surface_buy == if rate > a.surface_buy {
        depth_rate(b.vec_buy@, b.sum_buy as int, SURFACE_DIVISOR as int)
    } else {
        a.surface_buy
    }
    &&& b.vec_sell@ == a.vec_sell@
    &&& b.min_sell == a.min_sell
    &&& b.sum_sell == a.sum_sell
    &&& b.skin_sell == a.skin_sell
    &&& b.surface_sell == a.surface_sell
}

pub open spec fn bounded(s: Seq<Record>) -> bool {
    forall|i: int| 0 <= i < s.len() ==> #[trigger] s[i].amount <= MAX_UNITS
}

impl BookStats {
    pub open spec fn wf(&self) -> bool {
        &&& ascending(self.vec_sell@)
        &&& descending(self.vec_buy@)
        &&& bounded(self.vec_sell@)
        &&& bounded(self.vec_buy@)
    }

    /// Sets the sell volume at `rate` to `amount` (zero removes it), with
    /// `prev` the volume the book held there before.
    pub fn update_sell_orders(&mut self, rate: u64, amount: u64, prev_amount: Option<u64>)
        requires
            old(self).wf(),
            amount <= MAX_UNITS,
        ensures
            final(self).wf(),
            sell_updated(*old(self), *final(self), rate, amount, prev_amount),
    {
        let p = search_ascending(&self.vec_sell, rate);
        let better = self.min_sell > rate;
        proof {
            lemma_apply_ascending(self.vec_sell@, rate, amount);
        }
        apply_at(&mut self.vec_sell, p, rate, amount);
        self.min_sell = best_after(self.min_sell, better, rate, amount, &self.vec_sell);
        self.sum_sell = adjust_sum(self.sum_sell, amount, prev_amount);
        if rate < self.skin_sell {
            self.skin_sell = rate_by_amount(&self.vec_sell, self.sum_sell, SKIN_DIVISOR);
        }
        if rate < self.surface_sell {
            self.surface_sell = rate_by_amount(&self.vec_sell, self.sum_sell, SURFACE_DIVISOR);
        }
    }

    /// Sets the buy volume at `rate` to `amount` (zero removes it), with
    /// `prev` the volume the book held there before.
    pub fn update_buy_orders(&mut self, rate: u64, amount: u64, prev_amount: Option<u64>)
        requires
            old(self).wf(),
            amount <= MAX_UNITS,
        ensures
            final(self).wf(),
            buy_updated(*old(self), *final(self), rate, amount, prev_amount),
    {
        let p = search_descending(&self.vec_buy, rate);
        let better = self.max_buy < rate;
        proof {
            lemma_apply_descending(self.vec_buy@, rate, amount);
        }
        apply_at(&mut self.vec_buy, p, rate, amount);
        self.max_buy = best_after(self.max_buy, better, rate, amount, &self.vec_buy);
        self.sum_buy = adjust_sum(self.sum_buy, amount, prev_amount);
        if rate > self.skin_buy {
            self.skin_buy = rate_by_amount(&self.vec_buy, self.sum_buy, SKIN_DIVISOR);
        }
        if rate > self.surface_buy {
            self.surface_buy = rate_by_amount(&self.vec_buy, self.sum_buy, SURFACE_DIVISOR);
        }
    }
}

fn best_after(best: u64, better: bool, rate: u64, amount: u64, side: &Vec<Record>) -> (r: u64)
    ensures
        r == next_best(best, better, rate, amount, side@),
{
    if amount == 0 {
        if best == rate || best == 0 || side.len() == 0 {
            if side.len() > 0 {
                side[0].rate
            } else {
                0
            }
        } else {
            best
        }
    } else if better || best == 0 {
        rate
    } else {
        best
    }
}

fn adjust_sum(sum: i128, amount: u64, prev: Option<u64>) -> (r: i128)
    ensures
        r == clamp_i128(
            sum + amount - match prev {
                Some(a) => a as int,
                None => 0,
            },
        ),
{
    let p: i128 = match prev {
        Some(a) => a as i128,
        None => 0,
    };
    let delta: i128 = amount as i128 - p;
    if delta > 0 && sum > i128::MAX - delta {
        i128::MAX
    } else if delta < 0 && sum < i128::MIN - delta {
        i128::MIN
    } else {
        sum + delta
    }
}

pub open spec fn ordered(s: Seq<Record>, asc: bool) -> bool {
    if asc {
        ascending(s)
    } else {
        descending(s)
    }
}

/// `r` stands for the level `l`: its rate read as units, and its volume.
pub open spec fn record_of(l: Level, r: Record) -> bool {
    &&& decimal_units(l.rate@) == Some(r.rate as nat)
    &&& l.amount == r.amount
    &&& r.rate > 0
}

/// The level's rate reads as a positive number of units.
pub open spec fn priced(l: Level) -> bool {
    decimal_units(l.rate@) matches Some(r) && r > 0
}

/// `idx[i]` is the entry, among the first `n`, that record `i` stands
/// for; no entry is used twice, and every priced one among the first `n` is.
pub open spec fn indexes(v: Seq<Record>, es: Seq<Level>, idx: Seq<int>, n: int) -> bool {
    &&& idx.len() == v.len()
    &&& idx.no_duplicates()
    &&& forall|i: int|
        #![trigger idx[i]]
        0 <= i < v.len() ==> 0 <= idx[i] < n && record_of(es[idx[i]], v[i])
    &&& forall|k: int| 0 <= k < n && #[trigger] priced(es[k]) ==> idx.contains(k)
}

/// The records of a side's priced levels, ascending or descending by rate,
/// with the entry that each stands for.
fn sorted_side(levels: &Levels, asc: bool) -> (r: (Vec<Record>, Ghost<Seq<int>>))
    requires
        levels.wf(),
        forall|k: int|
            0 <= k < levels.entries().len() ==> #[trigger] levels.entries()[k].amount <= MAX_UNITS,
    ensures
        ordered(r.0@, asc),
        bounded(r.0@),
        indexes(r.0@, levels.entries(), r.1@, levels.entries().len() as int),
{
    let items = levels.levels();
    let ghost es = levels.entries();
    let mut v: Vec<Record> = Vec::new();
    let ghost mut idx: Seq<int> = Seq::empty();
    let mut j: usize = 0;
    while j < items.len()
        invariant
            items@ == es,
            j <= es.len(),
            forall|k: int| 0 <= k < es.len() ==> #[trigger] es[k].amount <= MAX_UNITS,
            ordered(v@, asc),
            bounded(v@),
            indexes(v@, es, idx, j as int),
        decreases es.len() - j,
    {
        let ghost v0 = v@;
        let ghost idx0 = idx;
        match parse_units(items[j].rate.as_str()) {
            Some(r) => {
                if r > 0 {
                    let rec = Record { rate: r, amount: items[j].amount };
                    let p = if asc {
                        search_ascending(&v, r)
                    } else {
                        search_descending(&v, r)
                    };
                    v.insert(p, rec);
                    proof {
                        idx = idx0.insert(p as int, j as int);
                        let v1 = v@;
                        assert(v1 == v0.insert(p as int, rec));
                        assert(record_of(es[j as int], rec));
                        assert forall|a: int, b: int| 0 <= a <= b < v1.len() implies (if asc {
                            #[trigger] v1[a].rate <= #[trigger] v1[b].rate
                        } else {
                            v1[a].rate >= v1[b].rate
                        }) by {
                            let a0 = if a < p { a } else { a - 1 };
                            let b0 = if b < p { b } else { b - 1 };
                            if a != p {
                                assert(v1[a] == v0[a0]);
                            }
                            if b != p {
                                assert(v1[b] == v0[b0]);
                            }
                        }
                        assert forall|i: int| #![trigger idx[i]] 0 <= i < v1.len() implies 0 <= idx[i]
                            < j + 1 && record_of(es[idx[i]], v1[i]) by {
                            if i != p {
                                let i0 = if i < p { i } else { i - 1 };
                                assert(v1[i] == v0[i0]);
                                assert(idx[i] == idx0[i0]);
                            }
                        }
                        assert forall|a: int, b: int|
                            0 <= a < idx.len() && 0 <= b < idx.len() && a != b implies idx[a]
                            != idx[b] by {
                            let a0 = if a < p { a } else { a - 1 };
                            let b0 = if b < p { b } else { b - 1 };
                            if a != p {
                                assert(idx[a] == idx0[a0]);
                            }
                            if b != p {
                                assert(idx[b] == idx0[b0]);
                            }
                        }
                        assert forall|k: int| 0 <= k < j + 1 && #[trigger] priced(es[k]) implies idx.contains(
                            k,
                        ) by {
                            if k == j {
                                assert(idx[p as int] == k);
                            } else {
                                assert(idx0.contains(k));
                                let x = choose|x: int| 0 <= x < idx0.len() && idx0[x] == k;
                                let x1 = if x < p { x } else { x + 1 };
                                assert(idx[x1] == k);
                            }
                        }
                    }
                } else {
                    assert(!priced(es[j as int]));
                }
            },
            None => {
                assert(!priced(es[j as int]));
            },
        }
        j = j + 1;
    }
    (v, Ghost(idx))
}

/// Whether a rate lies within a decade of the side's best rate: at most
/// ten times the lowest sell, at least a tenth of the highest buy.
pub open spec fn in_window(rate: u64, best: u64, asc: bool) -> bool {
    if asc {
        rate <= 10 * best
    } else {
        10 * rate >= best
    }
}

fn within(rate: u64, best: u64, asc: bool) -> (r: bool)
    ensures
        r == in_window(rate, best, asc),
{
    if asc {
        rate as u128 <= 10 * best as u128
    } else {
        10 * rate as u128 >= best as u128
    }
}

/// Cuts an ordered side at its first record outside the window of its
/// front rate.
fn trim_side(v: &mut Vec<Record>, asc: bool)
    requires
        ordered(old(v)@, asc),
    ensures
        final(v)@.len() <= old(v)@.len(),
        final(v)@ == old(v)@.take(final(v)@.len() as int),
        forall|i: int|
            0 <= i < final(v)@.len() ==> in_window(
                #[trigger] final(v)@[i].rate,
                front_rate(old(v)@),
                asc,
            ),
        forall|i: int|
            final(v)@.len() <= i < old(v)@.len() ==> !in_window(
                #[trigger] old(v)@[i].rate,
                front_rate(old(v)@),
                asc,
            ),
{
    if v.len() == 0 {
        assert(v@.take(0) =~= v@);
        return;
    }
    let best = v[0].rate;
    let mut q: usize = 0;
    let ghost s = v@;
    while q < v.len() && within(v[q].rate, best, asc)
        invariant
            s == v@,
            q <= s.len(),
            s.len() > 0,
            best == s[0].rate,
            forall|i: int| 0 <= i < q ==> in_window(#[trigger] s[i].rate, best, asc),
        decreases s.len() - q,
    {
        q = q + 1;
    }
    proof {
        assert forall|i: int| q <= i < s.len() implies !in_window(#[trigger] s[i].rate, best, asc) by {
            if asc {
                assert(s[q as int].rate <= s[i].rate);
            } else {
                assert(s[q as int].rate >= s[i].rate);
            }
        }
    }
    v.truncate(q);
    assert(v@ =~= s.take(q as int));
}

fn side_sum(v: &Vec<Record>) -> (r: i128)
    requires
        bounded(v@),
    ensures
        r == sum_amounts(v@),
{
    let mut total: i128 = 0;
    let mut i: usize = 0;
    assert(v@.take(0) =~= Seq::<Record>::empty());
    while i < v.len()
        invariant
            i <= v@.len(),
            bounded(v@),
            total == sum_amounts(v@.take(i as int)),
        decreases v@.len() - i,
    {
        proof {
            assert(v@.take(i as int + 1).drop_last() =~= v@.take(i as int));
            let t = v@.take(i as int + 1);
            assert forall|k: int| 0 <= k < t.len() implies #[trigger] t[k].amount <= MAX_UNITS by {
                assert(t[k] == v@[k]);
            }
            lemma_sum_bound(t);
            assert(t.len() * MAX_UNITS <= i128::MAX) by (nonlinear_arith)
                requires
                    t.len() <= usize::MAX,
            ;
        }
        total = total + v[i].amount as i128;
        i = i + 1;
    }
    assert(v@.take(v@.len() as int) =~= v@);
    total
}

/// The side holds `k`, and its rate reads as a positive number of units.
pub open spec fn priced_key(m: Map<Seq<char>, u64>, k: Seq<char>) -> bool {
    &&& m.contains_key(k)
    &&& match decimal_units(k) {
        Some(r) => r > 0,
        None => false,
    }
}

/// The rate that a rate text reads as (0 if it does not read).
pub open spec fn key_rate(k: Seq<char>) -> nat {
    match decimal_units(k) {
        Some(r) => r,
        None => 0,
    }
}

/// `a` is at least as good as `b`: lower on the sell side, higher on the buy side.
pub open spec fn goes_first(a: nat, b: nat, asc: bool) -> bool {
    if asc {
        a <= b
    } else {
        a >= b
    }
}

/// The side holds `k`, whose rate reads as a positive number in the window.
pub open spec fn window_level(m: Map<Seq<char>, u64>, k: Seq<char>, best: u64, asc: bool) -> bool {
    &&& m.contains_key(k)
    &&& match decimal_units(k) {
        Some(r) => r > 0 && in_window(r as u64, best, asc),
        None => false,
    }
}

/// `ks[i]` is the rate text of the level that record `i` stands for: each
/// text once, each record in the window of the front rate, and each level
/// of the window listed.
pub open spec fn lists_levels(v: Seq<Record>, m: Map<Seq<char>, u64>, ks: Seq<Seq<char>>, asc: bool) -> bool {
    &&& ks.len() == v.len()
    &&& ks.no_duplicates()
    &&& forall|i: int|
        #![trigger ks[i]]
        0 <= i < v.len() ==> {
            &&& m.contains_key(ks[i])
            &&& decimal_units(ks[i]) == Some(v[i].rate as nat)
            &&& m[ks[i]] == v[i].amount
            &&& v[i].rate > 0
            &&& in_window(v[i].rate, front_rate(v), asc)
        }
    &&& forall|k: Seq<char>| #[trigger] window_level(m, k, front_rate(v), asc) ==> ks.contains(k)
}

/// `v` is the side `m` ordered by rate and cut at the window of its best
/// rate: it starts at the best priced level of `m` (and is empty only when
/// `m` has none), and holds exactly one record for each level of the window.
pub open spec fn projects(v: Seq<Record>, m: Map<Seq<char>, u64>, asc: bool) -> bool {
    &&& ordered(v, asc)
    &&& bounded(v)
    &&& forall|k: Seq<char>|
        #[trigger] priced_key(m, k) ==> v.len() > 0 && goes_first(v[0].rate as nat, key_rate(k), asc)
    &&& exists|ks: Seq<Seq<char>>| #[trigger] lists_levels(v, m, ks, asc)
}

/// The projection of one side of a book.
fn project_side(levels: &Levels, asc: bool) -> (v: Vec<Record>)
    requires
        levels.wf(),
        crate::book::sane_side(levels@),
    ensures
        projects(v@, levels@, asc),
{
    proof {
        levels.lemma_entries();
        levels.lemma_keys_distinct();
    }
    let ghost es = levels.entries();
    let ghost m = levels@;
    assert forall|k: int| 0 <= k < es.len() implies #[trigger] es[k].amount <= MAX_UNITS by {
        assert(levels@.contains_key(es[k].rate@));
    }
    let (mut v, Ghost(idx)) = sorted_side(levels, asc);
    let ghost full = v@;
    trim_side(&mut v, asc);
    proof {
        levels.lemma_entries();
        let best = front_rate(full);
        let t = v@;
        let q = t.len() as int;
        if full.len() > 0 {
            assert(in_window(full[0].rate, best, asc)) by (nonlinear_arith)
                requires
                    best == full[0].rate,
            ;
            assert(q > 0);
            assert(t[0] == full[0]);
        }
        assert(front_rate(t) == best);
        assert forall|i: int, j: int| 0 <= i <= j < t.len() implies (if asc {
            #[trigger] t[i].rate <= #[trigger] t[j].rate
        } else {
            t[i].rate >= t[j].rate
        }) by {
            assert(t[i] == full[i] && t[j] == full[j]);
        }
        let ks = Seq::new(q as nat, |i: int| es[idx[i]].rate@);
        assert forall|a: int, b: int| 0 <= a < ks.len() && 0 <= b < ks.len() && a != b implies ks[a]
            != ks[b] by {
            assert(idx[a] != idx[b]);
        }
        assert forall|i: int| #![trigger ks[i]] 0 <= i < t.len() implies {
            &&& m.contains_key(ks[i])
            &&& decimal_units(ks[i]) == Some(t[i].rate as nat)
            &&& m[ks[i]] == t[i].amount
            &&& t[i].rate > 0
            &&& in_window(t[i].rate, front_rate(t), asc)
        } by {
            assert(t[i] == full[i]);
            let j = idx[i];
            assert(0 <= j < es.len() && record_of(es[j], full[i]));
            levels.lemma_entry(j);
            assert(ks[i] == es[j].rate@);
            assert(in_window(t[i].rate, best, asc));
        }
        // every priced level has a record in the full projection
        assert forall|k: Seq<char>| #[trigger] priced_key(m, k) implies exists|i: int|
            0 <= i < full.len() && idx[i] >= 0 && es[idx[i]].rate@ == k && full[i].rate == key_rate(k)
            by {
            let j = choose|j: int| 0 <= j < es.len() && es[j].rate@ == k;
            assert(priced(es[j]));
            assert(idx.contains(j));
            let i = choose|i: int| 0 <= i < idx.len() && idx[i] == j;
            assert(record_of(es[idx[i]], full[i]));
        }
        assert forall|k: Seq<char>| #[trigger] window_level(m, k, front_rate(t), asc) implies ks.contains(
            k,
        ) by {
            assert(priced_key(m, k));
            let i = choose|i: int|
                0 <= i < full.len() && idx[i] >= 0 && es[idx[i]].rate@ == k && full[i].rate
                    == key_rate(k);
            if i >= q {
                assert(!in_window(full[i].rate, best, asc));
            }
            assert(ks[i] == k);
        }
        assert forall|k: Seq<char>| #[trigger] priced_key(m, k) implies t.len() > 0 && goes_first(
            t[0].rate as nat,
            key_rate(k),
            asc,
        ) by {
            let i = choose|i: int|
                0 <= i < full.len() && idx[i] >= 0 && es[idx[i]].rate@ == k && full[i].rate
                    == key_rate(k);
            assert(full[0].rate as nat == t[0].rate);
            if asc {
                assert(full[0].rate <= full[i].rate);
            } else {
                assert(full[0].rate >= full[i].rate);
            }
        }
        assert(lists_levels(t, m, ks, asc));
    }
    v
}

/// `st` holds the statistics of a fresh `book`: each side projected and
/// cut at its window, its total, skin and surface.
pub open spec fn fresh_stats(st: BookStats, book: Book) -> bool {
    &&& projects(st.vec_sell@, book.sell@, true)
    &&& projects(st.vec_buy@, book.buy@, false)
    &&& st.min_sell == front_rate(st.vec_sell@)
    &&& st.max_buy == front_rate(st.vec_buy@)
    &&& st.sum_sell == sum_amounts(st.vec_sell@)
    &&& st.sum_buy == sum_amounts(st.vec_buy@)
    &&& st.skin_sell == depth_rate(st.vec_sell@, st.sum_sell as int, SKIN_DIVISOR as int)
    &&& st.surface_sell == depth_rate(st.vec_sell@, st.sum_sell as int, SURFACE_DIVISOR as int)
    &&& st.skin_buy == depth_rate(st.vec_buy@, st.sum_buy as int, SKIN_DIVISOR as int)
    &&& st.surface_buy == depth_rate(st.vec_buy@, st.sum_buy as int, SURFACE_DIVISOR as int)
}

impl BookStats {
    /// The statistics of a book.
    pub fn new(book: &Book) -> (r: BookStats)
        requires
            book.wf(),
        ensures
            r.wf(),
            fresh_stats(r, *book),
    {
        let vec_buy = project_side(&book.buy, false);
        let max_buy = if vec_buy.len() > 0 {
            vec_buy[0].rate
        } else {
            0
        };
        let sum_buy = side_sum(&vec_buy);
        let skin_buy = rate_by_amount(&vec_buy, sum_buy, SKIN_DIVISOR);
        let surface_buy = rate_by_amount(&vec_buy, sum_buy, SURFACE_DIVISOR);
        let vec_sell = project_side(&book.sell, true);
        let min_sell = if vec_sell.len() > 0 {
            vec_sell[0].rate
        } else {
            0
        };
        let sum_sell = side_sum(&vec_sell);
        let skin_sell = rate_by_amount(&vec_sell, sum_sell, SKIN_DIVISOR);
        let surface_sell = rate_by_amount(&vec_sell, sum_sell, SURFACE_DIVISOR);
        BookStats {
            min_sell,
            max_buy,
            sum_sell,
            sum_buy,
            vec_buy,
            vec_sell,
            skin_buy,
            skin_sell,
            surface_buy,
            surface_sell,
        }
    }
}

/// Seconds of deal history that a book keeps.
pub const DEAL_RETENTION_SECS: i64 = 600;

/// One-second buckets summed into the rolling one-minute aggregate.
pub const WINDOW_BUCKETS: usize = 60;

/// Most one-second buckets kept: as many as the deal history spans.
pub const MAX_BUCKETS: usize = 600;

/// A book together with its statistics and its rolling trade window.
pub struct BookWithStats {
    pub book: Book,
    pub stats: BookStats,
    /// One-second trade aggregates, newest first.
    pub trade_series_1s: VecDeque<TradeStats>,
    /// The sum of the newest `WINDOW_BUCKETS` buckets.
    pub trade_stats_1m: TradeStats,
}

/// The one-minute aggregate after pushing `bucket` onto `series`: the
/// bucket is added, and the one that falls out of the minute taken away.
pub open spec fn next_minute(minute: TradeStats, bucket: TradeStats, series: Seq<TradeStats>) -> TradeStats {
    let added = add_spec(minute, bucket);
    if series.len() > WINDOW_BUCKETS {
        sub_spec(added, series[WINDOW_BUCKETS as int])
    } else {
        added
    }
}

/// `b` is `a` with its trade window moved to the instant `t`, `r` being the
/// deals of the last second: deals older than the retention period are
/// dropped from the back, the newest deals after `t - 1s` make a new
/// bucket at the front of the series (cut at `MAX_BUCKETS`), and the
/// one-minute aggregate moves along. Book sides, pair and stats stay.
pub open spec fn window_moved(a: BookWithStats, b: BookWithStats, t: Timespec, r: Seq<Deal>) -> bool {
    &&& b.stats == a.stats
    &&& b.book.sell@ == a.book.sell@
    &&& b.book.buy@ == a.book.buy@
    &&& b.book.pair == a.book.pair
    &&& ({
        let cut = Timespec { sec: crate::clock::sec_before(t.sec, DEAL_RETENTION_SECS), nsec: 0 };
        let kept = a.book.deals.records().take(
            crate::timeseries::kept_until(
                a.book.deals.timestamps_spec(),
                cut,
            ) as int,
        );
        &&& b.book.deals.records() == kept
        &&& r.len() == crate::timeseries::newer_than(
            b.book.deals.timestamps_spec(),
            Timespec { sec: crate::clock::sec_before(t.sec, 1), nsec: t.nsec },
        )
        &&& r == kept.take(r.len() as int)
    })
    &&& ({
        let bucket = crate::tradestats::fold_deals(r);
        let pushed = seq![bucket] + a.trade_series_1s@;
        &&& b.trade_stats_1m == next_minute(
            a.trade_stats_1m,
            bucket,
            pushed,
        )
        &&& b.trade_series_1s@ == if pushed.len() > MAX_BUCKETS {
            pushed.take(MAX_BUCKETS as int)
        } else {
            pushed
        }
    })
}

impl BookWithStats {
    pub open spec fn wf(&self) -> bool {
        &&& self.book.wf()
        &&& self.stats.wf()
    }

    /// A book with fresh statistics and an empty trade window.
    pub fn new(book: Book) -> (r: BookWithStats)
        requires
            book.wf(),
        ensures
            r.wf(),
            r.book == book,
            fresh_stats(r.stats, book),
            r.trade_series_1s@ == Seq::<TradeStats>::empty(),
            r.trade_stats_1m == crate::tradestats::zero_stats(),
    {
        BookWithStats {
            stats: BookStats::new(&book),
            trade_series_1s: VecDeque::new(),
            trade_stats_1m: TradeStats::default(),
            book,
        }
    }

    /// Sets the sell volume at `rate`, in the book and, where the rate
    /// reads as a positive number of units, in the statistics.
    pub fn apply_sell(&mut self, rate: String, amount: u64) -> (r: Option<u64>)
        requires
            old(self).wf(),
            amount <= MAX_UNITS,
        ensures
            final(self).wf(),
            r == lookup(old(self).book.sell@, rate@),
            amount == 0 ==> final(self).book.sell@ == old(self).book.sell@.remove(rate@),
            amount != 0 ==> final(self).book.sell@ == old(self).book.sell@.insert(
                rate@,
                amount,
            ),
            final(self).book.buy@ == old(self).book.buy@,
            final(self).book.pair == old(self).book.pair,
            final(self).book.deals.records() == old(self).book.deals.records(),
            match decimal_units(rate@) {
                Some(u) => if u > 0 {
                    sell_updated(old(self).stats, final(self).stats, u as u64, amount, r)
                } else {
                    final(self).stats == old(self).stats
                },
                None => final(self).stats == old(self).stats,
            },
            final(self).trade_series_1s@ == old(self).trade_series_1s@,
            final(self).trade_stats_1m == old(self).trade_stats_1m,
    {
        let units = parse_units(rate.as_str());
        let prev = self.book.update_sell_orders(rate, amount);
        if let Some(u) = units {
            if u > 0 {
                self.stats.update_sell_orders(u, amount, prev);
            }
        }
        prev
    }

    /// Sets the buy volume at `rate`, in the book and, where the rate
    /// reads as a positive number of units, in the statistics.
    pub fn apply_buy(&mut self, rate: String, amount: u64) -> (r: Option<u64>)
        requires
            old(self).wf(),
            amount <= MAX_UNITS,
        ensures
            final(self).wf(),
            r == lookup(old(self).book.buy@, rate@),
            amount == 0 ==> final(self).book.buy@ == old(self).book.buy@.remove(rate@),
            amount != 0 ==> final(self).book.buy@ == old(self).book.buy@.insert(
                rate@,
                amount,
            ),
            final(self).book.sell@ == old(self).book.sell@,
            final(self).book.pair == old(self).book.pair,
            final(self).book.deals.records() == old(self).book.deals.records(),
            match decimal_units(rate@) {
                Some(u) => if u > 0 {
                    buy_updated(old(self).stats, final(self).stats, u as u64, amount, r)
                } else {
                    final(self).stats == old(self).stats
                },
                None => final(self).stats == old(self).stats,
            },
            final(self).trade_series_1s@ == old(self).trade_series_1s@,
            final(self).trade_stats_1m == old(self).trade_stats_1m,
    {
        let units = parse_units(rate.as_str());
        let prev = self.book.update_buy_orders(rate, amount);
        if let Some(u) = units {
            if u > 0 {
                self.stats.update_buy_orders(u, amount, prev);
            }
        }
        prev
    }

    /// Advances the trade window to the instant `t`: drops deals older than
    /// the retention period, aggregates those of the last second into a new
    /// bucket at the front, and moves the one-minute aggregate along.
    /// Gives the deals of the last second, newest first.
    pub fn update_stats_at(&mut self, t: Timespec) -> (r: Vec<Deal>)
        requires
            old(self).wf(),
        ensures
            final(self).wf(),
            window_moved(*old(self), *final(self), t, r@),
    {
        let cut = Timespec { sec: t.seconds_earlier(DEAL_RETENTION_SECS).sec, nsec: 0 };
        self.book.deals.drain_until(cut);
        let after = t.seconds_earlier(1);
        let last = self.book.deals.vec_after(after);
        let bucket = TradeStats::new(last.as_slice());
        let mut deals: Vec<Deal> = Vec::new();
        let mut i: usize = 0;
        while i < last.len()
            invariant
                i <= last@.len(),
                deals@.len() == i,
                forall|j: int| 0 <= j < i ==> deals@[j] == *last@[j],
            decreases last@.len() - i,
        {
            deals.push(*last[i]);
            i = i + 1;
        }
        proof {
            assert(deals@ =~= last@.map_values(|d: &Deal| *d));
            let kept = self.book.deals.records();
            assert(deals@.len() <= kept.len()) by {
                crate::timeseries::lemma_newer_than_le(self.book.deals.timestamps_spec(), after);
                self.book.deals.lemma_timestamps_len();
            }
            assert(deals@ =~= kept.take(deals@.len() as int));
        }
        self.trade_stats_1m = self.trade_stats_1m.add_stats(&bucket);
        self.trade_series_1s.push_front(bucket);
        if self.trade_series_1s.len() > WINDOW_BUCKETS {
            let expired = self.trade_series_1s[WINDOW_BUCKETS];
            self.trade_stats_1m = self.trade_stats_1m.sub_stats(&expired);
        }
        if self.trade_series_1s.len() > MAX_BUCKETS {
            self.trade_series_1s.truncate(MAX_BUCKETS);
        }
        deals
    }
}

impl BookAccounting for BookWithStats {
    open spec fn book_spec(&self) -> Book {
        self.book
    }

    open spec fn inv(&self) -> bool {
        self.wf()
    }

    /// The statistics follow the update when the rate reads as a positive
    /// number of units, and stay otherwise; the trade window stays.
    open spec fn sell_effect(&self, before: Self, rate: Seq<char>, amount: u64, r: Option<u64>) -> bool {
        &&& match decimal_units(rate) {
            Some(u) => if u > 0 {
                sell_updated(before.stats, self.stats, u as u64, amount, r)
            } else {
                self.stats == before.stats
            },
            None => self.stats == before.stats,
        }
        &&& self.trade_series_1s@ == before.trade_series_1s@
        &&& self.trade_stats_1m == before.trade_stats_1m
    }

    open spec fn buy_effect(&self, before: Self, rate: Seq<char>, amount: u64, r: Option<u64>) -> bool {
        &&& match decimal_units(rate) {
            Some(u) => if u > 0 {
                buy_updated(before.stats, self.stats, u as u64, amount, r)
            } else {
                self.stats == before.stats
            },
            None => self.stats == before.stats,
        }
        &&& self.trade_series_1s@ == before.trade_series_1s@
        &&& self.trade_stats_1m == before.trade_stats_1m
    }

    /// A deal leaves the statistics and the trade window as they were.
    open spec fn deal_effect(&self, before: Self) -> bool {
        &&& self.stats == before.stats
        &&& self.trade_series_1s@ == before.trade_series_1s@
        &&& self.trade_stats_1m == before.trade_stats_1m
    }

    /// Emptied sides get fresh statistics; the trade window stays.
    open spec fn reset_effect(&self, before: Self) -> bool {
        &&& fresh_stats(self.stats, self.book)
        &&& self.trade_series_1s@ == before.trade_series_1s@
        &&& self.trade_stats_1m == before.trade_stats_1m
    }

    fn update_sell_orders(&mut self, rate: String, amount: u64) -> (r: Option<u64>) {
        self.apply_sell(rate, amount)
    }

    fn update_buy_orders(&mut self, rate: String, amount: u64) -> (r: Option<u64>) {
        self.apply_buy(rate, amount)
    }

    fn new_deal(&mut self, id: u64, rate: String, amount: i64) -> (r: Result<u64, PoloError>) {
        self.book.new_deal(id, rate, amount)
    }

    fn book_ref(&self) -> (r: &Book) {
        &self.book
    }

    fn reset_orders(&mut self) {
        self.book.reset_orders();
        self.stats = BookStats::new(&self.book);
    }
}

/// Periodic upkeep of a book's trade window.
pub trait TimeStats {
    spec fn ready(&self) -> bool;

    /// `self` is `before` with its window moved to some valid instant, `r`
    /// being the deals of the second before it.
    spec fn ticked(&self, before: Self, r: Seq<Deal>) -> bool where Self: Sized;

    /// Moves the window to the current second; gives the deals of that second.
    fn update_stats_1s(&mut self) -> (r: Vec<Deal>) where Self: Sized
        requires
            old(self).ready(),
        ensures
            final(self).ready(),
            final(self).ticked(*old(self), r@),
    ;
}

impl TimeStats for BookWithStats {
    open spec fn ready(&self) -> bool {
        self.wf()
    }

    /// Whatever the clock said, the window moved to it.
    open spec fn ticked(&self, before: Self, r: Seq<Deal>) -> bool {
        exists|t: Timespec| t.wf() && #[trigger] window_moved(before, *self, t, r)
    }

    fn update_stats_1s(&mut self) -> (r: Vec<Deal>) {
        let t = now();
        let r = self.update_stats_at(t);
        assert(window_moved(*old(self), *self, t, r@));
        r
    }
}

/// The volume a side holds at `rate`, found at the place `p` where it belongs.
pub open spec fn held_at(s: Seq<Record>, p: int, rate: u64) -> int {
    if 0 <= p < s.len() && s[p].rate == rate {
        s[p].amount as int
    } else {
        0
    }
}

proof fn lemma_sum_concat(a: Seq<Record>, b: Seq<Record>)
    ensures
        sum_amounts(a + b) == sum_amounts(a) + sum_amounts(b),
    decreases b.len(),
{
    if b.len() == 0 {
        assert(a + b =~= a);
    } else {
        lemma_sum_concat(a, b.drop_last());
        assert((a + b).drop_last() =~= a + b.drop_last());
    }
}

proof fn lemma_sum_split(s: Seq<Record>, p: int)
    requires
        0 <= p <= s.len(),
    ensures
        sum_amounts(s) == sum_amounts(s.take(p)) + sum_amounts(s.skip(p)),
{
    lemma_sum_concat(s.take(p), s.skip(p));
    assert(s.take(p) + s.skip(p) =~= s);
}

proof fn lemma_sum_single(x: Record)
    ensures
        sum_amounts(seq![x]) == x.amount,
{
    assert(seq![x].drop_last() =~= Seq::<Record>::empty());
    assert(sum_amounts(Seq::<Record>::empty()) == 0);
    assert(seq![x].last() == x);
}

/// The side's total after `apply_level`: the amount set in place of the
/// volume held there.
proof fn lemma_sum_apply(s: Seq<Record>, p: int, rate: u64, amount: u64)
    requires
        0 <= p <= s.len(),
    ensures
        sum_amounts(apply_level(s, p, rate, amount)) == sum_amounts(s) + amount - held_at(
            s,
            p,
            rate,
        ),
{
    let x = Record { rate, amount };
    let t = apply_level(s, p, rate, amount);
    let found = p < s.len() && s[p].rate == rate;
    lemma_sum_split(s, p);
    lemma_sum_single(x);
    if found {
        lemma_sum_split(s.skip(p), 1);
        assert(s.skip(p).take(1) =~= seq![s[p]]);
        lemma_sum_single(s[p]);
        assert(s.skip(p).skip(1) =~= s.skip(p + 1));
        if amount == 0 {
            assert(t =~= s.take(p) + s.skip(p + 1));
            lemma_sum_concat(s.take(p), s.skip(p + 1));
        } else {
            assert(t =~= s.take(p) + (seq![x] + s.skip(p + 1)));
            lemma_sum_concat(s.take(p), seq![x] + s.skip(p + 1));
            lemma_sum_concat(seq![x], s.skip(p + 1));
        }
    } else if amount != 0 {
        assert(t =~= s.take(p) + (seq![x] + s.skip(p)));
        lemma_sum_concat(s.take(p), seq![x] + s.skip(p));
        lemma_sum_concat(seq![x], s.skip(p));
    }
}

/// Records after `apply_level` with an amount of at most `MAX_UNITS` stay bounded.
proof fn lemma_apply_bounded(s: Seq<Record>, p: int, rate: u64, amount: u64)
    requires
        0 <= p <= s.len(),
        bounded(s),
        amount <= MAX_UNITS,
    ensures
        bounded(apply_level(s, p, rate, amount)),
{
    let t = apply_level(s, p, rate, amount);
    assert forall|i: int| 0 <= i < t.len() implies #[trigger] t[i].amount <= MAX_UNITS by {
        if amount == 0 {
            if p < s.len() && s[p].rate == rate {
                let i0 = if i < p { i } else { i + 1 };
                assert(t[i] == s[i0]);
            }
        } else if p < s.len() && s[p].rate == rate {
            if i != p {
                assert(t[i] == s[i]);
            }
        } else if i != p {
            let i0 = if i < p { i } else { i - 1 };
            assert(t[i] == s[i0]);
        }
    }
}

/// The sell total stays the sum of the sell side's volumes across an
/// update, when the volume handed in as held before is the one the side
/// held at that rate.
pub proof fn law_sell_total_tracks_side(
    a: BookStats,
    b: BookStats,
    rate: u64,
    amount: u64,
    prev: Option<u64>,
)
    requires
        a.wf(),
        amount <= MAX_UNITS,
        a.sum_sell == sum_amounts(a.vec_sell@),
        sell_updated(a, b, rate, amount, prev),
        prev_units(prev) == held_at(a.vec_sell@, first_at_least(a.vec_sell@, rate), rate),
    ensures
        b.sum_sell == sum_amounts(b.vec_sell@),
{
    let p = first_at_least(a.vec_sell@, rate);
    lemma_first_at_least_props(a.vec_sell@, rate);
    lemma_sum_apply(a.vec_sell@, p, rate, amount);
    lemma_apply_bounded(a.vec_sell@, p, rate, amount);
    let t = b.vec_sell@;
    lemma_sum_bound(t);
    assert(t.len() == b.vec_sell.len());
    assert(t.len() * MAX_UNITS <= i128::MAX) by (nonlinear_arith)
        requires
            t.len() <= usize::MAX,
    ;
}

/// The buy total stays the sum of the buy side's volumes across an
/// update, when the volume handed in as held before is the one the side
/// held at that rate.
pub proof fn law_buy_total_tracks_side(
    a: BookStats,
    b: BookStats,
    rate: u64,
    amount: u64,
    prev: Option<u64>,
)
    requires
        a.wf(),
        amount <= MAX_UNITS,
        a.sum_buy == sum_amounts(a.vec_buy@),
        buy_updated(a, b, rate, amount, prev),
        prev_units(prev) == held_at(a.vec_buy@, first_at_most(a.vec_buy@, rate), rate),
    ensures
        b.sum_buy == sum_amounts(b.vec_buy@),
{
    let p = first_at_most(a.vec_buy@, rate);
    lemma_first_at_most_props(a.vec_buy@, rate);
    lemma_sum_apply(a.vec_buy@, p, rate, amount);
    lemma_apply_bounded(a.vec_buy@, p, rate, amount);
    let t = b.vec_buy@;
    lemma_sum_bound(t);
    assert(t.len() == b.vec_buy.len());
    assert(t.len() * MAX_UNITS <= i128::MAX) by (nonlinear_arith)
        requires
            t.len() <= usize::MAX,
    ;
}

/// Through a book with statistics: a sell update keeps the sell total the
/// sum of the sell side's volumes, when the volume the book held at the
/// rate is the one the side held there.
pub proof fn law_book_sell_total_tracks_side(
    a: BookWithStats,
    b: BookWithStats,
    rate: Seq<char>,
    amount: u64,
    r: Option<u64>,
)
    requires
        a.wf(),
        amount <= MAX_UNITS,
        a.stats.sum_sell == sum_amounts(a.stats.vec_sell@),
        b.sell_effect(a, rate, amount, r),
        r == lookup(a.book.sell@, rate),
        decimal_units(rate) matches Some(u) && u > 0 ==> prev_units(r) == held_at(
            a.stats.vec_sell@,
            first_at_least(a.stats.vec_sell@, key_rate(rate) as u64),
            key_rate(rate) as u64,
        ),
    ensures
        b.stats.sum_sell == sum_amounts(b.stats.vec_sell@),
{
    if let Some(u) = decimal_units(rate) {
        if u > 0 {
            law_sell_total_tracks_side(a.stats, b.stats, u as u64, amount, r);
        }
    }
}

/// Through a book with statistics: a buy update keeps the buy total the
/// sum of the buy side's volumes, when the volume the book held at the
/// rate is the one the side held there.
pub proof fn law_book_buy_total_tracks_side(
    a: BookWithStats,
    b: BookWithStats,
    rate: Seq<char>,
    amount: u64,
    r: Option<u64>,
)
    requires
        a.wf(),
        amount <= MAX_UNITS,
        a.stats.sum_buy == sum_amounts(a.stats.vec_buy@),
        b.buy_effect(a, rate, amount, r),
        r == lookup(a.book.buy@, rate),
        decimal_units(rate) matches Some(u) && u > 0 ==> prev_units(r) == held_at(
            a.stats.vec_buy@,
            first_at_most(a.stats.vec_buy@, key_rate(rate) as u64),
            key_rate(rate) as u64,
        ),
    ensures
        b.stats.sum_buy == sum_amounts(b.stats.vec_buy@),
{
    if let Some(u) = decimal_units(rate) {
        if u > 0 {
            law_buy_total_tracks_side(a.stats, b.stats, u as u64, amount, r);
        }
    }
}

/// Fresh statistics hold each side's total as the sum of its volumes.
pub proof fn law_fresh_totals(st: BookStats, book: Book)
    requires
        fresh_stats(st, book),
    ensures
        st.sum_sell == sum_amounts(st.vec_sell@),
        st.sum_buy == sum_amounts(st.vec_buy@),
{
}

/// Updates keep the sell side ascending and the buy side descending by rate.
pub proof fn law_sides_stay_ordered(
    a: BookStats,
    b: BookStats,
    rate: u64,
    amount: u64,
    prev: Option<u64>,
)
    requires
        a.wf(),
        sell_updated(a, b, rate, amount, prev) || buy_updated(a, b, rate, amount, prev),
    ensures
        ascending(b.vec_sell@),
        descending(b.vec_buy@),
{
    lemma_apply_ascending(a.vec_sell@, rate, amount);
    lemma_apply_descending(a.vec_buy@, rate, amount);
}

/// All rates of a side are positive.
pub open spec fn positive_rates(s: Seq<Record>) -> bool {
    forall|i: int| 0 <= i < s.len() ==> #[trigger] s[i].rate > 0
}

/// Rates stay positive across `apply_level` with a positive rate.
proof fn lemma_apply_positive(s: Seq<Record>, p: int, rate: u64, amount: u64)
    requires
        0 <= p <= s.len(),
        positive_rates(s),
        rate > 0,
    ensures
        positive_rates(apply_level(s, p, rate, amount)),
{
    let t = apply_level(s, p, rate, amount);
    let found = p < s.len() && s[p].rate == rate;
    assert forall|i: int| 0 <= i < t.len() implies #[trigger] t[i].rate > 0 by {
        if amount == 0 {
            if found {
                let i0 = if i < p { i } else { i + 1 };
                assert(t[i] == s[i0]);
            }
        } else if found {
            assert(t[i].rate == s[i].rate);
        } else if i != p {
            let i0 = if i < p { i } else { i - 1 };
            assert(t[i] == s[i0]);
        }
    }
}

/// With positive rates, the best sell is the front of the sell side, or 0
/// when it is empty, before and after an update.
pub proof fn law_best_sell_is_front(
    a: BookStats,
    b: BookStats,
    rate: u64,
    amount: u64,
    prev: Option<u64>,
)
    requires
        a.wf(),
        positive_rates(a.vec_sell@),
        rate > 0,
        a.min_sell == front_rate(a.vec_sell@),
        sell_updated(a, b, rate, amount, prev),
    ensures
        b.min_sell == front_rate(b.vec_sell@),
        positive_rates(b.vec_sell@),
{
    let s = a.vec_sell@;
    let t = b.vec_sell@;
    let p = first_at_least(s, rate);
    lemma_first_at_least_props(s, rate);
    lemma_apply_positive(s, p, rate, amount);
    let found = p < s.len() && s[p].rate == rate;
    if amount == 0 {
        if found && p == 0 {
        } else if found {
            assert(t[0] == s[0]);
        }
    } else if found {
        assert(t[0].rate == s[0].rate);
    } else if p == 0 {
        assert(t[0].rate == rate);
        if s.len() > 0 {
            assert(rate < s[0].rate);
        }
    } else {
        assert(t[0] == s[0]);
        assert(s[0].rate < rate);
    }
}

/// With positive rates, the best buy is the front of the buy side, or 0
/// when it is empty, before and after an update.
pub proof fn law_best_buy_is_front(
    a: BookStats,
    b: BookStats,
    rate: u64,
    amount: u64,
    prev: Option<u64>,
)
    requires
        a.wf(),
        positive_rates(a.vec_buy@),
        rate > 0,
        a.max_buy == front_rate(a.vec_buy@),
        buy_updated(a, b, rate, amount, prev),
    ensures
        b.max_buy == front_rate(b.vec_buy@),
        positive_rates(b.vec_buy@),
{
    let s = a.vec_buy@;
    let t = b.vec_buy@;
    let p = first_at_most(s, rate);
    lemma_first_at_most_props(s, rate);
    lemma_apply_positive(s, p, rate, amount);
    let found = p < s.len() && s[p].rate == rate;
    if amount == 0 {
        if found && p == 0 {
        } else if found {
            assert(t[0] == s[0]);
        }
    } else if found {
        assert(t[0].rate == s[0].rate);
    } else if p == 0 {
        assert(t[0].rate == rate);
        if s.len() > 0 {
            assert(rate > s[0].rate);
        }
    } else {
        assert(t[0] == s[0]);
        assert(s[0].rate > rate);
    }
}

/// Fresh statistics start with the best rates at the fronts of the sides,
/// and with positive rates only.
pub proof fn law_fresh_best_is_front(st: BookStats, book: Book)
    requires
        fresh_stats(st, book),
    ensures
        st.min_sell == front_rate(st.vec_sell@),
        st.max_buy == front_rate(st.vec_buy@),
        positive_rates(st.vec_sell@),
        positive_rates(st.vec_buy@),
{
    let ks = choose|ks: Seq<Seq<char>>| lists_levels(st.vec_sell@, book.sell@, ks, true);
    assert forall|i: int| 0 <= i < st.vec_sell@.len() implies #[trigger] st.vec_sell@[i].rate > 0 by {
        assert(ks[i] == ks[i]);
    }
    let kb = choose|ks: Seq<Seq<char>>| lists_levels(st.vec_buy@, book.buy@, ks, false);
    assert forall|i: int| 0 <= i < st.vec_buy@.len() implies #[trigger] st.vec_buy@[i].rate > 0 by {
        assert(kb[i] == kb[i]);
    }
}

/// A snapshot level whose rate lies beyond a decade of the best rate has
/// no record in fresh statistics, though the book still holds it.
pub proof fn law_distant_levels_trimmed(st: BookStats, book: Book, k: Seq<char>, r: nat)
    requires
        fresh_stats(st, book),
        decimal_units(k) == Some(r),
    ensures
        book.sell@.contains_key(k) && !in_window(r as u64, st.min_sell, true) ==> forall|i: int|
            0 <= i < st.vec_sell@.len() ==> #[trigger] st.vec_sell@[i].rate != r,
        book.buy@.contains_key(k) && !in_window(r as u64, st.max_buy, false) ==> forall|i: int|
            0 <= i < st.vec_buy@.len() ==> #[trigger] st.vec_buy@[i].rate != r,
{
    crate::decimal::lemma_units_bound(k);
    let ks = choose|ks: Seq<Seq<char>>| lists_levels(st.vec_sell@, book.sell@, ks, true);
    let kb = choose|ks: Seq<Seq<char>>| lists_levels(st.vec_buy@, book.buy@, ks, false);
    if book.sell@.contains_key(k) && !in_window(r as u64, st.min_sell, true) {
        assert forall|i: int| 0 <= i < st.vec_sell@.len() implies #[trigger] st.vec_sell@[i].rate
            != r by {
            assert(ks[i] == ks[i]);
        }
    }
    if book.buy@.contains_key(k) && !in_window(r as u64, st.max_buy, false) {
        assert forall|i: int| 0 <= i < st.vec_buy@.len() implies #[trigger] st.vec_buy@[i].rate
            != r by {
            assert(kb[i] == kb[i]);
        }
    }
}

} // verus!
