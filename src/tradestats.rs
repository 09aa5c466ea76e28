//! Additive aggregates of executed deals.
use crate::book::Deal;
use vstd::prelude::*;

verus! {

/// Sell and buy volume (units of 10^-8), their counter-currency volume
/// (amount times rate, units of 10^-16) and the number of deals per side.
#[derive(Clone, Copy, Debug, PartialEq, Eq, Structural)]
pub struct TradeStats {
    pub sum_sell: u128,
    pub sum_buy: u128,
    pub sum_sell_dest: u128,
    pub sum_buy_dest: u128,
    pub num_sell: u64,
    pub num_buy: u64,
}

pub open spec fn sat128(x: int) -> u128 {
    if x > u128::MAX {
        u128::MAX
    } else if x < 0 {
        0
    } else {
        x as u128
    }
}

pub open spec fn sat64(x: int) -> u64 {
    if x > u64::MAX {
        u64::MAX
    } else if x < 0 {
        0
    } else {
        x as u64
    }
}

pub open spec fn zero_stats() -> TradeStats {
    TradeStats {
        sum_sell: 0,
        sum_buy: 0,
        sum_sell_dest: 0,
        sum_buy_dest: 0,
        num_sell: 0,
        num_buy: 0,
    }
}

/// Pointwise sum, saturating at each field's largest value.
pub open spec fn add_spec(a: TradeStats, b: TradeStats) -> TradeStats {
    TradeStats {
        sum_sell: sat128(a.sum_sell + b.sum_sell),
        sum_buy: sat128(a.sum_buy + b.sum_buy),
        sum_sell_dest: sat128(a.sum_sell_dest + b.sum_sell_dest),
        sum_buy_dest: sat128(a.sum_buy_dest + b.sum_buy_dest),
        num_sell: sat64(a.num_sell + b.num_sell),
        num_buy: sat64(a.num_buy + b.num_buy),
    }
}

/// Pointwise difference; a side whose count does not stay positive is
/// cleared, and no field goes below zero.
pub open spec fn sub_spec(a: TradeStats, b: TradeStats) -> TradeStats {
    let num_sell = sat64(a.num_sell - b.num_sell);
    let num_buy = sat64(a.num_buy - b.num_buy);
    TradeStats {
        sum_sell: if num_sell > 0 {
            sat128(a.sum_sell - b.sum_sell)
        } else {
            0
        },
        sum_sell_dest: if num_sell > 0 {
            sat128(a.sum_sell_dest - b.sum_sell_dest)
        } else {
            0
        },
        sum_buy: if num_buy > 0 {
            sat128(a.sum_buy - b.sum_buy)
        } else {
            0
        },
        sum_buy_dest: if num_buy > 0 {
            sat128(a.sum_buy_dest - b.sum_buy_dest)
        } else {
            0
        },
        num_sell,
        num_buy,
    }
}

/// The aggregate of one deal: a positive amount is a buy, any other a sell.
pub open spec fn deal_stats(d: Deal) -> TradeStats {
    if d.amount > 0 {
        TradeStats {
            sum_sell: 0,
            sum_buy: d.amount as u128,
            sum_sell_dest: 0,
            sum_buy_dest: (d.amount * d.rate) as u128,
            num_sell: 0,
            num_buy: 1,
        }
    } else {
        TradeStats {
            sum_sell: (-d.amount) as u128,
            sum_buy: 0,
            sum_sell_dest: ((-d.amount) * d.rate) as u128,
            sum_buy_dest: 0,
            num_sell: 1,
            num_buy: 0,
        }
    }
}

/// The aggregate of deals, added in order.
pub open spec fn fold_deals(ds: Seq<Deal>) -> TradeStats
    decreases ds.len(),
{
    if ds.len() == 0 {
        zero_stats()
    } else {
        add_spec(fold_deals(ds.drop_last()), deal_stats(ds.last()))
    }
}

/// A side with no deals has no volume.
pub open spec fn consistent(a: TradeStats) -> bool {
    &&& a.num_sell == 0 ==> a.sum_sell == 0 && a.sum_sell_dest == 0
    &&& a.num_buy == 0 ==> a.sum_buy == 0 && a.sum_buy_dest == 0
}

/// No field of `a + b` saturates.
pub open spec fn fits(a: TradeStats, b: TradeStats) -> bool {
    &&& a.sum_sell + b.sum_sell <= u128::MAX
    &&& a.sum_buy + b.sum_buy <= u128::MAX
    &&& a.sum_sell_dest + b.sum_sell_dest <= u128::MAX
    &&& a.sum_buy_dest + b.sum_buy_dest <= u128::MAX
    &&& a.num_sell + b.num_sell <= u64::MAX
    &&& a.num_buy + b.num_buy <= u64::MAX
}

impl Default for TradeStats {
    fn default() -> (r: TradeStats)
        ensures
            r == zero_stats(),
    {
        TradeStats {
            sum_sell: 0,
            sum_buy: 0,
            sum_sell_dest: 0,
            sum_buy_dest: 0,
            num_sell: 0,
            num_buy: 0,
        }
    }
}

impl TradeStats {
    /// The aggregate of a set of deals.
    pub fn new(deals: &[&Deal]) -> (r: TradeStats)
        ensures
            r == fold_deals(deals@.map_values(|d: &Deal| *d)),
    {
        let ghost ds = deals@.map_values(|d: &Deal| *d);
        let mut acc = TradeStats::default();
        let mut i: usize = 0;
        assert(ds.take(0) =~= Seq::<Deal>::empty());
        while i < deals.len()
            invariant
                i <= deals@.len(),
                ds == deals@.map_values(|d: &Deal| *d),
                acc == fold_deals(ds.take(i as int)),
            decreases deals@.len() - i,
        {
            acc = acc.add_deal(deals[i]);
            assert(ds.take(i as int + 1).drop_last() =~= ds.take(i as int));
            i = i + 1;
        }
        assert(ds.take(deals@.len() as int) =~= ds);
        acc
    }

    pub fn add_stats(&self, other: &TradeStats) -> (r: TradeStats)
        ensures
            r == add_spec(*self, *other),
    {
        TradeStats {
            sum_sell: self.sum_sell.saturating_add(other.sum_sell),
            sum_buy: self.sum_buy.saturating_add(other.sum_buy),
            sum_sell_dest: self.sum_sell_dest.saturating_add(other.sum_sell_dest),
            sum_buy_dest: self.sum_buy_dest.saturating_add(other.sum_buy_dest),
            num_sell: self.num_sell.saturating_add(other.num_sell),
            num_buy: self.num_buy.saturating_add(other.num_buy),
        }
    }

    pub fn add_deal(&self, deal: &Deal) -> (r: TradeStats)
        ensures
            r == add_spec(*self, deal_stats(*deal)),
    {
        let one = if deal.amount > 0 {
            let a = deal.amount as u128;
            assert(a * deal.rate <= u128::MAX) by (nonlinear_arith)
                requires
                    a <= i64::MAX,
                    deal.rate <= u64::MAX,
            ;
            TradeStats {
                sum_sell: 0,
                sum_buy: a,
                sum_sell_dest: 0,
                sum_buy_dest: a * deal.rate as u128,
                num_sell: 0,
                num_buy: 1,
            }
        } else {
            let a = (-(deal.amount as i128)) as u128;
            assert(a * deal.rate <= u128::MAX) by (nonlinear_arith)
                requires
                    a <= i64::MAX + 1,
                    deal.rate <= u64::MAX,
            ;
            TradeStats {
                sum_sell: a,
                sum_buy: 0,
                sum_sell_dest: a * deal.rate as u128,
                sum_buy_dest: 0,
                num_sell: 1,
                num_buy: 0,
            }
        };
        self.add_stats(&one)
    }

    pub fn sub_stats(&self, other: &TradeStats) -> (r: TradeStats)
        ensures
            r == sub_spec(*self, *other),
    {
        let num_sell = self.num_sell.saturating_sub(other.num_sell);
        let num_buy = self.num_buy.saturating_sub(other.num_buy);
        let (mut sum_sell, mut sum_sell_dest, mut sum_buy, mut sum_buy_dest) = (0u128, 0u128, 0u128, 0u128);
        if num_sell > 0 {
            sum_sell = self.sum_sell.saturating_sub(other.sum_sell);
            sum_sell_dest = self.sum_sell_dest.saturating_sub(other.sum_sell_dest);
        }
        if num_buy > 0 {
            sum_buy = self.sum_buy.saturating_sub(other.sum_buy);
            sum_buy_dest = self.sum_buy_dest.saturating_sub(other.sum_buy_dest);
        }
        TradeStats { sum_sell, sum_buy, sum_sell_dest, sum_buy_dest, num_sell, num_buy }
    }
}

/// Taking an aggregate away from itself leaves nothing: for any deals,
/// their aggregate minus itself is the empty aggregate.
pub proof fn law_fold_minus_itself(ds: Seq<Deal>)
    ensures
        sub_spec(fold_deals(ds), fold_deals(ds)) == zero_stats(),
{
}

/// Adding `b` and then taking it away gives back `a`, when both have no
/// volume on a side without deals and no field saturates.
pub proof fn law_add_then_sub(a: TradeStats, b: TradeStats)
    requires
        consistent(a),
        consistent(b),
        fits(a, b),
    ensures
        sub_spec(add_spec(a, b), b) == a,
{
}

/// An aggregate of deals has volume only on sides with deals.
pub proof fn lemma_fold_consistent(ds: Seq<Deal>)
    ensures
        consistent(fold_deals(ds)),
    decreases ds.len(),
{
    if ds.len() > 0 {
        lemma_fold_consistent(ds.drop_last());
    }
}

} // verus!
