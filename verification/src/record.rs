//! The canonical execution-record leg: one row of a broker export after
//! normalisation. Prices are integers in hundred-thousandths of a price
//! unit, position sizes integers in ten-thousandths of a lot, so that the
//! matching rules are exact.

use vstd::prelude::*;

verus! {

/// Largest position size the engine accepts: one hundred thousand lots.
pub const LOT_MAX: i64 = 1_000_000_000;

/// Largest price the engine accepts: one hundred million price units.
pub const RATE_MAX: i64 = 10_000_000_000_000;

/// Earliest instant the engine accepts (0001-01-01T00:00:00 UTC).
pub const TIME_MIN: i64 = -62_135_596_800;

/// Latest instant the engine accepts (9999-12-31T23:59:59 UTC).
pub const TIME_MAX: i64 = 253_402_300_799;

/// Earliest instant a leg or trade may carry: two days inside the
/// supported range, so every business-day shift stays in range.
pub const TIME_LO: i64 = TIME_MIN + 172800;

/// Latest instant a leg or trade may carry.
pub const TIME_HI: i64 = TIME_MAX - 172800;

/// Direction of a leg: buying or selling the base currency.
#[derive(Clone, Copy, PartialEq, Eq, Structural, Debug)]
pub enum Side {
    Buy,
    Sell,
}

impl Side {
    /// The opposite direction.
    pub fn opposite(self) -> (r: Side)
        ensures
            r == self.spec_opposite(),
    {
        match self {
            Side::Buy => Side::Sell,
            Side::Sell => Side::Buy,
        }
    }

    pub open spec fn spec_opposite(self) -> Side {
        match self {
            Side::Buy => Side::Sell,
            Side::Sell => Side::Buy,
        }
    }

    /// The sign convention of the domain: buying is `+1`, selling is `-1`.
    pub open spec fn spec_sign(self) -> int {
        match self {
            Side::Buy => 1,
            Side::Sell => -1,
        }
    }
}

/// Whether a leg opens a position or closes one.
#[derive(Clone, Copy, PartialEq, Eq, Structural, Debug)]
pub enum LegType {
    Open,
    Close,
}

/// One normalised order leg.
#[derive(Debug)]
pub struct Record {
    /// Currency pair symbol.
    pub pair: String,
    /// Direction of this leg.
    pub side: Side,
    /// Opening or closing leg.
    pub trade_type: LegType,
    /// Size in ten-thousandths of a lot; positive for a valid leg.
    pub lot: i64,
    /// Execution price in hundred-thousandths of a price unit.
    pub rate: i64,
    /// Realised profit in minor currency units; closes carry it.
    pub profit: Option<i32>,
    /// Swap in minor currency units.
    pub swap: Option<i32>,
    /// Execution instant, seconds since the Unix epoch, UTC.
    pub order_time: i64,
}

/// Mathematical image of a `Record`.
#[verifier::ext_equal]
pub ghost struct RecordV {
    pub pair: Seq<char>,
    pub side: Side,
    pub trade_type: LegType,
    pub lot: int,
    pub rate: int,
    pub profit: Option<int>,
    pub swap: Option<int>,
    pub order_time: int,
}

impl View for Record {
    type V = RecordV;

    open spec fn view(&self) -> RecordV {
        RecordV {
            pair: self.pair@,
            side: self.side,
            trade_type: self.trade_type,
            lot: self.lot as int,
            rate: self.rate as int,
            profit: match self.profit {
                Some(p) => Some(p as int),
                None => None,
            },
            swap: match self.swap {
                Some(s) => Some(s as int),
                None => None,
            },
            order_time: self.order_time as int,
        }
    }
}

impl RecordV {
    /// A record the matching rules accept: positive size and price within
    /// the engine's limits, instant within the supported range.
    pub open spec fn wf(self) -> bool {
        &&& 0 < self.lot <= LOT_MAX
        &&& 0 < self.rate <= RATE_MAX
        &&& TIME_LO <= self.order_time <= TIME_HI
    }
}

impl Record {
    /// Runtime check of `RecordV::wf`.
    pub fn is_wf(&self) -> (r: bool)
        ensures
            r == self@.wf(),
    {
        0 < self.lot && self.lot <= LOT_MAX && 0 < self.rate && self.rate <= RATE_MAX
            && TIME_LO <= self.order_time && self.order_time <= TIME_HI
    }
}

impl Clone for Record {
    fn clone(&self) -> (res: Record)
        ensures
            res@ == self@,
    {
        Record {
            pair: self.pair.clone(),
            side: self.side,
            trade_type: self.trade_type,
            lot: self.lot,
            rate: self.rate,
            profit: self.profit,
            swap: self.swap,
            order_time: self.order_time,
        }
    }
}

/// The records are in chronological order of execution.
pub open spec fn sorted_by_time(rs: Seq<RecordV>) -> bool {
    forall|i: int, j: int| 0 <= i <= j < rs.len() ==> #[trigger] rs[i].order_time <= #[trigger] rs[j].order_time
}

} // verus!
