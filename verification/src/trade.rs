//! The canonical round-trip trade: a matched entry/exit pair, and its
//! ledger status. A trade that was folded into a merged trade is retired,
//! never deleted: its status carries the identifier of the superseding
//! trade, so "retired" and "has a supersessor" cannot drift apart.

use vstd::prelude::*;
use crate::record::{Side, LOT_MAX, RATE_MAX, TIME_LO, TIME_HI};

verus! {

/// Largest profit, swap or pip magnitude a trade may carry.
pub const AMOUNT_MAX: i64 = 1_000_000_000_000;

/// Ledger status of a persisted trade.
#[derive(Clone, Copy, PartialEq, Eq, Structural, Debug)]
pub enum TradeStatus {
    /// Live: visible to reads, aggregation and merging.
    Active,
    /// Folded into the merged trade with the given identifier; excluded
    /// from every read and never a merge source again.
    MergedAway(i64),
}

/// One matched round trip.
#[derive(Debug)]
pub struct Trade {
    /// Currency pair symbol.
    pub pair: String,
    /// Direction of the entry leg.
    pub side: Side,
    /// Matched size in ten-thousandths of a lot.
    pub lot: i64,
    /// Entry price in hundred-thousandths of a price unit.
    pub entry_rate: i64,
    /// Exit price in hundred-thousandths of a price unit.
    pub exit_rate: i64,
    /// Entry instant, seconds since the Unix epoch, UTC.
    pub entry_time: i64,
    /// Exit instant, seconds since the Unix epoch, UTC.
    pub exit_time: i64,
    /// Realised profit in minor currency units.
    pub profit: i64,
    /// Price distance in tenths of a pip, signed with the profit direction.
    pub profit_pips: i64,
    /// Swap carried by the closing leg, if reported.
    pub swap: Option<i64>,
    /// Free-text note.
    pub memo: String,
    /// Broker or account tag.
    pub account: String,
}

/// Mathematical image of a `Trade`.
#[verifier::ext_equal]
pub ghost struct TradeV {
    pub pair: Seq<char>,
    pub side: Side,
    pub lot: int,
    pub entry_rate: int,
    pub exit_rate: int,
    pub entry_time: int,
    pub exit_time: int,
    pub profit: int,
    pub profit_pips: int,
    pub swap: Option<int>,
    pub memo: Seq<char>,
    pub account: Seq<char>,
}

impl View for Trade {
    type V = TradeV;

    open spec fn view(&self) -> TradeV {
        TradeV {
            pair: self.pair@,
            side: self.side,
            lot: self.lot as int,
            entry_rate: self.entry_rate as int,
            exit_rate: self.exit_rate as int,
            entry_time: self.entry_time as int,
            exit_time: self.exit_time as int,
            profit: self.profit as int,
            profit_pips: self.profit_pips as int,
            swap: match self.swap {
                Some(s) => Some(s as int),
                None => None,
            },
            memo: self.memo@,
            account: self.account@,
        }
    }
}

impl TradeV {
    /// The invariant of a round trip: positive size and prices within the
    /// engine's limits, exit no earlier than entry, bounded amounts.
    pub open spec fn wf(self) -> bool {
        &&& 0 < self.lot <= LOT_MAX
        &&& 0 < self.entry_rate <= RATE_MAX
        &&& 0 < self.exit_rate <= RATE_MAX
        &&& TIME_LO <= self.entry_time <= self.exit_time <= TIME_HI
        &&& -AMOUNT_MAX <= self.profit <= AMOUNT_MAX
        &&& -AMOUNT_MAX <= self.profit_pips <= AMOUNT_MAX
        &&& match self.swap {
            Some(s) => -AMOUNT_MAX <= s <= AMOUNT_MAX,
            None => true,
        }
    }

    /// Holding time of the trade in seconds.
    pub open spec fn holding_time(self) -> int {
        self.exit_time - self.entry_time
    }
}

impl Trade {
    /// Runtime check of `TradeV::wf`.
    pub fn is_wf(&self) -> (r: bool)
        ensures
            r == self@.wf(),
    {
        let swap_ok = match self.swap {
            Some(s) => -AMOUNT_MAX <= s && s <= AMOUNT_MAX,
            None => true,
        };
        0 < self.lot && self.lot <= LOT_MAX && 0 < self.entry_rate && self.entry_rate <= RATE_MAX
            && 0 < self.exit_rate && self.exit_rate <= RATE_MAX && TIME_LO <= self.entry_time
            && self.entry_time <= self.exit_time && self.exit_time <= TIME_HI
            && -AMOUNT_MAX <= self.profit && self.profit <= AMOUNT_MAX
            && -AMOUNT_MAX <= self.profit_pips && self.profit_pips <= AMOUNT_MAX && swap_ok
    }
}

/// A trade as the ledger holds it: the trade, its identifier and status.
#[derive(Debug)]
pub struct StoredTrade {
    pub id: i64,
    pub status: TradeStatus,
    pub trade: Trade,
}

impl Clone for Trade {
    fn clone(&self) -> (res: Trade)
        ensures
            res@ == self@,
    {
        Trade {
            pair: self.pair.clone(),
            side: self.side,
            lot: self.lot,
            entry_rate: self.entry_rate,
            exit_rate: self.exit_rate,
            entry_time: self.entry_time,
            exit_time: self.exit_time,
            profit: self.profit,
            profit_pips: self.profit_pips,
            swap: self.swap,
            memo: self.memo.clone(),
            account: self.account.clone(),
        }
    }
}

/// Mathematical image of a `StoredTrade`.
#[verifier::ext_equal]
pub ghost struct StoredTradeV {
    pub id: int,
    pub status: TradeStatus,
    pub trade: TradeV,
}

impl View for StoredTrade {
    type V = StoredTradeV;

    open spec fn view(&self) -> StoredTradeV {
        StoredTradeV { id: self.id as int, status: self.status, trade: self.trade@ }
    }
}

impl StoredTradeV {
    pub open spec fn is_active(self) -> bool {
        self.status == TradeStatus::Active
    }
}

impl Clone for StoredTrade {
    fn clone(&self) -> (res: StoredTrade)
        ensures
            res@ == self@,
    {
        StoredTrade { id: self.id, status: self.status, trade: self.trade.clone() }
    }
}

} // verus!
