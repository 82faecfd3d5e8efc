//! The summary aggregator: a pure reduction of a trade set into counts,
//! win/loss totals and holding-time totals, globally or grouped by
//! business day. Zero-profit trades count toward neither wins nor
//! losses. Averages are exact ratios of a total and a count; an empty
//! class has the zero ratio, so no division ever happens.

use vstd::prelude::*;
use crate::busday::{business_day_spec, business_epoch_day};
use crate::calendar::{civil_from_days, epoch_day_of, BusinessDate};
use crate::error::TradeError;
use crate::matching::views_of_trades;
use crate::store::{all_trades_spec, views_of_stored, TradeFilter, TradeStore};
use crate::trade::{StoredTrade, Trade, TradeV, AMOUNT_MAX};

verus! {

/// Most trades one summary may reduce.
pub const SUMMARY_MAX: usize = 4_000_000;

pub open spec fn is_win(t: TradeV) -> bool {
    t.profit > 0
}

pub open spec fn is_loss(t: TradeV) -> bool {
    t.profit < 0
}

pub open spec fn sum_profit(s: Seq<TradeV>) -> int
    decreases s.len(),
{
    if s.len() == 0 {
        0
    } else {
        sum_profit(s.drop_last()) + s.last().profit
    }
}

pub open spec fn sum_pips(s: Seq<TradeV>) -> int
    decreases s.len(),
{
    if s.len() == 0 {
        0
    } else {
        sum_pips(s.drop_last()) + s.last().profit_pips
    }
}

pub open spec fn count_wins(s: Seq<TradeV>) -> int
    decreases s.len(),
{
    if s.len() == 0 {
        0
    } else {
        count_wins(s.drop_last()) + if is_win(s.last()) {
            1int
        } else {
            0int
        }
    }
}

pub open spec fn count_losses(s: Seq<TradeV>) -> int
    decreases s.len(),
{
    if s.len() == 0 {
        0
    } else {
        count_losses(s.drop_last()) + if is_loss(s.last()) {
            1int
        } else {
            0int
        }
    }
}

pub open spec fn sum_win_profit(s: Seq<TradeV>) -> int
    decreases s.len(),
{
    if s.len() == 0 {
        0
    } else {
        sum_win_profit(s.drop_last()) + if is_win(s.last()) {
            s.last().profit
        } else {
            0int
        }
    }
}

pub open spec fn sum_loss_profit(s: Seq<TradeV>) -> int
    decreases s.len(),
{
    if s.len() == 0 {
        0
    } else {
        sum_loss_profit(s.drop_last()) + if is_loss(s.last()) {
            s.last().profit
        } else {
            0int
        }
    }
}

pub open spec fn sum_win_pips(s: Seq<TradeV>) -> int
    decreases s.len(),
{
    if s.len() == 0 {
        0
    } else {
        sum_win_pips(s.drop_last()) + if is_win(s.last()) {
            s.last().profit_pips
        } else {
            0int
        }
    }
}

pub open spec fn sum_loss_pips(s: Seq<TradeV>) -> int
    decreases s.len(),
{
    if s.len() == 0 {
        0
    } else {
        sum_loss_pips(s.drop_last()) + if is_loss(s.last()) {
            s.last().profit_pips
        } else {
            0int
        }
    }
}

pub open spec fn sum_holding(s: Seq<TradeV>) -> int
    decreases s.len(),
{
    if s.len() == 0 {
        0
    } else {
        sum_holding(s.drop_last()) + s.last().holding_time()
    }
}

pub open spec fn sum_holding_wins(s: Seq<TradeV>) -> int
    decreases s.len(),
{
    if s.len() == 0 {
        0
    } else {
        sum_holding_wins(s.drop_last()) + if is_win(s.last()) {
            s.last().holding_time()
        } else {
            0int
        }
    }
}

pub open spec fn sum_holding_losses(s: Seq<TradeV>) -> int
    decreases s.len(),
{
    if s.len() == 0 {
        0
    } else {
        sum_holding_losses(s.drop_last()) + if is_loss(s.last()) {
            s.last().holding_time()
        } else {
            0int
        }
    }
}

/// An exact average: a total over a count. A zero count stands for the
/// zero average and asks for no division.
#[derive(Clone, Copy, PartialEq, Eq, Structural, Debug)]
pub struct Ratio {
    pub num: i64,
    pub den: i64,
}

/// The statistics of a trade set.
pub struct TradeSummary {
    pub trades: Vec<Trade>,
    pub profit: i64,
    pub profit_pips: i64,
    pub count: i64,
    pub wins: i64,
    pub losses: i64,
    pub win_total: i64,
    pub loss_total: i64,
    pub win_pips_total: i64,
    pub loss_pips_total: i64,
    pub total_holding_time: i64,
    pub total_holding_time_wins: i64,
    pub total_holding_time_losses: i64,
}

/// What it means for a summary to summarise the trade set `s`.
pub open spec fn summary_matches(sm: &TradeSummary, s: Seq<TradeV>) -> bool {
    &&& views_of_trades(sm.trades@) == s
    &&& sm.count == s.len()
    &&& sm.profit == sum_profit(s)
    &&& sm.profit_pips == sum_pips(s)
    &&& sm.wins == count_wins(s)
    &&& sm.losses == count_losses(s)
    &&& sm.win_total == sum_win_profit(s)
    &&& sm.loss_total == sum_loss_profit(s)
    &&& sm.win_pips_total == sum_win_pips(s)
    &&& sm.loss_pips_total == sum_loss_pips(s)
    &&& sm.total_holding_time == sum_holding(s)
    &&& sm.total_holding_time_wins == sum_holding_wins(s)
    &&& sm.total_holding_time_losses == sum_holding_losses(s)
}

impl TradeSummary {
    /// Reduces a trade set to its statistics.
    #[verifier::loop_isolation(false)]
    #[verifier::rlimit(60)]
    pub fn from_trades(trades: Vec<Trade>) -> (r: TradeSummary)
        requires
            trades@.len() <= SUMMARY_MAX,
            forall|k: int| 0 <= k < trades@.len() ==> (#[trigger] trades@[k])@.wf(),
        ensures
            summary_matches(&r, views_of_trades(trades@)),
    {
        let ghost s = views_of_trades(trades@);
        let n: usize = trades.len();
        let mut profit: i64 = 0;
        let mut profit_pips: i64 = 0;
        let mut wins: i64 = 0;
        let mut losses: i64 = 0;
        let mut win_total: i64 = 0;
        let mut loss_total: i64 = 0;
        let mut win_pips_total: i64 = 0;
        let mut loss_pips_total: i64 = 0;
        let mut total_holding_time: i64 = 0;
        let mut total_holding_time_wins: i64 = 0;
        let mut total_holding_time_losses: i64 = 0;
        let mut i: usize = 0;
        proof {
            assert(s.take(0) =~= Seq::<TradeV>::empty());
        }
        while i < n
            invariant
                i <= n,
                n == trades@.len(),
                profit == sum_profit(s.take(i as int)),
                profit_pips == sum_pips(s.take(i as int)),
                wins == count_wins(s.take(i as int)),
                losses == count_losses(s.take(i as int)),
                win_total == sum_win_profit(s.take(i as int)),
                loss_total == sum_loss_profit(s.take(i as int)),
                win_pips_total == sum_win_pips(s.take(i as int)),
                loss_pips_total == sum_loss_pips(s.take(i as int)),
                total_holding_time == sum_holding(s.take(i as int)),
                total_holding_time_wins == sum_holding_wins(s.take(i as int)),
                total_holding_time_losses == sum_holding_losses(s.take(i as int)),
                -i * AMOUNT_MAX <= profit <= i * AMOUNT_MAX,
                -i * AMOUNT_MAX <= profit_pips <= i * AMOUNT_MAX,
                0 <= wins <= i,
                0 <= losses <= i,
                -i * AMOUNT_MAX <= win_total <= i * AMOUNT_MAX,
                -i * AMOUNT_MAX <= loss_total <= i * AMOUNT_MAX,
                -i * AMOUNT_MAX <= win_pips_total <= i * AMOUNT_MAX,
                -i * AMOUNT_MAX <= loss_pips_total <= i * AMOUNT_MAX,
                0 <= total_holding_time <= i * 507_153_801_598,
                0 <= total_holding_time_wins <= i * 507_153_801_598,
                0 <= total_holding_time_losses <= i * 507_153_801_598,
            decreases n - i,
        {
            proof {
                assert(s.take(i + 1).drop_last() =~= s.take(i as int));
                assert(s.take(i + 1).last() == trades@[i as int]@);
            }
            let t = &trades[i];
            let holding: i64 = t.exit_time - t.entry_time;
            profit = profit + t.profit;
            profit_pips = profit_pips + t.profit_pips;
            total_holding_time = total_holding_time + holding;
            if t.profit > 0 {
                wins = wins + 1;
                win_total = win_total + t.profit;
                win_pips_total = win_pips_total + t.profit_pips;
                total_holding_time_wins = total_holding_time_wins + holding;
            } else if t.profit < 0 {
                losses = losses + 1;
                loss_total = loss_total + t.profit;
                loss_pips_total = loss_pips_total + t.profit_pips;
                total_holding_time_losses = total_holding_time_losses + holding;
            }
            i = i + 1;
        }
        proof {
            assert(s.take(n as int) =~= s);
        }
        TradeSummary {
            count: n as i64,
            trades,
            profit,
            profit_pips,
            wins,
            losses,
            win_total,
            loss_total,
            win_pips_total,
            loss_pips_total,
            total_holding_time,
            total_holding_time_wins,
            total_holding_time_losses,
        }
    }

    /// Average profit of the winning trades.
    pub fn avg_profit_wins(&self) -> (r: Ratio)
        ensures
            r.num == self.win_total && r.den == self.wins,
    {
        Ratio { num: self.win_total, den: self.wins }
    }

    /// Average profit of the losing trades.
    pub fn avg_profit_losses(&self) -> (r: Ratio)
        ensures
            r.num == self.loss_total && r.den == self.losses,
    {
        Ratio { num: self.loss_total, den: self.losses }
    }

    /// Average pips of the winning trades.
    pub fn avg_profit_pips_wins(&self) -> (r: Ratio)
        ensures
            r.num == self.win_pips_total && r.den == self.wins,
    {
        Ratio { num: self.win_pips_total, den: self.wins }
    }

    /// Average pips of the losing trades.
    pub fn avg_profit_pips_losses(&self) -> (r: Ratio)
        ensures
            r.num == self.loss_pips_total && r.den == self.losses,
    {
        Ratio { num: self.loss_pips_total, den: self.losses }
    }

    /// Average holding time over the whole set.
    pub fn avg_holding_time(&self) -> (r: Ratio)
        ensures
            r.num == self.total_holding_time && r.den == self.count,
    {
        Ratio { num: self.total_holding_time, den: self.count }
    }

    /// Average holding time of the winning trades.
    pub fn avg_holding_time_wins(&self) -> (r: Ratio)
        ensures
            r.num == self.total_holding_time_wins && r.den == self.wins,
    {
        Ratio { num: self.total_holding_time_wins, den: self.wins }
    }

    /// Average holding time of the losing trades.
    pub fn avg_holding_time_losses(&self) -> (r: Ratio)
        ensures
            r.num == self.total_holding_time_losses && r.den == self.losses,
    {
        Ratio { num: self.total_holding_time_losses, den: self.losses }
    }
}

/// On the empty trade set every count and total of the summary is zero,
/// and every average is the zero ratio with a zero count: nothing is
/// ever divided by zero.
pub proof fn lemma_summary_of_empty(sm: &TradeSummary)
    requires
        summary_matches(sm, Seq::empty()),
    ensures
        sm.count == 0,
        sm.profit == 0,
        sm.profit_pips == 0,
        sm.wins == 0,
        sm.losses == 0,
        sm.win_total == 0,
        sm.loss_total == 0,
        sm.win_pips_total == 0,
        sm.loss_pips_total == 0,
        sm.total_holding_time == 0,
        sm.total_holding_time_wins == 0,
        sm.total_holding_time_losses == 0,
{
}

/// The statistics of one business day.
pub struct DailySummary {
    pub date: BusinessDate,
    pub summary: TradeSummary,
}

/// Statistics of one day in the older, flat shape.
#[derive(Clone, Copy, PartialEq, Eq, Structural, Debug)]
pub struct DailyRecord {
    pub profit: i32,
    pub count: i32,
}

/// The trades of business day `d`, among `s`, in the order of `s`.
pub open spec fn day_group_spec(s: Seq<TradeV>, d: int) -> Seq<TradeV> {
    s.filter(|t: TradeV| business_day_spec(t.exit_time) == d)
}

/// The live trades of the ledger in read order, as bare trades.
pub open spec fn live_trades_spec(store: TradeStore) -> Seq<TradeV> {
    crate::merge::trades_of(all_trades_spec(views_of_stored(store.items@)))
}

/// Strictly ascending.
pub open spec fn sorted_strict(s: Seq<i64>) -> bool {
    forall|i: int, j: int| 0 <= i < j < s.len() ==> (#[trigger] s[i]) < (#[trigger] s[j])
}

/// Whether the day list holds the day `d`.
pub open spec fn has_day(keys: Seq<i64>, d: int) -> bool {
    exists|g: int| 0 <= g < keys.len() && (#[trigger] keys[g]) == d
}

/// Puts `day` into an ascending list of days, keeping it ascending and
/// free of duplicates.
#[verifier::loop_isolation(false)]
fn insert_day(keys: &mut Vec<i64>, day: i64)
    requires
        sorted_strict(old(keys)@),
    ensures
        sorted_strict(final(keys)@),
        has_day(final(keys)@, day as int),
        forall|d: int| has_day(old(keys)@, d) ==> has_day(final(keys)@, d),
        forall|d: int| has_day(final(keys)@, d) ==> has_day(old(keys)@, d) || d == day,
{
    let mut pos: usize = 0;
    while pos < keys.len() && keys[pos] < day
        invariant
            pos <= keys@.len(),
            forall|g: int| 0 <= g < pos ==> (#[trigger] keys@[g]) < day,
        decreases keys@.len() - pos,
    {
        pos = pos + 1;
    }
    if pos < keys.len() && keys[pos] == day {
        proof {
            assert(keys@[pos as int] == day);
            assert(has_day(keys@, day as int));
        }
        return ;
    }
    let ghost prev = keys@;
    keys.insert(pos, day);
    proof {
        assert(keys@ == prev.insert(pos as int, day));
        assert(forall|g: int| 0 <= g < pos ==> (#[trigger] keys@[g]) == prev[g]);
        assert(keys@[pos as int] == day);
        assert(forall|g: int| pos < g < keys@.len() ==> (#[trigger] keys@[g]) == prev[g - 1]);
        assert forall|i: int, j: int| 0 <= i < j < keys@.len() implies (#[trigger] keys@[i]) < (
        #[trigger] keys@[j]) by {
            if i < pos && j == pos {
            } else if i == pos && j > pos {
                assert(keys@[j] == prev[j - 1]);
                assert(prev[j - 1] >= day);
                if prev[j - 1] == day {
                    assert(pos < prev.len());
                    assert(prev[pos as int] >= day);
                    if j - 1 > pos {
                        assert(prev[pos as int] < prev[j - 1]);
                    }
                    assert(false);
                }
            }
        };
        assert(has_day(keys@, day as int)) by {
            assert(keys@[pos as int] == day);
        };
        assert forall|d: int| has_day(prev, d) implies has_day(keys@, d) by {
            let w = choose|w: int| 0 <= w < prev.len() && (#[trigger] prev[w]) == d;
            if w < pos {
                assert(keys@[w] == d);
            } else {
                assert(keys@[w + 1] == d);
            }
        };
        assert forall|d: int| has_day(keys@, d) implies has_day(prev, d) || d == day by {
            let w = choose|w: int| 0 <= w < keys@.len() && (#[trigger] keys@[w]) == d;
            if w < pos {
                assert(prev[w] == d);
            } else if w > pos {
                assert(prev[w - 1] == d);
            }
        };
    }
}

/// The distinct business days of the given live trades, ascending.
#[verifier::loop_isolation(false)]
#[verifier::rlimit(100)]
#[verifier::spinoff_prover]
fn collect_days(all: &Vec<StoredTrade>, Ghost(base): Ghost<Seq<TradeV>>) -> (keys: Vec<i64>)
    requires
        base.len() == all@.len(),
        forall|k: int| 0 <= k < all@.len() ==> (#[trigger] base[k]) == all@[k]@.trade,
        forall|k: int| 0 <= k < all@.len() ==> (#[trigger] all@[k])@.trade.wf(),
    ensures
        sorted_strict(keys@),
        forall|g: int|
            0 <= g < keys@.len() ==> epoch_day_of(1, 1, 1) <= (#[trigger] keys@[g]) <= epoch_day_of(
                9999,
                12,
                31,
            ),
        forall|j: int|
            0 <= j < base.len() ==> has_day(
                keys@,
                business_day_spec((#[trigger] base[j]).exit_time),
            ),
        forall|d: int|
            has_day(keys@, d) ==> exists|j: int|
                0 <= j < base.len() && business_day_spec((#[trigger] base[j]).exit_time) == d,
{
    let mut keys: Vec<i64> = Vec::new();
    let mut i: usize = 0;
    while i < all.len()
        invariant
            i <= all@.len(),
            sorted_strict(keys@),
            forall|g: int|
                0 <= g < keys@.len() ==> epoch_day_of(1, 1, 1) <= (#[trigger] keys@[g])
                    <= epoch_day_of(9999, 12, 31),
            forall|j: int|
                0 <= j < i ==> has_day(
                    keys@,
                    business_day_spec((#[trigger] base[j]).exit_time),
                ),
            forall|d: int|
                has_day(keys@, d) ==> exists|j: int|
                    0 <= j < i && business_day_spec((#[trigger] base[j]).exit_time) == d,
        decreases all@.len() - i,
    {
        let day: i64 = business_epoch_day(all[i].trade.exit_time);
        proof {
            assert(base[i as int] == all@[i as int]@.trade);
            assert(day == business_day_spec(base[i as int].exit_time));
        }
        let ghost before = keys@;
        insert_day(&mut keys, day);
        proof {
            assert forall|g: int| 0 <= g < keys@.len() implies epoch_day_of(1, 1, 1) <= (
            #[trigger] keys@[g]) <= epoch_day_of(9999, 12, 31) by {
                assert(has_day(keys@, keys@[g] as int));
                if keys@[g] != day {
                    assert(has_day(before, keys@[g] as int));
                    let g0 = choose|gg: int|
                        0 <= gg < before.len() && (#[trigger] before[gg]) == keys@[g] as int;
                    assert(epoch_day_of(1, 1, 1) <= before[g0] <= epoch_day_of(9999, 12, 31));
                }
            };
            assert forall|d: int| has_day(keys@, d) implies exists|j: int|
                0 <= j < i + 1 && business_day_spec((#[trigger] base[j]).exit_time) == d by {
                if d == day {
                    assert(business_day_spec(base[i as int].exit_time) == d);
                } else {
                    assert(has_day(before, d));
                }
            };
        }
        i = i + 1;
    }
    keys
}

/// The live trades of one business day, in read order.
#[verifier::loop_isolation(false)]
fn collect_group(all: &Vec<StoredTrade>, day: i64, Ghost(base): Ghost<Seq<TradeV>>) -> (group: Vec<
    Trade,
>)
    requires
        base.len() == all@.len(),
        forall|k: int| 0 <= k < all@.len() ==> (#[trigger] base[k]) == all@[k]@.trade,
        forall|k: int| 0 <= k < all@.len() ==> (#[trigger] all@[k])@.trade.wf(),
    ensures
        views_of_trades(group@) == day_group_spec(base, day as int),
        forall|k: int| 0 <= k < group@.len() ==> (#[trigger] group@[k])@.wf(),
{
    let mut group: Vec<Trade> = Vec::new();
    let mut j: usize = 0;
    proof {
        reveal(Seq::filter);
        assert(base.take(0) =~= Seq::<TradeV>::empty());
        assert(views_of_trades(group@) =~= day_group_spec(base.take(0), day as int));
    }
    while j < all.len()
        invariant
            j <= all@.len(),
            views_of_trades(group@) == day_group_spec(base.take(j as int), day as int),
            forall|k: int| 0 <= k < group@.len() ==> (#[trigger] group@[k])@.wf(),
        decreases all@.len() - j,
    {
        let t_day: i64 = business_epoch_day(all[j].trade.exit_time);
        proof {
            assert(base.take(j + 1).drop_last() =~= base.take(j as int));
            assert(base.take(j + 1).last() == base[j as int]);
            assert(base[j as int] == all@[j as int]@.trade);
            reveal(Seq::filter);
        }
        if t_day == day {
            group.push(all[j].trade.clone());
            proof {
                assert(views_of_trades(group@) =~= day_group_spec(
                    base.take(j as int),
                    day as int,
                ).push(base[j as int]));
            }
        }
        j = j + 1;
    }
    proof {
        assert(base.take(base.len() as int) =~= base);
    }
    group
}

/// One summary per business day that has live trades, ascending by
/// date: every live trade is bucketed by the business date of its exit,
/// every bucketed date appears, no listed date is empty, and each bucket
/// is reduced independently.
#[verifier::loop_isolation(false)]
#[verifier::rlimit(100)]
#[verifier::spinoff_prover]
pub fn fetch_daily_records(store: &TradeStore) -> (r: Result<Vec<DailySummary>, TradeError>)
    requires
        store.wf(),
    ensures
        match r {
            Ok(out) => {
                let base = live_trades_spec(*store);
                &&& forall|g1: int, g2: int|
                    0 <= g1 < g2 < out@.len() ==> epoch_day_of(
                        (#[trigger] out@[g1]).date.year as int,
                        out@[g1].date.month as int,
                        out@[g1].date.day as int,
                    ) < epoch_day_of(
                        (#[trigger] out@[g2]).date.year as int,
                        out@[g2].date.month as int,
                        out@[g2].date.day as int,
                    )
                &&& forall|g: int|
                    0 <= g < out@.len() ==> (#[trigger] out@[g]).date.wf() && summary_matches(
                        &out@[g].summary,
                        day_group_spec(
                            base,
                            epoch_day_of(
                                out@[g].date.year as int,
                                out@[g].date.month as int,
                                out@[g].date.day as int,
                            ),
                        ),
                    ) && day_group_spec(
                        base,
                        epoch_day_of(
                            out@[g].date.year as int,
                            out@[g].date.month as int,
                            out@[g].date.day as int,
                        ),
                    ).len() > 0
                &&& forall|j: int|
                    0 <= j < base.len() ==> exists|g: int|
                        0 <= g < out@.len() && epoch_day_of(
                            (#[trigger] out@[g]).date.year as int,
                            out@[g].date.month as int,
                            out@[g].date.day as int,
                        ) == business_day_spec((#[trigger] base[j]).exit_time)
            },
            Err(e) => e == TradeError::LimitExceeded && exists|d: int|
                day_group_spec(live_trades_spec(*store), d).len() > SUMMARY_MAX as int,
        },
{
    let all = store.get_all_trades();
    let ghost base = live_trades_spec(*store);
    proof {
        assert(base.len() == all@.len());
        assert(forall|k: int| 0 <= k < all@.len() ==> (#[trigger] base[k]) == all@[k]@.trade);
    }
    let keys = collect_days(&all, Ghost(base));
    let mut out: Vec<DailySummary> = Vec::new();
    let mut g: usize = 0;
    while g < keys.len()
        invariant
            g <= keys@.len(),
            out@.len() == g,
            forall|gg: int|
                0 <= gg < g ==> (#[trigger] out@[gg]).date.wf() && epoch_day_of(
                    out@[gg].date.year as int,
                    out@[gg].date.month as int,
                    out@[gg].date.day as int,
                ) == keys@[gg] && summary_matches(
                    &out@[gg].summary,
                    day_group_spec(base, keys@[gg] as int),
                ) && day_group_spec(base, keys@[gg] as int).len() > 0,
        decreases keys@.len() - g,
    {
        let day: i64 = keys[g];
        let group = collect_group(&all, day, Ghost(base));
        if group.len() > SUMMARY_MAX {
            proof {
                assert(day_group_spec(base, day as int).len() > SUMMARY_MAX as int);
            }
            return Err(TradeError::LimitExceeded);
        }
        proof {
            assert(has_day(keys@, day as int)) by {
                assert(keys@[g as int] == day);
            };
            let wj = choose|j: int|
                0 <= j < base.len() && business_day_spec((#[trigger] base[j]).exit_time)
                    == day as int;
            base.lemma_filter_contains(
                |t: TradeV| business_day_spec(t.exit_time) == day as int,
                wj,
            );
            assert(day_group_spec(base, day as int).len() > 0);
        }
        let date = civil_from_days(day);
        proof {
            crate::calendar::lemma_epoch_day_injective(
                date.year as int,
                date.month as int,
                date.day as int,
                date.year as int,
                date.month as int,
                date.day as int,
            );
        }
        let summary = TradeSummary::from_trades(group);
        out.push(DailySummary { date, summary });
        g = g + 1;
    }
    proof {
        assert forall|j: int| 0 <= j < base.len() implies exists|gg: int|
            0 <= gg < out@.len() && epoch_day_of(
                (#[trigger] out@[gg]).date.year as int,
                out@[gg].date.month as int,
                out@[gg].date.day as int,
            ) == business_day_spec((#[trigger] base[j]).exit_time) by {
            let d = business_day_spec(base[j].exit_time);
            assert(has_day(keys@, d));
            let wg = choose|g: int| 0 <= g < keys@.len() && (#[trigger] keys@[g]) == d;
            assert(epoch_day_of(
                out@[wg].date.year as int,
                out@[wg].date.month as int,
                out@[wg].date.day as int,
            ) == d);
        };
    }
    Ok(out)
}

/// The summary of the live trades passing a filter; refused exactly
/// where the selection exceeds the size cap.
#[verifier::loop_isolation(false)]
pub fn get_filtered_trades_summary(store: &TradeStore, filter: &TradeFilter) -> (r: Result<
    TradeSummary,
    TradeError,
>)
    requires
        store.wf(),
    ensures
        match r {
            Ok(sm) => summary_matches(
                &sm,
                crate::merge::trades_of(
                    crate::store::sort_desc(
                        crate::store::filter_live(
                            views_of_stored(store.items@),
                            crate::store::start_bound_spec(match filter.start_date {
                                Some(ref s) => Some(s@),
                                None => None,
                            }),
                            crate::store::end_bound_spec(match filter.end_date {
                                Some(ref s) => Some(s@),
                                None => None,
                            }),
                            match filter.min_holding_time {
                                Some(m) => Some(m as int),
                                None => None,
                            },
                            match filter.max_holding_time {
                                Some(m) => Some(m as int),
                                None => None,
                            },
                        ),
                    ),
                ),
            ),
            Err(e) => e == TradeError::LimitExceeded && crate::merge::trades_of(
                crate::store::sort_desc(
                    crate::store::filter_live(
                        views_of_stored(store.items@),
                        crate::store::start_bound_spec(match filter.start_date {
                            Some(ref s) => Some(s@),
                            None => None,
                        }),
                        crate::store::end_bound_spec(match filter.end_date {
                            Some(ref s) => Some(s@),
                            None => None,
                        }),
                        match filter.min_holding_time {
                            Some(m) => Some(m as int),
                            None => None,
                        },
                        match filter.max_holding_time {
                            Some(m) => Some(m as int),
                            None => None,
                        },
                    ),
                ),
            ).len() > SUMMARY_MAX as int,
        },
{
    let picked = store.get_by_filter(filter);
    if picked.len() > SUMMARY_MAX {
        return Err(TradeError::LimitExceeded);
    }
    let mut trades: Vec<Trade> = Vec::new();
    let ghost sel = crate::merge::trades_of(views_of_stored(picked@));
    let mut i: usize = 0;
    proof {
        assert(views_of_trades(trades@) =~= sel.take(0));
    }
    while i < picked.len()
        invariant
            i <= picked@.len(),
            sel.len() == picked@.len(),
            views_of_trades(trades@) == sel.take(i as int),
            forall|k: int| 0 <= k < picked@.len() ==> (#[trigger] sel[k]) == picked@[k]@.trade,
            forall|k: int| 0 <= k < picked@.len() ==> (#[trigger] picked@[k])@.trade.wf(),
            forall|k: int| 0 <= k < trades@.len() ==> (#[trigger] trades@[k])@.wf(),
        decreases picked@.len() - i,
    {
        trades.push(picked[i].trade.clone());
        proof {
            assert(views_of_trades(trades@) =~~= sel.take(i + 1));
        }
        i = i + 1;
    }
    proof {
        assert(sel.take(picked@.len() as int) =~= sel);
    }
    Ok(TradeSummary::from_trades(trades))
}

} // verus!
