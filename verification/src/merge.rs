//! The trade merger: folds broker-fragmented partial fills back into one
//! logical trade. Lots, profits and swaps add up; rates average and are
//! cut to three decimals; instants average with truncation; pips are
//! recomputed from the averaged rates, never summed. The sources are
//! retired with a reference to the merged trade.

use vstd::prelude::*;
use crate::error::TradeError;
use crate::num::{floor_div, round_half_away_div, spec_round_half_away};
use crate::record::{LOT_MAX, RATE_MAX, TIME_MIN, TIME_MAX};
use crate::store::{get_by_ids_spec, views_of_i64, views_of_stored, TradeStore};
use crate::trade::{StoredTradeV, Trade, TradeStatus, TradeV, AMOUNT_MAX};

verus! {

/// Most trades one merge may fold.
pub const MERGE_MAX: usize = 100_000;

pub open spec fn sum_lots(s: Seq<TradeV>) -> int
    decreases s.len(),
{
    if s.len() == 0 {
        0
    } else {
        sum_lots(s.drop_last()) + s.last().lot
    }
}

pub open spec fn sum_entry_rates(s: Seq<TradeV>) -> int
    decreases s.len(),
{
    if s.len() == 0 {
        0
    } else {
        sum_entry_rates(s.drop_last()) + s.last().entry_rate
    }
}

pub open spec fn sum_exit_rates(s: Seq<TradeV>) -> int
    decreases s.len(),
{
    if s.len() == 0 {
        0
    } else {
        sum_exit_rates(s.drop_last()) + s.last().exit_rate
    }
}

pub open spec fn sum_entry_times(s: Seq<TradeV>) -> int
    decreases s.len(),
{
    if s.len() == 0 {
        0
    } else {
        sum_entry_times(s.drop_last()) + s.last().entry_time
    }
}

pub open spec fn sum_exit_times(s: Seq<TradeV>) -> int
    decreases s.len(),
{
    if s.len() == 0 {
        0
    } else {
        sum_exit_times(s.drop_last()) + s.last().exit_time
    }
}

pub open spec fn sum_profits(s: Seq<TradeV>) -> int
    decreases s.len(),
{
    if s.len() == 0 {
        0
    } else {
        sum_profits(s.drop_last()) + s.last().profit
    }
}

/// The sum of the swaps, or `None` where any trade lacks one.
pub open spec fn sum_swaps(s: Seq<TradeV>) -> Option<int>
    decreases s.len(),
{
    if s.len() == 0 {
        Some(0)
    } else {
        match (sum_swaps(s.drop_last()), s.last().swap) {
            (Some(a), Some(b)) => Some(a + b),
            _ => None,
        }
    }
}

/// What a merge demands of its inputs: at least two live trades, all of
/// one pair and one side.
pub open spec fn validate_spec(s: Seq<TradeV>) -> Result<(), TradeError> {
    if s.len() < 2 {
        Err(TradeError::InsufficientMergeTrades)
    } else if exists|k: int| 0 <= k < s.len() && (#[trigger] s[k]).pair != s[0].pair {
        Err(TradeError::IncompatibleMerge)
    } else if exists|k: int| 0 <= k < s.len() && (#[trigger] s[k]).side != s[0].side {
        Err(TradeError::IncompatibleMerge)
    } else {
        Ok(())
    }
}

/// Rust's truncating integer division, for positive divisors.
pub open spec fn trunc_div(a: int, b: int) -> int {
    if a >= 0 {
        a / b
    } else {
        -((-a) / b)
    }
}

/// The merged trade: summed size, profit and swap; averaged rates cut to
/// three decimals; averaged instants, truncated; pips recomputed from the
/// averaged rates and the common side.
pub open spec fn merged_trade_spec(s: Seq<TradeV>) -> TradeV {
    let n = s.len() as int;
    let entry_avg = spec_round_half_away(sum_entry_rates(s), 100 * n) * 100;
    let exit_avg = spec_round_half_away(sum_exit_rates(s), 100 * n) * 100;
    TradeV {
        pair: s[0].pair,
        side: s[0].side,
        lot: sum_lots(s),
        entry_rate: entry_avg,
        exit_rate: exit_avg,
        entry_time: trunc_div(sum_entry_times(s), n),
        exit_time: trunc_div(sum_exit_times(s), n),
        profit: sum_profits(s),
        profit_pips: spec_round_half_away((exit_avg - entry_avg) * s[0].side.spec_sign(), 100),
        swap: sum_swaps(s),
        memo: Seq::empty(),
        account: Seq::empty(),
    }
}

/// Checks that trades may be merged: two or more, one pair, one side.
#[verifier::loop_isolation(false)]
pub fn validate(trades: &Vec<Trade>) -> (r: Result<(), TradeError>)
    ensures
        r == validate_spec(crate::matching::views_of_trades(trades@)),
{
    let ghost s = crate::matching::views_of_trades(trades@);
    if trades.len() < 2 {
        return Err(TradeError::InsufficientMergeTrades);
    }
    let mut i: usize = 1;
    while i < trades.len()
        invariant
            1 <= i <= trades@.len(),
            trades@.len() >= 2,
            forall|k: int| 0 <= k < i ==> (#[trigger] s[k]).pair == s[0].pair,
        decreases trades@.len() - i,
    {
        if !(trades[i].pair == trades[0].pair) {
            proof {
                assert(s[i as int].pair != s[0].pair);
            }
            return Err(TradeError::IncompatibleMerge);
        }
        i = i + 1;
    }
    let mut j: usize = 1;
    while j < trades.len()
        invariant
            1 <= j <= trades@.len(),
            trades@.len() >= 2,
            forall|k: int| 0 <= k < s.len() ==> (#[trigger] s[k]).pair == s[0].pair,
            forall|k: int| 0 <= k < j ==> (#[trigger] s[k]).side == s[0].side,
        decreases trades@.len() - j,
    {
        if !(trades[j].side == trades[0].side) {
            proof {
                assert(s[j as int].side != s[0].side);
            }
            return Err(TradeError::IncompatibleMerge);
        }
        j = j + 1;
    }
    Ok(())
}

/// Folds two or more trades of one pair and side into the single merged
/// trade.
#[verifier::loop_isolation(false)]
#[verifier::rlimit(60)]
pub fn merge(trades: &Vec<Trade>) -> (r: Trade)
    requires
        2 <= trades@.len() <= MERGE_MAX,
        forall|k: int| 0 <= k < trades@.len() ==> (#[trigger] trades@[k])@.wf(),
    ensures
        r@ == merged_trade_spec(crate::matching::views_of_trades(trades@)),
{
    let ghost s = crate::matching::views_of_trades(trades@);
    let n: usize = trades.len();
    let mut lot: i64 = 0;
    let mut entry_rates: i64 = 0;
    let mut exit_rates: i64 = 0;
    let mut entry_times: i64 = 0;
    let mut exit_times: i64 = 0;
    let mut profit: i64 = 0;
    let mut swap: Option<i64> = Some(0);
    let mut i: usize = 0;
    proof {
        assert(s.take(0) =~= Seq::<TradeV>::empty());
    }
    while i < n
        invariant
            i <= n,
            n == trades@.len(),
            lot == sum_lots(s.take(i as int)),
            entry_rates == sum_entry_rates(s.take(i as int)),
            exit_rates == sum_exit_rates(s.take(i as int)),
            entry_times == sum_entry_times(s.take(i as int)),
            exit_times == sum_exit_times(s.take(i as int)),
            profit == sum_profits(s.take(i as int)),
            (match swap {
                Some(v) => sum_swaps(s.take(i as int)) == Some(v as int) && -i * AMOUNT_MAX <= v
                    <= i * AMOUNT_MAX,
                None => sum_swaps(s.take(i as int)) is None,
            }),
            0 <= lot <= i * LOT_MAX,
            0 <= entry_rates <= i * RATE_MAX,
            0 <= exit_rates <= i * RATE_MAX,
            i * TIME_MIN <= entry_times <= i * TIME_MAX,
            i * TIME_MIN <= exit_times <= i * TIME_MAX,
            -i * AMOUNT_MAX <= profit <= i * AMOUNT_MAX,
        decreases n - i,
    {
        proof {
            assert(s.take(i + 1).drop_last() =~= s.take(i as int));
            assert(s.take(i + 1).last() == trades@[i as int]@);
        }
        let t = &trades[i];
        lot = lot + t.lot;
        entry_rates = entry_rates + t.entry_rate;
        exit_rates = exit_rates + t.exit_rate;
        entry_times = entry_times + t.entry_time;
        exit_times = exit_times + t.exit_time;
        profit = profit + t.profit;
        swap = match (swap, t.swap) {
            (Some(a), Some(b)) => Some(a + b),
            _ => None,
        };
        i = i + 1;
    }
    proof {
        assert(s.take(n as int) =~= s);
    }
    let divisor: u64 = 100 * (n as u64);
    proof {
        lemma_avg_times_100_in_range(sum_entry_rates(s), n as int);
        lemma_avg_times_100_in_range(sum_exit_rates(s), n as int);
    }
    let entry_avg: i64 = round_half_away_div(entry_rates, divisor) * 100;
    let exit_avg: i64 = round_half_away_div(exit_rates, divisor) * 100;
    let entry_time: i64 = trunc_div_exec(entry_times, n as i64);
    let exit_time: i64 = trunc_div_exec(exit_times, n as i64);
    let dir_diff: i64 = match trades[0].side {
        crate::record::Side::Buy => exit_avg - entry_avg,
        crate::record::Side::Sell => entry_avg - exit_avg,
    };
    proof {
        assert(dir_diff == (exit_avg - entry_avg) * s[0].side.spec_sign()) by {
            vstd::arithmetic::mul::lemma_mul_basics(exit_avg - entry_avg);
        };
    }
    let pips: i64 = round_half_away_div(dir_diff, 100);
    let r = Trade {
        pair: trades[0].pair.clone(),
        side: trades[0].side,
        lot,
        entry_rate: entry_avg,
        exit_rate: exit_avg,
        entry_time,
        exit_time,
        profit,
        profit_pips: pips,
        swap,
        memo: String::new(),
        account: String::new(),
    };
    proof {
        assert(r@ =~~= merged_trade_spec(s));
    }
    r
}

/// An averaged rate, rounded to three decimals, stays within the
/// engine's rate range.
proof fn lemma_avg_times_100_in_range(sum: int, n: int)
    requires
        2 <= n <= MERGE_MAX,
        0 <= sum <= n * RATE_MAX,
    ensures
        0 <= spec_round_half_away(sum, 100 * n) <= RATE_MAX / 100,
        0 <= spec_round_half_away(sum, 100 * n) * 100 <= RATE_MAX,
{
    let d = 100 * n;
    let q = (sum + d / 2) / d;
    vstd::arithmetic::div_mod::lemma_div_pos_is_pos(sum + d / 2, d);
    assert(sum + d / 2 < d * (RATE_MAX / 100 + 1)) by (nonlinear_arith)
        requires
            0 <= sum <= n * RATE_MAX,
            d == 100 * n,
            2 <= n,
            RATE_MAX == 10_000_000_000_000,
    ;
    vstd::arithmetic::div_mod::lemma_multiply_divide_lt(sum + d / 2, d, RATE_MAX / 100 + 1);
}

/// Rust's truncating division.
fn trunc_div_exec(a: i64, b: i64) -> (r: i64)
    requires
        0 < b <= 0x2000_0000_0000_0000,
        -0x2000_0000_0000_0000 <= a <= 0x2000_0000_0000_0000,
    ensures
        r == trunc_div(a as int, b as int),
{
    if a >= 0 {
        floor_div(a, b as u64)
    } else {
        let q = floor_div(-a, b as u64);
        -q
    }
}

/// Map a ledger selection to its bare trades.
pub open spec fn trades_of(s: Seq<StoredTradeV>) -> Seq<TradeV> {
    s.map_values(|t: StoredTradeV| t.trade)
}

/// The ledger items after the live trades named by `ids` are retired in
/// favour of the trade with identifier `to`: status is the one field
/// that moves.
pub open spec fn retire_m(items: Seq<StoredTradeV>, ids: Seq<int>, to: i64) -> Seq<StoredTradeV> {
    Seq::new(
        items.len(),
        |k: int|
            if items[k].status == TradeStatus::Active && ids.contains(items[k].id) {
                StoredTradeV { status: TradeStatus::MergedAway(to), ..items[k] }
            } else {
                items[k]
            },
    )
}

/// What one merge request does to the ledger: the selected live trades
/// must validate; the merged trade must lie within the engine's limits
/// and an identifier must be free; then the sources are retired in
/// favour of the appended merged trade. Anything less is the named
/// error, and the ledger does not move.
pub open spec fn merge_result_spec(items: Seq<StoredTradeV>, next_id: i64, ids: Seq<int>) -> Result<
    (Seq<StoredTradeV>, i64),
    TradeError,
> {
    let sel = trades_of(get_by_ids_spec(items, ids));
    match validate_spec(sel) {
        Err(e) => Err(e),
        Ok(_) => {
            if sel.len() > MERGE_MAX as int {
                Err(TradeError::LimitExceeded)
            } else if !merged_trade_spec(sel).wf() {
                Err(TradeError::LimitExceeded)
            } else if next_id as int >= i64::MAX - 1 {
                Err(TradeError::LimitExceeded)
            } else {
                Ok(
                    (
                        retire_m(items, ids, next_id).push(
                            StoredTradeV {
                                id: next_id as int,
                                status: TradeStatus::Active,
                                trade: merged_trade_spec(sel),
                            },
                        ),
                        (next_id + 1) as i64,
                    ),
                )
            }
        },
    }
}

/// Merges the live trades named by `ids`: validates them, persists the
/// merged trade, and retires each source with a reference to it. A
/// failed validation, or a merged trade outside the engine's limits,
/// changes nothing. The result is owed: the request succeeds exactly
/// when the ledger rule `merge_result_spec` says it does.
#[verifier::loop_isolation(false)]
#[verifier::rlimit(100)]
pub fn merge_trades(store: &mut TradeStore, ids: &Vec<i64>) -> (r: Result<(), TradeError>)
    requires
        old(store).wf(),
    ensures
        final(store).wf(),
        final(store).records@ == old(store).records@,
        match r {
            Ok(()) => {
                let sel = trades_of(
                    get_by_ids_spec(views_of_stored(old(store).items@), views_of_i64(ids@)),
                );
                &&& validate_spec(sel) is Ok
                &&& merged_trade_spec(sel).wf()
                &&& merge_result_spec(
                    views_of_stored(old(store).items@),
                    old(store).next_id,
                    views_of_i64(ids@),
                ) == Ok::<(Seq<StoredTradeV>, i64), TradeError>(
                    (views_of_stored(final(store).items@), final(store).next_id),
                )
            },
            Err(e) => {
                &&& *final(store) == *old(store)
                &&& merge_result_spec(
                    views_of_stored(old(store).items@),
                    old(store).next_id,
                    views_of_i64(ids@),
                ) == Err::<(Seq<StoredTradeV>, i64), TradeError>(e)
            },
        },
{
    let stored = store.get_by_ids(ids);
    let ghost sel = trades_of(get_by_ids_spec(views_of_stored(store.items@), views_of_i64(ids@)));
    let mut trades: Vec<Trade> = Vec::new();
    let mut i: usize = 0;
    proof {
        assert(crate::matching::views_of_trades(trades@) =~= sel.take(0));
    }
    while i < stored.len()
        invariant
            i <= stored@.len(),
            crate::matching::views_of_trades(trades@) == sel.take(i as int),
            sel.len() == stored@.len(),
            forall|k: int| 0 <= k < stored@.len() ==> (#[trigger] sel[k]) == stored@[k]@.trade,
            forall|k: int| 0 <= k < stored@.len() ==> (#[trigger] stored@[k])@.trade.wf(),
        decreases stored@.len() - i,
    {
        let ghost prev = trades@;
        trades.push(stored[i].trade.clone());
        proof {
            assert(crate::matching::views_of_trades(trades@) =~~= sel.take(i + 1));
        }
        i = i + 1;
    }
    proof {
        assert(sel.take(stored@.len() as int) =~= sel);
    }
    match validate(&trades) {
        Ok(()) => {},
        Err(e) => {
            proof {
                assert(e == TradeError::InsufficientMergeTrades ==> sel.len() < 2);
            }
            return Err(e);
        },
    }
    if trades.len() > MERGE_MAX {
        return Err(TradeError::LimitExceeded);
    }
    proof {
        assert forall|k: int| 0 <= k < trades@.len() implies (#[trigger] trades@[k])@.wf() by {
            assert(crate::matching::views_of_trades(trades@)[k] == trades@[k]@);
            assert(sel[k] == stored@[k]@.trade);
        };
        assert(trades@.len() == sel.len());
        assert(sel.len() >= 2);
    }
    let new_trade = merge(&trades);
    if !new_trade.is_wf() {
        return Err(TradeError::LimitExceeded);
    }
    if store.next_id >= i64::MAX - 1 {
        return Err(TradeError::LimitExceeded);
    }
    let merge_to: i64 = store.next_id;
    let ghost new_stored = StoredTradeV {
        id: merge_to as int,
        status: TradeStatus::Active,
        trade: merged_trade_spec(sel),
    };
    store.soft_delete_and_relink(ids, merge_to);
    match store.insert_trade(new_trade) {
        Ok(_id) => {
            proof {
                let oldv = views_of_stored(old(store).items@);
                let idsv = views_of_i64(ids@);
                let finv = views_of_stored(store.items@);
                assert forall|k: int| 0 <= k < finv.len() implies #[trigger] finv[k] == retire_m(
                    oldv,
                    idsv,
                    merge_to,
                ).push(new_stored)[k] by {
                    if k < oldv.len() {
                        assert(finv[k] == store.items@[k]@);
                        assert(store.items@.drop_last()[k] == store.items@[k]);
                        assert(oldv[k] == old(store).items@[k]@);
                    } else {
                        assert(finv[k] == store.items@.last()@);
                    }
                };
                assert(finv =~= retire_m(oldv, idsv, merge_to).push(new_stored));
            }
            Ok(())
        },
        Err(_) => {
            proof {
                assert(false);
            }
            Err(TradeError::LimitExceeded)
        },
    }
}

} // verus!
