//! The position matcher: pairs opening legs with closing legs and emits
//! round-trip trades. Two strategies exist because broker exports differ:
//! stack-based matching links legs by order (most recent compatible
//! position first), tolerance-based matching reconstructs the entry rate
//! algebraically from the reported profit and finds the open position
//! within a fixed tolerance of it. Both consume partial fills by
//! repeatedly matching the smaller of the two remaining sizes.

use vstd::prelude::*;
use crate::num::{floor_div, round_half_away_div, spec_round_half_away};
use crate::record::{LegType, Record, RecordV, Side, sorted_by_time};
use crate::trade::{Trade, TradeV};
use crate::error::TradeError;

verus! {

/// How opening and closing legs are linked, chosen per broker.
#[derive(Clone, Copy, PartialEq, Eq, Structural, Debug)]
pub enum Strategy {
    /// Legs are linked by order: a close consumes the most recent
    /// compatible position; an exhausted book skips the remainder of the
    /// row and reports it.
    Stack,
    /// Legs are linked by price: a close consumes the earliest open
    /// position whose rate lies within tolerance of the entry rate
    /// reconstructed from profit, swap and lot; no candidate is a
    /// data-integrity failure.
    Tolerance,
}

/// An open-lot residue while one import pass runs.
#[derive(Clone, Debug)]
pub struct Position {
    pub pair: String,
    pub side: Side,
    pub rate: i64,
    pub time: i64,
    pub lot: i64,
}

/// Mathematical image of a `Position`.
#[verifier::ext_equal]
pub ghost struct PositionV {
    pub pair: Seq<char>,
    pub side: Side,
    pub rate: int,
    pub time: int,
    pub lot: int,
}

impl View for Position {
    type V = PositionV;

    open spec fn view(&self) -> PositionV {
        PositionV {
            pair: self.pair@,
            side: self.side,
            rate: self.rate as int,
            time: self.time as int,
            lot: self.lot as int,
        }
    }
}

pub open spec fn opt0(o: Option<int>) -> int {
    match o {
        Some(v) => v,
        None => 0,
    }
}

pub open spec fn abs_int(x: int) -> int {
    if x >= 0 {
        x
    } else {
        -x
    }
}

/// A position an order-linked close may consume: same pair, opposite side.
pub open spec fn compatible(p: PositionV, c: RecordV) -> bool {
    p.pair == c.pair && p.side != c.side
}

/// The tolerance rule: the position's recorded rate lies within one
/// hundred-thousandth of a price unit of the entry rate reconstructed
/// from the close's profit, swap and lot. Stated over integers: the
/// reconstructed rate is `c.rate + (profit - swap) * 100000 * dir / lot`
/// price units, and the comparison is scaled by the positive `lot`.
pub open spec fn within_tolerance(p: PositionV, c: RecordV) -> bool {
    abs_int((p.rate - c.rate) * c.lot - (opt0(c.profit) - opt0(c.swap)) * 100000
        * c.side.spec_sign()) < c.lot
}

/// Whether a close may consume a position, under the given strategy.
pub open spec fn candidate(p: PositionV, c: RecordV, strategy: Strategy) -> bool {
    match strategy {
        Strategy::Stack => compatible(p, c),
        Strategy::Tolerance => compatible(p, c) && within_tolerance(p, c),
    }
}

/// The first candidate at or after index `i`, scanning forward: the
/// tolerance matcher's deterministic tie-break is the earliest-opened
/// candidate.
pub open spec fn find_forward(ps: Seq<PositionV>, c: RecordV, strategy: Strategy, i: int) -> Option<
    int,
>
    decreases ps.len() - i,
{
    if i < 0 || i >= ps.len() {
        None
    } else if candidate(ps[i], c, strategy) {
        Some(i)
    } else {
        find_forward(ps, c, strategy, i + 1)
    }
}

/// The last candidate at or before index `i`, scanning backward: the
/// stack matcher consumes the most recent compatible position first.
pub open spec fn find_backward(ps: Seq<PositionV>, c: RecordV, strategy: Strategy, i: int) -> Option<
    int,
>
    decreases i + 1,
{
    if i < 0 || i >= ps.len() {
        None
    } else if candidate(ps[i], c, strategy) {
        Some(i)
    } else {
        find_backward(ps, c, strategy, i - 1)
    }
}

/// The position a close consumes next, if any.
pub open spec fn find_candidate(ps: Seq<PositionV>, c: RecordV, strategy: Strategy) -> Option<int> {
    match strategy {
        Strategy::Stack => find_backward(ps, c, strategy, ps.len() - 1),
        Strategy::Tolerance => find_forward(ps, c, strategy, 0),
    }
}

/// The trade emitted when a close consumes `m` lots of position `p`:
/// pips are the signed price distance from entry to exit in tenths of a
/// pip, rounded half away from zero, positive where the entry side won.
pub open spec fn make_trade(
    p: PositionV,
    c: RecordV,
    m: int,
    profit_share: int,
    swap_share: int,
    account: Seq<char>,
) -> TradeV {
    TradeV {
        pair: c.pair,
        side: p.side,
        lot: m,
        entry_rate: p.rate,
        exit_rate: c.rate,
        entry_time: p.time,
        exit_time: c.order_time,
        profit: profit_share,
        profit_pips: spec_round_half_away((c.rate - p.rate) * p.side.spec_sign(), 100),
        swap: Some(swap_share),
        memo: Seq::empty(),
        account: account,
    }
}

/// The share of `total` that `m` lots out of `rem_lot` carry: floor of
/// the proportional part, so that the last share takes the remainder and
/// the shares of one close sum to its reported total.
pub open spec fn share_of(total: int, m: int, rem_lot: int) -> int {
    if m == rem_lot {
        total
    } else {
        total * m / rem_lot
    }
}

/// What is left after a close consumed positions: the book, the emitted
/// trades, and the unallocated remainder of the close.
#[verifier::ext_equal]
pub ghost struct ConsumedV {
    pub positions: Seq<PositionV>,
    pub trades: Seq<TradeV>,
    pub leftover: int,
}

/// One close consuming the book: repeatedly takes the chosen candidate,
/// matches the smaller of the two remaining sizes, emits one trade per
/// match, and puts a partially consumed position back - in place for the
/// stack matcher, at the end of the book for the tolerance matcher, as
/// the broker order of each strategy has it.
pub open spec fn consume(
    ps: Seq<PositionV>,
    c: RecordV,
    rem_lot: int,
    rem_profit: int,
    rem_swap: int,
    acc: Seq<TradeV>,
    strategy: Strategy,
    account: Seq<char>,
) -> ConsumedV
    decreases ps.len(),
{
    if rem_lot <= 0 {
        ConsumedV { positions: ps, trades: acc, leftover: 0 }
    } else {
        match find_candidate(ps, c, strategy) {
            None => ConsumedV { positions: ps, trades: acc, leftover: rem_lot },
            Some(i) => if !(0 <= i < ps.len()) {
                ConsumedV { positions: ps, trades: acc, leftover: rem_lot }
            } else {
                let p = ps[i];
                if p.lot > rem_lot {
                    let t = make_trade(p, c, rem_lot, rem_profit, rem_swap, account);
                    let residual = PositionV { lot: p.lot - rem_lot, ..p };
                    let ps2 = match strategy {
                        Strategy::Stack => ps.update(i, residual),
                        Strategy::Tolerance => ps.remove(i).push(residual),
                    };
                    ConsumedV { positions: ps2, trades: acc.push(t), leftover: 0 }
                } else {
                    let shp = share_of(rem_profit, p.lot, rem_lot);
                    let shs = share_of(rem_swap, p.lot, rem_lot);
                    let t = make_trade(p, c, p.lot, shp, shs, account);
                    consume(
                        ps.remove(i),
                        c,
                        rem_lot - p.lot,
                        rem_profit - shp,
                        rem_swap - shs,
                        acc.push(t),
                        strategy,
                        account,
                    )
                }
            }
            ,
        }
    }
}

/// The matcher's running state.
#[verifier::ext_equal]
pub ghost struct MatchStateV {
    pub positions: Seq<PositionV>,
    pub trades: Seq<TradeV>,
    pub skipped: int,
}

pub open spec fn init_state() -> MatchStateV {
    MatchStateV { positions: Seq::empty(), trades: Seq::empty(), skipped: 0 }
}

pub open spec fn pos_of_open(r: RecordV) -> PositionV {
    PositionV { pair: r.pair, side: r.side, rate: r.rate, time: r.order_time, lot: r.lot }
}

/// One record moves the state: an open pushes a position; a close
/// consumes the book. Under the stack strategy an unallocated remainder
/// is counted and skipped; under the tolerance strategy it is a
/// data-integrity failure, `None`.
pub open spec fn step(st: MatchStateV, r: RecordV, strategy: Strategy, account: Seq<char>) -> Option<
    MatchStateV,
> {
    if r.trade_type == LegType::Open {
        Some(
            MatchStateV {
                positions: st.positions.push(pos_of_open(r)),
                trades: st.trades,
                skipped: st.skipped,
            },
        )
    } else {
        let res = consume(
            st.positions,
            r,
            r.lot,
            opt0(r.profit),
            opt0(r.swap),
            st.trades,
            strategy,
            account,
        );
        if res.leftover > 0 {
            match strategy {
                Strategy::Stack => Some(
                    MatchStateV {
                        positions: res.positions,
                        trades: res.trades,
                        skipped: st.skipped + 1,
                    },
                ),
                Strategy::Tolerance => None,
            }
        } else {
            Some(
                MatchStateV {
                    positions: res.positions,
                    trades: res.trades,
                    skipped: st.skipped,
                },
            )
        }
    }
}

/// The whole pass over the records, in order.
pub open spec fn run_match(records: Seq<RecordV>, strategy: Strategy, account: Seq<char>) -> Option<
    MatchStateV,
>
    decreases records.len(),
{
    if records.len() == 0 {
        Some(init_state())
    } else {
        match run_match(records.drop_last(), strategy, account) {
            None => None,
            Some(st) => step(st, records.last(), strategy, account),
        }
    }
}

pub open spec fn views_of_positions(s: Seq<Position>) -> Seq<PositionV> {
    s.map_values(|p: Position| p@)
}

pub open spec fn views_of_trades(s: Seq<Trade>) -> Seq<TradeV> {
    s.map_values(|t: Trade| t@)
}

pub open spec fn views_of_records(s: Seq<Record>) -> Seq<RecordV> {
    s.map_values(|r: Record| r@)
}

/// What the matcher hands back: the emitted trades and how many closing
/// rows the stack strategy had to skip for want of open positions.
pub struct MatchOutcome {
    pub trades: Vec<Trade>,
    pub skipped: usize,
}


impl PositionV {
    /// A position the book may hold: positive size and price within the
    /// engine's limits, instant within the supported range.
    pub open spec fn wf(self) -> bool {
        &&& 0 < self.lot <= crate::record::LOT_MAX
        &&& 0 < self.rate <= crate::record::RATE_MAX
        &&& crate::record::TIME_LO <= self.time <= crate::record::TIME_HI
    }
}

/// Every position of the book is well formed and was opened no later
/// than `t`.
pub open spec fn book_wf(ps: Seq<PositionV>, t: int) -> bool {
    forall|k: int| 0 <= k < ps.len() ==> (#[trigger] ps[k]).wf() && ps[k].time <= t
}

/// Whether the close `rec` may consume the position `p` under the given
/// strategy.
fn is_candidate_exec(p: &Position, rec: &Record, strategy: Strategy) -> (r: bool)
    requires
        p@.wf(),
        rec@.wf(),
    ensures
        r == candidate(p@, rec@, strategy),
{
    if !(p.pair == rec.pair && p.side != rec.side) {
        return false;
    }
    match strategy {
        Strategy::Stack => true,
        Strategy::Tolerance => {
            let profit: i64 = match rec.profit {
                Some(v) => v as i64,
                None => 0,
            };
            let swap: i64 = match rec.swap {
                Some(v) => v as i64,
                None => 0,
            };
            let dir: i64 = match rec.side {
                Side::Buy => 1,
                Side::Sell => -1,
            };
            proof {
                assert((p@.rate - rec@.rate) * rec@.lot <= crate::record::RATE_MAX
                    * crate::record::LOT_MAX && (p@.rate - rec@.rate) * rec@.lot
                    >= -(crate::record::RATE_MAX * crate::record::LOT_MAX)) by (nonlinear_arith)
                    requires
                        -crate::record::RATE_MAX <= p@.rate - rec@.rate <= crate::record::RATE_MAX,
                        0 < rec@.lot <= crate::record::LOT_MAX,
                ;
                assert((profit - swap) * 100000 * dir <= 500000000000000000
                    && (profit - swap) * 100000 * dir >= -500000000000000000) by (nonlinear_arith)
                    requires
                        -5000000000 <= profit - swap <= 5000000000,
                        dir == 1 || dir == -1,
                ;
            }
            let lhs: i128 = ((p.rate as i128) - (rec.rate as i128)) * (rec.lot as i128) - ((profit
                - swap) as i128) * 100000 * (dir as i128);
            let tol: i128 = rec.lot as i128;
            assert(dir as int == rec@.side.spec_sign());
            -tol < lhs && lhs < tol
        },
    }
}

/// The book position the close consumes next: the exec scan agrees with
/// the chosen strategy's search order.
#[verifier::loop_isolation(false)]
fn find_pos(positions: &Vec<Position>, rec: &Record, strategy: Strategy) -> (r: Option<usize>)
    requires
        forall|k: int|
            0 <= k < positions@.len() ==> (#[trigger] positions@[k])@.wf(),
        rec@.wf(),
    ensures
        match r {
            Some(j) => j < positions@.len() && find_candidate(
                views_of_positions(positions@),
                rec@,
                strategy,
            ) == Some(j as int),
            None => find_candidate(views_of_positions(positions@), rec@, strategy) is None,
        },
{
    let ghost ps = views_of_positions(positions@);
    let n: usize = positions.len();
    match strategy {
        Strategy::Tolerance => {
            let mut j: usize = 0;
            while j < n
                invariant
                    j <= n,
                    find_forward(ps, rec@, strategy, 0) == find_forward(ps, rec@, strategy, j as int),
                decreases n - j,
            {
                if is_candidate_exec(&positions[j], rec, strategy) {
                    return Some(j);
                }
                j = j + 1;
            }
            None
        },
        Strategy::Stack => {
            let mut j: usize = n;
            while j > 0
                invariant
                    j <= n,
                    find_backward(ps, rec@, strategy, ps.len() - 1) == find_backward(
                        ps,
                        rec@,
                        strategy,
                        j as int - 1,
                    ),
                decreases j,
            {
                if is_candidate_exec(&positions[j - 1], rec, strategy) {
                    return Some(j - 1);
                }
                j = j - 1;
            }
            None
        },
    }
}

/// A proportional share stays within the bound of its total, and so does
/// what remains after taking it out.
proof fn lemma_share_bounds(total: int, m: int, rem_lot: int, bound: int)
    requires
        0 < m <= rem_lot,
        -bound <= total <= bound,
        0 <= bound,
    ensures
        -bound <= share_of(total, m, rem_lot) <= bound,
        -bound <= total - share_of(total, m, rem_lot) <= bound,
        total >= 0 ==> 0 <= share_of(total, m, rem_lot) <= total,
        total < 0 ==> total <= share_of(total, m, rem_lot) <= 0,
    decreases 0int,
{
    if m == rem_lot {
    } else {
        let s = total * m / rem_lot;
        if total >= 0 {
            assert(0 <= total * m <= total * rem_lot) by (nonlinear_arith)
                requires
                    total >= 0,
                    0 < m <= rem_lot,
            ;
            assert(s >= 0) by {
                vstd::arithmetic::div_mod::lemma_div_pos_is_pos(total * m, rem_lot);
            };
            assert(s <= total) by {
                vstd::arithmetic::div_mod::lemma_div_is_ordered(total * m, total * rem_lot, rem_lot);
                assert(total * rem_lot / rem_lot == total) by {
                    vstd::arithmetic::div_mod::lemma_div_multiples_vanish(total, rem_lot);
                    vstd::arithmetic::mul::lemma_mul_is_commutative(total, rem_lot);
                };
            };
        } else {
            assert(total * rem_lot <= total * m < 0) by (nonlinear_arith)
                requires
                    total < 0,
                    0 < m <= rem_lot,
            ;
            assert(s >= total) by {
                vstd::arithmetic::div_mod::lemma_div_is_ordered(total * rem_lot, total * m, rem_lot);
                assert(total * rem_lot / rem_lot == total) by {
                    vstd::arithmetic::div_mod::lemma_div_multiples_vanish(total, rem_lot);
                    vstd::arithmetic::mul::lemma_mul_is_commutative(total, rem_lot);
                };
            };
            assert(s <= 0) by {
                vstd::arithmetic::div_mod::lemma_div_is_ordered(total * m, 0, rem_lot);
                assert(0int / rem_lot == 0) by {
                    vstd::arithmetic::div_mod::lemma_div_of0(rem_lot);
                };
            };
        }
    }
}

/// Pips computed from two in-range rates stay within the amount bound.
proof fn lemma_pips_bound(diff: int)
    requires
        -2 * crate::record::RATE_MAX <= diff <= 2 * crate::record::RATE_MAX,
    ensures
        -crate::trade::AMOUNT_MAX <= spec_round_half_away(diff, 100) <= crate::trade::AMOUNT_MAX,
{
    if diff >= 0 {
        vstd::arithmetic::div_mod::lemma_div_pos_is_pos(diff + 50, 100);
        vstd::arithmetic::div_mod::lemma_div_is_ordered(diff + 50, 2 * crate::record::RATE_MAX + 50, 100);
    } else {
        vstd::arithmetic::div_mod::lemma_div_pos_is_pos((-diff) + 50, 100);
        vstd::arithmetic::div_mod::lemma_div_is_ordered((-diff) + 50, 2 * crate::record::RATE_MAX + 50, 100);
    }
}

/// Pairs opening legs with closing legs, in chronological order, under
/// the chosen strategy, and emits one trade per matched pair of
/// residues. Under the stack strategy a close that exhausts the book is
/// skipped and counted; under the tolerance strategy a close with no
/// candidate within tolerance fails the pass with `NoMatchingPosition`.
#[verifier::loop_isolation(false)]
#[verifier::rlimit(100)]
pub fn match_records(records: &Vec<Record>, strategy: Strategy, account: &str) -> (r: Result<
    MatchOutcome,
    TradeError,
>)
    requires
        forall|i: int| 0 <= i < records@.len() ==> (#[trigger] records@[i])@.wf(),
        sorted_by_time(views_of_records(records@)),
    ensures
        match r {
            Ok(out) => {
                &&& run_match(views_of_records(records@), strategy, account@) is Some
                &&& views_of_trades(out.trades@) == run_match(
                    views_of_records(records@),
                    strategy,
                    account@,
                )->0.trades
                &&& out.skipped as int == run_match(
                    views_of_records(records@),
                    strategy,
                    account@,
                )->0.skipped
                &&& forall|k: int|
                    0 <= k < out.trades@.len() ==> (#[trigger] out.trades@[k])@.wf()
                &&& out.skipped <= records@.len()
            },
            Err(e) => {
                &&& e == TradeError::NoMatchingPosition
                &&& strategy == Strategy::Tolerance
                &&& run_match(views_of_records(records@), strategy, account@) is None
            },
        },
{
    let ghost rs = views_of_records(records@);
    let mut positions: Vec<Position> = Vec::new();
    let mut trades: Vec<Trade> = Vec::new();
    let mut skipped: usize = 0;
    let n: usize = records.len();
    proof {
        assert(rs.take(0) =~= Seq::<RecordV>::empty());
        assert(views_of_positions(positions@) =~= Seq::<PositionV>::empty());
        assert(views_of_trades(trades@) =~= Seq::<TradeV>::empty());
        assert(run_match(rs.take(0), strategy, account@) == Some(init_state()));
        assert(Some(init_state()) =~~= Some(
            MatchStateV {
                positions: views_of_positions(positions@),
                trades: views_of_trades(trades@),
                skipped: skipped as int,
            },
        ));
    }
    let mut idx: usize = 0;
    while idx < n
        invariant
            idx <= n,
            run_match(rs.take(idx as int), strategy, account@) == Some(
                MatchStateV {
                    positions: views_of_positions(positions@),
                    trades: views_of_trades(trades@),
                    skipped: skipped as int,
                },
            ),
            forall|k: int|
                0 <= k < positions@.len() ==> (#[trigger] positions@[k])@.wf() && (idx > 0
                    ==> positions@[k]@.time <= rs[idx as int - 1].order_time),
            forall|k: int| 0 <= k < trades@.len() ==> (#[trigger] trades@[k])@.wf(),
            skipped <= idx,
        decreases n - idx,
    {
        let ghost st0 = MatchStateV {
            positions: views_of_positions(positions@),
            trades: views_of_trades(trades@),
            skipped: skipped as int,
        };
        proof {
            assert(rs.take(idx + 1).drop_last() =~= rs.take(idx as int));
            assert(rs.take(idx + 1).last() == rs[idx as int]);
            assert(rs[idx as int] == records@[idx as int]@);
            if idx > 0 {
                assert(rs[idx as int - 1].order_time <= rs[idx as int].order_time);
            }
        }
        let rec = &records[idx];
        let ghost c = rs[idx as int];
        match rec.trade_type {
            LegType::Open => {
                let p = Position {
                    pair: rec.pair.clone(),
                    side: rec.side,
                    rate: rec.rate,
                    time: rec.order_time,
                    lot: rec.lot,
                };
                proof {
                    assert(p@ =~~= pos_of_open(c));
                }
                positions.push(p);
                proof {
                    assert(views_of_positions(positions@) =~~= st0.positions.push(pos_of_open(c)));
                    assert(run_match(rs.take(idx + 1), strategy, account@) =~~= Some(
                        MatchStateV {
                            positions: views_of_positions(positions@),
                            trades: views_of_trades(trades@),
                            skipped: skipped as int,
                        },
                    ));
                }
            },
            LegType::Close => {
                let mut rem: i64 = rec.lot;
                let mut rem_profit: i64 = match rec.profit {
                    Some(v) => v as i64,
                    None => 0,
                };
                let mut rem_swap: i64 = match rec.swap {
                    Some(v) => v as i64,
                    None => 0,
                };
                // 0 = consuming, 1 = fully allocated, 2 = book exhausted
                let mut status: u8 = 0;
                let ghost p0 = views_of_positions(positions@);
                let ghost t0 = views_of_trades(trades@);
                let ghost rl0 = rem as int;
                let ghost rp0 = rem_profit as int;
                let ghost rs0 = rem_swap as int;
                while status == 0 && rem > 0
                    invariant
                        0 <= rem <= rec.lot,
                        -2147483648 <= rem_profit <= 2147483648,
                        -2147483648 <= rem_swap <= 2147483648,
                        status <= 2,
                        forall|k: int|
                            0 <= k < positions@.len() ==> (#[trigger] positions@[k])@.wf()
                                && positions@[k]@.time <= c.order_time,
                        forall|k: int| 0 <= k < trades@.len() ==> (#[trigger] trades@[k])@.wf(),
                        status == 0 ==> consume(p0, c, rl0, rp0, rs0, t0, strategy, account@)
                            =~~= consume(
                            views_of_positions(positions@),
                            c,
                            rem as int,
                            rem_profit as int,
                            rem_swap as int,
                            views_of_trades(trades@),
                            strategy,
                            account@,
                        ),
                        status == 1 ==> consume(p0, c, rl0, rp0, rs0, t0, strategy, account@)
                            =~~= (ConsumedV {
                            positions: views_of_positions(positions@),
                            trades: views_of_trades(trades@),
                            leftover: 0,
                        }),
                        status == 2 ==> consume(p0, c, rl0, rp0, rs0, t0, strategy, account@)
                            =~~= (ConsumedV {
                            positions: views_of_positions(positions@),
                            trades: views_of_trades(trades@),
                            leftover: rem as int,
                        }) && rem > 0 && strategy == Strategy::Stack,
                    decreases positions@.len() + rem + (if status == 0 { 1int } else { 0int }),
                {
                    let ghost cur_ps = views_of_positions(positions@);
                    let ghost cur_ts = views_of_trades(trades@);
                    let ghost rem_g = rem as int;
                    let ghost rp_g = rem_profit as int;
                    let ghost rsw_g = rem_swap as int;
                    match find_pos(&positions, rec, strategy) {
                        None => {
                            match strategy {
                                Strategy::Stack => {
                                    proof {
                                        assert(consume(cur_ps, c, rem_g, rp_g, rsw_g, cur_ts, strategy, account@) =~~= (ConsumedV {
                                            positions: cur_ps,
                                            trades: cur_ts,
                                            leftover: rem_g,
                                        }));
                                    }
                                    status = 2;
                                },
                                Strategy::Tolerance => {
                                    proof {
                                        assert(consume(cur_ps, c, rem_g, rp_g, rsw_g, cur_ts, strategy, account@).leftover == rem_g);
                                        assert(consume(p0, c, rl0, rp0, rs0, t0, strategy, account@).leftover > 0);
                                        lemma_run_step_err(rs, idx as int, st0, c, strategy, account@);
                                    }
                                    return Err(TradeError::NoMatchingPosition);
                                },
                            }
                        },
                        Some(j) => {
                            let p_lot: i64 = positions[j].lot;
                            let ghost p = cur_ps[j as int];
                            proof {
                                assert(p == positions@[j as int]@);
                            }
                            if p_lot > rem {
                                let pos_ref = &positions[j];
                                let t = Trade {
                                    pair: rec.pair.clone(),
                                    side: pos_ref.side,
                                    lot: rem,
                                    entry_rate: pos_ref.rate,
                                    exit_rate: rec.rate,
                                    entry_time: pos_ref.time,
                                    exit_time: rec.order_time,
                                    profit: rem_profit,
                                    profit_pips: pips_exec(pos_ref.rate, rec.rate, pos_ref.side),
                                    swap: Some(rem_swap),
                                    memo: String::new(),
                                    account: account.to_owned(),
                                };
                                let ghost tv = make_trade(p, c, rem_g, rp_g, rsw_g, account@);
                                proof {
                                    assert(p.side.spec_sign() == 1 || p.side.spec_sign() == -1);
                                    assert(-2 * crate::record::RATE_MAX <= (c.rate - p.rate)
                                        * p.side.spec_sign() <= 2 * crate::record::RATE_MAX) by (nonlinear_arith)
                                        requires
                                            -crate::record::RATE_MAX <= c.rate - p.rate
                                                <= crate::record::RATE_MAX,
                                            p.side.spec_sign() == 1 || p.side.spec_sign() == -1,
                                    ;
                                    lemma_pips_bound((c.rate - p.rate) * p.side.spec_sign());
                                    assert(t@ =~~= tv);
                                }
                                let pr = &positions[j];
                                let residual = Position {
                                    pair: pr.pair.clone(),
                                    side: pr.side,
                                    rate: pr.rate,
                                    time: pr.time,
                                    lot: p_lot - rem,
                                };
                                let ghost residual_v = PositionV { lot: p.lot - rem_g, ..p };
                                proof {
                                    assert(residual@ =~~= residual_v);
                                }
                                trades.push(t);
                                match strategy {
                                    Strategy::Stack => {
                                        positions.set(j, residual);
                                        proof {
                                            assert(views_of_positions(positions@) =~~= cur_ps.update(
                                                j as int,
                                                residual_v,
                                            ));
                                        }
                                    },
                                    Strategy::Tolerance => {
                                        positions.remove(j);
                                        positions.push(residual);
                                        proof {
                                            assert(views_of_positions(positions@) =~~= cur_ps.remove(
                                                j as int,
                                            ).push(residual_v));
                                        }
                                    },
                                }
                                rem = 0;
                                status = 1;
                                proof {
                                    assert(views_of_trades(trades@) =~~= cur_ts.push(tv));
                                    assert(consume(cur_ps, c, rem_g, rp_g, rsw_g, cur_ts, strategy, account@) =~~= (ConsumedV {
                                        positions: views_of_positions(positions@),
                                        trades: views_of_trades(trades@),
                                        leftover: 0,
                                    }));
                                }
                            } else {
                                let shp: i64 = share_exec(rem_profit, p_lot, rem);
                                let shs: i64 = share_exec(rem_swap, p_lot, rem);
                                let pos_ref = &positions[j];
                                let t = Trade {
                                    pair: rec.pair.clone(),
                                    side: pos_ref.side,
                                    lot: p_lot,
                                    entry_rate: pos_ref.rate,
                                    exit_rate: rec.rate,
                                    entry_time: pos_ref.time,
                                    exit_time: rec.order_time,
                                    profit: shp,
                                    profit_pips: pips_exec(pos_ref.rate, rec.rate, pos_ref.side),
                                    swap: Some(shs),
                                    memo: String::new(),
                                    account: account.to_owned(),
                                };
                                let ghost tv = make_trade(
                                    p,
                                    c,
                                    p.lot,
                                    share_of(rp_g, p.lot, rem_g),
                                    share_of(rsw_g, p.lot, rem_g),
                                    account@,
                                );
                                proof {
                                    assert(p.side.spec_sign() == 1 || p.side.spec_sign() == -1);
                                    assert(-2 * crate::record::RATE_MAX <= (c.rate - p.rate)
                                        * p.side.spec_sign() <= 2 * crate::record::RATE_MAX) by (nonlinear_arith)
                                        requires
                                            -crate::record::RATE_MAX <= c.rate - p.rate
                                                <= crate::record::RATE_MAX,
                                            p.side.spec_sign() == 1 || p.side.spec_sign() == -1,
                                    ;
                                    lemma_pips_bound((c.rate - p.rate) * p.side.spec_sign());
                                    lemma_share_bounds(rp_g, p.lot, rem_g, 2147483648);
                                    lemma_share_bounds(rsw_g, p.lot, rem_g, 2147483648);
                                    assert(t@ =~~= tv);
                                }
                                trades.push(t);
                                positions.remove(j);
                                rem_profit = rem_profit - shp;
                                rem_swap = rem_swap - shs;
                                rem = rem - p_lot;
                                proof {
                                    assert(views_of_positions(positions@) =~~= cur_ps.remove(j as int));
                                    assert(views_of_trades(trades@) =~~= cur_ts.push(tv));
                                    assert(consume(cur_ps, c, rem_g, rp_g, rsw_g, cur_ts, strategy, account@) =~~= consume(
                                        views_of_positions(positions@),
                                        c,
                                        rem as int,
                                        rem_profit as int,
                                        rem_swap as int,
                                        views_of_trades(trades@),
                                        strategy,
                                        account@,
                                    ));
                                }
                            }
                        },
                    }
                }
                if status == 2 {
                    skipped = skipped + 1;
                }
                proof {
                    let res = consume(p0, c, rl0, rp0, rs0, t0, strategy, account@);
                    if status == 2 {
                        assert(step(st0, c, strategy, account@) == Some(
                            MatchStateV {
                                positions: views_of_positions(positions@),
                                trades: views_of_trades(trades@),
                                skipped: skipped as int,
                            },
                        ));
                    } else {
                        assert(res.leftover == 0);
                        assert(step(st0, c, strategy, account@) == Some(
                            MatchStateV {
                                positions: views_of_positions(positions@),
                                trades: views_of_trades(trades@),
                                skipped: skipped as int,
                            },
                        ));
                    }
                    assert(run_match(rs.take(idx + 1), strategy, account@) == step(st0, c, strategy, account@));
                }
            },
        }
        idx = idx + 1;
    }
    proof {
        assert(rs.take(n as int) =~= rs);
    }
    Ok(MatchOutcome { trades, skipped })
}

/// Signed pip distance between two rates, seen from the entry side.
fn pips_exec(entry_rate: i64, exit_rate: i64, side: Side) -> (r: i64)
    requires
        0 < entry_rate <= crate::record::RATE_MAX,
        0 < exit_rate <= crate::record::RATE_MAX,
    ensures
        r == spec_round_half_away(
            (exit_rate - entry_rate) * side.spec_sign(),
            100,
        ),
{
    let diff: i64 = match side {
        Side::Buy => exit_rate - entry_rate,
        Side::Sell => entry_rate - exit_rate,
    };
    assert(diff == (exit_rate - entry_rate) * side.spec_sign()) by {
        vstd::arithmetic::mul::lemma_mul_basics(exit_rate - entry_rate);
    };
    round_half_away_div(diff, 100)
}

/// The proportional share, floor-rounded; the final share takes the whole
/// remainder.
fn share_exec(total: i64, m: i64, rem_lot: i64) -> (r: i64)
    requires
        0 < m <= rem_lot <= crate::record::LOT_MAX,
        -2147483648 <= total <= 2147483648,
    ensures
        r == share_of(total as int, m as int, rem_lot as int),
{
    if m == rem_lot {
        total
    } else {
        proof {
            assert(-2305843009213693952 <= total * m <= 2305843009213693952) by (nonlinear_arith)
                requires
                    -2147483648 <= total <= 2147483648,
                    0 < m <= 1000000000,
            ;
        }
        floor_div(total * m, rem_lot as u64)
    }
}

/// When a close finds no candidate under the tolerance strategy, the
/// whole pass fails.
proof fn lemma_run_step_err(
    rs: Seq<RecordV>,
    idx: int,
    st0: MatchStateV,
    c: RecordV,
    strategy: Strategy,
    account: Seq<char>,
)
    requires
        0 <= idx < rs.len(),
        rs[idx] == c,
        c.trade_type == LegType::Close,
        strategy == Strategy::Tolerance,
        run_match(rs.take(idx), strategy, account) == Some(st0),
        consume(
            st0.positions,
            c,
            c.lot,
            opt0(c.profit),
            opt0(c.swap),
            st0.trades,
            strategy,
            account,
        ).leftover > 0,
    ensures
        run_match(rs, strategy, account) is None,
    decreases rs.len() - idx,
{
    assert(rs.take(idx + 1).drop_last() =~= rs.take(idx));
    assert(rs.take(idx + 1).last() == rs[idx]);
    assert(step(st0, c, strategy, account) is None);
    assert(run_match(rs.take(idx + 1), strategy, account) is None);
    lemma_run_none_stays(rs, idx + 1, strategy, account);
}

/// Once the pass has failed on a prefix, the whole pass fails.
proof fn lemma_run_none_stays(rs: Seq<RecordV>, i: int, strategy: Strategy, account: Seq<char>)
    requires
        0 <= i <= rs.len(),
        run_match(rs.take(i), strategy, account) is None,
    ensures
        run_match(rs, strategy, account) is None,
    decreases rs.len() - i,
{
    if i < rs.len() {
        assert(rs.take(i + 1).drop_last() =~= rs.take(i));
        lemma_run_none_stays(rs, i + 1, strategy, account);
    } else {
        assert(rs.take(i) =~= rs);
    }
}

} // verus!
