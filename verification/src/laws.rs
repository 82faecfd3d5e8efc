//! The laws of the matcher, stated and proved over its specification:
//! matched size is conserved, stack matching is last-in-first-out, and
//! tolerance matching never links a close to a position outside the
//! tolerance.

use vstd::prelude::*;
use crate::matching::{
    candidate,
    consume,
    find_candidate,
    init_state,
    pos_of_open,
    run_match,
    step,
    within_tolerance,
    MatchStateV,
    PositionV,
    Strategy,
};
use crate::merge::sum_lots;
use crate::record::{LegType, RecordV};
use crate::trade::TradeV;

verus! {

/// The whole pass over exactly one opening and one closing leg.
pub open spec fn pair_run(o: RecordV, c: RecordV, strategy: Strategy) -> Option<MatchStateV> {
    run_match(seq![o, c], strategy, Seq::empty())
}

/// For one opening and one closing leg matched by either strategy, the
/// matched size is conserved: the lots of the resulting trades add up to
/// the smaller of the two legs' lots, and no single trade's lot exceeds
/// either leg's.
pub proof fn lemma_matched_lot_conserved(o: RecordV, c: RecordV, strategy: Strategy)
    requires
        o.wf(),
        c.wf(),
        o.trade_type == LegType::Open,
        c.trade_type == LegType::Close,
        o.order_time <= c.order_time,
        candidate(pos_of_open(o), c, strategy),
    ensures
        strategy == Strategy::Stack || c.lot <= o.lot ==> pair_run(o, c, strategy) is Some
            && sum_lots(pair_run(o, c, strategy)->0.trades) == if o.lot <= c.lot {
            o.lot
        } else {
            c.lot
        },
        strategy == Strategy::Tolerance && c.lot > o.lot ==> pair_run(o, c, strategy) is None,
        pair_run(o, c, strategy) is Some ==> forall|k: int|
            0 <= k < pair_run(o, c, strategy)->0.trades.len() ==> (#[trigger] pair_run(
                o,
                c,
                strategy,
            )->0.trades[k]).lot <= o.lot && pair_run(o, c, strategy)->0.trades[k].lot <= c.lot,
{
    reveal_with_fuel(run_match, 4);
    reveal_with_fuel(consume, 4);
    reveal_with_fuel(sum_lots, 3);
    reveal_with_fuel(crate::matching::find_backward, 4);
    reveal_with_fuel(crate::matching::find_forward, 4);
    let rs = seq![o, c];
    let acct = Seq::<char>::empty();
    assert(rs.drop_last() =~= seq![o]);
    assert(seq![o].drop_last() =~= Seq::<RecordV>::empty());
    let st0 = init_state();
    assert(run_match(seq![o], strategy, acct) == step(st0, o, strategy, acct));
    let st1 = MatchStateV {
        positions: st0.positions.push(pos_of_open(o)),
        trades: st0.trades,
        skipped: st0.skipped,
    };
    assert(run_match(seq![o], strategy, acct) == Some(st1));
    let p = pos_of_open(o);
    assert(st1.positions =~= seq![p]);
    assert(find_candidate(st1.positions, c, strategy) == Some(0int)) by {
        match strategy {
            Strategy::Stack => {
                assert(st1.positions[0] == p);
            },
            Strategy::Tolerance => {
                assert(st1.positions[0] == p);
            },
        }
    };
    let res = consume(
        st1.positions,
        c,
        c.lot,
        crate::matching::opt0(c.profit),
        crate::matching::opt0(c.swap),
        st1.trades,
        strategy,
        acct,
    );
    if p.lot > c.lot {
        assert(res.trades.len() == 1);
        assert(res.trades[0].lot == c.lot);
        assert(sum_lots(res.trades) == c.lot) by {
            assert(res.trades.drop_last() =~= Seq::<TradeV>::empty());
        };
        assert(res.leftover == 0);
    } else {
        let rem2 = c.lot - p.lot;
        let after = st1.positions.remove(0);
        assert(after =~= Seq::<PositionV>::empty());
        if rem2 > 0 {
            assert(find_candidate(after, c, strategy) is None) by {
                match strategy {
                    Strategy::Stack => {
                    },
                    Strategy::Tolerance => {
                    },
                }
            };
        }
        assert(res.trades.len() == 1);
        assert(res.trades[0].lot == p.lot);
        assert(sum_lots(res.trades) == p.lot) by {
            assert(res.trades.drop_last() =~= Seq::<TradeV>::empty());
        };
    }
    assert(run_match(rs, strategy, acct) == step(st1, c, strategy, acct));
}

/// Stack matching is last-in-first-out: with three open positions of one
/// pair and a covering close, the most recently opened position is
/// matched first.
pub proof fn lemma_stack_lifo(o1: RecordV, o2: RecordV, o3: RecordV, c: RecordV)
    requires
        o1.wf() && o2.wf() && o3.wf() && c.wf(),
        o1.trade_type == LegType::Open,
        o2.trade_type == LegType::Open,
        o3.trade_type == LegType::Open,
        c.trade_type == LegType::Close,
        o1.pair == c.pair && o2.pair == c.pair && o3.pair == c.pair,
        o1.side == o2.side && o2.side == o3.side,
        o1.side != c.side,
        o1.order_time <= o2.order_time <= o3.order_time <= c.order_time,
    ensures
        run_match(seq![o1, o2, o3, c], Strategy::Stack, Seq::empty()) is Some,
        run_match(seq![o1, o2, o3, c], Strategy::Stack, Seq::empty())->0.trades.len() > 0,
        run_match(seq![o1, o2, o3, c], Strategy::Stack, Seq::empty())->0.trades[0].entry_rate
            == o3.rate,
{
    reveal_with_fuel(run_match, 6);
    reveal_with_fuel(consume, 4);
    reveal_with_fuel(crate::matching::find_backward, 5);
    let rs = seq![o1, o2, o3, c];
    let acct = Seq::<char>::empty();
    assert(rs.drop_last() =~= seq![o1, o2, o3]);
    assert(seq![o1, o2, o3].drop_last() =~= seq![o1, o2]);
    assert(seq![o1, o2].drop_last() =~= seq![o1]);
    assert(seq![o1].drop_last() =~= Seq::<RecordV>::empty());
    let st0 = init_state();
    let st1 = step(st0, o1, Strategy::Stack, acct)->0;
    let st2 = step(st1, o2, Strategy::Stack, acct)->0;
    let st3 = step(st2, o3, Strategy::Stack, acct)->0;
    assert(run_match(seq![o1, o2, o3], Strategy::Stack, acct) == Some(st3));
    let ps = st3.positions;
    assert(ps =~= seq![pos_of_open(o1), pos_of_open(o2), pos_of_open(o3)]);
    assert(find_candidate(ps, c, Strategy::Stack) == Some(2int)) by {
        assert(candidate(ps[2], c, Strategy::Stack));
    };
    let res = consume(
        ps,
        c,
        c.lot,
        crate::matching::opt0(c.profit),
        crate::matching::opt0(c.swap),
        st3.trades,
        Strategy::Stack,
        acct,
    );
    assert(res.trades.len() > 0 && res.trades[0].entry_rate == o3.rate) by {
        let p3 = ps[2];
        if p3.lot > c.lot {
            assert(res.trades =~= st3.trades.push(
                crate::matching::make_trade(
                    p3,
                    c,
                    c.lot,
                    crate::matching::opt0(c.profit),
                    crate::matching::opt0(c.swap),
                    acct,
                ),
            ));
        } else {
            lemma_consume_keeps_acc(
                ps.remove(2),
                c,
                c.lot - p3.lot,
                crate::matching::opt0(c.profit) - crate::matching::share_of(
                    crate::matching::opt0(c.profit),
                    p3.lot,
                    c.lot,
                ),
                crate::matching::opt0(c.swap) - crate::matching::share_of(
                    crate::matching::opt0(c.swap),
                    p3.lot,
                    c.lot,
                ),
                st3.trades.push(
                    crate::matching::make_trade(
                        p3,
                        c,
                        p3.lot,
                        crate::matching::share_of(crate::matching::opt0(c.profit), p3.lot, c.lot),
                        crate::matching::share_of(crate::matching::opt0(c.swap), p3.lot, c.lot),
                        acct,
                    ),
                ),
                Strategy::Stack,
                acct,
            );
        }
    };
    assert(run_match(rs, Strategy::Stack, acct) == step(st3, c, Strategy::Stack, acct));
    assert(run_match(rs, Strategy::Stack, acct)->0.trades == res.trades);
}

/// Consuming a close only ever appends trades: what is in the
/// accumulator stays, in place.
pub proof fn lemma_consume_keeps_acc(
    ps: Seq<PositionV>,
    c: RecordV,
    rem_lot: int,
    rem_profit: int,
    rem_swap: int,
    acc: Seq<TradeV>,
    strategy: Strategy,
    account: Seq<char>,
)
    ensures
        consume(ps, c, rem_lot, rem_profit, rem_swap, acc, strategy, account).trades.len()
            >= acc.len(),
        forall|k: int|
            0 <= k < acc.len() ==> (#[trigger] consume(
                ps,
                c,
                rem_lot,
                rem_profit,
                rem_swap,
                acc,
                strategy,
                account,
            ).trades[k]) == acc[k],
    decreases ps.len(),
{
    if rem_lot <= 0 {
    } else {
        match find_candidate(ps, c, strategy) {
            None => {},
            Some(i) => {
                if !(0 <= i < ps.len()) {
                } else {
                    let p = ps[i];
                    if p.lot > rem_lot {
                    } else {
                        let shp = crate::matching::share_of(rem_profit, p.lot, rem_lot);
                        let shs = crate::matching::share_of(rem_swap, p.lot, rem_lot);
                        let t = crate::matching::make_trade(p, c, p.lot, shp, shs, account);
                        lemma_consume_keeps_acc(
                            ps.remove(i),
                            c,
                            rem_lot - p.lot,
                            rem_profit - shp,
                            rem_swap - shs,
                            acc.push(t),
                            strategy,
                            account,
                        );
                    }
                }
            },
        }
    }
}

/// Tolerance matching never links a close to a position whose recorded
/// rate lies outside the tolerance of the reconstructed entry rate:
/// every trade a close adds carries the rate of a position that passed
/// the tolerance rule.
pub proof fn lemma_tolerance_respected(
    ps: Seq<PositionV>,
    c: RecordV,
    rem_lot: int,
    rem_profit: int,
    rem_swap: int,
    acc: Seq<TradeV>,
    account: Seq<char>,
)
    ensures
        forall|k: int|
            acc.len() <= k < consume(
                ps,
                c,
                rem_lot,
                rem_profit,
                rem_swap,
                acc,
                Strategy::Tolerance,
                account,
            ).trades.len() ==> within_tolerance(
                PositionV {
                    pair: c.pair,
                    side: (#[trigger] consume(
                        ps,
                        c,
                        rem_lot,
                        rem_profit,
                        rem_swap,
                        acc,
                        Strategy::Tolerance,
                        account,
                    ).trades[k]).side,
                    rate: consume(
                        ps,
                        c,
                        rem_lot,
                        rem_profit,
                        rem_swap,
                        acc,
                        Strategy::Tolerance,
                        account,
                    ).trades[k].entry_rate,
                    time: 0,
                    lot: 0,
                },
                c,
            ),
    decreases ps.len(),
{
    let res = consume(ps, c, rem_lot, rem_profit, rem_swap, acc, Strategy::Tolerance, account);
    if rem_lot <= 0 {
    } else {
        match find_candidate(ps, c, Strategy::Tolerance) {
            None => {},
            Some(i) => {
                if !(0 <= i < ps.len()) {
                } else {
                    let p = ps[i];
                    lemma_find_forward_candidate(ps, c, 0, i);
                    if p.lot > rem_lot {
                        let t = crate::matching::make_trade(
                            p,
                            c,
                            rem_lot,
                            rem_profit,
                            rem_swap,
                            account,
                        );
                        assert(res.trades == acc.push(t));
                        assert(within_tolerance(p, c));
                    } else {
                        let shp = crate::matching::share_of(rem_profit, p.lot, rem_lot);
                        let shs = crate::matching::share_of(rem_swap, p.lot, rem_lot);
                        let t = crate::matching::make_trade(p, c, p.lot, shp, shs, account);
                        lemma_tolerance_respected(
                            ps.remove(i),
                            c,
                            rem_lot - p.lot,
                            rem_profit - shp,
                            rem_swap - shs,
                            acc.push(t),
                            account,
                        );
                        lemma_consume_keeps_acc(
                            ps.remove(i),
                            c,
                            rem_lot - p.lot,
                            rem_profit - shp,
                            rem_swap - shs,
                            acc.push(t),
                            Strategy::Tolerance,
                            account,
                        );
                        assert(within_tolerance(p, c));
                        assert forall|k: int| acc.len() <= k < res.trades.len() implies
                            within_tolerance(
                                PositionV {
                                    pair: c.pair,
                                    side: (#[trigger] res.trades[k]).side,
                                    rate: res.trades[k].entry_rate,
                                    time: 0,
                                    lot: 0,
                                },
                                c,
                            ) by {
                            if k == acc.len() {
                                assert(res.trades[k] == t);
                            }
                        };
                    }
                }
            },
        }
    }
}

/// What the forward search returns is a candidate.
pub proof fn lemma_find_forward_candidate(ps: Seq<PositionV>, c: RecordV, start: int, i: int)
    requires
        crate::matching::find_forward(ps, c, Strategy::Tolerance, start) == Some(i),
        0 <= start,
    ensures
        0 <= i < ps.len(),
        candidate(ps[i], c, Strategy::Tolerance),
    decreases ps.len() - start,
{
    if start >= ps.len() {
    } else if candidate(ps[start], c, Strategy::Tolerance) {
    } else {
        lemma_find_forward_candidate(ps, c, start + 1, i);
    }
}


/// The open size a book holds.
pub open spec fn sum_position_lots(ps: Seq<PositionV>) -> int
    decreases ps.len(),
{
    if ps.len() == 0 {
        0
    } else {
        sum_position_lots(ps.drop_last()) + ps.last().lot
    }
}

/// Removing one position takes exactly its lot out of the book.
proof fn lemma_sum_pos_remove(ps: Seq<PositionV>, i: int)
    requires
        0 <= i < ps.len(),
    ensures
        sum_position_lots(ps.remove(i)) == sum_position_lots(ps) - ps[i].lot,
    decreases ps.len(),
{
    if i == ps.len() - 1 {
        assert(ps.remove(i) =~= ps.drop_last());
    } else {
        assert(ps.remove(i).drop_last() =~= ps.drop_last().remove(i));
        assert(ps.remove(i).last() == ps.last());
        lemma_sum_pos_remove(ps.drop_last(), i);
    }
}

/// Replacing one position moves the book's size by the lot difference.
proof fn lemma_sum_pos_update(ps: Seq<PositionV>, i: int, x: PositionV)
    requires
        0 <= i < ps.len(),
    ensures
        sum_position_lots(ps.update(i, x)) == sum_position_lots(ps) - ps[i].lot + x.lot,
    decreases ps.len(),
{
    if i == ps.len() - 1 {
        assert(ps.update(i, x).drop_last() =~= ps.drop_last());
        assert(ps.update(i, x).last() == x);
    } else {
        assert(ps.update(i, x).drop_last() =~= ps.drop_last().update(i, x));
        assert(ps.update(i, x).last() == ps.last());
        lemma_sum_pos_update(ps.drop_last(), i, x);
    }
}

/// Matched size is conserved in general, under either strategy: whatever
/// one close consumes leaves the book and enters the emitted trades lot
/// for lot. The close's unallocated remainder never goes negative, every
/// emitted trade has a positive lot no larger than the close's remaining
/// size, and the book shrinks by exactly the allocated amount.
pub proof fn lemma_consume_conserves(
    ps: Seq<PositionV>,
    c: RecordV,
    rem_lot: int,
    rem_profit: int,
    rem_swap: int,
    acc: Seq<TradeV>,
    strategy: Strategy,
    account: Seq<char>,
)
    requires
        rem_lot >= 0,
        forall|k: int| 0 <= k < ps.len() ==> (#[trigger] ps[k]).lot > 0,
    ensures
        ({
            let res = consume(ps, c, rem_lot, rem_profit, rem_swap, acc, strategy, account);
            &&& 0 <= res.leftover <= rem_lot
            &&& sum_lots(res.trades) == sum_lots(acc) + (rem_lot - res.leftover)
            &&& sum_position_lots(res.positions) == sum_position_lots(ps) - (rem_lot
                - res.leftover)
            &&& res.trades.len() >= acc.len()
            &&& forall|k: int|
                acc.len() <= k < res.trades.len() ==> 0 < (#[trigger] res.trades[k]).lot
                    <= rem_lot
        }),
    decreases ps.len(),
{
    let res = consume(ps, c, rem_lot, rem_profit, rem_swap, acc, strategy, account);
    if rem_lot <= 0 {
    } else {
        match find_candidate(ps, c, strategy) {
            None => {},
            Some(i) => {
                if !(0 <= i < ps.len()) {
                } else {
                    let p = ps[i];
                    if p.lot > rem_lot {
                        let t = crate::matching::make_trade(
                            p,
                            c,
                            rem_lot,
                            rem_profit,
                            rem_swap,
                            account,
                        );
                        let residual = PositionV { lot: p.lot - rem_lot, ..p };
                        assert(sum_lots(res.trades) == sum_lots(acc) + rem_lot) by {
                            assert(res.trades.drop_last() =~= acc);
                        };
                        match strategy {
                            Strategy::Stack => {
                                lemma_sum_pos_update(ps, i, residual);
                            },
                            Strategy::Tolerance => {
                                lemma_sum_pos_remove(ps, i);
                                assert(res.positions.drop_last() =~= ps.remove(i));
                            },
                        }
                    } else {
                        let shp = crate::matching::share_of(rem_profit, p.lot, rem_lot);
                        let shs = crate::matching::share_of(rem_swap, p.lot, rem_lot);
                        let t = crate::matching::make_trade(p, c, p.lot, shp, shs, account);
                        let ps2 = ps.remove(i);
                        assert(forall|k: int|
                            0 <= k < ps2.len() ==> (#[trigger] ps2[k]).lot > 0) by {
                            assert(forall|k: int|
                                0 <= k < ps2.len() ==> ps2[k] == (if k < i {
                                    ps[k]
                                } else {
                                    ps[k + 1]
                                }));
                        };
                        lemma_consume_conserves(
                            ps2,
                            c,
                            rem_lot - p.lot,
                            rem_profit - shp,
                            rem_swap - shs,
                            acc.push(t),
                            strategy,
                            account,
                        );
                        lemma_sum_pos_remove(ps, i);
                        assert(sum_lots(acc.push(t)) == sum_lots(acc) + p.lot) by {
                            assert(acc.push(t).drop_last() =~= acc);
                        };
                        assert forall|k: int|
                            acc.len() <= k < res.trades.len() implies 0 < (
                        #[trigger] res.trades[k]).lot <= rem_lot by {
                            if k == acc.len() {
                                lemma_consume_keeps_acc(
                                    ps2,
                                    c,
                                    rem_lot - p.lot,
                                    rem_profit - shp,
                                    rem_swap - shs,
                                    acc.push(t),
                                    strategy,
                                    account,
                                );
                                assert(res.trades[k] == acc.push(t)[k]);
                            }
                        };
                    }
                }
            },
        }
    }
}


/// The full pop order of stack matching: with three open positions of
/// one pair and a close that covers them exactly, the emitted trades
/// walk the book newest first, each consuming one whole position.
#[verifier::rlimit(100)]
pub proof fn lemma_stack_lifo_full_order(o1: RecordV, o2: RecordV, o3: RecordV, c: RecordV)
    requires
        o1.wf() && o2.wf() && o3.wf() && c.wf(),
        o1.trade_type == LegType::Open,
        o2.trade_type == LegType::Open,
        o3.trade_type == LegType::Open,
        c.trade_type == LegType::Close,
        o1.pair == c.pair && o2.pair == c.pair && o3.pair == c.pair,
        o1.side == o2.side && o2.side == o3.side,
        o1.side != c.side,
        o1.order_time <= o2.order_time <= o3.order_time <= c.order_time,
        c.lot == o1.lot + o2.lot + o3.lot,
    ensures
        run_match(seq![o1, o2, o3, c], Strategy::Stack, Seq::empty()) is Some,
        ({
            let trades = run_match(seq![o1, o2, o3, c], Strategy::Stack, Seq::empty())->0.trades;
            &&& trades.len() == 3
            &&& trades[0].entry_rate == o3.rate && trades[0].lot == o3.lot
            &&& trades[1].entry_rate == o2.rate && trades[1].lot == o2.lot
            &&& trades[2].entry_rate == o1.rate && trades[2].lot == o1.lot
        }),
{
    reveal_with_fuel(run_match, 6);
    reveal_with_fuel(consume, 5);
    reveal_with_fuel(crate::matching::find_backward, 5);
    let rs = seq![o1, o2, o3, c];
    let acct = Seq::<char>::empty();
    assert(rs.drop_last() =~= seq![o1, o2, o3]);
    assert(seq![o1, o2, o3].drop_last() =~= seq![o1, o2]);
    assert(seq![o1, o2].drop_last() =~= seq![o1]);
    assert(seq![o1].drop_last() =~= Seq::<RecordV>::empty());
    let st0 = init_state();
    let st1 = step(st0, o1, Strategy::Stack, acct)->0;
    let st2 = step(st1, o2, Strategy::Stack, acct)->0;
    let st3 = step(st2, o3, Strategy::Stack, acct)->0;
    assert(run_match(seq![o1, o2, o3], Strategy::Stack, acct) == Some(st3));
    let ps = st3.positions;
    assert(ps =~= seq![pos_of_open(o1), pos_of_open(o2), pos_of_open(o3)]);
    let p1 = ps[0];
    let p2 = ps[1];
    let p3 = ps[2];
    let pr0 = crate::matching::opt0(c.profit);
    let sw0 = crate::matching::opt0(c.swap);
    assert(find_candidate(ps, c, Strategy::Stack) == Some(2int)) by {
        assert(candidate(ps[2], c, Strategy::Stack));
    };
    let shp3 = crate::matching::share_of(pr0, p3.lot, c.lot);
    let shs3 = crate::matching::share_of(sw0, p3.lot, c.lot);
    let t3 = crate::matching::make_trade(p3, c, p3.lot, shp3, shs3, acct);
    let ps1 = ps.remove(2);
    let acc1 = st3.trades.push(t3);
    assert(p3.lot < c.lot);
    assert(consume(ps, c, c.lot, pr0, sw0, st3.trades, Strategy::Stack, acct) == consume(
        ps1,
        c,
        c.lot - p3.lot,
        pr0 - shp3,
        sw0 - shs3,
        acc1,
        Strategy::Stack,
        acct,
    ));
    assert(ps1 =~= seq![p1, p2]);
    let rem1 = c.lot - p3.lot;
    assert(find_candidate(ps1, c, Strategy::Stack) == Some(1int)) by {
        assert(candidate(ps1[1], c, Strategy::Stack));
    };
    let shp2 = crate::matching::share_of(pr0 - shp3, p2.lot, rem1);
    let shs2 = crate::matching::share_of(sw0 - shs3, p2.lot, rem1);
    let t2 = crate::matching::make_trade(p2, c, p2.lot, shp2, shs2, acct);
    let ps2 = ps1.remove(1);
    let acc2 = acc1.push(t2);
    assert(p2.lot < rem1);
    assert(consume(ps1, c, rem1, pr0 - shp3, sw0 - shs3, acc1, Strategy::Stack, acct) == consume(
        ps2,
        c,
        rem1 - p2.lot,
        pr0 - shp3 - shp2,
        sw0 - shs3 - shs2,
        acc2,
        Strategy::Stack,
        acct,
    ));
    assert(ps2 =~= seq![p1]);
    let rem2 = rem1 - p2.lot;
    assert(rem2 == p1.lot);
    assert(find_candidate(ps2, c, Strategy::Stack) == Some(0int)) by {
        assert(candidate(ps2[0], c, Strategy::Stack));
    };
    let shp1 = crate::matching::share_of(pr0 - shp3 - shp2, p1.lot, rem2);
    let shs1 = crate::matching::share_of(sw0 - shs3 - shs2, p1.lot, rem2);
    let t1 = crate::matching::make_trade(p1, c, p1.lot, shp1, shs1, acct);
    let ps3 = ps2.remove(0);
    let acc3 = acc2.push(t1);
    assert(consume(ps2, c, rem2, pr0 - shp3 - shp2, sw0 - shs3 - shs2, acc2, Strategy::Stack, acct)
        == consume(ps3, c, 0, pr0 - shp3 - shp2 - shp1, sw0 - shs3 - shs2 - shs1, acc3, Strategy::Stack, acct));
    let res = consume(ps, c, c.lot, pr0, sw0, st3.trades, Strategy::Stack, acct);
    assert(res.trades == acc3);
    assert(res.leftover == 0);
    assert(run_match(rs, Strategy::Stack, acct) == step(st3, c, Strategy::Stack, acct));
    assert(run_match(rs, Strategy::Stack, acct)->0.trades == acc3);
    assert(acc3.len() == 3);
    assert(acc3[0] == t3 && acc3[1] == t2 && acc3[2] == t1);
}

} // verus!
