//! The trade ledger: an append-only store of round-trip trades with
//! soft-delete semantics. Trades are never removed; a merged-away trade
//! keeps its row and carries the identifier of the superseding trade.
//! Every read path excludes retired trades. The persistence collaborator
//! mirrors this ledger; the rules that decide what it holds live here.

use vstd::prelude::*;
use crate::busday::business_range_spec;
use crate::record::Record;
use crate::trade::{StoredTrade, StoredTradeV, Trade, TradeStatus, TradeV};

verus! {

/// A read filter over the ledger: business-date bounds (as `YYYY-MM-DD`
/// keys) on the exit time, and bounds on the holding time in seconds.
pub struct TradeFilter {
    pub start_date: Option<String>,
    pub end_date: Option<String>,
    pub min_holding_time: Option<i64>,
    pub max_holding_time: Option<i64>,
}

/// The live trades among `items` whose identifier is in `ids`, in ledger
/// order.
pub open spec fn get_by_ids_spec(items: Seq<StoredTradeV>, ids: Seq<int>) -> Seq<StoredTradeV> {
    items.filter(|t: StoredTradeV| t.status == TradeStatus::Active && ids.contains(t.id))
}

/// The similarity rule of the merger: same pair, same side, entry and
/// exit instants each within one second.
pub open spec fn similar(a: TradeV, b: TradeV) -> bool {
    &&& a.pair == b.pair
    &&& a.side == b.side
    &&& -1 <= a.entry_time - b.entry_time <= 1
    &&& -1 <= a.exit_time - b.exit_time <= 1
}

/// The live trades similar to `t`, in ledger order.
pub open spec fn find_similar_spec(items: Seq<StoredTradeV>, t: TradeV) -> Seq<StoredTradeV> {
    items.filter(|s: StoredTradeV| s.status == TradeStatus::Active && similar(s.trade, t))
}

/// Descending insertion by exit time, stable: an element goes after every
/// element that leaves at the same instant or later.
pub open spec fn insert_desc(sorted: Seq<StoredTradeV>, x: StoredTradeV) -> Seq<StoredTradeV>
    decreases sorted.len(),
{
    if sorted.len() == 0 {
        seq![x]
    } else if sorted[0].trade.exit_time >= x.trade.exit_time {
        seq![sorted[0]].add(insert_desc(sorted.drop_first(), x))
    } else {
        seq![x].add(sorted)
    }
}

/// The ledger's read order: exit time descending, stable.
pub open spec fn sort_desc(s: Seq<StoredTradeV>) -> Seq<StoredTradeV>
    decreases s.len(),
{
    if s.len() == 0 {
        Seq::empty()
    } else {
        insert_desc(sort_desc(s.drop_last()), s.last())
    }
}

/// The live trades, in read order.
pub open spec fn all_trades_spec(items: Seq<StoredTradeV>) -> Seq<StoredTradeV> {
    sort_desc(items.filter(|t: StoredTradeV| t.status == TradeStatus::Active))
}

/// Whether a trade passes the holding-time and date bounds of a filter.
/// A date key whose business-day range cannot be resolved leaves its
/// bound unapplied: an unreadable key filters nothing, not everything.
pub open spec fn passes_filter(
    t: TradeV,
    start: Option<int>,
    end: Option<int>,
    min_h: Option<int>,
    max_h: Option<int>,
) -> bool {
    &&& match start {
        Some(s) => t.exit_time >= s,
        None => true,
    }
    &&& match end {
        Some(e) => t.exit_time < e,
        None => true,
    }
    &&& match min_h {
        Some(m) => t.exit_time - t.entry_time >= m,
        None => true,
    }
    &&& match max_h {
        Some(m) => t.exit_time - t.entry_time <= m,
        None => true,
    }
}

/// The live trades passing the given bounds, in ledger order.
pub open spec fn filter_live(
    items: Seq<StoredTradeV>,
    start: Option<int>,
    end: Option<int>,
    min_h: Option<int>,
    max_h: Option<int>,
) -> Seq<StoredTradeV> {
    items.filter(
        |t: StoredTradeV|
            t.status == TradeStatus::Active && passes_filter(t.trade, start, end, min_h, max_h),
    )
}

/// The dashes of a `YYYY-MM-DD` key removed.
pub open spec fn strip_dashes(s: Seq<char>) -> Seq<char>
    decreases s.len(),
{
    if s.len() == 0 {
        Seq::empty()
    } else if s.last() == '-' {
        strip_dashes(s.drop_last())
    } else {
        strip_dashes(s.drop_last()).push(s.last())
    }
}

/// The lower exit-time bound a start-date key imposes: the start of its
/// business-day range.
pub open spec fn start_bound_spec(d: Option<Seq<char>>) -> Option<int> {
    match d {
        None => None,
        Some(s) => match business_range_spec(strip_dashes(s)) {
            Some(p) => Some(p.0),
            None => None,
        },
    }
}

/// The upper exit-time bound an end-date key imposes: the end of its
/// business-day range.
pub open spec fn end_bound_spec(d: Option<Seq<char>>) -> Option<int> {
    match d {
        None => None,
        Some(s) => match business_range_spec(strip_dashes(s)) {
            Some(p) => Some(p.1),
            None => None,
        },
    }
}

pub open spec fn views_of_stored(s: Seq<StoredTrade>) -> Seq<StoredTradeV> {
    s.map_values(|t: StoredTrade| t@)
}

pub open spec fn views_of_i64(s: Seq<i64>) -> Seq<int> {
    s.map_values(|x: i64| x as int)
}

/// The in-memory trade ledger.
pub struct TradeStore {
    pub next_id: i64,
    pub items: Vec<StoredTrade>,
    pub records: Vec<Record>,
}

impl TradeStore {
    /// The ledger's invariant: identifiers are positive, strictly
    /// increasing in ledger order and below the next free one, and every
    /// stored trade satisfies the trade invariant.
    pub open spec fn wf(self) -> bool {
        &&& 1 <= self.next_id <= i64::MAX - 1
        &&& forall|k: int|
            0 <= k < self.items@.len() ==> 0 < (#[trigger] self.items@[k])@.id < self.next_id
        &&& forall|k1: int, k2: int|
            0 <= k1 < k2 < self.items@.len() ==> (#[trigger] self.items@[k1])@.id < (
            #[trigger] self.items@[k2])@.id
        &&& forall|k: int| 0 <= k < self.items@.len() ==> (#[trigger] self.items@[k])@.trade.wf()
    }

    /// An empty ledger.
    pub fn new() -> (r: TradeStore)
        ensures
            r.wf(),
            r.items@.len() == 0,
            r.records@.len() == 0,
            r.next_id == 1,
    {
        TradeStore { next_id: 1, items: Vec::new(), records: Vec::new() }
    }

    /// Appends a trade to the ledger as a live entry and returns its
    /// fresh identifier.
    pub fn insert_trade(&mut self, trade: Trade) -> (r: Result<i64, crate::error::TradeError>)
        requires
            old(self).wf(),
            trade@.wf(),
        ensures
            final(self).wf(),
            final(self).records@ == old(self).records@,
            match r {
                Ok(id) => {
                    &&& id == old(self).next_id
                    &&& final(self).items@.len() == old(self).items@.len() + 1
                    &&& final(self).items@.drop_last() == old(self).items@
                    &&& final(self).items@.last()@ == (StoredTradeV {
                        id: id as int,
                        status: TradeStatus::Active,
                        trade: trade@,
                    })
                    &&& final(self).next_id == old(self).next_id + 1
                },
                Err(e) => {
                    &&& e == crate::error::TradeError::LimitExceeded
                    &&& *final(self) == *old(self)
                    &&& old(self).next_id == i64::MAX - 1
                },
            },
    {
        if self.next_id >= i64::MAX - 1 {
            return Err(crate::error::TradeError::LimitExceeded);
        }
        let id = self.next_id;
        let item = StoredTrade { id, status: TradeStatus::Active, trade };
        self.items.push(item);
        self.next_id = id + 1;
        proof {
            assert(self.items@.drop_last() =~= old(self).items@);
        }
        Ok(id)
    }

    /// Stores one raw execution record.
    pub fn insert_record(&mut self, record: Record)
        requires
            old(self).wf(),
        ensures
            final(self).wf(),
            final(self).items@ == old(self).items@,
            final(self).next_id == old(self).next_id,
            final(self).records@ == old(self).records@.push(record),
    {
        self.records.push(record);
    }

    /// Every raw record stored so far, in insertion order.
    #[verifier::loop_isolation(false)]
    pub fn get_all_records(&self) -> (r: Vec<Record>)
        ensures
            crate::matching::views_of_records(r@) == crate::matching::views_of_records(
                self.records@,
            ),
            r@.len() == self.records@.len(),
    {
        let mut out: Vec<Record> = Vec::new();
        let mut i: usize = 0;
        while i < self.records.len()
            invariant
                i <= self.records@.len(),
                out@.len() == i,
                crate::matching::views_of_records(out@) == crate::matching::views_of_records(
                    self.records@.subrange(0, i as int),
                ),
            decreases self.records@.len() - i,
        {
            let copied = self.records[i].clone();
            assert(copied@ == self.records@[i as int]@);
            let ghost prev = out@;
            out.push(copied);
            proof {
                assert(out@ == prev.push(copied));
                assert forall|k: int| 0 <= k < i + 1 implies (#[trigger] out@[k])@
                    == self.records@.subrange(0, i + 1 as int)[k]@ by {
                    if k < i {
                        assert(out@[k] == prev[k]);
                        assert(crate::matching::views_of_records(prev)[k] == prev[k]@);
                        assert(crate::matching::views_of_records(
                            self.records@.subrange(0, i as int),
                        )[k] == self.records@.subrange(0, i as int)[k]@);
                        assert(self.records@.subrange(0, i as int)[k] == self.records@[k]);
                    } else {
                        assert(out@[k] == copied);
                    }
                    assert(self.records@.subrange(0, i + 1 as int)[k] == self.records@[k]);
                };
                assert(crate::matching::views_of_records(out@) =~~= crate::matching::views_of_records(
                    self.records@.subrange(0, i + 1 as int),
                ));
            }
            i = i + 1;
        }
        proof {
            assert(self.records@.subrange(0, self.records@.len() as int) =~= self.records@);
        }
        out
    }

    /// The live trades whose identifiers are in `ids`, in ledger order.
    #[verifier::loop_isolation(false)]
    pub fn get_by_ids(&self, ids: &Vec<i64>) -> (r: Vec<StoredTrade>)
        requires
            self.wf(),
        ensures
            views_of_stored(r@) == get_by_ids_spec(views_of_stored(self.items@), views_of_i64(ids@)),
            forall|k: int| 0 <= k < r@.len() ==> (#[trigger] r@[k])@.trade.wf(),
            forall|k: int| 0 <= k < r@.len() ==> (#[trigger] r@[k])@.status == TradeStatus::Active,
    {
        let ghost all = views_of_stored(self.items@);
        let ghost idv = views_of_i64(ids@);
        let mut out: Vec<StoredTrade> = Vec::new();
        let mut i: usize = 0;
        proof {
            assert(all.take(0) =~= Seq::<StoredTradeV>::empty());
            reveal(Seq::filter);
            assert(views_of_stored(out@) =~= get_by_ids_spec(all.take(0), idv));
        }
        while i < self.items.len()
            invariant
                i <= self.items@.len(),
                views_of_stored(out@) == get_by_ids_spec(all.take(i as int), idv),
                forall|k: int|
                    0 <= k < out@.len() ==> (#[trigger] out@[k])@.trade.wf() && out@[k]@.status
                        == TradeStatus::Active,
            decreases self.items@.len() - i,
        {
            let item = &self.items[i];
            let is_active = match item.status {
                TradeStatus::Active => true,
                TradeStatus::MergedAway(_) => false,
            };
            let mut found: bool = false;
            let mut j: usize = 0;
            while j < ids.len()
                invariant
                    j <= ids@.len(),
                    found == exists|k: int| 0 <= k < j && idv[k] == item@.id,
                decreases ids@.len() - j,
            {
                proof {
                    assert(idv[j as int] == ids@[j as int] as int);
                }
                if ids[j] == item.id {
                    found = true;
                }
                j = j + 1;
            }
            proof {
                assert(found == idv.contains(item@.id));
                assert(all.take(i + 1).drop_last() =~= all.take(i as int));
                assert(all.take(i + 1).last() == item@);
                reveal(Seq::filter);
            }
            if is_active && found {
                out.push(item.clone());
                proof {
                    assert(views_of_stored(out@) =~= get_by_ids_spec(all.take(i as int), idv).push(
                        item@,
                    ));
                }
            }
            i = i + 1;
        }
        proof {
            assert(all.take(self.items@.len() as int) =~= all);
        }
        out
    }

    /// The live trades similar to `trade`: same pair and side, entry and
    /// exit instants each within one second, in ledger order. A retired
    /// trade is never a candidate.
    #[verifier::loop_isolation(false)]
    pub fn find_similar_trades(&self, trade: &Trade) -> (r: Vec<StoredTrade>)
        requires
            self.wf(),
            trade@.wf(),
        ensures
            views_of_stored(r@) == find_similar_spec(views_of_stored(self.items@), trade@),
            forall|k: int| 0 <= k < r@.len() ==> (#[trigger] r@[k])@.trade.wf(),
    {
        let ghost all = views_of_stored(self.items@);
        let mut out: Vec<StoredTrade> = Vec::new();
        let mut i: usize = 0;
        proof {
            assert(all.take(0) =~= Seq::<StoredTradeV>::empty());
            reveal(Seq::filter);
            assert(views_of_stored(out@) =~= find_similar_spec(all.take(0), trade@));
        }
        while i < self.items.len()
            invariant
                i <= self.items@.len(),
                views_of_stored(out@) == find_similar_spec(all.take(i as int), trade@),
                forall|k: int| 0 <= k < out@.len() ==> (#[trigger] out@[k])@.trade.wf(),
            decreases self.items@.len() - i,
        {
            let item = &self.items[i];
            let is_active = match item.status {
                TradeStatus::Active => true,
                TradeStatus::MergedAway(_) => false,
            };
            let t = &item.trade;
            let same = t.pair == trade.pair && t.side == trade.side;
            let dt_entry_ok = t.entry_time - trade.entry_time <= 1 && trade.entry_time
                - t.entry_time <= 1;
            let dt_exit_ok = t.exit_time - trade.exit_time <= 1 && trade.exit_time - t.exit_time
                <= 1;
            proof {
                assert(all.take(i + 1).drop_last() =~= all.take(i as int));
                assert(all.take(i + 1).last() == item@);
                reveal(Seq::filter);
            }
            if is_active && same && dt_entry_ok && dt_exit_ok {
                out.push(item.clone());
                proof {
                    assert(views_of_stored(out@) =~= find_similar_spec(all.take(i as int), trade@).push(
                        item@,
                    ));
                }
            }
            i = i + 1;
        }
        proof {
            assert(all.take(self.items@.len() as int) =~= all);
        }
        out
    }

    /// Retires the live trades named by `ids`: each becomes a
    /// merged-away entry pointing at `merged_to`. Nothing else changes.
    #[verifier::loop_isolation(false)]
    pub fn soft_delete_and_relink(&mut self, ids: &Vec<i64>, merged_to: i64)
        requires
            old(self).wf(),
        ensures
            final(self).wf(),
            final(self).next_id == old(self).next_id,
            final(self).records@ == old(self).records@,
            final(self).items@.len() == old(self).items@.len(),
            forall|k: int|
                0 <= k < old(self).items@.len() ==> {
                    let o = (#[trigger] old(self).items@[k])@;
                    let n = final(self).items@[k]@;
                    if o.status == TradeStatus::Active && views_of_i64(ids@).contains(o.id) {
                        n == (StoredTradeV {
                            status: TradeStatus::MergedAway(merged_to),
                            ..o
                        })
                    } else {
                        n == o
                    }
                },
    {
        let ghost idv = views_of_i64(ids@);
        let n = self.items.len();
        let mut i: usize = 0;
        while i < n
            invariant
                i <= n,
                n == self.items@.len(),
                self.items@.len() == old(self).items@.len(),
                self.next_id == old(self).next_id,
                self.records@ == old(self).records@,
                forall|k: int|
                    i <= k < n ==> (#[trigger] self.items@[k]) == old(self).items@[k],
                forall|k: int|
                    0 <= k < i ==> {
                        let o = (#[trigger] old(self).items@[k])@;
                        let m = self.items@[k]@;
                        if o.status == TradeStatus::Active && idv.contains(o.id) {
                            m == (StoredTradeV {
                                status: TradeStatus::MergedAway(merged_to),
                                ..o
                            })
                        } else {
                            m == o
                        }
                    },
            decreases n - i,
        {
            let item = &self.items[i];
            let is_active = match item.status {
                TradeStatus::Active => true,
                TradeStatus::MergedAway(_) => false,
            };
            let mut found: bool = false;
            let mut j: usize = 0;
            while j < ids.len()
                invariant
                    j <= ids@.len(),
                    found == exists|k: int| 0 <= k < j && idv[k] == self.items@[i as int]@.id,
                decreases ids@.len() - j,
            {
                proof {
                    assert(idv[j as int] == ids@[j as int] as int);
                }
                if ids[j] == self.items[i].id {
                    found = true;
                }
                j = j + 1;
            }
            proof {
                assert(found == idv.contains(self.items@[i as int]@.id));
            }
            if is_active && found {
                let old_item = &self.items[i];
                let replacement = StoredTrade {
                    id: old_item.id,
                    status: TradeStatus::MergedAway(merged_to),
                    trade: old_item.trade.clone(),
                };
                proof {
                    assert(replacement@ =~~= (StoredTradeV {
                        status: TradeStatus::MergedAway(merged_to),
                        ..old(self).items@[i as int]@
                    }));
                }
                self.items.set(i, replacement);
            }
            i = i + 1;
        }
        proof {
            assert forall|k: int| 0 <= k < self.items@.len() implies (#[trigger] self.items@[k])@.id
                == old(self).items@[k]@.id && self.items@[k]@.trade == old(self).items@[k]@.trade by {
                let o = old(self).items@[k]@;
                let m = self.items@[k]@;
                if o.status == TradeStatus::Active && idv.contains(o.id) {
                    assert(m == (StoredTradeV { status: TradeStatus::MergedAway(merged_to), ..o }));
                } else {
                    assert(m == o);
                }
            };
        }
    }
}


/// Insertion into a descending-sorted book at a scanned position equals
/// the specification's insertion.
proof fn lemma_insert_desc_at(sorted: Seq<StoredTradeV>, x: StoredTradeV, pos: int)
    requires
        0 <= pos <= sorted.len(),
        forall|j: int| 0 <= j < pos ==> (#[trigger] sorted[j]).trade.exit_time >= x.trade.exit_time,
        pos < sorted.len() ==> sorted[pos].trade.exit_time < x.trade.exit_time,
    ensures
        insert_desc(sorted, x) == sorted.insert(pos, x),
    decreases pos,
{
    if sorted.len() == 0 {
        assert(insert_desc(sorted, x) =~= sorted.insert(0, x));
    } else if pos == 0 {
        assert(insert_desc(sorted, x) =~= sorted.insert(0, x));
    } else {
        assert(sorted[0].trade.exit_time >= x.trade.exit_time);
        assert(forall|j: int|
            0 <= j < pos - 1 ==> (#[trigger] sorted.drop_first()[j]).trade.exit_time
                >= x.trade.exit_time) by {
            assert(forall|j: int|
                0 <= j < pos - 1 ==> sorted.drop_first()[j] == (#[trigger] sorted[j + 1]));
        };
        lemma_insert_desc_at(sorted.drop_first(), x, pos - 1);
        assert(insert_desc(sorted, x) =~= sorted.insert(pos, x));
    }
}

/// Sorts stored trades by exit time, newest first, keeping ledger order
/// among equals.
#[verifier::loop_isolation(false)]
fn sort_by_exit_desc(input: Vec<StoredTrade>) -> (r: Vec<StoredTrade>)
    ensures
        views_of_stored(r@) == sort_desc(views_of_stored(input@)),
        (forall|q: int| 0 <= q < input@.len() ==> (#[trigger] input@[q])@.trade.wf()) ==> (forall|
            k: int,
        |
            0 <= k < r@.len() ==> (#[trigger] r@[k])@.trade.wf()),
{
    let ghost iv = views_of_stored(input@);
    let mut out: Vec<StoredTrade> = Vec::new();
    let mut i: usize = 0;
    proof {
        assert(iv.take(0) =~= Seq::<StoredTradeV>::empty());
        assert(views_of_stored(out@) =~= sort_desc(iv.take(0)));
    }
    while i < input.len()
        invariant
            i <= input@.len(),
            views_of_stored(out@) == sort_desc(iv.take(i as int)),
            (forall|q: int| 0 <= q < input@.len() ==> (#[trigger] input@[q])@.trade.wf()) ==> (
            forall|k: int| 0 <= k < out@.len() ==> (#[trigger] out@[k])@.trade.wf()),
        decreases input@.len() - i,
    {
        let x = input[i].clone();
        let exit_x: i64 = x.trade.exit_time;
        let mut pos: usize = 0;
        while pos < out.len() && out[pos].trade.exit_time >= exit_x
            invariant
                pos <= out@.len(),
                forall|j: int|
                    0 <= j < pos ==> (#[trigger] out@[j])@.trade.exit_time >= exit_x,
            decreases out@.len() - pos,
        {
            pos = pos + 1;
        }
        let ghost prev = out@;
        out.insert(pos, x);
        proof {
            assert(iv.take(i + 1).drop_last() =~= iv.take(i as int));
            assert(iv.take(i + 1).last() == input@[i as int]@);
            assert forall|j: int| 0 <= j < pos implies (#[trigger] views_of_stored(prev)[j]).trade.exit_time
                >= x@.trade.exit_time by {
                assert(views_of_stored(prev)[j] == prev[j]@);
            };
            if pos < prev.len() {
                assert(views_of_stored(prev)[pos as int] == prev[pos as int]@);
            }
            lemma_insert_desc_at(views_of_stored(prev), x@, pos as int);
            assert(views_of_stored(out@) =~~= views_of_stored(prev).insert(pos as int, x@));
            assert(views_of_stored(out@) == sort_desc(iv.take(i + 1)));
        }
        i = i + 1;
    }
    proof {
        assert(iv.take(input@.len() as int) =~= iv);
    }
    out
}

impl TradeStore {
    /// Every live trade, newest exit first.
    #[verifier::loop_isolation(false)]
    pub fn get_all_trades(&self) -> (r: Vec<StoredTrade>)
        requires
            self.wf(),
        ensures
            views_of_stored(r@) == all_trades_spec(views_of_stored(self.items@)),
            forall|k: int| 0 <= k < r@.len() ==> (#[trigger] r@[k])@.trade.wf(),
    {
        let ghost all = views_of_stored(self.items@);
        let mut live: Vec<StoredTrade> = Vec::new();
        let mut i: usize = 0;
        proof {
            assert(all.take(0) =~= Seq::<StoredTradeV>::empty());
            reveal(Seq::filter);
            assert(views_of_stored(live@) =~= all.take(0).filter(
                |t: StoredTradeV| t.status == TradeStatus::Active,
            ));
        }
        while i < self.items.len()
            invariant
                i <= self.items@.len(),
                views_of_stored(live@) == all.take(i as int).filter(
                    |t: StoredTradeV| t.status == TradeStatus::Active,
                ),
                forall|k: int| 0 <= k < live@.len() ==> (#[trigger] live@[k])@.trade.wf(),
            decreases self.items@.len() - i,
        {
            let item = &self.items[i];
            let is_active = match item.status {
                TradeStatus::Active => true,
                TradeStatus::MergedAway(_) => false,
            };
            proof {
                assert(all.take(i + 1).drop_last() =~= all.take(i as int));
                assert(all.take(i + 1).last() == item@);
                reveal(Seq::filter);
            }
            if is_active {
                live.push(item.clone());
                proof {
                    assert(views_of_stored(live@) =~= all.take(i as int).filter(
                        |t: StoredTradeV| t.status == TradeStatus::Active,
                    ).push(item@));
                }
            }
            i = i + 1;
        }
        proof {
            assert(all.take(self.items@.len() as int) =~= all);
        }
        sort_by_exit_desc(live)
    }

    /// The live trades passing a filter, newest exit first: date keys
    /// bound the exit time by their business-day ranges, and holding-time
    /// bounds apply to the difference of exit and entry.
    #[verifier::loop_isolation(false)]
    pub fn get_by_filter(&self, filter: &TradeFilter) -> (r: Vec<StoredTrade>)
        requires
            self.wf(),
        ensures
            views_of_stored(r@) == sort_desc(
                filter_live(
                    views_of_stored(self.items@),
                    start_bound_spec(match filter.start_date {
                        Some(ref s) => Some(s@),
                        None => None,
                    }),
                    end_bound_spec(match filter.end_date {
                        Some(ref s) => Some(s@),
                        None => None,
                    }),
                    match filter.min_holding_time {
                        Some(m) => Some(m as int),
                        None => None,
                    },
                    match filter.max_holding_time {
                        Some(m) => Some(m as int),
                        None => None,
                    },
                ),
            ),
            forall|k: int| 0 <= k < r@.len() ==> (#[trigger] r@[k])@.trade.wf(),
    {
        let ghost gstart = start_bound_spec(match filter.start_date {
            Some(ref s) => Some(s@),
            None => None,
        });
        let ghost gend = end_bound_spec(match filter.end_date {
            Some(ref s) => Some(s@),
            None => None,
        });
        let start_bound: Option<i64> = match filter.start_date {
            Some(ref s) => {
                let chars = crate::parse::str_chars(s.as_str());
                let stripped = strip_dashes_exec(&chars);
                match crate::busday::business_range_chars(&stripped) {
                    Some(p) => Some(p.0),
                    None => None,
                }
            },
            None => None,
        };
        let end_bound: Option<i64> = match filter.end_date {
            Some(ref s) => {
                let chars = crate::parse::str_chars(s.as_str());
                let stripped = strip_dashes_exec(&chars);
                match crate::busday::business_range_chars(&stripped) {
                    Some(p) => Some(p.1),
                    None => None,
                }
            },
            None => None,
        };
        proof {
            assert(match start_bound {
                Some(v) => gstart == Some(v as int),
                None => gstart is None,
            });
            assert(match end_bound {
                Some(v) => gend == Some(v as int),
                None => gend is None,
            });
        }
        let ghost gmin = match filter.min_holding_time {
            Some(m) => Some(m as int),
            None => None,
        };
        let ghost gmax = match filter.max_holding_time {
            Some(m) => Some(m as int),
            None => None,
        };
        let ghost all = views_of_stored(self.items@);
        let mut live: Vec<StoredTrade> = Vec::new();
        let mut i: usize = 0;
        proof {
            assert(all.take(0) =~= Seq::<StoredTradeV>::empty());
            reveal(Seq::filter);
            assert(views_of_stored(live@) =~= filter_live(all.take(0), gstart, gend, gmin, gmax));
        }
        while i < self.items.len()
            invariant
                i <= self.items@.len(),
                views_of_stored(live@) == filter_live(all.take(i as int), gstart, gend, gmin, gmax),
                forall|k: int| 0 <= k < live@.len() ==> (#[trigger] live@[k])@.trade.wf(),
            decreases self.items@.len() - i,
        {
            let item = &self.items[i];
            let is_active = match item.status {
                TradeStatus::Active => true,
                TradeStatus::MergedAway(_) => false,
            };
            let t = &item.trade;
            let ok_start = match start_bound {
                Some(s) => t.exit_time >= s,
                None => true,
            };
            let ok_end = match end_bound {
                Some(e) => t.exit_time < e,
                None => true,
            };
            let ok_min = match filter.min_holding_time {
                Some(m) => t.exit_time - t.entry_time >= m,
                None => true,
            };
            let ok_max = match filter.max_holding_time {
                Some(m) => t.exit_time - t.entry_time <= m,
                None => true,
            };
            proof {
                assert(all.take(i + 1).drop_last() =~= all.take(i as int));
                assert(all.take(i + 1).last() == item@);
                reveal(Seq::filter);
            }
            if is_active && ok_start && ok_end && ok_min && ok_max {
                live.push(item.clone());
                proof {
                    assert(views_of_stored(live@) =~= filter_live(
                        all.take(i as int),
                        gstart,
                        gend,
                        gmin,
                        gmax,
                    ).push(item@));
                }
            }
            i = i + 1;
        }
        proof {
            assert(all.take(self.items@.len() as int) =~= all);
        }
        sort_by_exit_desc(live)
    }

    /// Replaces the note of the trade with the given identifier, live or
    /// retired; everything else stays as it is.
    #[verifier::loop_isolation(false)]
    pub fn update_trade_memo_by_id(&mut self, id: i64, memo: &str)
        requires
            old(self).wf(),
        ensures
            final(self).wf(),
            final(self).next_id == old(self).next_id,
            final(self).records@ == old(self).records@,
            final(self).items@.len() == old(self).items@.len(),
            forall|k: int|
                0 <= k < old(self).items@.len() ==> {
                    let o = (#[trigger] old(self).items@[k])@;
                    let n = final(self).items@[k]@;
                    if o.id == id {
                        n == (StoredTradeV { trade: TradeV { memo: memo@, ..o.trade }, ..o })
                    } else {
                        n == o
                    }
                },
    {
        let n = self.items.len();
        let mut i: usize = 0;
        while i < n
            invariant
                i <= n,
                n == self.items@.len(),
                self.items@.len() == old(self).items@.len(),
                self.next_id == old(self).next_id,
                self.records@ == old(self).records@,
                forall|k: int| i <= k < n ==> (#[trigger] self.items@[k]) == old(self).items@[k],
                forall|k: int|
                    0 <= k < i ==> {
                        let o = (#[trigger] old(self).items@[k])@;
                        let m = self.items@[k]@;
                        if o.id == id {
                            m == (StoredTradeV { trade: TradeV { memo: memo@, ..o.trade }, ..o })
                        } else {
                            m == o
                        }
                    },
            decreases n - i,
        {
            if self.items[i].id == id {
                let old_item = &self.items[i];
                let replacement = StoredTrade {
                    id: old_item.id,
                    status: old_item.status,
                    trade: Trade { memo: memo.to_owned(), ..old_item.trade.clone() },
                };
                proof {
                    assert(replacement@ =~~= (StoredTradeV {
                        trade: TradeV { memo: memo@, ..old(self).items@[i as int]@.trade },
                        ..old(self).items@[i as int]@
                    }));
                }
                self.items.set(i, replacement);
            }
            i = i + 1;
        }
        proof {
            assert forall|k: int| 0 <= k < self.items@.len() implies (#[trigger] self.items@[k])@.id
                == old(self).items@[k]@.id && self.items@[k]@.trade.wf() by {
                let o = old(self).items@[k]@;
                let m = self.items@[k]@;
                if o.id == id {
                    assert(m == (StoredTradeV { trade: TradeV { memo: memo@, ..o.trade }, ..o }));
                } else {
                    assert(m == o);
                }
            };
        }
    }
}

impl TradeStore {
    /// A working copy of the ledger, equal view for view.
    #[verifier::loop_isolation(false)]
    pub fn snapshot(&self) -> (r: TradeStore)
        ensures
            r.next_id == self.next_id,
            views_of_stored(r.items@) == views_of_stored(self.items@),
            crate::matching::views_of_records(r.records@) == crate::matching::views_of_records(
                self.records@,
            ),
            self.wf() ==> r.wf(),
    {
        let mut items: Vec<StoredTrade> = Vec::new();
        let mut i: usize = 0;
        while i < self.items.len()
            invariant
                i <= self.items@.len(),
                items@.len() == i,
                forall|k: int| 0 <= k < i ==> (#[trigger] items@[k])@ == self.items@[k]@,
            decreases self.items@.len() - i,
        {
            items.push(self.items[i].clone());
            i = i + 1;
        }
        proof {
            assert(views_of_stored(items@) =~~= views_of_stored(self.items@));
        }
        let records = self.get_all_records();
        proof {
            if self.wf() {
                assert forall|k: int| 0 <= k < items@.len() implies 0 < (#[trigger] items@[k])@.id
                    < self.next_id && items@[k]@.trade.wf() by {
                    assert(items@[k]@ == self.items@[k]@);
                };
                assert forall|k1: int, k2: int| 0 <= k1 < k2 < items@.len() implies (
                #[trigger] items@[k1])@.id < (#[trigger] items@[k2])@.id by {
                    assert(items@[k1]@ == self.items@[k1]@);
                    assert(items@[k2]@ == self.items@[k2]@);
                };
            }
        }
        TradeStore { next_id: self.next_id, items, records }
    }
}

/// Removes every dash from a date key.
#[verifier::loop_isolation(false)]
fn strip_dashes_exec(v: &Vec<char>) -> (r: Vec<char>)
    ensures
        r@ == strip_dashes(v@),
{
    let mut r: Vec<char> = Vec::new();
    let mut i: usize = 0;
    proof {
        assert(v@.subrange(0, 0) =~= Seq::<char>::empty());
    }
    while i < v.len()
        invariant
            i <= v@.len(),
            r@ == strip_dashes(v@.subrange(0, i as int)),
        decreases v@.len() - i,
    {
        proof {
            assert(v@.subrange(0, i + 1 as int).drop_last() =~= v@.subrange(0, i as int));
        }
        let c = v[i];
        if c != '-' {
            r.push(c);
        }
        i = i + 1;
    }
    proof {
        assert(v@.subrange(0, v@.len() as int) =~= v@);
    }
    r
}

} // verus!
