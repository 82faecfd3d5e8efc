//! The import pass: classifies every file's header before any row is
//! processed, normalises the rows of the detected broker, sorts them
//! chronologically, drops rows that break the engine's limits as
//! data-quality signals, matches them into trades, and persists records
//! and trades with the automatic merge of broker-fragmented fills. The
//! whole pass is atomic: on any failure the ledger is untouched.

use vstd::prelude::*;
use crate::error::TradeError;
use crate::matching::{match_records, run_match, views_of_records, Strategy};
use crate::merge::merge_trades;
use crate::normalize::{detect_spec, normalize_row, row_spec, views_of_strings, Broker};
use crate::record::{Record, RecordV};
use crate::trade::{StoredTradeV, Trade};
use crate::store::TradeStore;

verus! {

/// One already-tokenised export file: its header row and its data rows.
pub struct CsvFile {
    pub header: Vec<String>,
    pub rows: Vec<Vec<String>>,
}

/// What one import pass reports back.
pub struct ImportReport {
    pub broker: Broker,
    pub trades: usize,
    pub skipped_rows: usize,
    pub merged_groups: usize,
}

pub open spec fn rows_views(rows: Seq<Vec<String>>) -> Seq<Seq<Seq<char>>> {
    rows.map_values(|r: Vec<String>| views_of_strings(r@))
}

/// Scans the remaining headers: each must name the already-detected
/// broker.
pub open spec fn detect_all_from(hs: Seq<Seq<Seq<char>>>, i: int, b: Broker) -> Result<
    Broker,
    TradeError,
>
    decreases hs.len() - i,
{
    if i < 0 || i >= hs.len() {
        Ok(b)
    } else {
        match detect_spec(hs[i]) {
            None => Err(TradeError::UnrecognizedFormat),
            Some(x) => {
                if x == b {
                    detect_all_from(hs, i + 1, b)
                } else {
                    Err(TradeError::MixedAccountFormats)
                }
            },
        }
    }
}

/// Classifies a whole batch: every file must name the same broker, and
/// the check runs before any row is processed.
pub open spec fn detect_all_spec(hs: Seq<Seq<Seq<char>>>) -> Result<Broker, TradeError> {
    if hs.len() == 0 {
        Err(TradeError::NoInputFiles)
    } else {
        match detect_spec(hs[0]) {
            None => Err(TradeError::UnrecognizedFormat),
            Some(b) => detect_all_from(hs, 1, b),
        }
    }
}

/// The records of one file, newest row first as the exports are written,
/// so oldest execution first in the result.
pub open spec fn norm_rows(rows: Seq<Seq<Seq<char>>>, b: Broker) -> Seq<RecordV>
    decreases rows.len(),
{
    if rows.len() == 0 {
        Seq::empty()
    } else {
        let rest = norm_rows(rows.drop_first(), b);
        match row_spec(rows.first(), b) {
            Some(r) => rest.push(r),
            None => rest,
        }
    }
}

/// The records of a whole batch, file by file.
pub open spec fn norm_files(files: Seq<Seq<Seq<Seq<char>>>>, b: Broker) -> Seq<RecordV>
    decreases files.len(),
{
    if files.len() == 0 {
        Seq::empty()
    } else {
        norm_files(files.drop_last(), b).add(norm_rows(files.last(), b))
    }
}

/// Ascending stable insertion by execution instant.
pub open spec fn insert_asc(sorted: Seq<RecordV>, x: RecordV) -> Seq<RecordV>
    decreases sorted.len(),
{
    if sorted.len() == 0 {
        seq![x]
    } else if sorted[0].order_time <= x.order_time {
        seq![sorted[0]].add(insert_asc(sorted.drop_first(), x))
    } else {
        seq![x].add(sorted)
    }
}

/// Chronological order, stable.
pub open spec fn sort_asc(s: Seq<RecordV>) -> Seq<RecordV>
    decreases s.len(),
{
    if s.len() == 0 {
        Seq::empty()
    } else {
        insert_asc(sort_asc(s.drop_last()), s.last())
    }
}

/// The well-formed records among `s`, in order.
pub open spec fn wf_filter(s: Seq<RecordV>) -> Seq<RecordV> {
    s.filter(|r: RecordV| r.wf())
}

/// The rows an import pass hands to the matcher: normalised, sorted,
/// with rows outside the engine's limits dropped as data-quality
/// signals.
pub open spec fn prepared_spec(hs: Seq<Seq<Seq<char>>>, files: Seq<Seq<Seq<Seq<char>>>>) -> Result<
    Seq<RecordV>,
    TradeError,
> {
    match detect_all_spec(hs) {
        Err(e) => Err(e),
        Ok(b) => Ok(wf_filter(sort_asc(norm_files(files, b)))),
    }
}

/// The account tag of a broker.
pub open spec fn account_spec(b: Broker) -> Seq<char> {
    match b {
        Broker::Dmm => "DMM"@,
        Broker::Gmo => "GMO"@,
    }
}

fn account_exec(b: Broker) -> (r: String)
    ensures
        r@ == account_spec(b),
{
    match b {
        Broker::Dmm => "DMM".to_owned(),
        Broker::Gmo => "GMO".to_owned(),
    }
}

/// Insertion into a chronologically sorted list at a scanned position
/// equals the specification's insertion.
proof fn lemma_insert_asc_at(sorted: Seq<RecordV>, x: RecordV, pos: int)
    requires
        0 <= pos <= sorted.len(),
        forall|j: int| 0 <= j < pos ==> (#[trigger] sorted[j]).order_time <= x.order_time,
        pos < sorted.len() ==> sorted[pos].order_time > x.order_time,
    ensures
        insert_asc(sorted, x) == sorted.insert(pos, x),
    decreases pos,
{
    if sorted.len() == 0 {
        assert(insert_asc(sorted, x) =~= sorted.insert(0, x));
    } else if pos == 0 {
        assert(insert_asc(sorted, x) =~= sorted.insert(0, x));
    } else {
        assert(forall|j: int|
            0 <= j < pos - 1 ==> (#[trigger] sorted.drop_first()[j]).order_time <= x.order_time)
            by {
            assert(forall|j: int|
                0 <= j < pos - 1 ==> sorted.drop_first()[j] == (#[trigger] sorted[j + 1]));
        };
        lemma_insert_asc_at(sorted.drop_first(), x, pos - 1);
        assert(insert_asc(sorted, x) =~= sorted.insert(pos, x));
    }
}

/// Sorts records chronologically, keeping input order among equal
/// instants.
#[verifier::loop_isolation(false)]
fn sort_records_asc(input: Vec<Record>) -> (r: Vec<Record>)
    ensures
        views_of_records(r@) == sort_asc(views_of_records(input@)),
{
    let ghost iv = views_of_records(input@);
    let mut out: Vec<Record> = Vec::new();
    let mut i: usize = 0;
    proof {
        assert(iv.take(0) =~= Seq::<RecordV>::empty());
        assert(views_of_records(out@) =~= sort_asc(iv.take(0)));
    }
    while i < input.len()
        invariant
            i <= input@.len(),
            views_of_records(out@) == sort_asc(iv.take(i as int)),
        decreases input@.len() - i,
    {
        let x = input[i].clone();
        let tx: i64 = x.order_time;
        let mut pos: usize = 0;
        while pos < out.len() && out[pos].order_time <= tx
            invariant
                pos <= out@.len(),
                forall|j: int| 0 <= j < pos ==> (#[trigger] out@[j])@.order_time <= tx,
            decreases out@.len() - pos,
        {
            pos = pos + 1;
        }
        let ghost prev = out@;
        out.insert(pos, x);
        proof {
            assert(iv.take(i + 1).drop_last() =~= iv.take(i as int));
            assert(iv.take(i + 1).last() == input@[i as int]@);
            assert forall|j: int| 0 <= j < pos implies (#[trigger] views_of_records(
                prev,
            )[j]).order_time <= x@.order_time by {
                assert(views_of_records(prev)[j] == prev[j]@);
            };
            if pos < prev.len() {
                assert(views_of_records(prev)[pos as int] == prev[pos as int]@);
            }
            lemma_insert_asc_at(views_of_records(prev), x@, pos as int);
            assert(views_of_records(out@) =~~= views_of_records(prev).insert(pos as int, x@));
            assert(views_of_records(out@) == sort_asc(iv.take(i + 1)));
        }
        i = i + 1;
    }
    proof {
        assert(iv.take(input@.len() as int) =~= iv);
    }
    out
}

/// Classifies a whole batch of files, before any row is processed.
#[verifier::loop_isolation(false)]
fn detect_batch(files: &Vec<CsvFile>) -> (r: Result<Broker, TradeError>)
    ensures
        r == detect_all_spec(files@.map_values(|f: CsvFile| views_of_strings(f.header@))),
{
    let ghost hs = files@.map_values(|f: CsvFile| views_of_strings(f.header@));
    if files.len() == 0 {
        return Err(TradeError::NoInputFiles);
    }
    proof {
        assert(hs[0] == views_of_strings(files@[0].header@));
    }
    let broker = match crate::normalize::detect_format(&files[0].header) {
        Some(b) => b,
        None => {
            return Err(TradeError::UnrecognizedFormat);
        },
    };
    let mut fi: usize = 1;
    while fi < files.len()
        invariant
            1 <= fi <= files@.len(),
            detect_spec(hs[0]) == Some(broker),
            detect_all_from(hs, 1, broker) == detect_all_from(hs, fi as int, broker),
        decreases files@.len() - fi,
    {
        proof {
            assert(hs[fi as int] == views_of_strings(files@[fi as int].header@));
        }
        match crate::normalize::detect_format(&files[fi].header) {
            None => {
                return Err(TradeError::UnrecognizedFormat);
            },
            Some(x) => {
                if !(x == broker) {
                    return Err(TradeError::MixedAccountFormats);
                }
            },
        }
        fi = fi + 1;
    }
    Ok(broker)
}

/// Normalises every row of every file of the detected broker.
#[verifier::loop_isolation(false)]
#[verifier::rlimit(100)]
fn normalize_batch(files: &Vec<CsvFile>, broker: Broker) -> (r: Vec<Record>)
    ensures
        views_of_records(r@) == norm_files(
            files@.map_values(|f: CsvFile| rows_views(f.rows@)),
            broker,
        ),
{
    let ghost fs = files@.map_values(|f: CsvFile| rows_views(f.rows@));
    let mut raw: Vec<Record> = Vec::new();
    let mut fj: usize = 0;
    proof {
        assert(fs.take(0) =~= Seq::<Seq<Seq<Seq<char>>>>::empty());
        assert(views_of_records(raw@) =~= norm_files(fs.take(0), broker));
    }
    while fj < files.len()
        invariant
            fj <= files@.len(),
            views_of_records(raw@) == norm_files(fs.take(fj as int), broker),
        decreases files@.len() - fj,
    {
        let file = &files[fj];
        let n_rows: usize = file.rows.len();
        let ghost rv = rows_views(file.rows@);
        proof {
            assert(fs[fj as int] == rv);
            assert(fs.take(fj + 1).drop_last() =~= fs.take(fj as int));
            assert(fs.take(fj + 1).last() == rv);
            assert(rv.skip(n_rows as int) =~= Seq::<Seq<Seq<char>>>::empty());
            assert(norm_files(fs.take(fj as int), broker).add(
                norm_rows(rv.skip(n_rows as int), broker),
            ) =~~= norm_files(fs.take(fj as int), broker));
        }
        let mut k: usize = n_rows;
        while k > 0
            invariant
                k <= n_rows,
                n_rows == file.rows@.len(),
                rv == rows_views(file.rows@),
                views_of_records(raw@) == norm_files(fs.take(fj as int), broker).add(
                    norm_rows(rv.skip(k as int), broker),
                ),
            decreases k,
        {
            proof {
                assert(rv.skip(k - 1).drop_first() =~= rv.skip(k as int));
                assert(rv.skip(k - 1).first() == rv[k - 1]);
                assert(rv[k - 1] == views_of_strings(file.rows@[k - 1]@));
            }
            match normalize_row(&file.rows[k - 1], broker) {
                Some(rec) => {
                    let ghost recv = rec@;
                    let ghost prev_raw = views_of_records(raw@);
                    raw.push(rec);
                    proof {
                        assert(views_of_records(raw@) =~~= prev_raw.push(recv));
                        assert(norm_rows(rv.skip(k - 1), broker) =~~= norm_rows(
                            rv.skip(k as int),
                            broker,
                        ).push(recv));
                        assert(views_of_records(raw@) =~~= norm_files(
                            fs.take(fj as int),
                            broker,
                        ).add(norm_rows(rv.skip(k - 1), broker)));
                    }
                },
                None => {
                    proof {
                        assert(norm_rows(rv.skip(k - 1), broker) =~~= norm_rows(
                            rv.skip(k as int),
                            broker,
                        ));
                    }
                },
            }
            k = k - 1;
        }
        proof {
            assert(rv.skip(0) =~= rv);
            assert(views_of_records(raw@) =~~= norm_files(fs.take(fj + 1), broker));
        }
        fj = fj + 1;
    }
    proof {
        assert(fs.take(files@.len() as int) =~= fs);
    }
    raw
}

/// Keeps the well-formed records, in order.
#[verifier::loop_isolation(false)]
fn filter_wf_records(sorted: &Vec<Record>) -> (r: Vec<Record>)
    ensures
        views_of_records(r@) == wf_filter(views_of_records(sorted@)),
        forall|k: int| 0 <= k < r@.len() ==> (#[trigger] r@[k])@.wf(),
        r@.len() <= sorted@.len(),
{
    let ghost sortedv = views_of_records(sorted@);
    let mut prepared: Vec<Record> = Vec::new();
    let mut si: usize = 0;
    proof {
        reveal(Seq::filter);
        assert(sortedv.take(0) =~= Seq::<RecordV>::empty());
        assert(views_of_records(prepared@) =~= wf_filter(sortedv.take(0)));
    }
    while si < sorted.len()
        invariant
            si <= sorted@.len(),
            views_of_records(prepared@) == wf_filter(sortedv.take(si as int)),
            forall|k: int| 0 <= k < prepared@.len() ==> (#[trigger] prepared@[k])@.wf(),
            prepared@.len() <= si,
        decreases sorted@.len() - si,
    {
        proof {
            assert(sortedv.take(si + 1).drop_last() =~= sortedv.take(si as int));
            assert(sortedv.take(si + 1).last() == sorted@[si as int]@);
            reveal(Seq::filter);
        }
        if sorted[si].is_wf() {
            prepared.push(sorted[si].clone());
            proof {
                assert(views_of_records(prepared@) =~= wf_filter(sortedv.take(si as int)).push(
                    sorted@[si as int]@,
                ));
            }
        }
        si = si + 1;
    }
    proof {
        assert(sortedv.take(sorted@.len() as int) =~= sortedv);
    }
    prepared
}

/// The identifiers of a ledger selection.
pub open spec fn ids_of(s: Seq<crate::trade::StoredTradeV>) -> Seq<int> {
    s.map_values(|t: crate::trade::StoredTradeV| t.id)
}

/// What persisting matched trades does to the ledger: each trade in
/// turn is appended as a live entry under the next free identifier, and
/// where it then has two or more live similar trades, that group is
/// merged at once under the merge rule. The result carries the final
/// items, the next free identifier, and how many groups were merged;
/// the first failing step fails the whole pass.
pub open spec fn persist_m(
    items: Seq<crate::trade::StoredTradeV>,
    next_id: i64,
    ts: Seq<crate::trade::TradeV>,
    merged: int,
) -> Result<(Seq<crate::trade::StoredTradeV>, i64, int), TradeError>
    decreases ts.len(),
{
    if ts.len() == 0 {
        Ok((items, next_id, merged))
    } else if next_id as int >= i64::MAX - 1 {
        Err(TradeError::LimitExceeded)
    } else {
        let items1 = items.push(
            crate::trade::StoredTradeV {
                id: next_id as int,
                status: crate::trade::TradeStatus::Active,
                trade: ts.first(),
            },
        );
        let next1 = (next_id + 1) as i64;
        let sims = crate::store::find_similar_spec(items1, ts.first());
        if sims.len() >= 2 {
            match crate::merge::merge_result_spec(items1, next1, ids_of(sims)) {
                Err(e) => Err(e),
                Ok((items2, next2)) => persist_m(items2, next2, ts.drop_first(), merged + 1),
            }
        } else {
            persist_m(items1, next1, ts.drop_first(), merged)
        }
    }
}

/// Persists matched trades into the staged ledger, folding freshly
/// fragmented fills with the automatic merge, and counts the merges:
/// the ledger ends exactly as the persist rule `persist_m` says, and
/// the pass fails exactly when that rule fails.
#[verifier::loop_isolation(false)]
#[verifier::rlimit(100)]
fn persist_trades(staged: &mut TradeStore, trades: &Vec<Trade>) -> (r: Result<usize, TradeError>)
    requires
        old(staged).wf(),
        forall|k: int| 0 <= k < trades@.len() ==> (#[trigger] trades@[k])@.wf(),
    ensures
        final(staged).wf(),
        crate::matching::views_of_records(final(staged).records@)
            == crate::matching::views_of_records(old(staged).records@),
        match r {
            Ok(m) => persist_m(
                crate::store::views_of_stored(old(staged).items@),
                old(staged).next_id,
                crate::matching::views_of_trades(trades@),
                0,
            ) == Ok::<(Seq<crate::trade::StoredTradeV>, i64, int), TradeError>(
                (
                    crate::store::views_of_stored(final(staged).items@),
                    final(staged).next_id,
                    m as int,
                ),
            ),
            Err(e) => persist_m(
                crate::store::views_of_stored(old(staged).items@),
                old(staged).next_id,
                crate::matching::views_of_trades(trades@),
                0,
            ) == Err::<(Seq<crate::trade::StoredTradeV>, i64, int), TradeError>(e),
        },
{
    let ghost items0 = crate::store::views_of_stored(old(staged).items@);
    let ghost next0 = old(staged).next_id;
    let ghost tsv = crate::matching::views_of_trades(trades@);
    let mut merged_groups: usize = 0;
    let n_trades: usize = trades.len();
    let mut ti: usize = 0;
    proof {
        assert(tsv.skip(0) =~= tsv);
    }
    while ti < n_trades
        invariant
            ti <= n_trades,
            merged_groups <= ti,
            n_trades == trades@.len(),
            staged.wf(),
            crate::matching::views_of_records(staged.records@) == crate::matching::views_of_records(
                old(staged).records@,
            ),
            persist_m(items0, next0, tsv, 0) == persist_m(
                crate::store::views_of_stored(staged.items@),
                staged.next_id,
                tsv.skip(ti as int),
                merged_groups as int,
            ),
        decreases n_trades - ti,
    {
        let ghost cur_items = crate::store::views_of_stored(staged.items@);
        let ghost cur_next = staged.next_id;
        let ghost rest = tsv.skip(ti as int);
        proof {
            assert(rest.first() == tsv[ti as int]);
            assert(tsv[ti as int] == trades@[ti as int]@);
            assert(rest.drop_first() =~= tsv.skip(ti + 1));
        }
        let t = trades[ti].clone();
        let probe = trades[ti].clone();
        match staged.insert_trade(t) {
            Ok(_id) => {},
            Err(e) => {
                return Err(e);
            },
        }
        proof {
            assert(crate::store::views_of_stored(staged.items@) =~= cur_items.push(
                crate::trade::StoredTradeV {
                    id: cur_next as int,
                    status: crate::trade::TradeStatus::Active,
                    trade: rest.first(),
                },
            ));
        }
        let similar = staged.find_similar_trades(&probe);
        if similar.len() >= 2 {
            let mut ids: Vec<i64> = Vec::new();
            let mut ii: usize = 0;
            while ii < similar.len()
                invariant
                    ii <= similar@.len(),
                    crate::store::views_of_i64(ids@) == ids_of(
                        crate::store::views_of_stored(similar@),
                    ).take(ii as int),
                decreases similar@.len() - ii,
            {
                ids.push(similar[ii].id);
                proof {
                    assert(crate::store::views_of_i64(ids@) =~= ids_of(
                        crate::store::views_of_stored(similar@),
                    ).take(ii + 1));
                }
                ii = ii + 1;
            }
            proof {
                assert(crate::store::views_of_i64(ids@) =~= ids_of(
                    crate::store::views_of_stored(similar@),
                ));
            }
            match merge_trades(staged, &ids) {
                Ok(()) => {
                    merged_groups = merged_groups + 1;
                },
                Err(e) => {
                    return Err(e);
                },
            }
        }
        ti = ti + 1;
    }
    proof {
        assert(tsv.skip(n_trades as int) =~= Seq::<crate::trade::TradeV>::empty());
    }
    Ok(merged_groups)
}

/// Imports a batch of already-tokenised export files: detects the broker
/// of every file up front, normalises and matches the rows, and persists
/// the records and trades, folding freshly fragmented fills with the
/// automatic merge. On any failure the ledger is left untouched.
#[verifier::loop_isolation(false)]
#[verifier::rlimit(100)]
#[verifier::spinoff_prover]
pub fn import_csv_to_db(store: &mut TradeStore, files: &Vec<CsvFile>) -> (r: Result<
    ImportReport,
    TradeError,
>)
    requires
        old(store).wf(),
    ensures
        final(store).wf(),
        match r {
            Ok(report) => {
                let hs = files@.map_values(|f: CsvFile| views_of_strings(f.header@));
                let fs = files@.map_values(|f: CsvFile| rows_views(f.rows@));
                &&& detect_all_spec(hs) == Ok::<Broker, TradeError>(report.broker)
                &&& prepared_spec(hs, fs) is Ok
                &&& run_match(
                    prepared_spec(hs, fs)->Ok_0,
                    Strategy::Tolerance,
                    account_spec(report.broker),
                ) is Some
                &&& views_of_records(final(store).records@) == views_of_records(
                    old(store).records@,
                ).add(prepared_spec(hs, fs)->Ok_0)
                &&& report.trades == run_match(
                    prepared_spec(hs, fs)->Ok_0,
                    Strategy::Tolerance,
                    account_spec(report.broker),
                )->0.trades.len()
                &&& report.skipped_rows == run_match(
                    prepared_spec(hs, fs)->Ok_0,
                    Strategy::Tolerance,
                    account_spec(report.broker),
                )->0.skipped + (sort_asc(
                    norm_files(fs, report.broker),
                ).len() - prepared_spec(hs, fs)->Ok_0.len())
                &&& persist_m(
                    crate::store::views_of_stored(old(store).items@),
                    old(store).next_id,
                    run_match(
                        prepared_spec(hs, fs)->Ok_0,
                        Strategy::Tolerance,
                        account_spec(report.broker),
                    )->0.trades,
                    0,
                ) == Ok::<(Seq<StoredTradeV>, i64, int), TradeError>(
                    (
                        crate::store::views_of_stored(final(store).items@),
                        final(store).next_id,
                        report.merged_groups as int,
                    ),
                )
            },
            Err(e) => {
                let hs = files@.map_values(|f: CsvFile| views_of_strings(f.header@));
                let fs = files@.map_values(|f: CsvFile| rows_views(f.rows@));
                &&& *final(store) == *old(store)
                &&& (detect_all_spec(hs) is Err ==> detect_all_spec(hs) == Err::<
                    Broker,
                    TradeError,
                >(e))
                &&& (detect_all_spec(hs) is Ok && run_match(
                    prepared_spec(hs, fs)->Ok_0,
                    Strategy::Tolerance,
                    account_spec(detect_all_spec(hs)->Ok_0),
                ) is None ==> e == TradeError::NoMatchingPosition)
                &&& (detect_all_spec(hs) is Ok && run_match(
                    prepared_spec(hs, fs)->Ok_0,
                    Strategy::Tolerance,
                    account_spec(detect_all_spec(hs)->Ok_0),
                ) is Some ==> persist_m(
                    crate::store::views_of_stored(old(store).items@),
                    old(store).next_id,
                    run_match(
                        prepared_spec(hs, fs)->Ok_0,
                        Strategy::Tolerance,
                        account_spec(detect_all_spec(hs)->Ok_0),
                    )->0.trades,
                    0,
                ) == Err::<(Seq<StoredTradeV>, i64, int), TradeError>(e))
            },
        },
{
    let ghost hs = files@.map_values(|f: CsvFile| views_of_strings(f.header@));
    let ghost fs = files@.map_values(|f: CsvFile| rows_views(f.rows@));
    let broker = match detect_batch(files) {
        Ok(b) => b,
        Err(e) => {
            return Err(e);
        },
    };
    let raw = normalize_batch(files, broker);
    let sorted = sort_records_asc(raw);
    let prepared = filter_wf_records(&sorted);
    let quality_skipped: usize = sorted.len() - prepared.len();
    proof {
        assert(detect_all_spec(hs) == Ok::<Broker, TradeError>(broker));
        assert(views_of_records(sorted@) == sort_asc(norm_files(fs, broker)));
        assert(views_of_records(prepared@) == wf_filter(sort_asc(norm_files(fs, broker))));
        assert(views_of_records(prepared@) == prepared_spec(hs, fs)->Ok_0);
        lemma_sort_asc_sorted(norm_files(fs, broker));
        lemma_filter_sorted(views_of_records(sorted@));
        assert(crate::record::sorted_by_time(views_of_records(prepared@)));
    }
    let account = account_exec(broker);
    let outcome = match match_records(&prepared, Strategy::Tolerance, account.as_str()) {
        Ok(o) => o,
        Err(e) => {
            return Err(e);
        },
    };
    // persist atomically: stage, then commit
    let mut staged = store.snapshot();
    let mut ri: usize = 0;
    while ri < prepared.len()
        invariant
            ri <= prepared@.len(),
            staged.wf(),
            crate::store::views_of_stored(staged.items@) == crate::store::views_of_stored(
                old(store).items@,
            ),
            staged.next_id == old(store).next_id,
            views_of_records(staged.records@) == views_of_records(old(store).records@).add(
                views_of_records(prepared@).take(ri as int),
            ),
        decreases prepared@.len() - ri,
    {
        let ghost prev_recs = views_of_records(staged.records@);
        let copied = prepared[ri].clone();
        let ghost cv = copied@;
        proof {
            assert(cv == views_of_records(prepared@)[ri as int]);
        }
        staged.insert_record(copied);
        proof {
            assert(views_of_records(staged.records@) =~~= prev_recs.push(cv));
            assert(views_of_records(prepared@).take(ri + 1) =~~= views_of_records(
                prepared@,
            ).take(ri as int).push(cv));
            assert(views_of_records(staged.records@) =~~= views_of_records(
                old(store).records@,
            ).add(views_of_records(prepared@).take(ri + 1)));
        }
        ri = ri + 1;
    }
    proof {
        assert(views_of_records(prepared@).take(prepared@.len() as int) =~= views_of_records(
            prepared@,
        ));
    }
    proof {
        assert(crate::store::views_of_stored(staged.items@) =~= crate::store::views_of_stored(
            old(store).items@,
        ));
        assert(crate::matching::views_of_trades(outcome.trades@) == run_match(
            prepared_spec(hs, fs)->Ok_0,
            Strategy::Tolerance,
            account_spec(broker),
        )->0.trades);
    }
    let n_trades: usize = outcome.trades.len();
    let merged_groups = match persist_trades(&mut staged, &outcome.trades) {
        Ok(m) => m,
        Err(e) => {
            return Err(e);
        },
    };
    *store = staged;
    Ok(
        ImportReport {
            broker,
            trades: n_trades,
            skipped_rows: outcome.skipped + quality_skipped,
            merged_groups,
        },
    )
}

/// Inserting at its place keeps a chronological list chronological.
proof fn lemma_insert_asc_sorted(s: Seq<RecordV>, x: RecordV)
    requires
        crate::record::sorted_by_time(s),
    ensures
        crate::record::sorted_by_time(insert_asc(s, x)),
    decreases s.len(),
{
    if s.len() == 0 {
    } else if s[0].order_time <= x.order_time {
        assert(crate::record::sorted_by_time(s.drop_first())) by {
            assert(forall|i: int, j: int|
                0 <= i <= j < s.drop_first().len() ==> (#[trigger] s.drop_first()[i]).order_time
                    <= (#[trigger] s.drop_first()[j]).order_time) by {
                assert(forall|i: int|
                    0 <= i < s.drop_first().len() ==> s.drop_first()[i] == (#[trigger] s[i + 1]));
            };
        };
        lemma_insert_asc_sorted(s.drop_first(), x);
        let r = insert_asc(s, x);
        let tail = insert_asc(s.drop_first(), x);
        assert(r == seq![s[0]].add(tail));
        assert forall|i: int, j: int| 0 <= i <= j < r.len() implies (#[trigger] r[i]).order_time
            <= (#[trigger] r[j]).order_time by {
            lemma_insert_asc_members(s.drop_first(), x);
            if i == 0 && j > 0 {
                assert(r[j] == tail[j - 1]);
            } else if i > 0 {
                assert(r[i] == tail[i - 1] && r[j] == tail[j - 1]);
            }
        };
    } else {
        assert(insert_asc(s, x) == seq![x].add(s));
        assert forall|i: int, j: int| 0 <= i <= j < insert_asc(s, x).len() implies (
        #[trigger] insert_asc(s, x)[i]).order_time <= (#[trigger] insert_asc(s, x)[j]).order_time
            by {
            if i == 0 && j > 0 {
                assert(insert_asc(s, x)[j] == s[j - 1]);
                assert(s[0].order_time <= s[j - 1].order_time);
            } else if i > 0 {
                assert(insert_asc(s, x)[i] == s[i - 1] && insert_asc(s, x)[j] == s[j - 1]);
            }
        };
    }
}

/// Every element of an insertion is the inserted one or one of the
/// originals, and instants only move as the originals had them.
proof fn lemma_insert_asc_members(s: Seq<RecordV>, x: RecordV)
    ensures
        forall|k: int|
            0 <= k < insert_asc(s, x).len() ==> (#[trigger] insert_asc(s, x)[k]) == x || exists|
                j: int,
            | 0 <= j < s.len() && s[j] == insert_asc(s, x)[k],
        insert_asc(s, x).len() == s.len() + 1,
    decreases s.len(),
{
    if s.len() == 0 {
    } else if s[0].order_time <= x.order_time {
        lemma_insert_asc_members(s.drop_first(), x);
        let r = insert_asc(s, x);
        let tail = insert_asc(s.drop_first(), x);
        assert forall|k: int| 0 <= k < r.len() implies (#[trigger] r[k]) == x || exists|j: int|
            0 <= j < s.len() && s[j] == r[k] by {
            if k == 0 {
                assert(s[0] == r[0]);
            } else {
                assert(r[k] == tail[k - 1]);
                if tail[k - 1] != x {
                    let j0 = choose|j: int|
                        0 <= j < s.drop_first().len() && s.drop_first()[j] == tail[k - 1];
                    assert(s[j0 + 1] == r[k]);
                }
            }
        };
    } else {
        assert forall|k: int| 0 <= k < insert_asc(s, x).len() implies (
        #[trigger] insert_asc(s, x)[k]) == x || exists|j: int|
            0 <= j < s.len() && s[j] == insert_asc(s, x)[k] by {
            if k > 0 {
                assert(s[k - 1] == insert_asc(s, x)[k]);
            }
        };
    }
}

/// The chronological sort is chronological.
proof fn lemma_sort_asc_sorted(s: Seq<RecordV>)
    ensures
        crate::record::sorted_by_time(sort_asc(s)),
    decreases s.len(),
{
    if s.len() > 0 {
        lemma_sort_asc_sorted(s.drop_last());
        lemma_insert_asc_sorted(sort_asc(s.drop_last()), s.last());
    }
}

/// Dropping elements keeps a chronological list chronological.
proof fn lemma_filter_sorted(s: Seq<RecordV>)
    ensures
        crate::record::sorted_by_time(s) ==> crate::record::sorted_by_time(wf_filter(s)),
        crate::record::sorted_by_time(s) && s.len() > 0 ==> forall|k: int|
            0 <= k < wf_filter(s).len() ==> (#[trigger] wf_filter(s)[k]).order_time
                <= s.last().order_time,
    decreases s.len(),
{
    reveal(Seq::filter);
    if s.len() > 0 {
        assert(crate::record::sorted_by_time(s) ==> crate::record::sorted_by_time(s.drop_last()))
            by {
            if crate::record::sorted_by_time(s) {
                assert(forall|i: int, j: int|
                    0 <= i <= j < s.drop_last().len() ==> (#[trigger] s.drop_last()[i]).order_time
                        <= (#[trigger] s.drop_last()[j]).order_time) by {
                    assert(forall|i: int|
                        0 <= i < s.drop_last().len() ==> s.drop_last()[i] == (#[trigger] s[i]));
                };
            }
        };
        lemma_filter_sorted(s.drop_last());
        if crate::record::sorted_by_time(s) {
            let f = wf_filter(s);
            let fp = wf_filter(s.drop_last());
            assert forall|i: int, j: int| 0 <= i <= j < f.len() implies (
            #[trigger] f[i]).order_time <= (#[trigger] f[j]).order_time by {
                if s.drop_last().len() > 0 {
                }
                if j < fp.len() {
                    assert(f[i] == fp[i] && f[j] == fp[j]);
                } else if i < fp.len() {
                    assert(f[i] == fp[i]);
                    if s.drop_last().len() > 0 {
                        assert(fp[i].order_time <= s.drop_last().last().order_time);
                        assert(s.drop_last().last() == s[s.len() - 2]);
                    }
                }
            };
            assert forall|k: int| 0 <= k < f.len() implies (#[trigger] f[k]).order_time
                <= s.last().order_time by {
                if k < fp.len() {
                    assert(f[k] == fp[k]);
                    if s.drop_last().len() > 0 {
                        assert(fp[k].order_time <= s.drop_last().last().order_time);
                        assert(s.drop_last().last() == s[s.len() - 2]);
                    }
                }
            };
        }
    }
}

} // verus!
