use fx_trade_manager::import::{import_csv_to_db, CsvFile};
use fx_trade_manager::matching::{match_records, Strategy};
use fx_trade_manager::merge::{merge, merge_trades, validate};
use fx_trade_manager::record::{LegType, Record, Side};
use fx_trade_manager::store::TradeStore;
use fx_trade_manager::summary::TradeSummary;
use fx_trade_manager::trade::{Trade, TradeStatus};

fn open_rec(pair: &str, side: Side, lot: i64, rate: i64, t: i64) -> Record {
    Record {
        pair: pair.to_string(),
        side,
        trade_type: LegType::Open,
        lot,
        rate,
        profit: None,
        swap: None,
        order_time: t,
    }
}

fn close_rec(pair: &str, side: Side, lot: i64, rate: i64, profit: i32, t: i64) -> Record {
    Record {
        pair: pair.to_string(),
        side,
        trade_type: LegType::Close,
        lot,
        rate,
        profit: Some(profit),
        swap: Some(0),
        order_time: t,
    }
}

fn trade(pair: &str, side: Side, lot: i64, entry: i64, exit: i64, t0: i64, t1: i64, profit: i64) -> Trade {
    Trade {
        pair: pair.to_string(),
        side,
        lot,
        entry_rate: entry,
        exit_rate: exit,
        entry_time: t0,
        exit_time: t1,
        profit,
        profit_pips: 0,
        swap: Some(0),
        memo: String::new(),
        account: "DMM".to_string(),
    }
}

#[test]
fn round_trip_single_trade() {
    // Open 1.0 lot at 150.00, close 1.0 lot at 150.50 with +5000 profit.
    let recs = vec![
        open_rec("USDJPY", Side::Buy, 10_000, 15_000_000, 1_700_000_000),
        close_rec("USDJPY", Side::Sell, 10_000, 15_050_000, 5000, 1_700_003_600),
    ];
    let out = match_records(&recs, Strategy::Tolerance, "DMM").unwrap();
    assert_eq!(out.trades.len(), 1);
    assert_eq!(out.skipped, 0);
    let t = &out.trades[0];
    assert_eq!(t.pair, "USDJPY");
    assert!(matches!(t.side, Side::Buy));
    assert_eq!(t.lot, 10_000);
    assert_eq!(t.entry_rate, 15_000_000);
    assert_eq!(t.exit_rate, 15_050_000);
    assert_eq!(t.entry_time, 1_700_000_000);
    assert_eq!(t.exit_time, 1_700_003_600);
    assert_eq!(t.profit, 5000);
    assert_eq!(t.profit_pips, 500);
    assert_eq!(t.account, "DMM");
}

#[test]
fn partial_fill_two_closes() {
    // Open 2.0 lots, then two 1.0-lot closes at different rates.
    let recs = vec![
        open_rec("USDJPY", Side::Buy, 20_000, 15_000_000, 1_700_000_000),
        close_rec("USDJPY", Side::Sell, 10_000, 15_010_000, 1000, 1_700_000_100),
        close_rec("USDJPY", Side::Sell, 10_000, 14_990_000, -1000, 1_700_000_200),
    ];
    let out = match_records(&recs, Strategy::Tolerance, "DMM").unwrap();
    assert_eq!(out.trades.len(), 2);
    assert_eq!(out.trades[0].lot, 10_000);
    assert_eq!(out.trades[1].lot, 10_000);
    assert_eq!(out.trades[0].entry_rate, 15_000_000);
    assert_eq!(out.trades[1].entry_rate, 15_000_000);
    assert_eq!(out.trades[0].entry_time, 1_700_000_000);
    assert_eq!(out.trades[1].entry_time, 1_700_000_000);
    assert_eq!(out.trades[0].lot + out.trades[1].lot, 20_000);
    assert_eq!(out.trades[0].profit, 1000);
    assert_eq!(out.trades[1].profit, -1000);
}

#[test]
fn stack_matching_is_lifo() {
    // Opens at 1.10, 1.12, 1.14; one covering close: nearest entry first.
    let recs = vec![
        open_rec("EURUSD", Side::Buy, 10_000, 110_000, 1_700_000_000),
        open_rec("EURUSD", Side::Buy, 10_000, 112_000, 1_700_000_100),
        open_rec("EURUSD", Side::Buy, 10_000, 114_000, 1_700_000_200),
        close_rec("EURUSD", Side::Sell, 30_000, 113_000, 0, 1_700_000_300),
    ];
    let out = match_records(&recs, Strategy::Stack, "").unwrap();
    assert_eq!(out.trades.len(), 3);
    assert_eq!(out.trades[0].entry_rate, 114_000);
    assert_eq!(out.trades[1].entry_rate, 112_000);
    assert_eq!(out.trades[2].entry_rate, 110_000);
    let total: i64 = out.trades.iter().map(|t| t.lot).sum();
    assert_eq!(total, 30_000);
}

#[test]
fn stack_exhaustion_skips_and_reports() {
    let recs = vec![
        open_rec("EURUSD", Side::Buy, 10_000, 110_000, 1_700_000_000),
        close_rec("EURUSD", Side::Sell, 30_000, 113_000, 0, 1_700_000_300),
    ];
    let out = match_records(&recs, Strategy::Stack, "").unwrap();
    assert_eq!(out.trades.len(), 1);
    assert_eq!(out.trades[0].lot, 10_000);
    assert_eq!(out.skipped, 1);
}

#[test]
fn tolerance_mismatch_is_an_error() {
    // Profit implies an entry of 150.10, but the only open is at 150.00.
    let recs = vec![
        open_rec("USDJPY", Side::Buy, 10_000, 15_000_000, 1_700_000_000),
        close_rec("USDJPY", Side::Sell, 10_000, 15_050_000, 4000, 1_700_003_600),
    ];
    let err = match match_records(&recs, Strategy::Tolerance, "DMM") {
        Ok(_) => panic!("the mismatched close must be refused"),
        Err(e) => e,
    };
    assert_eq!(err, fx_trade_manager::error::TradeError::NoMatchingPosition);
}

#[test]
fn merge_folds_fragments() {
    let a = trade("USDJPY", Side::Buy, 10_000, 15_000_000, 15_050_000, 1_700_000_000, 1_700_003_600, 3000);
    let b = trade("USDJPY", Side::Buy, 10_000, 15_001_000, 15_050_000, 1_700_000_001, 1_700_003_601, 2000);
    let group = vec![a, b];
    assert!(validate(&group).is_ok());
    let m = merge(&group);
    assert_eq!(m.lot, 20_000);
    // mean of 150.00 and 150.01 is 150.005, kept at three decimals
    assert_eq!(m.entry_rate, 15_000_500);
    assert_eq!(m.exit_rate, 15_050_000);
    assert_eq!(m.entry_time, 1_700_000_000);
    assert_eq!(m.exit_time, 1_700_003_600);
    assert_eq!(m.profit, 5000);
    // pips from the averaged rates: (150.50 - 150.005) * 1000 = 495
    assert_eq!(m.profit_pips, 495);
    assert_eq!(m.swap, Some(0));
}

#[test]
fn validate_rejects_mixed_and_small_groups() {
    let a = trade("USDJPY", Side::Buy, 10_000, 15_000_000, 15_050_000, 1, 2, 0);
    let b = trade("EURUSD", Side::Buy, 10_000, 15_000_000, 15_050_000, 1, 2, 0);
    let c = trade("USDJPY", Side::Sell, 10_000, 15_000_000, 15_050_000, 1, 2, 0);
    assert_eq!(
        validate(&vec![a.clone()]).unwrap_err(),
        fx_trade_manager::error::TradeError::InsufficientMergeTrades
    );
    assert_eq!(
        validate(&vec![a.clone(), b]).unwrap_err(),
        fx_trade_manager::error::TradeError::IncompatibleMerge
    );
    assert_eq!(
        validate(&vec![a, c]).unwrap_err(),
        fx_trade_manager::error::TradeError::IncompatibleMerge
    );
}

#[test]
fn merged_trades_retire_and_never_merge_again() {
    let mut store = TradeStore::new();
    let a = trade("USDJPY", Side::Buy, 10_000, 15_000_000, 15_050_000, 1_700_000_000, 1_700_003_600, 3000);
    let b = trade("USDJPY", Side::Buy, 10_000, 15_001_000, 15_050_000, 1_700_000_001, 1_700_003_601, 2000);
    let id_a = store.insert_trade(a.clone()).unwrap();
    let id_b = store.insert_trade(b).unwrap();
    assert_eq!(store.find_similar_trades(&a).len(), 2);
    merge_trades(&mut store, &vec![id_a, id_b]).unwrap();
    // the sources are retired with a back-reference to the merged trade
    assert!(matches!(store.items[0].status, TradeStatus::MergedAway(3)));
    assert!(matches!(store.items[1].status, TradeStatus::MergedAway(3)));
    // retired trades are out of every candidate pool
    let live = store.find_similar_trades(&a);
    assert_eq!(live.len(), 1);
    assert_eq!(live[0].id, 3);
    // merging a previously merged trade again fails, it does not re-merge
    let err = merge_trades(&mut store, &vec![id_a, id_a]).unwrap_err();
    assert_eq!(err, fx_trade_manager::error::TradeError::InsufficientMergeTrades);
    assert_eq!(store.items.len(), 3);
}

#[test]
fn empty_summary_is_all_zero() {
    let sm = TradeSummary::from_trades(vec![]);
    assert_eq!(sm.count, 0);
    assert_eq!(sm.profit, 0);
    assert_eq!(sm.profit_pips, 0);
    assert_eq!(sm.wins, 0);
    assert_eq!(sm.losses, 0);
    assert_eq!(sm.win_total, 0);
    assert_eq!(sm.loss_total, 0);
    assert_eq!(sm.total_holding_time, 0);
    let avg = sm.avg_profit_wins();
    assert_eq!((avg.num, avg.den), (0, 0));
    let avg_h = sm.avg_holding_time();
    assert_eq!((avg_h.num, avg_h.den), (0, 0));
}

#[test]
fn summary_counts_wins_and_losses() {
    let w1 = trade("USDJPY", Side::Buy, 10_000, 1, 2, 100, 400, 500);
    let w2 = trade("USDJPY", Side::Buy, 10_000, 1, 2, 100, 200, 300);
    let l1 = trade("USDJPY", Side::Buy, 10_000, 1, 2, 100, 150, -400);
    let z = trade("USDJPY", Side::Buy, 10_000, 1, 2, 100, 150, 0);
    let sm = TradeSummary::from_trades(vec![w1, w2, l1, z]);
    assert_eq!(sm.count, 4);
    assert_eq!(sm.wins, 2);
    assert_eq!(sm.losses, 1);
    assert_eq!(sm.profit, 400);
    assert_eq!(sm.win_total, 800);
    assert_eq!(sm.loss_total, -400);
    assert_eq!(sm.total_holding_time, 300 + 100 + 50 + 50);
    assert_eq!(sm.avg_profit_wins().num, 800);
    assert_eq!(sm.avg_profit_wins().den, 2);
    assert_eq!(sm.avg_holding_time_losses().num, 50);
    assert_eq!(sm.avg_holding_time_losses().den, 1);
}

fn dmm_header() -> Vec<String> {
    [
        "通貨ペア", "売買", "区分", "数量（Lot）", "約定レート", "建玉損益（円）",
        "スワップ", "決済損益（円）", "注文日時", "約定日時", "注文番号", "円転レート",
        "取引手数料", "建玉損益",
    ]
    .iter()
    .map(|s| s.to_string())
    .collect()
}

fn dmm_row(pair: &str, side: &str, kind: &str, lot: &str, rate: &str, profit: &str, swap: &str, time: &str) -> Vec<String> {
    vec![
        pair.to_string(),
        side.to_string(),
        kind.to_string(),
        lot.to_string(),
        rate.to_string(),
        profit.to_string(),
        swap.to_string(),
        String::new(),
        String::new(),
        time.to_string(),
        String::new(),
        String::new(),
        String::new(),
        String::new(),
    ]
}

#[test]
fn import_detects_and_matches_dmm() {
    let mut store = TradeStore::new();
    // the export lists the newest execution first
    let file = CsvFile {
        header: dmm_header(),
        rows: vec![
            dmm_row("USD/JPY", "売", "決済", "1", "150.50", "5,000", "0", "2024/01/05 13:34:56"),
            dmm_row("USD/JPY", "買", "新規", "1", "150.00", "", "", "2024/01/05 12:34:56"),
        ],
    };
    let report = import_csv_to_db(&mut store, &vec![file]).unwrap();
    assert!(matches!(report.broker, fx_trade_manager::normalize::Broker::Dmm));
    assert_eq!(report.trades, 1);
    assert_eq!(report.skipped_rows, 0);
    let all = store.get_all_trades();
    assert_eq!(all.len(), 1);
    assert_eq!(all[0].trade.profit, 5000);
    assert_eq!(all[0].trade.profit_pips, 500);
    assert_eq!(all[0].trade.entry_rate, 15_000_000);
    assert_eq!(store.get_all_records().len(), 2);
}

#[test]
fn import_is_invariant_under_file_order() {
    // the same rows as one file or as two files in either order give the
    // same ledger, because the batch is sorted by execution instant
    let rows = vec![
        dmm_row("USD/JPY", "売", "決済", "1", "150.50", "5,000", "0", "2024/01/05 13:34:56"),
        dmm_row("USD/JPY", "買", "新規", "1", "150.00", "", "", "2024/01/05 12:34:56"),
    ];
    let more = vec![
        dmm_row("USD/JPY", "売", "決済", "1", "151.00", "10,000", "0", "2024/01/06 13:34:56"),
        dmm_row("USD/JPY", "買", "新規", "1", "150.00", "", "", "2024/01/06 12:34:56"),
    ];
    let mut a = TradeStore::new();
    import_csv_to_db(
        &mut a,
        &vec![
            CsvFile { header: dmm_header(), rows: rows.clone() },
            CsvFile { header: dmm_header(), rows: more.clone() },
        ],
    )
    .unwrap();
    let mut b = TradeStore::new();
    import_csv_to_db(
        &mut b,
        &vec![
            CsvFile { header: dmm_header(), rows: more },
            CsvFile { header: dmm_header(), rows },
        ],
    )
    .unwrap();
    assert_eq!(a.items.len(), b.items.len());
    for (x, y) in a.items.iter().zip(b.items.iter()) {
        assert_eq!(x.id, y.id);
        assert_eq!(x.trade.entry_rate, y.trade.entry_rate);
        assert_eq!(x.trade.exit_rate, y.trade.exit_rate);
        assert_eq!(x.trade.profit, y.trade.profit);
        assert_eq!(x.trade.entry_time, y.trade.entry_time);
        assert_eq!(x.trade.exit_time, y.trade.exit_time);
    }
}

#[test]
fn import_refuses_unknown_and_mixed_formats() {
    let mut store = TradeStore::new();
    let bad = CsvFile { header: vec!["a".to_string(), "b".to_string()], rows: vec![] };
    let unknown = match import_csv_to_db(&mut store, &vec![bad]) {
        Ok(_) => panic!("an unknown header must be refused"),
        Err(e) => e,
    };
    assert_eq!(unknown, fx_trade_manager::error::TradeError::UnrecognizedFormat);
    let empty = match import_csv_to_db(&mut store, &vec![]) {
        Ok(_) => panic!("an empty batch must be refused"),
        Err(e) => e,
    };
    assert_eq!(empty, fx_trade_manager::error::TradeError::NoInputFiles);
    assert_eq!(store.items.len(), 0);
    assert_eq!(store.get_all_records().len(), 0);
}

#[test]
fn update_memo_changes_only_the_target() {
    let mut store = TradeStore::new();
    let a = trade("USDJPY", Side::Buy, 10_000, 15_000_000, 15_050_000, 1, 2, 10);
    let b = trade("EURUSD", Side::Buy, 10_000, 110_000, 111_000, 1, 2, 20);
    let id_a = store.insert_trade(a).unwrap();
    let _id_b = store.insert_trade(b).unwrap();
    store.update_trade_memo_by_id(id_a, "first note");
    assert_eq!(store.items[0].trade.memo, "first note");
    assert_eq!(store.items[1].trade.memo, "");
}
