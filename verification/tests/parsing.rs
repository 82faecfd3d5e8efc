use chrono::TimeZone;
use fx_trade_manager::busday::{
    business_epoch_day,
    get_business_date_from_unix,
    get_unix_range_from_business_date,
    jst_str_to_unix,
};
use fx_trade_manager::calendar::{civil_from_days, days_from_civil, BusinessDate};
use fx_trade_manager::normalize::{detect_format, Broker};
use fx_trade_manager::parse::{parse_i32_from_csv, parse_scaled, version_lt};

#[test]
fn csv_integer_cleaning() {
    assert_eq!(parse_i32_from_csv("1,234"), Some(1234));
    assert_eq!(parse_i32_from_csv(" 42 "), Some(42));
    assert_eq!(parse_i32_from_csv("(123)"), Some(-123));
    assert_eq!(parse_i32_from_csv("¥-5,000"), Some(-5000));
    assert_eq!(parse_i32_from_csv("￥1,000"), Some(1000));
    assert_eq!(parse_i32_from_csv("＋12"), Some(12));
    assert_eq!(parse_i32_from_csv("－7"), Some(-7));
    assert_eq!(parse_i32_from_csv(""), None);
    assert_eq!(parse_i32_from_csv("abc"), None);
    assert_eq!(parse_i32_from_csv("12.5"), None);
    assert_eq!(parse_i32_from_csv("99999999999999999999"), None);
    assert_eq!(parse_i32_from_csv("2147483647"), Some(i32::MAX));
    assert_eq!(parse_i32_from_csv("-2147483648"), Some(i32::MIN));
    assert_eq!(parse_i32_from_csv("2147483648"), None);
}

#[test]
fn fixed_point_fields() {
    assert_eq!(parse_scaled("1", 4), Some(10_000));
    assert_eq!(parse_scaled("0.5", 4), Some(5_000));
    assert_eq!(parse_scaled("150.00", 5), Some(15_000_000));
    assert_eq!(parse_scaled("150.505", 5), Some(15_050_500));
    assert_eq!(parse_scaled("-1.25", 4), Some(-12_500));
    assert_eq!(parse_scaled("10000", 0), Some(10_000));
    assert_eq!(parse_scaled(".5", 1), Some(5));
    assert_eq!(parse_scaled("5.", 1), Some(50));
    assert_eq!(parse_scaled("", 4), None);
    assert_eq!(parse_scaled(".", 4), None);
    assert_eq!(parse_scaled("1.2.3", 4), None);
    assert_eq!(parse_scaled("x", 4), None);
}

#[test]
fn version_ordering() {
    assert!(version_lt("0.7.9", "0.7.15"));
    assert!(!version_lt("0.7.15", "0.7.9"));
    assert!(!version_lt("1.0", "1.0.0"));
    assert!(!version_lt("1.0.0", "1.0"));
    assert!(version_lt("0.9", "0.10"));
    assert!(version_lt("0.0.0", "0.7.15"));
    assert!(!version_lt("2.0", "2.0"));
    assert!(version_lt("1..2", "1.1.2"));
}

#[test]
fn jst_timestamps_agree_with_the_zone_database() {
    let expected = chrono_tz::Asia::Tokyo
        .with_ymd_and_hms(2024, 1, 5, 12, 34, 56)
        .single()
        .unwrap()
        .timestamp();
    assert_eq!(jst_str_to_unix("2024/01/05 12:34:56"), Some(expected));
    assert_eq!(jst_str_to_unix("2024-01-05 12:34:56"), None);
    assert_eq!(jst_str_to_unix("2024/13/05 12:34:56"), None);
    assert_eq!(jst_str_to_unix("2024/02/30 12:34:56"), None);
    assert_eq!(jst_str_to_unix("2024/01/05 24:00:00"), None);
    assert_eq!(jst_str_to_unix("garbage"), None);
}

#[test]
fn business_day_boundary_in_winter() {
    // 2025-01-15 is outside DST: the close is 22:00 UTC.
    let before = chrono_tz::America::New_York
        .with_ymd_and_hms(2025, 1, 15, 16, 59, 59)
        .single()
        .unwrap()
        .timestamp();
    let after = before + 2;
    let d1 = get_business_date_from_unix(before);
    let d2 = get_business_date_from_unix(after);
    assert_eq!((d1.year, d1.month, d1.day), (2025, 1, 15));
    assert_eq!((d2.year, d2.month, d2.day), (2025, 1, 16));
    assert_eq!(
        business_epoch_day(after),
        business_epoch_day(before) + 1
    );
}

#[test]
fn business_day_boundary_across_dst_change() {
    // DST starts 2025-03-09; on 03-10 the close is 21:00 UTC, not 22:00.
    let before = chrono_tz::America::New_York
        .with_ymd_and_hms(2025, 3, 10, 16, 59, 59)
        .single()
        .unwrap()
        .timestamp();
    let after = before + 2;
    let d1 = get_business_date_from_unix(before);
    let d2 = get_business_date_from_unix(after);
    assert_eq!((d1.year, d1.month, d1.day), (2025, 3, 10));
    assert_eq!((d2.year, d2.month, d2.day), (2025, 3, 11));
    // and the UTC boundary instant itself moved with the zone rules
    let winter_close = chrono_tz::America::New_York
        .with_ymd_and_hms(2025, 1, 15, 17, 0, 0)
        .single()
        .unwrap();
    let summer_close = chrono_tz::America::New_York
        .with_ymd_and_hms(2025, 3, 10, 17, 0, 0)
        .single()
        .unwrap();
    assert_eq!(winter_close.timestamp() % 86400, 79200); // 22:00 UTC
    assert_eq!(summer_close.timestamp() % 86400, 75600); // 21:00 UTC
}

#[test]
fn business_date_range_spans_two_closes() {
    let start = chrono_tz::America::New_York
        .with_ymd_and_hms(2025, 3, 9, 17, 0, 0)
        .single()
        .unwrap()
        .timestamp();
    let end = chrono_tz::America::New_York
        .with_ymd_and_hms(2025, 3, 10, 17, 0, 0)
        .single()
        .unwrap()
        .timestamp();
    assert_eq!(get_unix_range_from_business_date("20250310"), Some((start, end)));
    assert_eq!(get_unix_range_from_business_date("2025031"), None);
    assert_eq!(get_unix_range_from_business_date("20250230"), None);
    assert_eq!(get_unix_range_from_business_date("abcdefgh"), None);
}

#[test]
fn range_instants_resolve_to_their_date() {
    let (start, end) = get_unix_range_from_business_date("20250310").unwrap();
    for u in [start, start + 1, start + 3600, end - 3600, end - 1] {
        let d = get_business_date_from_unix(u);
        assert_eq!((d.year, d.month, d.day), (2025, 3, 10));
    }
    let after = get_business_date_from_unix(end);
    assert_eq!((after.year, after.month, after.day), (2025, 3, 11));
}

#[test]
fn calendar_round_trip() {
    let day = days_from_civil(2024, 2, 29);
    let back: BusinessDate = civil_from_days(day);
    assert_eq!((back.year, back.month, back.day), (2024, 2, 29));
    assert_eq!(days_from_civil(1970, 1, 1), 0);
    assert_eq!(days_from_civil(1969, 12, 31), -1);
    assert_eq!(days_from_civil(2000, 3, 1), days_from_civil(2000, 2, 29) + 1);
    let d2 = civil_from_days(20000);
    assert_eq!(days_from_civil(d2.year, d2.month, d2.day), 20000);
}

#[test]
fn header_detection_is_exact() {
    let dmm: Vec<String> = [
        "通貨ペア", "売買", "区分", "数量（Lot）", "約定レート", "建玉損益（円）",
        "スワップ", "決済損益（円）", "注文日時", "約定日時", "注文番号", "円転レート",
        "取引手数料", "建玉損益",
    ]
    .iter()
    .map(|s| s.to_string())
    .collect();
    assert!(matches!(detect_format(&dmm), Some(Broker::Dmm)));
    let mut off_by_one = dmm.clone();
    off_by_one[0] = "通貨".to_string();
    assert!(detect_format(&off_by_one).is_none());
    let mut truncated = dmm.clone();
    truncated.pop();
    assert!(detect_format(&truncated).is_none());
    let mut reordered = dmm.clone();
    reordered.swap(0, 1);
    assert!(detect_format(&reordered).is_none());
}
