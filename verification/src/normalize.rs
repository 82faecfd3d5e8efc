//! The format detector and row normaliser: classifies a header row as one
//! of the registered broker schemas, field for field in exact column
//! order, and maps broker-specific column layouts into canonical records.

use vstd::prelude::*;
use crate::busday::{jst_str_to_unix, jst_unix_spec};
use crate::error::TradeError;
use crate::parse::{csv_i32_spec, parse_i32_from_csv, parse_scaled, scaled_spec};
use crate::record::{LegType, Record, RecordV, Side};

verus! {

/// A registered broker schema.
#[derive(Clone, Copy, PartialEq, Eq, Structural, Debug)]
pub enum Broker {
    Dmm,
    Gmo,
}

/// The header signature of the DMM export.
pub open spec fn dmm_header() -> Seq<Seq<char>> {
    seq![
        "通貨ペア"@,
        "売買"@,
        "区分"@,
        "数量（Lot）"@,
        "約定レート"@,
        "建玉損益（円）"@,
        "スワップ"@,
        "決済損益（円）"@,
        "注文日時"@,
        "約定日時"@,
        "注文番号"@,
        "円転レート"@,
        "取引手数料"@,
        "建玉損益"@,
    ]
}

/// The header signature of the GMO export.
pub open spec fn gmo_header() -> Seq<Seq<char>> {
    seq![
        "約定日時"@,
        "取引区分"@,
        "受渡日"@,
        "約定番号"@,
        "銘柄名"@,
        "銘柄コード"@,
        "限月"@,
        "コールプット区分"@,
        "権利行使価格"@,
        "権利行使価格通貨"@,
        "カバードワラント商品種別"@,
        "売買区分"@,
        "通貨"@,
        "受渡通貨"@,
        "市場"@,
        "口座"@,
        "信用区分"@,
        "約定数量"@,
        "約定単価"@,
        "コンバージョンレート"@,
        "手数料"@,
        "手数料消費税"@,
        "建単価"@,
        "新規手数料"@,
        "新規手数料消費税"@,
        "管理費"@,
        "名義書換料"@,
        "金利"@,
        "貸株料"@,
        "品貸料"@,
        "前日分値洗"@,
        "経過利子（円貨）"@,
        "経過利子（外貨）"@,
        "経過日数（外債）"@,
        "所得税（外債）"@,
        "地方税（外債）"@,
        "金利・価格調整額（CFD）"@,
        "配当金調整額（CFD）"@,
        "金利・価格調整額（くりっく株365）"@,
        "配当金調整額（くりっく株365）"@,
        "売建単価（くりっく365/くりっく株365）"@,
        "買建単価（くりっく365/くりっく株365）"@,
        "円貨スワップ損益"@,
        "外貨スワップ損益"@,
        "約定金額（円貨）"@,
        "約定金額（外貨）"@,
        "決済金額（円貨）"@,
        "決済金額（外貨）"@,
        "実現損益（円貨）"@,
        "実現損益（外貨）"@,
        "実現損益（円換算額）"@,
        "受渡金額（円貨）"@,
        "受渡金額（外貨）"@,
        "備考"@,
    ]
}

/// Which broker a header row names: an exact, field-for-field match
/// against a registered signature, or nothing.
pub open spec fn detect_spec(h: Seq<Seq<char>>) -> Option<Broker> {
    if h == dmm_header() {
        Some(Broker::Dmm)
    } else if h == gmo_header() {
        Some(Broker::Gmo)
    } else {
        None
    }
}

pub open spec fn views_of_strings(s: Seq<String>) -> Seq<Seq<char>> {
    s.map_values(|x: String| x@)
}

fn dmm_header_exec() -> (v: Vec<String>)
    ensures
        views_of_strings(v@) =~~= dmm_header(),
{
    let mut v: Vec<String> = Vec::new();
    v.push("通貨ペア".to_owned());
    v.push("売買".to_owned());
    v.push("区分".to_owned());
    v.push("数量（Lot）".to_owned());
    v.push("約定レート".to_owned());
    v.push("建玉損益（円）".to_owned());
    v.push("スワップ".to_owned());
    v.push("決済損益（円）".to_owned());
    v.push("注文日時".to_owned());
    v.push("約定日時".to_owned());
    v.push("注文番号".to_owned());
    v.push("円転レート".to_owned());
    v.push("取引手数料".to_owned());
    v.push("建玉損益".to_owned());
    proof {
        assert(views_of_strings(v@) =~~= dmm_header());
    }
    v
}

fn gmo_header_exec() -> (v: Vec<String>)
    ensures
        views_of_strings(v@) =~~= gmo_header(),
{
    let mut v: Vec<String> = Vec::new();
    v.push("約定日時".to_owned());
    v.push("取引区分".to_owned());
    v.push("受渡日".to_owned());
    v.push("約定番号".to_owned());
    v.push("銘柄名".to_owned());
    v.push("銘柄コード".to_owned());
    v.push("限月".to_owned());
    v.push("コールプット区分".to_owned());
    v.push("権利行使価格".to_owned());
    v.push("権利行使価格通貨".to_owned());
    v.push("カバードワラント商品種別".to_owned());
    v.push("売買区分".to_owned());
    v.push("通貨".to_owned());
    v.push("受渡通貨".to_owned());
    v.push("市場".to_owned());
    v.push("口座".to_owned());
    v.push("信用区分".to_owned());
    v.push("約定数量".to_owned());
    v.push("約定単価".to_owned());
    v.push("コンバージョンレート".to_owned());
    v.push("手数料".to_owned());
    v.push("手数料消費税".to_owned());
    v.push("建単価".to_owned());
    v.push("新規手数料".to_owned());
    v.push("新規手数料消費税".to_owned());
    v.push("管理費".to_owned());
    v.push("名義書換料".to_owned());
    v.push("金利".to_owned());
    v.push("貸株料".to_owned());
    v.push("品貸料".to_owned());
    v.push("前日分値洗".to_owned());
    v.push("経過利子（円貨）".to_owned());
    v.push("経過利子（外貨）".to_owned());
    v.push("経過日数（外債）".to_owned());
    v.push("所得税（外債）".to_owned());
    v.push("地方税（外債）".to_owned());
    v.push("金利・価格調整額（CFD）".to_owned());
    v.push("配当金調整額（CFD）".to_owned());
    v.push("金利・価格調整額（くりっく株365）".to_owned());
    v.push("配当金調整額（くりっく株365）".to_owned());
    v.push("売建単価（くりっく365/くりっく株365）".to_owned());
    v.push("買建単価（くりっく365/くりっく株365）".to_owned());
    v.push("円貨スワップ損益".to_owned());
    v.push("外貨スワップ損益".to_owned());
    v.push("約定金額（円貨）".to_owned());
    v.push("約定金額（外貨）".to_owned());
    v.push("決済金額（円貨）".to_owned());
    v.push("決済金額（外貨）".to_owned());
    v.push("実現損益（円貨）".to_owned());
    v.push("実現損益（外貨）".to_owned());
    v.push("実現損益（円換算額）".to_owned());
    v.push("受渡金額（円貨）".to_owned());
    v.push("受渡金額（外貨）".to_owned());
    v.push("備考".to_owned());
    proof {
        assert(views_of_strings(v@) =~~= gmo_header());
    }
    v
}

/// Whether two rows of fields are equal, field for field.
#[verifier::loop_isolation(false)]
fn rows_equal(a: &Vec<String>, b: &Vec<String>) -> (r: bool)
    ensures
        r == (views_of_strings(a@) =~~= views_of_strings(b@)),
{
    if a.len() != b.len() {
        return false;
    }
    let mut i: usize = 0;
    while i < a.len()
        invariant
            i <= a@.len(),
            a@.len() == b@.len(),
            forall|k: int| 0 <= k < i ==> (#[trigger] a@[k])@ == b@[k]@,
        decreases a@.len() - i,
    {
        if !(a[i] == b[i]) {
            proof {
                assert(views_of_strings(a@)[i as int] != views_of_strings(b@)[i as int]);
            }
            return false;
        }
        i = i + 1;
    }
    proof {
        assert(views_of_strings(a@) =~~= views_of_strings(b@));
    }
    true
}

/// Classifies one header row.
pub fn detect_format(header: &Vec<String>) -> (r: Option<Broker>)
    ensures
        r == detect_spec(views_of_strings(header@)),
{
    let dmm = dmm_header_exec();
    if rows_equal(header, &dmm) {
        return Some(Broker::Dmm);
    }
    let gmo = gmo_header_exec();
    if rows_equal(header, &gmo) {
        return Some(Broker::Gmo);
    }
    None
}

/// The field at column `i`, or the empty string.
pub open spec fn field_spec(row: Seq<Seq<char>>, i: int) -> Seq<char> {
    if 0 <= i < row.len() {
        row[i]
    } else {
        Seq::empty()
    }
}

fn field<'a>(row: &'a Vec<String>, i: usize, empty: &'a String) -> (r: &'a String)
    requires
        empty@ == Seq::<char>::empty(),
    ensures
        r@ == field_spec(views_of_strings(row@), i as int),
{
    if i < row.len() {
        &row[i]
    } else {
        empty
    }
}

pub open spec fn side_spec(s: Seq<char>) -> Side {
    if s == "買"@ {
        Side::Buy
    } else {
        Side::Sell
    }
}

fn side_exec(s: &String) -> (r: Side)
    ensures
        r == side_spec(s@),
{
    let buy: String = "買".to_owned();
    if *s == buy {
        Side::Buy
    } else {
        Side::Sell
    }
}

pub open spec fn opt_i64(o: Option<int>) -> int {
    match o {
        Some(v) => v,
        None => 0,
    }
}

/// What a DMM data row names, or nothing where the row is neither an
/// opening nor a closing leg.
pub open spec fn dmm_row_spec(row: Seq<Seq<char>>) -> Option<RecordV> {
    let leg: Option<LegType> = if field_spec(row, 2) == "新規"@ {
        Some(LegType::Open)
    } else if field_spec(row, 2) == "決済"@ {
        Some(LegType::Close)
    } else {
        None
    };
    match leg {
        None => None,
        Some(l) => Some(
            RecordV {
                pair: field_spec(row, 0),
                side: side_spec(field_spec(row, 1)),
                trade_type: l,
                lot: opt_i64(scaled_spec(field_spec(row, 3), 4)),
                rate: opt_i64(scaled_spec(field_spec(row, 4), 5)),
                profit: csv_i32_spec(field_spec(row, 5)),
                swap: csv_i32_spec(field_spec(row, 6)),
                order_time: opt_i64(jst_unix_spec(field_spec(row, 9))),
            },
        ),
    }
}

/// What a GMO data row names, or nothing where the row is not an FX leg.
pub open spec fn gmo_row_spec(row: Seq<Seq<char>>) -> Option<RecordV> {
    let leg: Option<LegType> = if crate::parse::trim_spec(field_spec(row, 1)) == "FXネオ新規"@ {
        Some(LegType::Open)
    } else if crate::parse::trim_spec(field_spec(row, 1)) == "FXネオ決済"@ {
        Some(LegType::Close)
    } else {
        None
    };
    match leg {
        None => None,
        Some(l) => Some(
            RecordV {
                pair: field_spec(row, 4),
                side: side_spec(field_spec(row, 11)),
                trade_type: l,
                lot: opt_i64(scaled_spec(field_spec(row, 17), 0)),
                rate: opt_i64(scaled_spec(field_spec(row, 18), 5)),
                profit: csv_i32_spec(field_spec(row, 46)),
                swap: csv_i32_spec(field_spec(row, 42)),
                order_time: opt_i64(jst_unix_spec(field_spec(row, 0))),
            },
        ),
    }
}

pub open spec fn row_spec(row: Seq<Seq<char>>, b: Broker) -> Option<RecordV> {
    match b {
        Broker::Dmm => dmm_row_spec(row),
        Broker::Gmo => gmo_row_spec(row),
    }
}

fn i64_or_zero(o: Option<i64>) -> (r: i64)
    ensures
        r == (match o {
            Some(v) => v as int,
            None => 0int,
        }),
{
    match o {
        Some(v) => v,
        None => 0,
    }
}

/// Maps one data row of the detected broker into a canonical record.
pub fn normalize_row(row: &Vec<String>, broker: Broker) -> (r: Option<Record>)
    ensures
        match r {
            Some(rec) => row_spec(views_of_strings(row@), broker) == Some(rec@),
            None => row_spec(views_of_strings(row@), broker) is None,
        },
{
    let empty = String::new();
    match broker {
        Broker::Dmm => {
            let kind = field(row, 2, &empty);
            let open_mark: String = "新規".to_owned();
            let close_mark: String = "決済".to_owned();
            let leg: Option<LegType> = if *kind == open_mark {
                Some(LegType::Open)
            } else if *kind == close_mark {
                Some(LegType::Close)
            } else {
                None
            };
            match leg {
                None => None,
                Some(l) => {
                    let rec = Record {
                        pair: field(row, 0, &empty).clone(),
                        side: side_exec(field(row, 1, &empty)),
                        trade_type: l,
                        lot: i64_or_zero(parse_scaled(field(row, 3, &empty).as_str(), 4)),
                        rate: i64_or_zero(parse_scaled(field(row, 4, &empty).as_str(), 5)),
                        profit: parse_i32_from_csv(field(row, 5, &empty).as_str()),
                        swap: parse_i32_from_csv(field(row, 6, &empty).as_str()),
                        order_time: match jst_str_to_unix(field(row, 9, &empty).as_str()) {
                            Some(t) => t,
                            None => 0,
                        },
                    };
                    Some(rec)
                },
            }
        },
        Broker::Gmo => {
            let kind = field(row, 1, &empty);
            let kindv = crate::parse::str_chars(kind.as_str());
            let trimmed = trim_to_string(&kindv);
            let open_mark: String = "FXネオ新規".to_owned();
            let close_mark: String = "FXネオ決済".to_owned();
            let leg: Option<LegType> = if trimmed == open_mark {
                Some(LegType::Open)
            } else if trimmed == close_mark {
                Some(LegType::Close)
            } else {
                None
            };
            match leg {
                None => None,
                Some(l) => {
                    let rec = Record {
                        pair: field(row, 4, &empty).clone(),
                        side: side_exec(field(row, 11, &empty)),
                        trade_type: l,
                        lot: i64_or_zero(parse_scaled(field(row, 17, &empty).as_str(), 0)),
                        rate: i64_or_zero(parse_scaled(field(row, 18, &empty).as_str(), 5)),
                        profit: parse_i32_from_csv(field(row, 46, &empty).as_str()),
                        swap: parse_i32_from_csv(field(row, 42, &empty).as_str()),
                        order_time: match jst_str_to_unix(field(row, 0, &empty).as_str()) {
                            Some(t) => t,
                            None => 0,
                        },
                    };
                    Some(rec)
                },
            }
        },
    }
}

/// Relies on `String`'s `FromIterator<char>`: collecting characters
/// yields the string of exactly those characters, in order.
#[verifier::external_body]
fn chars_to_string(v: &Vec<char>) -> (r: String)
    ensures
        r@ == v@,
{
    v.iter().collect()
}

fn trim_to_string(v: &Vec<char>) -> (r: String)
    ensures
        r@ == crate::parse::trim_spec(v@),
{
    let t = crate::parse::trim_chars_pub(v);
    chars_to_string(&t)
}

} // verus!
