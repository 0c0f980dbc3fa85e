use kabu_manager::date::CalendarDate;
use kabu_manager::import_routing::{choose_snapshot_date, csv_kind, csv_kind_of_text, CsvKind};
use kabu_manager::models::{display_name_for_identifier, Broker, TradeSide};

fn date(year: i32, month: u32, day: u32) -> CalendarDate {
    CalendarDate { year, month, day }
}

#[test]
fn statements_are_recognised_before_trade_histories() {
    let statement = "特定口座損益明細\n銘柄コード,約定日,取引,損益金額/徴収額\n";
    assert_eq!(csv_kind_of_text(statement), CsvKind::RealizedPnl);
    assert_eq!(csv_kind_of_text("約定日,銘柄コード\n"), CsvKind::Trade);
    assert_eq!(csv_kind_of_text("銘柄,保有株数\n"), CsvKind::Holdings);
    assert_eq!(csv_kind("約定日".as_bytes()), CsvKind::Trade);
}

#[test]
fn typed_date_wins_over_stated_and_today() {
    let stated = Some(date(2026, 7, 1));
    let today = date(2026, 7, 9);
    assert_eq!(choose_snapshot_date(Some(" 2026-07-05 "), stated, today), Ok(date(2026, 7, 5)));
    assert_eq!(choose_snapshot_date(Some("  "), stated, today), Ok(date(2026, 7, 1)));
    assert_eq!(choose_snapshot_date(None, stated, today), Ok(date(2026, 7, 1)));
    assert_eq!(choose_snapshot_date(None, None, today), Ok(today));
    assert_eq!(choose_snapshot_date(Some("2026/07/05 "), None, today), Err("2026/07/05".to_string()));
    assert_eq!(choose_snapshot_date(Some("2026-02-30"), None, today), Err("2026-02-30".to_string()));
}

#[test]
fn broker_identifiers_and_names() {
    assert_eq!(Broker::Sbi.identifier(), "sbi");
    assert_eq!(Broker::Esmart.identifier(), "esmart");
    assert_eq!(Broker::Sbi.display_name(), "SBI証券");
    assert_eq!(Broker::Esmart.display_name(), "e-smart証券");
    for b in [Broker::Sbi, Broker::Esmart] {
        assert_eq!(Broker::from_identifier(b.identifier()), Some(b));
    }
    assert_eq!(Broker::from_identifier("nomura"), None);
    assert_eq!(display_name_for_identifier("esmart"), "e-smart証券");
    assert_eq!(display_name_for_identifier("nomura"), "nomura");
    assert_eq!(TradeSide::Buy.identifier(), "buy");
    assert_eq!(TradeSide::Sell.identifier(), "sell");
}

#[test]
fn calendar_dates_exist_or_not() {
    assert_eq!(CalendarDate::from_ymd_opt(2024, 2, 29), Some(date(2024, 2, 29)));
    assert_eq!(CalendarDate::from_ymd_opt(2026, 2, 29), None);
    assert_eq!(CalendarDate::from_ymd_opt(2026, 13, 1), None);
    assert_eq!(date(2026, 7, 6).to_iso_string(), "2026-07-06");
    assert!(date(2025, 12, 31).is_on_or_before(&date(2026, 1, 1)));
    assert!(!date(2026, 1, 2).is_on_or_before(&date(2026, 1, 1)));
}
