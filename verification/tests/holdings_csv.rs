use kabu_manager::amount::Amount;
use kabu_manager::broker_profile::detect_broker;
use kabu_manager::csv_import::{parse_holdings_csv, CsvImportError};
use kabu_manager::date::CalendarDate;
use kabu_manager::models::Broker;
use kabu_manager::records::{build_header_index_map, field_text, numeric_field, record_has_columns};

fn units(n: i128) -> Amount {
    Amount { micros: n * 1_000_000 }
}

fn row(cells: &[&str]) -> Vec<String> {
    cells.iter().map(|c| c.to_string()).collect()
}

const SBI_PORTFOLIO: &str = "ポートフォリオ一覧\n\
銘柄,銘柄,銘柄,預り区分,保有株数,取得単価,現在値,現在値,評価額,評価損益,評価損益(%),33業種,業種詳細\n\
8058,三菱商事,東証,特定預り,\"1,000\",\"2,500\",\"3,000\",↑,\"3,000,000\",\"+500,000\",+20.00%,卸売業,総合商社\n\
262A,テスト株,東証,NISA預り(成長投資枠),100,--,\"1,500\",↓,\"150,000\",--,--,,\n\
合計,,,,,,,,\"3,150,000\",,,,\n";

const ESMART_BALANCE: &str = "[ 残高照会 ]- 国内株式 （特定口座） -令和08年07月06日(月) 12:00現在\n\
銘柄名,銘柄コード,区分,数量,買付単価,現在値,時価評価額,評価損益(参考),評価損益率\n\
三菱商,8058,特定,14,\"2,400\",\"3,000\",\"42,000\",\"+8,400\",+25.00%\n\
,,,,,,,,\n";

#[test]
fn brokers_are_told_apart_by_keywords() {
    assert_eq!(detect_broker(SBI_PORTFOLIO).map(|p| p.broker), Some(Broker::Sbi));
    assert_eq!(detect_broker(ESMART_BALANCE).map(|p| p.broker), Some(Broker::Esmart));
    assert!(detect_broker("銘柄名,数量").is_none());
}

#[test]
fn sbi_portfolio_is_read_by_its_stock_columns() {
    let snapshot = parse_holdings_csv(SBI_PORTFOLIO.as_bytes()).unwrap();
    assert_eq!(snapshot.broker, Broker::Sbi);
    assert_eq!(snapshot.snapshot_date, None);
    assert_eq!(snapshot.holdings.len(), 2);
    let first = &snapshot.holdings[0];
    assert_eq!(first.stock_code, "8058");
    assert_eq!(first.stock_name, "三菱商事");
    assert_eq!(first.account_type, "特定");
    assert_eq!(first.quantity, units(1000));
    assert_eq!(first.average_acquisition_price, Some(units(2500)));
    assert_eq!(first.current_price, Some(units(3000)));
    assert_eq!(first.market_value, Some(units(3_000_000)));
    assert_eq!(first.acquisition_cost, None);
    assert_eq!(first.profit_loss, Some(units(500_000)));
    assert_eq!(first.profit_loss_rate, Some(units(20)));
    assert_eq!(first.sector_33.as_deref(), Some("卸売業"));
    assert_eq!(first.sector_detail.as_deref(), Some("総合商社"));
    let second = &snapshot.holdings[1];
    assert_eq!(second.stock_code, "262A");
    assert_eq!(second.account_type, "NISA成長投資枠");
    assert_eq!(second.average_acquisition_price, None);
    assert_eq!(second.current_price, Some(units(1500)));
    assert_eq!(second.sector_33, None);
}

#[test]
fn esmart_balance_takes_its_date_from_the_title() {
    let snapshot = parse_holdings_csv(ESMART_BALANCE.as_bytes()).unwrap();
    assert_eq!(snapshot.broker, Broker::Esmart);
    assert_eq!(snapshot.snapshot_date, Some(CalendarDate { year: 2026, month: 7, day: 6 }));
    assert_eq!(snapshot.holdings.len(), 1);
    let h = &snapshot.holdings[0];
    assert_eq!(h.stock_code, "8058");
    assert_eq!(h.stock_name, "三菱商");
    assert_eq!(h.quantity, units(14));
    assert_eq!(h.market_value, Some(units(42_000)));
    assert_eq!(h.profit_loss, Some(units(8_400)));
    assert_eq!(h.profit_loss_rate, Some(units(25)));
    assert_eq!(h.sector_33, None);
}

#[test]
fn holdings_errors_name_what_is_missing() {
    assert!(matches!(parse_holdings_csv("hello,world\n".as_bytes()), Err(CsvImportError::UnknownBroker)));
    assert!(matches!(
        parse_holdings_csv("預り区分,保有株数\n特定,1\n".as_bytes()),
        Err(CsvImportError::HeaderNotFound)
    ));
    assert!(matches!(
        parse_holdings_csv("銘柄,預り区分,保有株数,取得単価\n合計,,,\n".as_bytes()),
        Err(CsvImportError::NoDataRows)
    ));
}

#[test]
fn header_cells_are_found_by_name() {
    let header = row(&["銘柄", "銘柄", " 現在値 ", "現在値"]);
    assert!(record_has_columns(&header, &["現在値", "銘柄"]));
    assert!(!record_has_columns(&header, &["数量"]));
    let index = build_header_index_map(&header);
    let record = row(&["8058", " 三菱商事 ", "↑", "3,000"]);
    assert_eq!(field_text(&record, &index, "銘柄"), Some(vec!['8', '0', '5', '8']));
    assert_eq!(field_text(&record, &index, "評価額"), None);
    assert_eq!(numeric_field(&record, &index, "現在値"), Some(units(3000)));
}
