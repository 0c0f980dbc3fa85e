use kabu_manager::amount::Amount;
use kabu_manager::csv_import::CsvImportError;
use kabu_manager::date::CalendarDate;
use kabu_manager::models::{Broker, TradeSide};
use kabu_manager::realized_pnl_import::{
    decode_and_normalize_newlines, looks_like_realized_pnl_csv, parse_flexible_date,
    parse_realized_number, parse_realized_pnl_csv, parse_signed_number,
};
use kabu_manager::trade_import::{detect_trade_broker, looks_like_trade_csv, parse_trade_csv, parse_trade_date};

fn units(n: i128) -> Amount {
    Amount { micros: n * 1_000_000 }
}

fn date(year: i32, month: u32, day: u32) -> CalendarDate {
    CalendarDate { year, month, day }
}

fn chars(s: &str) -> Vec<char> {
    s.chars().collect()
}

const ESMART_TRADES: &str = "約定日,受渡日,市場,銘柄名,銘柄コード,売買区分,数量,単価,受渡金額,ポイント利用,手数料,口座区分,売買損益\n\
2026/07/10,2026/07/14,東証,木村化,6378,買,100,\"1,200\",\"120,000\",0,0,特定,0\n\
2026/07/15,2026/07/17,東証,木村化,6378,売,100,\"1,300\",\"130,000\",0,0,特定,\"10,000\"\n\
2026/07/16,,東証,木村化,6378,取消,100,,,0,0,特定,0\n";

const SBI_TRADES: &str = "約定日,銘柄,銘柄コード,市場,取引,期限,預り,課税,約定数量,約定単価,手数料/諸経費等,税額,受渡日,受渡金額/決済損益\n\
2026-07-10,木村化工機,6378,東証,株式現物買,当日,特定,申告,100,\"1,200\",0,0,2026/07/14,\"120,000\"\n\
2026/07/15,木村化工機,6378,東証,株式現物売,当日,NISA(成長投資枠),申告,100,\"1,300\",--,0,2026/07/17,\"130,000\"\n";

const STATEMENT: &str = "特定口座損益明細\n\
期間,2026/01/01,2026/12/31\n\
銘柄コード,銘柄,譲渡益取消区分,約定日,数量,取引,受渡日,売却/決済金額,費用,取得/新規年月日,取得/新規金額,損益金額/徴収額,地方税\n\
6136     ,オーエスジー,,2026/01/05,12株,現物売,2026/01/07,\"24,060\",0,2025/06/02,\"24,000\",+60,--\n\
譲渡益税徴収額,,,,,,,,,,,,\n\
7203,トヨタ自動車,,2026年01月06日,100株,現物売,2026/01/08,\"300,000\",0,--,\"300,308\",-308,--\n\
8058,三菱商事,,2026/01/09,10株,現物売,2026/01/13,--,0,--,--,--,--\n";

#[test]
fn trade_files_are_recognised() {
    assert!(looks_like_trade_csv(ESMART_TRADES));
    assert!(!looks_like_trade_csv("銘柄,保有株数"));
    assert_eq!(detect_trade_broker(ESMART_TRADES), Some(Broker::Esmart));
    assert_eq!(detect_trade_broker(SBI_TRADES), Some(Broker::Sbi));
    assert_eq!(detect_trade_broker("約定日,銘柄"), None);
}

#[test]
fn trade_dates_take_slashes_or_dashes() {
    assert_eq!(parse_trade_date(&chars(" 2026/07/10 ")), Some(date(2026, 7, 10)));
    assert_eq!(parse_trade_date(&chars("2026-07-10")), Some(date(2026, 7, 10)));
    assert_eq!(parse_trade_date(&chars("2026/02/30")), None);
    assert_eq!(parse_trade_date(&chars("07/10/2026")), None);
}

#[test]
fn esmart_trades_carry_realized_profit_on_sales() {
    let file = parse_trade_csv(ESMART_TRADES.as_bytes()).unwrap();
    assert_eq!(file.broker, Broker::Esmart);
    assert_eq!(file.trades.len(), 2);
    let buy = &file.trades[0];
    assert_eq!(buy.side, TradeSide::Buy);
    assert_eq!(buy.trade_date, date(2026, 7, 10));
    assert_eq!(buy.settlement_date, Some(date(2026, 7, 14)));
    assert_eq!(buy.market.as_deref(), Some("東証"));
    assert_eq!(buy.stock_code, "6378");
    assert_eq!(buy.stock_name, "木村化");
    assert_eq!(buy.quantity, units(100));
    assert_eq!(buy.price, Some(units(1200)));
    assert_eq!(buy.settlement_amount, Some(units(120_000)));
    assert_eq!(buy.commission, Some(units(0)));
    assert_eq!(buy.account_type, "特定");
    assert_eq!(buy.realized_profit_loss, None);
    let sell = &file.trades[1];
    assert_eq!(sell.side, TradeSide::Sell);
    assert_eq!(sell.realized_profit_loss, Some(units(10_000)));
}

#[test]
fn sbi_trades_have_no_realized_profit() {
    let file = parse_trade_csv(SBI_TRADES.as_bytes()).unwrap();
    assert_eq!(file.broker, Broker::Sbi);
    assert_eq!(file.trades.len(), 2);
    assert_eq!(file.trades[0].trade_date, date(2026, 7, 10));
    assert_eq!(file.trades[0].stock_name, "木村化工機");
    assert_eq!(file.trades[0].side, TradeSide::Buy);
    assert_eq!(file.trades[1].side, TradeSide::Sell);
    assert_eq!(file.trades[1].account_type, "NISA成長投資枠");
    assert_eq!(file.trades[1].commission, None);
    assert_eq!(file.trades[1].settlement_amount, Some(units(130_000)));
    assert_eq!(file.trades[1].realized_profit_loss, None);
}

#[test]
fn trade_file_errors() {
    assert!(matches!(parse_trade_csv("約定日,銘柄\n".as_bytes()), Err(CsvImportError::UnknownBroker)));
    assert!(matches!(
        parse_trade_csv("売買区分,売買損益\n買,0\n".as_bytes()),
        Err(CsvImportError::HeaderNotFound)
    ));
    assert!(matches!(
        parse_trade_csv("約定日,銘柄コード,売買区分,数量,売買損益\n不明,6378,買,100,0\n".as_bytes()),
        Err(CsvImportError::NoDataRows)
    ));
}

#[test]
fn statement_numbers_and_dates() {
    assert_eq!(parse_realized_number(&chars(" 12株 ")), Some(units(12)));
    assert_eq!(parse_realized_number(&chars("\"1,234\"")), Some(units(1234)));
    assert_eq!(parse_realized_number(&chars("--")), None);
    assert_eq!(parse_signed_number(&chars("+60")), Some(units(60)));
    assert_eq!(parse_signed_number(&chars("-308")), Some(units(-308)));
    assert_eq!(parse_signed_number(&chars("")), None);
    assert_eq!(parse_flexible_date(&chars("\" 2026/01/05 \"")), Some(date(2026, 1, 5)));
    assert_eq!(parse_flexible_date(&chars("2026年01月06日")), Some(date(2026, 1, 6)));
    assert_eq!(parse_flexible_date(&chars("2026-01-06")), None);
}

#[test]
fn statement_lines_break_at_next_line_too() {
    let bytes = "a\u{85}b\u{2028}c".as_bytes();
    assert_eq!(decode_and_normalize_newlines(bytes), "a\nb\nc");
}

#[test]
fn statement_sales_are_read_and_totals_skipped() {
    assert!(looks_like_realized_pnl_csv(STATEMENT));
    let file = parse_realized_pnl_csv(STATEMENT.as_bytes()).unwrap();
    assert_eq!(file.broker, Broker::Sbi);
    assert_eq!(file.records.len(), 3);
    let first = &file.records[0];
    assert_eq!(first.stock_code, "6136");
    assert_eq!(first.stock_name, "オーエスジー");
    assert_eq!(first.trade_date, date(2026, 1, 5));
    assert_eq!(first.settlement_date, Some(date(2026, 1, 7)));
    assert_eq!(first.quantity, units(12));
    assert_eq!(first.sell_amount, Some(units(24_060)));
    assert_eq!(first.acquisition_date, Some(date(2025, 6, 2)));
    assert_eq!(first.acquisition_amount, Some(units(24_000)));
    assert_eq!(first.realized_profit_loss, units(60));
    let second = &file.records[1];
    assert_eq!(second.trade_date, date(2026, 1, 6));
    assert_eq!(second.acquisition_date, None);
    assert_eq!(second.realized_profit_loss, units(-308));
    // a missing profit reads as zero
    assert_eq!(file.records[2].realized_profit_loss, units(0));
    assert_eq!(file.records[2].sell_amount, None);
}

#[test]
fn statement_errors() {
    assert!(matches!(parse_realized_pnl_csv("銘柄,数量\n".as_bytes()), Err(CsvImportError::UnknownBroker)));
    assert!(matches!(
        parse_realized_pnl_csv("特定口座損益明細\n損益金額/徴収額\n".as_bytes()),
        Err(CsvImportError::HeaderNotFound)
    ));
    assert!(matches!(
        parse_realized_pnl_csv(
            "特定口座損益明細\n銘柄コード,約定日,取引,損益金額/徴収額\n6136,2026/01/05,現物買,+60\n".as_bytes()
        ),
        Err(CsvImportError::NoDataRows)
    ));
}
