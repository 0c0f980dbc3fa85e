use kabu_manager::amount::Amount;
use kabu_manager::date::CalendarDate;
use kabu_manager::models::{Broker, ParsedRealizedPnl, ParsedRealizedPnlFile, ParsedTrade, ParsedTradeFile, TradeSide};
use kabu_manager::storage::{
    count_flags, date_range_texts, merge_stock_master, merge_stock_name, realized_pnl_dedup_keys,
    realized_pnl_import_summary, snapshot_import_summary, trade_dedup_keys, trade_import_summary,
    StockMasterEntry,
};

fn units(n: i128) -> Amount {
    Amount { micros: n * 1_000_000 }
}

fn date(year: i32, month: u32, day: u32) -> CalendarDate {
    CalendarDate { year, month, day }
}

fn sell(day: u32, quantity: i128) -> ParsedTrade {
    ParsedTrade {
        trade_date: date(2026, 7, day),
        settlement_date: None,
        market: Some("東証".to_string()),
        stock_code: "6378".to_string(),
        stock_name: "木村化".to_string(),
        side: TradeSide::Sell,
        quantity: units(quantity),
        price: Some(units(1300)),
        settlement_amount: Some(units(130_000)),
        commission: Some(units(0)),
        account_type: "特定".to_string(),
        realized_profit_loss: Some(units(10_000)),
    }
}

fn sale(day: u32, profit: i128) -> ParsedRealizedPnl {
    ParsedRealizedPnl {
        trade_date: date(2026, 1, day),
        settlement_date: None,
        stock_code: "6136".to_string(),
        stock_name: "オーエスジー".to_string(),
        quantity: units(12),
        sell_amount: Some(units(24_060)),
        acquisition_date: Some(date(2025, 6, 2)),
        acquisition_amount: Some(units(24_000)),
        realized_profit_loss: units(profit),
    }
}

#[test]
fn trade_keys_spell_the_row_and_its_occurrence() {
    let file = ParsedTradeFile { broker: Broker::Esmart, trades: vec![sell(15, 100), sell(15, 100), sell(16, 50)] };
    let keys = trade_dedup_keys(&file);
    assert_eq!(keys[0], "esmart|2026-07-15|6378|sell|100|Some(1300.0)|Some(130000.0)|特定#0");
    assert_eq!(keys[1], "esmart|2026-07-15|6378|sell|100|Some(1300.0)|Some(130000.0)|特定#1");
    assert_eq!(keys[2], "esmart|2026-07-16|6378|sell|50|Some(1300.0)|Some(130000.0)|特定#0");
}

#[test]
fn trade_keys_repeat_when_a_file_is_imported_again() {
    let first = ParsedTradeFile { broker: Broker::Esmart, trades: vec![sell(15, 100), sell(15, 100)] };
    let longer = ParsedTradeFile { broker: Broker::Esmart, trades: vec![sell(15, 100), sell(15, 100), sell(15, 100)] };
    let a = trade_dedup_keys(&first);
    let b = trade_dedup_keys(&longer);
    assert_eq!(a, trade_dedup_keys(&first));
    assert_eq!(a[..], b[..2]);
    assert_ne!(b[2], b[1]);
}

#[test]
fn sale_keys_spell_the_statement_row() {
    let file = ParsedRealizedPnlFile { broker: Broker::Sbi, records: vec![sale(5, 60), sale(5, 60)] };
    let keys = realized_pnl_dedup_keys(&file);
    assert_eq!(keys[0], "sbi|2026-01-05|6136|12|Some(24060.0)|Some(24000.0)|Some(\"2025-06-02\")|60#0");
    assert_eq!(keys[1], "sbi|2026-01-05|6136|12|Some(24060.0)|Some(24000.0)|Some(\"2025-06-02\")|60#1");
}

#[test]
fn stock_master_keeps_the_longer_name_and_known_sectors() {
    let stored = StockMasterEntry {
        stock_code: "8058".to_string(),
        stock_name: "三菱商".to_string(),
        sector_33: Some("卸売業".to_string()),
        sector_detail: None,
    };
    let incoming = StockMasterEntry {
        stock_code: "8058".to_string(),
        stock_name: "三菱商事".to_string(),
        sector_33: None,
        sector_detail: Some("総合商社".to_string()),
    };
    let merged = merge_stock_master(Some(&stored), &incoming);
    assert_eq!(merged.stock_name, "三菱商事");
    assert_eq!(merged.sector_33.as_deref(), Some("卸売業"));
    assert_eq!(merged.sector_detail.as_deref(), Some("総合商社"));
    let back = merge_stock_master(Some(&merged), &stored);
    assert_eq!(back.stock_name, "三菱商事");
    assert_eq!(back.sector_33.as_deref(), Some("卸売業"));
    let fresh = merge_stock_master(None, &incoming);
    assert_eq!(fresh.stock_name, "三菱商事");
    assert_eq!(fresh.sector_33, None);
    assert_eq!(merge_stock_name(Some(&"木村化工機".to_string()), &"木村化".to_string()), "木村化工機");
    assert_eq!(merge_stock_name(Some(&"ABC".to_string()), &"XYZ".to_string()), "ABC");
    assert_eq!(merge_stock_name(None, &"XYZ".to_string()), "XYZ");
}

#[test]
fn snapshot_summary_reports_replacement() {
    let s = snapshot_import_summary(Broker::Sbi, date(2026, 7, 6), 13, 1);
    assert_eq!(s.broker_display_name, "SBI証券");
    assert_eq!(s.snapshot_date, "2026-07-06");
    assert_eq!(s.imported_row_count, 13);
    assert!(s.replaced_existing);
    assert!(!snapshot_import_summary(Broker::Esmart, date(2026, 7, 6), 1, 0).replaced_existing);
}

#[test]
fn trade_summary_counts_new_and_repeated_rows() {
    let file = ParsedTradeFile { broker: Broker::Esmart, trades: vec![sell(16, 100), sell(3, 100), sell(9, 100)] };
    let s = trade_import_summary(&file, &[true, false, true]);
    assert_eq!(s.broker_display_name, "e-smart証券");
    assert_eq!(s.new_trade_count, 2);
    assert_eq!(s.duplicate_trade_count, 1);
    assert_eq!(s.earliest_trade_date.as_deref(), Some("2026-07-03"));
    assert_eq!(s.latest_trade_date.as_deref(), Some("2026-07-16"));
}

#[test]
fn statement_summary_totals_the_stored_sales() {
    let file = ParsedRealizedPnlFile { broker: Broker::Sbi, records: vec![sale(5, 60), sale(6, -308), sale(7, 1000)] };
    let s = realized_pnl_import_summary(&file, &[true, true, false]);
    assert_eq!(s.new_record_count, 2);
    assert_eq!(s.duplicate_record_count, 1);
    assert_eq!(s.total_realized_profit_loss, units(-248));
    assert_eq!(s.earliest_trade_date.as_deref(), Some("2026-01-05"));
    assert_eq!(s.latest_trade_date.as_deref(), Some("2026-01-07"));
}

#[test]
fn flags_and_date_ranges() {
    assert_eq!(count_flags(&[true, true, false]), (2, 1));
    assert_eq!(count_flags(&[]), (0, 0));
    assert_eq!(date_range_texts(&vec![]), (None, None));
    let (lo, hi) = date_range_texts(&vec![date(2026, 3, 1), date(2025, 12, 31), date(2026, 1, 1)]);
    assert_eq!(lo.as_deref(), Some("2025-12-31"));
    assert_eq!(hi.as_deref(), Some("2026-03-01"));
}

fn insert_or_ignore(table: &mut std::collections::HashSet<String>, keys: &[String]) -> Vec<bool> {
    keys.iter().map(|k| table.insert(k.clone())).collect()
}

#[test]
fn importing_trades_again_stores_nothing() {
    let file = ParsedTradeFile { broker: Broker::Esmart, trades: vec![sell(15, 100), sell(15, 100), sell(16, 50)] };
    let mut table = std::collections::HashSet::new();
    let first = insert_or_ignore(&mut table, &trade_dedup_keys(&file));
    let s1 = trade_import_summary(&file, &first);
    assert_eq!((s1.new_trade_count, s1.duplicate_trade_count), (3, 0));
    let stored = table.clone();
    let again = insert_or_ignore(&mut table, &trade_dedup_keys(&file));
    let s2 = trade_import_summary(&file, &again);
    assert_eq!((s2.new_trade_count, s2.duplicate_trade_count), (0, 3));
    assert_eq!(table, stored);
}

#[test]
fn importing_a_statement_again_stores_nothing() {
    let file = ParsedRealizedPnlFile { broker: Broker::Sbi, records: vec![sale(5, 60), sale(5, 60), sale(6, -308)] };
    let mut table = std::collections::HashSet::new();
    let first = insert_or_ignore(&mut table, &realized_pnl_dedup_keys(&file));
    let s1 = realized_pnl_import_summary(&file, &first);
    assert_eq!((s1.new_record_count, s1.duplicate_record_count), (3, 0));
    assert_eq!(s1.total_realized_profit_loss, units(-188));
    let again = insert_or_ignore(&mut table, &realized_pnl_dedup_keys(&file));
    let s2 = realized_pnl_import_summary(&file, &again);
    assert_eq!((s2.new_record_count, s2.duplicate_record_count), (0, 3));
    assert_eq!(s2.total_realized_profit_loss, units(0));
}

#[test]
fn merging_the_same_holdings_twice_changes_nothing() {
    let row = |name: &str, s33: Option<&str>| StockMasterEntry {
        stock_code: "8058".to_string(),
        stock_name: name.to_string(),
        sector_33: s33.map(|s| s.to_string()),
        sector_detail: None,
    };
    let incoming = vec![row("三菱商事", Some("卸売業")), row("三菱商", Some("商社"))];
    let mut master: Option<StockMasterEntry> = None;
    for _ in 0..2 {
        for h in &incoming {
            master = Some(merge_stock_master(master.as_ref(), h));
        }
        let m = master.as_ref().unwrap();
        assert_eq!(m.stock_name, "三菱商事");
        assert_eq!(m.sector_33.as_deref(), Some("商社"));
    }
}
