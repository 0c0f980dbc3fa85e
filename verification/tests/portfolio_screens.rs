use kabu_manager::amount::Amount;
use kabu_manager::portfolio::{
    asset_history, composition, import_batch_list, latest_holdings, stock_history, stock_list,
    StoredBatch, StoredHolding,
};
use kabu_manager::storage::StockMasterEntry;

fn units(n: i128) -> Amount {
    Amount { micros: n * 1_000_000 }
}

fn batch(id: i64, broker: &str, date: &str) -> StoredBatch {
    StoredBatch {
        batch_id: id,
        broker: broker.to_string(),
        snapshot_date: date.to_string(),
        source_file_name: Some(format!("{broker}.csv")),
        imported_at: "2026-07-06 12:00:00".to_string(),
    }
}

#[allow(clippy::too_many_arguments)]
fn holding(
    batch_id: i64,
    date: &str,
    broker: &str,
    account: &str,
    code: &str,
    name: &str,
    quantity: i128,
    price: Option<i128>,
    market: Option<i128>,
    profit: Option<i128>,
) -> StoredHolding {
    StoredHolding {
        batch_id,
        snapshot_date: date.to_string(),
        broker: broker.to_string(),
        account_type: account.to_string(),
        stock_code: code.to_string(),
        stock_name: name.to_string(),
        quantity: units(quantity),
        average_acquisition_price: None,
        current_price: price.map(units),
        market_value: market.map(units),
        profit_loss: profit.map(units),
        profit_loss_rate: None,
    }
}

fn master_entry(code: &str, name: &str, sector: Option<&str>) -> StockMasterEntry {
    StockMasterEntry {
        stock_code: code.to_string(),
        stock_name: name.to_string(),
        sector_33: sector.map(|s| s.to_string()),
        sector_detail: None,
    }
}

fn sample() -> (Vec<StoredHolding>, Vec<StoredBatch>, Vec<StockMasterEntry>) {
    let batches = vec![batch(1, "sbi", "2026-07-01"), batch(2, "sbi", "2026-07-06"), batch(3, "esmart", "2026-07-05")];
    let holdings = vec![
        holding(1, "2026-07-01", "sbi", "特定", "9432", "NTT", 1, Some(150), Some(150), Some(10)),
        holding(1, "2026-07-01", "sbi", "特定", "8058", "三菱商事", 100, Some(3000), Some(300_000), Some(50_000)),
        holding(2, "2026-07-06", "sbi", "特定", "8058", "三菱商事", 100, Some(3100), Some(310_000), Some(60_000)),
        holding(2, "2026-07-06", "sbi", "NISA成長投資枠", "7203", "トヨタ自動車", 10, Some(3000), Some(30_000), None),
        holding(3, "2026-07-05", "esmart", "特定", "8058", "三菱商", 14, Some(3100), Some(43_400), Some(8_400)),
        holding(3, "2026-07-05", "esmart", "特定", "6378", "木村化", 100, None, None, None),
    ];
    let master = vec![
        master_entry("8058", "三菱商事", Some("卸売業")),
        master_entry("7203", "トヨタ自動車", Some("輸送用機器")),
        master_entry("9999", "未保有", None),
        master_entry("6378", "木村化工機", None),
        master_entry("9432", "NTT", Some("情報・通信業")),
    ];
    (holdings, batches, master)
}

#[test]
fn holdings_list_shows_each_brokers_latest_snapshot() {
    let (holdings, batches, master) = sample();
    let list = latest_holdings(&holdings, &batches, &master);
    let keys: Vec<(&str, &str, &str)> =
        list.iter().map(|h| (h.stock_code.as_str(), h.broker.as_str(), h.account_type.as_str())).collect();
    assert_eq!(
        keys,
        vec![("6378", "esmart", "特定"), ("7203", "sbi", "NISA成長投資枠"), ("8058", "esmart", "特定"), ("8058", "sbi", "特定")]
    );
    assert_eq!(list[0].broker_display_name, "e-smart証券");
    assert_eq!(list[0].sector_33, None);
    assert_eq!(list[1].sector_33.as_deref(), Some("輸送用機器"));
    assert_eq!(list[3].snapshot_date, "2026-07-06");
    assert_eq!(list[3].market_value, Some(units(310_000)));
    assert_eq!(list[3].broker_display_name, "SBI証券");
}

#[test]
fn asset_history_totals_each_day() {
    let (holdings, _, _) = sample();
    let all = asset_history(&holdings, None);
    let days: Vec<&str> = all.iter().map(|p| p.snapshot_date.as_str()).collect();
    assert_eq!(days, vec!["2026-07-01", "2026-07-05", "2026-07-06"]);
    assert_eq!(all[0].total_market_value, units(300_150));
    assert_eq!(all[0].total_profit_loss, units(50_010));
    assert_eq!(all[1].total_market_value, units(43_400));
    assert_eq!(all[2].total_market_value, units(340_000));
    assert_eq!(all[2].total_profit_loss, units(60_000));
    let sbi = asset_history(&holdings, Some("sbi"));
    assert_eq!(sbi.len(), 2);
    assert_eq!(sbi[1].snapshot_date, "2026-07-06");
    assert!(asset_history(&holdings, Some("nomura")).is_empty());
}

#[test]
fn stock_history_adds_brokers_up() {
    let (holdings, _, _) = sample();
    let history = stock_history(&holdings, "8058", None);
    assert_eq!(history.len(), 3);
    assert_eq!(history[1].snapshot_date, "2026-07-05");
    assert_eq!(history[1].total_quantity, units(14));
    assert_eq!(history[1].current_price, Some(units(3100)));
    assert_eq!(history[2].total_market_value, units(310_000));
    let kimura = stock_history(&holdings, "6378", None);
    assert_eq!(kimura.len(), 1);
    assert_eq!(kimura[0].current_price, None);
    assert_eq!(kimura[0].total_market_value, units(0));
    assert_eq!(stock_history(&holdings, "8058", Some("esmart")).len(), 1);
}

#[test]
fn composition_ranks_latest_market_values() {
    let (holdings, batches, master) = sample();
    let items = composition(&holdings, &batches, &master, None);
    let codes: Vec<&str> = items.iter().map(|i| i.stock_code.as_str()).collect();
    assert_eq!(codes, vec!["8058", "7203", "6378"]);
    assert_eq!(items[0].total_market_value, units(353_400));
    assert_eq!(items[0].stock_name, "三菱商事");
    assert_eq!(items[0].sector_33.as_deref(), Some("卸売業"));
    assert_eq!(items[2].total_market_value, units(0));
    let esmart = composition(&holdings, &batches, &master, Some("esmart"));
    assert_eq!(esmart.len(), 2);
    assert_eq!(esmart[0].stock_name, "三菱商");
}

#[test]
fn stock_list_marks_what_is_held_now() {
    let (holdings, batches, master) = sample();
    let list = stock_list(&holdings, &batches, &master, None);
    let rows: Vec<(&str, bool)> = list.iter().map(|s| (s.stock_code.as_str(), s.is_currently_held)).collect();
    assert_eq!(rows, vec![("6378", true), ("7203", true), ("8058", true), ("9432", false)]);
    assert_eq!(list[0].stock_name, "木村化工機");
    let sbi = stock_list(&holdings, &batches, &master, Some("sbi"));
    let codes: Vec<&str> = sbi.iter().map(|s| s.stock_code.as_str()).collect();
    assert_eq!(codes, vec!["7203", "8058", "9432"]);
}

#[test]
fn import_history_lists_latest_first() {
    let (holdings, batches, _) = sample();
    let list = import_batch_list(&batches, &holdings);
    let ids: Vec<i64> = list.iter().map(|b| b.batch_id).collect();
    assert_eq!(ids, vec![2, 3, 1]);
    assert_eq!(list[0].broker_display_name, "SBI証券");
    assert_eq!(list[0].holding_count, 2);
    assert_eq!(list[1].holding_count, 2);
    assert_eq!(list[2].holding_count, 2);
    assert_eq!(list[2].source_file_name.as_deref(), Some("sbi.csv"));
}

#[test]
fn same_stock_at_two_brokers_is_added_up() {
    let holdings = vec![
        holding(1, "2026-07-06", "sbi", "特定", "8058", "三菱商事", 34, Some(3000), Some(102_000), None),
        holding(2, "2026-07-06", "esmart", "特定", "8058", "三菱商", 14, Some(3000), Some(42_000), None),
    ];
    let history = stock_history(&holdings, "8058", None);
    assert_eq!(history.len(), 1);
    assert_eq!(history[0].total_quantity, units(48));
    assert_eq!(history[0].total_market_value, units(144_000));
    assert_eq!(history[0].total_profit_loss, units(0));
}

#[test]
fn composition_stocks_are_listed_as_held() {
    let (holdings, batches, master) = sample();
    for filter in [None, Some("sbi"), Some("esmart")] {
        let items = composition(&holdings, &batches, &master, filter);
        let list = stock_list(&holdings, &batches, &master, filter);
        for item in &items {
            assert!(list.iter().any(|s| s.stock_code == item.stock_code && s.is_currently_held));
        }
    }
}
