use kabu_manager::amount::Amount;
use kabu_manager::trade_analysis::{compute_trade_analysis, StockNameEntry, StoredRealizedPnl, StoredTrade};

fn units(n: i128) -> Amount {
    Amount { micros: n * 1_000_000 }
}

fn trade(id: i64, broker: &str, day: &str, code: &str, name: &str, side: &str, commission: Option<i128>, realized: Option<i128>) -> StoredTrade {
    StoredTrade {
        trade_id: id,
        broker: broker.to_string(),
        trade_date: day.to_string(),
        stock_code: code.to_string(),
        stock_name: name.to_string(),
        side: side.to_string(),
        quantity: units(100),
        price: Some(units(1000)),
        settlement_amount: None,
        commission: commission.map(units),
        account_type: "特定".to_string(),
        realized_profit_loss: realized.map(units),
    }
}

fn statement(day: &str, code: &str, name: &str, profit: i128) -> StoredRealizedPnl {
    StoredRealizedPnl {
        broker: "sbi".to_string(),
        trade_date: day.to_string(),
        stock_code: code.to_string(),
        stock_name: name.to_string(),
        realized_profit_loss: units(profit),
    }
}

fn master_name(code: &str, name: &str) -> StockNameEntry {
    StockNameEntry { stock_code: code.to_string(), stock_name: name.to_string() }
}

fn sample() -> (Vec<StoredTrade>, Vec<StoredRealizedPnl>, Vec<StockNameEntry>) {
    let trades = vec![
        trade(1, "esmart", "2026-06-10", "6378", "木村化", "buy", Some(100), None),
        trade(2, "esmart", "2026-07-15", "6378", "木村化", "sell", Some(100), Some(10_000)),
        trade(3, "sbi", "2026-07-15", "7203", "トヨタ", "sell", Some(50), None),
        trade(4, "sbi", "2026-07-20", "8058", "三菱商事", "sell", None, None),
        trade(5, "sbi", "2026-06-01", "7203", "トヨタ", "buy", Some(0), None),
    ];
    let statements = vec![
        statement("2026-07-15", "7203", "トヨタ自動車", -308),
        statement("2026-07-15", "7203", "トヨタ自動車", 108),
        statement("2026-05-02", "6136", "オーエスジー", 60),
    ];
    let master = vec![master_name("7203", "トヨタ自動車"), master_name("6378", "木村化工機")];
    (trades, statements, master)
}

#[test]
fn analysis_counts_and_totals_every_broker() {
    let (trades, statements, master) = sample();
    let a = compute_trade_analysis(&trades, &statements, &master, None, None);
    assert_eq!(a.buy_trade_count, 2);
    assert_eq!(a.sell_trade_count, 3);
    assert_eq!(a.total_commission, units(250));
    assert_eq!(a.unknown_pnl_sell_count, 1);
    assert_eq!(a.total_realized_profit_loss, units(9_860));
    assert_eq!(a.winning_sell_count, 3);
    assert_eq!(a.sell_count_with_known_pnl, 4);
}

#[test]
fn analysis_months_run_up_to_the_total() {
    let (trades, statements, master) = sample();
    let a = compute_trade_analysis(&trades, &statements, &master, None, None);
    assert_eq!(a.monthly_points.len(), 2);
    assert_eq!(a.monthly_points[0].month, "2026-05");
    assert_eq!(a.monthly_points[0].realized_profit_loss, units(60));
    assert_eq!(a.monthly_points[0].cumulative_total_profit_loss, units(60));
    assert_eq!(a.monthly_points[1].month, "2026-07");
    assert_eq!(a.monthly_points[1].realized_profit_loss, units(9_800));
    assert_eq!(a.monthly_points[1].cumulative_total_profit_loss, a.total_realized_profit_loss);
}

#[test]
fn analysis_ranks_stocks_by_profit() {
    let (trades, statements, master) = sample();
    let a = compute_trade_analysis(&trades, &statements, &master, None, None);
    let codes: Vec<&str> = a.stock_items.iter().map(|i| i.stock_code.as_str()).collect();
    assert_eq!(codes, vec!["6378", "6136", "7203"]);
    assert_eq!(a.stock_items[0].stock_name, "木村化工機");
    assert_eq!(a.stock_items[0].realized_profit_loss, units(10_000));
    assert_eq!(a.stock_items[0].sell_trade_count, 1);
    assert_eq!(a.stock_items[1].stock_name, "オーエスジー");
    assert_eq!(a.stock_items[2].stock_name, "トヨタ自動車");
    assert_eq!(a.stock_items[2].realized_profit_loss, units(-200));
    assert_eq!(a.stock_items[2].sell_trade_count, 2);
    let sum: i128 = a.stock_items.iter().map(|i| i.realized_profit_loss.micros).sum();
    assert_eq!(sum, a.total_realized_profit_loss.micros);
}

#[test]
fn analysis_lists_recent_trades_newest_first() {
    let (trades, statements, master) = sample();
    let a = compute_trade_analysis(&trades, &statements, &master, None, None);
    let order: Vec<(&str, &str)> =
        a.recent_trades.iter().map(|t| (t.trade_date.as_str(), t.stock_code.as_str())).collect();
    assert_eq!(
        order,
        vec![
            ("2026-07-20", "8058"),
            ("2026-07-15", "7203"),
            ("2026-07-15", "6378"),
            ("2026-06-10", "6378"),
            ("2026-06-01", "7203"),
        ]
    );
    assert_eq!(a.recent_trades[0].broker_display_name, "SBI証券");
    assert_eq!(a.recent_trades[0].stock_name, "三菱商事");
    assert_eq!(a.recent_trades[0].realized_profit_loss, None);
    assert_eq!(a.recent_trades[1].stock_name, "トヨタ自動車");
    assert_eq!(a.recent_trades[1].realized_profit_loss, Some(units(-200)));
    assert_eq!(a.recent_trades[2].broker_display_name, "e-smart証券");
    assert_eq!(a.recent_trades[2].realized_profit_loss, Some(units(10_000)));
    assert_eq!(a.recent_trades[3].realized_profit_loss, None);
    assert_eq!(a.recent_trades[3].side, "buy");
}

#[test]
fn analysis_filters_by_broker() {
    let (trades, statements, master) = sample();
    let a = compute_trade_analysis(&trades, &statements, &master, Some("sbi"), None);
    assert_eq!(a.buy_trade_count, 1);
    assert_eq!(a.sell_trade_count, 2);
    assert_eq!(a.total_commission, units(50));
    assert_eq!(a.unknown_pnl_sell_count, 1);
    assert_eq!(a.total_realized_profit_loss, units(-140));
    assert_eq!(a.winning_sell_count, 2);
    assert_eq!(a.sell_count_with_known_pnl, 3);
    assert_eq!(a.recent_trades.len(), 3);
}

#[test]
fn analysis_filters_by_start_date() {
    let (trades, statements, master) = sample();
    let a = compute_trade_analysis(&trades, &statements, &master, None, Some("2026-07-01"));
    assert_eq!(a.buy_trade_count, 0);
    assert_eq!(a.sell_trade_count, 3);
    assert_eq!(a.total_commission, units(150));
    assert_eq!(a.total_realized_profit_loss, units(9_800));
    assert_eq!(a.monthly_points.len(), 1);
    assert_eq!(a.recent_trades.len(), 3);
}

#[test]
fn analysis_of_nothing_is_empty() {
    let a = compute_trade_analysis(&vec![], &vec![], &vec![], None, None);
    assert_eq!(a.total_realized_profit_loss, units(0));
    assert_eq!(a.sell_count_with_known_pnl, 0);
    assert!(a.monthly_points.is_empty());
    assert!(a.stock_items.is_empty());
    assert!(a.recent_trades.is_empty());
}

#[test]
fn analysis_keeps_the_hundred_latest_trades() {
    let mut trades = Vec::new();
    for i in 0..105 {
        let day = format!("2026-{:02}-{:02}", 1 + i / 28, 1 + i % 28);
        trades.push(trade(i as i64 + 1, "esmart", &day, "6378", "木村化", "buy", None, None));
    }
    let a = compute_trade_analysis(&trades, &vec![], &vec![], None, None);
    assert_eq!(a.buy_trade_count, 105);
    assert_eq!(a.recent_trades.len(), 100);
    assert_eq!(a.recent_trades[0].trade_date, "2026-04-21");
    assert_eq!(a.recent_trades[99].trade_date, "2026-01-06");
}
