//! Data shared across the library: brokers, trade sides, parsed CSV rows and
//! the summaries handed back after an import.

use vstd::prelude::*;

use crate::amount::Amount;
use crate::date::CalendarDate;
use crate::text::{chars_equal, str_chars};

verus! {

/// The supported securities brokers.
#[derive(Clone, Copy, Debug, PartialEq, Eq, Structural)]
pub enum Broker {
    Sbi,
    Esmart,
}

pub open spec fn broker_identifier_text(b: Broker) -> Seq<char> {
    match b {
        Broker::Sbi => "sbi"@,
        Broker::Esmart => "esmart"@,
    }
}

pub open spec fn broker_display_text(b: Broker) -> Seq<char> {
    match b {
        Broker::Sbi => "SBI証券"@,
        Broker::Esmart => "e-smart証券"@,
    }
}

/// The broker whose stable identifier is `s`.
pub open spec fn broker_for_identifier(s: Seq<char>) -> Option<Broker> {
    if s == "sbi"@ {
        Some(Broker::Sbi)
    } else if s == "esmart"@ {
        Some(Broker::Esmart)
    } else {
        None
    }
}

/// Whether two texts are equal.
pub fn str_equal(a: &str, b: &str) -> (r: bool)
    ensures
        r == (a@ == b@),
{
    let x = str_chars(a);
    let y = str_chars(b);
    chars_equal(&x, &y)
}

impl Broker {
    /// The stable ASCII identifier stored in the database.
    pub fn identifier(&self) -> (r: &'static str)
        ensures
            r@ == broker_identifier_text(*self),
    {
        match self {
            Broker::Sbi => "sbi",
            Broker::Esmart => "esmart",
        }
    }

    /// The name shown on screen.
    pub fn display_name(&self) -> (r: &'static str)
        ensures
            r@ == broker_display_text(*self),
    {
        match self {
            Broker::Sbi => "SBI証券",
            Broker::Esmart => "e-smart証券",
        }
    }

    pub fn from_identifier(identifier: &str) -> (r: Option<Broker>)
        ensures
            r == broker_for_identifier(identifier@),
    {
        if str_equal(identifier, "sbi") {
            Some(Broker::Sbi)
        } else if str_equal(identifier, "esmart") {
            Some(Broker::Esmart)
        } else {
            None
        }
    }
}

/// A broker's stored identifier reads back as that broker.
pub proof fn lemma_identifier_round_trip(b: Broker)
    ensures
        broker_for_identifier(broker_identifier_text(b)) == Some(b),
{
    reveal_strlit("sbi");
    reveal_strlit("esmart");
    assert("sbi"@.len() != "esmart"@.len());
}

/// The name shown for a stored broker identifier: the broker's display name
/// when the identifier is known, else the identifier itself.
pub open spec fn display_text_for_identifier(s: Seq<char>) -> Seq<char> {
    match broker_for_identifier(s) {
        Some(b) => broker_display_text(b),
        None => s,
    }
}

pub fn display_name_for_identifier(identifier: &str) -> (r: String)
    ensures
        r@ == display_text_for_identifier(identifier@),
{
    match Broker::from_identifier(identifier) {
        Some(b) => b.display_name().to_owned(),
        None => identifier.to_owned(),
    }
}

/// Whether a trade bought or sold.
#[derive(Clone, Copy, Debug, PartialEq, Eq, Structural)]
pub enum TradeSide {
    Buy,
    Sell,
}

pub open spec fn side_identifier_text(s: TradeSide) -> Seq<char> {
    match s {
        TradeSide::Buy => "buy"@,
        TradeSide::Sell => "sell"@,
    }
}

impl TradeSide {
    pub fn identifier(&self) -> (r: &'static str)
        ensures
            r@ == side_identifier_text(*self),
    {
        match self {
            TradeSide::Buy => "buy",
            TradeSide::Sell => "sell",
        }
    }
}

/// One holding read from a holdings CSV, before it is stored.
#[derive(Clone, Debug)]
pub struct ParsedHolding {
    pub account_type: String,
    pub stock_code: String,
    pub stock_name: String,
    pub quantity: Amount,
    pub average_acquisition_price: Option<Amount>,
    pub current_price: Option<Amount>,
    pub market_value: Option<Amount>,
    pub acquisition_cost: Option<Amount>,
    pub profit_loss: Option<Amount>,
    pub profit_loss_rate: Option<Amount>,
    /// The 33-sector classification (only SBI files carry it).
    pub sector_33: Option<String>,
    pub sector_detail: Option<String>,
}

/// The mathematical content of a `ParsedHolding`.
pub struct HoldingModel {
    pub account_type: Seq<char>,
    pub stock_code: Seq<char>,
    pub stock_name: Seq<char>,
    pub quantity: Amount,
    pub average_acquisition_price: Option<Amount>,
    pub current_price: Option<Amount>,
    pub market_value: Option<Amount>,
    pub acquisition_cost: Option<Amount>,
    pub profit_loss: Option<Amount>,
    pub profit_loss_rate: Option<Amount>,
    pub sector_33: Option<Seq<char>>,
    pub sector_detail: Option<Seq<char>>,
}

impl DeepView for ParsedHolding {
    type V = HoldingModel;

    open spec fn deep_view(&self) -> HoldingModel {
        HoldingModel {
            account_type: self.account_type@,
            stock_code: self.stock_code@,
            stock_name: self.stock_name@,
            quantity: self.quantity,
            average_acquisition_price: self.average_acquisition_price,
            current_price: self.current_price,
            market_value: self.market_value,
            acquisition_cost: self.acquisition_cost,
            profit_loss: self.profit_loss,
            profit_loss_rate: self.profit_loss_rate,
            sector_33: self.sector_33.deep_view(),
            sector_detail: self.sector_detail.deep_view(),
        }
    }
}

/// The holdings of one CSV file.
#[derive(Debug)]
pub struct ParsedSnapshot {
    pub broker: Broker,
    /// The date the file itself states, when it states one.
    pub snapshot_date: Option<CalendarDate>,
    pub holdings: Vec<ParsedHolding>,
}

/// What a holdings import reports back.
#[derive(Debug)]
pub struct ImportSummary {
    pub broker_display_name: String,
    pub snapshot_date: String,
    pub imported_row_count: usize,
    /// Whether data for the same date and broker was replaced.
    pub replaced_existing: bool,
}

/// One stock offered for per-stock analysis.
#[derive(Debug)]
pub struct StockListItem {
    pub stock_code: String,
    pub stock_name: String,
    pub sector_33: Option<String>,
    /// Whether the latest snapshot holds it.
    pub is_currently_held: bool,
}

/// One row of the holdings list: a holding of a broker's latest snapshot.
#[derive(Debug)]
pub struct HoldingRecord {
    /// The broker's identifier (`sbi`, `esmart`).
    pub broker: String,
    pub broker_display_name: String,
    pub snapshot_date: String,
    pub account_type: String,
    pub stock_code: String,
    pub stock_name: String,
    pub quantity: Amount,
    pub average_acquisition_price: Option<Amount>,
    pub current_price: Option<Amount>,
    pub market_value: Option<Amount>,
    pub profit_loss: Option<Amount>,
    pub profit_loss_rate: Option<Amount>,
    pub sector_33: Option<String>,
}

/// One day of the asset history: the totals of that day's holdings.
#[derive(Debug)]
pub struct AssetHistoryPoint {
    pub snapshot_date: String,
    pub total_market_value: Amount,
    pub total_profit_loss: Amount,
}

/// One day of a stock's history, across brokers and accounts.
#[derive(Debug)]
pub struct StockHistoryPoint {
    pub snapshot_date: String,
    pub total_quantity: Amount,
    /// The highest current price recorded that day.
    pub current_price: Option<Amount>,
    pub total_market_value: Amount,
    pub total_profit_loss: Amount,
}

/// One stock of the composition: its market value in the latest snapshots.
#[derive(Debug)]
pub struct CompositionItem {
    pub stock_code: String,
    pub stock_name: String,
    pub sector_33: Option<String>,
    pub total_market_value: Amount,
}

/// One import shown on the import-history screen.
#[derive(Debug)]
pub struct ImportBatchSummary {
    pub batch_id: i64,
    pub broker_display_name: String,
    pub snapshot_date: String,
    pub source_file_name: Option<String>,
    pub imported_at: String,
    pub holding_count: i64,
}

/// One trade read from a trade-history CSV, before it is stored.
#[derive(Clone, Debug)]
pub struct ParsedTrade {
    pub trade_date: CalendarDate,
    pub settlement_date: Option<CalendarDate>,
    pub market: Option<String>,
    pub stock_code: String,
    pub stock_name: String,
    pub side: TradeSide,
    pub quantity: Amount,
    pub price: Option<Amount>,
    pub settlement_amount: Option<Amount>,
    pub commission: Option<Amount>,
    pub account_type: String,
    /// Realized profit (e-smart sell rows only).
    pub realized_profit_loss: Option<Amount>,
}

pub struct TradeModel {
    pub trade_date: CalendarDate,
    pub settlement_date: Option<CalendarDate>,
    pub market: Option<Seq<char>>,
    pub stock_code: Seq<char>,
    pub stock_name: Seq<char>,
    pub side: TradeSide,
    pub quantity: Amount,
    pub price: Option<Amount>,
    pub settlement_amount: Option<Amount>,
    pub commission: Option<Amount>,
    pub account_type: Seq<char>,
    pub realized_profit_loss: Option<Amount>,
}

impl DeepView for ParsedTrade {
    type V = TradeModel;

    open spec fn deep_view(&self) -> TradeModel {
        TradeModel {
            trade_date: self.trade_date,
            settlement_date: self.settlement_date,
            market: self.market.deep_view(),
            stock_code: self.stock_code@,
            stock_name: self.stock_name@,
            side: self.side,
            quantity: self.quantity,
            price: self.price,
            settlement_amount: self.settlement_amount,
            commission: self.commission,
            account_type: self.account_type@,
            realized_profit_loss: self.realized_profit_loss,
        }
    }
}

/// The trades of one trade-history CSV file.
#[derive(Debug)]
pub struct ParsedTradeFile {
    pub broker: Broker,
    pub trades: Vec<ParsedTrade>,
}

/// What a trade-history import reports back.
#[derive(Debug)]
pub struct TradeImportSummary {
    pub broker_display_name: String,
    pub new_trade_count: usize,
    /// Trades already stored and skipped.
    pub duplicate_trade_count: usize,
    pub earliest_trade_date: Option<String>,
    pub latest_trade_date: Option<String>,
}

/// One sale read from a realized-profit statement CSV, before it is stored.
#[derive(Clone, Debug)]
pub struct ParsedRealizedPnl {
    pub trade_date: CalendarDate,
    pub settlement_date: Option<CalendarDate>,
    pub stock_code: String,
    pub stock_name: String,
    pub quantity: Amount,
    pub sell_amount: Option<Amount>,
    pub acquisition_date: Option<CalendarDate>,
    pub acquisition_amount: Option<Amount>,
    pub realized_profit_loss: Amount,
}

pub struct RealizedPnlModel {
    pub trade_date: CalendarDate,
    pub settlement_date: Option<CalendarDate>,
    pub stock_code: Seq<char>,
    pub stock_name: Seq<char>,
    pub quantity: Amount,
    pub sell_amount: Option<Amount>,
    pub acquisition_date: Option<CalendarDate>,
    pub acquisition_amount: Option<Amount>,
    pub realized_profit_loss: Amount,
}

impl DeepView for ParsedRealizedPnl {
    type V = RealizedPnlModel;

    open spec fn deep_view(&self) -> RealizedPnlModel {
        RealizedPnlModel {
            trade_date: self.trade_date,
            settlement_date: self.settlement_date,
            stock_code: self.stock_code@,
            stock_name: self.stock_name@,
            quantity: self.quantity,
            sell_amount: self.sell_amount,
            acquisition_date: self.acquisition_date,
            acquisition_amount: self.acquisition_amount,
            realized_profit_loss: self.realized_profit_loss,
        }
    }
}

/// The sales of one realized-profit statement CSV file.
#[derive(Debug)]
pub struct ParsedRealizedPnlFile {
    pub broker: Broker,
    pub records: Vec<ParsedRealizedPnl>,
}

/// What a realized-profit import reports back.
#[derive(Debug)]
pub struct RealizedPnlImportSummary {
    pub broker_display_name: String,
    pub new_record_count: usize,
    pub duplicate_record_count: usize,
    pub total_realized_profit_loss: Amount,
    pub earliest_trade_date: Option<String>,
    pub latest_trade_date: Option<String>,
}

/// The outcome of an import whose kind was told from the file's content.
#[derive(Debug)]
pub enum CsvImportOutcome {
    Holdings(ImportSummary),
    Trade(TradeImportSummary),
    RealizedPnl(RealizedPnlImportSummary),
}

/// One month of realized profit, with the running total up to that month.
#[derive(Debug)]
pub struct MonthlyRealizedPnlPoint {
    /// `YYYY-MM`
    pub month: String,
    pub realized_profit_loss: Amount,
    pub cumulative_total_profit_loss: Amount,
}

/// The realized profit of one stock, for the ranking.
#[derive(Debug)]
pub struct StockRealizedPnlItem {
    pub stock_code: String,
    pub stock_name: String,
    pub realized_profit_loss: Amount,
    pub sell_trade_count: i64,
}

/// One row of the trade list.
#[derive(Debug)]
pub struct TradeListItem {
    pub broker_display_name: String,
    pub trade_date: String,
    pub stock_code: String,
    pub stock_name: String,
    /// `buy` or `sell`
    pub side: String,
    pub quantity: Amount,
    pub price: Option<Amount>,
    pub settlement_amount: Option<Amount>,
    pub account_type: String,
    /// The confirmed realized profit, when it is known.
    pub realized_profit_loss: Option<Amount>,
}

/// Everything the trade-analysis screen shows.
#[derive(Debug)]
pub struct TradeAnalysis {
    pub total_realized_profit_loss: Amount,
    pub total_commission: Amount,
    pub buy_trade_count: i64,
    pub sell_trade_count: i64,
    /// Sales with a known profit that gained.
    pub winning_sell_count: i64,
    /// Sales with a known profit.
    pub sell_count_with_known_pnl: i64,
    /// SBI sales whose statement has not been imported.
    pub unknown_pnl_sell_count: i64,
    pub monthly_points: Vec<MonthlyRealizedPnlPoint>,
    pub stock_items: Vec<StockRealizedPnlItem>,
    pub recent_trades: Vec<TradeListItem>,
}

} // verus!
