//! Trade-history CSV import (e-smart `TradeKabu.csv`, SBI `SaveFile` trade
//! history): header rows are found by their column names and each row under
//! a header becomes a trade.

use vstd::prelude::*;

use crate::amount::Amount;
use crate::broker_profile::texts_view;
use crate::csv_import::{
    account_type_field, account_type_spec, csv_rows_of, decode_csv_bytes, decoded_csv_text,
    header_view, nonempty_field, nonempty_field_spec, nonempty_field_string, read_records,
    CsvImportError, account_text_at, nonblank_text_at,
};
use crate::date::{chrono_parsed_date, parse_date_chars, CalendarDate};
use crate::models::{Broker, ParsedTrade, ParsedTradeFile, TradeModel, TradeSide};
use crate::records::{
    build_header_index_map, field_text, field_text_spec, lemma_scan_end, lemma_scan_step,
    numeric_field, numeric_field_spec, record_has_columns, row_has_columns, scan_outcome, scan_rows,
    CsvRecord, HeaderIndex, RowModel, ScanOutcome, lemma_named_cell, no_column, number_at, only_column,
    text_at,
};
use crate::text::{contains_chars, contains_seq, has_char, str_chars, string_from_chars, trim, trim_chars};

verus! {

/// A trade-history CSV is one that mentions a trade date column (`約定日`).
pub open spec fn is_trade_csv_text(text: Seq<char>) -> bool {
    contains_seq(text, "約定日"@)
}

pub fn looks_like_trade_csv(csv_text: &str) -> (r: bool)
    ensures
        r == is_trade_csv_text(csv_text@),
{
    let t = str_chars(csv_text);
    let w = str_chars("約定日");
    contains_chars(&t, &w)
}

/// The broker of a trade history: e-smart files have the `売買区分` and
/// `売買損益` columns, SBI files the `約定数量` and `預り` columns.
pub open spec fn detected_trade_broker(text: Seq<char>) -> Option<Broker> {
    if contains_seq(text, "売買区分"@) && contains_seq(text, "売買損益"@) {
        Some(Broker::Esmart)
    } else if contains_seq(text, "約定数量"@) && contains_seq(text, "預り"@) {
        Some(Broker::Sbi)
    } else {
        None
    }
}

fn text_contains(text: &[char], word: &str) -> (r: bool)
    ensures
        r == contains_seq(text@, word@),
{
    let w = str_chars(word);
    contains_chars(text, &w)
}

pub fn detect_trade_broker(csv_text: &str) -> (r: Option<Broker>)
    ensures
        r == detected_trade_broker(csv_text@),
{
    let t = str_chars(csv_text);
    if text_contains(&t, "売買区分") && text_contains(&t, "売買損益") {
        return Some(Broker::Esmart);
    }
    if text_contains(&t, "約定数量") && text_contains(&t, "預り") {
        return Some(Broker::Sbi);
    }
    None
}

/// A trade date written `2026/07/10` or `2026-07-10` (after trimming), as
/// the date library reads those formats.
pub open spec fn trade_date_spec(raw: Seq<char>) -> Option<CalendarDate> {
    match chrono_parsed_date(trim(raw), "%Y/%m/%d"@) {
        Some(d) => Some(d),
        None => chrono_parsed_date(trim(raw), "%Y-%m-%d"@),
    }
}

pub fn parse_trade_date(raw_text: &[char]) -> (r: Option<CalendarDate>)
    ensures
        r == trade_date_spec(raw_text@),
        r matches Some(d) ==> d.is_valid(),
{
    let t = trim_chars(raw_text);
    match parse_date_chars(&t, "%Y/%m/%d") {
        Some(d) => Some(d),
        None => parse_date_chars(&t, "%Y-%m-%d"),
    }
}

/// The date in the cell under `name`.
pub open spec fn date_field_spec(cols: Seq<Seq<char>>, rec: RowModel, name: Seq<char>) -> Option<
    CalendarDate,
> {
    match field_text_spec(cols, rec, name) {
        Some(t) => trade_date_spec(t),
        None => None,
    }
}

fn date_field(record: &CsvRecord, header: &HeaderIndex, name: &str) -> (r: Option<CalendarDate>)
    ensures
        r == date_field_spec(header@, record.deep_view(), name@),
        r matches Some(d) ==> d.is_valid(),
{
    match field_text(record, header, name) {
        Some(t) => {
            assert(t.deep_view() =~= t@);
            parse_trade_date(&t)
        },
        None => None,
    }
}

/// Buy when the text holds `買`, else sell when it holds `売`.
pub open spec fn side_from_text(t: Seq<char>) -> Option<TradeSide> {
    if t.contains('買') {
        Some(TradeSide::Buy)
    } else if t.contains('売') {
        Some(TradeSide::Sell)
    } else {
        None
    }
}

pub open spec fn side_field_spec(cols: Seq<Seq<char>>, rec: RowModel, name: Seq<char>) -> Option<
    TradeSide,
> {
    match field_text_spec(cols, rec, name) {
        Some(t) => side_from_text(t),
        None => None,
    }
}

fn side_field(record: &CsvRecord, header: &HeaderIndex, name: &str) -> (r: Option<TradeSide>)
    ensures
        r == side_field_spec(header@, record.deep_view(), name@),
{
    match field_text(record, header, name) {
        Some(t) => {
            assert(t.deep_view() =~= t@);
            if has_char(&t, '買') {
                Some(TradeSide::Buy)
            } else if has_char(&t, '売') {
                Some(TradeSide::Sell)
            } else {
                None
            }
        },
        None => None,
    }
}

/// The trimmed cell under `name`, or the empty text.
pub open spec fn text_or_empty_spec(cols: Seq<Seq<char>>, rec: RowModel, name: Seq<char>) -> Seq<
    char,
> {
    match field_text_spec(cols, rec, name) {
        Some(t) => t,
        None => Seq::<char>::empty(),
    }
}

fn text_or_empty(record: &CsvRecord, header: &HeaderIndex, name: &str) -> (r: String)
    ensures
        r@ == text_or_empty_spec(header@, record.deep_view(), name@),
{
    match field_text(record, header, name) {
        Some(t) => {
            assert(t.deep_view() =~= t@);
            string_from_chars(&t)
        },
        None => string_from_chars(&[]),
    }
}

/// The column names of a trade history's header, and how its rows are read.
pub struct TradeLayout {
    pub code_column: &'static str,
    pub side_column: &'static str,
    pub quantity_column: &'static str,
    pub name_column: &'static str,
    pub price_column: &'static str,
    pub amount_column: &'static str,
    pub commission_column: &'static str,
    pub account_column: &'static str,
    /// The realized-profit column, read on sell rows (e-smart only).
    pub profit_column: Option<&'static str>,
}

pub open spec fn trade_layout_of(b: Broker) -> (Seq<char>, Seq<char>, Seq<char>, Seq<char>, Seq<char>, Seq<char>, Seq<char>, Seq<char>, Option<Seq<char>>) {
    match b {
        Broker::Esmart => (
            "銘柄コード"@,
            "売買区分"@,
            "数量"@,
            "銘柄名"@,
            "単価"@,
            "受渡金額"@,
            "手数料"@,
            "口座区分"@,
            Some("売買損益"@),
        ),
        Broker::Sbi => (
            "銘柄コード"@,
            "取引"@,
            "約定数量"@,
            "銘柄"@,
            "約定単価"@,
            "受渡金額/決済損益"@,
            "手数料/諸経費等"@,
            "預り"@,
            None,
        ),
    }
}

impl TradeLayout {
    pub open spec fn is_layout_of(&self, b: Broker) -> bool {
        let l = trade_layout_of(b);
        &&& self.code_column@ == l.0
        &&& self.side_column@ == l.1
        &&& self.quantity_column@ == l.2
        &&& self.name_column@ == l.3
        &&& self.price_column@ == l.4
        &&& self.amount_column@ == l.5
        &&& self.commission_column@ == l.6
        &&& self.account_column@ == l.7
        &&& match (self.profit_column, l.8) {
            (Some(a), Some(b)) => a@ == b,
            (None, None) => true,
            _ => false,
        }
    }
}

pub fn trade_layout(b: Broker) -> (r: TradeLayout)
    ensures
        r.is_layout_of(b),
{
    match b {
        Broker::Esmart => TradeLayout {
            code_column: "銘柄コード",
            side_column: "売買区分",
            quantity_column: "数量",
            name_column: "銘柄名",
            price_column: "単価",
            amount_column: "受渡金額",
            commission_column: "手数料",
            account_column: "口座区分",
            profit_column: Some("売買損益"),
        },
        Broker::Sbi => TradeLayout {
            code_column: "銘柄コード",
            side_column: "取引",
            quantity_column: "約定数量",
            name_column: "銘柄",
            price_column: "約定単価",
            amount_column: "受渡金額/決済損益",
            commission_column: "手数料/諸経費等",
            account_column: "預り",
            profit_column: None,
        },
    }
}

/// A trade-history row as a trade: it needs a trade date (`約定日`), a stock
/// code, a side and a quantity under the broker's columns; the realized
/// profit is read on sell rows where the broker has that column.
pub open spec fn trade_spec(b: Broker, cols: Seq<Seq<char>>, rec: RowModel) -> Option<TradeModel> {
    let l = trade_layout_of(b);
    match (
        date_field_spec(cols, rec, "約定日"@),
        nonempty_field_spec(cols, rec, l.0),
        side_field_spec(cols, rec, l.1),
        numeric_field_spec(cols, rec, l.2),
    ) {
        (Some(trade_date), Some(code), Some(side), Some(quantity)) => Some(
            TradeModel {
                trade_date,
                settlement_date: date_field_spec(cols, rec, "受渡日"@),
                market: nonempty_field_spec(cols, rec, "市場"@),
                stock_code: code,
                stock_name: text_or_empty_spec(cols, rec, l.3),
                side,
                quantity,
                price: numeric_field_spec(cols, rec, l.4),
                settlement_amount: numeric_field_spec(cols, rec, l.5),
                commission: numeric_field_spec(cols, rec, l.6),
                account_type: account_type_spec(cols, rec, l.7),
                realized_profit_loss: match (side, l.8) {
                    (TradeSide::Sell, Some(p)) => numeric_field_spec(cols, rec, p),
                    _ => None,
                },
            },
        ),
        _ => None,
    }
}

pub open spec fn trade_reader(b: Broker) -> spec_fn(Seq<Seq<char>>, RowModel) -> Option<TradeModel> {
    |cols: Seq<Seq<char>>, rec: RowModel| trade_spec(b, cols, rec)
}

/// Reads one trade row under the broker's layout (`trade_spec`).
pub fn parse_trade_row(layout: &TradeLayout, b: Broker, record: &CsvRecord, header: &HeaderIndex) -> (r:
    Option<ParsedTrade>)
    requires
        layout.is_layout_of(b),
    ensures
        r.deep_view() == trade_spec(b, header@, record.deep_view()),
        r matches Some(t) ==> t.trade_date.is_valid() && (t.settlement_date matches Some(d)
            ==> d.is_valid()),
{
    let trade_date = match date_field(record, header, "約定日") {
        Some(d) => d,
        None => return None,
    };
    let stock_code = match nonempty_field(record, header, layout.code_column) {
        Some(c) => c,
        None => return None,
    };
    let side = match side_field(record, header, layout.side_column) {
        Some(s) => s,
        None => return None,
    };
    let quantity = match numeric_field(record, header, layout.quantity_column) {
        Some(q) => q,
        None => return None,
    };
    let realized_profit_loss = match (side, layout.profit_column) {
        (TradeSide::Sell, Some(p)) => numeric_field(record, header, p),
        _ => None,
    };
    Some(
        ParsedTrade {
            trade_date,
            settlement_date: date_field(record, header, "受渡日"),
            market: nonempty_field_string(record, header, "市場"),
            stock_code: string_from_chars(&stock_code),
            stock_name: text_or_empty(record, header, layout.name_column),
            side,
            quantity,
            price: numeric_field(record, header, layout.price_column),
            settlement_amount: numeric_field(record, header, layout.amount_column),
            commission: numeric_field(record, header, layout.commission_column),
            account_type: account_type_field(record, header, layout.account_column),
            realized_profit_loss,
        },
    )
}

/// A side text names a buy when it holds 買, a sell when it holds 売 and not
/// 買 (株式現物売, 売), and no side when it holds neither.
pub proof fn lemma_side_from_text(t: Seq<char>)
    ensures
        t.contains('買') ==> side_from_text(t) == Some(TradeSide::Buy),
        (t.contains('売') && !t.contains('買')) ==> side_from_text(t) == Some(TradeSide::Sell),
        (!t.contains('売') && !t.contains('買')) ==> side_from_text(t) is None,
{
}

/// A trade date read from a cell: the cell's text read as a date.
pub open spec fn date_at(rec: RowModel, k: int) -> Option<CalendarDate> {
    match text_at(rec, k) {
        Some(t) => trade_date_spec(t),
        None => None,
    }
}

/// A cell's trimmed text, or the empty text when the row ends before it.
pub open spec fn text_or_blank_at(rec: RowModel, k: int) -> Seq<char> {
    match text_at(rec, k) {
        Some(t) => t,
        None => Seq::<char>::empty(),
    }
}

/// An SBI trade row becomes a trade whose values come from the cells under
/// the columns of their own names: the trade date under 約定日, the code
/// under 銘柄コード, the name under 銘柄, the side under 取引, the quantity
/// under 約定数量, the unit price under 約定単価, the settlement amount
/// under 受渡金額/決済損益, the fees under 手数料/諸経費等, the account under
/// 預り, the settlement date under 受渡日; an SBI trade row carries no
/// realized profit.
pub proof fn lemma_sbi_trade_reads_named_cells(cols: Seq<Seq<char>>, rec: RowModel, k: int)
    ensures
        trade_spec(Broker::Sbi, cols, rec) matches Some(t) ==> {
            &&& only_column(cols, "約定日"@, k) ==> date_at(rec, k) == Some(t.trade_date)
            &&& only_column(cols, "受渡日"@, k) ==> t.settlement_date == date_at(rec, k)
            &&& only_column(cols, "市場"@, k) ==> t.market == nonblank_text_at(rec, k)
            &&& only_column(cols, "銘柄コード"@, k) ==> text_at(rec, k) == Some(t.stock_code)
            &&& only_column(cols, "銘柄"@, k) ==> t.stock_name == text_or_blank_at(rec, k)
            &&& only_column(cols, "取引"@, k) ==> (text_at(rec, k) matches Some(x) && side_from_text(x)
                == Some(t.side))
            &&& only_column(cols, "約定数量"@, k) ==> number_at(rec, k) == Some(t.quantity)
            &&& only_column(cols, "約定単価"@, k) ==> t.price == number_at(rec, k)
            &&& only_column(cols, "受渡金額/決済損益"@, k) ==> t.settlement_amount == number_at(rec, k)
            &&& only_column(cols, "手数料/諸経費等"@, k) ==> t.commission == number_at(rec, k)
            &&& only_column(cols, "預り"@, k) ==> t.account_type == account_text_at(rec, k)
            &&& no_column(cols, "約定単価"@) ==> t.price is None
            &&& t.realized_profit_loss is None
        },
{
    lemma_named_cell(cols, rec, "約定日"@, k);
    lemma_named_cell(cols, rec, "受渡日"@, k);
    lemma_named_cell(cols, rec, "市場"@, k);
    lemma_named_cell(cols, rec, "銘柄コード"@, k);
    lemma_named_cell(cols, rec, "銘柄"@, k);
    lemma_named_cell(cols, rec, "取引"@, k);
    lemma_named_cell(cols, rec, "約定数量"@, k);
    lemma_named_cell(cols, rec, "約定単価"@, k);
    lemma_named_cell(cols, rec, "受渡金額/決済損益"@, k);
    lemma_named_cell(cols, rec, "手数料/諸経費等"@, k);
    lemma_named_cell(cols, rec, "預り"@, k);
}

/// An e-smart trade row becomes a trade whose values come from the cells
/// under the columns of their own names: the trade date under 約定日, the
/// code under 銘柄コード, the name under 銘柄名, the side under 売買区分, the
/// quantity under 数量, the unit price under 単価, the settlement amount
/// under 受渡金額, the commission under 手数料, the account under 口座区分;
/// a sell row carries the realized profit under 売買損益 and a buy row none.
pub proof fn lemma_esmart_trade_reads_named_cells(cols: Seq<Seq<char>>, rec: RowModel, k: int)
    ensures
        trade_spec(Broker::Esmart, cols, rec) matches Some(t) ==> {
            &&& only_column(cols, "約定日"@, k) ==> date_at(rec, k) == Some(t.trade_date)
            &&& only_column(cols, "受渡日"@, k) ==> t.settlement_date == date_at(rec, k)
            &&& only_column(cols, "市場"@, k) ==> t.market == nonblank_text_at(rec, k)
            &&& only_column(cols, "銘柄コード"@, k) ==> text_at(rec, k) == Some(t.stock_code)
            &&& only_column(cols, "銘柄名"@, k) ==> t.stock_name == text_or_blank_at(rec, k)
            &&& only_column(cols, "売買区分"@, k) ==> (text_at(rec, k) matches Some(x) && side_from_text(x)
                == Some(t.side))
            &&& only_column(cols, "数量"@, k) ==> number_at(rec, k) == Some(t.quantity)
            &&& only_column(cols, "単価"@, k) ==> t.price == number_at(rec, k)
            &&& only_column(cols, "受渡金額"@, k) ==> t.settlement_amount == number_at(rec, k)
            &&& only_column(cols, "手数料"@, k) ==> t.commission == number_at(rec, k)
            &&& only_column(cols, "口座区分"@, k) ==> t.account_type == account_text_at(rec, k)
            &&& (t.side == TradeSide::Sell && only_column(cols, "売買損益"@, k))
                ==> t.realized_profit_loss == number_at(rec, k)
            &&& t.side == TradeSide::Buy ==> t.realized_profit_loss is None
            &&& no_column(cols, "単価"@) ==> t.price is None
        },
{
    lemma_named_cell(cols, rec, "約定日"@, k);
    lemma_named_cell(cols, rec, "受渡日"@, k);
    lemma_named_cell(cols, rec, "市場"@, k);
    lemma_named_cell(cols, rec, "銘柄コード"@, k);
    lemma_named_cell(cols, rec, "銘柄名"@, k);
    lemma_named_cell(cols, rec, "売買区分"@, k);
    lemma_named_cell(cols, rec, "数量"@, k);
    lemma_named_cell(cols, rec, "単価"@, k);
    lemma_named_cell(cols, rec, "受渡金額"@, k);
    lemma_named_cell(cols, rec, "手数料"@, k);
    lemma_named_cell(cols, rec, "口座区分"@, k);
    lemma_named_cell(cols, rec, "売買損益"@, k);
}

/// The columns that mark a trade-history header row.
pub open spec fn trade_header_columns_of(b: Broker) -> Seq<Seq<char>> {
    match b {
        Broker::Esmart => seq!["約定日"@, "銘柄コード"@, "売買区分"@, "数量"@],
        Broker::Sbi => seq!["約定日"@, "銘柄コード"@, "取引"@, "約定数量"@],
    }
}

fn trade_header_columns(b: Broker) -> (r: &'static [&'static str])
    ensures
        texts_view(r@) == trade_header_columns_of(b),
{
    match b {
        Broker::Esmart => {
            let r: &'static [&'static str] = &["約定日", "銘柄コード", "売買区分", "数量"];
            assert(texts_view(r@) =~= trade_header_columns_of(b));
            r
        },
        Broker::Sbi => {
            let r: &'static [&'static str] = &["約定日", "銘柄コード", "取引", "約定数量"];
            assert(texts_view(r@) =~= trade_header_columns_of(b));
            r
        },
    }
}

/// A trade-file result agrees with a scan outcome.
pub open spec fn trade_result_is(
    r: Result<ParsedTradeFile, CsvImportError>,
    broker: Broker,
    outcome: ScanOutcome<TradeModel>,
) -> bool {
    match outcome {
        ScanOutcome::HeaderNotFound => r matches Err(CsvImportError::HeaderNotFound),
        ScanOutcome::NoDataRows => r matches Err(CsvImportError::NoDataRows),
        ScanOutcome::Items(items) => r matches Ok(f) && f.broker == broker && f.trades.deep_view()
            == items,
    }
}

/// Every trade of the file carries valid dates.
pub open spec fn trades_have_valid_dates(trades: Seq<ParsedTrade>) -> bool {
    forall|i: int|
        0 <= i < trades.len() ==> (#[trigger] trades[i]).trade_date.is_valid() && (
        trades[i].settlement_date matches Some(d) ==> d.is_valid())
}

/// Reads the trades of a broker's trade history from its rows.
pub fn parse_trade_records(b: Broker, records: &[CsvRecord]) -> (r: Result<
    ParsedTradeFile,
    CsvImportError,
>)
    ensures
        trade_result_is(
            r,
            b,
            scan_outcome(records.deep_view(), trade_header_columns_of(b), trade_reader(b)),
        ),
        r matches Ok(f) ==> trades_have_valid_dates(f.trades@),
{
    let layout = trade_layout(b);
    let required = trade_header_columns(b);
    let ghost rows = records.deep_view();
    let ghost req = trade_header_columns_of(b);
    let ghost reader = trade_reader(b);
    let mut trades: Vec<ParsedTrade> = Vec::new();
    let mut header: Option<HeaderIndex> = None;
    let mut i: usize = 0;
    assert(rows.skip(0) =~= rows);
    assert(trades.deep_view() + scan_rows(rows, req, None, reader) =~= scan_rows(rows, req, None, reader));
    while i < records.len()
        invariant
            rows == records.deep_view(),
            req == trade_header_columns_of(b),
            texts_view(required@) == req,
            layout.is_layout_of(b),
            reader == trade_reader(b),
            i <= rows.len(),
            scan_rows(rows, req, None, reader) == trades.deep_view() + scan_rows(
                rows.skip(i as int),
                req,
                header_view(header),
                reader,
            ),
            header is Some <==> exists|k: int| 0 <= k < i && row_has_columns(#[trigger] rows[k], req),
            trades_have_valid_dates(trades@),
        decreases rows.len() - i,
    {
        proof {
            lemma_scan_step(rows, i as int, req, header_view(header), reader);
        }
        let ghost before = trades.deep_view();
        if record_has_columns(&records[i], required) {
            header = Some(build_header_index_map(&records[i]));
        } else {
            match &header {
                Some(h) => {
                    match parse_trade_row(&layout, b, &records[i], h) {
                        Some(x) => {
                            trades.push(x);
                            assert(trades.deep_view() =~= before + seq![x.deep_view()]);
                        },
                        None => {},
                    }
                },
                None => {},
            }
        }
        i = i + 1;
    }
    proof {
        lemma_scan_end(rows, req, header_view(header), reader);
        assert(trades.deep_view() + Seq::<TradeModel>::empty() =~= trades.deep_view());
    }
    if header.is_none() {
        return Err(CsvImportError::HeaderNotFound);
    }
    if trades.len() == 0 {
        return Err(CsvImportError::NoDataRows);
    }
    Ok(ParsedTradeFile { broker: b, trades })
}

/// Reads an e-smart trade history (`TradeKabu.csv`) from its rows.
pub fn parse_esmart_trades(records: &[CsvRecord]) -> (r: Result<ParsedTradeFile, CsvImportError>)
    ensures
        trade_result_is(
            r,
            Broker::Esmart,
            scan_outcome(
                records.deep_view(),
                trade_header_columns_of(Broker::Esmart),
                trade_reader(Broker::Esmart),
            ),
        ),
{
    parse_trade_records(Broker::Esmart, records)
}

/// Reads an SBI trade history from its rows.
pub fn parse_sbi_trades(records: &[CsvRecord]) -> (r: Result<ParsedTradeFile, CsvImportError>)
    ensures
        trade_result_is(
            r,
            Broker::Sbi,
            scan_outcome(
                records.deep_view(),
                trade_header_columns_of(Broker::Sbi),
                trade_reader(Broker::Sbi),
            ),
        ),
{
    parse_trade_records(Broker::Sbi, records)
}

/// Reads a trade-history CSV file from its bytes: decodes them, tells the
/// broker from the text, reads the rows, and reads the trades.
pub fn parse_trade_csv(raw_bytes: &[u8]) -> (r: Result<ParsedTradeFile, CsvImportError>)
    requires
        raw_bytes@.len() * 4 + 16 <= usize::MAX,
    ensures
        ({
            let text = decoded_csv_text(raw_bytes@);
            match detected_trade_broker(text) {
                None => r matches Err(CsvImportError::UnknownBroker),
                Some(b) => trade_result_is(
                    r,
                    b,
                    scan_outcome(csv_rows_of(text), trade_header_columns_of(b), trade_reader(b)),
                ),
            }
        }),
        !(r matches Err(CsvImportError::CsvRead(_))),
        r matches Ok(f) ==> trades_have_valid_dates(f.trades@),
{
    let csv_text = decode_csv_bytes(raw_bytes);
    let broker = match detect_trade_broker(csv_text.as_str()) {
        Some(b) => b,
        None => return Err(CsvImportError::UnknownBroker),
    };
    let all_records = match read_records(csv_text.as_str()) {
        Ok(rows) => rows,
        Err(e) => return Err(e),
    };
    parse_trade_records(broker, all_records.as_slice())
}

} // verus!
