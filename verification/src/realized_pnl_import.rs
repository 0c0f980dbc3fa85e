//! Import of SBI's realized-profit statement CSV (特定口座損益明細): each
//! sale row under the detail header becomes a realized-profit record.

use vstd::prelude::*;

use crate::amount::{parse_decimal, parse_decimal_spec, Amount};
use crate::broker_profile::texts_view;
use crate::csv_import::{
    csv_rows_of, decode_csv_bytes, decoded_csv_text, header_view, read_records, CsvImportError,
};
use crate::date::{chrono_parsed_date, parse_date_chars, CalendarDate};
use crate::models::{Broker, ParsedRealizedPnl, ParsedRealizedPnlFile, RealizedPnlModel};
use crate::records::{
    build_header_index_map, field_text, field_text_spec, is_dash_placeholder, lemma_scan_end,
    lemma_scan_step, record_has_columns, row_has_columns, scan_outcome, scan_rows, strip_chars_in,
    without_chars_in, CsvRecord, HeaderIndex, RowModel, ScanOutcome,
};
use crate::text::{
    contains_chars, contains_seq, has_char, str_chars, string_from_chars, trim, trim_chars,
    trim_matches_char, trim_matches_chars,
};

verus! {

/// A realized-profit statement mentions the `損益金額/徴収額` column and
/// either its title `特定口座損益明細` or the `譲渡益税徴収額合計` total.
pub open spec fn is_realized_pnl_text(text: Seq<char>) -> bool {
    contains_seq(text, "損益金額/徴収額"@) && (contains_seq(text, "特定口座損益明細"@)
        || contains_seq(text, "譲渡益税徴収額合計"@))
}

fn text_contains(text: &[char], word: &str) -> (r: bool)
    ensures
        r == contains_seq(text@, word@),
{
    let w = str_chars(word);
    contains_chars(text, &w)
}

pub fn looks_like_realized_pnl_csv(csv_text: &str) -> (r: bool)
    ensures
        r == is_realized_pnl_text(csv_text@),
{
    let t = str_chars(csv_text);
    text_contains(&t, "損益金額/徴収額") && (text_contains(&t, "特定口座損益明細")
        || text_contains(&t, "譲渡益税徴収額合計"))
}

/// Line separators other than LF (NEL, LINE SEPARATOR, PARAGRAPH SEPARATOR).
pub open spec fn is_other_line_break(c: char) -> bool {
    c == '\u{85}' || c == '\u{2028}' || c == '\u{2029}'
}

/// `text` with every other line separator written as LF.
pub open spec fn with_lf_newlines(text: Seq<char>) -> Seq<char> {
    text.map_values(|c: char| if is_other_line_break(c) { '\n' } else { c })
}

/// Decodes a statement's bytes as `decode_csv_bytes` does, then writes every
/// NEL, LINE SEPARATOR and PARAGRAPH SEPARATOR as LF.
pub fn decode_and_normalize_newlines(raw_bytes: &[u8]) -> (r: String)
    requires
        raw_bytes@.len() * 4 + 16 <= usize::MAX,
    ensures
        r@ == with_lf_newlines(decoded_csv_text(raw_bytes@)),
{
    let decoded = decode_csv_bytes(raw_bytes);
    let chars = str_chars(decoded.as_str());
    let mut out: Vec<char> = Vec::new();
    let mut i: usize = 0;
    while i < chars.len()
        invariant
            i <= chars@.len(),
            out@ == with_lf_newlines(chars@).take(i as int),
        decreases chars@.len() - i,
    {
        let c = chars[i];
        if c == '\u{85}' || c == '\u{2028}' || c == '\u{2029}' {
            out.push('\n');
        } else {
            out.push(c);
        }
        i = i + 1;
        assert(out@ =~= with_lf_newlines(chars@).take(i as int));
    }
    assert(with_lf_newlines(chars@).take(i as int) =~= with_lf_newlines(chars@));
    string_from_chars(&out)
}

/// The columns that mark the statement's detail header row.
pub open spec fn realized_pnl_header_columns() -> Seq<Seq<char>> {
    seq!["銘柄コード"@, "約定日"@, "取引"@, "損益金額/徴収額"@]
}

/// The characters that quantity and amount cells may carry besides the number.
pub open spec fn statement_number_decorations() -> Seq<char> {
    seq![',', '+', '株', '円', ' ', '"']
}

/// A quantity or amount cell such as `12株`, `1,234` or `--`.
pub open spec fn realized_number_spec(raw: Seq<char>) -> Option<Amount> {
    let cleaned = without_chars_in(trim(raw), statement_number_decorations());
    if cleaned.len() == 0 || cleaned == "--"@ || cleaned == "-"@ {
        None
    } else {
        parse_decimal_spec(cleaned)
    }
}

pub fn parse_realized_number(raw_text: &[char]) -> (r: Option<Amount>)
    ensures
        r == realized_number_spec(raw_text@),
{
    let t = trim_chars(raw_text);
    let drop = vec![',', '+', '株', '円', ' ', '"'];
    assert(drop@ =~= statement_number_decorations());
    let cleaned = strip_chars_in(&t, &drop);
    if cleaned.len() == 0 || is_dash_placeholder(&cleaned) {
        return None;
    }
    parse_decimal(&cleaned)
}

/// The characters that a signed profit cell may carry besides the number.
pub open spec fn signed_number_decorations() -> Seq<char> {
    seq![',', '+', ' ', '"']
}

/// A signed profit such as `+60`, `-308` or `1,234`.
pub open spec fn signed_number_spec(raw: Seq<char>) -> Option<Amount> {
    let cleaned = without_chars_in(trim(raw), signed_number_decorations());
    if cleaned.len() == 0 {
        None
    } else {
        parse_decimal_spec(cleaned)
    }
}

pub fn parse_signed_number(raw_text: &[char]) -> (r: Option<Amount>)
    ensures
        r == signed_number_spec(raw_text@),
{
    let t = trim_chars(raw_text);
    let drop = vec![',', '+', ' ', '"'];
    assert(drop@ =~= signed_number_decorations());
    let cleaned = strip_chars_in(&t, &drop);
    if cleaned.len() == 0 {
        return None;
    }
    parse_decimal(&cleaned)
}

/// Trimmed, then without quotes at either end, then trimmed again.
pub open spec fn unquoted(raw: Seq<char>) -> Seq<char> {
    trim(trim_matches_char(trim(raw), '"'))
}

fn unquote(raw: &[char]) -> (r: Vec<char>)
    ensures
        r@ == unquoted(raw@),
{
    let t = trim_chars(raw);
    let u = trim_matches_chars(&t, '"');
    trim_chars(&u)
}

/// A date written `2026/01/05` or `2026年01月05日`, possibly quoted.
pub open spec fn flexible_date_spec(raw: Seq<char>) -> Option<CalendarDate> {
    let t = unquoted(raw);
    match chrono_parsed_date(t, "%Y/%m/%d"@) {
        Some(d) => Some(d),
        None => chrono_parsed_date(t, "%Y年%m月%d日"@),
    }
}

pub fn parse_flexible_date(raw_text: &[char]) -> (r: Option<CalendarDate>)
    ensures
        r == flexible_date_spec(raw_text@),
        r matches Some(d) ==> d.is_valid(),
{
    let t = unquote(raw_text);
    match parse_date_chars(&t, "%Y/%m/%d") {
        Some(d) => Some(d),
        None => parse_date_chars(&t, "%Y年%m月%d日"),
    }
}

/// The profit under `損益金額/徴収額`: `--` or an empty cell count as zero.
pub open spec fn profit_cell_spec(t: Seq<char>) -> Option<Amount> {
    let trimmed = trim(t);
    if trimmed == "--"@ || trimmed.len() == 0 {
        Some(Amount { micros: 0 })
    } else {
        signed_number_spec(trimmed)
    }
}

/// The date in the cell under `name` (`flexible_date_spec`).
pub open spec fn date_cell_spec(cols: Seq<Seq<char>>, rec: RowModel, name: Seq<char>) -> Option<
    CalendarDate,
> {
    match field_text_spec(cols, rec, name) {
        Some(t) => flexible_date_spec(t),
        None => None,
    }
}

/// The number in the cell under `name` (`realized_number_spec`).
pub open spec fn number_cell_spec(cols: Seq<Seq<char>>, rec: RowModel, name: Seq<char>) -> Option<
    Amount,
> {
    match field_text_spec(cols, rec, name) {
        Some(t) => realized_number_spec(t),
        None => None,
    }
}

/// The profit in the `損益金額/徴収額` cell (`profit_cell_spec`).
pub open spec fn profit_field_spec(cols: Seq<Seq<char>>, rec: RowModel) -> Option<Amount> {
    match field_text_spec(cols, rec, "損益金額/徴収額"@) {
        Some(t) => profit_cell_spec(t),
        None => None,
    }
}

/// A statement row as a realized-profit record: only sale rows (the `取引`
/// cell holds `売`) with a stock code, a trade date, a quantity and a profit
/// count; subtotal rows have no `取引` and are passed over.
pub open spec fn realized_pnl_row_spec(cols: Seq<Seq<char>>, rec: RowModel) -> Option<
    RealizedPnlModel,
> {
    let is_sell = match field_text_spec(cols, rec, "取引"@) {
        Some(t) => t.contains('売'),
        None => false,
    };
    let code = match field_text_spec(cols, rec, "銘柄コード"@) {
        Some(c) => if unquoted(c).len() > 0 {
            Some(unquoted(c))
        } else {
            None
        },
        None => None,
    };
    if !is_sell {
        None
    } else {
        match (
            code,
            date_cell_spec(cols, rec, "約定日"@),
            number_cell_spec(cols, rec, "数量"@),
            profit_field_spec(cols, rec),
        ) {
            (Some(stock_code), Some(trade_date), Some(quantity), Some(profit)) => Some(
                RealizedPnlModel {
                    trade_date,
                    settlement_date: date_cell_spec(cols, rec, "受渡日"@),
                    stock_code,
                    stock_name: match field_text_spec(cols, rec, "銘柄"@) {
                        Some(n) => unquoted(n),
                        None => Seq::<char>::empty(),
                    },
                    quantity,
                    sell_amount: number_cell_spec(cols, rec, "売却/決済金額"@),
                    acquisition_date: date_cell_spec(cols, rec, "取得/新規年月日"@),
                    acquisition_amount: number_cell_spec(cols, rec, "取得/新規金額"@),
                    realized_profit_loss: profit,
                },
            ),
            _ => None,
        }
    }
}

pub open spec fn realized_pnl_reader() -> spec_fn(Seq<Seq<char>>, RowModel) -> Option<
    RealizedPnlModel,
> {
    |cols: Seq<Seq<char>>, rec: RowModel| realized_pnl_row_spec(cols, rec)
}

fn date_cell(record: &CsvRecord, header: &HeaderIndex, name: &str) -> (r: Option<CalendarDate>)
    ensures
        r == date_cell_spec(header@, record.deep_view(), name@),
        r matches Some(d) ==> d.is_valid(),
{
    match field_text(record, header, name) {
        Some(t) => {
            assert(t.deep_view() =~= t@);
            parse_flexible_date(&t)
        },
        None => None,
    }
}

fn number_cell(record: &CsvRecord, header: &HeaderIndex, name: &str) -> (r: Option<Amount>)
    ensures
        r == number_cell_spec(header@, record.deep_view(), name@),
{
    match field_text(record, header, name) {
        Some(t) => {
            assert(t.deep_view() =~= t@);
            parse_realized_number(&t)
        },
        None => None,
    }
}

fn profit_cell(record: &CsvRecord, header: &HeaderIndex) -> (r: Option<Amount>)
    ensures
        r == profit_field_spec(header@, record.deep_view()),
{
    match field_text(record, header, "損益金額/徴収額") {
        Some(t) => {
            assert(t.deep_view() =~= t@);
            let trimmed = trim_chars(&t);
            let dashes = str_chars("--");
            if crate::text::chars_equal(&trimmed, &dashes) || trimmed.len() == 0 {
                Some(Amount { micros: 0 })
            } else {
                parse_signed_number(&trimmed)
            }
        },
        None => None,
    }
}

/// Reads one statement row (`realized_pnl_row_spec`).
pub fn parse_realized_pnl_row(record: &CsvRecord, header: &HeaderIndex) -> (r: Option<
    ParsedRealizedPnl,
>)
    ensures
        r.deep_view() == realized_pnl_row_spec(header@, record.deep_view()),
        r matches Some(p) ==> p.trade_date.is_valid() && (p.settlement_date matches Some(d)
            ==> d.is_valid()) && (p.acquisition_date matches Some(d) ==> d.is_valid()),
{
    let is_sell = match field_text(record, header, "取引") {
        Some(t) => {
            assert(t.deep_view() =~= t@);
            has_char(&t, '売')
        },
        None => false,
    };
    if !is_sell {
        return None;
    }
    let stock_code = match field_text(record, header, "銘柄コード") {
        Some(c) => {
            assert(c.deep_view() =~= c@);
            let u = unquote(&c);
            if u.len() > 0 {
                u
            } else {
                return None;
            }
        },
        None => return None,
    };
    let trade_date = match date_cell(record, header, "約定日") {
        Some(d) => d,
        None => return None,
    };
    let quantity = match number_cell(record, header, "数量") {
        Some(q) => q,
        None => return None,
    };
    let realized_profit_loss = match profit_cell(record, header) {
        Some(p) => p,
        None => return None,
    };
    let stock_name = match field_text(record, header, "銘柄") {
        Some(n) => {
            assert(n.deep_view() =~= n@);
            let u = unquote(&n);
            string_from_chars(&u)
        },
        None => string_from_chars(&[]),
    };
    let p = ParsedRealizedPnl {
        trade_date,
        settlement_date: date_cell(record, header, "受渡日"),
        stock_code: string_from_chars(&stock_code),
        stock_name,
        quantity,
        sell_amount: number_cell(record, header, "売却/決済金額"),
        acquisition_date: date_cell(record, header, "取得/新規年月日"),
        acquisition_amount: number_cell(record, header, "取得/新規金額"),
        realized_profit_loss,
    };
    let ghost spec_row = realized_pnl_row_spec(header@, record.deep_view());
    assert(spec_row is Some);
    assert(spec_row->0.stock_code == p.stock_code@);
    assert(spec_row->0.stock_name == p.stock_name@);
    assert(spec_row->0.trade_date == p.trade_date);
    assert(spec_row->0.realized_profit_loss == p.realized_profit_loss);
    Some(p)
}

/// Every record of the file carries valid dates.
pub open spec fn records_have_valid_dates(records: Seq<ParsedRealizedPnl>) -> bool {
    forall|i: int|
        0 <= i < records.len() ==> (#[trigger] records[i]).trade_date.is_valid() && (
        records[i].settlement_date matches Some(d) ==> d.is_valid()) && (
        records[i].acquisition_date matches Some(d) ==> d.is_valid())
}

/// A statement result agrees with a scan outcome.
pub open spec fn realized_result_is(
    r: Result<ParsedRealizedPnlFile, CsvImportError>,
    outcome: ScanOutcome<RealizedPnlModel>,
) -> bool {
    match outcome {
        ScanOutcome::HeaderNotFound => r matches Err(CsvImportError::HeaderNotFound),
        ScanOutcome::NoDataRows => r matches Err(CsvImportError::NoDataRows),
        ScanOutcome::Items(items) => r matches Ok(f) && f.broker == Broker::Sbi
            && f.records.deep_view() == items,
    }
}

/// Reads the sale records of a statement from its rows.
pub fn parse_realized_pnl_records(records: &[CsvRecord]) -> (r: Result<
    ParsedRealizedPnlFile,
    CsvImportError,
>)
    ensures
        realized_result_is(
            r,
            scan_outcome(records.deep_view(), realized_pnl_header_columns(), realized_pnl_reader()),
        ),
        r matches Ok(f) ==> records_have_valid_dates(f.records@),
{
    let required: &'static [&'static str] = &["銘柄コード", "約定日", "取引", "損益金額/徴収額"];
    assert(texts_view(required@) =~= realized_pnl_header_columns());
    let ghost rows = records.deep_view();
    let ghost req = realized_pnl_header_columns();
    let ghost reader = realized_pnl_reader();
    let mut out: Vec<ParsedRealizedPnl> = Vec::new();
    let mut header: Option<HeaderIndex> = None;
    let mut i: usize = 0;
    assert(rows.skip(0) =~= rows);
    assert(out.deep_view() + scan_rows(rows, req, None, reader) =~= scan_rows(rows, req, None, reader));
    while i < records.len()
        invariant
            rows == records.deep_view(),
            req == realized_pnl_header_columns(),
            texts_view(required@) == req,
            reader == realized_pnl_reader(),
            i <= rows.len(),
            scan_rows(rows, req, None, reader) == out.deep_view() + scan_rows(
                rows.skip(i as int),
                req,
                header_view(header),
                reader,
            ),
            header is Some <==> exists|k: int| 0 <= k < i && row_has_columns(#[trigger] rows[k], req),
            records_have_valid_dates(out@),
        decreases rows.len() - i,
    {
        proof {
            lemma_scan_step(rows, i as int, req, header_view(header), reader);
        }
        let ghost before = out.deep_view();
        if record_has_columns(&records[i], required) {
            header = Some(build_header_index_map(&records[i]));
        } else {
            match &header {
                Some(h) => {
                    match parse_realized_pnl_row(&records[i], h) {
                        Some(x) => {
                            out.push(x);
                            assert(out.deep_view() =~= before + seq![x.deep_view()]);
                        },
                        None => {},
                    }
                },
                None => {},
            }
        }
        i = i + 1;
    }
    proof {
        lemma_scan_end(rows, req, header_view(header), reader);
        assert(out.deep_view() + Seq::<RealizedPnlModel>::empty() =~= out.deep_view());
    }
    if header.is_none() {
        return Err(CsvImportError::HeaderNotFound);
    }
    if out.len() == 0 {
        return Err(CsvImportError::NoDataRows);
    }
    Ok(ParsedRealizedPnlFile { broker: Broker::Sbi, records: out })
}

/// Reads a realized-profit statement CSV file from its bytes: decodes them
/// with newlines normalized, checks that the text is a statement, reads the
/// rows and the sale records.
pub fn parse_realized_pnl_csv(raw_bytes: &[u8]) -> (r: Result<ParsedRealizedPnlFile, CsvImportError>)
    requires
        raw_bytes@.len() * 4 + 16 <= usize::MAX,
    ensures
        ({
            let text = with_lf_newlines(decoded_csv_text(raw_bytes@));
            if !is_realized_pnl_text(text) {
                r matches Err(CsvImportError::UnknownBroker)
            } else {
                realized_result_is(
                    r,
                    scan_outcome(csv_rows_of(text), realized_pnl_header_columns(), realized_pnl_reader()),
                )
            }
        }),
        !(r matches Err(CsvImportError::CsvRead(_))),
        r matches Ok(f) ==> records_have_valid_dates(f.records@),
{
    let csv_text = decode_and_normalize_newlines(raw_bytes);
    if !looks_like_realized_pnl_csv(csv_text.as_str()) {
        return Err(CsvImportError::UnknownBroker);
    }
    let all_records = match read_records(csv_text.as_str()) {
        Ok(rows) => rows,
        Err(e) => return Err(e),
    };
    parse_realized_pnl_records(all_records.as_slice())
}

} // verus!
