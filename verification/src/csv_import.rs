//! Holdings CSV import: bytes are decoded (UTF-8 with BOM, UTF-8, or
//! Shift_JIS), the broker is told from the content, header rows are found,
//! and each row under a header becomes a holding.

use vstd::prelude::*;
use vstd::utf8::{decode_utf8, valid_utf8};

use crate::amount::Amount;
use crate::broker_profile::{
    detect_broker, detected_broker, header_columns_of, profile_of, texts_view, BrokerProfile,
};
use crate::date::{parse_i32_chars, parse_u32_chars, int_text_value, CalendarDate, valid_ymd};
use crate::models::{Broker, HoldingModel, ParsedHolding, ParsedSnapshot};
use crate::records::{
    build_header_index_map, cell_chars, field_text, field_text_spec, numeric_field, numeric_field_spec,
    record_has_columns, row_has_columns, scan_outcome, scan_rows, has_header_row, lemma_scan_step,
    lemma_scan_end, header_columns, lemma_named_cell, no_column, number_at, only_column, text_at,
    CsvRecord, HeaderIndex, RowModel, ScanOutcome,
};
use crate::text::{
    contains_chars, contains_seq, is_white_space, lemma_contains_at, lemma_not_contains_first,
    lemma_trim_fixed, lemma_trim_idempotent, str_chars, string_from_chars, trim, trim_chars,
};

verus! {

#[verifier::external_type_specification]
#[verifier::external_body]
pub struct ExCsvError(csv::Error);

/// What can go wrong when a CSV file is imported.
#[derive(Debug)]
pub enum CsvImportError {
    /// The content matches no known broker.
    UnknownBroker,
    /// No header row was found.
    HeaderNotFound,
    /// No row under a header gave an item.
    NoDataRows,
    /// The CSV reader failed.
    CsvRead(csv::Error),
}

/// What `String::from_utf8_lossy` makes of `bytes`.
pub uninterp spec fn utf8_lossy_text(bytes: Seq<u8>) -> Seq<char>;

/// `String::from_utf8_lossy`: the text of `bytes` with malformed sequences
/// replaced by U+FFFD; on valid UTF-8 it is the decoded text.
#[verifier::external_body]
fn decode_utf8_lossy(bytes: &[u8]) -> (r: String)
    ensures
        r@ == utf8_lossy_text(bytes@),
        valid_utf8(bytes@) ==> r@ == decode_utf8(bytes@),
{
    String::from_utf8_lossy(bytes).into_owned()
}

/// `std::str::from_utf8`: the text of `bytes` when they are valid UTF-8.
#[verifier::external_body]
fn decode_utf8_strict(bytes: &[u8]) -> (r: Option<String>)
    ensures
        r is Some <==> valid_utf8(bytes@),
        r matches Some(s) ==> s@ == decode_utf8(bytes@),
{
    match std::str::from_utf8(bytes) {
        Ok(s) => Some(s.to_owned()),
        Err(_) => None,
    }
}

/// What `encoding_rs::SHIFT_JIS.decode` makes of `bytes`.
pub uninterp spec fn shift_jis_text(bytes: Seq<u8>) -> Seq<char>;

/// `encoding_rs::Encoding::decode` with `SHIFT_JIS` (the Windows-31J
/// variant, with BOM sniffing and U+FFFD for malformed sequences). The
/// contract names the result; the bound on the length excludes the inputs
/// whose buffer-size computation overflows.
#[verifier::external_body]
fn decode_shift_jis(bytes: &[u8]) -> (r: String)
    requires
        bytes@.len() * 4 + 16 <= usize::MAX,
    ensures
        r@ == shift_jis_text(bytes@),
{
    let (text, _encoding, _had_errors) = encoding_rs::SHIFT_JIS.decode(bytes);
    text.into_owned()
}

pub open spec fn starts_with_utf8_bom(b: Seq<u8>) -> bool {
    b.len() >= 3 && b[0] == 0xEFu8 && b[1] == 0xBBu8 && b[2] == 0xBFu8
}

/// The text of a CSV file's bytes: after a UTF-8 byte-order mark, the rest
/// decoded as UTF-8 with replacement; otherwise the UTF-8 text when the bytes
/// are valid UTF-8; otherwise the Shift_JIS text.
pub open spec fn decoded_csv_text(b: Seq<u8>) -> Seq<char> {
    if starts_with_utf8_bom(b) {
        utf8_lossy_text(b.subrange(3, b.len() as int))
    } else if valid_utf8(b) {
        decode_utf8(b)
    } else {
        shift_jis_text(b)
    }
}

/// Decodes a CSV file's bytes: UTF-8 BOM, then UTF-8, then Shift_JIS (CP932).
pub fn decode_csv_bytes(raw_bytes: &[u8]) -> (r: String)
    requires
        raw_bytes@.len() * 4 + 16 <= usize::MAX,
    ensures
        r@ == decoded_csv_text(raw_bytes@),
{
    if raw_bytes.len() >= 3 && raw_bytes[0] == 0xEF && raw_bytes[1] == 0xBB && raw_bytes[2]
        == 0xBF {
        let rest = vstd::slice::slice_subrange(raw_bytes, 3, raw_bytes.len());
        return decode_utf8_lossy(rest);
    }
    match decode_utf8_strict(raw_bytes) {
        Some(text) => text,
        None => decode_shift_jis(raw_bytes),
    }
}

/// The CSV reader's rows of `text` (no header row, rows of any length).
pub uninterp spec fn csv_rows_of(text: Seq<char>) -> Seq<RowModel>;

/// `csv::ReaderBuilder` with `has_headers(false)` and `flexible(true)`,
/// reading every record of `text` as string cells. The contract names the
/// rows and says that the reading succeeds: the input is a byte slice, which
/// gives no I/O error; rows of unequal length are accepted when flexible; and
/// the cells of UTF-8 text, cut only at ASCII separators and quotes, are UTF-8.
#[verifier::external_body]
fn read_csv_rows(text: &str) -> (r: Result<Vec<CsvRecord>, csv::Error>)
    ensures
        r is Ok,
        r matches Ok(rows) ==> rows.deep_view() == csv_rows_of(text@),
{
    csv::ReaderBuilder::new().has_headers(false).flexible(true).from_reader(
        text.as_bytes(),
    ).records().map(|record| record.map(|rec| rec.iter().map(|cell| cell.to_owned()).collect())).collect()
}

/// Reads the rows of a decoded CSV text.
pub fn read_records(text: &str) -> (r: Result<Vec<CsvRecord>, CsvImportError>)
    ensures
        r matches Ok(rows) && rows.deep_view() == csv_rows_of(text@),
{
    match read_csv_rows(text) {
        Ok(rows) => Ok(rows),
        Err(e) => Err(CsvImportError::CsvRead(e)),
    }
}

/// The account type written the same way for both brokers: texts naming the
/// NISA accumulation quota, the NISA growth quota, a specified account, or
/// general NISA become the one spelling of each; other texts are only trimmed.
pub open spec fn normalized_account_type(raw: Seq<char>) -> Seq<char> {
    let t = trim(raw);
    if contains_seq(t, "つみたて投資枠"@) {
        "NISAつみたて投資枠"@
    } else if contains_seq(t, "成長投資枠"@) {
        "NISA成長投資枠"@
    } else if contains_seq(t, "特定"@) {
        "特定"@
    } else if contains_seq(t, "一般"@) && contains_seq(t, "NISA"@) {
        "一般NISA"@
    } else {
        t
    }
}

proof fn lemma_literal_is_trimmed(t: Seq<char>)
    requires
        t.len() > 0,
        !is_white_space(t[0]),
        !is_white_space(t.last()),
    ensures
        trim(t) == t,
{
    lemma_trim_fixed(t);
}

/// Normalizing an account type that is already normalized changes nothing:
/// every broker's spelling ends in one fixed spelling.
pub proof fn lemma_normalize_account_type_idempotent(raw: Seq<char>)
    ensures
        normalized_account_type(normalized_account_type(raw)) == normalized_account_type(raw),
{
    reveal_strlit("つみたて投資枠");
    reveal_strlit("成長投資枠");
    reveal_strlit("特定");
    reveal_strlit("一般");
    reveal_strlit("NISA");
    reveal_strlit("NISAつみたて投資枠");
    reveal_strlit("NISA成長投資枠");
    reveal_strlit("一般NISA");
    let t = trim(raw);
    let n = normalized_account_type(raw);
    if contains_seq(t, "つみたて投資枠"@) {
        let lit = "NISAつみたて投資枠"@;
        lemma_literal_is_trimmed(lit);
        assert(lit.subrange(4, 11) =~= "つみたて投資枠"@);
        lemma_contains_at(lit, "つみたて投資枠"@, 4);
    } else if contains_seq(t, "成長投資枠"@) {
        let lit = "NISA成長投資枠"@;
        lemma_literal_is_trimmed(lit);
        lemma_not_contains_first(lit, "つみたて投資枠"@);
        assert(lit.subrange(4, 9) =~= "成長投資枠"@);
        lemma_contains_at(lit, "成長投資枠"@, 4);
    } else if contains_seq(t, "特定"@) {
        let lit = "特定"@;
        lemma_literal_is_trimmed(lit);
        assert(lit.subrange(0, 2) =~= "特定"@);
        lemma_contains_at(lit, "特定"@, 0);
    } else if contains_seq(t, "一般"@) && contains_seq(t, "NISA"@) {
        let lit = "一般NISA"@;
        lemma_literal_is_trimmed(lit);
        lemma_not_contains_first(lit, "成長投資枠"@);
        lemma_not_contains_first(lit, "特定"@);
        assert(lit.subrange(0, 2) =~= "一般"@);
        lemma_contains_at(lit, "一般"@, 0);
        assert(lit.subrange(2, 6) =~= "NISA"@);
        lemma_contains_at(lit, "NISA"@, 2);
    } else {
        lemma_trim_idempotent(raw);
    }
}

fn contains_str(text: &[char], word: &str) -> (r: bool)
    ensures
        r == contains_seq(text@, word@),
{
    let w = str_chars(word);
    contains_chars(text, &w)
}

pub fn normalize_account_type_chars(raw: &[char]) -> (r: Vec<char>)
    ensures
        r@ == normalized_account_type(raw@),
{
    let t = trim_chars(raw);
    if contains_str(&t, "つみたて投資枠") {
        return str_chars("NISAつみたて投資枠");
    }
    if contains_str(&t, "成長投資枠") {
        return str_chars("NISA成長投資枠");
    }
    if contains_str(&t, "特定") {
        return str_chars("特定");
    }
    if contains_str(&t, "一般") && contains_str(&t, "NISA") {
        return str_chars("一般NISA");
    }
    t
}

/// Writes an account type the same way for both brokers.
pub fn normalize_account_type(raw_account_type: &str) -> (r: String)
    ensures
        r@ == normalized_account_type(raw_account_type@),
{
    let c = str_chars(raw_account_type);
    let n = normalize_account_type_chars(&c);
    string_from_chars(&n)
}

/// What the regular-expression search gives: `None` when `pattern` does not
/// compile, `Some(None)` when it does not match `text`, else the capture
/// groups of its leftmost-first match (group 0 is the whole match).
pub uninterp spec fn regex_search(pattern: Seq<char>, text: Seq<char>) -> Option<
    Option<Seq<Option<Seq<char>>>>,
>;

/// `regex::Regex::new(pattern)` then `Regex::captures(text)`: the groups of
/// the leftmost-first match of `pattern` in `text`. The contract names the
/// result.
#[verifier::external_body]
fn regex_captures(pattern: &str, text: &str) -> (r: Option<Option<Vec<Option<String>>>>)
    ensures
        r.deep_view() == regex_search(pattern@, text@),
{
    match regex::Regex::new(pattern) {
        Ok(re) => Some(
            re.captures(text).map(
                |caps| caps.iter().map(|m| m.map(|m| m.as_str().to_owned())).collect(),
            ),
        ),
        Err(_) => None,
    }
}

pub open spec fn era_date_pattern() -> Seq<char> {
    "令和(\\d{1,2})年(\\d{1,2})月(\\d{1,2})日"@
}

pub open spec fn western_date_pattern() -> Seq<char> {
    "(20\\d{2})[/年](\\d{1,2})[/月](\\d{1,2})日?"@
}

/// Group `i` of a match, when it took part in the match.
pub open spec fn group_text(groups: Seq<Option<Seq<char>>>, i: int) -> Option<Seq<char>> {
    if 0 <= i < groups.len() {
        groups[i]
    } else {
        None
    }
}

pub open spec fn parsed_i32(s: Seq<char>) -> Option<int> {
    match int_text_value(s, true) {
        Some(v) => if i32::MIN <= v <= i32::MAX {
            Some(v)
        } else {
            None
        },
        None => None,
    }
}

pub open spec fn parsed_u32(s: Seq<char>) -> Option<int> {
    match int_text_value(s, false) {
        Some(v) => if v <= u32::MAX {
            Some(v)
        } else {
            None
        },
        None => None,
    }
}

/// The date that groups 1 to 3 (year, month, day) write, the year counted
/// from `base_year`.
pub open spec fn date_from_groups(groups: Seq<Option<Seq<char>>>, base_year: int) -> Option<
    CalendarDate,
> {
    match (group_text(groups, 1), group_text(groups, 2), group_text(groups, 3)) {
        (Some(ys), Some(ms), Some(ds)) => match (parsed_i32(ys), parsed_u32(ms), parsed_u32(ds)) {
            (Some(y), Some(m), Some(d)) => {
                let year = base_year + y;
                if i32::MIN <= year <= i32::MAX && valid_ymd(year, m, d) {
                    Some(CalendarDate { year: year as i32, month: m as u32, day: d as u32 })
                } else {
                    None
                }
            },
            _ => None,
        },
        _ => None,
    }
}

/// The date a text states: a Reiwa-era date `令和NN年MM月DD日` (Reiwa 1 is
/// 2019) when one occurs, else a `20YY/MM/DD` or `20YY年MM月DD日` date.
pub open spec fn date_in_text(text: Seq<char>) -> Option<CalendarDate> {
    match regex_search(era_date_pattern(), text) {
        None => None,
        Some(Some(groups)) => date_from_groups(groups, 2018),
        Some(None) => match regex_search(western_date_pattern(), text) {
            Some(Some(groups)) => date_from_groups(groups, 0),
            _ => None,
        },
    }
}

fn group_chars(groups: &Vec<Option<String>>, i: usize) -> (r: Option<Vec<char>>)
    ensures
        match r {
            Some(v) => group_text(groups.deep_view(), i as int) == Some(v@),
            None => group_text(groups.deep_view(), i as int) is None,
        },
{
    if i < groups.len() {
        match &groups[i] {
            Some(s) => Some(str_chars(s.as_str())),
            None => None,
        }
    } else {
        None
    }
}

/// The date written by the year, month and day groups of a date match.
pub fn date_from_captures(groups: &Vec<Option<String>>, base_year: i32) -> (r: Option<CalendarDate>)
    ensures
        r == date_from_groups(groups.deep_view(), base_year as int),
{
    let ys = match group_chars(groups, 1) {
        Some(s) => s,
        None => return None,
    };
    let ms = match group_chars(groups, 2) {
        Some(s) => s,
        None => return None,
    };
    let ds = match group_chars(groups, 3) {
        Some(s) => s,
        None => return None,
    };
    let y = match parse_i32_chars(&ys) {
        Some(v) => v,
        None => return None,
    };
    let m = match parse_u32_chars(&ms) {
        Some(v) => v,
        None => return None,
    };
    let d = match parse_u32_chars(&ds) {
        Some(v) => v,
        None => return None,
    };
    let year = match base_year.checked_add(y) {
        Some(v) => v,
        None => return None,
    };
    CalendarDate::from_ymd_opt(year, m, d)
}

/// The date a title line or other text states (see `date_in_text`).
pub fn extract_date_from_text(text: &str) -> (r: Option<CalendarDate>)
    ensures
        r == date_in_text(text@),
{
    match regex_captures("令和(\\d{1,2})年(\\d{1,2})月(\\d{1,2})日", text) {
        None => None,
        Some(Some(groups)) => date_from_captures(&groups, 2018),
        Some(None) => match regex_captures("(20\\d{2})[/年](\\d{1,2})[/月](\\d{1,2})日?", text) {
            Some(Some(groups)) => date_from_captures(&groups, 0),
            _ => None,
        },
    }
}

/// The trimmed cell under `name`, when it is not empty.
pub open spec fn nonempty_field_spec(cols: Seq<Seq<char>>, rec: RowModel, name: Seq<char>) -> Option<
    Seq<char>,
> {
    match field_text_spec(cols, rec, name) {
        Some(t) => if t.len() > 0 {
            Some(t)
        } else {
            None
        },
        None => None,
    }
}

/// The normalized account type under `name`, or the empty text.
pub open spec fn account_type_spec(cols: Seq<Seq<char>>, rec: RowModel, name: Seq<char>) -> Seq<char> {
    match field_text_spec(cols, rec, name) {
        Some(t) => normalized_account_type(t),
        None => Seq::<char>::empty(),
    }
}

pub fn nonempty_field(record: &CsvRecord, header: &HeaderIndex, name: &str) -> (r: Option<Vec<char>>)
    ensures
        match r {
            Some(v) => nonempty_field_spec(header@, record.deep_view(), name@) == Some(v@),
            None => nonempty_field_spec(header@, record.deep_view(), name@) is None,
        },
{
    match field_text(record, header, name) {
        Some(t) => {
            assert(t.deep_view() =~= t@);
            if t.len() > 0 {
                Some(t)
            } else {
                None
            }
        },
        None => None,
    }
}

pub fn nonempty_field_string(record: &CsvRecord, header: &HeaderIndex, name: &str) -> (r: Option<
    String,
>)
    ensures
        r.deep_view() == nonempty_field_spec(header@, record.deep_view(), name@),
{
    match nonempty_field(record, header, name) {
        Some(t) => Some(string_from_chars(&t)),
        None => None,
    }
}

pub fn account_type_field(record: &CsvRecord, header: &HeaderIndex, name: &str) -> (r: String)
    ensures
        r@ == account_type_spec(header@, record.deep_view(), name@),
{
    match field_text(record, header, name) {
        Some(t) => {
            assert(t.deep_view() =~= t@);
            let n = normalize_account_type_chars(&t);
            string_from_chars(&n)
        },
        None => string_from_chars(&[]),
    }
}

/// The non-empty trimmed cells under the columns named `銘柄`, from position
/// `k` on, in column order.
pub open spec fn stock_cells_from(cols: Seq<Seq<char>>, rec: RowModel, k: int) -> Seq<Seq<char>>
    decreases cols.len() - k,
{
    if k < 0 || k >= cols.len() {
        Seq::<Seq<char>>::empty()
    } else {
        let rest = stock_cells_from(cols, rec, k + 1);
        if cols[k] == "銘柄"@ && k < rec.len() && trim(rec[k]).len() > 0 {
            seq![trim(rec[k])] + rest
        } else {
            rest
        }
    }
}

pub open spec fn is_ascii_alphanumeric(c: char) -> bool {
    ('0' <= c && c <= '9') || ('a' <= c && c <= 'z') || ('A' <= c && c <= 'Z')
}

/// A stock code: four or five ASCII letters and digits (such as 8058 or 262A).
pub open spec fn looks_like_stock_code(code: Seq<char>) -> bool {
    &&& 4 <= code.len() <= 5
    &&& forall|i: int| 0 <= i < code.len() ==> is_ascii_alphanumeric(#[trigger] code[i])
}

/// In SBI rows the `銘柄` columns repeat; their non-empty cells are, in
/// order, the stock code, the stock name and the market. Rows whose first
/// such cell is not a stock code (total rows and the like) give nothing.
pub open spec fn sbi_code_and_name_spec(cols: Seq<Seq<char>>, rec: RowModel) -> Option<
    (Seq<char>, Seq<char>),
> {
    let cells = stock_cells_from(cols, rec, 0);
    if cells.len() >= 2 && looks_like_stock_code(cells[0]) {
        Some((cells[0], cells[1]))
    } else {
        None
    }
}

fn stock_cells(record: &CsvRecord, header: &HeaderIndex) -> (r: Vec<Vec<char>>)
    ensures
        r.deep_view() == stock_cells_from(header@, record.deep_view(), 0),
{
    let name = str_chars("銘柄");
    let ghost cols = header@;
    let ghost rec = record.deep_view();
    let mut out: Vec<Vec<char>> = Vec::new();
    let mut k: usize = 0;
    while k < header.columns.len()
        invariant
            cols == header@,
            rec == record.deep_view(),
            cols.len() == header.columns@.len(),
            name@ == "銘柄"@,
            k <= cols.len(),
            stock_cells_from(cols, rec, 0) == out.deep_view() + stock_cells_from(cols, rec, k as int),
        decreases cols.len() - k,
    {
        let ghost before = out.deep_view();
        if k < record.len() && crate::text::chars_equal(&header.columns[k], &name) {
            let c = cell_chars(record, k);
            let t = trim_chars(&c);
            if t.len() > 0 {
                assert(t.deep_view() =~= t@);
                out.push(t);
                assert(out.deep_view() =~= before + seq![t@]);
            }
        }
        k = k + 1;
        assert(stock_cells_from(cols, rec, 0) =~= out.deep_view() + stock_cells_from(cols, rec, k as int));
    }
    assert(out.deep_view() + stock_cells_from(cols, rec, k as int) =~= out.deep_view());
    out
}

fn is_stock_code(code: &[char]) -> (r: bool)
    ensures
        r == looks_like_stock_code(code@),
{
    if code.len() < 4 || code.len() > 5 {
        return false;
    }
    let mut i: usize = 0;
    while i < code.len()
        invariant
            i <= code@.len(),
            forall|t: int| 0 <= t < i ==> is_ascii_alphanumeric(#[trigger] code@[t]),
        decreases code@.len() - i,
    {
        let c = code[i];
        if !(('0' <= c && c <= '9') || ('a' <= c && c <= 'z') || ('A' <= c && c <= 'Z')) {
            assert(!is_ascii_alphanumeric(code@[i as int]));
            return false;
        }
        i = i + 1;
    }
    true
}

/// The stock code and name of an SBI row (see `sbi_code_and_name_spec`).
pub fn extract_sbi_code_and_name(record: &CsvRecord, header: &HeaderIndex) -> (r: Option<
    (String, String),
>)
    ensures
        match r {
            Some((code, name)) => sbi_code_and_name_spec(header@, record.deep_view()) == Some(
                (code@, name@),
            ),
            None => sbi_code_and_name_spec(header@, record.deep_view()) is None,
        },
{
    let cells = stock_cells(record, header);
    if cells.len() < 2 {
        return None;
    }
    assert(cells.deep_view()[0] =~= cells[0]@);
    assert(cells.deep_view()[1] =~= cells[1]@);
    if !is_stock_code(&cells[0]) {
        return None;
    }
    Some((string_from_chars(&cells[0]), string_from_chars(&cells[1])))
}

/// An SBI portfolio row as a holding: it needs a stock code and name and a
/// share count (`保有株数`); the other columns are read when present.
pub open spec fn sbi_holding_spec(cols: Seq<Seq<char>>, rec: RowModel) -> Option<HoldingModel> {
    match sbi_code_and_name_spec(cols, rec) {
        None => None,
        Some((code, name)) => match numeric_field_spec(cols, rec, "保有株数"@) {
            None => None,
            Some(quantity) => Some(
                HoldingModel {
                    account_type: account_type_spec(cols, rec, "預り区分"@),
                    stock_code: code,
                    stock_name: name,
                    quantity,
                    average_acquisition_price: numeric_field_spec(cols, rec, "取得単価"@),
                    current_price: numeric_field_spec(cols, rec, "現在値"@),
                    market_value: numeric_field_spec(cols, rec, "評価額"@),
                    acquisition_cost: numeric_field_spec(cols, rec, "買付金額"@),
                    profit_loss: numeric_field_spec(cols, rec, "評価損益"@),
                    profit_loss_rate: numeric_field_spec(cols, rec, "評価損益(%)"@),
                    sector_33: nonempty_field_spec(cols, rec, "33業種"@),
                    sector_detail: nonempty_field_spec(cols, rec, "業種詳細"@),
                },
            ),
        },
    }
}

pub open spec fn sbi_holding_reader() -> spec_fn(Seq<Seq<char>>, RowModel) -> Option<HoldingModel> {
    |cols: Seq<Seq<char>>, rec: RowModel| sbi_holding_spec(cols, rec)
}

pub fn sbi_holding(record: &CsvRecord, header: &HeaderIndex) -> (r: Option<ParsedHolding>)
    ensures
        r.deep_view() == sbi_holding_spec(header@, record.deep_view()),
{
    let (stock_code, stock_name) = match extract_sbi_code_and_name(record, header) {
        Some(p) => p,
        None => return None,
    };
    let quantity = match numeric_field(record, header, "保有株数") {
        Some(q) => q,
        None => return None,
    };
    let h = ParsedHolding {
        account_type: account_type_field(record, header, "預り区分"),
        stock_code,
        stock_name,
        quantity,
        average_acquisition_price: numeric_field(record, header, "取得単価"),
        current_price: numeric_field(record, header, "現在値"),
        market_value: numeric_field(record, header, "評価額"),
        acquisition_cost: numeric_field(record, header, "買付金額"),
        profit_loss: numeric_field(record, header, "評価損益"),
        profit_loss_rate: numeric_field(record, header, "評価損益(%)"),
        sector_33: nonempty_field_string(record, header, "33業種"),
        sector_detail: nonempty_field_string(record, header, "業種詳細"),
    };
    Some(h)
}

/// An e-smart balance row as a holding: it needs a stock code, a stock name
/// and a quantity; the other columns are read when present.
pub open spec fn esmart_holding_spec(cols: Seq<Seq<char>>, rec: RowModel) -> Option<HoldingModel> {
    match (
        nonempty_field_spec(cols, rec, "銘柄コード"@),
        nonempty_field_spec(cols, rec, "銘柄名"@),
        numeric_field_spec(cols, rec, "数量"@),
    ) {
        (Some(code), Some(name), Some(quantity)) => Some(
            HoldingModel {
                account_type: account_type_spec(cols, rec, "区分"@),
                stock_code: code,
                stock_name: name,
                quantity,
                average_acquisition_price: numeric_field_spec(cols, rec, "買付単価"@),
                current_price: numeric_field_spec(cols, rec, "現在値"@),
                market_value: numeric_field_spec(cols, rec, "時価評価額"@),
                acquisition_cost: numeric_field_spec(cols, rec, "買付金額"@),
                profit_loss: numeric_field_spec(cols, rec, "評価損益(参考)"@),
                profit_loss_rate: numeric_field_spec(cols, rec, "評価損益率"@),
                sector_33: None,
                sector_detail: None,
            },
        ),
        _ => None,
    }
}

pub open spec fn esmart_holding_reader() -> spec_fn(Seq<Seq<char>>, RowModel) -> Option<HoldingModel> {
    |cols: Seq<Seq<char>>, rec: RowModel| esmart_holding_spec(cols, rec)
}

pub fn esmart_holding(record: &CsvRecord, header: &HeaderIndex) -> (r: Option<ParsedHolding>)
    ensures
        r.deep_view() == esmart_holding_spec(header@, record.deep_view()),
{
    let stock_code = match nonempty_field(record, header, "銘柄コード") {
        Some(c) => c,
        None => return None,
    };
    let stock_name = match nonempty_field(record, header, "銘柄名") {
        Some(c) => c,
        None => return None,
    };
    let quantity = match numeric_field(record, header, "数量") {
        Some(q) => q,
        None => return None,
    };
    let h = ParsedHolding {
        account_type: account_type_field(record, header, "区分"),
        stock_code: string_from_chars(&stock_code),
        stock_name: string_from_chars(&stock_name),
        quantity,
        average_acquisition_price: numeric_field(record, header, "買付単価"),
        current_price: numeric_field(record, header, "現在値"),
        market_value: numeric_field(record, header, "時価評価額"),
        acquisition_cost: numeric_field(record, header, "買付金額"),
        profit_loss: numeric_field(record, header, "評価損益(参考)"),
        profit_loss_rate: numeric_field(record, header, "評価損益率"),
        sector_33: None,
        sector_detail: None,
    };
    Some(h)
}

/// The account-type text of a cell, as a holding or trade keeps it.
pub open spec fn account_text_at(rec: RowModel, k: int) -> Seq<char> {
    match text_at(rec, k) {
        Some(t) => normalized_account_type(t),
        None => Seq::<char>::empty(),
    }
}

/// A cell's trimmed text when it is not blank.
pub open spec fn nonblank_text_at(rec: RowModel, k: int) -> Option<Seq<char>> {
    match text_at(rec, k) {
        Some(t) => if t.len() > 0 {
            Some(t)
        } else {
            None
        },
        None => None,
    }
}

/// An e-smart balance row becomes a holding whose every value comes from the
/// cell under the column of its own name, whatever the other columns hold:
/// the code under 銘柄コード, the name under 銘柄名, the quantity under 数量,
/// the purchase price under 買付単価, the current price under 現在値, the
/// market value under 時価評価額, the cost under 買付金額, the profit under
/// 評価損益(参考), its rate under 評価損益率, the account under 区分; a price
/// column that the header lacks gives no price, and the file carries no sector.
pub proof fn lemma_esmart_holding_reads_named_cells(cols: Seq<Seq<char>>, rec: RowModel, k: int)
    ensures
        esmart_holding_spec(cols, rec) matches Some(h) ==> {
            &&& only_column(cols, "銘柄コード"@, k) ==> text_at(rec, k) == Some(h.stock_code)
            &&& only_column(cols, "銘柄名"@, k) ==> text_at(rec, k) == Some(h.stock_name)
            &&& only_column(cols, "数量"@, k) ==> number_at(rec, k) == Some(h.quantity)
            &&& only_column(cols, "買付単価"@, k) ==> h.average_acquisition_price == number_at(rec, k)
            &&& only_column(cols, "現在値"@, k) ==> h.current_price == number_at(rec, k)
            &&& only_column(cols, "時価評価額"@, k) ==> h.market_value == number_at(rec, k)
            &&& only_column(cols, "買付金額"@, k) ==> h.acquisition_cost == number_at(rec, k)
            &&& only_column(cols, "評価損益(参考)"@, k) ==> h.profit_loss == number_at(rec, k)
            &&& only_column(cols, "評価損益率"@, k) ==> h.profit_loss_rate == number_at(rec, k)
            &&& only_column(cols, "区分"@, k) ==> h.account_type == account_text_at(rec, k)
            &&& no_column(cols, "買付単価"@) ==> h.average_acquisition_price is None
            &&& no_column(cols, "現在値"@) ==> h.current_price is None
            &&& no_column(cols, "時価評価額"@) ==> h.market_value is None
            &&& no_column(cols, "買付金額"@) ==> h.acquisition_cost is None
            &&& h.sector_33 is None
            &&& h.sector_detail is None
        },
{
    lemma_named_cell(cols, rec, "銘柄コード"@, k);
    lemma_named_cell(cols, rec, "銘柄名"@, k);
    lemma_named_cell(cols, rec, "数量"@, k);
    lemma_named_cell(cols, rec, "買付単価"@, k);
    lemma_named_cell(cols, rec, "現在値"@, k);
    lemma_named_cell(cols, rec, "時価評価額"@, k);
    lemma_named_cell(cols, rec, "買付金額"@, k);
    lemma_named_cell(cols, rec, "評価損益(参考)"@, k);
    lemma_named_cell(cols, rec, "評価損益率"@, k);
    lemma_named_cell(cols, rec, "区分"@, k);
}

/// An SBI portfolio row becomes a holding whose values come from the cells
/// under the columns of their own names: the quantity under 保有株数, the
/// purchase price under 取得単価, the current price under 現在値, the market
/// value under 評価額, the cost under 買付金額, the profit under 評価損益, its
/// rate under 評価損益(%), the account under 預り区分, and the sectors under
/// 33業種 and 業種詳細 (when not blank).
pub proof fn lemma_sbi_holding_reads_named_cells(cols: Seq<Seq<char>>, rec: RowModel, k: int)
    ensures
        sbi_holding_spec(cols, rec) matches Some(h) ==> {
            &&& only_column(cols, "保有株数"@, k) ==> number_at(rec, k) == Some(h.quantity)
            &&& only_column(cols, "取得単価"@, k) ==> h.average_acquisition_price == number_at(rec, k)
            &&& only_column(cols, "現在値"@, k) ==> h.current_price == number_at(rec, k)
            &&& only_column(cols, "評価額"@, k) ==> h.market_value == number_at(rec, k)
            &&& only_column(cols, "買付金額"@, k) ==> h.acquisition_cost == number_at(rec, k)
            &&& only_column(cols, "評価損益"@, k) ==> h.profit_loss == number_at(rec, k)
            &&& only_column(cols, "評価損益(%)"@, k) ==> h.profit_loss_rate == number_at(rec, k)
            &&& only_column(cols, "預り区分"@, k) ==> h.account_type == account_text_at(rec, k)
            &&& only_column(cols, "33業種"@, k) ==> h.sector_33 == nonblank_text_at(rec, k)
            &&& only_column(cols, "業種詳細"@, k) ==> h.sector_detail == nonblank_text_at(rec, k)
            &&& no_column(cols, "取得単価"@) ==> h.average_acquisition_price is None
            &&& no_column(cols, "現在値"@) ==> h.current_price is None
            &&& no_column(cols, "33業種"@) ==> h.sector_33 is None
        },
{
    lemma_named_cell(cols, rec, "保有株数"@, k);
    lemma_named_cell(cols, rec, "取得単価"@, k);
    lemma_named_cell(cols, rec, "現在値"@, k);
    lemma_named_cell(cols, rec, "評価額"@, k);
    lemma_named_cell(cols, rec, "買付金額"@, k);
    lemma_named_cell(cols, rec, "評価損益"@, k);
    lemma_named_cell(cols, rec, "評価損益(%)"@, k);
    lemma_named_cell(cols, rec, "預り区分"@, k);
    lemma_named_cell(cols, rec, "33業種"@, k);
    lemma_named_cell(cols, rec, "業種詳細"@, k);
}

pub open spec fn header_view(h: Option<HeaderIndex>) -> Option<Seq<Seq<char>>> {
    match h {
        Some(x) => Some(x@),
        None => None,
    }
}

pub open spec fn required_view(profile: &BrokerProfile) -> Seq<Seq<char>> {
    texts_view(profile.header_required_columns@)
}

/// A snapshot result agrees with a scan outcome.
pub open spec fn snapshot_result_is(
    r: Result<ParsedSnapshot, CsvImportError>,
    broker: Broker,
    date: Option<CalendarDate>,
    outcome: ScanOutcome<HoldingModel>,
) -> bool {
    match outcome {
        ScanOutcome::HeaderNotFound => r matches Err(CsvImportError::HeaderNotFound),
        ScanOutcome::NoDataRows => r matches Err(CsvImportError::NoDataRows),
        ScanOutcome::Items(items) => r matches Ok(s) && s.broker == broker && s.snapshot_date
            == date && s.holdings.deep_view() == items,
    }
}

/// Reads the holdings of an SBI portfolio CSV: a header is any row holding
/// the profile's required columns, and each later row is read with
/// `sbi_holding_spec` under the latest header. The file states no date.
pub fn parse_sbi_records(profile: &BrokerProfile, records: &[CsvRecord]) -> (r: Result<
    ParsedSnapshot,
    CsvImportError,
>)
    ensures
        snapshot_result_is(
            r,
            Broker::Sbi,
            None,
            scan_outcome(records.deep_view(), required_view(profile), sbi_holding_reader()),
        ),
{
    let ghost rows = records.deep_view();
    let ghost req = required_view(profile);
    let ghost reader = sbi_holding_reader();
    let mut holdings: Vec<ParsedHolding> = Vec::new();
    let mut header: Option<HeaderIndex> = None;
    let mut i: usize = 0;
    assert(rows.skip(0) =~= rows);
    assert(holdings.deep_view() + scan_rows(rows, req, None, reader) =~= scan_rows(rows, req, None, reader));
    while i < records.len()
        invariant
            rows == records.deep_view(),
            req == required_view(profile),
            reader == sbi_holding_reader(),
            i <= rows.len(),
            scan_rows(rows, req, None, reader) == holdings.deep_view() + scan_rows(
                rows.skip(i as int),
                req,
                header_view(header),
                reader,
            ),
            header is Some <==> exists|k: int| 0 <= k < i && row_has_columns(#[trigger] rows[k], req),
        decreases rows.len() - i,
    {
        proof {
            lemma_scan_step(rows, i as int, req, header_view(header), reader);
        }
        let ghost before = holdings.deep_view();
        if record_has_columns(&records[i], profile.header_required_columns) {
            header = Some(build_header_index_map(&records[i]));
        } else {
            match &header {
                Some(h) => {
                    match sbi_holding(&records[i], h) {
                        Some(x) => {
                            holdings.push(x);
                            assert(holdings.deep_view() =~= before + seq![x.deep_view()]);
                        },
                        None => {},
                    }
                },
                None => {},
            }
        }
        i = i + 1;
    }
    proof {
        lemma_scan_end(rows, req, header_view(header), reader);
        assert(holdings.deep_view() + Seq::<HoldingModel>::empty() =~= holdings.deep_view());
    }
    if header.is_none() {
        return Err(CsvImportError::HeaderNotFound);
    }
    if holdings.len() == 0 {
        return Err(CsvImportError::NoDataRows);
    }
    Ok(ParsedSnapshot { broker: Broker::Sbi, snapshot_date: None, holdings })
}

/// Reads the holdings of an e-smart balance CSV: headers and rows as in
/// `parse_sbi_records`, rows read with `esmart_holding_spec`; the snapshot
/// date is the date the whole text states (`date_in_text`).
pub fn parse_esmart_records(
    profile: &BrokerProfile,
    records: &[CsvRecord],
    full_csv_text: &str,
) -> (r: Result<ParsedSnapshot, CsvImportError>)
    ensures
        snapshot_result_is(
            r,
            Broker::Esmart,
            date_in_text(full_csv_text@),
            scan_outcome(records.deep_view(), required_view(profile), esmart_holding_reader()),
        ),
{
    let snapshot_date = extract_date_from_text(full_csv_text);
    let ghost rows = records.deep_view();
    let ghost req = required_view(profile);
    let ghost reader = esmart_holding_reader();
    let mut holdings: Vec<ParsedHolding> = Vec::new();
    let mut header: Option<HeaderIndex> = None;
    let mut i: usize = 0;
    assert(rows.skip(0) =~= rows);
    assert(holdings.deep_view() + scan_rows(rows, req, None, reader) =~= scan_rows(rows, req, None, reader));
    while i < records.len()
        invariant
            rows == records.deep_view(),
            req == required_view(profile),
            reader == esmart_holding_reader(),
            i <= rows.len(),
            scan_rows(rows, req, None, reader) == holdings.deep_view() + scan_rows(
                rows.skip(i as int),
                req,
                header_view(header),
                reader,
            ),
            header is Some <==> exists|k: int| 0 <= k < i && row_has_columns(#[trigger] rows[k], req),
        decreases rows.len() - i,
    {
        proof {
            lemma_scan_step(rows, i as int, req, header_view(header), reader);
        }
        let ghost before = holdings.deep_view();
        if record_has_columns(&records[i], profile.header_required_columns) {
            header = Some(build_header_index_map(&records[i]));
        } else {
            match &header {
                Some(h) => {
                    match esmart_holding(&records[i], h) {
                        Some(x) => {
                            holdings.push(x);
                            assert(holdings.deep_view() =~= before + seq![x.deep_view()]);
                        },
                        None => {},
                    }
                },
                None => {},
            }
        }
        i = i + 1;
    }
    proof {
        lemma_scan_end(rows, req, header_view(header), reader);
        assert(holdings.deep_view() + Seq::<HoldingModel>::empty() =~= holdings.deep_view());
    }
    if header.is_none() {
        return Err(CsvImportError::HeaderNotFound);
    }
    if holdings.len() == 0 {
        return Err(CsvImportError::NoDataRows);
    }
    Ok(ParsedSnapshot { broker: Broker::Esmart, snapshot_date, holdings })
}

/// How a broker's holding rows are read.
pub open spec fn holding_reader_of(b: Broker) -> spec_fn(Seq<Seq<char>>, RowModel) -> Option<
    HoldingModel,
> {
    match b {
        Broker::Sbi => sbi_holding_reader(),
        Broker::Esmart => esmart_holding_reader(),
    }
}

/// The date a broker's holdings file states: e-smart files carry it in the
/// title line; SBI files carry none.
pub open spec fn stated_snapshot_date(b: Broker, text: Seq<char>) -> Option<CalendarDate> {
    match b {
        Broker::Sbi => None,
        Broker::Esmart => date_in_text(text),
    }
}

/// Reads a holdings CSV file from its bytes: decodes them, tells the broker
/// from the text, reads the rows, and reads the holdings under the headers.
pub fn parse_holdings_csv(raw_bytes: &[u8]) -> (r: Result<ParsedSnapshot, CsvImportError>)
    requires
        raw_bytes@.len() * 4 + 16 <= usize::MAX,
    ensures
        ({
            let text = decoded_csv_text(raw_bytes@);
            match detected_broker(text) {
                None => r matches Err(CsvImportError::UnknownBroker),
                Some(b) => snapshot_result_is(
                    r,
                    b,
                    stated_snapshot_date(b, text),
                    scan_outcome(csv_rows_of(text), header_columns_of(b), holding_reader_of(b)),
                ),
            }
        }),
        !(r matches Err(CsvImportError::CsvRead(_))),
{
    let csv_text = decode_csv_bytes(raw_bytes);
    let profile = match detect_broker(csv_text.as_str()) {
        Some(p) => p,
        None => return Err(CsvImportError::UnknownBroker),
    };
    let all_records = match read_records(csv_text.as_str()) {
        Ok(rows) => rows,
        Err(e) => return Err(e),
    };
    match profile.broker {
        Broker::Sbi => parse_sbi_records(&profile, all_records.as_slice()),
        Broker::Esmart => parse_esmart_records(&profile, all_records.as_slice(), csv_text.as_str()),
    }
}

} // verus!
