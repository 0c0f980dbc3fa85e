//! CSV rows: cell cleaning, header detection, column lookup by header name,
//! and the scan that turns the rows under each header into parsed items.

use vstd::prelude::*;

use crate::amount::{parse_decimal, parse_decimal_spec, Amount};
use crate::text::{chars_equal, has_char, str_chars, trim, trim_chars};

verus! {

/// One CSV row: its cells, in order.
pub type CsvRecord = Vec<String>;

/// The model of a row.
pub type RowModel = Seq<Seq<char>>;

/// The characters that number cells may carry besides the number itself:
/// thousands separators, percent and plus signs, and the yen and share units.
pub open spec fn number_decorations() -> Seq<char> {
    seq![',', '%', '+', '円', '株']
}

/// `s` without the characters that occur in `drop`.
pub open spec fn without_chars_in(s: Seq<char>, drop: Seq<char>) -> Seq<char>
    decreases s.len(),
{
    if s.len() == 0 {
        s
    } else {
        let r = without_chars_in(s.drop_last(), drop);
        if drop.contains(s.last()) {
            r
        } else {
            r.push(s.last())
        }
    }
}

/// The number a cell writes: decorations are removed from the trimmed text;
/// an empty result, `--` and `-` mean no number; otherwise the decimal text
/// is read as `parse_decimal_spec` describes.
pub open spec fn parse_number_spec(raw: Seq<char>) -> Option<Amount> {
    let cleaned = without_chars_in(trim(raw), number_decorations());
    if cleaned.len() == 0 || cleaned == "--"@ || cleaned == "-"@ {
        None
    } else {
        parse_decimal_spec(cleaned)
    }
}

proof fn lemma_without_chars_in_step(s: Seq<char>, i: int, drop: Seq<char>)
    requires
        0 <= i < s.len(),
    ensures
        without_chars_in(s.take(i + 1), drop) == (if drop.contains(s[i]) {
            without_chars_in(s.take(i), drop)
        } else {
            without_chars_in(s.take(i), drop).push(s[i])
        }),
{
    assert(s.take(i + 1).drop_last() =~= s.take(i));
}

/// `s` without the characters that occur in `drop`.
pub fn strip_chars_in(s: &[char], drop: &[char]) -> (r: Vec<char>)
    ensures
        r@ == without_chars_in(s@, drop@),
{
    let mut r: Vec<char> = Vec::new();
    let mut i: usize = 0;
    while i < s.len()
        invariant
            i <= s@.len(),
            r@ == without_chars_in(s@.take(i as int), drop@),
        decreases s@.len() - i,
    {
        proof {
            lemma_without_chars_in_step(s@, i as int, drop@);
        }
        let c = s[i];
        if !has_char(drop, c) {
            r.push(c);
        }
        i = i + 1;
    }
    assert(s@.take(s@.len() as int) =~= s@);
    r
}

/// Whether `s` is `--` or `-`.
pub fn is_dash_placeholder(s: &[char]) -> (r: bool)
    ensures
        r == (s@ == "--"@ || s@ == "-"@),
{
    let dash = str_chars("-");
    let dashes = str_chars("--");
    chars_equal(s, &dashes) || chars_equal(s, &dash)
}

/// Reads the number in a cell such as `"1,234"`, `+2.85%` or `--`.
pub fn parse_number_chars(raw: &[char]) -> (r: Option<Amount>)
    ensures
        r == parse_number_spec(raw@),
{
    let t = trim_chars(raw);
    let drop = vec![',', '%', '+', '円', '株'];
    assert(drop@ =~= number_decorations());
    let cleaned = strip_chars_in(&t, &drop);
    if cleaned.len() == 0 || is_dash_placeholder(&cleaned) {
        return None;
    }
    parse_decimal(&cleaned)
}

/// Reads the number in a cell such as `"1,234"`, `+2.85%` or `--`.
pub fn parse_number(raw_text: &str) -> (r: Option<Amount>)
    ensures
        r == parse_number_spec(raw_text@),
{
    let c = str_chars(raw_text);
    parse_number_chars(&c)
}

/// Some cell of `rec`, trimmed, equals `name`.
pub open spec fn row_has_cell(rec: RowModel, name: Seq<char>) -> bool {
    exists|k: int| 0 <= k < rec.len() && trim(#[trigger] rec[k]) == name
}

/// Every name of `required` is the trimmed text of some cell of `rec`.
pub open spec fn row_has_columns(rec: RowModel, required: Seq<Seq<char>>) -> bool {
    forall|j: int| 0 <= j < required.len() ==> row_has_cell(rec, #[trigger] required[j])
}

/// The characters of the `i`-th cell.
pub fn cell_chars(record: &CsvRecord, i: usize) -> (r: Vec<char>)
    requires
        i < record@.len(),
    ensures
        r@ == record.deep_view()[i as int],
{
    str_chars(record[i].as_str())
}

fn record_has_cell(record: &CsvRecord, name: &[char]) -> (r: bool)
    ensures
        r == row_has_cell(record.deep_view(), name@),
{
    let mut k: usize = 0;
    while k < record.len()
        invariant
            k <= record@.len(),
            forall|t: int| 0 <= t < k ==> trim(#[trigger] record.deep_view()[t]) != name@,
        decreases record@.len() - k,
    {
        let c = cell_chars(record, k);
        let t = trim_chars(&c);
        if chars_equal(&t, name) {
            return true;
        }
        k = k + 1;
    }
    false
}

/// Whether the row holds, among its trimmed cells, every required column name.
pub fn record_has_columns(record: &CsvRecord, required_columns: &[&str]) -> (r: bool)
    ensures
        r == row_has_columns(
            record.deep_view(),
            required_columns@.map_values(|t: &str| t@),
        ),
{
    let ghost req = required_columns@.map_values(|t: &str| t@);
    let mut j: usize = 0;
    while j < required_columns.len()
        invariant
            j <= required_columns@.len(),
            req == required_columns@.map_values(|t: &str| t@),
            forall|t: int| 0 <= t < j ==> row_has_cell(record.deep_view(), #[trigger] req[t]),
        decreases required_columns@.len() - j,
    {
        let name = str_chars(required_columns[j]);
        if !record_has_cell(record, &name) {
            assert(!row_has_cell(record.deep_view(), req[j as int]));
            return false;
        }
        j = j + 1;
    }
    true
}

/// The column names of a header row: its cells, trimmed.
pub open spec fn header_columns(rec: RowModel) -> Seq<Seq<char>> {
    rec.map_values(|c: Seq<char>| trim(c))
}

/// The column names of a header row, with which cells are found by name.
/// Several columns may share a name.
pub struct HeaderIndex {
    pub columns: Vec<Vec<char>>,
}

impl View for HeaderIndex {
    type V = Seq<Seq<char>>;

    open spec fn view(&self) -> Seq<Seq<char>> {
        self.columns@.map_values(|c: Vec<char>| c@)
    }
}

/// Builds the index of a header row.
pub fn build_header_index_map(header_record: &CsvRecord) -> (r: HeaderIndex)
    ensures
        r@ == header_columns(header_record.deep_view()),
{
    let mut columns: Vec<Vec<char>> = Vec::new();
    let mut k: usize = 0;
    while k < header_record.len()
        invariant
            k <= header_record@.len(),
            columns@.map_values(|c: Vec<char>| c@) == header_columns(
                header_record.deep_view(),
            ).take(k as int),
        decreases header_record@.len() - k,
    {
        let c = cell_chars(header_record, k);
        let t = trim_chars(&c);
        let ghost before = columns@.map_values(|c: Vec<char>| c@);
        columns.push(t);
        proof {
            let h = header_columns(header_record.deep_view());
            assert(h[k as int] == trim(header_record.deep_view()[k as int]));
            assert(columns@.map_values(|c: Vec<char>| c@) =~= before.push(t@));
            assert(h.take(k + 1) =~= h.take(k as int).push(h[k as int]));
        }
        k = k + 1;
    }
    assert(header_columns(header_record.deep_view()).take(k as int) =~= header_columns(
        header_record.deep_view(),
    ));
    HeaderIndex { columns }
}

/// The first position at or after `k` whose column is named `name`.
pub open spec fn first_column_from(cols: Seq<Seq<char>>, name: Seq<char>, k: int) -> Option<int>
    decreases cols.len() - k,
{
    if k < 0 || k >= cols.len() {
        None
    } else if cols[k] == name {
        Some(k)
    } else {
        first_column_from(cols, name, k + 1)
    }
}

/// The trimmed cell under the first column named `name`, when the row reaches it.
pub open spec fn field_text_spec(cols: Seq<Seq<char>>, rec: RowModel, name: Seq<char>) -> Option<
    Seq<char>,
> {
    match first_column_from(cols, name, 0) {
        Some(i) => if i < rec.len() {
            Some(trim(rec[i]))
        } else {
            None
        },
        None => None,
    }
}

/// The number in the first cell, under a column named `name`, that holds one.
pub open spec fn numeric_field_from(cols: Seq<Seq<char>>, rec: RowModel, name: Seq<char>, k: int) -> Option<
    Amount,
>
    decreases cols.len() - k,
{
    if k < 0 || k >= cols.len() {
        None
    } else if cols[k] == name && k < rec.len() && parse_number_spec(rec[k]) is Some {
        parse_number_spec(rec[k])
    } else {
        numeric_field_from(cols, rec, name, k + 1)
    }
}

pub open spec fn numeric_field_spec(cols: Seq<Seq<char>>, rec: RowModel, name: Seq<char>) -> Option<Amount> {
    numeric_field_from(cols, rec, name, 0)
}

/// Position `k` is the one column of the header named `name`.
pub open spec fn only_column(cols: Seq<Seq<char>>, name: Seq<char>, k: int) -> bool {
    &&& 0 <= k < cols.len()
    &&& cols[k] == name
    &&& forall|j: int| 0 <= j < cols.len() && j != k ==> cols[j] != name
}

/// No column of the header is named `name`.
pub open spec fn no_column(cols: Seq<Seq<char>>, name: Seq<char>) -> bool {
    forall|j: int| 0 <= j < cols.len() ==> cols[j] != name
}

/// The number in the row's cell at position `k`; `None` when the row ends
/// before it or the cell holds no number.
pub open spec fn number_at(rec: RowModel, k: int) -> Option<Amount> {
    if 0 <= k < rec.len() {
        parse_number_spec(rec[k])
    } else {
        None
    }
}

/// The row's cell at position `k`, trimmed; `None` when the row ends before it.
pub open spec fn text_at(rec: RowModel, k: int) -> Option<Seq<char>> {
    if 0 <= k < rec.len() {
        Some(trim(rec[k]))
    } else {
        None
    }
}

proof fn lemma_fields_past_name(cols: Seq<Seq<char>>, rec: RowModel, name: Seq<char>, m: int)
    requires
        0 <= m,
        forall|j: int| m <= j < cols.len() ==> cols[j] != name,
    ensures
        numeric_field_from(cols, rec, name, m) is None,
        first_column_from(cols, name, m) is None,
    decreases cols.len() - m,
{
    if m < cols.len() {
        lemma_fields_past_name(cols, rec, name, m + 1);
    }
}

proof fn lemma_fields_skip_to(cols: Seq<Seq<char>>, rec: RowModel, name: Seq<char>, m: int, k: int)
    requires
        0 <= m <= k <= cols.len(),
        forall|j: int| m <= j < k ==> cols[j] != name,
    ensures
        numeric_field_from(cols, rec, name, m) == numeric_field_from(cols, rec, name, k),
        first_column_from(cols, name, m) == first_column_from(cols, name, k),
    decreases k - m,
{
    if m < k {
        lemma_fields_skip_to(cols, rec, name, m + 1, k);
    }
}

/// Under the one column named `name`, a row's number is the number in its
/// cell at that position, and its text is that cell, trimmed; under no
/// column of that name there is neither.
pub proof fn lemma_named_cell(cols: Seq<Seq<char>>, rec: RowModel, name: Seq<char>, k: int)
    ensures
        only_column(cols, name, k) ==> numeric_field_spec(cols, rec, name) == number_at(rec, k)
            && field_text_spec(cols, rec, name) == text_at(rec, k),
        no_column(cols, name) ==> numeric_field_spec(cols, rec, name) is None && field_text_spec(
            cols,
            rec,
            name,
        ) is None,
{
    if only_column(cols, name, k) {
        lemma_fields_skip_to(cols, rec, name, 0, k);
        lemma_fields_past_name(cols, rec, name, k + 1);
    }
    if no_column(cols, name) {
        lemma_fields_past_name(cols, rec, name, 0);
    }
}

impl HeaderIndex {
    /// The first position whose column is named `name`.
    pub fn first_column(&self, name: &[char]) -> (r: Option<usize>)
        ensures
            match r {
                Some(i) => first_column_from(self@, name@, 0) == Some(i as int),
                None => first_column_from(self@, name@, 0) is None,
            },
    {
        let mut k: usize = 0;
        while k < self.columns.len()
            invariant
                k <= self@.len(),
                self@.len() == self.columns@.len(),
                first_column_from(self@, name@, 0) == first_column_from(self@, name@, k as int),
            decreases self@.len() - k,
        {
            if chars_equal(&self.columns[k], name) {
                return Some(k);
            }
            k = k + 1;
        }
        None
    }
}

/// The trimmed cell under the first column named `column_name`.
pub fn field_text(record: &CsvRecord, header_index_map: &HeaderIndex, column_name: &str) -> (r:
    Option<Vec<char>>)
    ensures
        r.deep_view() == field_text_spec(header_index_map@, record.deep_view(), column_name@),
{
    let name = str_chars(column_name);
    match header_index_map.first_column(&name) {
        Some(i) => {
            if i < record.len() {
                let c = cell_chars(record, i);
                Some(trim_chars(&c))
            } else {
                None
            }
        },
        None => None,
    }
}

/// The first number found in the cells under columns named `column_name`.
/// (A name may head several columns, of which only one holds a number.)
pub fn numeric_field(record: &CsvRecord, header_index_map: &HeaderIndex, column_name: &str) -> (r:
    Option<Amount>)
    ensures
        r == numeric_field_spec(header_index_map@, record.deep_view(), column_name@),
{
    let name = str_chars(column_name);
    let mut k: usize = 0;
    while k < header_index_map.columns.len()
        invariant
            k <= header_index_map@.len(),
            header_index_map@.len() == header_index_map.columns@.len(),
            numeric_field_spec(header_index_map@, record.deep_view(), name@) == numeric_field_from(
                header_index_map@,
                record.deep_view(),
                name@,
                k as int,
            ),
            name@ == column_name@,
        decreases header_index_map@.len() - k,
    {
        if k < record.len() && chars_equal(&header_index_map.columns[k], &name) {
            let c = cell_chars(record, k);
            let v = parse_number_chars(&c);
            if v.is_some() {
                return v;
            }
        }
        k = k + 1;
    }
    None
}

/// The items that `row` reads from the rows of `records`. A row holding all
/// `required` column names is a header: it gives the column names for the
/// rows after it, up to the next header. Rows before the first header are
/// passed over, as are rows for which `row` gives nothing.
pub open spec fn scan_rows<T>(
    records: Seq<RowModel>,
    required: Seq<Seq<char>>,
    cols: Option<Seq<Seq<char>>>,
    row: spec_fn(Seq<Seq<char>>, RowModel) -> Option<T>,
) -> Seq<T>
    decreases records.len(),
{
    if records.len() == 0 {
        Seq::<T>::empty()
    } else {
        let r = records[0];
        let rest = records.drop_first();
        if row_has_columns(r, required) {
            scan_rows(rest, required, Some(header_columns(r)), row)
        } else {
            match cols {
                None => scan_rows(rest, required, None, row),
                Some(c) => match row(c, r) {
                    Some(x) => seq![x] + scan_rows(rest, required, Some(c), row),
                    None => scan_rows(rest, required, Some(c), row),
                },
            }
        }
    }
}

/// Some row of `records` is a header row.
pub open spec fn has_header_row(records: Seq<RowModel>, required: Seq<Seq<char>>) -> bool {
    exists|i: int| 0 <= i < records.len() && row_has_columns(#[trigger] records[i], required)
}

/// How reading the rows ends: the items read, or which of the two failures.
pub enum ScanOutcome<T> {
    Items(Seq<T>),
    HeaderNotFound,
    NoDataRows,
}

pub open spec fn scan_outcome<T>(
    records: Seq<RowModel>,
    required: Seq<Seq<char>>,
    row: spec_fn(Seq<Seq<char>>, RowModel) -> Option<T>,
) -> ScanOutcome<T> {
    if !has_header_row(records, required) {
        ScanOutcome::HeaderNotFound
    } else if scan_rows(records, required, None, row).len() == 0 {
        ScanOutcome::NoDataRows
    } else {
        ScanOutcome::Items(scan_rows(records, required, None, row))
    }
}

/// One step of the scan, as the loops that implement it take it.
pub proof fn lemma_scan_step<T>(
    records: Seq<RowModel>,
    i: int,
    required: Seq<Seq<char>>,
    cols: Option<Seq<Seq<char>>>,
    row: spec_fn(Seq<Seq<char>>, RowModel) -> Option<T>,
)
    requires
        0 <= i < records.len(),
    ensures
        scan_rows(records.skip(i), required, cols, row) == (if row_has_columns(
            records[i],
            required,
        ) {
            scan_rows(records.skip(i + 1), required, Some(header_columns(records[i])), row)
        } else {
            match cols {
                None => scan_rows(records.skip(i + 1), required, None, row),
                Some(c) => match row(c, records[i]) {
                    Some(x) => seq![x] + scan_rows(records.skip(i + 1), required, Some(c), row),
                    None => scan_rows(records.skip(i + 1), required, Some(c), row),
                },
            }
        }),
{
    assert(records.skip(i).drop_first() =~= records.skip(i + 1));
    assert(records.skip(i)[0] == records[i]);
}

pub proof fn lemma_scan_end<T>(
    records: Seq<RowModel>,
    required: Seq<Seq<char>>,
    cols: Option<Seq<Seq<char>>>,
    row: spec_fn(Seq<Seq<char>>, RowModel) -> Option<T>,
)
    ensures
        scan_rows(records.skip(records.len() as int), required, cols, row) == Seq::<T>::empty(),
{
    assert(records.skip(records.len() as int) =~= Seq::<RowModel>::empty());
}

} // verus!
