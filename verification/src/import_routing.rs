//! Which importer a CSV file goes to, and which date a holdings snapshot is
//! filed under.

use vstd::prelude::*;

use crate::csv_import::{decode_csv_bytes, decoded_csv_text};
use crate::date::{chrono_parsed_date, parse_date_chars, CalendarDate};
use crate::realized_pnl_import::{is_realized_pnl_text, looks_like_realized_pnl_csv};
use crate::text::{str_chars, string_from_chars, trim, trim_chars};
use crate::trade_import::{is_trade_csv_text, looks_like_trade_csv};

verus! {

/// The kinds of CSV file the application imports.
#[derive(Clone, Copy, Debug, PartialEq, Eq, Structural)]
pub enum CsvKind {
    RealizedPnl,
    Trade,
    Holdings,
}

/// A realized-profit statement is recognised first (it also mentions the
/// trade date column), then a trade history; anything else is a holdings
/// snapshot.
pub open spec fn csv_kind_of(text: Seq<char>) -> CsvKind {
    if is_realized_pnl_text(text) {
        CsvKind::RealizedPnl
    } else if is_trade_csv_text(text) {
        CsvKind::Trade
    } else {
        CsvKind::Holdings
    }
}

/// The kind of a decoded CSV text.
pub fn csv_kind_of_text(csv_text: &str) -> (r: CsvKind)
    ensures
        r == csv_kind_of(csv_text@),
{
    if looks_like_realized_pnl_csv(csv_text) {
        CsvKind::RealizedPnl
    } else if looks_like_trade_csv(csv_text) {
        CsvKind::Trade
    } else {
        CsvKind::Holdings
    }
}

/// The kind of a CSV file, from its bytes.
pub fn csv_kind(raw_bytes: &[u8]) -> (r: CsvKind)
    requires
        raw_bytes@.len() * 4 + 16 <= usize::MAX,
    ensures
        r == csv_kind_of(decoded_csv_text(raw_bytes@)),
{
    let text = decode_csv_bytes(raw_bytes);
    csv_kind_of_text(text.as_str())
}

/// The date a holdings snapshot is filed under: the date typed on the
/// screen when one is typed (surrounding whitespace ignored; it must read as
/// `YYYY-MM-DD`, else the typed text is the error), else the date the file
/// states, else today.
pub open spec fn snapshot_date_spec(
    typed: Option<Seq<char>>,
    stated: Option<CalendarDate>,
    today: CalendarDate,
) -> Result<CalendarDate, Seq<char>> {
    match typed {
        Some(t) if trim(t).len() > 0 => match chrono_parsed_date(trim(t), "%Y-%m-%d"@) {
            Some(d) => Ok(d),
            None => Err(trim(t)),
        },
        _ => match stated {
            Some(d) => Ok(d),
            None => Ok(today),
        },
    }
}

/// Chooses the snapshot date; `today` is the local date of the import.
pub fn choose_snapshot_date(
    typed: Option<&str>,
    stated: Option<CalendarDate>,
    today: CalendarDate,
) -> (r: Result<CalendarDate, String>)
    ensures
        match snapshot_date_spec(
            match typed {
                Some(t) => Some(t@),
                None => None,
            },
            stated,
            today,
        ) {
            Ok(d) => r == Ok::<CalendarDate, String>(d),
            Err(t) => r matches Err(e) && e@ == t,
        },
{
    let typed_date = match typed {
        Some(t) => {
            let trimmed = trim_chars(&str_chars(t));
            if trimmed.len() > 0 {
                match parse_date_chars(&trimmed, "%Y-%m-%d") {
                    Some(d) => Some(d),
                    None => {
                        return Err(string_from_chars(&trimmed));
                    },
                }
            } else {
                None
            }
        },
        None => None,
    };
    match typed_date {
        Some(d) => Ok(d),
        None => match stated {
            Some(d) => Ok(d),
            None => Ok(today),
        },
    }
}

} // verus!
