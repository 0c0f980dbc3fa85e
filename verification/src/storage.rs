//! What an import writes and reports: the stock-master merge rule, the
//! deterministic keys that keep re-imported trades and sales from being
//! stored twice, and the summaries of each import.

use vstd::prelude::*;

use crate::amount::{
    amount_debug_text, amount_text, digit_char, digit_value, digits_value, nat_digits, nat_digits_u,
    Amount, MAX_CELL_MICROS,
};
use crate::date::{iso_date_text, CalendarDate};
use crate::models::{
    broker_display_text, broker_identifier_text, side_identifier_text, Broker, HoldingModel, ImportSummary,
    ParsedRealizedPnl, ParsedRealizedPnlFile, ParsedTrade, ParsedTradeFile, RealizedPnlImportSummary,
    TradeImportSummary,
};
use crate::text::{chars_equal, str_chars, string_from_chars};

verus! {

fn push_str(v: &mut Vec<char>, s: &str)
    ensures
        final(v)@ == old(v)@ + s@,
{
    let c = str_chars(s);
    crate::amount::append_chars_to(v, &c);
}

fn push_chars(v: &mut Vec<char>, s: &[char])
    ensures
        final(v)@ == old(v)@ + s@,
{
    crate::amount::append_chars_to(v, s);
}

// ---------------------------------------------------------------------------
// Stock master
// ---------------------------------------------------------------------------

/// One row of the stock master: code, name and sector classification.
#[derive(Debug)]
pub struct StockMasterEntry {
    pub stock_code: String,
    pub stock_name: String,
    pub sector_33: Option<String>,
    pub sector_detail: Option<String>,
}

/// The name kept when a stock is seen again: the longer of the two (brokers
/// abbreviate names differently, and the longer one is the fuller name); on a
/// tie the stored one stays.
pub open spec fn merged_name(stored: Seq<char>, incoming: Seq<char>) -> Seq<char> {
    if incoming.len() > stored.len() {
        incoming
    } else {
        stored
    }
}

/// A sector that the incoming row carries replaces the stored one; an
/// absent one keeps it.
pub open spec fn merged_sector(stored: Option<Seq<char>>, incoming: Option<Seq<char>>) -> Option<
    Seq<char>,
> {
    match incoming {
        Some(s) => Some(s),
        None => stored,
    }
}

/// The master never loses what it knew: the kept name is at least as long
/// as both the stored and the incoming one, a known sector stays known, and
/// seeing the same row again changes nothing.
pub proof fn lemma_merge_keeps_fullest(
    stored_name: Seq<char>,
    incoming_name: Seq<char>,
    stored_sector: Option<Seq<char>>,
    incoming_sector: Option<Seq<char>>,
)
    ensures
        merged_name(stored_name, incoming_name).len() >= stored_name.len(),
        merged_name(stored_name, incoming_name).len() >= incoming_name.len(),
        merged_name(merged_name(stored_name, incoming_name), incoming_name) == merged_name(
            stored_name,
            incoming_name,
        ),
        stored_sector is Some ==> merged_sector(stored_sector, incoming_sector) is Some,
        merged_sector(merged_sector(stored_sector, incoming_sector), incoming_sector)
            == merged_sector(stored_sector, incoming_sector),
{
}

fn clone_string(s: &String) -> (r: String)
    ensures
        r@ == s@,
{
    s.clone()
}

fn clone_opt_string(s: &Option<String>) -> (r: Option<String>)
    ensures
        r.deep_view() == s.deep_view(),
{
    match s {
        Some(x) => Some(clone_string(x)),
        None => None,
    }
}

/// The name to store for a stock, given the stored one if any.
pub fn merge_stock_name(stored: Option<&String>, incoming: &String) -> (r: String)
    ensures
        r@ == match stored {
            Some(s) => merged_name(s@, incoming@),
            None => incoming@,
        },
{
    match stored {
        Some(s) => {
            let a = str_chars(s.as_str());
            let b = str_chars(incoming.as_str());
            if b.len() > a.len() {
                clone_string(incoming)
            } else {
                clone_string(s)
            }
        },
        None => clone_string(incoming),
    }
}

/// The stock-master row after a holding is imported: a new stock takes the
/// incoming row; a known one keeps the longer name and takes each sector
/// that the incoming row carries.
pub fn merge_stock_master(stored: Option<&StockMasterEntry>, incoming: &StockMasterEntry) -> (r:
    StockMasterEntry)
    ensures
        r.stock_code@ == incoming.stock_code@,
        match stored {
            None => {
                &&& r.stock_name@ == incoming.stock_name@
                &&& r.sector_33.deep_view() == incoming.sector_33.deep_view()
                &&& r.sector_detail.deep_view() == incoming.sector_detail.deep_view()
            },
            Some(s) => {
                &&& r.stock_name@ == merged_name(s.stock_name@, incoming.stock_name@)
                &&& r.sector_33.deep_view() == merged_sector(
                    s.sector_33.deep_view(),
                    incoming.sector_33.deep_view(),
                )
                &&& r.sector_detail.deep_view() == merged_sector(
                    s.sector_detail.deep_view(),
                    incoming.sector_detail.deep_view(),
                )
            },
        },
{
    match stored {
        None => StockMasterEntry {
            stock_code: clone_string(&incoming.stock_code),
            stock_name: clone_string(&incoming.stock_name),
            sector_33: clone_opt_string(&incoming.sector_33),
            sector_detail: clone_opt_string(&incoming.sector_detail),
        },
        Some(s) => StockMasterEntry {
            stock_code: clone_string(&incoming.stock_code),
            stock_name: merge_stock_name(Some(&s.stock_name), &incoming.stock_name),
            sector_33: if incoming.sector_33.is_some() {
                clone_opt_string(&incoming.sector_33)
            } else {
                clone_opt_string(&s.sector_33)
            },
            sector_detail: if incoming.sector_detail.is_some() {
                clone_opt_string(&incoming.sector_detail)
            } else {
                clone_opt_string(&s.sector_detail)
            },
        },
    }
}

// ---------------------------------------------------------------------------
// Deterministic keys
// ---------------------------------------------------------------------------

/// How Rust's `Debug` writes an optional float: `Some(..)` or `None`.
pub open spec fn opt_amount_debug_text(a: Option<Amount>) -> Seq<char> {
    match a {
        Some(x) => "Some("@ + amount_debug_text(x) + ")"@,
        None => "None"@,
    }
}

/// How Rust's `Debug` writes an optional date text.
pub open spec fn opt_date_debug_text(d: Option<CalendarDate>) -> Seq<char> {
    match d {
        Some(x) => "Some(\""@ + iso_date_text(x) + "\")"@,
        None => "None"@,
    }
}

/// The content of a trade that tells it apart: broker, trade date, code,
/// side, quantity, price, settlement amount and account type, joined by `|`.
pub open spec fn trade_content_key(b: Broker, t: ParsedTrade) -> Seq<char> {
    broker_identifier_text(b) + "|"@ + iso_date_text(t.trade_date) + "|"@ + t.stock_code@ + "|"@
        + side_identifier_text(t.side) + "|"@ + amount_text(t.quantity) + "|"@
        + opt_amount_debug_text(t.price) + "|"@ + opt_amount_debug_text(t.settlement_amount) + "|"@
        + t.account_type@
}

/// The content of a sale that tells it apart: broker, trade date, code,
/// quantity, sale amount, acquisition amount and date, and profit.
pub open spec fn realized_content_key(b: Broker, r: ParsedRealizedPnl) -> Seq<char> {
    broker_identifier_text(b) + "|"@ + iso_date_text(r.trade_date) + "|"@ + r.stock_code@ + "|"@
        + amount_text(r.quantity) + "|"@ + opt_amount_debug_text(r.sell_amount) + "|"@
        + opt_amount_debug_text(r.acquisition_amount) + "|"@ + opt_date_debug_text(
        r.acquisition_date,
    ) + "|"@ + amount_text(r.realized_profit_loss)
}

/// How many of the first `upto` keys equal `k`.
pub open spec fn count_equal_before(keys: Seq<Seq<char>>, k: Seq<char>, upto: int) -> nat
    decreases upto,
{
    if upto <= 0 {
        0
    } else {
        count_equal_before(keys, k, upto - 1) + (if keys[upto - 1] == k {
            1nat
        } else {
            0nat
        })
    }
}

/// The key of the `i`-th item: its content, `#`, and how many earlier items
/// of the same file have the same content. Rows repeated inside one file
/// stay apart; a file imported again gives the same keys.
pub open spec fn dedup_key(contents: Seq<Seq<char>>, i: int) -> Seq<char> {
    contents[i] + "#"@ + nat_digits(count_equal_before(contents, contents[i], i))
}

pub open spec fn dedup_keys(contents: Seq<Seq<char>>) -> Seq<Seq<char>> {
    Seq::new(contents.len(), |i: int| dedup_key(contents, i))
}

pub open spec fn trade_contents(b: Broker, trades: Seq<ParsedTrade>) -> Seq<Seq<char>> {
    trades.map_values(|t: ParsedTrade| trade_content_key(b, t))
}

pub open spec fn realized_contents(b: Broker, records: Seq<ParsedRealizedPnl>) -> Seq<Seq<char>> {
    records.map_values(|r: ParsedRealizedPnl| realized_content_key(b, r))
}

fn push_opt_amount_debug(v: &mut Vec<char>, a: Option<Amount>)
    ensures
        final(v)@ == old(v)@ + opt_amount_debug_text(a),
{
    match a {
        Some(x) => {
            push_str(v, "Some(");
            let d = x.to_debug_chars();
            push_chars(v, &d);
            push_str(v, ")");
            assert(v@ =~= old(v)@ + ("Some("@ + amount_debug_text(x) + ")"@));
        },
        None => push_str(v, "None"),
    }
}

fn push_opt_date_debug(v: &mut Vec<char>, d: Option<CalendarDate>)
    requires
        d matches Some(x) ==> x.is_valid(),
    ensures
        final(v)@ == old(v)@ + opt_date_debug_text(d),
{
    match d {
        Some(x) => {
            push_str(v, "Some(\"");
            let t = x.to_iso_chars();
            push_chars(v, &t);
            push_str(v, "\")");
            assert(v@ =~= old(v)@ + ("Some(\""@ + iso_date_text(x) + "\")"@));
        },
        None => push_str(v, "None"),
    }
}

/// The content key of a trade (`trade_content_key`).
pub fn trade_content_chars(b: Broker, t: &ParsedTrade) -> (r: Vec<char>)
    requires
        t.trade_date.is_valid(),
    ensures
        r@ == trade_content_key(b, *t),
{
    let mut v: Vec<char> = Vec::new();
    push_str(&mut v, b.identifier());
    push_str(&mut v, "|");
    let d = t.trade_date.to_iso_chars();
    push_chars(&mut v, &d);
    push_str(&mut v, "|");
    push_str(&mut v, t.stock_code.as_str());
    push_str(&mut v, "|");
    push_str(&mut v, t.side.identifier());
    push_str(&mut v, "|");
    let q = t.quantity.to_text_chars();
    push_chars(&mut v, &q);
    push_str(&mut v, "|");
    push_opt_amount_debug(&mut v, t.price);
    push_str(&mut v, "|");
    push_opt_amount_debug(&mut v, t.settlement_amount);
    push_str(&mut v, "|");
    push_str(&mut v, t.account_type.as_str());
    assert(v@ =~= trade_content_key(b, *t));
    v
}

/// The content key of a sale (`realized_content_key`).
pub fn realized_content_chars(b: Broker, r: &ParsedRealizedPnl) -> (out: Vec<char>)
    requires
        r.trade_date.is_valid(),
        r.acquisition_date matches Some(d) ==> d.is_valid(),
    ensures
        out@ == realized_content_key(b, *r),
{
    let mut v: Vec<char> = Vec::new();
    push_str(&mut v, b.identifier());
    push_str(&mut v, "|");
    let d = r.trade_date.to_iso_chars();
    push_chars(&mut v, &d);
    push_str(&mut v, "|");
    push_str(&mut v, r.stock_code.as_str());
    push_str(&mut v, "|");
    let q = r.quantity.to_text_chars();
    push_chars(&mut v, &q);
    push_str(&mut v, "|");
    push_opt_amount_debug(&mut v, r.sell_amount);
    push_str(&mut v, "|");
    push_opt_amount_debug(&mut v, r.acquisition_amount);
    push_str(&mut v, "|");
    push_opt_date_debug(&mut v, r.acquisition_date);
    push_str(&mut v, "|");
    let p = r.realized_profit_loss.to_text_chars();
    push_chars(&mut v, &p);
    assert(v@ =~= realized_content_key(b, *r));
    v
}

proof fn lemma_count_step(keys: Seq<Seq<char>>, k: Seq<char>, j: int)
    requires
        0 <= j,
    ensures
        count_equal_before(keys, k, j + 1) == count_equal_before(keys, k, j) + (if keys[j] == k {
            1nat
        } else {
            0nat
        }),
{
}

/// The keys of a file's items from their contents (`dedup_keys`).
pub fn dedup_keys_of(contents: &Vec<Vec<char>>) -> (r: Vec<String>)
    ensures
        r.deep_view() == dedup_keys(contents.deep_view()),
{
    let ghost cs = contents.deep_view();
    let mut keys: Vec<String> = Vec::new();
    let mut i: usize = 0;
    while i < contents.len()
        invariant
            cs == contents.deep_view(),
            i <= cs.len(),
            keys.deep_view() == dedup_keys(cs).take(i as int),
        decreases cs.len() - i,
    {
        let mut count: usize = 0;
        let mut j: usize = 0;
        while j < i
            invariant
                cs == contents.deep_view(),
                j <= i < cs.len(),
                count == count_equal_before(cs, cs[i as int], j as int),
                count <= j,
            decreases i - j,
        {
            proof {
                lemma_count_step(cs, cs[i as int], j as int);
                assert(contents[j as int]@ =~= cs[j as int]);
                assert(contents[i as int]@ =~= cs[i as int]);
            }
            if chars_equal(&contents[j], &contents[i]) {
                count = count + 1;
            }
            j = j + 1;
        }
        let mut k: Vec<char> = Vec::new();
        push_chars(&mut k, &contents[i]);
        push_str(&mut k, "#");
        let digits = nat_digits_u(count as u128);
        push_chars(&mut k, &digits);
        let ghost before = keys.deep_view();
        proof {
            assert(contents[i as int]@ =~= cs[i as int]);
            assert(k@ =~= dedup_key(cs, i as int));
        }
        let ks = string_from_chars(&k);
        keys.push(ks);
        assert(keys.deep_view() =~= before.push(k@));
        i = i + 1;
        assert(keys.deep_view() =~= dedup_keys(cs).take(i as int));
    }
    assert(dedup_keys(cs).take(i as int) =~= dedup_keys(cs));
    keys
}

proof fn lemma_digit_char_value(d: nat)
    requires
        d < 10,
    ensures
        digit_value(digit_char(d)) == d,
        digit_char(d) != '#',
{
}

/// The decimal text of `n` reads back as `n` and holds no `#`.
proof fn lemma_nat_digits_value(n: nat)
    ensures
        digits_value(nat_digits(n)) == n,
        forall|i: int| 0 <= i < nat_digits(n).len() ==> #[trigger] nat_digits(n)[i] != '#',
    decreases n,
{
    if n < 10 {
        lemma_digit_char_value(n);
        let s = nat_digits(n);
        assert(s.drop_last() =~= Seq::<char>::empty());
        assert(digits_value(Seq::<char>::empty()) == 0);
        assert(s.last() == digit_char(n));
        assert(digits_value(s) == digits_value(s.drop_last()) * 10 + digit_value(s.last()));
    } else {
        lemma_nat_digits_value(n / 10);
        lemma_digit_char_value(n % 10);
        let s = nat_digits(n);
        assert(s.drop_last() =~= nat_digits(n / 10));
        assert(s.last() == digit_char(n % 10));
        assert(digits_value(s) == digits_value(s.drop_last()) * 10 + digit_value(s.last()));
        assert((n / 10) * 10 + n % 10 == n) by (nonlinear_arith);
        assert forall|i: int| 0 <= i < s.len() implies #[trigger] s[i] != '#' by {
            if i < s.len() - 1 {
                assert(s[i] == nat_digits(n / 10)[i]);
            }
        }
    }
}

/// A key splits at its last `#`: content and count are read back from it.
proof fn lemma_key_split(c1: Seq<char>, d1: Seq<char>, c2: Seq<char>, d2: Seq<char>)
    requires
        forall|i: int| 0 <= i < d1.len() ==> #[trigger] d1[i] != '#',
        forall|i: int| 0 <= i < d2.len() ==> #[trigger] d2[i] != '#',
        c1 + "#"@ + d1 == c2 + "#"@ + d2,
    ensures
        c1 == c2,
        d1 == d2,
{
    reveal_strlit("#");
    let p1 = c1 + "#"@;
    let p2 = c2 + "#"@;
    assert(p1.len() == c1.len() + 1);
    assert(p2.len() == c2.len() + 1);
    let s = p1 + d1;
    assert(s =~= p2 + d2);
    assert(s[c1.len() as int] == '#');
    assert(s[c2.len() as int] == '#');
    assert(s.len() == p1.len() + d1.len());
    assert(s.len() == p2.len() + d2.len());
    if c1.len() < c2.len() {
        let k = c2.len() as int;
        assert(p1.len() <= k < s.len());
        assert(s[k] == d1[k - p1.len()]);
    } else if c2.len() < c1.len() {
        let k = c1.len() as int;
        assert(p2.len() <= k < s.len());
        assert((p2 + d2)[k] == d2[k - p2.len()]);
    }
    assert(c1 =~= s.take(c1.len() as int));
    assert(c2 =~= s.take(c2.len() as int));
    assert(d1 =~= s.skip(c1.len() as int + 1));
    assert(d2 =~= s.skip(c2.len() as int + 1));
}

proof fn lemma_count_grows(keys: Seq<Seq<char>>, i: int, j: int)
    requires
        0 <= i < j <= keys.len(),
    ensures
        count_equal_before(keys, keys[i], j) >= count_equal_before(keys, keys[i], i) + 1,
    decreases j - i,
{
    if j > i + 1 {
        lemma_count_grows(keys, i, j - 1);
    }
}

/// No two items of one file get the same key, even when their contents are
/// equal: such items are told apart by how many equal ones came before.
pub proof fn lemma_dedup_keys_distinct(contents: Seq<Seq<char>>, i: int, j: int)
    requires
        0 <= i < j < contents.len(),
    ensures
        dedup_keys(contents)[i] != dedup_keys(contents)[j],
{
    let ni = count_equal_before(contents, contents[i], i);
    let nj = count_equal_before(contents, contents[j], j);
    lemma_nat_digits_value(ni);
    lemma_nat_digits_value(nj);
    if dedup_keys(contents)[i] == dedup_keys(contents)[j] {
        lemma_key_split(contents[i], nat_digits(ni), contents[j], nat_digits(nj));
        lemma_count_grows(contents, i, j);
    }
}

proof fn lemma_count_prefix(a: Seq<Seq<char>>, b: Seq<Seq<char>>, k: Seq<char>, upto: int)
    requires
        upto <= a.len(),
    ensures
        count_equal_before(a + b, k, upto) == count_equal_before(a, k, upto),
    decreases upto,
{
    if upto > 0 {
        lemma_count_prefix(a, b, k, upto - 1);
        assert((a + b)[upto - 1] == a[upto - 1]);
    }
}

/// An item's key depends on the items up to it only: a file that extends
/// another gives the other's items the keys they had.
pub proof fn lemma_dedup_keys_prefix(contents: Seq<Seq<char>>, more: Seq<Seq<char>>)
    ensures
        dedup_keys(contents + more).take(contents.len() as int) == dedup_keys(contents),
{
    let all = contents + more;
    assert forall|i: int| 0 <= i < contents.len() implies #[trigger] dedup_keys(all)[i] == dedup_keys(contents)[i] by {
        assert(all[i] == contents[i]);
        lemma_count_prefix(contents, more, contents[i], i);
    }
    assert(dedup_keys(all).take(contents.len() as int) =~= dedup_keys(contents));
}

/// Every trade of the list carries valid dates.
pub open spec fn trade_dates_valid(trades: Seq<ParsedTrade>) -> bool {
    forall|i: int| 0 <= i < trades.len() ==> (#[trigger] trades[i]).trade_date.is_valid()
}

/// The keys under which the trades of a file are stored.
pub fn trade_dedup_keys(trade_file: &ParsedTradeFile) -> (r: Vec<String>)
    requires
        trade_dates_valid(trade_file.trades@),
    ensures
        r.deep_view() == dedup_keys(trade_contents(trade_file.broker, trade_file.trades@)),
{
    let ghost cs = trade_contents(trade_file.broker, trade_file.trades@);
    let mut contents: Vec<Vec<char>> = Vec::new();
    let mut i: usize = 0;
    while i < trade_file.trades.len()
        invariant
            i <= trade_file.trades@.len(),
            cs == trade_contents(trade_file.broker, trade_file.trades@),
            trade_dates_valid(trade_file.trades@),
            contents.deep_view() == cs.take(i as int),
        decreases trade_file.trades@.len() - i,
    {
        let c = trade_content_chars(trade_file.broker, &trade_file.trades[i]);
        let ghost before = contents.deep_view();
        let ghost cv = c@;
        assert(c.deep_view() =~= c@);
        contents.push(c);
        assert(contents.deep_view() =~= before.push(cv));
        assert(cs[i as int] == cv);
        i = i + 1;
        assert(contents.deep_view() =~= cs.take(i as int));
    }
    assert(cs.take(i as int) =~= cs);
    dedup_keys_of(&contents)
}

/// Every sale of the list carries valid dates and a profit that a cell can hold.
pub open spec fn realized_records_well_formed(records: Seq<ParsedRealizedPnl>) -> bool {
    forall|i: int|
        0 <= i < records.len() ==> {
            &&& (#[trigger] records[i]).trade_date.is_valid()
            &&& (records[i].acquisition_date matches Some(d) ==> d.is_valid())
            &&& -MAX_CELL_MICROS <= records[i].realized_profit_loss.micros <= MAX_CELL_MICROS
        }
}

/// The keys under which the sales of a statement are stored.
pub fn realized_pnl_dedup_keys(pnl_file: &ParsedRealizedPnlFile) -> (r: Vec<String>)
    requires
        realized_records_well_formed(pnl_file.records@),
    ensures
        r.deep_view() == dedup_keys(realized_contents(pnl_file.broker, pnl_file.records@)),
{
    let ghost cs = realized_contents(pnl_file.broker, pnl_file.records@);
    let mut contents: Vec<Vec<char>> = Vec::new();
    let mut i: usize = 0;
    while i < pnl_file.records.len()
        invariant
            i <= pnl_file.records@.len(),
            cs == realized_contents(pnl_file.broker, pnl_file.records@),
            realized_records_well_formed(pnl_file.records@),
            contents.deep_view() == cs.take(i as int),
        decreases pnl_file.records@.len() - i,
    {
        let c = realized_content_chars(pnl_file.broker, &pnl_file.records[i]);
        let ghost before = contents.deep_view();
        let ghost cv = c@;
        assert(c.deep_view() =~= c@);
        contents.push(c);
        assert(contents.deep_view() =~= before.push(cv));
        assert(cs[i as int] == cv);
        i = i + 1;
        assert(contents.deep_view() =~= cs.take(i as int));
    }
    assert(cs.take(i as int) =~= cs);
    dedup_keys_of(&contents)
}

// ---------------------------------------------------------------------------
// Import summaries
// ---------------------------------------------------------------------------

/// What a holdings import reports: the broker's name, the snapshot date, the
/// number of holdings, and whether an earlier import of the same date and
/// broker was replaced (some batch was deleted first).
pub fn snapshot_import_summary(
    broker: Broker,
    snapshot_date: CalendarDate,
    imported_row_count: usize,
    deleted_batch_count: usize,
) -> (r: ImportSummary)
    requires
        snapshot_date.is_valid(),
    ensures
        r.broker_display_name@ == broker_display_text(broker),
        r.snapshot_date@ == iso_date_text(snapshot_date),
        r.imported_row_count == imported_row_count,
        r.replaced_existing == (deleted_batch_count > 0),
{
    ImportSummary {
        broker_display_name: broker.display_name().to_owned(),
        snapshot_date: snapshot_date.to_iso_string(),
        imported_row_count,
        replaced_existing: deleted_batch_count > 0,
    }
}

/// How many entries of `flags` are `value`.
pub open spec fn count_flag(flags: Seq<bool>, value: bool) -> nat
    decreases flags.len(),
{
    if flags.len() == 0 {
        0
    } else {
        count_flag(flags.drop_last(), value) + (if flags.last() == value {
            1nat
        } else {
            0nat
        })
    }
}

/// Every item of a file is reported once: as stored or as already there.
pub proof fn lemma_counts_cover_file(flags: Seq<bool>)
    ensures
        count_flag(flags, true) + count_flag(flags, false) == flags.len(),
    decreases flags.len(),
{
    if flags.len() > 0 {
        lemma_counts_cover_file(flags.drop_last());
    }
}

proof fn lemma_count_flag_take(flags: Seq<bool>, value: bool, i: int)
    requires
        0 <= i < flags.len(),
    ensures
        count_flag(flags.take(i + 1), value) == count_flag(flags.take(i), value) + (if flags[i]
            == value {
            1nat
        } else {
            0nat
        }),
{
    assert(flags.take(i + 1).drop_last() =~= flags.take(i));
}

proof fn lemma_count_flag_bound(flags: Seq<bool>, value: bool)
    ensures
        count_flag(flags, value) <= flags.len(),
    decreases flags.len(),
{
    if flags.len() > 0 {
        lemma_count_flag_bound(flags.drop_last(), value);
    }
}

/// `d` is one of `dates` and none of them comes before it.
pub open spec fn is_earliest(d: CalendarDate, dates: Seq<CalendarDate>) -> bool {
    dates.contains(d) && forall|i: int| 0 <= i < dates.len() ==> d.spec_le(#[trigger] dates[i])
}

/// `d` is one of `dates` and none of them comes after it.
pub open spec fn is_latest(d: CalendarDate, dates: Seq<CalendarDate>) -> bool {
    dates.contains(d) && forall|i: int| 0 <= i < dates.len() ==> (#[trigger] dates[i]).spec_le(d)
}

/// The earliest and the latest of a non-empty list of dates.
pub fn date_range(dates: &Vec<CalendarDate>) -> (r: (CalendarDate, CalendarDate))
    requires
        dates@.len() > 0,
    ensures
        is_earliest(r.0, dates@),
        is_latest(r.1, dates@),
{
    let mut lo = dates[0];
    let mut hi = dates[0];
    let mut i: usize = 1;
    while i < dates.len()
        invariant
            1 <= i <= dates@.len(),
            dates@.contains(lo),
            dates@.contains(hi),
            forall|k: int| 0 <= k < i ==> lo.spec_le(#[trigger] dates@[k]),
            forall|k: int| 0 <= k < i ==> (#[trigger] dates@[k]).spec_le(hi),
        decreases dates@.len() - i,
    {
        let d = dates[i];
        if !lo.is_on_or_before(&d) {
            lo = d;
        }
        if !d.is_on_or_before(&hi) {
            hi = d;
        }
        i = i + 1;
    }
    (lo, hi)
}

/// The ISO texts of the earliest and latest of `dates`; `None` for none.
pub fn date_range_texts(dates: &Vec<CalendarDate>) -> (r: (Option<String>, Option<String>))
    requires
        forall|i: int| 0 <= i < dates@.len() ==> (#[trigger] dates@[i]).is_valid(),
    ensures
        dates_range_texts_are(dates@, r.0, r.1),
{
    if dates.len() == 0 {
        return (None, None);
    }
    let (lo, hi) = date_range(dates);
    proof {
        assert(dates@.contains(lo));
        let k = choose|k: int| 0 <= k < dates@.len() && dates@[k] == lo;
        assert(dates@[k].is_valid());
        let k2 = choose|k: int| 0 <= k < dates@.len() && dates@[k] == hi;
        assert(dates@[k2].is_valid());
    }
    let a = lo.to_iso_string();
    let b = hi.to_iso_string();
    (Some(a), Some(b))
}

/// `earliest` and `latest` are the ISO texts of the earliest and latest of
/// `dates`, or both `None` when there are no dates.
pub open spec fn dates_range_texts_are(
    dates: Seq<CalendarDate>,
    earliest: Option<String>,
    latest: Option<String>,
) -> bool {
    if dates.len() == 0 {
        earliest is None && latest is None
    } else {
        &&& earliest matches Some(t) && exists|d: CalendarDate|
            #[trigger] is_earliest(d, dates) && t@ == iso_date_text(d)
        &&& latest matches Some(t) && exists|d: CalendarDate|
            #[trigger] is_latest(d, dates) && t@ == iso_date_text(d)
    }
}

pub open spec fn trade_dates_of(trades: Seq<ParsedTrade>) -> Seq<CalendarDate> {
    trades.map_values(|t: ParsedTrade| t.trade_date)
}

pub open spec fn realized_dates_of(records: Seq<ParsedRealizedPnl>) -> Seq<CalendarDate> {
    records.map_values(|r: ParsedRealizedPnl| r.trade_date)
}

/// Counts the entries of `flags` that are true and those that are false.
pub fn count_flags(flags: &[bool]) -> (r: (usize, usize))
    ensures
        r.0 == count_flag(flags@, true),
        r.1 == count_flag(flags@, false),
{
    let mut yes: usize = 0;
    let mut no: usize = 0;
    let mut i: usize = 0;
    while i < flags.len()
        invariant
            i <= flags@.len(),
            yes == count_flag(flags@.take(i as int), true),
            no == count_flag(flags@.take(i as int), false),
            yes + no == i,
        decreases flags@.len() - i,
    {
        proof {
            lemma_count_flag_take(flags@, true, i as int);
            lemma_count_flag_take(flags@, false, i as int);
        }
        if flags[i] {
            yes = yes + 1;
        } else {
            no = no + 1;
        }
        i = i + 1;
    }
    assert(flags@.take(i as int) =~= flags@);
    (yes, no)
}

/// What a trade import reports: the broker's name, how many trades were
/// stored and how many were already there, and the earliest and latest
/// trade dates of the file. `inserted[i]` tells whether trade `i` was stored.
pub fn trade_import_summary(trade_file: &ParsedTradeFile, inserted: &[bool]) -> (r:
    TradeImportSummary)
    requires
        inserted@.len() == trade_file.trades@.len(),
        trade_dates_valid(trade_file.trades@),
    ensures
        r.broker_display_name@ == broker_display_text(trade_file.broker),
        r.new_trade_count == count_flag(inserted@, true),
        r.duplicate_trade_count == count_flag(inserted@, false),
        dates_range_texts_are(
            trade_dates_of(trade_file.trades@),
            r.earliest_trade_date,
            r.latest_trade_date,
        ),
{
    let (new_trade_count, duplicate_trade_count) = count_flags(inserted);
    let mut dates: Vec<CalendarDate> = Vec::new();
    let mut i: usize = 0;
    while i < trade_file.trades.len()
        invariant
            i <= trade_file.trades@.len(),
            trade_dates_valid(trade_file.trades@),
            dates@ == trade_dates_of(trade_file.trades@).take(i as int),
        decreases trade_file.trades@.len() - i,
    {
        dates.push(trade_file.trades[i].trade_date);
        i = i + 1;
        assert(dates@ =~= trade_dates_of(trade_file.trades@).take(i as int));
    }
    assert(dates@ =~= trade_dates_of(trade_file.trades@));
    let (earliest_trade_date, latest_trade_date) = date_range_texts(&dates);
    TradeImportSummary {
        broker_display_name: trade_file.broker.display_name().to_owned(),
        new_trade_count,
        duplicate_trade_count,
        earliest_trade_date,
        latest_trade_date,
    }
}

/// The sum of the profits of the first `n` sales that were stored.
pub open spec fn stored_profit_sum(records: Seq<ParsedRealizedPnl>, inserted: Seq<bool>, n: int) -> int
    decreases n,
{
    if n <= 0 {
        0
    } else {
        stored_profit_sum(records, inserted, n - 1) + (if inserted[n - 1] {
            records[n - 1].realized_profit_loss.micros as int
        } else {
            0
        })
    }
}

/// What a statement import reports: the broker's name, how many sales were
/// stored and how many were already there, the total profit of the sales
/// stored now, and the earliest and latest trade dates of the file.
pub fn realized_pnl_import_summary(pnl_file: &ParsedRealizedPnlFile, inserted: &[bool]) -> (r:
    RealizedPnlImportSummary)
    requires
        inserted@.len() == pnl_file.records@.len(),
        realized_records_well_formed(pnl_file.records@),
    ensures
        r.broker_display_name@ == broker_display_text(pnl_file.broker),
        r.new_record_count == count_flag(inserted@, true),
        r.duplicate_record_count == count_flag(inserted@, false),
        r.total_realized_profit_loss.micros == stored_profit_sum(
            pnl_file.records@,
            inserted@,
            inserted@.len() as int,
        ),
        dates_range_texts_are(
            realized_dates_of(pnl_file.records@),
            r.earliest_trade_date,
            r.latest_trade_date,
        ),
{
    let (new_record_count, duplicate_record_count) = count_flags(inserted);
    let mut dates: Vec<CalendarDate> = Vec::new();
    let mut total: i128 = 0;
    let mut i: usize = 0;
    while i < pnl_file.records.len()
        invariant
            i <= pnl_file.records@.len(),
            inserted@.len() == pnl_file.records@.len(),
            realized_records_well_formed(pnl_file.records@),
            dates@ == realized_dates_of(pnl_file.records@).take(i as int),
            total == stored_profit_sum(pnl_file.records@, inserted@, i as int),
            -(i * MAX_CELL_MICROS) <= total <= i * MAX_CELL_MICROS,
        decreases pnl_file.records@.len() - i,
    {
        let rec = &pnl_file.records[i];
        dates.push(rec.trade_date);
        proof {
            assert((i + 1) * MAX_CELL_MICROS <= 18446744073709551616 * 1_000_000_000_000_000_000)
                by (nonlinear_arith)
                requires
                    i < 18446744073709551615int,
                    MAX_CELL_MICROS == 1_000_000_000_000_000_000int,
            ;
            assert((i + 1) * MAX_CELL_MICROS == i * MAX_CELL_MICROS + MAX_CELL_MICROS)
                by (nonlinear_arith);
        }
        if inserted[i] {
            total = total + rec.realized_profit_loss.micros;
        }
        i = i + 1;
        assert(dates@ =~= realized_dates_of(pnl_file.records@).take(i as int));
    }
    assert(dates@ =~= realized_dates_of(pnl_file.records@));
    let (earliest_trade_date, latest_trade_date) = date_range_texts(&dates);
    RealizedPnlImportSummary {
        broker_display_name: pnl_file.broker.display_name().to_owned(),
        new_record_count,
        duplicate_record_count,
        total_realized_profit_loss: Amount { micros: total },
        earliest_trade_date,
        latest_trade_date,
    }
}


// ---------------------------------------------------------------------------
// Importing a file again
// ---------------------------------------------------------------------------

/// Which rows an insert that ignores a key already present stores, row by
/// row: `keys[i]` is stored when neither the table nor an earlier row of the
/// same file holds it. This is what an `INSERT OR IGNORE` into a table with a
/// unique key column reports, one row at a time.
pub open spec fn insert_or_ignore_flags(stored: Set<Seq<char>>, keys: Seq<Seq<char>>) -> Seq<bool> {
    Seq::new(keys.len(), |i: int| !stored.contains(keys[i]) && !keys.take(i).contains(keys[i]))
}

/// The keys in the table after such an insert.
pub open spec fn keys_after_insert(stored: Set<Seq<char>>, keys: Seq<Seq<char>>) -> Set<Seq<char>> {
    stored.union(keys.to_set())
}

proof fn lemma_count_flag_all(flags: Seq<bool>, value: bool)
    requires
        forall|i: int| 0 <= i < flags.len() ==> flags[i] == value,
    ensures
        count_flag(flags, value) == flags.len(),
        count_flag(flags, !value) == 0,
    decreases flags.len(),
{
    if flags.len() > 0 {
        lemma_count_flag_all(flags.drop_last(), value);
    }
}

proof fn lemma_profit_sum_of_none(records: Seq<ParsedRealizedPnl>, inserted: Seq<bool>, n: int)
    requires
        0 <= n <= inserted.len(),
        forall|i: int| 0 <= i < inserted.len() ==> !inserted[i],
    ensures
        stored_profit_sum(records, inserted, n) == 0,
    decreases n,
{
    if n > 0 {
        lemma_profit_sum_of_none(records, inserted, n - 1);
    }
}

/// Inserting the same keys a second time, into the table as the first insert
/// left it, stores none of them, reports every row as already there, and
/// leaves the table unchanged.
pub proof fn lemma_reinsert_stores_nothing(stored: Set<Seq<char>>, keys: Seq<Seq<char>>)
    ensures
        ({
            let after = keys_after_insert(stored, keys);
            let again = insert_or_ignore_flags(after, keys);
            &&& again.len() == keys.len()
            &&& forall|i: int| 0 <= i < keys.len() ==> !(#[trigger] again[i])
            &&& count_flag(again, true) == 0
            &&& count_flag(again, false) == keys.len()
            &&& keys_after_insert(after, keys) == after
        }),
{
    let after = keys_after_insert(stored, keys);
    let again = insert_or_ignore_flags(after, keys);
    assert forall|i: int| 0 <= i < keys.len() implies !(#[trigger] again[i]) by {
        assert(keys.contains(keys[i]));
        assert(after.contains(keys[i]));
    }
    lemma_count_flag_all(again, false);
    assert forall|k: Seq<char>| keys.to_set().contains(k) implies after.contains(k) by {}
    assert(keys_after_insert(after, keys) =~= after);
}

/// When the table holds none of a file's keys, every row of the file is
/// stored: the keys of one file are all different.
pub proof fn lemma_first_insert_stores_all(stored: Set<Seq<char>>, contents: Seq<Seq<char>>)
    requires
        forall|i: int| 0 <= i < contents.len() ==> !stored.contains(#[trigger] dedup_keys(contents)[i]),
    ensures
        count_flag(insert_or_ignore_flags(stored, dedup_keys(contents)), true) == contents.len(),
{
    let keys = dedup_keys(contents);
    let flags = insert_or_ignore_flags(stored, keys);
    assert forall|i: int| 0 <= i < flags.len() implies #[trigger] flags[i] == true by {
        assert(!stored.contains(keys[i]));
        if keys.take(i).contains(keys[i]) {
            let j = choose|j: int| 0 <= j < keys.take(i).len() && keys.take(i)[j] == keys[i];
            lemma_dedup_keys_distinct(contents, j, i);
        }
    }
    lemma_count_flag_all(flags, true);
}

/// Importing the same trade file again, into the table as the first import
/// left it, stores no trade: the new count is zero, every trade counts as
/// already there, and the table of keys is unchanged.
pub proof fn lemma_trade_reimport_adds_nothing(stored: Set<Seq<char>>, trade_file: ParsedTradeFile)
    ensures
        ({
            let keys = dedup_keys(trade_contents(trade_file.broker, trade_file.trades@));
            let after = keys_after_insert(stored, keys);
            let again = insert_or_ignore_flags(after, keys);
            &&& count_flag(again, true) == 0
            &&& count_flag(again, false) == trade_file.trades@.len()
            &&& keys_after_insert(after, keys) == after
        }),
{
    let keys = dedup_keys(trade_contents(trade_file.broker, trade_file.trades@));
    lemma_reinsert_stores_nothing(stored, keys);
}

/// Importing the same statement again, into the table as the first import
/// left it, stores no sale: the new count is zero, every sale counts as
/// already there, the profit of the sales stored now is zero, and the table
/// of keys is unchanged.
pub proof fn lemma_realized_reimport_adds_nothing(
    stored: Set<Seq<char>>,
    pnl_file: ParsedRealizedPnlFile,
)
    ensures
        ({
            let keys = dedup_keys(realized_contents(pnl_file.broker, pnl_file.records@));
            let after = keys_after_insert(stored, keys);
            let again = insert_or_ignore_flags(after, keys);
            &&& count_flag(again, true) == 0
            &&& count_flag(again, false) == pnl_file.records@.len()
            &&& stored_profit_sum(pnl_file.records@, again, again.len() as int) == 0
            &&& keys_after_insert(after, keys) == after
        }),
{
    let keys = dedup_keys(realized_contents(pnl_file.broker, pnl_file.records@));
    let again = insert_or_ignore_flags(keys_after_insert(stored, keys), keys);
    lemma_reinsert_stores_nothing(stored, keys);
    lemma_profit_sum_of_none(pnl_file.records@, again, again.len() as int);
}

/// What the stock master holds of one stock: its name and its two sectors.
pub struct MasterRow {
    pub name: Seq<char>,
    pub sector_33: Option<Seq<char>>,
    pub sector_detail: Option<Seq<char>>,
}

/// The master row of a stock after holding `h` is imported, as
/// `merge_stock_master` computes it.
pub open spec fn merged_master_row(stored: Option<MasterRow>, h: HoldingModel) -> MasterRow {
    match stored {
        None => MasterRow { name: h.stock_name, sector_33: h.sector_33, sector_detail: h.sector_detail },
        Some(s) => MasterRow {
            name: merged_name(s.name, h.stock_name),
            sector_33: merged_sector(s.sector_33, h.sector_33),
            sector_detail: merged_sector(s.sector_detail, h.sector_detail),
        },
    }
}

/// The stock master after the holdings of a snapshot are merged in, one by
/// one, keyed by stock code.
pub open spec fn master_after_holdings(master: Map<Seq<char>, MasterRow>, hs: Seq<HoldingModel>) -> Map<
    Seq<char>,
    MasterRow,
>
    decreases hs.len(),
{
    if hs.len() == 0 {
        master
    } else {
        let m = master_after_holdings(master, hs.drop_last());
        let h = hs.last();
        let stored = if m.dom().contains(h.stock_code) {
            Some(m[h.stock_code])
        } else {
            None
        };
        m.insert(h.stock_code, merged_master_row(stored, h))
    }
}

/// The holdings batches after a snapshot of `broker` on `date` is imported:
/// the batch of that date and broker, if any, gives way to the new one.
pub open spec fn batches_after_snapshot(
    batches: Map<(CalendarDate, Broker), Seq<HoldingModel>>,
    date: CalendarDate,
    broker: Broker,
    hs: Seq<HoldingModel>,
) -> Map<(CalendarDate, Broker), Seq<HoldingModel>> {
    batches.insert((date, broker), hs)
}

/// Whether importing a snapshot of `broker` on `date` replaces an earlier one.
pub open spec fn snapshot_replaces(
    batches: Map<(CalendarDate, Broker), Seq<HoldingModel>>,
    date: CalendarDate,
    broker: Broker,
) -> bool {
    batches.dom().contains((date, broker))
}

spec fn has_code(hs: Seq<HoldingModel>, c: Seq<char>) -> bool
    decreases hs.len(),
{
    if hs.len() == 0 {
        false
    } else {
        hs.last().stock_code == c || has_code(hs.drop_last(), c)
    }
}

spec fn sector_of(h: HoldingModel, detail: bool) -> Option<Seq<char>> {
    if detail {
        h.sector_detail
    } else {
        h.sector_33
    }
}

spec fn row_sector(r: MasterRow, detail: bool) -> Option<Seq<char>> {
    if detail {
        r.sector_detail
    } else {
        r.sector_33
    }
}

spec fn name_fold(start: Seq<char>, c: Seq<char>, hs: Seq<HoldingModel>) -> Seq<char>
    decreases hs.len(),
{
    if hs.len() == 0 {
        start
    } else {
        let prev = name_fold(start, c, hs.drop_last());
        if hs.last().stock_code == c {
            merged_name(prev, hs.last().stock_name)
        } else {
            prev
        }
    }
}

spec fn sector_fold(start: Option<Seq<char>>, c: Seq<char>, hs: Seq<HoldingModel>, detail: bool) -> Option<
    Seq<char>,
>
    decreases hs.len(),
{
    if hs.len() == 0 {
        start
    } else {
        let prev = sector_fold(start, c, hs.drop_last(), detail);
        if hs.last().stock_code == c {
            merged_sector(prev, sector_of(hs.last(), detail))
        } else {
            prev
        }
    }
}

spec fn has_sector(hs: Seq<HoldingModel>, c: Seq<char>, detail: bool) -> bool
    decreases hs.len(),
{
    if hs.len() == 0 {
        false
    } else {
        (hs.last().stock_code == c && sector_of(hs.last(), detail) is Some) || has_sector(
            hs.drop_last(),
            c,
            detail,
        )
    }
}

spec fn empty_row() -> MasterRow {
    MasterRow { name: Seq::<char>::empty(), sector_33: None, sector_detail: None }
}

spec fn base_row(m: Map<Seq<char>, MasterRow>, c: Seq<char>) -> MasterRow {
    if m.dom().contains(c) {
        m[c]
    } else {
        empty_row()
    }
}

proof fn lemma_master_after_at(m: Map<Seq<char>, MasterRow>, hs: Seq<HoldingModel>, c: Seq<char>)
    ensures
        master_after_holdings(m, hs).dom().contains(c) <==> (m.dom().contains(c) || has_code(hs, c)),
        master_after_holdings(m, hs).dom().contains(c) ==> master_after_holdings(m, hs)[c] == (
        MasterRow {
            name: name_fold(base_row(m, c).name, c, hs),
            sector_33: sector_fold(base_row(m, c).sector_33, c, hs, false),
            sector_detail: sector_fold(base_row(m, c).sector_detail, c, hs, true),
        }),
        !master_after_holdings(m, hs).dom().contains(c) ==> {
            &&& name_fold(base_row(m, c).name, c, hs) == Seq::<char>::empty()
            &&& sector_fold(base_row(m, c).sector_33, c, hs, false) is None
            &&& sector_fold(base_row(m, c).sector_detail, c, hs, true) is None
        },
    decreases hs.len(),
{
    if hs.len() > 0 {
        let pre = hs.drop_last();
        lemma_master_after_at(m, pre, c);
        let h = hs.last();
        if h.stock_code == c {
            if !master_after_holdings(m, pre).dom().contains(c) {
                if h.stock_name.len() == 0 {
                    assert(h.stock_name =~= Seq::<char>::empty());
                }
            }
        }
    }
}

proof fn lemma_name_fold_grows(start: Seq<char>, c: Seq<char>, hs: Seq<HoldingModel>)
    ensures
        name_fold(start, c, hs).len() >= start.len(),
        forall|i: int|
            0 <= i < hs.len() && (#[trigger] hs[i]).stock_code == c ==> name_fold(start, c, hs).len()
                >= hs[i].stock_name.len(),
    decreases hs.len(),
{
    if hs.len() > 0 {
        let pre = hs.drop_last();
        lemma_name_fold_grows(start, c, pre);
        assert forall|i: int|
            0 <= i < hs.len() && (#[trigger] hs[i]).stock_code == c implies name_fold(
            start,
            c,
            hs,
        ).len() >= hs[i].stock_name.len() by {
            if i < hs.len() - 1 {
                assert(hs[i] == pre[i]);
            }
        }
    }
}

proof fn lemma_name_fold_keeps_longest(start: Seq<char>, c: Seq<char>, hs: Seq<HoldingModel>)
    requires
        forall|i: int|
            0 <= i < hs.len() && (#[trigger] hs[i]).stock_code == c ==> start.len() >= hs[i].stock_name.len(),
    ensures
        name_fold(start, c, hs) == start,
    decreases hs.len(),
{
    if hs.len() > 0 {
        let pre = hs.drop_last();
        assert forall|i: int|
            0 <= i < pre.len() && (#[trigger] pre[i]).stock_code == c implies start.len()
            >= pre[i].stock_name.len() by {
            assert(pre[i] == hs[i]);
        }
        lemma_name_fold_keeps_longest(start, c, pre);
        assert(hs.last() == hs[hs.len() - 1]);
    }
}

proof fn lemma_sector_fold_shape(s: Option<Seq<char>>, t: Option<Seq<char>>, c: Seq<char>, hs: Seq<HoldingModel>, detail: bool)
    ensures
        has_sector(hs, c, detail) ==> sector_fold(s, c, hs, detail) == sector_fold(t, c, hs, detail),
        !has_sector(hs, c, detail) ==> sector_fold(s, c, hs, detail) == s,
    decreases hs.len(),
{
    if hs.len() > 0 {
        lemma_sector_fold_shape(s, t, c, hs.drop_last(), detail);
    }
}

proof fn lemma_folds_without_code(r: MasterRow, c: Seq<char>, hs: Seq<HoldingModel>)
    requires
        !has_code(hs, c),
    ensures
        name_fold(r.name, c, hs) == r.name,
        sector_fold(r.sector_33, c, hs, false) == r.sector_33,
        sector_fold(r.sector_detail, c, hs, true) == r.sector_detail,
    decreases hs.len(),
{
    if hs.len() > 0 {
        lemma_folds_without_code(r, c, hs.drop_last());
    }
}

/// Importing the same snapshot again, with the tables as the first import
/// left them, replaces the earlier batch of that date and broker, and leaves
/// both the batches and the stock master as the first import left them: no
/// holding is stored twice and the master gains and loses nothing.
pub proof fn lemma_snapshot_reimport_same_state(
    batches: Map<(CalendarDate, Broker), Seq<HoldingModel>>,
    master: Map<Seq<char>, MasterRow>,
    date: CalendarDate,
    broker: Broker,
    hs: Seq<HoldingModel>,
)
    ensures
        ({
            let batches1 = batches_after_snapshot(batches, date, broker, hs);
            let master1 = master_after_holdings(master, hs);
            &&& snapshot_replaces(batches1, date, broker)
            &&& batches_after_snapshot(batches1, date, broker, hs) == batches1
            &&& master_after_holdings(master1, hs) == master1
        }),
{
    let batches1 = batches_after_snapshot(batches, date, broker, hs);
    assert(batches_after_snapshot(batches1, date, broker, hs) =~= batches1);
    let m1 = master_after_holdings(master, hs);
    let m2 = master_after_holdings(m1, hs);
    assert forall|c: Seq<char>| #[trigger] m2.dom().contains(c) <==> m1.dom().contains(c) by {
        lemma_master_after_at(master, hs, c);
        lemma_master_after_at(m1, hs, c);
    }
    assert forall|c: Seq<char>| #[trigger] m2.dom().contains(c) implies m2[c] == m1[c] by {
        lemma_master_after_at(master, hs, c);
        lemma_master_after_at(m1, hs, c);
        let b = base_row(master, c);
        let r1 = m1[c];
        if has_code(hs, c) {
            lemma_name_fold_grows(b.name, c, hs);
            lemma_name_fold_keeps_longest(r1.name, c, hs);
            lemma_sector_fold_shape(b.sector_33, r1.sector_33, c, hs, false);
            lemma_sector_fold_shape(r1.sector_33, r1.sector_33, c, hs, false);
            lemma_sector_fold_shape(b.sector_detail, r1.sector_detail, c, hs, true);
            lemma_sector_fold_shape(r1.sector_detail, r1.sector_detail, c, hs, true);
        } else {
            lemma_folds_without_code(r1, c, hs);
        }
    }
    assert(m2 =~= m1);
}

} // verus!

