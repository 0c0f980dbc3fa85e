//! The trade-analysis screen: counts and commission of the trades in scope,
//! confirmed realized profit (e-smart sell rows and SBI statement records),
//! its monthly totals with running sum, the per-stock ranking, and the most
//! recent trades.

use vstd::prelude::*;

use crate::amount::{Amount, MAX_CELL_MICROS};
use crate::lexical::{compare_text, lemma_lex_transitive, lemma_lex_trichotomy, lex_le, lex_lt, TextOrder};
use crate::models::{
    display_name_for_identifier, display_text_for_identifier, MonthlyRealizedPnlPoint,
    StockRealizedPnlItem, TradeAnalysis, TradeListItem,
};
use crate::text::{chars_equal, opt_chars, opt_view, str_chars, string_from_chars};

verus! {

/// One stored trade, as read back from the database.
#[derive(Debug)]
pub struct StoredTrade {
    pub trade_id: i64,
    pub broker: String,
    pub trade_date: String,
    pub stock_code: String,
    pub stock_name: String,
    pub side: String,
    pub quantity: Amount,
    pub price: Option<Amount>,
    pub settlement_amount: Option<Amount>,
    pub commission: Option<Amount>,
    pub account_type: String,
    pub realized_profit_loss: Option<Amount>,
}

pub struct TradeRowModel {
    pub trade_id: i64,
    pub broker: Seq<char>,
    pub trade_date: Seq<char>,
    pub stock_code: Seq<char>,
    pub stock_name: Seq<char>,
    pub side: Seq<char>,
    pub quantity: Amount,
    pub price: Option<Amount>,
    pub settlement_amount: Option<Amount>,
    pub commission: Option<Amount>,
    pub account_type: Seq<char>,
    pub realized_profit_loss: Option<Amount>,
}

impl DeepView for StoredTrade {
    type V = TradeRowModel;

    open spec fn deep_view(&self) -> TradeRowModel {
        TradeRowModel {
            trade_id: self.trade_id,
            broker: self.broker@,
            trade_date: self.trade_date@,
            stock_code: self.stock_code@,
            stock_name: self.stock_name@,
            side: self.side@,
            quantity: self.quantity,
            price: self.price,
            settlement_amount: self.settlement_amount,
            commission: self.commission,
            account_type: self.account_type@,
            realized_profit_loss: self.realized_profit_loss,
        }
    }
}

/// One stored statement record, as read back from the database.
#[derive(Debug)]
pub struct StoredRealizedPnl {
    pub broker: String,
    pub trade_date: String,
    pub stock_code: String,
    pub stock_name: String,
    pub realized_profit_loss: Amount,
}

pub struct StatementRowModel {
    pub broker: Seq<char>,
    pub trade_date: Seq<char>,
    pub stock_code: Seq<char>,
    pub stock_name: Seq<char>,
    pub realized_profit_loss: Amount,
}

impl DeepView for StoredRealizedPnl {
    type V = StatementRowModel;

    open spec fn deep_view(&self) -> StatementRowModel {
        StatementRowModel {
            broker: self.broker@,
            trade_date: self.trade_date@,
            stock_code: self.stock_code@,
            stock_name: self.stock_name@,
            realized_profit_loss: self.realized_profit_loss,
        }
    }
}

/// One stock-master name.
#[derive(Debug)]
pub struct StockNameEntry {
    pub stock_code: String,
    pub stock_name: String,
}

pub open spec fn amount_in_cell_range(a: Amount) -> bool {
    -MAX_CELL_MICROS <= a.micros <= MAX_CELL_MICROS
}

pub open spec fn opt_amount_in_cell_range(a: Option<Amount>) -> bool {
    match a {
        Some(x) => amount_in_cell_range(x),
        None => true,
    }
}

/// The stored rows hold amounts that a cell can hold, the trade ids are
/// distinct (they are the table's primary key), and there are fewer rows
/// than a signed 64-bit count can number.
pub open spec fn stored_rows_well_formed(ts: Seq<TradeRowModel>, rs: Seq<StatementRowModel>) -> bool {
    &&& ts.len() + rs.len() <= i64::MAX
    &&& forall|i: int|
        0 <= i < ts.len() ==> {
            &&& opt_amount_in_cell_range((#[trigger] ts[i]).commission)
            &&& opt_amount_in_cell_range(ts[i].realized_profit_loss)
        }
    &&& forall|i: int| 0 <= i < rs.len() ==> amount_in_cell_range((#[trigger] rs[i]).realized_profit_loss)
    &&& forall|i: int, j: int| 0 <= i < j < ts.len() ==> #[trigger] ts[i].trade_id != #[trigger] ts[j].trade_id
}

/// A row is in scope: of the filtered broker when there is a filter, and on
/// or after the start date (compared as text) when there is one.
pub open spec fn in_scope(
    broker: Seq<char>,
    date: Seq<char>,
    broker_filter: Option<Seq<char>>,
    start_date: Option<Seq<char>>,
) -> bool {
    &&& match broker_filter {
        Some(f) => broker == f,
        None => true,
    }
    &&& match start_date {
        Some(s) => lex_le(s, date),
        None => true,
    }
}

/// A start date keeps the rows dated on it or after it and drops those dated
/// before it (dates compared as text): a row dated on the start date, or
/// later, is in scope exactly when it would be with no start date; one dated
/// earlier is not. With no filters every row is in scope, and a broker filter
/// keeps that broker's rows and no other's.
pub proof fn lemma_start_date_scope(
    broker: Seq<char>,
    date: Seq<char>,
    f: Option<Seq<char>>,
    start: Seq<char>,
)
    ensures
        in_scope(broker, date, f, Some(date)) == in_scope(broker, date, f, None),
        !lex_lt(date, start) ==> in_scope(broker, date, f, Some(start)) == in_scope(broker, date, f, None),
        lex_lt(date, start) ==> !in_scope(broker, date, f, Some(start)),
        in_scope(broker, date, None, None),
        in_scope(broker, date, Some(broker), None),
        (f matches Some(g) && g != broker) ==> !in_scope(broker, date, f, Some(start)) && !in_scope(
            broker,
            date,
            f,
            None,
        ),
{
    lemma_lex_trichotomy(date, start);
}

proof fn lemma_from_start_counts(
    ts: Seq<TradeRowModel>,
    rs: Seq<StatementRowModel>,
    side: Seq<char>,
    f: Option<Seq<char>>,
    start: Seq<char>,
)
    requires
        forall|i: int| 0 <= i < ts.len() ==> !lex_lt((#[trigger] ts[i]).trade_date, start),
    ensures
        side_count(ts, side, f, Some(start)) == side_count(ts, side, f, None),
        commission_total(ts, f, Some(start)) == commission_total(ts, f, None),
        confirmed_from_trades(ts, f, Some(start)) == confirmed_from_trades(ts, f, None),
        unknown_sell_count(ts, rs, f, Some(start)) == unknown_sell_count(ts, rs, f, None),
    decreases ts.len(),
{
    if ts.len() > 0 {
        let pre = ts.drop_last();
        assert forall|i: int| 0 <= i < pre.len() implies !lex_lt((#[trigger] pre[i]).trade_date, start) by {
            assert(pre[i] == ts[i]);
        }
        lemma_from_start_counts(pre, rs, side, f, start);
        assert(ts.last() == ts[ts.len() - 1]);
        lemma_start_date_scope(ts.last().broker, ts.last().trade_date, f, start);
    }
}

proof fn lemma_from_start_statements(rs: Seq<StatementRowModel>, f: Option<Seq<char>>, start: Seq<char>)
    requires
        forall|i: int| 0 <= i < rs.len() ==> !lex_lt((#[trigger] rs[i]).trade_date, start),
    ensures
        confirmed_from_statements(rs, f, Some(start)) == confirmed_from_statements(rs, f, None),
    decreases rs.len(),
{
    if rs.len() > 0 {
        let pre = rs.drop_last();
        assert forall|i: int| 0 <= i < pre.len() implies !lex_lt((#[trigger] pre[i]).trade_date, start) by {
            assert(pre[i] == rs[i]);
        }
        lemma_from_start_statements(pre, f, start);
        assert(rs.last() == rs[rs.len() - 1]);
        lemma_start_date_scope(rs.last().broker, rs.last().trade_date, f, start);
    }
}

/// When every trade and statement row is dated on or after the start date,
/// the start date drops nothing: the trade counts, the commission total, the
/// confirmed profits and the sells of unknown profit are those with no start
/// date. Rows dated on the start date itself count.
pub proof fn lemma_start_date_drops_nothing_later(
    ts: Seq<TradeRowModel>,
    rs: Seq<StatementRowModel>,
    f: Option<Seq<char>>,
    start: Seq<char>,
)
    requires
        forall|i: int| 0 <= i < ts.len() ==> !lex_lt((#[trigger] ts[i]).trade_date, start),
        forall|i: int| 0 <= i < rs.len() ==> !lex_lt((#[trigger] rs[i]).trade_date, start),
    ensures
        side_count(ts, "buy"@, f, Some(start)) == side_count(ts, "buy"@, f, None),
        side_count(ts, "sell"@, f, Some(start)) == side_count(ts, "sell"@, f, None),
        commission_total(ts, f, Some(start)) == commission_total(ts, f, None),
        confirmed_profits(ts, rs, f, Some(start)) == confirmed_profits(ts, rs, f, None),
        unknown_sell_count(ts, rs, f, Some(start)) == unknown_sell_count(ts, rs, f, None),
{
    lemma_from_start_counts(ts, rs, "buy"@, f, start);
    lemma_from_start_counts(ts, rs, "sell"@, f, start);
    lemma_from_start_statements(rs, f, start);
}

/// How many trades in scope have the side `side`.
pub open spec fn side_count(
    ts: Seq<TradeRowModel>,
    side: Seq<char>,
    f: Option<Seq<char>>,
    s: Option<Seq<char>>,
) -> nat
    decreases ts.len(),
{
    if ts.len() == 0 {
        0
    } else {
        side_count(ts.drop_last(), side, f, s) + (if in_scope(
            ts.last().broker,
            ts.last().trade_date,
            f,
            s,
        ) && ts.last().side == side {
            1nat
        } else {
            0nat
        })
    }
}

/// The commission of the trades in scope (absent commissions count nothing).
pub open spec fn commission_total(ts: Seq<TradeRowModel>, f: Option<Seq<char>>, s: Option<Seq<char>>) -> int
    decreases ts.len(),
{
    if ts.len() == 0 {
        0
    } else {
        commission_total(ts.drop_last(), f, s) + (if in_scope(
            ts.last().broker,
            ts.last().trade_date,
            f,
            s,
        ) {
            match ts.last().commission {
                Some(c) => c.micros as int,
                None => 0,
            }
        } else {
            0
        })
    }
}

/// A realized profit that is known for certain.
pub struct ConfirmedPnl {
    pub trade_date: Seq<char>,
    pub stock_code: Seq<char>,
    pub stock_name: Seq<char>,
    pub profit: int,
}

/// The confirmed profits carried by trades: sell rows in scope whose
/// realized profit is stored (the e-smart rows).
pub open spec fn confirmed_from_trades(
    ts: Seq<TradeRowModel>,
    f: Option<Seq<char>>,
    s: Option<Seq<char>>,
) -> Seq<ConfirmedPnl>
    decreases ts.len(),
{
    if ts.len() == 0 {
        Seq::<ConfirmedPnl>::empty()
    } else {
        let rest = confirmed_from_trades(ts.drop_last(), f, s);
        let t = ts.last();
        if in_scope(t.broker, t.trade_date, f, s) && t.side == "sell"@ && t.realized_profit_loss is Some {
            rest.push(
                ConfirmedPnl {
                    trade_date: t.trade_date,
                    stock_code: t.stock_code,
                    stock_name: t.stock_name,
                    profit: t.realized_profit_loss->0.micros as int,
                },
            )
        } else {
            rest
        }
    }
}

/// The confirmed profits of the statement records in scope.
pub open spec fn confirmed_from_statements(
    rs: Seq<StatementRowModel>,
    f: Option<Seq<char>>,
    s: Option<Seq<char>>,
) -> Seq<ConfirmedPnl>
    decreases rs.len(),
{
    if rs.len() == 0 {
        Seq::<ConfirmedPnl>::empty()
    } else {
        let rest = confirmed_from_statements(rs.drop_last(), f, s);
        let r = rs.last();
        if in_scope(r.broker, r.trade_date, f, s) {
            rest.push(
                ConfirmedPnl {
                    trade_date: r.trade_date,
                    stock_code: r.stock_code,
                    stock_name: r.stock_name,
                    profit: r.realized_profit_loss.micros as int,
                },
            )
        } else {
            rest
        }
    }
}

/// All confirmed profits in scope: those of the trades, then those of the
/// statements.
pub open spec fn confirmed_profits(
    ts: Seq<TradeRowModel>,
    rs: Seq<StatementRowModel>,
    f: Option<Seq<char>>,
    s: Option<Seq<char>>,
) -> Seq<ConfirmedPnl> {
    confirmed_from_trades(ts, f, s) + confirmed_from_statements(rs, f, s)
}

/// Some statement record has this broker, trade date and stock code.
pub open spec fn has_statement_for(
    rs: Seq<StatementRowModel>,
    broker: Seq<char>,
    date: Seq<char>,
    code: Seq<char>,
) -> bool {
    exists|k: int|
        0 <= k < rs.len() && (#[trigger] rs[k]).broker == broker && rs[k].trade_date == date
            && rs[k].stock_code == code
}

/// How many SBI sell trades in scope have no statement record of the same
/// date and stock: their profit is unknown.
pub open spec fn unknown_sell_count(
    ts: Seq<TradeRowModel>,
    rs: Seq<StatementRowModel>,
    f: Option<Seq<char>>,
    s: Option<Seq<char>>,
) -> nat
    decreases ts.len(),
{
    if ts.len() == 0 {
        0
    } else {
        let t = ts.last();
        unknown_sell_count(ts.drop_last(), rs, f, s) + (if in_scope(t.broker, t.trade_date, f, s)
            && t.side == "sell"@ && t.broker == "sbi"@ && !has_statement_for(
            rs,
            t.broker,
            t.trade_date,
            t.stock_code,
        ) {
            1nat
        } else {
            0nat
        })
    }
}

pub open spec fn profit_sum(cs: Seq<ConfirmedPnl>) -> int
    decreases cs.len(),
{
    if cs.len() == 0 {
        0
    } else {
        profit_sum(cs.drop_last()) + cs.last().profit
    }
}

pub open spec fn gain_count(cs: Seq<ConfirmedPnl>) -> nat
    decreases cs.len(),
{
    if cs.len() == 0 {
        0
    } else {
        gain_count(cs.drop_last()) + (if cs.last().profit > 0 {
            1nat
        } else {
            0nat
        })
    }
}

// ---------------------------------------------------------------------------
// Character views of the stored rows
// ---------------------------------------------------------------------------

struct TradeChars {
    broker: Vec<char>,
    trade_date: Vec<char>,
    stock_code: Vec<char>,
    side: Vec<char>,
}

spec fn trade_chars_match(c: TradeChars, t: TradeRowModel) -> bool {
    &&& c.broker@ == t.broker
    &&& c.trade_date@ == t.trade_date
    &&& c.stock_code@ == t.stock_code
    &&& c.side@ == t.side
}

fn trade_chars_of(trades: &Vec<StoredTrade>) -> (r: Vec<TradeChars>)
    ensures
        r@.len() == trades@.len(),
        forall|i: int| 0 <= i < r@.len() ==> trade_chars_match(#[trigger] r@[i], trades.deep_view()[i]),
{
    let mut r: Vec<TradeChars> = Vec::new();
    let mut i: usize = 0;
    while i < trades.len()
        invariant
            i <= trades@.len(),
            r@.len() == i,
            forall|k: int| 0 <= k < i ==> trade_chars_match(#[trigger] r@[k], trades.deep_view()[k]),
        decreases trades@.len() - i,
    {
        let t = &trades[i];
        r.push(
            TradeChars {
                broker: str_chars(t.broker.as_str()),
                trade_date: str_chars(t.trade_date.as_str()),
                stock_code: str_chars(t.stock_code.as_str()),
                side: str_chars(t.side.as_str()),
            },
        );
        i = i + 1;
    }
    r
}

struct StatementChars {
    broker: Vec<char>,
    trade_date: Vec<char>,
    stock_code: Vec<char>,
}

spec fn statement_chars_match(c: StatementChars, r: StatementRowModel) -> bool {
    &&& c.broker@ == r.broker
    &&& c.trade_date@ == r.trade_date
    &&& c.stock_code@ == r.stock_code
}

fn statement_chars_of(rows: &Vec<StoredRealizedPnl>) -> (r: Vec<StatementChars>)
    ensures
        r@.len() == rows@.len(),
        forall|i: int| 0 <= i < r@.len() ==> statement_chars_match(#[trigger] r@[i], rows.deep_view()[i]),
{
    let mut r: Vec<StatementChars> = Vec::new();
    let mut i: usize = 0;
    while i < rows.len()
        invariant
            i <= rows@.len(),
            r@.len() == i,
            forall|k: int| 0 <= k < i ==> statement_chars_match(#[trigger] r@[k], rows.deep_view()[k]),
        decreases rows@.len() - i,
    {
        let t = &rows[i];
        r.push(
            StatementChars {
                broker: str_chars(t.broker.as_str()),
                trade_date: str_chars(t.trade_date.as_str()),
                stock_code: str_chars(t.stock_code.as_str()),
            },
        );
        i = i + 1;
    }
    r
}

fn row_in_scope(
    broker: &[char],
    date: &[char],
    broker_filter: &Option<Vec<char>>,
    start_date: &Option<Vec<char>>,
) -> (r: bool)
    ensures
        r == in_scope(
            broker@,
            date@,
            match broker_filter {
                Some(v) => Some(v@),
                None => None,
            },
            match start_date {
                Some(v) => Some(v@),
                None => None,
            },
        ),
{
    let broker_ok = match broker_filter {
        Some(f) => chars_equal(broker, f),
        None => true,
    };
    let date_ok = match start_date {
        Some(s) => {
            let o = compare_text(s, date);
            o == TextOrder::Before || o == TextOrder::Same
        },
        None => true,
    };
    broker_ok && date_ok
}

// ---------------------------------------------------------------------------
// Counting the trades and gathering confirmed profits
// ---------------------------------------------------------------------------

struct ConfirmedRow {
    trade_date: Vec<char>,
    stock_code: Vec<char>,
    stock_name: Vec<char>,
    profit: i128,
}

spec fn confirmed_view(c: ConfirmedRow) -> ConfirmedPnl {
    ConfirmedPnl {
        trade_date: c.trade_date@,
        stock_code: c.stock_code@,
        stock_name: c.stock_name@,
        profit: c.profit as int,
    }
}

spec fn confirmed_views(cs: Seq<ConfirmedRow>) -> Seq<ConfirmedPnl> {
    cs.map_values(|c: ConfirmedRow| confirmed_view(c))
}

spec fn opt_vec_view(v: Option<Vec<char>>) -> Option<Seq<char>> {
    match v {
        Some(x) => Some(x@),
        None => None,
    }
}

fn statement_exists(rows: &Vec<StatementChars>, broker: &[char], date: &[char], code: &[char]) -> (r:
    bool)
    ensures
        r == exists|k: int|
            0 <= k < rows@.len() && (#[trigger] rows@[k]).broker@ == broker@ && rows@[k].trade_date@
                == date@ && rows@[k].stock_code@ == code@,
{
    let mut k: usize = 0;
    while k < rows.len()
        invariant
            k <= rows@.len(),
            forall|j: int|
                0 <= j < k ==> !((#[trigger] rows@[j]).broker@ == broker@ && rows@[j].trade_date@
                    == date@ && rows@[j].stock_code@ == code@),
        decreases rows@.len() - k,
    {
        if chars_equal(&rows[k].broker, broker) && chars_equal(&rows[k].trade_date, date)
            && chars_equal(&rows[k].stock_code, code) {
            return true;
        }
        k = k + 1;
    }
    false
}

proof fn lemma_take_drop_last<T>(s: Seq<T>, i: int)
    requires
        0 <= i < s.len(),
    ensures
        s.take(i + 1).drop_last() == s.take(i),
        s.take(i + 1).last() == s[i],
{
    assert(s.take(i + 1).drop_last() =~= s.take(i));
}

struct TradeTallies {
    buy_count: i64,
    sell_count: i64,
    commission: i128,
    unknown_count: i64,
    confirmed: Vec<ConfirmedRow>,
}

#[verifier::spinoff_prover]
fn tally_trades(
    trades: &Vec<StoredTrade>,
    tc: &Vec<TradeChars>,
    sc: &Vec<StatementChars>,
    statements: &Vec<StoredRealizedPnl>,
    f: &Option<Vec<char>>,
    s: &Option<Vec<char>>,
) -> (r: TradeTallies)
    requires
        stored_rows_well_formed(trades.deep_view(), statements.deep_view()),
        tc@.len() == trades@.len(),
        forall|i: int| 0 <= i < tc@.len() ==> trade_chars_match(#[trigger] tc@[i], trades.deep_view()[i]),
        sc@.len() == statements@.len(),
        forall|i: int|
            0 <= i < sc@.len() ==> statement_chars_match(#[trigger] sc@[i], statements.deep_view()[i]),
    ensures
        r.buy_count == side_count(trades.deep_view(), "buy"@, opt_vec_view(*f), opt_vec_view(*s)),
        r.sell_count == side_count(trades.deep_view(), "sell"@, opt_vec_view(*f), opt_vec_view(*s)),
        r.commission == commission_total(trades.deep_view(), opt_vec_view(*f), opt_vec_view(*s)),
        r.unknown_count == unknown_sell_count(
            trades.deep_view(),
            statements.deep_view(),
            opt_vec_view(*f),
            opt_vec_view(*s),
        ),
        confirmed_views(r.confirmed@) == confirmed_from_trades(
            trades.deep_view(),
            opt_vec_view(*f),
            opt_vec_view(*s),
        ),
        forall|i: int|
            0 <= i < r.confirmed@.len() ==> -MAX_CELL_MICROS <= (#[trigger] r.confirmed@[i]).profit
                <= MAX_CELL_MICROS,
        r.confirmed@.len() <= trades@.len(),
{
    let ghost ts = trades.deep_view();
    let ghost rs = statements.deep_view();
    let ghost fv = opt_vec_view(*f);
    let ghost sv = opt_vec_view(*s);
    let buy = str_chars("buy");
    let sell = str_chars("sell");
    let sbi = str_chars("sbi");
    let mut buy_count: i64 = 0;
    let mut sell_count: i64 = 0;
    let mut commission: i128 = 0;
    let mut unknown_count: i64 = 0;
    let mut confirmed: Vec<ConfirmedRow> = Vec::new();
    let mut i: usize = 0;
    while i < trades.len()
        invariant
            ts == trades.deep_view(),
            rs == statements.deep_view(),
            fv == opt_vec_view(*f),
            sv == opt_vec_view(*s),
            buy@ == "buy"@,
            sell@ == "sell"@,
            sbi@ == "sbi"@,
            stored_rows_well_formed(ts, rs),
            tc@.len() == ts.len(),
            forall|k: int| 0 <= k < tc@.len() ==> trade_chars_match(#[trigger] tc@[k], ts[k]),
            sc@.len() == rs.len(),
            forall|k: int| 0 <= k < sc@.len() ==> statement_chars_match(#[trigger] sc@[k], rs[k]),
            i <= ts.len(),
            buy_count == side_count(ts.take(i as int), "buy"@, fv, sv),
            sell_count == side_count(ts.take(i as int), "sell"@, fv, sv),
            buy_count <= i,
            sell_count <= i,
            unknown_count <= i,
            commission == commission_total(ts.take(i as int), fv, sv),
            -(i * MAX_CELL_MICROS) <= commission <= i * MAX_CELL_MICROS,
            unknown_count == unknown_sell_count(ts.take(i as int), rs, fv, sv),
            confirmed_views(confirmed@) == confirmed_from_trades(ts.take(i as int), fv, sv),
            confirmed@.len() <= i,
            forall|k: int|
                0 <= k < confirmed@.len() ==> -MAX_CELL_MICROS <= (#[trigger] confirmed@[k]).profit
                    <= MAX_CELL_MICROS,
        decreases ts.len() - i,
    {
        proof {
            lemma_take_drop_last(ts, i as int);
            assert((i + 1) * MAX_CELL_MICROS == i * MAX_CELL_MICROS + MAX_CELL_MICROS)
                by (nonlinear_arith);
            assert((i + 1) * MAX_CELL_MICROS <= 18446744073709551616 * 1_000_000_000_000_000_000)
                by (nonlinear_arith)
                requires
                    i < 18446744073709551615int,
                    MAX_CELL_MICROS == 1_000_000_000_000_000_000int,
            ;
        }
        let t = &trades[i];
        let c = &tc[i];
        let scoped = row_in_scope(&c.broker, &c.trade_date, f, s);
        let is_buy = chars_equal(&c.side, &buy);
        let is_sell = chars_equal(&c.side, &sell);
        if scoped && is_buy {
            buy_count = buy_count + 1;
        }
        if scoped && is_sell {
            sell_count = sell_count + 1;
        }
        if scoped {
            match t.commission {
                Some(a) => {
                    commission = commission + a.micros;
                },
                None => {},
            }
        }
        if scoped && is_sell && chars_equal(&c.broker, &sbi) {
            let found = statement_exists(sc, &c.broker, &c.trade_date, &c.stock_code);
            proof {
                if found {
                    let k = choose|k: int|
                        0 <= k < sc@.len() && (#[trigger] sc@[k]).broker@ == c.broker@
                            && sc@[k].trade_date@ == c.trade_date@ && sc@[k].stock_code@
                            == c.stock_code@;
                    assert(statement_chars_match(sc@[k], rs[k]));
                    assert(has_statement_for(rs, ts[i as int].broker, ts[i as int].trade_date, ts[i as int].stock_code));
                } else {
                    assert forall|k: int|
                        0 <= k < rs.len() implies !((#[trigger] rs[k]).broker == ts[i as int].broker
                            && rs[k].trade_date == ts[i as int].trade_date && rs[k].stock_code
                            == ts[i as int].stock_code) by {
                        assert(statement_chars_match(sc@[k], rs[k]));
                    }
                }
            }
            if !found {
                unknown_count = unknown_count + 1;
            }
        }
        if scoped && is_sell {
            match t.realized_profit_loss {
                Some(p) => {
                    let ghost before = confirmed@;
                    confirmed.push(
                        ConfirmedRow {
                            trade_date: str_chars(t.trade_date.as_str()),
                            stock_code: str_chars(t.stock_code.as_str()),
                            stock_name: str_chars(t.stock_name.as_str()),
                            profit: p.micros,
                        },
                    );
                    assert(confirmed_views(confirmed@) =~= confirmed_views(before).push(
                        confirmed_view(confirmed@.last()),
                    ));
                },
                None => {},
            }
        }
        i = i + 1;
    }
    assert(ts.take(i as int) =~= ts);
    TradeTallies { buy_count, sell_count, commission, unknown_count, confirmed }
}

#[verifier::spinoff_prover]
fn confirmed_statements(
    statements: &Vec<StoredRealizedPnl>,
    sc: &Vec<StatementChars>,
    f: &Option<Vec<char>>,
    s: &Option<Vec<char>>,
    confirmed: &mut Vec<ConfirmedRow>,
)
    requires
        stored_rows_well_formed(Seq::<TradeRowModel>::empty(), statements.deep_view()),
        sc@.len() == statements@.len(),
        forall|i: int|
            0 <= i < sc@.len() ==> statement_chars_match(#[trigger] sc@[i], statements.deep_view()[i]),
        forall|i: int|
            0 <= i < old(confirmed)@.len() ==> -MAX_CELL_MICROS <= (#[trigger] old(confirmed)@[i]).profit
                <= MAX_CELL_MICROS,
    ensures
        confirmed_views(final(confirmed)@) == confirmed_views(old(confirmed)@)
            + confirmed_from_statements(statements.deep_view(), opt_vec_view(*f), opt_vec_view(*s)),
        forall|i: int|
            0 <= i < final(confirmed)@.len() ==> -MAX_CELL_MICROS <= (
            #[trigger] final(confirmed)@[i]).profit <= MAX_CELL_MICROS,
        final(confirmed)@.len() <= old(confirmed)@.len() + statements@.len(),
{
    let ghost rs = statements.deep_view();
    let ghost fv = opt_vec_view(*f);
    let ghost sv = opt_vec_view(*s);
    let ghost start = confirmed_views(confirmed@);
    let ghost start_len = confirmed@.len();
    let mut i: usize = 0;
    assert(start + confirmed_from_statements(rs.take(0), fv, sv) =~= start);
    while i < statements.len()
        invariant
            rs == statements.deep_view(),
            fv == opt_vec_view(*f),
            sv == opt_vec_view(*s),
            stored_rows_well_formed(Seq::<TradeRowModel>::empty(), rs),
            sc@.len() == rs.len(),
            forall|k: int| 0 <= k < sc@.len() ==> statement_chars_match(#[trigger] sc@[k], rs[k]),
            i <= rs.len(),
            confirmed_views(confirmed@) == start + confirmed_from_statements(rs.take(i as int), fv, sv),
            forall|k: int|
                0 <= k < confirmed@.len() ==> -MAX_CELL_MICROS <= (#[trigger] confirmed@[k]).profit
                    <= MAX_CELL_MICROS,
            confirmed@.len() <= start_len + i,
        decreases rs.len() - i,
    {
        proof {
            lemma_take_drop_last(rs, i as int);
        }
        let r = &statements[i];
        let c = &sc[i];
        if row_in_scope(&c.broker, &c.trade_date, f, s) {
            let ghost before = confirmed@;
            confirmed.push(
                ConfirmedRow {
                    trade_date: str_chars(r.trade_date.as_str()),
                    stock_code: str_chars(r.stock_code.as_str()),
                    stock_name: str_chars(r.stock_name.as_str()),
                    profit: r.realized_profit_loss.micros,
                },
            );
            assert(confirmed_views(confirmed@) =~= confirmed_views(before).push(
                confirmed_view(confirmed@.last()),
            ));
        }
        i = i + 1;
    }
    assert(rs.take(i as int) =~= rs);
}

/// The month of a `YYYY-MM-DD` date text: its first seven characters.
pub open spec fn month_of(date: Seq<char>) -> Seq<char> {
    if date.len() > 7 {
        date.take(7)
    } else {
        date
    }
}

/// The confirmed profit of one month.
pub open spec fn month_sum(cs: Seq<ConfirmedPnl>, m: Seq<char>) -> int
    decreases cs.len(),
{
    if cs.len() == 0 {
        0
    } else {
        month_sum(cs.drop_last(), m) + (if month_of(cs.last().trade_date) == m {
            cs.last().profit
        } else {
            0
        })
    }
}

proof fn lemma_month_sum_absent(cs: Seq<ConfirmedPnl>, m: Seq<char>)
    requires
        forall|k: int| 0 <= k < cs.len() ==> month_of((#[trigger] cs[k]).trade_date) != m,
    ensures
        month_sum(cs, m) == 0,
    decreases cs.len(),
{
    if cs.len() > 0 {
        lemma_month_sum_absent(cs.drop_last(), m);
    }
}

fn month_key(date: &[char]) -> (r: Vec<char>)
    ensures
        r@ == month_of(date@),
{
    if date.len() > 7 {
        let r = crate::text::copy_range(date, 0, 7);
        assert(r@ =~= date@.take(7));
        r
    } else {
        let r = crate::text::copy_range(date, 0, date.len());
        assert(r@ =~= date@);
        r
    }
}

#[verifier::opaque]
pub open spec fn months_sorted(months: Seq<Seq<char>>) -> bool {
    forall|a: int, b: int| 0 <= a < b < months.len() ==> lex_lt(#[trigger] months[a], #[trigger] months[b])
}

/// Some profit of `cs` falls in month `m`.
pub open spec fn has_month(cs: Seq<ConfirmedPnl>, m: Seq<char>) -> bool {
    exists|k: int| 0 <= k < cs.len() && month_of((#[trigger] cs[k]).trade_date) == m
}

#[verifier::opaque]
pub open spec fn months_witnessed(months: Seq<Seq<char>>, cs: Seq<ConfirmedPnl>) -> bool {
    forall|a: int| 0 <= a < months.len() ==> has_month(cs, #[trigger] months[a])
}

#[verifier::opaque]
pub open spec fn months_cover(months: Seq<Seq<char>>, cs: Seq<ConfirmedPnl>) -> bool {
    forall|k: int|
        0 <= k < cs.len() ==> exists|a: int|
            0 <= a < months.len() && #[trigger] months[a] == month_of((#[trigger] cs[k]).trade_date)
}

#[verifier::opaque]
pub open spec fn months_totals(months: Seq<Seq<char>>, totals: Seq<int>, cs: Seq<ConfirmedPnl>) -> bool {
    forall|a: int| 0 <= a < months.len() ==> #[trigger] totals[a] == month_sum(cs, months[a])
}

/// The months and totals are those of `cs`: months strictly ascending, each
/// the month of some profit, every profit's month present, each total the
/// month's sum.
pub open spec fn months_are(months: Seq<Seq<char>>, totals: Seq<int>, cs: Seq<ConfirmedPnl>) -> bool {
    &&& totals.len() == months.len()
    &&& months_sorted(months)
    &&& months_witnessed(months, cs)
    &&& months_cover(months, cs)
    &&& months_totals(months, totals, cs)
}

spec fn seq_views(v: Seq<Vec<char>>) -> Seq<Seq<char>> {
    v.map_values(|x: Vec<char>| x@)
}

spec fn int_views(v: Seq<i128>) -> Seq<int> {
    v.map_values(|x: i128| x as int)
}

proof fn lemma_month_sum_push(cs: Seq<ConfirmedPnl>, x: ConfirmedPnl, m: Seq<char>)
    ensures
        month_sum(cs.push(x), m) == month_sum(cs, m) + (if month_of(x.trade_date) == m {
            x.profit
        } else {
            0
        }),
{
    assert(cs.push(x).drop_last() =~= cs);
}

proof fn lemma_sorted_distinct(mv: Seq<Seq<char>>, a: int, b: int)
    requires
        months_sorted(mv),
        0 <= a < mv.len(),
        0 <= b < mv.len(),
        a != b,
    ensures
        mv[a] != mv[b],
{
    reveal(months_sorted);
    if a < b {
        assert(lex_lt(mv[a], mv[b]));
        lemma_lex_trichotomy(mv[a], mv[b]);
    } else {
        assert(lex_lt(mv[b], mv[a]));
        lemma_lex_trichotomy(mv[b], mv[a]);
    }
}

proof fn lemma_has_month_push(cs: Seq<ConfirmedPnl>, x: ConfirmedPnl, m: Seq<char>)
    requires
        has_month(cs, m) || month_of(x.trade_date) == m,
    ensures
        has_month(cs.push(x), m),
{
    let post = cs.push(x);
    if has_month(cs, m) {
        let k = choose|k: int| 0 <= k < cs.len() && month_of((#[trigger] cs[k]).trade_date) == m;
        assert(post[k] == cs[k]);
    } else {
        assert(post[cs.len() as int] == x);
    }
}

proof fn lemma_witnessed_push(mv: Seq<Seq<char>>, pre: Seq<ConfirmedPnl>, x: ConfirmedPnl)
    requires
        months_witnessed(mv, pre),
    ensures
        months_witnessed(mv, pre.push(x)),
{
    reveal(months_witnessed);
    assert forall|a: int| 0 <= a < mv.len() implies has_month(pre.push(x), #[trigger] mv[a]) by {
        lemma_has_month_push(pre, x, mv[a]);
    }
}

proof fn lemma_cover_push(mv: Seq<Seq<char>>, pre: Seq<ConfirmedPnl>, x: ConfirmedPnl, p: int)
    requires
        months_cover(mv, pre),
        0 <= p < mv.len(),
        mv[p] == month_of(x.trade_date),
    ensures
        months_cover(mv, pre.push(x)),
{
    reveal(months_cover);
    let post = pre.push(x);
    assert forall|k: int| 0 <= k < post.len() implies exists|a: int|
        0 <= a < mv.len() && #[trigger] mv[a] == month_of((#[trigger] post[k]).trade_date) by {
        if k == pre.len() {
            assert(mv[p] == month_of(post[k].trade_date));
        } else {
            assert(post[k] == pre[k]);
        }
    }
}

proof fn lemma_months_add_existing(
    mv: Seq<Seq<char>>,
    tv: Seq<int>,
    pre: Seq<ConfirmedPnl>,
    x: ConfirmedPnl,
    p: int,
)
    requires
        months_are(mv, tv, pre),
        0 <= p < mv.len(),
        mv[p] == month_of(x.trade_date),
    ensures
        months_are(mv, tv.update(p, tv[p] + x.profit), pre.push(x)),
{
    let post = pre.push(x);
    let nt = tv.update(p, tv[p] + x.profit);
    lemma_witnessed_push(mv, pre, x);
    lemma_cover_push(mv, pre, x, p);
    reveal(months_totals);
    assert forall|a: int| 0 <= a < mv.len() implies #[trigger] nt[a] == month_sum(post, mv[a]) by {
        lemma_month_sum_push(pre, x, mv[a]);
        if a != p {
            lemma_sorted_distinct(mv, a, p);
        }
    }
}

proof fn lemma_sorted_insert(mv: Seq<Seq<char>>, key: Seq<char>, p: int)
    requires
        months_sorted(mv),
        0 <= p <= mv.len(),
        forall|j: int| 0 <= j < p ==> lex_lt(#[trigger] mv[j], key),
        p < mv.len() ==> lex_lt(key, mv[p]),
    ensures
        months_sorted(mv.insert(p, key)),
        forall|a: int| 0 <= a < mv.len() ==> #[trigger] mv[a] != key,
{
    reveal(months_sorted);
    let nm = mv.insert(p, key);
    mv.insert_ensures(p, key);
    assert forall|a: int| 0 <= a < mv.len() implies #[trigger] mv[a] != key by {
        if a < p {
            lemma_lex_trichotomy(mv[a], key);
        } else {
            if a > p {
                lemma_lex_transitive(key, mv[p], mv[a]);
            }
            lemma_lex_trichotomy(key, mv[a]);
        }
    }
    assert forall|a: int, b: int| 0 <= a < b < nm.len() implies lex_lt(
        #[trigger] nm[a],
        #[trigger] nm[b],
    ) by {
        if b < p {
            assert(lex_lt(mv[a], mv[b]));
        } else if b == p {
        } else if a == p {
            if b - 1 > p {
                lemma_lex_transitive(key, mv[p], mv[b - 1]);
            }
        } else if a < p {
            if b - 1 > p {
                lemma_lex_transitive(key, mv[p], mv[b - 1]);
            }
            lemma_lex_transitive(mv[a], key, mv[b - 1]);
        } else {
            assert(lex_lt(mv[a - 1], mv[b - 1]));
        }
    }
}

#[verifier::spinoff_prover]
proof fn lemma_months_insert(
    mv: Seq<Seq<char>>,
    tv: Seq<int>,
    pre: Seq<ConfirmedPnl>,
    x: ConfirmedPnl,
    p: int,
)
    requires
        months_are(mv, tv, pre),
        0 <= p <= mv.len(),
        forall|j: int| 0 <= j < p ==> lex_lt(#[trigger] mv[j], month_of(x.trade_date)),
        p < mv.len() ==> lex_lt(month_of(x.trade_date), mv[p]),
    ensures
        months_are(
            mv.insert(p, month_of(x.trade_date)),
            tv.insert(p, x.profit),
            pre.push(x),
        ),
{
    let key = month_of(x.trade_date);
    let post = pre.push(x);
    let nm = mv.insert(p, key);
    let nt = tv.insert(p, x.profit);
    mv.insert_ensures(p, key);
    tv.insert_ensures(p, x.profit);
    lemma_sorted_insert(mv, key, p);
    assert forall|k: int| 0 <= k < pre.len() implies month_of((#[trigger] pre[k]).trade_date)
        != key by {
        reveal(months_cover);
        let a = choose|a: int| 0 <= a < mv.len() && #[trigger] mv[a] == month_of(pre[k].trade_date);
    }
    lemma_month_sum_absent(pre, key);
    assert(months_totals(nm, nt, post)) by {
        reveal(months_totals);
        assert forall|a: int| 0 <= a < nm.len() implies #[trigger] nt[a] == month_sum(post, nm[a]) by {
            lemma_month_sum_push(pre, x, nm[a]);
            if a < p {
                assert(nm[a] == mv[a]);
            } else if a > p {
                assert(nm[a] == mv[a - 1]);
            }
        }
    }
    assert(months_cover(nm, post)) by {
        reveal(months_cover);
        assert forall|k: int| 0 <= k < post.len() implies exists|a: int|
            0 <= a < nm.len() && #[trigger] nm[a] == month_of((#[trigger] post[k]).trade_date) by {
            if k == pre.len() {
                assert(nm[p] == month_of(post[k].trade_date));
            } else {
                assert(post[k] == pre[k]);
                let a = choose|a: int|
                    0 <= a < mv.len() && #[trigger] mv[a] == month_of(pre[k].trade_date);
                if a < p {
                    assert(nm[a] == mv[a]);
                } else {
                    assert(nm[a + 1] == mv[a]);
                }
            }
        }
    }
    assert(months_witnessed(nm, post)) by {
        reveal(months_witnessed);
        assert forall|a: int| 0 <= a < nm.len() implies has_month(post, #[trigger] nm[a]) by {
            if a == p {
                lemma_has_month_push(pre, x, nm[a]);
            } else {
                let b = if a < p {
                    a
                } else {
                    a - 1
                };
                assert(nm[a] == mv[b]);
                assert(has_month(pre, mv[b]));
                lemma_has_month_push(pre, x, nm[a]);
            }
        }
    }
}

#[verifier::spinoff_prover]
fn monthly_totals(cs: &Vec<ConfirmedRow>) -> (r: (Vec<Vec<char>>, Vec<i128>))
    requires
        forall|i: int|
            0 <= i < cs@.len() ==> -MAX_CELL_MICROS <= (#[trigger] cs@[i]).profit <= MAX_CELL_MICROS,
    ensures
        months_are(seq_views(r.0@), int_views(r.1@), confirmed_views(cs@)),
        forall|a: int|
            0 <= a < r.1@.len() ==> -(cs@.len() * MAX_CELL_MICROS) <= #[trigger] r.1@[a] <= cs@.len()
                * MAX_CELL_MICROS,
{
    let ghost all = confirmed_views(cs@);
    let mut months: Vec<Vec<char>> = Vec::new();
    let mut totals: Vec<i128> = Vec::new();
    let mut i: usize = 0;
    proof {
        assert(seq_views(months@) =~= Seq::<Seq<char>>::empty());
        assert(int_views(totals@) =~= Seq::<int>::empty());
        reveal(months_sorted);
        reveal(months_witnessed);
        reveal(months_cover);
        reveal(months_totals);
    }
    while i < cs.len()
        invariant
            all == confirmed_views(cs@),
            forall|k: int|
                0 <= k < cs@.len() ==> -MAX_CELL_MICROS <= (#[trigger] cs@[k]).profit
                    <= MAX_CELL_MICROS,
            i <= cs@.len(),
            months_are(seq_views(months@), int_views(totals@), all.take(i as int)),
            forall|a: int|
                0 <= a < totals@.len() ==> -(i * MAX_CELL_MICROS) <= #[trigger] totals@[a] <= i
                    * MAX_CELL_MICROS,
        decreases cs@.len() - i,
    {
        let ghost pre = all.take(i as int);
        let ghost x = all[i as int];
        let ghost mv = seq_views(months@);
        let ghost tv = int_views(totals@);
        proof {
            assert(all.take(i + 1) =~= pre.push(x));
            assert((i + 1) * MAX_CELL_MICROS == i * MAX_CELL_MICROS + MAX_CELL_MICROS)
                by (nonlinear_arith);
            assert((i + 1) * MAX_CELL_MICROS <= 18446744073709551616 * 1_000_000_000_000_000_000)
                by (nonlinear_arith)
                requires
                    i < 18446744073709551615int,
                    MAX_CELL_MICROS == 1_000_000_000_000_000_000int,
            ;
        }
        let key = month_key(&cs[i].trade_date);
        let profit = cs[i].profit;
        let mut p: usize = 0;
        while p < months.len() && compare_text(&months[p], &key) == TextOrder::Before
            invariant
                p <= months@.len(),
                mv == seq_views(months@),
                forall|j: int| 0 <= j < p ==> lex_lt(#[trigger] mv[j], key@),
            decreases months@.len() - p,
        {
            p = p + 1;
        }
        if p < months.len() && chars_equal(&months[p], &key) {
            let t = totals[p] + profit;
            totals.set(p, t);
            proof {
                lemma_months_add_existing(mv, tv, pre, x, p as int);
                assert(int_views(totals@) =~= tv.update(p as int, tv[p as int] + x.profit));
            }
        } else {
            proof {
                if p < months@.len() {
                    lemma_lex_trichotomy(mv[p as int], key@);
                }
                lemma_months_insert(mv, tv, pre, x, p as int);
            }
            let ghost kv = key@;
            months.insert(p, key);
            totals.insert(p, profit);
            proof {
                assert(seq_views(months@) =~= mv.insert(p as int, kv));
                assert(int_views(totals@) =~= tv.insert(p as int, profit as int));
            }
        }
        i = i + 1;
    }
    assert(all.take(i as int) =~= all);
    (months, totals)
}

/// The confirmed profit of every month up to and including `m`.
pub open spec fn profit_through(cs: Seq<ConfirmedPnl>, m: Seq<char>) -> int
    decreases cs.len(),
{
    if cs.len() == 0 {
        0
    } else {
        profit_through(cs.drop_last(), m) + (if lex_le(month_of(cs.last().trade_date), m) {
            cs.last().profit
        } else {
            0
        })
    }
}

pub open spec fn point_months(points: Seq<MonthlyRealizedPnlPoint>) -> Seq<Seq<char>> {
    points.map_values(|p: MonthlyRealizedPnlPoint| p.month@)
}

pub open spec fn point_totals(points: Seq<MonthlyRealizedPnlPoint>) -> Seq<int> {
    points.map_values(|p: MonthlyRealizedPnlPoint| p.realized_profit_loss.micros as int)
}

/// The monthly points are those of `cs`: one per month of a profit, months
/// ascending, each with the month's total and the running total through it.
pub open spec fn monthly_points_are(points: Seq<MonthlyRealizedPnlPoint>, cs: Seq<ConfirmedPnl>) -> bool {
    &&& months_are(point_months(points), point_totals(points), cs)
    &&& forall|a: int|
        0 <= a < points.len() ==> (#[trigger] points[a]).cumulative_total_profit_loss.micros
            == profit_through(cs, points[a].month@)
}

proof fn lemma_through_bounded(cs: Seq<ConfirmedPnl>, m: Seq<char>)
    requires
        forall|k: int| 0 <= k < cs.len() ==> -MAX_CELL_MICROS <= (#[trigger] cs[k]).profit <= MAX_CELL_MICROS,
    ensures
        -(cs.len() * MAX_CELL_MICROS) <= profit_through(cs, m) <= cs.len() * MAX_CELL_MICROS,
    decreases cs.len(),
{
    if cs.len() > 0 {
        let n = cs.len() as int;
        lemma_through_bounded(cs.drop_last(), m);
        assert(n * MAX_CELL_MICROS == (n - 1) * MAX_CELL_MICROS + MAX_CELL_MICROS) by (nonlinear_arith);
        assert(cs.last() == cs[n - 1]);
    }
}

/// Where a month of the list falls against two neighbouring months of it.
proof fn lemma_month_against_neighbours(mv: Seq<Seq<char>>, a: int, b: int)
    requires
        months_sorted(mv),
        0 <= a < mv.len(),
        0 <= b < mv.len(),
    ensures
        a == 0 ==> (lex_le(mv[b], mv[a]) <==> mv[b] == mv[a]),
        a > 0 ==> (lex_le(mv[b], mv[a]) <==> (lex_le(mv[b], mv[a - 1]) || mv[b] == mv[a])),
        a > 0 ==> !(lex_le(mv[b], mv[a - 1]) && mv[b] == mv[a]),
{
    reveal(months_sorted);
    if a > 0 {
        assert(lex_lt(mv[a - 1], mv[a]));
        lemma_lex_trichotomy(mv[a - 1], mv[a]);
    }
    lemma_lex_trichotomy(mv[b], mv[a]);
    if b < a {
        assert(lex_lt(mv[b], mv[a]));
        if b < a - 1 {
            assert(lex_lt(mv[b], mv[a - 1]));
        }
    } else if b > a {
        assert(lex_lt(mv[a], mv[b]));
        if a > 0 {
            lemma_lex_transitive(mv[a - 1], mv[a], mv[b]);
            lemma_lex_trichotomy(mv[b], mv[a - 1]);
        }
        lemma_lex_trichotomy(mv[b], mv[a]);
    } else if a > 0 {
        lemma_lex_trichotomy(mv[a], mv[a - 1]);
    }
}

/// The running total steps by the month's sum from one listed month to the next.
proof fn lemma_through_step(mv: Seq<Seq<char>>, cs: Seq<ConfirmedPnl>, a: int)
    requires
        months_sorted(mv),
        0 <= a < mv.len(),
        forall|k: int| 0 <= k < cs.len() ==> has_entry(mv, month_of((#[trigger] cs[k]).trade_date)),
    ensures
        a == 0 ==> profit_through(cs, mv[a]) == month_sum(cs, mv[a]),
        a > 0 ==> profit_through(cs, mv[a]) == profit_through(cs, mv[a - 1]) + month_sum(cs, mv[a]),
    decreases cs.len(),
{
    if cs.len() > 0 {
        let pre = cs.drop_last();
        assert forall|k: int| 0 <= k < pre.len() implies has_entry(mv, month_of((#[trigger] pre[k]).trade_date)) by {
            assert(pre[k] == cs[k]);
        }
        lemma_through_step(mv, pre, a);
        assert(has_entry(mv, month_of(cs[cs.len() - 1].trade_date)));
        let b = choose|b: int| 0 <= b < mv.len() && #[trigger] mv[b] == month_of(cs.last().trade_date);
        lemma_month_against_neighbours(mv, a, b);
    }
}

/// When every profit's month is at most `m`, the running total through `m`
/// is the whole sum.
proof fn lemma_through_all(cs: Seq<ConfirmedPnl>, m: Seq<char>)
    requires
        forall|k: int| 0 <= k < cs.len() ==> lex_le(month_of((#[trigger] cs[k]).trade_date), m),
    ensures
        profit_through(cs, m) == profit_sum(cs),
    decreases cs.len(),
{
    if cs.len() > 0 {
        let pre = cs.drop_last();
        assert forall|k: int| 0 <= k < pre.len() implies lex_le(month_of((#[trigger] pre[k]).trade_date), m) by {
            assert(pre[k] == cs[k]);
        }
        lemma_through_all(pre, m);
        assert(lex_le(month_of(cs[cs.len() - 1].trade_date), m));
    }
}

#[verifier::spinoff_prover]
fn monthly_points(cs: &Vec<ConfirmedRow>) -> (r: Vec<MonthlyRealizedPnlPoint>)
    requires
        forall|i: int|
            0 <= i < cs@.len() ==> -MAX_CELL_MICROS <= (#[trigger] cs@[i]).profit <= MAX_CELL_MICROS,
    ensures
        monthly_points_are(r@, confirmed_views(cs@)),
{
    let ghost all = confirmed_views(cs@);
    let (months, totals) = monthly_totals(cs);
    let ghost mv = seq_views(months@);
    let ghost tv = int_views(totals@);
    let len = cs.len();
    let ghost n = len as int;
    proof {
        reveal(months_cover);
        assert forall|k: int| 0 <= k < all.len() implies has_entry(mv, month_of((#[trigger] all[k]).trade_date)) by {
            let a = choose|a: int| 0 <= a < mv.len() && #[trigger] mv[a] == month_of(all[k].trade_date);
        }
        assert forall|k: int| 0 <= k < all.len() implies -MAX_CELL_MICROS <= (#[trigger] all[k]).profit <= MAX_CELL_MICROS by {
            assert(all[k].profit == cs@[k].profit);
        }
        assert(n * MAX_CELL_MICROS <= 18446744073709551616 * 1_000_000_000_000_000_000) by (nonlinear_arith)
            requires
                n <= 18446744073709551615int,
                MAX_CELL_MICROS == 1_000_000_000_000_000_000int,
        ;
    }
    let mut points: Vec<MonthlyRealizedPnlPoint> = Vec::new();
    let mut running: i128 = 0;
    let mut a: usize = 0;
    while a < months.len()
        invariant
            all == confirmed_views(cs@),
            n == all.len(),
            n * MAX_CELL_MICROS <= 18446744073709551616 * 1_000_000_000_000_000_000,
            forall|k: int| 0 <= k < all.len() ==> -MAX_CELL_MICROS <= (#[trigger] all[k]).profit <= MAX_CELL_MICROS,
            forall|k: int| 0 <= k < all.len() ==> has_entry(mv, month_of((#[trigger] all[k]).trade_date)),
            mv == seq_views(months@),
            tv == int_views(totals@),
            months_are(mv, tv, all),
            a <= mv.len(),
            a > 0 ==> running == profit_through(all, mv[a - 1]),
            a == 0 ==> running == 0,
            points@.len() == a,
            forall|t: int|
                0 <= t < a ==> {
                    let pt = #[trigger] points@[t];
                    &&& pt.month@ == mv[t]
                    &&& pt.realized_profit_loss.micros == tv[t]
                    &&& pt.cumulative_total_profit_loss.micros == profit_through(all, mv[t])
                },
        decreases mv.len() - a,
    {
        proof {
            lemma_through_step(mv, all, a as int);
            lemma_through_bounded(all, mv[a as int]);
            reveal(months_totals);
            assert(tv[a as int] == month_sum(all, mv[a as int]));
        }
        running = running + totals[a];
        points.push(
            MonthlyRealizedPnlPoint {
                month: string_from_chars(&months[a]),
                realized_profit_loss: Amount { micros: totals[a] },
                cumulative_total_profit_loss: Amount { micros: running },
            },
        );
        a = a + 1;
    }
    proof {
        assert(point_months(points@) =~= mv);
        assert(point_totals(points@) =~= tv);
    }
    points
}

/// The running total of the last month is the whole confirmed profit.
pub proof fn lemma_running_total_ends_at_total(points: Seq<MonthlyRealizedPnlPoint>, cs: Seq<ConfirmedPnl>)
    requires
        monthly_points_are(points, cs),
        points.len() > 0,
    ensures
        points.last().cumulative_total_profit_loss.micros == profit_sum(cs),
{
    let mv = point_months(points);
    let last = points.len() - 1;
    assert(mv[last] == points.last().month@);
    assert forall|k: int| 0 <= k < cs.len() implies lex_le(month_of((#[trigger] cs[k]).trade_date), mv[last]) by {
        reveal(months_cover);
        reveal(months_sorted);
        let a = choose|a: int| 0 <= a < mv.len() && #[trigger] mv[a] == month_of(cs[k].trade_date);
        if a < last {
            assert(lex_lt(mv[a], mv[last]));
        }
    }
    lemma_through_all(cs, mv[last]);
    assert(points[last] == points.last());
}

/// There is a monthly point exactly when some profit is confirmed.
pub proof fn lemma_points_iff_profits(points: Seq<MonthlyRealizedPnlPoint>, cs: Seq<ConfirmedPnl>)
    requires
        monthly_points_are(points, cs),
    ensures
        (points.len() == 0) == (cs.len() == 0),
{
    let mv = point_months(points);
    if cs.len() > 0 {
        assert(has_entry(mv, month_of(cs[0].trade_date))) by {
            reveal(months_cover);
            let a = choose|a: int| 0 <= a < mv.len() && #[trigger] mv[a] == month_of(cs[0].trade_date);
        }
    }
    if points.len() > 0 {
        reveal(months_witnessed);
        assert(has_month(cs, mv[0]));
    }
}

// ---------------------------------------------------------------------------
// Per-stock totals
// ---------------------------------------------------------------------------

/// Some profit of `cs` is of stock `code`.
pub open spec fn has_code(cs: Seq<ConfirmedPnl>, code: Seq<char>) -> bool {
    exists|k: int| 0 <= k < cs.len() && (#[trigger] cs[k]).stock_code == code
}

pub open spec fn code_sum(cs: Seq<ConfirmedPnl>, code: Seq<char>) -> int
    decreases cs.len(),
{
    if cs.len() == 0 {
        0
    } else {
        code_sum(cs.drop_last(), code) + (if cs.last().stock_code == code {
            cs.last().profit
        } else {
            0
        })
    }
}

pub open spec fn code_count(cs: Seq<ConfirmedPnl>, code: Seq<char>) -> nat
    decreases cs.len(),
{
    if cs.len() == 0 {
        0
    } else {
        code_count(cs.drop_last(), code) + (if cs.last().stock_code == code {
            1nat
        } else {
            0nat
        })
    }
}

/// The stock name carried by the first profit of stock `code`.
pub open spec fn first_name(cs: Seq<ConfirmedPnl>, code: Seq<char>) -> Seq<char>
    decreases cs.len(),
{
    if cs.len() == 0 {
        Seq::<char>::empty()
    } else if has_code(cs.drop_last(), code) {
        first_name(cs.drop_last(), code)
    } else {
        cs.last().stock_name
    }
}

proof fn lemma_has_code_push(cs: Seq<ConfirmedPnl>, x: ConfirmedPnl, code: Seq<char>)
    ensures
        has_code(cs.push(x), code) == (has_code(cs, code) || x.stock_code == code),
{
    let post = cs.push(x);
    if has_code(cs, code) {
        let k = choose|k: int| 0 <= k < cs.len() && (#[trigger] cs[k]).stock_code == code;
        assert(post[k] == cs[k]);
    } else if x.stock_code == code {
        assert(post[cs.len() as int] == x);
    } else {
        assert forall|k: int| 0 <= k < post.len() implies (#[trigger] post[k]).stock_code != code by {
            if k < cs.len() {
                assert(post[k] == cs[k]);
            }
        }
    }
}

proof fn lemma_code_push(cs: Seq<ConfirmedPnl>, x: ConfirmedPnl, code: Seq<char>)
    ensures
        code_sum(cs.push(x), code) == code_sum(cs, code) + (if x.stock_code == code {
            x.profit
        } else {
            0
        }),
        code_count(cs.push(x), code) == code_count(cs, code) + (if x.stock_code == code {
            1nat
        } else {
            0nat
        }),
        has_code(cs, code) ==> first_name(cs.push(x), code) == first_name(cs, code),
        !has_code(cs, code) ==> first_name(cs.push(x), code) == x.stock_name,
{
    assert(cs.push(x).drop_last() =~= cs);
}

proof fn lemma_code_absent(cs: Seq<ConfirmedPnl>, code: Seq<char>)
    requires
        !has_code(cs, code),
    ensures
        code_sum(cs, code) == 0,
        code_count(cs, code) == 0,
    decreases cs.len(),
{
    if cs.len() > 0 {
        lemma_has_code_push(cs.drop_last(), cs.last(), code);
        assert(cs.drop_last().push(cs.last()) =~= cs);
        lemma_code_absent(cs.drop_last(), code);
    }
}

/// Some entry of `codes` is `code`.
pub open spec fn has_entry(codes: Seq<Seq<char>>, code: Seq<char>) -> bool {
    exists|a: int| 0 <= a < codes.len() && #[trigger] codes[a] == code
}

/// The per-stock entries are those of `cs`: distinct codes, each of some
/// profit, every profit's code present, with each code's sum, count and
/// first-seen name.
pub open spec fn stocks_are(
    codes: Seq<Seq<char>>,
    names: Seq<Seq<char>>,
    sums: Seq<int>,
    counts: Seq<int>,
    cs: Seq<ConfirmedPnl>,
) -> bool {
    &&& names.len() == codes.len()
    &&& sums.len() == codes.len()
    &&& counts.len() == codes.len()
    &&& forall|a: int, b: int| 0 <= a < b < codes.len() ==> #[trigger] codes[a] != #[trigger] codes[b]
    &&& forall|a: int| 0 <= a < codes.len() ==> has_code(cs, #[trigger] codes[a])
    &&& forall|k: int| 0 <= k < cs.len() ==> has_entry(codes, (#[trigger] cs[k]).stock_code)
    &&& forall|a: int| 0 <= a < codes.len() ==> #[trigger] sums[a] == code_sum(cs, codes[a])
    &&& forall|a: int| 0 <= a < codes.len() ==> #[trigger] counts[a] == code_count(cs, codes[a])
    &&& forall|a: int| 0 <= a < codes.len() ==> #[trigger] names[a] == first_name(cs, codes[a])
}

spec fn i64_views(v: Seq<i64>) -> Seq<int> {
    v.map_values(|x: i64| x as int)
}

proof fn lemma_stocks_update(
    codes: Seq<Seq<char>>,
    names: Seq<Seq<char>>,
    sums: Seq<int>,
    counts: Seq<int>,
    pre: Seq<ConfirmedPnl>,
    x: ConfirmedPnl,
    p: int,
)
    requires
        stocks_are(codes, names, sums, counts, pre),
        0 <= p < codes.len(),
        codes[p] == x.stock_code,
    ensures
        stocks_are(
            codes,
            names,
            sums.update(p, sums[p] + x.profit),
            counts.update(p, counts[p] + 1),
            pre.push(x),
        ),
{
    let post = pre.push(x);
    assert forall|a: int| 0 <= a < codes.len() implies has_code(post, #[trigger] codes[a]) by {
        lemma_has_code_push(pre, x, codes[a]);
    }
    assert forall|k: int| 0 <= k < post.len() implies has_entry(codes, (#[trigger] post[k]).stock_code) by {
        if k == pre.len() {
            assert(codes[p] == post[k].stock_code);
        } else {
            assert(post[k] == pre[k]);
        }
    }
    let ns = sums.update(p, sums[p] + x.profit);
    let nk = counts.update(p, counts[p] + 1);
    assert forall|a: int| 0 <= a < codes.len() implies #[trigger] ns[a] == code_sum(post, codes[a])
        && nk[a] == code_count(post, codes[a]) && names[a] == first_name(post, codes[a]) by {
        lemma_code_push(pre, x, codes[a]);
        if a != p {
            if a < p {
                assert(codes[a] != codes[p]);
            } else {
                assert(codes[p] != codes[a]);
            }
        }
    }
    assert forall|a: int| 0 <= a < codes.len() implies #[trigger] nk[a] == code_count(post, codes[a]) by {
        assert(ns[a] == code_sum(post, codes[a]));
    }
    assert forall|a: int| 0 <= a < codes.len() implies #[trigger] names[a] == first_name(post, codes[a]) by {
        assert(ns[a] == code_sum(post, codes[a]));
    }
}


proof fn lemma_stocks_push(
    codes: Seq<Seq<char>>,
    names: Seq<Seq<char>>,
    sums: Seq<int>,
    counts: Seq<int>,
    pre: Seq<ConfirmedPnl>,
    x: ConfirmedPnl,
)
    requires
        stocks_are(codes, names, sums, counts, pre),
        forall|a: int| 0 <= a < codes.len() ==> #[trigger] codes[a] != x.stock_code,
    ensures
        stocks_are(
            codes.push(x.stock_code),
            names.push(x.stock_name),
            sums.push(x.profit),
            counts.push(1),
            pre.push(x),
        ),
{
    let post = pre.push(x);
    let nc = codes.push(x.stock_code);
    assert(!has_code(pre, x.stock_code)) by {
        if has_code(pre, x.stock_code) {
            let k = choose|k: int| 0 <= k < pre.len() && (#[trigger] pre[k]).stock_code == x.stock_code;
            assert(has_entry(codes, pre[k].stock_code));
        }
    }
    lemma_code_absent(pre, x.stock_code);
    assert forall|a: int| 0 <= a < nc.len() implies has_code(post, #[trigger] nc[a]) by {
        lemma_has_code_push(pre, x, nc[a]);
    }
    assert forall|k: int| 0 <= k < post.len() implies has_entry(nc, (#[trigger] post[k]).stock_code) by {
        if k == pre.len() {
            assert(nc[codes.len() as int] == post[k].stock_code);
        } else {
            assert(post[k] == pre[k]);
            let a = choose|a: int| 0 <= a < codes.len() && #[trigger] codes[a] == pre[k].stock_code;
            assert(nc[a] == codes[a]);
        }
    }
    let nn = names.push(x.stock_name);
    let ns = sums.push(x.profit);
    let nk = counts.push(1);
    assert forall|a: int| 0 <= a < nc.len() implies #[trigger] ns[a] == code_sum(post, nc[a])
        && nk[a] == code_count(post, nc[a]) && nn[a] == first_name(post, nc[a]) by {
        lemma_code_push(pre, x, nc[a]);
    }
    assert forall|a: int| 0 <= a < nc.len() implies #[trigger] nk[a] == code_count(post, nc[a]) by {
        assert(ns[a] == code_sum(post, nc[a]));
    }
    assert forall|a: int| 0 <= a < nc.len() implies #[trigger] nn[a] == first_name(post, nc[a]) by {
        assert(ns[a] == code_sum(post, nc[a]));
    }
    assert forall|a: int, b: int| 0 <= a < b < nc.len() implies #[trigger] nc[a] != #[trigger] nc[b] by {
        if b == codes.len() {
            assert(nc[a] == codes[a]);
        } else {
            assert(codes[a] != codes[b]);
        }
    }
}


#[verifier::spinoff_prover]
fn stock_totals(cs: &Vec<ConfirmedRow>) -> (r: (Vec<Vec<char>>, Vec<Vec<char>>, Vec<i128>, Vec<i64>))
    requires
        forall|i: int|
            0 <= i < cs@.len() ==> -MAX_CELL_MICROS <= (#[trigger] cs@[i]).profit <= MAX_CELL_MICROS,
        cs@.len() <= i64::MAX,
    ensures
        stocks_are(
            seq_views(r.0@),
            seq_views(r.1@),
            int_views(r.2@),
            i64_views(r.3@),
            confirmed_views(cs@),
        ),
{
    let ghost all = confirmed_views(cs@);
    let mut codes: Vec<Vec<char>> = Vec::new();
    let mut names: Vec<Vec<char>> = Vec::new();
    let mut sums: Vec<i128> = Vec::new();
    let mut counts: Vec<i64> = Vec::new();
    let mut i: usize = 0;
    proof {
        assert(seq_views(codes@) =~= Seq::<Seq<char>>::empty());
        assert(seq_views(names@) =~= Seq::<Seq<char>>::empty());
        assert(int_views(sums@) =~= Seq::<int>::empty());
        assert(i64_views(counts@) =~= Seq::<int>::empty());
    }
    while i < cs.len()
        invariant
            all == confirmed_views(cs@),
            forall|k: int|
                0 <= k < cs@.len() ==> -MAX_CELL_MICROS <= (#[trigger] cs@[k]).profit
                    <= MAX_CELL_MICROS,
            cs@.len() <= i64::MAX,
            i <= cs@.len(),
            stocks_are(
                seq_views(codes@),
                seq_views(names@),
                int_views(sums@),
                i64_views(counts@),
                all.take(i as int),
            ),
            forall|a: int|
                0 <= a < sums@.len() ==> -(i * MAX_CELL_MICROS) <= #[trigger] sums@[a] <= i
                    * MAX_CELL_MICROS,
            forall|a: int| 0 <= a < counts@.len() ==> 0 <= #[trigger] counts@[a] <= i,
        decreases cs@.len() - i,
    {
        let ghost pre = all.take(i as int);
        let ghost x = all[i as int];
        let ghost cv = seq_views(codes@);
        let ghost nv = seq_views(names@);
        let ghost sv = int_views(sums@);
        let ghost kv = i64_views(counts@);
        proof {
            assert(all.take(i + 1) =~= pre.push(x));
            assert((i + 1) * MAX_CELL_MICROS == i * MAX_CELL_MICROS + MAX_CELL_MICROS)
                by (nonlinear_arith);
            assert((i + 1) * MAX_CELL_MICROS <= 18446744073709551616 * 1_000_000_000_000_000_000)
                by (nonlinear_arith)
                requires
                    i < 18446744073709551615int,
                    MAX_CELL_MICROS == 1_000_000_000_000_000_000int,
            ;
        }
        let mut p: usize = 0;
        while p < codes.len() && !chars_equal(&codes[p], &cs[i].stock_code)
            invariant
                p <= codes@.len(),
                cv == seq_views(codes@),
                i < cs@.len(),
                x == confirmed_view(cs@[i as int]),
                forall|j: int| 0 <= j < p ==> #[trigger] cv[j] != x.stock_code,
            decreases codes@.len() - p,
        {
            p = p + 1;
        }
        if p < codes.len() {
            let s = sums[p] + cs[i].profit;
            let c = counts[p] + 1;
            sums.set(p, s);
            counts.set(p, c);
            proof {
                lemma_stocks_update(cv, nv, sv, kv, pre, x, p as int);
                assert(int_views(sums@) =~= sv.update(p as int, sv[p as int] + x.profit));
                assert(i64_views(counts@) =~= kv.update(p as int, kv[p as int] + 1));
            }
        } else {
            let code = crate::text::copy_range(&cs[i].stock_code, 0, cs[i].stock_code.len());
            let name = crate::text::copy_range(&cs[i].stock_name, 0, cs[i].stock_name.len());
            proof {
                assert(code@ =~= x.stock_code);
                assert(name@ =~= x.stock_name);
                lemma_stocks_push(cv, nv, sv, kv, pre, x);
            }
            codes.push(code);
            names.push(name);
            sums.push(cs[i].profit);
            counts.push(1);
            proof {
                assert(seq_views(codes@) =~= cv.push(x.stock_code));
                assert(seq_views(names@) =~= nv.push(x.stock_name));
                assert(int_views(sums@) =~= sv.push(x.profit));
                assert(i64_views(counts@) =~= kv.push(1));
            }
        }
        i = i + 1;
    }
    assert(all.take(i as int) =~= all);
    (codes, names, sums, counts)
}

/// Some position of `order` holds `a`.
pub open spec fn has_index(order: Seq<int>, a: int) -> bool {
    exists|j: int| 0 <= j < order.len() && #[trigger] order[j] == a
}

/// `order` lists each of `0..n` once, by non-increasing `sums`, keeping the
/// first-seen order among equal sums.
pub open spec fn sorted_by_total(order: Seq<int>, sums: Seq<int>, n: int) -> bool {
    &&& order.len() == n
    &&& forall|j: int| 0 <= j < order.len() ==> 0 <= #[trigger] order[j] < n
    &&& forall|j1: int, j2: int| 0 <= j1 < j2 < order.len() ==> #[trigger] order[j1] != #[trigger] order[j2]
    &&& forall|a: int| 0 <= a < n ==> #[trigger] has_index(order, a)
    &&& forall|j1: int, j2: int|
        0 <= j1 < j2 < order.len() ==> sums[#[trigger] order[j1]] >= sums[#[trigger] order[j2]]
}

spec fn usize_views(v: Seq<usize>) -> Seq<int> {
    v.map_values(|x: usize| x as int)
}

proof fn lemma_sorted_insert_index(order: Seq<int>, sums: Seq<int>, e: int, p: int)
    requires
        sorted_by_total(order, sums, e),
        0 <= e < sums.len(),
        0 <= p <= order.len(),
        forall|j: int| 0 <= j < p ==> sums[#[trigger] order[j]] >= sums[e],
        p < order.len() ==> sums[order[p]] < sums[e],
    ensures
        sorted_by_total(order.insert(p, e), sums, e + 1),
{
    let no = order.insert(p, e);
    order.insert_ensures(p, e);
    assert forall|j1: int, j2: int| 0 <= j1 < j2 < no.len() implies #[trigger] no[j1] != #[trigger] no[j2] by {
        if j1 == p {
        } else if j2 == p {
        } else {
            let a1 = if j1 < p { j1 } else { j1 - 1 };
            let a2 = if j2 < p { j2 } else { j2 - 1 };
            assert(no[j1] == order[a1]);
            assert(no[j2] == order[a2]);
        }
    }
    assert forall|a: int| 0 <= a < e + 1 implies #[trigger] has_index(no, a) by {
        if a == e {
            assert(no[p] == e);
        } else {
            assert(has_index(order, a));
            let j = choose|j: int| 0 <= j < order.len() && #[trigger] order[j] == a;
            if j < p {
                assert(no[j] == a);
            } else {
                assert(no[j + 1] == a);
            }
        }
    }
    assert forall|j1: int, j2: int| 0 <= j1 < j2 < no.len() implies sums[#[trigger] no[j1]] >= sums[#[trigger] no[j2]] by {
        if j2 < p {
        } else if j2 == p {
            assert(sums[order[j1]] >= sums[e]);
        } else if j1 == p {
            if j2 - 1 > p {
                assert(sums[order[p]] >= sums[order[j2 - 1]]);
            }
        } else if j1 < p {
            assert(sums[order[j1]] >= sums[e]);
            if j2 - 1 > p {
                assert(sums[order[p]] >= sums[order[j2 - 1]]);
            }
        } else {
            assert(sums[order[j1 - 1]] >= sums[order[j2 - 1]]);
        }
    }
}

fn order_by_total(sums: &Vec<i128>) -> (r: Vec<usize>)
    ensures
        sorted_by_total(usize_views(r@), int_views(sums@), sums@.len() as int),
{
    let ghost sv = int_views(sums@);
    let mut order: Vec<usize> = Vec::new();
    let mut e: usize = 0;
    proof {
        assert(usize_views(order@) =~= Seq::<int>::empty());
    }
    while e < sums.len()
        invariant
            sv == int_views(sums@),
            e <= sums@.len(),
            sorted_by_total(usize_views(order@), sv, e as int),
        decreases sums@.len() - e,
    {
        let ghost ov = usize_views(order@);
        proof {
            assert forall|j: int| 0 <= j < order@.len() implies (#[trigger] order@[j] as int) < e by {
                assert(ov[j] == order@[j] as int);
            }
        }
        let mut p: usize = 0;
        while p < order.len() && sums[order[p]] >= sums[e]
            invariant
                forall|j: int| 0 <= j < order@.len() ==> (#[trigger] order@[j] as int) < e,
                ov == usize_views(order@),
                sv == int_views(sums@),
                e < sums@.len(),
                sorted_by_total(ov, sv, e as int),
                p <= order@.len(),
                forall|j: int| 0 <= j < p ==> sv[#[trigger] ov[j]] >= sv[e as int],
            decreases order@.len() - p,
        {
            assert(ov[p as int] < e);
            p = p + 1;
        }
        proof {
            if p < order@.len() {
                assert(ov[p as int] < e);
            }
            lemma_sorted_insert_index(ov, sv, e as int, p as int);
        }
        order.insert(p, e);
        assert(usize_views(order@) =~= ov.insert(p as int, e as int));
        e = e + 1;
    }
    order
}

/// The name the stock master gives `code` (its last entry for the code).
pub open spec fn master_name(master: Seq<(Seq<char>, Seq<char>)>, code: Seq<char>) -> Option<
    Seq<char>,
>
    decreases master.len(),
{
    if master.len() == 0 {
        None
    } else if master.last().0 == code {
        Some(master.last().1)
    } else {
        master_name(master.drop_last(), code)
    }
}

/// The stock master's name when it has one, else `fallback`.
pub open spec fn resolved_name(
    master: Seq<(Seq<char>, Seq<char>)>,
    code: Seq<char>,
    fallback: Seq<char>,
) -> Seq<char> {
    match master_name(master, code) {
        Some(n) => n,
        None => fallback,
    }
}

pub open spec fn master_view(master: Seq<StockNameEntry>) -> Seq<(Seq<char>, Seq<char>)> {
    master.map_values(|e: StockNameEntry| (e.stock_code@, e.stock_name@))
}

struct MasterChars {
    code: Vec<char>,
    name: Vec<char>,
}

fn master_chars_of(master: &Vec<StockNameEntry>) -> (r: Vec<MasterChars>)
    ensures
        r@.len() == master@.len(),
        forall|i: int|
            0 <= i < r@.len() ==> (#[trigger] r@[i]).code@ == master@[i].stock_code@ && r@[i].name@
                == master@[i].stock_name@,
{
    let mut r: Vec<MasterChars> = Vec::new();
    let mut i: usize = 0;
    while i < master.len()
        invariant
            i <= master@.len(),
            r@.len() == i,
            forall|k: int|
                0 <= k < i ==> (#[trigger] r@[k]).code@ == master@[k].stock_code@ && r@[k].name@
                    == master@[k].stock_name@,
        decreases master@.len() - i,
    {
        r.push(
            MasterChars {
                code: str_chars(master[i].stock_code.as_str()),
                name: str_chars(master[i].stock_name.as_str()),
            },
        );
        i = i + 1;
    }
    r
}

fn resolve_name(master: &Vec<MasterChars>, code: &[char], fallback: &[char], Ghost(mv): Ghost<
    Seq<(Seq<char>, Seq<char>)>,
>) -> (r: String)
    requires
        mv.len() == master@.len(),
        forall|i: int|
            0 <= i < mv.len() ==> (#[trigger] mv[i]).0 == master@[i].code@ && mv[i].1
                == master@[i].name@,
    ensures
        r@ == resolved_name(mv, code@, fallback@),
{
    let mut found: Option<usize> = None;
    let mut i: usize = 0;
    while i < master.len()
        invariant
            i <= master@.len(),
            mv.len() == master@.len(),
            forall|k: int|
                0 <= k < mv.len() ==> (#[trigger] mv[k]).0 == master@[k].code@ && mv[k].1
                    == master@[k].name@,
            match found {
                Some(j) => j < i && master_name(mv.take(i as int), code@) == Some(mv[j as int].1),
                None => master_name(mv.take(i as int), code@) is None,
            },
        decreases master@.len() - i,
    {
        proof {
            lemma_take_drop_last(mv, i as int);
        }
        if chars_equal(&master[i].code, code) {
            found = Some(i);
        }
        i = i + 1;
    }
    assert(mv.take(i as int) =~= mv);
    match found {
        Some(j) => string_from_chars(&master[j].name),
        None => string_from_chars(fallback),
    }
}

/// Some item of the ranking is of stock `code`.
pub open spec fn lists_code(items: Seq<StockRealizedPnlItem>, code: Seq<char>) -> bool {
    exists|j: int| 0 <= j < items.len() && (#[trigger] items[j]).stock_code@ == code
}

/// The ranking is that of `cs`: distinct stocks, each with some profit, every
/// profit's stock present, with the stock's profit sum, sale count and name
/// (the stock master's, else the first one seen), by non-increasing profit.
pub open spec fn stock_items_are(
    items: Seq<StockRealizedPnlItem>,
    cs: Seq<ConfirmedPnl>,
    master: Seq<(Seq<char>, Seq<char>)>,
) -> bool {
    &&& forall|j1: int, j2: int|
        0 <= j1 < j2 < items.len() ==> (#[trigger] items[j1]).stock_code@ != (
        #[trigger] items[j2]).stock_code@
    &&& forall|j: int| 0 <= j < items.len() ==> has_code(cs, (#[trigger] items[j]).stock_code@)
    &&& forall|k: int| 0 <= k < cs.len() ==> lists_code(items, (#[trigger] cs[k]).stock_code)
    &&& forall|j: int|
        0 <= j < items.len() ==> {
            let it = #[trigger] items[j];
            &&& it.realized_profit_loss.micros == code_sum(cs, it.stock_code@)
            &&& it.sell_trade_count == code_count(cs, it.stock_code@)
            &&& it.stock_name@ == resolved_name(
                master,
                it.stock_code@,
                first_name(cs, it.stock_code@),
            )
        }
    &&& forall|j1: int, j2: int|
        0 <= j1 < j2 < items.len() ==> (#[trigger] items[j1]).realized_profit_loss.micros >= (
        #[trigger] items[j2]).realized_profit_loss.micros
}

#[verifier::spinoff_prover]
fn stock_items(
    cs: &Vec<ConfirmedRow>,
    master: &Vec<MasterChars>,
    Ghost(mv): Ghost<Seq<(Seq<char>, Seq<char>)>>,
) -> (r: Vec<StockRealizedPnlItem>)
    requires
        forall|i: int|
            0 <= i < cs@.len() ==> -MAX_CELL_MICROS <= (#[trigger] cs@[i]).profit <= MAX_CELL_MICROS,
        cs@.len() <= i64::MAX,
        mv.len() == master@.len(),
        forall|i: int|
            0 <= i < mv.len() ==> (#[trigger] mv[i]).0 == master@[i].code@ && mv[i].1
                == master@[i].name@,
    ensures
        stock_items_are(r@, confirmed_views(cs@), mv),
{
    let ghost all = confirmed_views(cs@);
    let (codes, names, sums, counts) = stock_totals(cs);
    let order = order_by_total(&sums);
    let ghost cv = seq_views(codes@);
    let ghost nv = seq_views(names@);
    let ghost sv = int_views(sums@);
    let ghost kv = i64_views(counts@);
    let ghost ov = usize_views(order@);
    let mut items: Vec<StockRealizedPnlItem> = Vec::new();
    let mut j: usize = 0;
    while j < order.len()
        invariant
            all == confirmed_views(cs@),
            stocks_are(cv, nv, sv, kv, all),
            cv == seq_views(codes@),
            nv == seq_views(names@),
            sv == int_views(sums@),
            kv == i64_views(counts@),
            ov == usize_views(order@),
            sorted_by_total(ov, sv, sums@.len() as int),
            mv.len() == master@.len(),
            forall|i: int|
                0 <= i < mv.len() ==> (#[trigger] mv[i]).0 == master@[i].code@ && mv[i].1
                    == master@[i].name@,
            j <= order@.len(),
            items@.len() == j,
            forall|t: int|
                0 <= t < j ==> {
                    let it = #[trigger] items@[t];
                    &&& it.stock_code@ == cv[ov[t]]
                    &&& it.realized_profit_loss.micros == sv[ov[t]]
                    &&& it.sell_trade_count == kv[ov[t]]
                    &&& it.stock_name@ == resolved_name(mv, cv[ov[t]], nv[ov[t]])
                },
        decreases order@.len() - j,
    {
        let a = order[j];
        assert(ov[j as int] == a as int);
        let name = resolve_name(master, &codes[a], &names[a], Ghost(mv));
        items.push(
            StockRealizedPnlItem {
                stock_code: string_from_chars(&codes[a]),
                stock_name: name,
                realized_profit_loss: Amount { micros: sums[a] },
                sell_trade_count: counts[a],
            },
        );
        j = j + 1;
    }
    proof {
        let n = sums@.len() as int;
        assert forall|t: int| 0 <= t < items@.len() implies {
            let it = #[trigger] items@[t];
            &&& has_code(all, it.stock_code@)
            &&& it.realized_profit_loss.micros == code_sum(all, it.stock_code@)
            &&& it.sell_trade_count == code_count(all, it.stock_code@)
            &&& it.stock_name@ == resolved_name(mv, it.stock_code@, first_name(all, it.stock_code@))
        } by {
            let a = ov[t];
            assert(0 <= a < n);
            assert(has_code(all, cv[a]));
            assert(sv[a] == code_sum(all, cv[a]));
            assert(kv[a] == code_count(all, cv[a]));
            assert(nv[a] == first_name(all, cv[a]));
        }
        assert forall|j1: int, j2: int|
            0 <= j1 < j2 < items@.len() implies (#[trigger] items@[j1]).stock_code@ != (
            #[trigger] items@[j2]).stock_code@ by {
            assert(ov[j1] != ov[j2]);
        }
        assert forall|k: int| 0 <= k < all.len() implies lists_code(items@, (#[trigger] all[k]).stock_code) by {
            assert(has_entry(cv, all[k].stock_code));
            let a = choose|a: int| 0 <= a < cv.len() && #[trigger] cv[a] == all[k].stock_code;
            assert(has_index(ov, a));
            let t = choose|t: int| 0 <= t < ov.len() && #[trigger] ov[t] == a;
            assert(items@[t].stock_code@ == all[k].stock_code);
        }
        assert forall|j1: int, j2: int|
            0 <= j1 < j2 < items@.len() implies (#[trigger] items@[j1]).realized_profit_loss.micros
            >= (#[trigger] items@[j2]).realized_profit_loss.micros by {
            assert(sv[ov[j1]] >= sv[ov[j2]]);
        }
    }
    items
}

// ---------------------------------------------------------------------------
// The most recent trades
// ---------------------------------------------------------------------------

/// How many recent trades the screen lists.
pub const RECENT_TRADE_LIMIT: usize = 100;

/// Trade `a` is listed before trade `b`: it has the later date, or the same
/// date and the larger id.
pub open spec fn listed_before(a: TradeRowModel, b: TradeRowModel) -> bool {
    lex_lt(b.trade_date, a.trade_date) || (a.trade_date == b.trade_date && a.trade_id > b.trade_id)
}

/// Trade `k` is listed after every picked trade.
pub open spec fn after_all_picks(ts: Seq<TradeRowModel>, picks: Seq<int>, k: int) -> bool {
    forall|j: int| 0 <= j < picks.len() ==> listed_before(ts[#[trigger] picks[j]], ts[k])
}

/// `picks` are the most recent trades in scope, at most `limit` of them,
/// newest first: every trade in scope that is not picked comes after all the
/// picked ones, and is left out only because the list is full.
pub open spec fn recent_picks_are(
    picks: Seq<int>,
    ts: Seq<TradeRowModel>,
    f: Option<Seq<char>>,
    s: Option<Seq<char>>,
    limit: int,
) -> bool {
    &&& picks.len() <= limit
    &&& forall|j: int|
        0 <= j < picks.len() ==> 0 <= #[trigger] picks[j] < ts.len() && in_scope(
            ts[picks[j]].broker,
            ts[picks[j]].trade_date,
            f,
            s,
        )
    &&& forall|j1: int, j2: int|
        0 <= j1 < j2 < picks.len() ==> listed_before(ts[#[trigger] picks[j1]], ts[#[trigger] picks[j2]])
    &&& forall|k: int|
        0 <= k < ts.len() && in_scope(ts[k].broker, ts[k].trade_date, f, s) && !#[trigger] has_index(
            picks,
            k,
        ) ==> picks.len() == limit && after_all_picks(ts, picks, k)
}

proof fn lemma_listed_order(a: TradeRowModel, b: TradeRowModel, c: TradeRowModel)
    ensures
        !listed_before(a, a),
        listed_before(a, b) && listed_before(b, c) ==> listed_before(a, c),
        a.trade_id != b.trade_id ==> listed_before(a, b) || listed_before(b, a),
{
    lemma_lex_trichotomy(a.trade_date, a.trade_date);
    lemma_lex_trichotomy(a.trade_date, b.trade_date);
    lemma_lex_trichotomy(b.trade_date, c.trade_date);
    lemma_lex_trichotomy(a.trade_date, c.trade_date);
    if lex_lt(c.trade_date, b.trade_date) && lex_lt(b.trade_date, a.trade_date) {
        lemma_lex_transitive(c.trade_date, b.trade_date, a.trade_date);
    }
}

fn listed_before_exec(date_a: &[char], id_a: i64, date_b: &[char], id_b: i64) -> (r: bool)
    ensures
        r == (lex_lt(date_b@, date_a@) || (date_a@ == date_b@ && id_a > id_b)),
{
    match compare_text(date_b, date_a) {
        TextOrder::Before => true,
        TextOrder::Same => id_a > id_b,
        TextOrder::After => {
            proof {
                lemma_lex_trichotomy(date_b@, date_a@);
            }
            false
        },
    }
}

/// Trade `c` can be picked next: it is in scope and after the last pick.
spec fn pickable(
    ts: Seq<TradeRowModel>,
    picks: Seq<int>,
    f: Option<Seq<char>>,
    s: Option<Seq<char>>,
    c: int,
) -> bool {
    &&& in_scope(ts[c].broker, ts[c].trade_date, f, s)
    &&& (picks.len() > 0 ==> listed_before(ts[picks.last()], ts[c]))
}

#[verifier::spinoff_prover]
fn next_pick(
    trades: &Vec<StoredTrade>,
    tc: &Vec<TradeChars>,
    f: &Option<Vec<char>>,
    s: &Option<Vec<char>>,
    picks: &Vec<usize>,
) -> (r: Option<usize>)
    requires
        stored_rows_well_formed(trades.deep_view(), Seq::<StatementRowModel>::empty()),
        tc@.len() == trades@.len(),
        forall|i: int| 0 <= i < tc@.len() ==> trade_chars_match(#[trigger] tc@[i], trades.deep_view()[i]),
        forall|j: int| 0 <= j < picks@.len() ==> #[trigger] picks@[j] < trades@.len(),
    ensures
        match r {
            Some(b) => b < trades@.len() && pickable(
                trades.deep_view(),
                usize_views(picks@),
                opt_vec_view(*f),
                opt_vec_view(*s),
                b as int,
            ) && forall|c: int|
                0 <= c < trades@.len() && #[trigger] pickable(
                    trades.deep_view(),
                    usize_views(picks@),
                    opt_vec_view(*f),
                    opt_vec_view(*s),
                    c,
                ) && c != b ==> listed_before(trades.deep_view()[b as int], trades.deep_view()[c]),
            None => forall|c: int|
                0 <= c < trades@.len() ==> !#[trigger] pickable(
                    trades.deep_view(),
                    usize_views(picks@),
                    opt_vec_view(*f),
                    opt_vec_view(*s),
                    c,
                ),
        },
{
    let ghost ts = trades.deep_view();
    let ghost pv = usize_views(picks@);
    let ghost fv = opt_vec_view(*f);
    let ghost sv = opt_vec_view(*s);
    let mut best: Option<usize> = None;
    let mut k: usize = 0;
    while k < trades.len()
        invariant
            ts == trades.deep_view(),
            pv == usize_views(picks@),
            fv == opt_vec_view(*f),
            sv == opt_vec_view(*s),
            stored_rows_well_formed(ts, Seq::<StatementRowModel>::empty()),
            tc@.len() == ts.len(),
            forall|i: int| 0 <= i < tc@.len() ==> trade_chars_match(#[trigger] tc@[i], ts[i]),
            forall|j: int| 0 <= j < picks@.len() ==> #[trigger] picks@[j] < trades@.len(),
            k <= ts.len(),
            match best {
                Some(b) => b < k && pickable(ts, pv, fv, sv, b as int),
                None => true,
            },
            forall|c: int|
                0 <= c < k && #[trigger] pickable(ts, pv, fv, sv, c) ==> match best {
                    Some(b) => c == b || listed_before(ts[b as int], ts[c]),
                    None => false,
                },
        decreases ts.len() - k,
    {
        let c = &tc[k];
        let after_last = if picks.len() == 0 {
            true
        } else {
            let last = picks[picks.len() - 1];
            proof {
                assert(pv.last() == last as int);
                assert(trade_chars_match(tc@[last as int], ts[last as int]));
            }
            listed_before_exec(&tc[last].trade_date, trades[last].trade_id, &c.trade_date, trades[k].trade_id)
        };
        proof {
            assert(trade_chars_match(tc@[k as int], ts[k as int]));
        }
        if row_in_scope(&c.broker, &c.trade_date, f, s) && after_last {
            assert(pickable(ts, pv, fv, sv, k as int));
            match best {
                None => {
                    best = Some(k);
                },
                Some(b) => {
                    proof {
                        assert(trade_chars_match(tc@[b as int], ts[b as int]));
                    }
                    let better = listed_before_exec(&c.trade_date, trades[k].trade_id, &tc[b].trade_date, trades[b].trade_id);
                    proof {
                        assert(ts[b as int].trade_id != ts[k as int].trade_id);
                        lemma_listed_order(ts[b as int], ts[k as int], ts[k as int]);
                        assert forall|c2: int|
                            0 <= c2 < k && #[trigger] pickable(ts, pv, fv, sv, c2) implies (if better {
                                c2 == k || listed_before(ts[k as int], ts[c2])
                            } else {
                                c2 == b || listed_before(ts[b as int], ts[c2])
                            }) by {
                            lemma_listed_order(ts[k as int], ts[b as int], ts[c2]);
                        }
                    }
                    if better {
                        best = Some(k);
                    }
                },
            }
        } else {
            assert(!pickable(ts, pv, fv, sv, k as int));
        }
        k = k + 1;
    }
    best
}

#[verifier::spinoff_prover]
fn recent_picks(
    trades: &Vec<StoredTrade>,
    tc: &Vec<TradeChars>,
    f: &Option<Vec<char>>,
    s: &Option<Vec<char>>,
    limit: usize,
) -> (r: Vec<usize>)
    requires
        stored_rows_well_formed(trades.deep_view(), Seq::<StatementRowModel>::empty()),
        tc@.len() == trades@.len(),
        forall|i: int| 0 <= i < tc@.len() ==> trade_chars_match(#[trigger] tc@[i], trades.deep_view()[i]),
    ensures
        recent_picks_are(usize_views(r@), trades.deep_view(), opt_vec_view(*f), opt_vec_view(*s), limit as int),
{
    let ghost ts = trades.deep_view();
    let ghost fv = opt_vec_view(*f);
    let ghost sv = opt_vec_view(*s);
    let mut picks: Vec<usize> = Vec::new();
    proof {
        assert(usize_views(picks@) =~= Seq::<int>::empty());
    }
    loop
        invariant
            ts == trades.deep_view(),
            fv == opt_vec_view(*f),
            sv == opt_vec_view(*s),
            stored_rows_well_formed(ts, Seq::<StatementRowModel>::empty()),
            tc@.len() == ts.len(),
            forall|i: int| 0 <= i < tc@.len() ==> trade_chars_match(#[trigger] tc@[i], ts[i]),
            picks@.len() <= limit,
            forall|j: int| 0 <= j < picks@.len() ==> #[trigger] picks@[j] < trades@.len(),
            forall|j: int|
                0 <= j < picks@.len() ==> in_scope(
                    ts[#[trigger] usize_views(picks@)[j]].broker,
                    ts[usize_views(picks@)[j]].trade_date,
                    fv,
                    sv,
                ),
            forall|j1: int, j2: int|
                0 <= j1 < j2 < picks@.len() ==> listed_before(
                    ts[#[trigger] usize_views(picks@)[j1]],
                    ts[#[trigger] usize_views(picks@)[j2]],
                ),
            forall|k: int|
                0 <= k < ts.len() && in_scope(ts[k].broker, ts[k].trade_date, fv, sv)
                    && !#[trigger] has_index(usize_views(picks@), k) ==> after_all_picks(
                    ts,
                    usize_views(picks@),
                    k,
                ),
        ensures
            recent_picks_are(usize_views(picks@), ts, fv, sv, limit as int),
        decreases limit - picks@.len(),
    {
        let ghost pv = usize_views(picks@);
        if picks.len() >= limit {
            break;
        }
        match next_pick(trades, tc, f, s, &picks) {
            None => {
                proof {
                    assert forall|k: int|
                        0 <= k < ts.len() && in_scope(ts[k].broker, ts[k].trade_date, fv, sv)
                            && !#[trigger] has_index(pv, k) implies pv.len() == limit && after_all_picks(ts, pv, k) by {
                        assert(after_all_picks(ts, pv, k));
                        if pv.len() > 0 {
                            assert(listed_before(ts[pv[pv.len() - 1]], ts[k]));
                        }
                        assert(pickable(ts, pv, fv, sv, k));
                    }
                }
                break;
            },
            Some(b) => {
                proof {
                    let bi = b as int;
                    assert(!has_index(pv, bi)) by {
                        if has_index(pv, bi) {
                            let j = choose|j: int| 0 <= j < pv.len() && #[trigger] pv[j] == bi;
                            let last = pv.len() - 1;
                            lemma_listed_order(ts[pv[j]], ts[pv[last]], ts[bi]);
                            if j < last {
                                assert(listed_before(ts[pv[j]], ts[pv[last]]));
                            }
                        }
                    }
                    assert(after_all_picks(ts, pv, bi));
                }
                picks.push(b);
                proof {
                    let npv = usize_views(picks@);
                    assert(npv =~= pv.push(b as int));
                    assert forall|k: int|
                        0 <= k < ts.len() && in_scope(ts[k].broker, ts[k].trade_date, fv, sv)
                            && !#[trigger] has_index(npv, k) implies after_all_picks(ts, npv, k) by {
                        assert(!has_index(pv, k)) by {
                            if has_index(pv, k) {
                                let j = choose|j: int| 0 <= j < pv.len() && #[trigger] pv[j] == k;
                                assert(npv[j] == k);
                            }
                        }
                        assert(npv[pv.len() as int] == b as int);
                        assert(k != b as int);
                        assert(after_all_picks(ts, pv, k));
                        if pv.len() > 0 {
                            assert(listed_before(ts[pv[pv.len() - 1]], ts[k]));
                        }
                        assert(pickable(ts, pv, fv, sv, k));
                        assert forall|j: int| 0 <= j < npv.len() implies listed_before(ts[#[trigger] npv[j]], ts[k]) by {
                            if j < pv.len() {
                                assert(npv[j] == pv[j]);
                            }
                        }
                    }
                    assert forall|j1: int, j2: int|
                        0 <= j1 < j2 < npv.len() implies listed_before(ts[#[trigger] npv[j1]], ts[#[trigger] npv[j2]]) by {
                        assert(npv[j1] == pv[j1]);
                        if j2 < pv.len() {
                            assert(npv[j2] == pv[j2]);
                        }
                    }
                }
            },
        }
    }
    picks
}

/// The sum of the statement records of this broker, date and stock.
pub open spec fn statement_sum(
    rs: Seq<StatementRowModel>,
    broker: Seq<char>,
    date: Seq<char>,
    code: Seq<char>,
) -> int
    decreases rs.len(),
{
    if rs.len() == 0 {
        0
    } else {
        let r = rs.last();
        statement_sum(rs.drop_last(), broker, date, code) + (if r.broker == broker && r.trade_date == date
            && r.stock_code == code {
            r.realized_profit_loss.micros as int
        } else {
            0
        })
    }
}

/// The confirmed profit shown beside a trade: a sale's own stored profit,
/// else, for an SBI sale, the sum of the SBI statement records of its date
/// and stock when there are any; nothing for a purchase.
pub open spec fn shown_profit(t: TradeRowModel, rs: Seq<StatementRowModel>) -> Option<int> {
    if t.side == "sell"@ {
        match t.realized_profit_loss {
            Some(p) => Some(p.micros as int),
            None => if t.broker == "sbi"@ && has_statement_for(rs, "sbi"@, t.trade_date, t.stock_code) {
                Some(statement_sum(rs, "sbi"@, t.trade_date, t.stock_code))
            } else {
                None
            },
        }
    } else {
        None
    }
}

/// The list row shows the trade: the broker's display name, the stock
/// master's name for the stock when it has one, and the shown profit.
pub open spec fn list_item_is(
    item: TradeListItem,
    t: TradeRowModel,
    rs: Seq<StatementRowModel>,
    master: Seq<(Seq<char>, Seq<char>)>,
) -> bool {
    &&& item.broker_display_name@ == display_text_for_identifier(t.broker)
    &&& item.trade_date@ == t.trade_date
    &&& item.stock_code@ == t.stock_code
    &&& item.stock_name@ == resolved_name(master, t.stock_code, t.stock_name)
    &&& item.side@ == t.side
    &&& item.quantity == t.quantity
    &&& item.price == t.price
    &&& item.settlement_amount == t.settlement_amount
    &&& item.account_type@ == t.account_type
    &&& match item.realized_profit_loss {
        Some(a) => shown_profit(t, rs) == Some(a.micros as int),
        None => shown_profit(t, rs) is None,
    }
}

proof fn lemma_statement_sum_bounded(rs: Seq<StatementRowModel>, broker: Seq<char>, date: Seq<char>, code: Seq<char>)
    requires
        forall|k: int| 0 <= k < rs.len() ==> amount_in_cell_range((#[trigger] rs[k]).realized_profit_loss),
    ensures
        -(rs.len() * MAX_CELL_MICROS) <= statement_sum(rs, broker, date, code) <= rs.len() * MAX_CELL_MICROS,
    decreases rs.len(),
{
    if rs.len() > 0 {
        let n = rs.len() as int;
        let pre = rs.drop_last();
        assert forall|k: int| 0 <= k < pre.len() implies amount_in_cell_range((#[trigger] pre[k]).realized_profit_loss) by {
            assert(pre[k] == rs[k]);
        }
        lemma_statement_sum_bounded(pre, broker, date, code);
        assert(n * MAX_CELL_MICROS == (n - 1) * MAX_CELL_MICROS + MAX_CELL_MICROS) by (nonlinear_arith);
        assert(rs.last() == rs[n - 1]);
    }
}

/// The sum of the statement records of this broker, date and stock, and
/// whether there is one.
#[verifier::spinoff_prover]
fn statement_lookup(
    statements: &Vec<StoredRealizedPnl>,
    sc: &Vec<StatementChars>,
    broker: &[char],
    date: &[char],
    code: &[char],
) -> (r: Option<i128>)
    requires
        stored_rows_well_formed(Seq::<TradeRowModel>::empty(), statements.deep_view()),
        sc@.len() == statements@.len(),
        forall|i: int|
            0 <= i < sc@.len() ==> statement_chars_match(#[trigger] sc@[i], statements.deep_view()[i]),
    ensures
        match r {
            Some(v) => has_statement_for(statements.deep_view(), broker@, date@, code@) && v == statement_sum(
                statements.deep_view(),
                broker@,
                date@,
                code@,
            ),
            None => !has_statement_for(statements.deep_view(), broker@, date@, code@),
        },
{
    let ghost rs = statements.deep_view();
    let mut found = false;
    let mut sum: i128 = 0;
    let mut i: usize = 0;
    proof {
        assert(i64::MAX * MAX_CELL_MICROS <= 9223372036854775807 * 1_000_000_000_000_000_000) by (nonlinear_arith)
            requires MAX_CELL_MICROS == 1_000_000_000_000_000_000int;
    }
    while i < statements.len()
        invariant
            rs == statements.deep_view(),
            stored_rows_well_formed(Seq::<TradeRowModel>::empty(), rs),
            sc@.len() == rs.len(),
            forall|k: int| 0 <= k < sc@.len() ==> statement_chars_match(#[trigger] sc@[k], rs[k]),
            i <= rs.len(),
            sum == statement_sum(rs.take(i as int), broker@, date@, code@),
            found == has_statement_for(rs.take(i as int), broker@, date@, code@),
        decreases rs.len() - i,
    {
        proof {
            lemma_take_drop_last(rs, i as int);
            let pre = rs.take(i + 1);
            assert forall|k: int| 0 <= k < pre.len() implies amount_in_cell_range((#[trigger] pre[k]).realized_profit_loss) by {
                assert(pre[k] == rs[k]);
            }
            lemma_statement_sum_bounded(pre, broker@, date@, code@);
            assert((i + 1) * MAX_CELL_MICROS <= 9223372036854775807 * 1_000_000_000_000_000_000) by (nonlinear_arith)
                requires
                    i + 1 <= 9223372036854775807int,
                    MAX_CELL_MICROS == 1_000_000_000_000_000_000int;
            assert(statement_chars_match(sc@[i as int], rs[i as int]));
        }
        let c = &sc[i];
        let hit = chars_equal(&c.broker, broker) && chars_equal(&c.trade_date, date) && chars_equal(&c.stock_code, code);
        proof {
            let pre = rs.take(i as int);
            let post = rs.take(i + 1);
            if hit {
                assert(post[i as int] == rs[i as int]);
            } else {
                if has_statement_for(post, broker@, date@, code@) {
                    let k = choose|k: int| 0 <= k < post.len() && (#[trigger] post[k]).broker == broker@
                        && post[k].trade_date == date@ && post[k].stock_code == code@;
                    assert(post[k] == pre[k]);
                }
            }
            if found {
                let k = choose|k: int| 0 <= k < pre.len() && (#[trigger] pre[k]).broker == broker@
                    && pre[k].trade_date == date@ && pre[k].stock_code == code@;
                assert(post[k] == pre[k]);
            }
        }
        if hit {
            sum = sum + statements[i].realized_profit_loss.micros;
            found = true;
        }
        i = i + 1;
    }
    assert(rs.take(i as int) =~= rs);
    if found {
        Some(sum)
    } else {
        None
    }
}

fn trade_list_item(
    trades: &Vec<StoredTrade>,
    tc: &Vec<TradeChars>,
    k: usize,
    statements: &Vec<StoredRealizedPnl>,
    sc: &Vec<StatementChars>,
    master: &Vec<MasterChars>,
    Ghost(mv): Ghost<Seq<(Seq<char>, Seq<char>)>>,
) -> (r: TradeListItem)
    requires
        k < trades@.len(),
        stored_rows_well_formed(Seq::<TradeRowModel>::empty(), statements.deep_view()),
        tc@.len() == trades@.len(),
        forall|i: int| 0 <= i < tc@.len() ==> trade_chars_match(#[trigger] tc@[i], trades.deep_view()[i]),
        sc@.len() == statements@.len(),
        forall|i: int|
            0 <= i < sc@.len() ==> statement_chars_match(#[trigger] sc@[i], statements.deep_view()[i]),
        mv.len() == master@.len(),
        forall|i: int|
            0 <= i < mv.len() ==> (#[trigger] mv[i]).0 == master@[i].code@ && mv[i].1
                == master@[i].name@,
    ensures
        list_item_is(r, trades.deep_view()[k as int], statements.deep_view(), mv),
{
    let ghost t = trades.deep_view()[k as int];
    let ghost rs = statements.deep_view();
    let row = &trades[k];
    let c = &tc[k];
    proof {
        assert(trade_chars_match(tc@[k as int], t));
    }
    let sell = str_chars("sell");
    let sbi = str_chars("sbi");
    proof {
        reveal_strlit("sell");
        reveal_strlit("sbi");
    }
    let shown: Option<Amount> = if chars_equal(&c.side, &sell) {
        match row.realized_profit_loss {
            Some(p) => Some(p),
            None => {
                if chars_equal(&c.broker, &sbi) {
                    match statement_lookup(statements, sc, &sbi, &c.trade_date, &c.stock_code) {
                        Some(v) => Some(Amount { micros: v }),
                        None => None,
                    }
                } else {
                    None
                }
            },
        }
    } else {
        None
    };
    let name = resolve_name(master, &c.stock_code, &str_chars(row.stock_name.as_str()), Ghost(mv));
    TradeListItem {
        broker_display_name: display_name_for_identifier(row.broker.as_str()),
        trade_date: row.trade_date.clone(),
        stock_code: row.stock_code.clone(),
        stock_name: name,
        side: row.side.clone(),
        quantity: row.quantity,
        price: row.price,
        settlement_amount: row.settlement_amount,
        account_type: row.account_type.clone(),
        realized_profit_loss: shown,
    }
}

/// The recent-trades list is the picks' rows, in order.
pub open spec fn recent_list_is(
    items: Seq<TradeListItem>,
    ts: Seq<TradeRowModel>,
    rs: Seq<StatementRowModel>,
    master: Seq<(Seq<char>, Seq<char>)>,
    f: Option<Seq<char>>,
    s: Option<Seq<char>>,
) -> bool {
    exists|picks: Seq<int>|
        #[trigger] recent_picks_are(picks, ts, f, s, RECENT_TRADE_LIMIT as int) && picks.len() == items.len()
            && forall|j: int| 0 <= j < items.len() ==> list_item_is(#[trigger] items[j], ts[picks[j]], rs, master)
}

/// The analysis is that of the stored rows: the counts and commission of
/// the trades in scope, the confirmed profits in scope (their sum, how many
/// gained, how many there are, their months and stocks), the SBI sales of
/// unknown profit, and the most recent trades.
pub open spec fn trade_analysis_is(
    r: TradeAnalysis,
    ts: Seq<TradeRowModel>,
    rs: Seq<StatementRowModel>,
    master: Seq<(Seq<char>, Seq<char>)>,
    f: Option<Seq<char>>,
    s: Option<Seq<char>>,
) -> bool {
    let cps = confirmed_profits(ts, rs, f, s);
    &&& r.buy_trade_count == side_count(ts, "buy"@, f, s)
    &&& r.sell_trade_count == side_count(ts, "sell"@, f, s)
    &&& r.total_commission.micros == commission_total(ts, f, s)
    &&& r.unknown_pnl_sell_count == unknown_sell_count(ts, rs, f, s)
    &&& r.total_realized_profit_loss.micros == profit_sum(cps)
    &&& r.winning_sell_count == gain_count(cps)
    &&& r.sell_count_with_known_pnl == cps.len()
    &&& monthly_points_are(r.monthly_points@, cps)
    &&& stock_items_are(r.stock_items@, cps, master)
    &&& recent_list_is(r.recent_trades@, ts, rs, master, f, s)
}

fn profit_totals(cs: &Vec<ConfirmedRow>) -> (r: (i128, i64))
    requires
        forall|i: int|
            0 <= i < cs@.len() ==> -MAX_CELL_MICROS <= (#[trigger] cs@[i]).profit <= MAX_CELL_MICROS,
        cs@.len() <= i64::MAX,
    ensures
        r.0 == profit_sum(confirmed_views(cs@)),
        r.1 == gain_count(confirmed_views(cs@)),
{
    let ghost all = confirmed_views(cs@);
    let mut total: i128 = 0;
    let mut wins: i64 = 0;
    let mut i: usize = 0;
    while i < cs.len()
        invariant
            all == confirmed_views(cs@),
            forall|k: int|
                0 <= k < cs@.len() ==> -MAX_CELL_MICROS <= (#[trigger] cs@[k]).profit <= MAX_CELL_MICROS,
            cs@.len() <= i64::MAX,
            i <= cs@.len(),
            total == profit_sum(all.take(i as int)),
            -(i * MAX_CELL_MICROS) <= total <= i * MAX_CELL_MICROS,
            wins == gain_count(all.take(i as int)),
            wins <= i,
        decreases cs@.len() - i,
    {
        proof {
            lemma_take_drop_last(all, i as int);
            assert((i + 1) * MAX_CELL_MICROS == i * MAX_CELL_MICROS + MAX_CELL_MICROS) by (nonlinear_arith);
            assert((i + 1) * MAX_CELL_MICROS <= 9223372036854775807 * 1_000_000_000_000_000_000) by (nonlinear_arith)
                requires
                    i + 1 <= 9223372036854775807int,
                    MAX_CELL_MICROS == 1_000_000_000_000_000_000int;
        }
        let p = cs[i].profit;
        total = total + p;
        if p > 0 {
            wins = wins + 1;
        }
        i = i + 1;
    }
    assert(all.take(i as int) =~= all);
    (total, wins)
}

/// The trade-analysis screen, computed from the stored trades, statement
/// records and stock-master names: `broker_filter` keeps one broker's rows,
/// `start_date` (`YYYY-MM-DD`) the rows on or after it.
#[verifier::spinoff_prover]
pub fn compute_trade_analysis(
    trades: &Vec<StoredTrade>,
    statements: &Vec<StoredRealizedPnl>,
    master: &Vec<StockNameEntry>,
    broker_filter: Option<&str>,
    start_date: Option<&str>,
) -> (r: TradeAnalysis)
    requires
        stored_rows_well_formed(trades.deep_view(), statements.deep_view()),
    ensures
        trade_analysis_is(
            r,
            trades.deep_view(),
            statements.deep_view(),
            master_view(master@),
            opt_view(broker_filter),
            opt_view(start_date),
        ),
{
    let ghost ts = trades.deep_view();
    let ghost rs = statements.deep_view();
    let ghost mv = master_view(master@);
    let f = opt_chars(broker_filter);
    let s = opt_chars(start_date);
    let tc = trade_chars_of(trades);
    let sc = statement_chars_of(statements);
    let mc = master_chars_of(master);
    proof {
        assert(opt_vec_view(f) == opt_view(broker_filter));
        assert(opt_vec_view(s) == opt_view(start_date));
        assert forall|i: int| 0 <= i < mv.len() implies (#[trigger] mv[i]).0 == mc@[i].code@ && mv[i].1
            == mc@[i].name@ by {
            assert(mv[i] == (master@[i].stock_code@, master@[i].stock_name@));
        }
        assert(stored_rows_well_formed(Seq::<TradeRowModel>::empty(), rs));
        assert(stored_rows_well_formed(ts, Seq::<StatementRowModel>::empty()));
    }
    let tallies = tally_trades(trades, &tc, &sc, statements, &f, &s);
    let mut confirmed = tallies.confirmed;
    confirmed_statements(statements, &sc, &f, &s, &mut confirmed);
    let ghost cps = confirmed_views(confirmed@);
    proof {
        assert(cps == confirmed_profits(ts, rs, opt_view(broker_filter), opt_view(start_date)));
    }
    let (total, wins) = profit_totals(&confirmed);
    let known = confirmed.len() as i64;
    let points = monthly_points(&confirmed);
    let items = stock_items(&confirmed, &mc, Ghost(mv));
    let picks = recent_picks(trades, &tc, &f, &s, RECENT_TRADE_LIMIT);
    let mut recent: Vec<TradeListItem> = Vec::new();
    let mut j: usize = 0;
    while j < picks.len()
        invariant
            ts == trades.deep_view(),
            rs == statements.deep_view(),
            stored_rows_well_formed(Seq::<TradeRowModel>::empty(), rs),
            tc@.len() == trades@.len(),
            forall|i: int| 0 <= i < tc@.len() ==> trade_chars_match(#[trigger] tc@[i], ts[i]),
            sc@.len() == statements@.len(),
            forall|i: int| 0 <= i < sc@.len() ==> statement_chars_match(#[trigger] sc@[i], rs[i]),
            mv.len() == mc@.len(),
            forall|i: int| 0 <= i < mv.len() ==> (#[trigger] mv[i]).0 == mc@[i].code@ && mv[i].1 == mc@[i].name@,
            recent_picks_are(usize_views(picks@), ts, opt_vec_view(f), opt_vec_view(s), RECENT_TRADE_LIMIT as int),
            j <= picks@.len(),
            recent@.len() == j,
            forall|t: int| 0 <= t < j ==> list_item_is(#[trigger] recent@[t], ts[usize_views(picks@)[t]], rs, mv),
        decreases picks@.len() - j,
    {
        let k = picks[j];
        proof {
            assert(usize_views(picks@)[j as int] == k as int);
        }
        let item = trade_list_item(trades, &tc, k, statements, &sc, &mc, Ghost(mv));
        recent.push(item);
        j = j + 1;
    }
    proof {
        let pv = usize_views(picks@);
        assert(recent_picks_are(pv, ts, opt_view(broker_filter), opt_view(start_date), RECENT_TRADE_LIMIT as int));
        assert(recent_list_is(recent@, ts, rs, mv, opt_view(broker_filter), opt_view(start_date)));
    }
    TradeAnalysis {
        total_realized_profit_loss: Amount { micros: total },
        total_commission: Amount { micros: tallies.commission },
        buy_trade_count: tallies.buy_count,
        sell_trade_count: tallies.sell_count,
        winning_sell_count: wins,
        sell_count_with_known_pnl: known,
        unknown_pnl_sell_count: tallies.unknown_count,
        monthly_points: points,
        stock_items: items,
        recent_trades: recent,
    }
}

// ---------------------------------------------------------------------------
// How the parts of the analysis agree
// ---------------------------------------------------------------------------

pub open spec fn items_profit_total(items: Seq<StockRealizedPnlItem>) -> int
    decreases items.len(),
{
    if items.len() == 0 {
        0
    } else {
        items_profit_total(items.drop_last()) + items.last().realized_profit_loss.micros
    }
}

pub open spec fn items_sale_total(items: Seq<StockRealizedPnlItem>) -> int
    decreases items.len(),
{
    if items.len() == 0 {
        0
    } else {
        items_sale_total(items.drop_last()) + items.last().sell_trade_count
    }
}

spec fn item_codes(items: Seq<StockRealizedPnlItem>) -> Seq<Seq<char>> {
    items.map_values(|it: StockRealizedPnlItem| it.stock_code@)
}

spec fn codes_profit(cs: Seq<ConfirmedPnl>, cd: Seq<Seq<char>>) -> int
    decreases cd.len(),
{
    if cd.len() == 0 {
        0
    } else {
        codes_profit(cs, cd.drop_last()) + code_sum(cs, cd.last())
    }
}

spec fn codes_count(cs: Seq<ConfirmedPnl>, cd: Seq<Seq<char>>) -> int
    decreases cd.len(),
{
    if cd.len() == 0 {
        0
    } else {
        codes_count(cs, cd.drop_last()) + code_count(cs, cd.last())
    }
}

spec fn codes_distinct(cd: Seq<Seq<char>>) -> bool {
    forall|a: int, b: int| 0 <= a < b < cd.len() ==> #[trigger] cd[a] != #[trigger] cd[b]
}

proof fn lemma_has_entry_last(cd: Seq<Seq<char>>, k: Seq<char>)
    requires
        cd.len() > 0,
    ensures
        has_entry(cd, k) == (has_entry(cd.drop_last(), k) || cd.last() == k),
{
    let pre = cd.drop_last();
    if has_entry(cd, k) {
        let a = choose|a: int| 0 <= a < cd.len() && #[trigger] cd[a] == k;
        if a < pre.len() {
            assert(pre[a] == k);
        }
    }
    if has_entry(pre, k) {
        let a = choose|a: int| 0 <= a < pre.len() && #[trigger] pre[a] == k;
        assert(cd[a] == k);
    }
    if cd.last() == k {
        assert(cd[cd.len() - 1] == k);
    }
}

proof fn lemma_codes_empty(cd: Seq<Seq<char>>)
    ensures
        codes_profit(Seq::<ConfirmedPnl>::empty(), cd) == 0,
        codes_count(Seq::<ConfirmedPnl>::empty(), cd) == 0,
    decreases cd.len(),
{
    if cd.len() > 0 {
        lemma_codes_empty(cd.drop_last());
    }
}

proof fn lemma_codes_push(cd: Seq<Seq<char>>, pre: Seq<ConfirmedPnl>, x: ConfirmedPnl)
    requires
        codes_distinct(cd),
    ensures
        codes_profit(pre.push(x), cd) == codes_profit(pre, cd) + (if has_entry(cd, x.stock_code) {
            x.profit
        } else {
            0
        }),
        codes_count(pre.push(x), cd) == codes_count(pre, cd) + (if has_entry(cd, x.stock_code) {
            1int
        } else {
            0int
        }),
    decreases cd.len(),
{
    if cd.len() == 0 {
    } else {
        let rest = cd.drop_last();
        assert forall|a: int, b: int| 0 <= a < b < rest.len() implies #[trigger] rest[a] != #[trigger] rest[b] by {
            assert(rest[a] == cd[a] && rest[b] == cd[b]);
        }
        lemma_codes_push(rest, pre, x);
        lemma_code_push(pre, x, cd.last());
        lemma_has_entry_last(cd, x.stock_code);
        if has_entry(rest, x.stock_code) && cd.last() == x.stock_code {
            let a = choose|a: int| 0 <= a < rest.len() && #[trigger] rest[a] == x.stock_code;
            assert(cd[a] != cd[cd.len() - 1]);
        }
    }
}

proof fn lemma_codes_cover(cd: Seq<Seq<char>>, cs: Seq<ConfirmedPnl>)
    requires
        codes_distinct(cd),
        forall|k: int| 0 <= k < cs.len() ==> has_entry(cd, (#[trigger] cs[k]).stock_code),
    ensures
        codes_profit(cs, cd) == profit_sum(cs),
        codes_count(cs, cd) == cs.len(),
    decreases cs.len(),
{
    if cs.len() == 0 {
        lemma_codes_empty(cd);
        assert(cs =~= Seq::<ConfirmedPnl>::empty());
    } else {
        let pre = cs.drop_last();
        let x = cs.last();
        assert forall|k: int| 0 <= k < pre.len() implies has_entry(cd, (#[trigger] pre[k]).stock_code) by {
            assert(pre[k] == cs[k]);
        }
        lemma_codes_cover(cd, pre);
        assert(pre.push(x) =~= cs);
        assert(has_entry(cd, cs[cs.len() - 1].stock_code));
        lemma_codes_push(cd, pre, x);
    }
}

proof fn lemma_items_codes(items: Seq<StockRealizedPnlItem>, cs: Seq<ConfirmedPnl>)
    requires
        forall|j: int|
            0 <= j < items.len() ==> {
                &&& (#[trigger] items[j]).realized_profit_loss.micros == code_sum(cs, items[j].stock_code@)
                &&& items[j].sell_trade_count == code_count(cs, items[j].stock_code@)
            },
    ensures
        items_profit_total(items) == codes_profit(cs, item_codes(items)),
        items_sale_total(items) == codes_count(cs, item_codes(items)),
    decreases items.len(),
{
    if items.len() > 0 {
        let pre = items.drop_last();
        assert forall|j: int| 0 <= j < pre.len() implies {
            &&& (#[trigger] pre[j]).realized_profit_loss.micros == code_sum(cs, pre[j].stock_code@)
            &&& pre[j].sell_trade_count == code_count(cs, pre[j].stock_code@)
        } by {
            assert(pre[j] == items[j]);
        }
        lemma_items_codes(pre, cs);
        assert(item_codes(items).drop_last() =~= item_codes(pre));
        assert(items.last() == items[items.len() - 1]);
    }
}

/// The ranking accounts for every confirmed profit exactly once: its profits
/// add up to the whole confirmed profit, its sale counts to the number of
/// confirmed sales.
pub proof fn lemma_ranking_adds_up(
    items: Seq<StockRealizedPnlItem>,
    cs: Seq<ConfirmedPnl>,
    master: Seq<(Seq<char>, Seq<char>)>,
)
    requires
        stock_items_are(items, cs, master),
    ensures
        items_profit_total(items) == profit_sum(cs),
        items_sale_total(items) == cs.len(),
{
    let cd = item_codes(items);
    assert forall|a: int, b: int| 0 <= a < b < cd.len() implies #[trigger] cd[a] != #[trigger] cd[b] by {
        assert(items[a].stock_code@ != items[b].stock_code@);
    }
    assert forall|k: int| 0 <= k < cs.len() implies has_entry(cd, (#[trigger] cs[k]).stock_code) by {
        assert(lists_code(items, cs[k].stock_code));
        let j = choose|j: int| 0 <= j < items.len() && (#[trigger] items[j]).stock_code@ == cs[k].stock_code;
        assert(cd[j] == cs[k].stock_code);
    }
    lemma_codes_cover(cd, cs);
    lemma_items_codes(items, cs);
}

proof fn lemma_gain_count_bound(cs: Seq<ConfirmedPnl>)
    ensures
        gain_count(cs) <= cs.len(),
    decreases cs.len(),
{
    if cs.len() > 0 {
        lemma_gain_count_bound(cs.drop_last());
    }
}

proof fn lemma_unknown_within_sales(
    ts: Seq<TradeRowModel>,
    rs: Seq<StatementRowModel>,
    f: Option<Seq<char>>,
    s: Option<Seq<char>>,
)
    ensures
        unknown_sell_count(ts, rs, f, s) <= side_count(ts, "sell"@, f, s),
    decreases ts.len(),
{
    if ts.len() > 0 {
        lemma_unknown_within_sales(ts.drop_last(), rs, f, s);
    }
}

/// The parts of an analysis agree: the ranking adds up to the total profit
/// and to the number of confirmed sales, the running total of the last month
/// is the total profit, the winning sales are among the confirmed ones, and
/// the sales of unknown profit are among the sales counted.
pub proof fn lemma_analysis_agrees(
    r: TradeAnalysis,
    ts: Seq<TradeRowModel>,
    rs: Seq<StatementRowModel>,
    master: Seq<(Seq<char>, Seq<char>)>,
    f: Option<Seq<char>>,
    s: Option<Seq<char>>,
)
    requires
        trade_analysis_is(r, ts, rs, master, f, s),
    ensures
        items_profit_total(r.stock_items@) == r.total_realized_profit_loss.micros,
        items_sale_total(r.stock_items@) == r.sell_count_with_known_pnl,
        r.monthly_points@.len() > 0 ==> r.monthly_points@.last().cumulative_total_profit_loss.micros
            == r.total_realized_profit_loss.micros,
        (r.monthly_points@.len() == 0) == (r.sell_count_with_known_pnl == 0),
        r.winning_sell_count <= r.sell_count_with_known_pnl,
        r.unknown_pnl_sell_count <= r.sell_trade_count,
{
    let cps = confirmed_profits(ts, rs, f, s);
    lemma_ranking_adds_up(r.stock_items@, cps, master);
    if r.monthly_points@.len() > 0 {
        lemma_running_total_ends_at_total(r.monthly_points@, cps);
    }
    lemma_points_iff_profits(r.monthly_points@, cps);
    lemma_gain_count_bound(cps);
    lemma_unknown_within_sales(ts, rs, f, s);
}

} // verus!
