//! The holdings screens: the latest snapshot of each broker, the asset and
//! per-stock histories, the composition, the stock list and the import
//! history, computed from the stored rows.

use vstd::prelude::*;

use crate::amount::{Amount, MAX_CELL_MICROS};
use crate::lexical::{compare_text, lemma_lex_transitive, lemma_lex_trichotomy, lex_le, lex_lt, TextOrder};
use crate::models::{
    display_name_for_identifier, display_text_for_identifier, AssetHistoryPoint, CompositionItem,
    HoldingRecord, StockHistoryPoint,
};
use crate::storage::StockMasterEntry;
use crate::text::{chars_equal, opt_chars, opt_view, str_chars, string_from_chars};

verus! {

/// One stored holding, as read back from the database.
#[derive(Debug)]
pub struct StoredHolding {
    pub batch_id: i64,
    pub snapshot_date: String,
    pub broker: String,
    pub account_type: String,
    pub stock_code: String,
    pub stock_name: String,
    pub quantity: Amount,
    pub average_acquisition_price: Option<Amount>,
    pub current_price: Option<Amount>,
    pub market_value: Option<Amount>,
    pub profit_loss: Option<Amount>,
    pub profit_loss_rate: Option<Amount>,
}

pub struct HoldingRowModel {
    pub batch_id: i64,
    pub snapshot_date: Seq<char>,
    pub broker: Seq<char>,
    pub account_type: Seq<char>,
    pub stock_code: Seq<char>,
    pub stock_name: Seq<char>,
    pub quantity: Amount,
    pub average_acquisition_price: Option<Amount>,
    pub current_price: Option<Amount>,
    pub market_value: Option<Amount>,
    pub profit_loss: Option<Amount>,
    pub profit_loss_rate: Option<Amount>,
}

impl DeepView for StoredHolding {
    type V = HoldingRowModel;

    open spec fn deep_view(&self) -> HoldingRowModel {
        HoldingRowModel {
            batch_id: self.batch_id,
            snapshot_date: self.snapshot_date@,
            broker: self.broker@,
            account_type: self.account_type@,
            stock_code: self.stock_code@,
            stock_name: self.stock_name@,
            quantity: self.quantity,
            average_acquisition_price: self.average_acquisition_price,
            current_price: self.current_price,
            market_value: self.market_value,
            profit_loss: self.profit_loss,
            profit_loss_rate: self.profit_loss_rate,
        }
    }
}

/// One stored import batch.
#[derive(Debug)]
pub struct StoredBatch {
    pub batch_id: i64,
    pub broker: String,
    pub snapshot_date: String,
    pub source_file_name: Option<String>,
    pub imported_at: String,
}

pub struct BatchModel {
    pub batch_id: i64,
    pub broker: Seq<char>,
    pub snapshot_date: Seq<char>,
    pub source_file_name: Option<Seq<char>>,
    pub imported_at: Seq<char>,
}

impl DeepView for StoredBatch {
    type V = BatchModel;

    open spec fn deep_view(&self) -> BatchModel {
        BatchModel {
            batch_id: self.batch_id,
            broker: self.broker@,
            snapshot_date: self.snapshot_date@,
            source_file_name: self.source_file_name.deep_view(),
            imported_at: self.imported_at@,
        }
    }
}

/// The stock master as (code, name, sector) texts.
pub open spec fn master_rows(master: Seq<StockMasterEntry>) -> Seq<(Seq<char>, Seq<char>, Option<Seq<char>>)> {
    master.map_values(
        |e: StockMasterEntry| (e.stock_code@, e.stock_name@, e.sector_33.deep_view()),
    )
}

/// The sector the stock master gives `code` (its last entry for the code),
/// `None` when the code is not in the master or has no sector.
pub open spec fn master_sector(master: Seq<(Seq<char>, Seq<char>, Option<Seq<char>>)>, code: Seq<char>) -> Option<
    Seq<char>,
>
    decreases master.len(),
{
    if master.len() == 0 {
        None
    } else if master.last().0 == code {
        master.last().2
    } else {
        master_sector(master.drop_last(), code)
    }
}

/// The latest snapshot date among a broker's batches, by text order.
pub open spec fn latest_date(bs: Seq<BatchModel>, broker: Seq<char>) -> Option<Seq<char>>
    decreases bs.len(),
{
    if bs.len() == 0 {
        None
    } else {
        let rest = latest_date(bs.drop_last(), broker);
        let b = bs.last();
        if b.broker == broker {
            match rest {
                Some(d) => if lex_lt(d, b.snapshot_date) {
                    Some(b.snapshot_date)
                } else {
                    Some(d)
                },
                None => Some(b.snapshot_date),
            }
        } else {
            rest
        }
    }
}

/// A holding of its broker's latest snapshot.
pub open spec fn is_latest_holding(h: HoldingRowModel, bs: Seq<BatchModel>) -> bool {
    latest_date(bs, h.broker) == Some(h.snapshot_date)
}

pub open spec fn broker_matches(broker: Seq<char>, broker_filter: Option<Seq<char>>) -> bool {
    match broker_filter {
        Some(f) => broker == f,
        None => true,
    }
}

// ---------------------------------------------------------------------------
// Character views of the stored rows
// ---------------------------------------------------------------------------

struct HoldingChars {
    snapshot_date: Vec<char>,
    broker: Vec<char>,
    account_type: Vec<char>,
    stock_code: Vec<char>,
    stock_name: Vec<char>,
}

spec fn holding_chars_match(c: HoldingChars, h: HoldingRowModel) -> bool {
    &&& c.snapshot_date@ == h.snapshot_date
    &&& c.broker@ == h.broker
    &&& c.account_type@ == h.account_type
    &&& c.stock_code@ == h.stock_code
    &&& c.stock_name@ == h.stock_name
}

spec fn holdings_chars_match(hc: Seq<HoldingChars>, hs: Seq<HoldingRowModel>) -> bool {
    &&& hc.len() == hs.len()
    &&& forall|i: int| 0 <= i < hc.len() ==> holding_chars_match(#[trigger] hc[i], hs[i])
}

fn holding_chars_of(holdings: &Vec<StoredHolding>) -> (r: Vec<HoldingChars>)
    ensures
        holdings_chars_match(r@, holdings.deep_view()),
{
    let mut r: Vec<HoldingChars> = Vec::new();
    let mut i: usize = 0;
    while i < holdings.len()
        invariant
            i <= holdings@.len(),
            r@.len() == i,
            forall|k: int| 0 <= k < i ==> holding_chars_match(#[trigger] r@[k], holdings.deep_view()[k]),
        decreases holdings@.len() - i,
    {
        let h = &holdings[i];
        r.push(
            HoldingChars {
                snapshot_date: str_chars(h.snapshot_date.as_str()),
                broker: str_chars(h.broker.as_str()),
                account_type: str_chars(h.account_type.as_str()),
                stock_code: str_chars(h.stock_code.as_str()),
                stock_name: str_chars(h.stock_name.as_str()),
            },
        );
        i = i + 1;
    }
    r
}

struct BatchChars {
    broker: Vec<char>,
    snapshot_date: Vec<char>,
}

spec fn batches_chars_match(bc: Seq<BatchChars>, bs: Seq<BatchModel>) -> bool {
    &&& bc.len() == bs.len()
    &&& forall|i: int|
        0 <= i < bc.len() ==> (#[trigger] bc[i]).broker@ == bs[i].broker && bc[i].snapshot_date@
            == bs[i].snapshot_date
}

fn batch_chars_of(batches: &Vec<StoredBatch>) -> (r: Vec<BatchChars>)
    ensures
        batches_chars_match(r@, batches.deep_view()),
{
    let mut r: Vec<BatchChars> = Vec::new();
    let mut i: usize = 0;
    while i < batches.len()
        invariant
            i <= batches@.len(),
            r@.len() == i,
            forall|k: int|
                0 <= k < i ==> (#[trigger] r@[k]).broker@ == batches.deep_view()[k].broker
                    && r@[k].snapshot_date@ == batches.deep_view()[k].snapshot_date,
        decreases batches@.len() - i,
    {
        r.push(
            BatchChars {
                broker: str_chars(batches[i].broker.as_str()),
                snapshot_date: str_chars(batches[i].snapshot_date.as_str()),
            },
        );
        i = i + 1;
    }
    r
}

struct MasterChars {
    code: Vec<char>,
}

spec fn master_chars_match(mc: Seq<MasterChars>, mv: Seq<(Seq<char>, Seq<char>, Option<Seq<char>>)>) -> bool {
    &&& mc.len() == mv.len()
    &&& forall|i: int| 0 <= i < mc.len() ==> (#[trigger] mc[i]).code@ == mv[i].0
}

fn master_chars_of(master: &Vec<StockMasterEntry>) -> (r: Vec<MasterChars>)
    ensures
        master_chars_match(r@, master_rows(master@)),
{
    let mut r: Vec<MasterChars> = Vec::new();
    let mut i: usize = 0;
    while i < master.len()
        invariant
            i <= master@.len(),
            r@.len() == i,
            forall|k: int| 0 <= k < i ==> (#[trigger] r@[k]).code@ == master@[k].stock_code@,
        decreases master@.len() - i,
    {
        r.push(MasterChars { code: str_chars(master[i].stock_code.as_str()) });
        i = i + 1;
    }
    r
}

proof fn lemma_take_drop_last<T>(s: Seq<T>, i: int)
    requires
        0 <= i < s.len(),
    ensures
        s.take(i + 1).drop_last() == s.take(i),
        s.take(i + 1).last() == s[i],
{
    assert(s.take(i + 1).drop_last() =~= s.take(i));
}

fn clone_opt(s: &Option<String>) -> (r: Option<String>)
    ensures
        r.deep_view() == s.deep_view(),
{
    match s {
        Some(x) => Some(x.clone()),
        None => None,
    }
}

/// The sector of `code` in the stock master.
fn sector_of(
    master: &Vec<StockMasterEntry>,
    mc: &Vec<MasterChars>,
    code: &[char],
) -> (r: Option<String>)
    requires
        master_chars_match(mc@, master_rows(master@)),
    ensures
        r.deep_view() == master_sector(master_rows(master@), code@),
{
    let ghost mv = master_rows(master@);
    let mut found: Option<usize> = None;
    let mut i: usize = 0;
    while i < master.len()
        invariant
            mv == master_rows(master@),
            master_chars_match(mc@, mv),
            i <= master@.len(),
            match found {
                Some(j) => j < i && mv[j as int].0 == code@ && master_sector(mv.take(i as int), code@)
                    == mv[j as int].2,
                None => master_sector(mv.take(i as int), code@) is None,
            },
        decreases master@.len() - i,
    {
        proof {
            lemma_take_drop_last(mv, i as int);
        }
        if chars_equal(&mc[i].code, code) {
            found = Some(i);
        }
        i = i + 1;
    }
    assert(mv.take(i as int) =~= mv);
    match found {
        Some(j) => clone_opt(&master[j].sector_33),
        None => None,
    }
}

/// The latest snapshot date of `broker` among the batches.
fn latest_date_of(bc: &Vec<BatchChars>, broker: &[char], Ghost(bs): Ghost<Seq<BatchModel>>) -> (r: Option<Vec<char>>)
    requires
        batches_chars_match(bc@, bs),
    ensures
        match r {
            Some(d) => latest_date(bs, broker@) == Some(d@),
            None => latest_date(bs, broker@) is None,
        },
{
    let mut best: Option<Vec<char>> = None;
    let mut i: usize = 0;
    while i < bc.len()
        invariant
            batches_chars_match(bc@, bs),
            i <= bs.len(),
            match best {
                Some(d) => latest_date(bs.take(i as int), broker@) == Some(d@),
                None => latest_date(bs.take(i as int), broker@) is None,
            },
        decreases bs.len() - i,
    {
        proof {
            lemma_take_drop_last(bs, i as int);
        }
        let b = &bc[i];
        if chars_equal(&b.broker, broker) {
            let replace = match &best {
                Some(d) => compare_text(d, &b.snapshot_date) == TextOrder::Before,
                None => true,
            };
            if replace {
                best = Some(crate::text::copy_range(&b.snapshot_date, 0, b.snapshot_date.len()));
                assert(best->0@ =~= b.snapshot_date@);
            }
        }
        i = i + 1;
    }
    assert(bs.take(i as int) =~= bs);
    best
}

// ---------------------------------------------------------------------------
// Sorting by a total preorder
// ---------------------------------------------------------------------------

/// `le` is a total preorder on `0..n`.
pub open spec fn total_preorder(le: spec_fn(int, int) -> bool, n: int) -> bool {
    &&& forall|a: int, b: int| 0 <= a < n && 0 <= b < n ==> #[trigger] le(a, b) || le(b, a)
    &&& forall|a: int, b: int, c: int|
        0 <= a < n && 0 <= b < n && 0 <= c < n && #[trigger] le(a, b) && #[trigger] le(b, c) ==> le(a, c)
}

/// Some position of `picks` holds `a`.
pub open spec fn has_pick(picks: Seq<int>, a: int) -> bool {
    exists|j: int| 0 <= j < picks.len() && #[trigger] picks[j] == a
}

/// `picks` lists each index of `0..n` that `selected` holds, once, and no
/// other, in an order that `le` keeps.
pub open spec fn sorted_picks(
    picks: Seq<int>,
    selected: spec_fn(int) -> bool,
    le: spec_fn(int, int) -> bool,
    n: int,
) -> bool {
    &&& forall|j: int| 0 <= j < picks.len() ==> 0 <= #[trigger] picks[j] < n && selected(picks[j])
    &&& forall|j1: int, j2: int| 0 <= j1 < j2 < picks.len() ==> #[trigger] picks[j1] != #[trigger] picks[j2]
    &&& forall|a: int| 0 <= a < n && selected(a) ==> #[trigger] has_pick(picks, a)
    &&& forall|j1: int, j2: int| 0 <= j1 < j2 < picks.len() ==> le(#[trigger] picks[j1], #[trigger] picks[j2])
}

/// Inserting a new index right before the first pick that comes strictly
/// after it keeps the picks sorted.
proof fn lemma_insert_pick(
    picks: Seq<int>,
    selected: spec_fn(int) -> bool,
    le: spec_fn(int, int) -> bool,
    n: int,
    e: int,
    p: int,
)
    requires
        total_preorder(le, n),
        sorted_picks(picks, |a: int| selected(a) && a < e, le, n),
        0 <= e < n,
        selected(e),
        0 <= p <= picks.len(),
        forall|j: int| 0 <= j < p ==> le(#[trigger] picks[j], e),
        p < picks.len() ==> !le(picks[p], e),
    ensures
        sorted_picks(picks.insert(p, e), |a: int| selected(a) && a < e + 1, le, n),
{
    let np = picks.insert(p, e);
    picks.insert_ensures(p, e);
    let before = |a: int| selected(a) && a < e;
    assert forall|j: int| 0 <= j < np.len() implies 0 <= #[trigger] np[j] < n && selected(np[j]) && np[j] < e + 1 by {
        if j < p {
            assert(np[j] == picks[j]);
            assert(before(picks[j]));
        } else if j > p {
            assert(np[j] == picks[j - 1]);
            assert(before(picks[j - 1]));
        }
    }
    assert forall|j1: int, j2: int| 0 <= j1 < j2 < np.len() implies #[trigger] np[j1] != #[trigger] np[j2] by {
        if j1 == p {
            assert(np[j2] == picks[j2 - 1]);
            assert(before(picks[j2 - 1]));
        } else if j2 == p {
            assert(np[j1] == picks[j1]);
            assert(before(picks[j1]));
        } else {
            let a1 = if j1 < p { j1 } else { j1 - 1 };
            let a2 = if j2 < p { j2 } else { j2 - 1 };
            assert(np[j1] == picks[a1]);
            assert(np[j2] == picks[a2]);
        }
    }
    assert forall|a: int| 0 <= a < n && selected(a) && a < e + 1 implies #[trigger] has_pick(np, a) by {
        if a == e {
            assert(np[p] == e);
        } else {
            assert(before(a));
            assert(has_pick(picks, a));
            let j = choose|j: int| 0 <= j < picks.len() && #[trigger] picks[j] == a;
            if j < p {
                assert(np[j] == a);
            } else {
                assert(np[j + 1] == a);
            }
        }
    }
    assert forall|j1: int, j2: int| 0 <= j1 < j2 < np.len() implies le(#[trigger] np[j1], #[trigger] np[j2]) by {
        if j2 < p {
            assert(np[j1] == picks[j1] && np[j2] == picks[j2]);
        } else if j2 == p {
            assert(np[j1] == picks[j1]);
        } else {
            let q2 = picks[j2 - 1];
            assert(np[j2] == q2);
            assert(before(q2));
            // e comes before picks[p], which comes before q2
            assert(before(picks[p]));
            assert(le(e, picks[p])) by {
                assert(le(picks[p], e) || le(e, picks[p]));
            }
            if j2 - 1 > p {
                assert(le(picks[p], q2));
            }
            assert(le(e, q2));
            if j1 == p {
            } else if j1 < p {
                assert(np[j1] == picks[j1]);
                assert(before(picks[j1]));
                assert(le(picks[j1], e));
            } else {
                assert(np[j1] == picks[j1 - 1]);
            }
        }
    }
}


// ---------------------------------------------------------------------------
// The holdings list
// ---------------------------------------------------------------------------

/// Text order on two keys: by the first, then by the second.
pub open spec fn pair_le(a1: Seq<char>, a2: Seq<char>, b1: Seq<char>, b2: Seq<char>) -> bool {
    lex_lt(a1, b1) || (a1 == b1 && lex_le(a2, b2))
}

/// The holdings list's order: by stock code, then broker, then account type.
pub open spec fn holding_key_le(a: HoldingRowModel, b: HoldingRowModel) -> bool {
    lex_lt(a.stock_code, b.stock_code) || (a.stock_code == b.stock_code && pair_le(
        a.broker,
        a.account_type,
        b.broker,
        b.account_type,
    ))
}

proof fn lemma_lex_le_order(a: Seq<char>, b: Seq<char>, c: Seq<char>)
    ensures
        lex_le(a, b) || lex_le(b, a),
        lex_le(a, b) && lex_le(b, c) ==> lex_le(a, c),
        lex_le(a, b) && lex_le(b, a) ==> a == b,
        lex_lt(a, b) ==> !lex_le(b, a),
{
    lemma_lex_trichotomy(a, b);
    lemma_lex_trichotomy(b, c);
    lemma_lex_trichotomy(a, c);
    if lex_lt(a, b) && lex_lt(b, c) {
        lemma_lex_transitive(a, b, c);
    }
}

proof fn lemma_pair_order(a1: Seq<char>, a2: Seq<char>, b1: Seq<char>, b2: Seq<char>, c1: Seq<char>, c2: Seq<char>)
    ensures
        pair_le(a1, a2, b1, b2) || pair_le(b1, b2, a1, a2),
        pair_le(a1, a2, b1, b2) && pair_le(b1, b2, c1, c2) ==> pair_le(a1, a2, c1, c2),
{
    lemma_lex_le_order(a1, b1, c1);
    lemma_lex_le_order(a2, b2, c2);
    lemma_lex_trichotomy(a1, b1);
    lemma_lex_trichotomy(b1, c1);
    if lex_lt(a1, b1) && lex_lt(b1, c1) {
        lemma_lex_transitive(a1, b1, c1);
    }
}

proof fn lemma_holding_key_order(x: HoldingRowModel, y: HoldingRowModel, z: HoldingRowModel)
    ensures
        holding_key_le(x, y) || holding_key_le(y, x),
        holding_key_le(x, y) && holding_key_le(y, z) ==> holding_key_le(x, z),
{
    lemma_pair_order(x.broker, x.account_type, y.broker, y.account_type, z.broker, z.account_type);
    lemma_lex_trichotomy(x.stock_code, y.stock_code);
    lemma_lex_trichotomy(y.stock_code, z.stock_code);
    if lex_lt(x.stock_code, y.stock_code) && lex_lt(y.stock_code, z.stock_code) {
        lemma_lex_transitive(x.stock_code, y.stock_code, z.stock_code);
    }
}

pub open spec fn holding_le_at(hs: Seq<HoldingRowModel>) -> spec_fn(int, int) -> bool {
    |a: int, b: int| holding_key_le(hs[a], hs[b])
}

pub open spec fn latest_at(hs: Seq<HoldingRowModel>, bs: Seq<BatchModel>) -> spec_fn(int) -> bool {
    |a: int| is_latest_holding(hs[a], bs)
}

proof fn lemma_holding_le_total(hs: Seq<HoldingRowModel>)
    ensures
        total_preorder(holding_le_at(hs), hs.len() as int),
{
    let le = holding_le_at(hs);
    assert forall|a: int, b: int| 0 <= a < hs.len() && 0 <= b < hs.len() implies #[trigger] le(a, b) || le(b, a) by {
        lemma_holding_key_order(hs[a], hs[b], hs[b]);
    }
    assert forall|a: int, b: int, c: int|
        0 <= a < hs.len() && 0 <= b < hs.len() && 0 <= c < hs.len() && #[trigger] le(a, b) && #[trigger] le(b, c) implies le(a, c) by {
        lemma_holding_key_order(hs[a], hs[b], hs[c]);
    }
}

/// The list row of a holding: its fields, the broker's display name and the
/// stock master's sector.
pub open spec fn holding_record_is(
    r: HoldingRecord,
    h: HoldingRowModel,
    master: Seq<(Seq<char>, Seq<char>, Option<Seq<char>>)>,
) -> bool {
    &&& r.broker@ == h.broker
    &&& r.broker_display_name@ == display_text_for_identifier(h.broker)
    &&& r.snapshot_date@ == h.snapshot_date
    &&& r.account_type@ == h.account_type
    &&& r.stock_code@ == h.stock_code
    &&& r.stock_name@ == h.stock_name
    &&& r.quantity == h.quantity
    &&& r.average_acquisition_price == h.average_acquisition_price
    &&& r.current_price == h.current_price
    &&& r.market_value == h.market_value
    &&& r.profit_loss == h.profit_loss
    &&& r.profit_loss_rate == h.profit_loss_rate
    &&& r.sector_33.deep_view() == master_sector(master, h.stock_code)
}

/// The holdings list is the holdings of each broker's latest snapshot,
/// each once, ordered by stock code, broker and account type.
pub open spec fn latest_holdings_are(
    items: Seq<HoldingRecord>,
    hs: Seq<HoldingRowModel>,
    bs: Seq<BatchModel>,
    master: Seq<(Seq<char>, Seq<char>, Option<Seq<char>>)>,
) -> bool {
    exists|picks: Seq<int>|
        #[trigger] sorted_picks(picks, latest_at(hs, bs), holding_le_at(hs), hs.len() as int)
            && picks.len() == items.len() && forall|j: int|
            0 <= j < items.len() ==> holding_record_is(#[trigger] items[j], hs[picks[j]], master)
}

spec fn usize_views(v: Seq<usize>) -> Seq<int> {
    v.map_values(|x: usize| x as int)
}

fn holding_key_le_exec(a: &HoldingChars, b: &HoldingChars) -> (r: bool)
    ensures
        r == (lex_lt(a.stock_code@, b.stock_code@) || (a.stock_code@ == b.stock_code@ && pair_le(
            a.broker@,
            a.account_type@,
            b.broker@,
            b.account_type@,
        ))),
{
    match compare_text(&a.stock_code, &b.stock_code) {
        TextOrder::Before => true,
        TextOrder::After => {
            proof {
                lemma_lex_trichotomy(b.stock_code@, a.stock_code@);
            }
            false
        },
        TextOrder::Same => match compare_text(&a.broker, &b.broker) {
            TextOrder::Before => true,
            TextOrder::After => {
                proof {
                    lemma_lex_trichotomy(b.broker@, a.broker@);
                }
                false
            },
            TextOrder::Same => match compare_text(&a.account_type, &b.account_type) {
                TextOrder::After => {
                    proof {
                        lemma_lex_trichotomy(b.account_type@, a.account_type@);
                    }
                    false
                },
                _ => true,
            },
        },
    }
}

proof fn lemma_skip_pick(picks: Seq<int>, selected: spec_fn(int) -> bool, le: spec_fn(int, int) -> bool, n: int, e: int)
    requires
        sorted_picks(picks, |a: int| selected(a) && a < e, le, n),
        !selected(e),
    ensures
        sorted_picks(picks, |a: int| selected(a) && a < e + 1, le, n),
{
    let before = |a: int| selected(a) && a < e;
    assert forall|j: int| 0 <= j < picks.len() implies 0 <= #[trigger] picks[j] < n && selected(picks[j]) && picks[j] < e + 1 by {
        assert(before(picks[j]));
    }
    assert forall|a: int| 0 <= a < n && selected(a) && a < e + 1 implies #[trigger] has_pick(picks, a) by {
        assert(before(a));
    }
}

proof fn lemma_all_picked(picks: Seq<int>, selected: spec_fn(int) -> bool, le: spec_fn(int, int) -> bool, n: int)
    requires
        sorted_picks(picks, |a: int| selected(a) && a < n, le, n),
    ensures
        sorted_picks(picks, selected, le, n),
{
    let upto = |a: int| selected(a) && a < n;
    assert forall|j: int| 0 <= j < picks.len() implies 0 <= #[trigger] picks[j] < n && selected(picks[j]) by {
        assert(upto(picks[j]));
    }
    assert forall|a: int| 0 <= a < n && selected(a) implies #[trigger] has_pick(picks, a) by {
        assert(upto(a));
    }
}

/// The flags telling which holdings belong to their broker's latest snapshot.
fn latest_flags(hc: &Vec<HoldingChars>, bc: &Vec<BatchChars>, Ghost(hs): Ghost<Seq<HoldingRowModel>>, Ghost(bs): Ghost<Seq<BatchModel>>) -> (r: Vec<bool>)
    requires
        holdings_chars_match(hc@, hs),
        batches_chars_match(bc@, bs),
    ensures
        r@.len() == hs.len(),
        forall|i: int| 0 <= i < hs.len() ==> #[trigger] r@[i] == is_latest_holding(hs[i], bs),
{
    let mut r: Vec<bool> = Vec::new();
    let mut i: usize = 0;
    while i < hc.len()
        invariant
            holdings_chars_match(hc@, hs),
            batches_chars_match(bc@, bs),
            i <= hs.len(),
            r@.len() == i,
            forall|k: int| 0 <= k < i ==> #[trigger] r@[k] == is_latest_holding(hs[k], bs),
        decreases hs.len() - i,
    {
        let c = &hc[i];
        proof {
            assert(holding_chars_match(hc@[i as int], hs[i as int]));
        }
        let latest = latest_date_of(bc, &c.broker, Ghost(bs));
        let flag = match latest {
            Some(d) => chars_equal(&d, &c.snapshot_date),
            None => false,
        };
        r.push(flag);
        i = i + 1;
    }
    r
}

/// The holdings of each broker's latest snapshot, ordered by stock code,
/// broker and account type, with the stock master's sector.
#[verifier::spinoff_prover]
pub fn latest_holdings(
    holdings: &Vec<StoredHolding>,
    batches: &Vec<StoredBatch>,
    master: &Vec<StockMasterEntry>,
) -> (r: Vec<HoldingRecord>)
    ensures
        latest_holdings_are(r@, holdings.deep_view(), batches.deep_view(), master_rows(master@)),
{
    let ghost hs = holdings.deep_view();
    let ghost bs = batches.deep_view();
    let ghost mv = master_rows(master@);
    let ghost n = hs.len() as int;
    let ghost sel = latest_at(hs, bs);
    let ghost le = holding_le_at(hs);
    let hc = holding_chars_of(holdings);
    let bc = batch_chars_of(batches);
    let mc = master_chars_of(master);
    let flags = latest_flags(&hc, &bc, Ghost(hs), Ghost(bs));
    proof {
        lemma_holding_le_total(hs);
    }
    let mut order: Vec<usize> = Vec::new();
    assert(usize_views(order@) =~= Seq::<int>::empty());
    let mut e: usize = 0;
    while e < holdings.len()
        invariant
            hs == holdings.deep_view(),
            n == hs.len(),
            holdings_chars_match(hc@, hs),
            flags@.len() == n,
            forall|i: int| 0 <= i < n ==> #[trigger] flags@[i] == sel(i),
            sel == latest_at(hs, bs),
            le == holding_le_at(hs),
            total_preorder(le, n),
            e <= n,
            sorted_picks(usize_views(order@), |a: int| sel(a) && a < e, le, n),
        decreases n - e,
    {
        let ghost ov = usize_views(order@);
        if flags[e] {
            proof {
                assert forall|j: int| 0 <= j < order@.len() implies (#[trigger] order@[j] as int) < n by {
                    assert(ov[j] == order@[j] as int);
                }
            }
            let mut p: usize = 0;
            while p < order.len() && holding_key_le_exec(&hc[order[p]], &hc[e])
                invariant
                    forall|j: int| 0 <= j < order@.len() ==> (#[trigger] order@[j] as int) < n,
                    ov == usize_views(order@),
                    hs == holdings.deep_view(),
                    n == hs.len(),
                    holdings_chars_match(hc@, hs),
                    le == holding_le_at(hs),
                    e < n,
                    sorted_picks(ov, |a: int| sel(a) && a < e, le, n),
                    p <= order@.len(),
                    forall|j: int| 0 <= j < p ==> le(#[trigger] ov[j], e as int),
                decreases order@.len() - p,
            {
                proof {
                    let a = ov[p as int];
                    assert(order@[p as int] as int == a);
                    assert(holding_chars_match(hc@[a], hs[a]));
                    assert(holding_chars_match(hc@[e as int], hs[e as int]));
                }
                p = p + 1;
            }
            proof {
                if p < order@.len() {
                    let a = ov[p as int];
                    assert(order@[p as int] as int == a);
                    assert(holding_chars_match(hc@[a], hs[a]));
                    assert(holding_chars_match(hc@[e as int], hs[e as int]));
                }
                lemma_insert_pick(ov, sel, le, n, e as int, p as int);
            }
            order.insert(p, e);
            assert(usize_views(order@) =~= ov.insert(p as int, e as int));
        } else {
            proof {
                lemma_skip_pick(ov, sel, le, n, e as int);
            }
        }
        e = e + 1;
    }
    let ghost picks = usize_views(order@);
    let mut items: Vec<HoldingRecord> = Vec::new();
    let mut j: usize = 0;
    while j < order.len()
        invariant
            hs == holdings.deep_view(),
            n == hs.len(),
            mv == master_rows(master@),
            master_chars_match(mc@, mv),
            holdings_chars_match(hc@, hs),
            picks == usize_views(order@),
            sorted_picks(picks, |a: int| sel(a) && a < n, le, n),
            j <= order@.len(),
            items@.len() == j,
            forall|t: int| 0 <= t < j ==> holding_record_is(#[trigger] items@[t], hs[picks[t]], mv),
        decreases order@.len() - j,
    {
        let k = order[j];
        proof {
            assert(picks[j as int] == k as int);
            assert(0 <= picks[j as int] < n);
            assert(holding_chars_match(hc@[k as int], hs[k as int]));
        }
        let h = &holdings[k];
        let sector = sector_of(master, &mc, &hc[k].stock_code);
        items.push(
            HoldingRecord {
                broker: h.broker.clone(),
                broker_display_name: display_name_for_identifier(h.broker.as_str()),
                snapshot_date: h.snapshot_date.clone(),
                account_type: h.account_type.clone(),
                stock_code: h.stock_code.clone(),
                stock_name: h.stock_name.clone(),
                quantity: h.quantity,
                average_acquisition_price: h.average_acquisition_price,
                current_price: h.current_price,
                market_value: h.market_value,
                profit_loss: h.profit_loss,
                profit_loss_rate: h.profit_loss_rate,
                sector_33: sector,
            },
        );
        j = j + 1;
    }
    proof {
        lemma_all_picked(picks, sel, le, n);
        assert(latest_holdings_are(items@, hs, bs, mv));
    }
    items
}


// ---------------------------------------------------------------------------
// Grouping holdings
// ---------------------------------------------------------------------------

/// The amounts of a holding that a cell can hold.
pub open spec fn holding_amounts_in_range(h: HoldingRowModel) -> bool {
    &&& -MAX_CELL_MICROS <= h.quantity.micros <= MAX_CELL_MICROS
    &&& (h.current_price matches Some(a) ==> -MAX_CELL_MICROS <= a.micros <= MAX_CELL_MICROS)
    &&& (h.market_value matches Some(a) ==> -MAX_CELL_MICROS <= a.micros <= MAX_CELL_MICROS)
    &&& (h.profit_loss matches Some(a) ==> -MAX_CELL_MICROS <= a.micros <= MAX_CELL_MICROS)
}

pub open spec fn holdings_in_range(hs: Seq<HoldingRowModel>) -> bool {
    forall|i: int| 0 <= i < hs.len() ==> holding_amounts_in_range(#[trigger] hs[i])
}

/// What the rows of a group come to: the sum of the quantities, the highest
/// current price, the sums of the market values and of the profits (absent
/// when no row has one), and the greatest stock name.
pub struct GroupTotals {
    pub quantity: int,
    pub price: Option<int>,
    pub market: Option<int>,
    pub profit: Option<int>,
    pub name: Seq<char>,
}

/// A sum that skips absent values, absent while nothing was added.
pub open spec fn opt_add(t: Option<int>, a: Option<Amount>) -> Option<int> {
    match a {
        Some(x) => match t {
            Some(s) => Some(s + x.micros),
            None => Some(x.micros as int),
        },
        None => t,
    }
}

/// A maximum that skips absent values.
pub open spec fn opt_max(t: Option<int>, a: Option<Amount>) -> Option<int> {
    match a {
        Some(x) => match t {
            Some(m) => if m < x.micros {
                Some(x.micros as int)
            } else {
                Some(m)
            },
            None => Some(x.micros as int),
        },
        None => t,
    }
}

pub open spec fn first_totals(h: HoldingRowModel) -> GroupTotals {
    GroupTotals {
        quantity: h.quantity.micros as int,
        price: opt_max(None, h.current_price),
        market: opt_add(None, h.market_value),
        profit: opt_add(None, h.profit_loss),
        name: h.stock_name,
    }
}

pub open spec fn add_row(g: GroupTotals, h: HoldingRowModel) -> GroupTotals {
    GroupTotals {
        quantity: g.quantity + h.quantity.micros,
        price: opt_max(g.price, h.current_price),
        market: opt_add(g.market, h.market_value),
        profit: opt_add(g.profit, h.profit_loss),
        name: if lex_lt(g.name, h.stock_name) {
            h.stock_name
        } else {
            g.name
        },
    }
}

/// How holdings are grouped: by snapshot date or by stock code.
#[derive(Clone, Copy, Debug, PartialEq, Eq, Structural)]
pub enum GroupBy {
    Date,
    Code,
}

pub open spec fn group_key(h: HoldingRowModel, by: GroupBy) -> Seq<char> {
    match by {
        GroupBy::Date => h.snapshot_date,
        GroupBy::Code => h.stock_code,
    }
}

/// The totals of the selected rows among the first `n` whose key is `k`;
/// `None` when there are none.
pub open spec fn group_totals(
    hs: Seq<HoldingRowModel>,
    sel: Seq<bool>,
    by: GroupBy,
    k: Seq<char>,
    n: int,
) -> Option<GroupTotals>
    decreases n,
{
    if n <= 0 {
        None
    } else {
        let rest = group_totals(hs, sel, by, k, n - 1);
        let h = hs[n - 1];
        if sel[n - 1] && group_key(h, by) == k {
            Some(
                match rest {
                    Some(g) => add_row(g, h),
                    None => first_totals(h),
                },
            )
        } else {
            rest
        }
    }
}

struct GroupAcc {
    key: Vec<char>,
    quantity: i128,
    price: Option<i128>,
    market: Option<i128>,
    profit: Option<i128>,
    name: Vec<char>,
}

spec fn opt_int(x: Option<i128>) -> Option<int> {
    match x {
        Some(v) => Some(v as int),
        None => None,
    }
}

spec fn acc_totals(a: GroupAcc) -> GroupTotals {
    GroupTotals {
        quantity: a.quantity as int,
        price: opt_int(a.price),
        market: opt_int(a.market),
        profit: opt_int(a.profit),
        name: a.name@,
    }
}

spec fn acc_keys(gs: Seq<GroupAcc>) -> Seq<Seq<char>> {
    gs.map_values(|a: GroupAcc| a.key@)
}

/// The keys are strictly ascending.
pub open spec fn keys_sorted(keys: Seq<Seq<char>>) -> bool {
    forall|a: int, b: int| 0 <= a < b < keys.len() ==> lex_lt(#[trigger] keys[a], #[trigger] keys[b])
}

/// Some entry of `keys` is `k`.
pub open spec fn has_key(keys: Seq<Seq<char>>, k: Seq<char>) -> bool {
    exists|a: int| 0 <= a < keys.len() && #[trigger] keys[a] == k
}

spec fn acc_bounded(a: GroupAcc, i: int) -> bool {
    &&& -(i * MAX_CELL_MICROS) <= a.quantity <= i * MAX_CELL_MICROS
    &&& (a.price matches Some(v) ==> -MAX_CELL_MICROS <= v <= MAX_CELL_MICROS)
    &&& (a.market matches Some(v) ==> -(i * MAX_CELL_MICROS) <= v <= i * MAX_CELL_MICROS)
    &&& (a.profit matches Some(v) ==> -(i * MAX_CELL_MICROS) <= v <= i * MAX_CELL_MICROS)
}

/// The groups of the selected rows among the first `i`: keys ascending, each
/// key's totals, and every key that has rows listed.
spec fn groups_are(gs: Seq<GroupAcc>, hs: Seq<HoldingRowModel>, sel: Seq<bool>, by: GroupBy, i: int) -> bool {
    &&& keys_sorted(acc_keys(gs))
    &&& forall|a: int|
        0 <= a < gs.len() ==> group_totals(hs, sel, by, (#[trigger] gs[a]).key@, i) == Some(acc_totals(gs[a]))
    &&& forall|k: Seq<char>| #[trigger] group_totals(hs, sel, by, k, i) is Some ==> has_key(acc_keys(gs), k)
    &&& forall|a: int| 0 <= a < gs.len() ==> acc_bounded(#[trigger] gs[a], i)
}

fn add_opt_exec(t: Option<i128>, a: Option<Amount>, Ghost(i): Ghost<int>) -> (r: Option<i128>)
    requires
        0 <= i,
        i * MAX_CELL_MICROS + MAX_CELL_MICROS <= 18446744073709551616 * 1_000_000_000_000_000_000,
        t matches Some(v) ==> -(i * MAX_CELL_MICROS) <= v <= i * MAX_CELL_MICROS,
        a matches Some(x) ==> -MAX_CELL_MICROS <= x.micros <= MAX_CELL_MICROS,
    ensures
        opt_int(r) == opt_add(opt_int(t), a),
        r matches Some(v) ==> -((i + 1) * MAX_CELL_MICROS) <= v <= (i + 1) * MAX_CELL_MICROS,
{
    proof {
        assert((i + 1) * MAX_CELL_MICROS == i * MAX_CELL_MICROS + MAX_CELL_MICROS) by (nonlinear_arith);
        assert(MAX_CELL_MICROS <= (i + 1) * MAX_CELL_MICROS) by (nonlinear_arith) requires 0 <= i, MAX_CELL_MICROS > 0;
    }
    match a {
        Some(x) => match t {
            Some(s) => Some(s + x.micros),
            None => Some(x.micros),
        },
        None => t,
    }
}

fn max_opt_exec(t: Option<i128>, a: Option<Amount>) -> (r: Option<i128>)
    requires
        t matches Some(v) ==> -MAX_CELL_MICROS <= v <= MAX_CELL_MICROS,
        a matches Some(x) ==> -MAX_CELL_MICROS <= x.micros <= MAX_CELL_MICROS,
    ensures
        opt_int(r) == opt_max(opt_int(t), a),
        r matches Some(v) ==> -MAX_CELL_MICROS <= v <= MAX_CELL_MICROS,
{
    match a {
        Some(x) => match t {
            Some(m) => if m < x.micros {
                Some(x.micros)
            } else {
                Some(m)
            },
            None => Some(x.micros),
        },
        None => t,
    }
}

proof fn lemma_group_step(hs: Seq<HoldingRowModel>, sel: Seq<bool>, by: GroupBy, k: Seq<char>, i: int)
    requires
        0 <= i,
    ensures
        group_totals(hs, sel, by, k, i + 1) == (if sel[i] && group_key(hs[i], by) == k {
            Some(
                match group_totals(hs, sel, by, k, i) {
                    Some(g) => add_row(g, hs[i]),
                    None => first_totals(hs[i]),
                },
            )
        } else {
            group_totals(hs, sel, by, k, i)
        }),
{
}

proof fn lemma_keys_insert(keys: Seq<Seq<char>>, key: Seq<char>, p: int)
    requires
        keys_sorted(keys),
        0 <= p <= keys.len(),
        forall|j: int| 0 <= j < p ==> lex_lt(#[trigger] keys[j], key),
        p < keys.len() ==> lex_lt(key, keys[p]),
    ensures
        keys_sorted(keys.insert(p, key)),
        !has_key(keys, key),
{
    let nk = keys.insert(p, key);
    keys.insert_ensures(p, key);
    if has_key(keys, key) {
        let a = choose|a: int| 0 <= a < keys.len() && #[trigger] keys[a] == key;
        if a < p {
            lemma_lex_trichotomy(keys[a], key);
        } else {
            if a > p {
                assert(lex_lt(keys[p], keys[a]));
                lemma_lex_transitive(key, keys[p], keys[a]);
            }
            lemma_lex_trichotomy(key, keys[a]);
        }
    }
    assert forall|a: int, b: int| 0 <= a < b < nk.len() implies lex_lt(#[trigger] nk[a], #[trigger] nk[b]) by {
        if b < p {
            assert(lex_lt(keys[a], keys[b]));
        } else if b == p {
        } else if a == p {
            if b - 1 > p {
                assert(lex_lt(keys[p], keys[b - 1]));
                lemma_lex_transitive(key, keys[p], keys[b - 1]);
            }
        } else if a < p {
            if b - 1 > p {
                assert(lex_lt(keys[p], keys[b - 1]));
                lemma_lex_transitive(key, keys[p], keys[b - 1]);
            }
            lemma_lex_transitive(keys[a], key, keys[b - 1]);
        } else {
            assert(lex_lt(keys[a - 1], keys[b - 1]));
        }
    }
}

proof fn lemma_bound_step(i: int)
    requires
        0 <= i,
    ensures
        i * MAX_CELL_MICROS <= (i + 1) * MAX_CELL_MICROS,
        (i + 1) * MAX_CELL_MICROS == i * MAX_CELL_MICROS + MAX_CELL_MICROS,
{
    assert((i + 1) * MAX_CELL_MICROS == i * MAX_CELL_MICROS + MAX_CELL_MICROS) by (nonlinear_arith);
}

/// The bound on sums of `i` cell amounts is far inside `i128`.
spec fn sums_fit(i: int) -> bool {
    0 <= i && i * MAX_CELL_MICROS + MAX_CELL_MICROS <= 18446744073709551616 * 1_000_000_000_000_000_000
}

/// Adds row `i` to the group of its key, which is at `p`.
#[verifier::spinoff_prover]
fn update_group(
    gs: &mut Vec<GroupAcc>,
    p: usize,
    h: &StoredHolding,
    c: &HoldingChars,
    Ghost(hs): Ghost<Seq<HoldingRowModel>>,
    Ghost(sel): Ghost<Seq<bool>>,
    by: GroupBy,
    Ghost(i): Ghost<int>,
)
    requires
        sums_fit(i),
        0 <= i < hs.len(),
        sel.len() == hs.len(),
        sel[i],
        h.deep_view() == hs[i],
        holding_chars_match(*c, hs[i]),
        holding_amounts_in_range(hs[i]),
        groups_are(old(gs)@, hs, sel, by, i),
        p < old(gs)@.len(),
        old(gs)@[p as int].key@ == group_key(hs[i], by),
    ensures
        groups_are(final(gs)@, hs, sel, by, i + 1),
{
    let ghost old_gs = gs@;
    let ghost keys = acc_keys(old_gs);
    let ghost kx = group_key(hs[i], by);
    proof {
        lemma_bound_step(i);
        assert(acc_bounded(old_gs[p as int], i));
        lemma_group_step(hs, sel, by, kx, i);
    }
    let g = &gs[p];
    let quantity = g.quantity + h.quantity.micros;
    let price = max_opt_exec(g.price, h.current_price);
    let market = add_opt_exec(g.market, h.market_value, Ghost(i));
    let profit = add_opt_exec(g.profit, h.profit_loss, Ghost(i));
    let name = if compare_text(&g.name, &c.stock_name) == TextOrder::Before {
        copy_chars(&c.stock_name)
    } else {
        copy_chars(&g.name)
    };
    let key = copy_chars(&g.key);
    let updated = GroupAcc { key, quantity, price, market, profit, name };
    proof {
        assert(acc_totals(updated) == add_row(acc_totals(old_gs[p as int]), hs[i]));
    }
    gs.set(p, updated);
    proof {
        let ng = gs@;
        assert(acc_keys(ng) =~= keys);
        assert forall|a: int| 0 <= a < ng.len() implies group_totals(hs, sel, by, (#[trigger] ng[a]).key@, i + 1)
            == Some(acc_totals(ng[a])) && acc_bounded(ng[a], i + 1) by {
            if a != p {
                assert(ng[a] == old_gs[a]);
                assert(keys[a] == old_gs[a].key@);
                assert(keys[p as int] == kx);
                lemma_keys_distinct(keys, a, p as int);
                lemma_group_step(hs, sel, by, ng[a].key@, i);
            }
        }
        assert forall|k: Seq<char>| #[trigger] group_totals(hs, sel, by, k, i + 1) is Some implies has_key(acc_keys(ng), k) by {
            lemma_group_step(hs, sel, by, k, i);
            if k == kx {
                assert(acc_keys(ng)[p as int] == k);
            }
        }
    }
}

/// Opens a group for row `i` at `p`, where its key belongs in the order.
#[verifier::spinoff_prover]
fn insert_group(
    gs: &mut Vec<GroupAcc>,
    p: usize,
    h: &StoredHolding,
    c: &HoldingChars,
    key: &Vec<char>,
    Ghost(hs): Ghost<Seq<HoldingRowModel>>,
    Ghost(sel): Ghost<Seq<bool>>,
    by: GroupBy,
    Ghost(i): Ghost<int>,
)
    requires
        sums_fit(i),
        0 <= i < hs.len(),
        sel.len() == hs.len(),
        sel[i],
        h.deep_view() == hs[i],
        holding_chars_match(*c, hs[i]),
        holding_amounts_in_range(hs[i]),
        key@ == group_key(hs[i], by),
        groups_are(old(gs)@, hs, sel, by, i),
        p <= old(gs)@.len(),
        forall|j: int| 0 <= j < p ==> lex_lt(#[trigger] acc_keys(old(gs)@)[j], key@),
        p < old(gs)@.len() ==> lex_lt(key@, old(gs)@[p as int].key@),
    ensures
        groups_are(final(gs)@, hs, sel, by, i + 1),
{
    let ghost old_gs = gs@;
    let ghost keys = acc_keys(old_gs);
    let ghost kx = key@;
    proof {
        lemma_bound_step(i);
        if p < old_gs.len() {
            assert(keys[p as int] == old_gs[p as int].key@);
        }
        lemma_keys_insert(keys, kx, p as int);
        lemma_group_step(hs, sel, by, kx, i);
        if group_totals(hs, sel, by, kx, i) is Some {
            assert(has_key(keys, kx));
        }
    }
    let k2 = copy_chars(key);
    let name = copy_chars(&c.stock_name);
    let price = max_opt_exec(None, h.current_price);
    let market = add_opt_exec(None, h.market_value, Ghost(i));
    let profit = add_opt_exec(None, h.profit_loss, Ghost(i));
    let fresh = GroupAcc { key: k2, quantity: h.quantity.micros, price, market, profit, name };
    proof {
        assert(acc_totals(fresh) == first_totals(hs[i]));
        assert(MAX_CELL_MICROS <= (i + 1) * MAX_CELL_MICROS) by (nonlinear_arith)
            requires 0 <= i, MAX_CELL_MICROS > 0;
    }
    gs.insert(p, fresh);
    proof {
        let ng = gs@;
        old_gs.insert_ensures(p as int, fresh);
        assert(acc_keys(ng) =~= keys.insert(p as int, kx));
        assert forall|a: int| 0 <= a < ng.len() implies group_totals(hs, sel, by, (#[trigger] ng[a]).key@, i + 1)
            == Some(acc_totals(ng[a])) && acc_bounded(ng[a], i + 1) by {
            if a != p {
                let b = if a < p { a } else { a - 1 };
                assert(ng[a] == old_gs[b]);
                assert(keys[b] == old_gs[b].key@);
                assert(keys[b] != kx);
                lemma_group_step(hs, sel, by, ng[a].key@, i);
            }
        }
        assert forall|k: Seq<char>| #[trigger] group_totals(hs, sel, by, k, i + 1) is Some implies has_key(acc_keys(ng), k) by {
            lemma_group_step(hs, sel, by, k, i);
            if k == kx {
                assert(acc_keys(ng)[p as int] == k);
            } else {
                assert(has_key(keys, k));
                let a = choose|a: int| 0 <= a < keys.len() && #[trigger] keys[a] == k;
                if a < p {
                    assert(acc_keys(ng)[a] == k);
                } else {
                    assert(acc_keys(ng)[a + 1] == k);
                }
            }
        }
    }
}

/// A row that is not selected leaves the groups as they are.
proof fn lemma_skip_row(gs: Seq<GroupAcc>, hs: Seq<HoldingRowModel>, sel: Seq<bool>, by: GroupBy, i: int)
    requires
        0 <= i < hs.len(),
        sel.len() == hs.len(),
        !sel[i],
        groups_are(gs, hs, sel, by, i),
    ensures
        groups_are(gs, hs, sel, by, i + 1),
{
    lemma_bound_step(i);
    assert forall|k: Seq<char>| #[trigger] group_totals(hs, sel, by, k, i + 1) == group_totals(hs, sel, by, k, i) by {
        lemma_group_step(hs, sel, by, k, i);
    }
    assert forall|a: int| 0 <= a < gs.len() implies acc_bounded(#[trigger] gs[a], i + 1) by {
        assert(acc_bounded(gs[a], i));
    }
}

/// Groups the selected holdings by date or by stock code.
#[verifier::spinoff_prover]
fn group_holdings(
    holdings: &Vec<StoredHolding>,
    hc: &Vec<HoldingChars>,
    sel: &Vec<bool>,
    by: GroupBy,
) -> (r: Vec<GroupAcc>)
    requires
        holdings_chars_match(hc@, holdings.deep_view()),
        holdings_in_range(holdings.deep_view()),
        sel@.len() == holdings@.len(),
    ensures
        groups_are(r@, holdings.deep_view(), sel@, by, holdings@.len() as int),
{
    let ghost hs = holdings.deep_view();
    let len = holdings.len();
    let mut gs: Vec<GroupAcc> = Vec::new();
    proof {
        assert(acc_keys(gs@) =~= Seq::<Seq<char>>::empty());
        assert(len * MAX_CELL_MICROS <= 18446744073709551615 * 1_000_000_000_000_000_000) by (nonlinear_arith)
            requires
                len <= 18446744073709551615int,
                MAX_CELL_MICROS == 1_000_000_000_000_000_000int;
    }
    let mut i: usize = 0;
    while i < len
        invariant
            hs == holdings.deep_view(),
            len == hs.len(),
            len * MAX_CELL_MICROS <= 18446744073709551615 * 1_000_000_000_000_000_000,
            holdings_chars_match(hc@, hs),
            holdings_in_range(hs),
            sel@.len() == hs.len(),
            i <= len,
            groups_are(gs@, hs, sel@, by, i as int),
        decreases len - i,
    {
        let ghost ii = i as int;
        proof {
            assert(sums_fit(ii)) by (nonlinear_arith)
                requires
                    0 <= ii < len,
                    len * MAX_CELL_MICROS <= 18446744073709551615 * 1_000_000_000_000_000_000,
                    MAX_CELL_MICROS == 1_000_000_000_000_000_000int;
            assert(holding_chars_match(hc@[ii], hs[ii]));
            assert(holding_amounts_in_range(hs[ii]));
        }
        if sel[i] {
            let h = &holdings[i];
            let c = &hc[i];
            let key: &Vec<char> = match by {
                GroupBy::Date => &c.snapshot_date,
                GroupBy::Code => &c.stock_code,
            };
            let ghost keys = acc_keys(gs@);
            let mut p: usize = 0;
            while p < gs.len() && compare_text(&gs[p].key, key) == TextOrder::Before
                invariant
                    p <= gs@.len(),
                    keys == acc_keys(gs@),
                    forall|j: int| 0 <= j < p ==> lex_lt(#[trigger] keys[j], key@),
                decreases gs@.len() - p,
            {
                assert(keys[p as int] == gs@[p as int].key@);
                p = p + 1;
            }
            if p < gs.len() && chars_equal(&gs[p].key, key) {
                update_group(&mut gs, p, h, c, Ghost(hs), Ghost(sel@), by, Ghost(ii));
            } else {
                proof {
                    if p < gs@.len() {
                        assert(keys[p as int] == gs@[p as int].key@);
                        lemma_lex_trichotomy(gs@[p as int].key@, key@);
                    }
                }
                insert_group(&mut gs, p, h, c, key, Ghost(hs), Ghost(sel@), by, Ghost(ii));
            }
        } else {
            proof {
                lemma_skip_row(gs@, hs, sel@, by, ii);
            }
        }
        i = i + 1;
    }
    gs
}

fn copy_chars(s: &Vec<char>) -> (r: Vec<char>)
    ensures
        r@ == s@,
{
    let r = crate::text::copy_range(s, 0, s.len());
    assert(r@ =~= s@);
    r
}

proof fn lemma_keys_distinct(keys: Seq<Seq<char>>, a: int, b: int)
    requires
        keys_sorted(keys),
        0 <= a < keys.len(),
        0 <= b < keys.len(),
        a != b,
    ensures
        keys[a] != keys[b],
{
    if a < b {
        assert(lex_lt(keys[a], keys[b]));
        lemma_lex_trichotomy(keys[a], keys[b]);
    } else {
        assert(lex_lt(keys[b], keys[a]));
        lemma_lex_trichotomy(keys[b], keys[a]);
    }
}


pub open spec fn opt_or_zero(x: Option<int>) -> int {
    match x {
        Some(v) => v,
        None => 0,
    }
}

pub open spec fn opt_amount_int(x: Option<Amount>) -> Option<int> {
    match x {
        Some(a) => Some(a.micros as int),
        None => None,
    }
}

fn amount_or_zero(x: Option<i128>) -> (r: Amount)
    ensures
        r.micros == opt_or_zero(opt_int(x)),
{
    match x {
        Some(v) => Amount { micros: v },
        None => Amount { micros: 0 },
    }
}

fn opt_amount(x: Option<i128>) -> (r: Option<Amount>)
    ensures
        opt_amount_int(r) == opt_int(x),
{
    match x {
        Some(v) => Some(Amount { micros: v }),
        None => None,
    }
}

/// The holdings of the filtered broker (all brokers without a filter).
pub open spec fn broker_flags(hs: Seq<HoldingRowModel>, f: Option<Seq<char>>) -> Seq<bool> {
    Seq::new(hs.len(), |i: int| broker_matches(hs[i].broker, f))
}

fn broker_flags_of(hc: &Vec<HoldingChars>, f: &Option<Vec<char>>, Ghost(hs): Ghost<Seq<HoldingRowModel>>) -> (r: Vec<bool>)
    requires
        holdings_chars_match(hc@, hs),
    ensures
        r@ == broker_flags(
            hs,
            match f {
                Some(v) => Some(v@),
                None => None,
            },
        ),
{
    let ghost fv = match f {
        Some(v) => Some(v@),
        None => None,
    };
    let mut r: Vec<bool> = Vec::new();
    let mut i: usize = 0;
    while i < hc.len()
        invariant
            holdings_chars_match(hc@, hs),
            fv == match f {
                Some(v) => Some(v@),
                None => None,
            },
            i <= hs.len(),
            r@ == broker_flags(hs, fv).take(i as int),
        decreases hs.len() - i,
    {
        proof {
            assert(holding_chars_match(hc@[i as int], hs[i as int]));
        }
        let flag = match f {
            Some(v) => chars_equal(&hc[i].broker, v),
            None => true,
        };
        r.push(flag);
        i = i + 1;
        assert(r@ =~= broker_flags(hs, fv).take(i as int));
    }
    assert(broker_flags(hs, fv).take(i as int) =~= broker_flags(hs, fv));
    r
}

pub open spec fn point_dates(points: Seq<AssetHistoryPoint>) -> Seq<Seq<char>> {
    points.map_values(|p: AssetHistoryPoint| p.snapshot_date@)
}

/// The asset history is the daily totals of the filtered holdings: one point
/// per snapshot date, dates ascending, each with the sums of the market
/// values and of the profits (zero where none is recorded).
pub open spec fn asset_history_is(points: Seq<AssetHistoryPoint>, hs: Seq<HoldingRowModel>, f: Option<Seq<char>>) -> bool {
    let sel = broker_flags(hs, f);
    &&& keys_sorted(point_dates(points))
    &&& forall|k: Seq<char>|
        #[trigger] group_totals(hs, sel, GroupBy::Date, k, hs.len() as int) is Some ==> has_key(point_dates(points), k)
    &&& forall|j: int|
        0 <= j < points.len() ==> match group_totals(hs, sel, GroupBy::Date, (#[trigger] points[j]).snapshot_date@, hs.len() as int) {
            Some(g) => points[j].total_market_value.micros == opt_or_zero(g.market)
                && points[j].total_profit_loss.micros == opt_or_zero(g.profit),
            None => false,
        }
}

/// The daily totals of the holdings (of one broker when filtered).
#[verifier::spinoff_prover]
pub fn asset_history(holdings: &Vec<StoredHolding>, broker_filter: Option<&str>) -> (r: Vec<AssetHistoryPoint>)
    requires
        holdings_in_range(holdings.deep_view()),
    ensures
        asset_history_is(r@, holdings.deep_view(), opt_view(broker_filter)),
{
    let ghost hs = holdings.deep_view();
    let ghost n = hs.len() as int;
    let f = opt_chars(broker_filter);
    let hc = holding_chars_of(holdings);
    let flags = broker_flags_of(&hc, &f, Ghost(hs));
    let ghost sel = flags@;
    proof {
        assert(sel == broker_flags(hs, opt_view(broker_filter)));
    }
    let gs = group_holdings(holdings, &hc, &flags, GroupBy::Date);
    let ghost keys = acc_keys(gs@);
    let mut points: Vec<AssetHistoryPoint> = Vec::new();
    let mut a: usize = 0;
    while a < gs.len()
        invariant
            keys == acc_keys(gs@),
            groups_are(gs@, hs, sel, GroupBy::Date, n),
            a <= gs@.len(),
            points@.len() == a,
            forall|t: int| 0 <= t < a ==> {
                let pt = #[trigger] points@[t];
                &&& pt.snapshot_date@ == keys[t]
                &&& pt.total_market_value.micros == opt_or_zero(acc_totals(gs@[t]).market)
                &&& pt.total_profit_loss.micros == opt_or_zero(acc_totals(gs@[t]).profit)
            },
        decreases gs@.len() - a,
    {
        let g = &gs[a];
        points.push(
            AssetHistoryPoint {
                snapshot_date: string_from_chars(&g.key),
                total_market_value: amount_or_zero(g.market),
                total_profit_loss: amount_or_zero(g.profit),
            },
        );
        a = a + 1;
    }
    proof {
        assert(point_dates(points@) =~= keys);
        assert forall|j: int| 0 <= j < points@.len() implies match group_totals(hs, sel, GroupBy::Date, (#[trigger] points@[j]).snapshot_date@, n) {
            Some(g) => points@[j].total_market_value.micros == opt_or_zero(g.market)
                && points@[j].total_profit_loss.micros == opt_or_zero(g.profit),
            None => false,
        } by {
            assert(gs@[j].key@ == keys[j]);
        }
    }
    points
}

/// The holdings of one stock (and of the filtered broker).
pub open spec fn stock_flags(hs: Seq<HoldingRowModel>, code: Seq<char>, f: Option<Seq<char>>) -> Seq<bool> {
    Seq::new(hs.len(), |i: int| hs[i].stock_code == code && broker_matches(hs[i].broker, f))
}

pub open spec fn stock_point_dates(points: Seq<StockHistoryPoint>) -> Seq<Seq<char>> {
    points.map_values(|p: StockHistoryPoint| p.snapshot_date@)
}

/// A stock's history is the daily totals of its holdings (of the filtered
/// broker): one point per snapshot date, dates ascending, each with the sum
/// of the quantities, the highest current price, and the sums of the market
/// values and of the profits (zero where none is recorded).
pub open spec fn stock_history_is(
    points: Seq<StockHistoryPoint>,
    hs: Seq<HoldingRowModel>,
    code: Seq<char>,
    f: Option<Seq<char>>,
) -> bool {
    let sel = stock_flags(hs, code, f);
    &&& keys_sorted(stock_point_dates(points))
    &&& forall|k: Seq<char>|
        #[trigger] group_totals(hs, sel, GroupBy::Date, k, hs.len() as int) is Some ==> has_key(stock_point_dates(points), k)
    &&& forall|j: int|
        0 <= j < points.len() ==> match group_totals(hs, sel, GroupBy::Date, (#[trigger] points[j]).snapshot_date@, hs.len() as int) {
            Some(g) => {
                &&& points[j].total_quantity.micros == g.quantity
                &&& opt_amount_int(points[j].current_price) == g.price
                &&& points[j].total_market_value.micros == opt_or_zero(g.market)
                &&& points[j].total_profit_loss.micros == opt_or_zero(g.profit)
            },
            None => false,
        }
}

/// The daily totals of one stock's holdings (of one broker when filtered).
#[verifier::spinoff_prover]
pub fn stock_history(holdings: &Vec<StoredHolding>, stock_code: &str, broker_filter: Option<&str>) -> (r: Vec<StockHistoryPoint>)
    requires
        holdings_in_range(holdings.deep_view()),
    ensures
        stock_history_is(r@, holdings.deep_view(), stock_code@, opt_view(broker_filter)),
{
    let ghost hs = holdings.deep_view();
    let ghost n = hs.len() as int;
    let f = opt_chars(broker_filter);
    let code = str_chars(stock_code);
    let hc = holding_chars_of(holdings);
    let by_broker = broker_flags_of(&hc, &f, Ghost(hs));
    let mut flags: Vec<bool> = Vec::new();
    let mut i: usize = 0;
    while i < hc.len()
        invariant
            holdings_chars_match(hc@, hs),
            by_broker@ == broker_flags(hs, opt_view(broker_filter)),
            code@ == stock_code@,
            i <= hs.len(),
            flags@ == stock_flags(hs, stock_code@, opt_view(broker_filter)).take(i as int),
        decreases hs.len() - i,
    {
        proof {
            assert(holding_chars_match(hc@[i as int], hs[i as int]));
        }
        let flag = chars_equal(&hc[i].stock_code, &code) && by_broker[i];
        flags.push(flag);
        i = i + 1;
        assert(flags@ =~= stock_flags(hs, stock_code@, opt_view(broker_filter)).take(i as int));
    }
    let ghost sel = stock_flags(hs, stock_code@, opt_view(broker_filter));
    assert(flags@ =~= sel);
    let gs = group_holdings(holdings, &hc, &flags, GroupBy::Date);
    let ghost keys = acc_keys(gs@);
    let mut points: Vec<StockHistoryPoint> = Vec::new();
    let mut a: usize = 0;
    while a < gs.len()
        invariant
            keys == acc_keys(gs@),
            groups_are(gs@, hs, sel, GroupBy::Date, n),
            a <= gs@.len(),
            points@.len() == a,
            forall|t: int| 0 <= t < a ==> {
                let pt = #[trigger] points@[t];
                &&& pt.snapshot_date@ == keys[t]
                &&& pt.total_quantity.micros == acc_totals(gs@[t]).quantity
                &&& opt_amount_int(pt.current_price) == acc_totals(gs@[t]).price
                &&& pt.total_market_value.micros == opt_or_zero(acc_totals(gs@[t]).market)
                &&& pt.total_profit_loss.micros == opt_or_zero(acc_totals(gs@[t]).profit)
            },
        decreases gs@.len() - a,
    {
        let g = &gs[a];
        points.push(
            StockHistoryPoint {
                snapshot_date: string_from_chars(&g.key),
                total_quantity: Amount { micros: g.quantity },
                current_price: opt_amount(g.price),
                total_market_value: amount_or_zero(g.market),
                total_profit_loss: amount_or_zero(g.profit),
            },
        );
        a = a + 1;
    }
    proof {
        assert(stock_point_dates(points@) =~= keys);
        assert forall|j: int| 0 <= j < points@.len() implies match group_totals(hs, sel, GroupBy::Date, (#[trigger] points@[j]).snapshot_date@, n) {
            Some(g) => {
                &&& points@[j].total_quantity.micros == g.quantity
                &&& opt_amount_int(points@[j].current_price) == g.price
                &&& points@[j].total_market_value.micros == opt_or_zero(g.market)
                &&& points@[j].total_profit_loss.micros == opt_or_zero(g.profit)
            },
            None => false,
        } by {
            assert(gs@[j].key@ == keys[j]);
        }
    }
    points
}


/// The holdings of each broker's latest snapshot (of the filtered broker).
pub open spec fn latest_broker_flags(hs: Seq<HoldingRowModel>, bs: Seq<BatchModel>, f: Option<Seq<char>>) -> Seq<bool> {
    Seq::new(hs.len(), |i: int| is_latest_holding(hs[i], bs) && broker_matches(hs[i].broker, f))
}

/// The order of the composition: a recorded market value before none, and
/// larger values first.
pub open spec fn rank_ge(a: Option<int>, b: Option<int>) -> bool {
    match b {
        None => true,
        Some(y) => match a {
            Some(x) => x >= y,
            None => false,
        },
    }
}

pub open spec fn group_market(hs: Seq<HoldingRowModel>, sel: Seq<bool>, k: Seq<char>, n: int) -> Option<int> {
    match group_totals(hs, sel, GroupBy::Code, k, n) {
        Some(g) => g.market,
        None => None,
    }
}

pub open spec fn item_codes(items: Seq<CompositionItem>) -> Seq<Seq<char>> {
    items.map_values(|it: CompositionItem| it.stock_code@)
}

/// The composition is one item per stock held in the latest snapshots (of
/// the filtered broker), with the greatest of its names, the stock master's
/// sector and the sum of its market values (zero where none is recorded),
/// stocks with the larger recorded sums first and those with none last.
pub open spec fn composition_is(
    items: Seq<CompositionItem>,
    hs: Seq<HoldingRowModel>,
    bs: Seq<BatchModel>,
    master: Seq<(Seq<char>, Seq<char>, Option<Seq<char>>)>,
    f: Option<Seq<char>>,
) -> bool {
    let sel = latest_broker_flags(hs, bs, f);
    let n = hs.len() as int;
    &&& forall|j1: int, j2: int|
        0 <= j1 < j2 < items.len() ==> (#[trigger] items[j1]).stock_code@ != (#[trigger] items[j2]).stock_code@
    &&& forall|k: Seq<char>| #[trigger] group_totals(hs, sel, GroupBy::Code, k, n) is Some ==> has_key(item_codes(items), k)
    &&& forall|j: int|
        0 <= j < items.len() ==> match group_totals(hs, sel, GroupBy::Code, (#[trigger] items[j]).stock_code@, n) {
            Some(g) => {
                &&& items[j].stock_name@ == g.name
                &&& items[j].total_market_value.micros == opt_or_zero(g.market)
                &&& items[j].sector_33.deep_view() == master_sector(master, items[j].stock_code@)
            },
            None => false,
        }
    &&& forall|j1: int, j2: int|
        0 <= j1 < j2 < items.len() ==> rank_ge(
            group_market(hs, sel, (#[trigger] items[j1]).stock_code@, n),
            group_market(hs, sel, (#[trigger] items[j2]).stock_code@, n),
        )
}

fn rank_ge_exec(a: Option<i128>, b: Option<i128>) -> (r: bool)
    ensures
        r == rank_ge(opt_int(a), opt_int(b)),
{
    match b {
        None => true,
        Some(y) => match a {
            Some(x) => x >= y,
            None => false,
        },
    }
}

spec fn group_rank_at(gs: Seq<GroupAcc>) -> spec_fn(int, int) -> bool {
    |a: int, b: int| rank_ge(opt_int(gs[a].market), opt_int(gs[b].market))
}

proof fn lemma_rank_total(gs: Seq<GroupAcc>)
    ensures
        total_preorder(group_rank_at(gs), gs.len() as int),
{
}

pub open spec fn all_indices() -> spec_fn(int) -> bool {
    |a: int| true
}

/// The market value of each stock in the latest snapshots, with its sector.
#[verifier::spinoff_prover]
pub fn composition(
    holdings: &Vec<StoredHolding>,
    batches: &Vec<StoredBatch>,
    master: &Vec<StockMasterEntry>,
    broker_filter: Option<&str>,
) -> (r: Vec<CompositionItem>)
    requires
        holdings_in_range(holdings.deep_view()),
    ensures
        composition_is(r@, holdings.deep_view(), batches.deep_view(), master_rows(master@), opt_view(broker_filter)),
{
    let ghost hs = holdings.deep_view();
    let ghost bs = batches.deep_view();
    let ghost mv = master_rows(master@);
    let ghost fv = opt_view(broker_filter);
    let ghost n = hs.len() as int;
    let f = opt_chars(broker_filter);
    let hc = holding_chars_of(holdings);
    let bc = batch_chars_of(batches);
    let mc = master_chars_of(master);
    let latest = latest_flags(&hc, &bc, Ghost(hs), Ghost(bs));
    let by_broker = broker_flags_of(&hc, &f, Ghost(hs));
    let ghost sel = latest_broker_flags(hs, bs, fv);
    let mut flags: Vec<bool> = Vec::new();
    let mut i: usize = 0;
    while i < hc.len()
        invariant
            holdings_chars_match(hc@, hs),
            latest@.len() == hs.len(),
            forall|k: int| 0 <= k < hs.len() ==> #[trigger] latest@[k] == is_latest_holding(hs[k], bs),
            by_broker@ == broker_flags(hs, fv),
            sel == latest_broker_flags(hs, bs, fv),
            i <= hs.len(),
            flags@ == sel.take(i as int),
        decreases hs.len() - i,
    {
        flags.push(latest[i] && by_broker[i]);
        i = i + 1;
        assert(flags@ =~= sel.take(i as int));
    }
    assert(flags@ =~= sel);
    let gs = group_holdings(holdings, &hc, &flags, GroupBy::Code);
    let ghost gv = gs@;
    let ghost keys = acc_keys(gv);
    let ghost m = gv.len() as int;
    let ghost le = group_rank_at(gv);
    let ghost every = all_indices();
    proof {
        lemma_rank_total(gv);
    }
    let mut order: Vec<usize> = Vec::new();
    assert(usize_views(order@) =~= Seq::<int>::empty());
    let mut e: usize = 0;
    while e < gs.len()
        invariant
            gv == gs@,
            m == gv.len(),
            le == group_rank_at(gv),
            every == all_indices(),
            total_preorder(le, m),
            e <= m,
            sorted_picks(usize_views(order@), |a: int| every(a) && a < e, le, m),
        decreases m - e,
    {
        let ghost ov = usize_views(order@);
        proof {
            assert forall|j: int| 0 <= j < order@.len() implies (#[trigger] order@[j] as int) < m by {
                assert(ov[j] == order@[j] as int);
            }
        }
        let mut p: usize = 0;
        while p < order.len() && rank_ge_exec(gs[order[p]].market, gs[e].market)
            invariant
                forall|j: int| 0 <= j < order@.len() ==> (#[trigger] order@[j] as int) < m,
                ov == usize_views(order@),
                gv == gs@,
                m == gv.len(),
                le == group_rank_at(gv),
                e < m,
                p <= order@.len(),
                forall|j: int| 0 <= j < p ==> le(#[trigger] ov[j], e as int),
            decreases order@.len() - p,
        {
            assert(ov[p as int] == order@[p as int] as int);
            p = p + 1;
        }
        proof {
            if p < order@.len() {
                assert(ov[p as int] == order@[p as int] as int);
            }
            lemma_insert_pick(ov, every, le, m, e as int, p as int);
        }
        order.insert(p, e);
        assert(usize_views(order@) =~= ov.insert(p as int, e as int));
        e = e + 1;
    }
    let ghost picks = usize_views(order@);
    proof {
        lemma_all_picked(picks, every, le, m);
    }
    let mut items: Vec<CompositionItem> = Vec::new();
    let mut j: usize = 0;
    while j < order.len()
        invariant
            gv == gs@,
            m == gv.len(),
            keys == acc_keys(gv),
            mv == master_rows(master@),
            master_chars_match(mc@, mv),
            picks == usize_views(order@),
            sorted_picks(picks, every, le, m),
            j <= order@.len(),
            items@.len() == j,
            forall|t: int| 0 <= t < j ==> {
                let it = #[trigger] items@[t];
                &&& it.stock_code@ == keys[picks[t]]
                &&& it.stock_name@ == acc_totals(gv[picks[t]]).name
                &&& it.total_market_value.micros == opt_or_zero(acc_totals(gv[picks[t]]).market)
                &&& it.sector_33.deep_view() == master_sector(mv, keys[picks[t]])
            },
        decreases order@.len() - j,
    {
        let k = order[j];
        proof {
            assert(picks[j as int] == k as int);
            assert(0 <= picks[j as int] < m);
        }
        let g = &gs[k];
        let sector = sector_of(master, &mc, &g.key);
        items.push(
            CompositionItem {
                stock_code: string_from_chars(&g.key),
                stock_name: string_from_chars(&g.name),
                sector_33: sector,
                total_market_value: amount_or_zero(g.market),
            },
        );
        j = j + 1;
    }
    proof {
        let iv = items@;
        assert forall|j1: int, j2: int| 0 <= j1 < j2 < iv.len() implies (#[trigger] iv[j1]).stock_code@ != (#[trigger] iv[j2]).stock_code@ by {
            lemma_keys_distinct(keys, picks[j1], picks[j2]);
        }
        assert forall|t: int| 0 <= t < iv.len() implies group_totals(hs, sel, GroupBy::Code, keys[picks[t]], n) == Some(acc_totals(gv[picks[t]])) by {
            assert(gv[picks[t]].key@ == keys[picks[t]]);
        }
        assert forall|k: Seq<char>| #[trigger] group_totals(hs, sel, GroupBy::Code, k, n) is Some implies has_key(item_codes(iv), k) by {
            assert(has_key(keys, k));
            let a = choose|a: int| 0 <= a < keys.len() && #[trigger] keys[a] == k;
            assert(every(a));
            assert(has_pick(picks, a));
            let t = choose|t: int| 0 <= t < picks.len() && #[trigger] picks[t] == a;
            assert(item_codes(iv)[t] == k);
        }
        assert forall|j1: int, j2: int| 0 <= j1 < j2 < iv.len() implies rank_ge(
            group_market(hs, sel, (#[trigger] iv[j1]).stock_code@, n),
            group_market(hs, sel, (#[trigger] iv[j2]).stock_code@, n),
        ) by {
            assert(le(picks[j1], picks[j2]));
            assert(gv[picks[j1]].key@ == keys[picks[j1]]);
            assert(gv[picks[j2]].key@ == keys[picks[j2]]);
        }
    }
    items
}


// ---------------------------------------------------------------------------
// The stock list and the import history
// ---------------------------------------------------------------------------

/// Some selected holding is of stock `code`.
pub open spec fn holds_stock(hs: Seq<HoldingRowModel>, sel: Seq<bool>, code: Seq<char>) -> bool {
    exists|i: int| 0 <= i < hs.len() && sel[i] && #[trigger] hs[i].stock_code == code
}

pub open spec fn listed_at(
    hs: Seq<HoldingRowModel>,
    master: Seq<(Seq<char>, Seq<char>, Option<Seq<char>>)>,
    f: Option<Seq<char>>,
) -> spec_fn(int) -> bool {
    |a: int| holds_stock(hs, broker_flags(hs, f), master[a].0)
}

pub open spec fn code_le_at(master: Seq<(Seq<char>, Seq<char>, Option<Seq<char>>)>) -> spec_fn(int, int) -> bool {
    |a: int, b: int| lex_le(master[a].0, master[b].0)
}

/// The stock list is the stock-master entries of the stocks ever held (by
/// the filtered broker), ordered by code, each telling whether a latest
/// snapshot (of that broker) holds it.
pub open spec fn stock_list_is(
    items: Seq<crate::models::StockListItem>,
    hs: Seq<HoldingRowModel>,
    bs: Seq<BatchModel>,
    master: Seq<(Seq<char>, Seq<char>, Option<Seq<char>>)>,
    f: Option<Seq<char>>,
) -> bool {
    exists|picks: Seq<int>|
        #[trigger] sorted_picks(picks, listed_at(hs, master, f), code_le_at(master), master.len() as int)
            && picks.len() == items.len() && forall|j: int|
            0 <= j < items.len() ==> {
                let it = #[trigger] items[j];
                let row = master[picks[j]];
                &&& it.stock_code@ == row.0
                &&& it.stock_name@ == row.1
                &&& it.sector_33.deep_view() == row.2
                &&& it.is_currently_held == holds_stock(hs, latest_broker_flags(hs, bs, f), row.0)
            }
}

fn holds_stock_exec(hc: &Vec<HoldingChars>, sel: &Vec<bool>, code: &[char], Ghost(hs): Ghost<Seq<HoldingRowModel>>) -> (r: bool)
    requires
        holdings_chars_match(hc@, hs),
        sel@.len() == hs.len(),
    ensures
        r == holds_stock(hs, sel@, code@),
{
    let mut i: usize = 0;
    while i < hc.len()
        invariant
            holdings_chars_match(hc@, hs),
            sel@.len() == hs.len(),
            i <= hs.len(),
            forall|k: int| 0 <= k < i ==> !(sel@[k] && #[trigger] hs[k].stock_code == code@),
        decreases hs.len() - i,
    {
        proof {
            assert(holding_chars_match(hc@[i as int], hs[i as int]));
        }
        if sel[i] && chars_equal(&hc[i].stock_code, code) {
            return true;
        }
        i = i + 1;
    }
    false
}

proof fn lemma_code_le_total(master: Seq<(Seq<char>, Seq<char>, Option<Seq<char>>)>)
    ensures
        total_preorder(code_le_at(master), master.len() as int),
{
    let le = code_le_at(master);
    assert forall|a: int, b: int| 0 <= a < master.len() && 0 <= b < master.len() implies #[trigger] le(a, b) || le(b, a) by {
        lemma_lex_le_order(master[a].0, master[b].0, master[b].0);
    }
    assert forall|a: int, b: int, c: int|
        0 <= a < master.len() && 0 <= b < master.len() && 0 <= c < master.len() && #[trigger] le(a, b) && #[trigger] le(b, c) implies le(a, c) by {
        lemma_lex_le_order(master[a].0, master[b].0, master[c].0);
    }
}

/// The stocks ever held (by one broker when filtered), ordered by code, each
/// telling whether it is held now.
#[verifier::spinoff_prover]
pub fn stock_list(
    holdings: &Vec<StoredHolding>,
    batches: &Vec<StoredBatch>,
    master: &Vec<StockMasterEntry>,
    broker_filter: Option<&str>,
) -> (r: Vec<crate::models::StockListItem>)
    ensures
        stock_list_is(r@, holdings.deep_view(), batches.deep_view(), master_rows(master@), opt_view(broker_filter)),
{
    let ghost hs = holdings.deep_view();
    let ghost bs = batches.deep_view();
    let ghost mv = master_rows(master@);
    let ghost fv = opt_view(broker_filter);
    let ghost m = mv.len() as int;
    let f = opt_chars(broker_filter);
    let hc = holding_chars_of(holdings);
    let bc = batch_chars_of(batches);
    let mc = master_chars_of(master);
    let latest = latest_flags(&hc, &bc, Ghost(hs), Ghost(bs));
    let by_broker = broker_flags_of(&hc, &f, Ghost(hs));
    let mut now: Vec<bool> = Vec::new();
    let mut i: usize = 0;
    while i < hc.len()
        invariant
            holdings_chars_match(hc@, hs),
            latest@.len() == hs.len(),
            forall|k: int| 0 <= k < hs.len() ==> #[trigger] latest@[k] == is_latest_holding(hs[k], bs),
            by_broker@ == broker_flags(hs, fv),
            i <= hs.len(),
            now@ == latest_broker_flags(hs, bs, fv).take(i as int),
        decreases hs.len() - i,
    {
        now.push(latest[i] && by_broker[i]);
        i = i + 1;
        assert(now@ =~= latest_broker_flags(hs, bs, fv).take(i as int));
    }
    assert(now@ =~= latest_broker_flags(hs, bs, fv));
    let ghost sel = listed_at(hs, mv, fv);
    let ghost le = code_le_at(mv);
    proof {
        lemma_code_le_total(mv);
    }
    let mut order: Vec<usize> = Vec::new();
    assert(usize_views(order@) =~= Seq::<int>::empty());
    let mut e: usize = 0;
    while e < master.len()
        invariant
            mv == master_rows(master@),
            m == mv.len(),
            master_chars_match(mc@, mv),
            holdings_chars_match(hc@, hs),
            by_broker@ == broker_flags(hs, fv),
            sel == listed_at(hs, mv, fv),
            le == code_le_at(mv),
            total_preorder(le, m),
            e <= m,
            sorted_picks(usize_views(order@), |a: int| sel(a) && a < e, le, m),
        decreases m - e,
    {
        let ghost ov = usize_views(order@);
        proof {
            assert(mc@[e as int].code@ == mv[e as int].0);
        }
        if holds_stock_exec(&hc, &by_broker, &mc[e].code, Ghost(hs)) {
            proof {
                assert forall|j: int| 0 <= j < order@.len() implies (#[trigger] order@[j] as int) < m by {
                    assert(ov[j] == order@[j] as int);
                }
            }
            let mut p: usize = 0;
            while p < order.len() && compare_text(&mc[order[p]].code, &mc[e].code) != TextOrder::After
                invariant
                    forall|j: int| 0 <= j < order@.len() ==> (#[trigger] order@[j] as int) < m,
                    ov == usize_views(order@),
                    mv == master_rows(master@),
                    m == mv.len(),
                    master_chars_match(mc@, mv),
                    le == code_le_at(mv),
                    e < m,
                    p <= order@.len(),
                    forall|j: int| 0 <= j < p ==> le(#[trigger] ov[j], e as int),
                decreases order@.len() - p,
            {
                proof {
                    let a = ov[p as int];
                    assert(order@[p as int] as int == a);
                    assert(mc@[a].code@ == mv[a].0);
                    lemma_lex_trichotomy(mv[e as int].0, mv[a].0);
                }
                p = p + 1;
            }
            proof {
                if p < order@.len() {
                    let a = ov[p as int];
                    assert(order@[p as int] as int == a);
                    assert(mc@[a].code@ == mv[a].0);
                    lemma_lex_trichotomy(mv[e as int].0, mv[a].0);
                }
                lemma_insert_pick(ov, sel, le, m, e as int, p as int);
            }
            order.insert(p, e);
            assert(usize_views(order@) =~= ov.insert(p as int, e as int));
        } else {
            proof {
                lemma_skip_pick(ov, sel, le, m, e as int);
            }
        }
        e = e + 1;
    }
    let ghost picks = usize_views(order@);
    proof {
        lemma_all_picked(picks, sel, le, m);
    }
    let mut items: Vec<crate::models::StockListItem> = Vec::new();
    let mut j: usize = 0;
    while j < order.len()
        invariant
            mv == master_rows(master@),
            m == mv.len(),
            master_chars_match(mc@, mv),
            holdings_chars_match(hc@, hs),
            now@ == latest_broker_flags(hs, bs, fv),
            picks == usize_views(order@),
            sorted_picks(picks, sel, le, m),
            j <= order@.len(),
            items@.len() == j,
            forall|t: int| 0 <= t < j ==> {
                let it = #[trigger] items@[t];
                let row = mv[picks[t]];
                &&& it.stock_code@ == row.0
                &&& it.stock_name@ == row.1
                &&& it.sector_33.deep_view() == row.2
                &&& it.is_currently_held == holds_stock(hs, latest_broker_flags(hs, bs, fv), row.0)
            },
        decreases order@.len() - j,
    {
        let k = order[j];
        proof {
            assert(picks[j as int] == k as int);
            assert(0 <= picks[j as int] < m);
            assert(mc@[k as int].code@ == mv[k as int].0);
        }
        let row = &master[k];
        let held = holds_stock_exec(&hc, &now, &mc[k].code, Ghost(hs));
        items.push(
            crate::models::StockListItem {
                stock_code: row.stock_code.clone(),
                stock_name: row.stock_name.clone(),
                sector_33: clone_opt(&row.sector_33),
                is_currently_held: held,
            },
        );
        j = j + 1;
    }
    items
}

/// How many holdings belong to batch `id`.
pub open spec fn batch_holding_count(hs: Seq<HoldingRowModel>, id: i64) -> nat
    decreases hs.len(),
{
    if hs.len() == 0 {
        0
    } else {
        batch_holding_count(hs.drop_last(), id) + (if hs.last().batch_id == id {
            1nat
        } else {
            0nat
        })
    }
}

/// The import history's order: later snapshot dates first, then by broker.
pub open spec fn batch_le_at(bs: Seq<BatchModel>) -> spec_fn(int, int) -> bool {
    |a: int, b: int| lex_lt(bs[b].snapshot_date, bs[a].snapshot_date) || (bs[a].snapshot_date
        == bs[b].snapshot_date && lex_le(bs[a].broker, bs[b].broker))
}

/// The import history lists every batch once, later snapshot dates first
/// and then by broker, with the broker's display name and the number of its
/// holdings.
pub open spec fn import_batches_are(
    items: Seq<crate::models::ImportBatchSummary>,
    bs: Seq<BatchModel>,
    hs: Seq<HoldingRowModel>,
) -> bool {
    exists|picks: Seq<int>|
        #[trigger] sorted_picks(picks, all_indices(), batch_le_at(bs), bs.len() as int)
            && picks.len() == items.len() && forall|j: int|
            0 <= j < items.len() ==> {
                let it = #[trigger] items[j];
                let b = bs[picks[j]];
                &&& it.batch_id == b.batch_id
                &&& it.broker_display_name@ == display_text_for_identifier(b.broker)
                &&& it.snapshot_date@ == b.snapshot_date
                &&& it.source_file_name.deep_view() == b.source_file_name
                &&& it.imported_at@ == b.imported_at
                &&& it.holding_count == batch_holding_count(hs, b.batch_id)
            }
}

proof fn lemma_batch_le_total(bs: Seq<BatchModel>)
    ensures
        total_preorder(batch_le_at(bs), bs.len() as int),
{
    let le = batch_le_at(bs);
    assert forall|a: int, b: int| 0 <= a < bs.len() && 0 <= b < bs.len() implies #[trigger] le(a, b) || le(b, a) by {
        lemma_pair_order(bs[b].snapshot_date, bs[a].broker, bs[a].snapshot_date, bs[b].broker, bs[a].snapshot_date, bs[b].broker);
        lemma_lex_le_order(bs[a].broker, bs[b].broker, bs[b].broker);
        lemma_lex_trichotomy(bs[a].snapshot_date, bs[b].snapshot_date);
    }
    assert forall|a: int, b: int, c: int|
        0 <= a < bs.len() && 0 <= b < bs.len() && 0 <= c < bs.len() && #[trigger] le(a, b) && #[trigger] le(b, c) implies le(a, c) by {
        lemma_lex_le_order(bs[a].broker, bs[b].broker, bs[c].broker);
        lemma_lex_trichotomy(bs[a].snapshot_date, bs[b].snapshot_date);
        lemma_lex_trichotomy(bs[b].snapshot_date, bs[c].snapshot_date);
        lemma_lex_trichotomy(bs[a].snapshot_date, bs[c].snapshot_date);
        if lex_lt(bs[c].snapshot_date, bs[b].snapshot_date) && lex_lt(bs[b].snapshot_date, bs[a].snapshot_date) {
            lemma_lex_transitive(bs[c].snapshot_date, bs[b].snapshot_date, bs[a].snapshot_date);
        }
    }
}

fn batch_le_exec(a: &BatchChars, b: &BatchChars) -> (r: bool)
    ensures
        r == (lex_lt(b.snapshot_date@, a.snapshot_date@) || (a.snapshot_date@ == b.snapshot_date@ && lex_le(
            a.broker@,
            b.broker@,
        ))),
{
    match compare_text(&b.snapshot_date, &a.snapshot_date) {
        TextOrder::Before => true,
        TextOrder::After => {
            proof {
                lemma_lex_trichotomy(b.snapshot_date@, a.snapshot_date@);
            }
            false
        },
        TextOrder::Same => compare_text(&a.broker, &b.broker) != TextOrder::After,
    }
}

fn count_batch_holdings(holdings: &Vec<StoredHolding>, id: i64) -> (r: i64)
    requires
        holdings@.len() <= i64::MAX,
    ensures
        r == batch_holding_count(holdings.deep_view(), id),
{
    let ghost hs = holdings.deep_view();
    let mut count: i64 = 0;
    let mut i: usize = 0;
    while i < holdings.len()
        invariant
            hs == holdings.deep_view(),
            hs.len() <= i64::MAX,
            i <= hs.len(),
            count == batch_holding_count(hs.take(i as int), id),
            count <= i,
        decreases hs.len() - i,
    {
        proof {
            lemma_take_drop_last(hs, i as int);
        }
        if holdings[i].batch_id == id {
            count = count + 1;
        }
        i = i + 1;
    }
    assert(hs.take(i as int) =~= hs);
    count
}

/// Every import batch, later snapshot dates first and then by broker, with
/// the number of its holdings.
#[verifier::spinoff_prover]
pub fn import_batch_list(batches: &Vec<StoredBatch>, holdings: &Vec<StoredHolding>) -> (r: Vec<
    crate::models::ImportBatchSummary,
>)
    requires
        holdings@.len() <= i64::MAX,
    ensures
        import_batches_are(r@, batches.deep_view(), holdings.deep_view()),
{
    let ghost hs = holdings.deep_view();
    let ghost bs = batches.deep_view();
    let ghost m = bs.len() as int;
    let ghost le = batch_le_at(bs);
    let ghost every = all_indices();
    let bc = batch_chars_of(batches);
    proof {
        lemma_batch_le_total(bs);
    }
    let mut order: Vec<usize> = Vec::new();
    assert(usize_views(order@) =~= Seq::<int>::empty());
    let mut e: usize = 0;
    while e < batches.len()
        invariant
            bs == batches.deep_view(),
            m == bs.len(),
            batches_chars_match(bc@, bs),
            le == batch_le_at(bs),
            every == all_indices(),
            total_preorder(le, m),
            e <= m,
            sorted_picks(usize_views(order@), |a: int| every(a) && a < e, le, m),
        decreases m - e,
    {
        let ghost ov = usize_views(order@);
        proof {
            assert forall|j: int| 0 <= j < order@.len() implies (#[trigger] order@[j] as int) < m by {
                assert(ov[j] == order@[j] as int);
            }
        }
        let mut p: usize = 0;
        while p < order.len() && batch_le_exec(&bc[order[p]], &bc[e])
            invariant
                forall|j: int| 0 <= j < order@.len() ==> (#[trigger] order@[j] as int) < m,
                ov == usize_views(order@),
                bs == batches.deep_view(),
                m == bs.len(),
                batches_chars_match(bc@, bs),
                le == batch_le_at(bs),
                e < m,
                p <= order@.len(),
                forall|j: int| 0 <= j < p ==> le(#[trigger] ov[j], e as int),
            decreases order@.len() - p,
        {
            assert(ov[p as int] == order@[p as int] as int);
            p = p + 1;
        }
        proof {
            if p < order@.len() {
                assert(ov[p as int] == order@[p as int] as int);
            }
            lemma_insert_pick(ov, every, le, m, e as int, p as int);
        }
        order.insert(p, e);
        assert(usize_views(order@) =~= ov.insert(p as int, e as int));
        e = e + 1;
    }
    let ghost picks = usize_views(order@);
    proof {
        lemma_all_picked(picks, every, le, m);
    }
    let mut items: Vec<crate::models::ImportBatchSummary> = Vec::new();
    let mut j: usize = 0;
    while j < order.len()
        invariant
            bs == batches.deep_view(),
            hs == holdings.deep_view(),
            hs.len() <= i64::MAX,
            m == bs.len(),
            picks == usize_views(order@),
            sorted_picks(picks, every, le, m),
            j <= order@.len(),
            items@.len() == j,
            forall|t: int| 0 <= t < j ==> {
                let it = #[trigger] items@[t];
                let b = bs[picks[t]];
                &&& it.batch_id == b.batch_id
                &&& it.broker_display_name@ == display_text_for_identifier(b.broker)
                &&& it.snapshot_date@ == b.snapshot_date
                &&& it.source_file_name.deep_view() == b.source_file_name
                &&& it.imported_at@ == b.imported_at
                &&& it.holding_count == batch_holding_count(hs, b.batch_id)
            },
        decreases order@.len() - j,
    {
        let k = order[j];
        proof {
            assert(picks[j as int] == k as int);
            assert(0 <= picks[j as int] < m);
        }
        let b = &batches[k];
        items.push(
            crate::models::ImportBatchSummary {
                batch_id: b.batch_id,
                broker_display_name: display_name_for_identifier(b.broker.as_str()),
                snapshot_date: b.snapshot_date.clone(),
                source_file_name: clone_opt(&b.source_file_name),
                imported_at: b.imported_at.clone(),
                holding_count: count_batch_holdings(holdings, b.batch_id),
            },
        );
        j = j + 1;
    }
    items
}


// ---------------------------------------------------------------------------
// How the screens agree
// ---------------------------------------------------------------------------

proof fn lemma_group_has_row(hs: Seq<HoldingRowModel>, sel: Seq<bool>, by: GroupBy, k: Seq<char>, n: int)
    requires
        group_totals(hs, sel, by, k, n) is Some,
    ensures
        exists|i: int| 0 <= i < n && sel[i] && #[trigger] group_key(hs[i], by) == k,
    decreases n,
{
    if n > 0 {
        if sel[n - 1] && group_key(hs[n - 1], by) == k {
        } else {
            lemma_group_has_row(hs, sel, by, k, n - 1);
        }
    }
}

/// Every stock of the composition that the stock master knows is offered in
/// the stock list (with the same broker filter), marked as held now.
pub proof fn lemma_composition_stocks_are_listed_as_held(
    items: Seq<CompositionItem>,
    list: Seq<crate::models::StockListItem>,
    hs: Seq<HoldingRowModel>,
    bs: Seq<BatchModel>,
    master: Seq<(Seq<char>, Seq<char>, Option<Seq<char>>)>,
    f: Option<Seq<char>>,
    j: int,
    a: int,
)
    requires
        composition_is(items, hs, bs, master, f),
        stock_list_is(list, hs, bs, master, f),
        0 <= j < items.len(),
        0 <= a < master.len(),
        master[a].0 == items[j].stock_code@,
    ensures
        exists|t: int| 0 <= t < list.len() && (#[trigger] list[t]).stock_code@ == items[j].stock_code@ && list[t].is_currently_held,
{
    let k = items[j].stock_code@;
    let n = hs.len() as int;
    let now = latest_broker_flags(hs, bs, f);
    let ever = broker_flags(hs, f);
    assert(group_totals(hs, now, GroupBy::Code, k, n) is Some);
    lemma_group_has_row(hs, now, GroupBy::Code, k, n);
    let i = choose|i: int| 0 <= i < n && now[i] && #[trigger] group_key(hs[i], GroupBy::Code) == k;
    assert(hs[i].stock_code == k);
    assert(holds_stock(hs, now, k));
    assert(ever[i]);
    assert(holds_stock(hs, ever, k));
    let picks = choose|picks: Seq<int>|
        #[trigger] sorted_picks(picks, listed_at(hs, master, f), code_le_at(master), master.len() as int)
            && picks.len() == list.len() && forall|t: int|
            0 <= t < list.len() ==> {
                let it = #[trigger] list[t];
                let row = master[picks[t]];
                &&& it.stock_code@ == row.0
                &&& it.stock_name@ == row.1
                &&& it.sector_33.deep_view() == row.2
                &&& it.is_currently_held == holds_stock(hs, latest_broker_flags(hs, bs, f), row.0)
            };
    assert(listed_at(hs, master, f)(a));
    assert(has_pick(picks, a));
    let t = choose|t: int| 0 <= t < picks.len() && #[trigger] picks[t] == a;
    assert(list[t].stock_code@ == k);
}

// ---------------------------------------------------------------------------
// What the lists show
// ---------------------------------------------------------------------------

/// The sector of a stock that has one master entry is that entry's sector.
pub proof fn lemma_master_sector_of_only_entry(
    master: Seq<(Seq<char>, Seq<char>, Option<Seq<char>>)>,
    a: int,
)
    requires
        0 <= a < master.len(),
        forall|b: int| 0 <= b < master.len() && b != a ==> master[b].0 != master[a].0,
    ensures
        master_sector(master, master[a].0) == master[a].2,
    decreases master.len(),
{
    if a < master.len() - 1 {
        let pre = master.drop_last();
        assert forall|b: int| 0 <= b < pre.len() && b != a implies pre[b].0 != pre[a].0 by {
            assert(pre[b] == master[b]);
        }
        lemma_master_sector_of_only_entry(pre, a);
        assert(master.last() == master[master.len() - 1]);
    }
}

/// Each row of the holdings list shows one stored holding of its broker's
/// latest snapshot with that holding's own values (broker, date, account,
/// code, name, quantity, purchase price, current price, market value, profit
/// and its rate), and its sector is the master's sector of that stock when
/// the master has one entry for it. Every holding of a latest snapshot is
/// shown by some row.
pub proof fn lemma_holdings_list_shows_stored_values(
    items: Seq<HoldingRecord>,
    hs: Seq<HoldingRowModel>,
    bs: Seq<BatchModel>,
    master: Seq<(Seq<char>, Seq<char>, Option<Seq<char>>)>,
)
    requires
        latest_holdings_are(items, hs, bs, master),
    ensures
        forall|j: int|
            #![trigger items[j]]
            0 <= j < items.len() ==> exists|i: int|
                #![trigger hs[i]]
                0 <= i < hs.len() && latest_date(bs, hs[i].broker) == Some(hs[i].snapshot_date)
                && items[j].broker@ == hs[i].broker && items[j].snapshot_date@ == hs[i].snapshot_date
                && items[j].account_type@ == hs[i].account_type && items[j].stock_code@ == hs[i].stock_code
                && items[j].stock_name@ == hs[i].stock_name && items[j].quantity == hs[i].quantity
                && items[j].average_acquisition_price == hs[i].average_acquisition_price
                && items[j].current_price == hs[i].current_price && items[j].market_value == hs[i].market_value
                && items[j].profit_loss == hs[i].profit_loss && items[j].profit_loss_rate == hs[i].profit_loss_rate
                && (forall|a: int|
                    #![trigger master[a]]
                    0 <= a < master.len() && master[a].0 == hs[i].stock_code && (forall|b: int|
                        0 <= b < master.len() && b != a ==> master[b].0 != master[a].0)
                        ==> items[j].sector_33.deep_view() == master[a].2),
        forall|i: int|
            0 <= i < hs.len() && latest_date(bs, hs[i].broker) == Some(hs[i].snapshot_date) ==> exists|
                j: int,
            |
                #![trigger items[j]]
                0 <= j < items.len() && items[j].broker@ == hs[i].broker && items[j].stock_code@
                    == hs[i].stock_code && items[j].account_type@ == hs[i].account_type
                    && items[j].current_price == hs[i].current_price && items[j].quantity
                    == hs[i].quantity,
{
    let picks = choose|picks: Seq<int>|
        #[trigger] sorted_picks(picks, latest_at(hs, bs), holding_le_at(hs), hs.len() as int)
            && picks.len() == items.len() && forall|j: int|
            0 <= j < items.len() ==> holding_record_is(#[trigger] items[j], hs[picks[j]], master);
    assert forall|j: int| #![trigger items[j]] 0 <= j < items.len() implies exists|i: int|
        #![trigger hs[i]]
        0 <= i < hs.len() && latest_date(bs, hs[i].broker) == Some(hs[i].snapshot_date)
        && items[j].broker@ == hs[i].broker && items[j].snapshot_date@ == hs[i].snapshot_date
        && items[j].account_type@ == hs[i].account_type && items[j].stock_code@ == hs[i].stock_code
        && items[j].stock_name@ == hs[i].stock_name && items[j].quantity == hs[i].quantity
        && items[j].average_acquisition_price == hs[i].average_acquisition_price
        && items[j].current_price == hs[i].current_price && items[j].market_value == hs[i].market_value
        && items[j].profit_loss == hs[i].profit_loss && items[j].profit_loss_rate == hs[i].profit_loss_rate
        && (forall|a: int|
            #![trigger master[a]]
            0 <= a < master.len() && master[a].0 == hs[i].stock_code && (forall|b: int|
                0 <= b < master.len() && b != a ==> master[b].0 != master[a].0)
                ==> items[j].sector_33.deep_view() == master[a].2) by {
        let i = picks[j];
        assert(holding_record_is(items[j], hs[i], master));
        assert(latest_at(hs, bs)(i));
        assert forall|a: int|
            #![trigger master[a]]
            0 <= a < master.len() && master[a].0 == hs[i].stock_code && (forall|b: int|
                0 <= b < master.len() && b != a ==> master[b].0 != master[a].0)
                implies items[j].sector_33.deep_view() == master[a].2 by {
            lemma_master_sector_of_only_entry(master, a);
        }
    }
    assert forall|i: int|
        0 <= i < hs.len() && latest_date(bs, hs[i].broker) == Some(hs[i].snapshot_date) implies exists|
        j: int,
    |
        #![trigger items[j]]
        0 <= j < items.len() && items[j].broker@ == hs[i].broker && items[j].stock_code@
            == hs[i].stock_code && items[j].account_type@ == hs[i].account_type
            && items[j].current_price == hs[i].current_price && items[j].quantity == hs[i].quantity by {
        assert(latest_at(hs, bs)(i));
        assert(has_pick(picks, i));
        let j = choose|j: int| 0 <= j < picks.len() && #[trigger] picks[j] == i;
        assert(holding_record_is(items[j], hs[picks[j]], master));
    }
}

/// Each item of the stock list shows one stock-master entry with its own
/// code, name and sector, of a stock that some stored holding (of the
/// filtered broker) is of.
pub proof fn lemma_stock_list_shows_master_entries(
    items: Seq<crate::models::StockListItem>,
    hs: Seq<HoldingRowModel>,
    bs: Seq<BatchModel>,
    master: Seq<(Seq<char>, Seq<char>, Option<Seq<char>>)>,
    f: Option<Seq<char>>,
)
    requires
        stock_list_is(items, hs, bs, master, f),
    ensures
        forall|j: int|
            #![trigger items[j]]
            0 <= j < items.len() ==> exists|a: int|
                #![trigger master[a]]
                0 <= a < master.len() && items[j].stock_code@ == master[a].0 && items[j].stock_name@
                    == master[a].1 && items[j].sector_33.deep_view() == master[a].2 && exists|i: int|
                    #![trigger hs[i]]
                    0 <= i < hs.len() && hs[i].stock_code == master[a].0 && broker_matches(
                        hs[i].broker,
                        f,
                    ),
{
    let picks = choose|picks: Seq<int>|
        #[trigger] sorted_picks(picks, listed_at(hs, master, f), code_le_at(master), master.len() as int)
            && picks.len() == items.len() && forall|j: int|
            0 <= j < items.len() ==> {
                let it = #[trigger] items[j];
                let row = master[picks[j]];
                &&& it.stock_code@ == row.0
                &&& it.stock_name@ == row.1
                &&& it.sector_33.deep_view() == row.2
                &&& it.is_currently_held == holds_stock(hs, latest_broker_flags(hs, bs, f), row.0)
            };
    assert forall|j: int| #![trigger items[j]] 0 <= j < items.len() implies exists|a: int|
        #![trigger master[a]]
        0 <= a < master.len() && items[j].stock_code@ == master[a].0 && items[j].stock_name@
            == master[a].1 && items[j].sector_33.deep_view() == master[a].2 && exists|i: int|
            #![trigger hs[i]]
            0 <= i < hs.len() && hs[i].stock_code == master[a].0 && broker_matches(hs[i].broker, f) by {
        let a = picks[j];
        assert(listed_at(hs, master, f)(a));
        let sel = broker_flags(hs, f);
        assert(holds_stock(hs, sel, master[a].0));
        let i = choose|i: int| 0 <= i < hs.len() && sel[i] && #[trigger] hs[i].stock_code == master[a].0;
        assert(sel[i]);
        assert(master[a] == master[a]);
    }
}

/// A broker's latest snapshot date is the date of one of its batches, and no
/// batch of that broker is dated later (as text); a broker with no batch has
/// no latest date.
pub proof fn lemma_latest_date_is_latest(bs: Seq<BatchModel>, broker: Seq<char>)
    ensures
        latest_date(bs, broker) matches Some(d) ==> (exists|k: int|
            #![trigger bs[k]]
            0 <= k < bs.len() && bs[k].broker == broker && bs[k].snapshot_date == d) && (forall|k: int|
            #![trigger bs[k]]
            0 <= k < bs.len() && bs[k].broker == broker ==> !lex_lt(d, bs[k].snapshot_date)),
        latest_date(bs, broker) is None <==> (forall|k: int|
            #![trigger bs[k]]
            0 <= k < bs.len() ==> bs[k].broker != broker),
    decreases bs.len(),
{
    if bs.len() > 0 {
        let pre = bs.drop_last();
        lemma_latest_date_is_latest(pre, broker);
        let b = bs.last();
        assert(b == bs[bs.len() - 1]);
        assert forall|k: int| 0 <= k < pre.len() implies #[trigger] pre[k] == bs[k] by {}
        match latest_date(pre, broker) {
            Some(d) => {
                if b.broker == broker && lex_lt(d, b.snapshot_date) {
                    assert forall|k: int|
                        #![trigger bs[k]]
                        0 <= k < bs.len() && bs[k].broker == broker implies !lex_lt(
                        b.snapshot_date,
                        bs[k].snapshot_date,
                    ) by {
                        if k < bs.len() - 1 {
                            assert(pre[k] == bs[k]);
                            if lex_lt(b.snapshot_date, bs[k].snapshot_date) {
                                lemma_lex_transitive(d, b.snapshot_date, bs[k].snapshot_date);
                            }
                        } else {
                            lemma_lex_trichotomy(b.snapshot_date, b.snapshot_date);
                        }
                    }
                } else {
                    let k0 = choose|k: int|
                        #![trigger pre[k]]
                        0 <= k < pre.len() && pre[k].broker == broker && pre[k].snapshot_date == d;
                    assert(bs[k0] == pre[k0]);
                    assert forall|k: int|
                        #![trigger bs[k]]
                        0 <= k < bs.len() && bs[k].broker == broker implies !lex_lt(d, bs[k].snapshot_date) by {
                        if k < bs.len() - 1 {
                            assert(pre[k] == bs[k]);
                        }
                    }
                }
            },
            None => {
                if b.broker == broker {
                    assert forall|k: int|
                        #![trigger bs[k]]
                        0 <= k < bs.len() && bs[k].broker == broker implies !lex_lt(
                        b.snapshot_date,
                        bs[k].snapshot_date,
                    ) by {
                        if k < bs.len() - 1 {
                            assert(pre[k] == bs[k]);
                        } else {
                            lemma_lex_trichotomy(b.snapshot_date, b.snapshot_date);
                        }
                    }
                } else {
                    assert forall|k: int| #![trigger bs[k]] 0 <= k < bs.len() implies bs[k].broker != broker by {
                        if k < bs.len() - 1 {
                            assert(pre[k] == bs[k]);
                        }
                    }
                }
            },
        }
    }
}

/// The holdings list is ordered by stock code, and the stock list too.
pub proof fn lemma_lists_ordered_by_code(
    items: Seq<HoldingRecord>,
    stocks: Seq<crate::models::StockListItem>,
    hs: Seq<HoldingRowModel>,
    bs: Seq<BatchModel>,
    master: Seq<(Seq<char>, Seq<char>, Option<Seq<char>>)>,
    f: Option<Seq<char>>,
)
    requires
        latest_holdings_are(items, hs, bs, master),
        stock_list_is(stocks, hs, bs, master, f),
    ensures
        forall|j1: int, j2: int|
            0 <= j1 < j2 < items.len() ==> !lex_lt(#[trigger] items[j2].stock_code@, #[trigger] items[j1].stock_code@),
        forall|j1: int, j2: int|
            0 <= j1 < j2 < stocks.len() ==> !lex_lt(#[trigger] stocks[j2].stock_code@, #[trigger] stocks[j1].stock_code@),
{
    let picks = choose|picks: Seq<int>|
        #[trigger] sorted_picks(picks, latest_at(hs, bs), holding_le_at(hs), hs.len() as int)
            && picks.len() == items.len() && forall|j: int|
            0 <= j < items.len() ==> holding_record_is(#[trigger] items[j], hs[picks[j]], master);
    assert forall|j1: int, j2: int| 0 <= j1 < j2 < items.len() implies !lex_lt(
        #[trigger] items[j2].stock_code@,
        #[trigger] items[j1].stock_code@,
    ) by {
        assert(holding_record_is(items[j1], hs[picks[j1]], master));
        assert(holding_record_is(items[j2], hs[picks[j2]], master));
        assert(holding_le_at(hs)(picks[j1], picks[j2]));
        lemma_lex_trichotomy(hs[picks[j1]].stock_code, hs[picks[j2]].stock_code);
    }
    let sp = choose|picks: Seq<int>|
        #[trigger] sorted_picks(picks, listed_at(hs, master, f), code_le_at(master), master.len() as int)
            && picks.len() == stocks.len() && forall|j: int|
            0 <= j < stocks.len() ==> {
                let it = #[trigger] stocks[j];
                let row = master[picks[j]];
                &&& it.stock_code@ == row.0
                &&& it.stock_name@ == row.1
                &&& it.sector_33.deep_view() == row.2
                &&& it.is_currently_held == holds_stock(hs, latest_broker_flags(hs, bs, f), row.0)
            };
    assert forall|j1: int, j2: int| 0 <= j1 < j2 < stocks.len() implies !lex_lt(
        #[trigger] stocks[j2].stock_code@,
        #[trigger] stocks[j1].stock_code@,
    ) by {
        assert(code_le_at(master)(sp[j1], sp[j2]));
        lemma_lex_trichotomy(master[sp[j1]].0, master[sp[j2]].0);
    }
}

/// A stock-list item is marked held exactly when a holding of that stock is
/// in its broker's latest snapshot (of the filtered broker); every stock that
/// some holding (of the filtered broker) is of and that has a master entry is
/// listed.
pub proof fn lemma_stock_list_held_and_complete(
    items: Seq<crate::models::StockListItem>,
    hs: Seq<HoldingRowModel>,
    bs: Seq<BatchModel>,
    master: Seq<(Seq<char>, Seq<char>, Option<Seq<char>>)>,
    f: Option<Seq<char>>,
)
    requires
        stock_list_is(items, hs, bs, master, f),
    ensures
        forall|j: int|
            0 <= j < items.len() ==> ((#[trigger] items[j]).is_currently_held <==> exists|i: int|
                #![trigger hs[i]]
                0 <= i < hs.len() && hs[i].stock_code == items[j].stock_code@ && latest_date(
                    bs,
                    hs[i].broker,
                ) == Some(hs[i].snapshot_date) && broker_matches(hs[i].broker, f)),
        forall|a: int, i: int|
            0 <= a < master.len() && 0 <= i < hs.len() && (#[trigger] hs[i]).stock_code == (
            #[trigger] master[a]).0 && broker_matches(hs[i].broker, f) ==> exists|j: int|
                #![trigger items[j]]
                0 <= j < items.len() && items[j].stock_code@ == master[a].0,
{
    let picks = choose|picks: Seq<int>|
        #[trigger] sorted_picks(picks, listed_at(hs, master, f), code_le_at(master), master.len() as int)
            && picks.len() == items.len() && forall|j: int|
            0 <= j < items.len() ==> {
                let it = #[trigger] items[j];
                let row = master[picks[j]];
                &&& it.stock_code@ == row.0
                &&& it.stock_name@ == row.1
                &&& it.sector_33.deep_view() == row.2
                &&& it.is_currently_held == holds_stock(hs, latest_broker_flags(hs, bs, f), row.0)
            };
    assert forall|j: int| 0 <= j < items.len() implies ((#[trigger] items[j]).is_currently_held <==> exists|
        i: int,
    |
        #![trigger hs[i]]
        0 <= i < hs.len() && hs[i].stock_code == items[j].stock_code@ && latest_date(bs, hs[i].broker)
            == Some(hs[i].snapshot_date) && broker_matches(hs[i].broker, f)) by {
        let sel = latest_broker_flags(hs, bs, f);
        if items[j].is_currently_held {
            let i = choose|i: int| 0 <= i < hs.len() && sel[i] && #[trigger] hs[i].stock_code == master[picks[j]].0;
            assert(sel[i]);
        }
        if exists|i: int|
            #![trigger hs[i]]
            0 <= i < hs.len() && hs[i].stock_code == items[j].stock_code@ && latest_date(bs, hs[i].broker)
                == Some(hs[i].snapshot_date) && broker_matches(hs[i].broker, f) {
            let i = choose|i: int|
                #![trigger hs[i]]
                0 <= i < hs.len() && hs[i].stock_code == items[j].stock_code@ && latest_date(
                    bs,
                    hs[i].broker,
                ) == Some(hs[i].snapshot_date) && broker_matches(hs[i].broker, f);
            assert(sel[i]);
            assert(holds_stock(hs, sel, master[picks[j]].0));
        }
    }
    assert forall|a: int, i: int|
        0 <= a < master.len() && 0 <= i < hs.len() && (#[trigger] hs[i]).stock_code == (
        #[trigger] master[a]).0 && broker_matches(hs[i].broker, f) implies exists|j: int|
        #![trigger items[j]]
        0 <= j < items.len() && items[j].stock_code@ == master[a].0 by {
        let sel = broker_flags(hs, f);
        assert(sel[i]);
        assert(holds_stock(hs, sel, master[a].0));
        assert(listed_at(hs, master, f)(a));
        assert(has_pick(picks, a));
        let j = choose|j: int| 0 <= j < picks.len() && #[trigger] picks[j] == a;
        assert(items[j].stock_code@ == master[picks[j]].0);
    }
}

} // verus!
