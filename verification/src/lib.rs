//! Holdings, trade-history and realized-profit CSV import for a personal
//! stock portfolio manager, with the aggregation that the screens show.

pub mod amount;
pub mod broker_profile;
pub mod csv_import;
pub mod date;
pub mod import_routing;
pub mod lexical;
pub mod models;
pub mod portfolio;
pub mod realized_pnl_import;
pub mod records;
pub mod storage;
pub mod text;
pub mod trade_analysis;
pub mod trade_import;

use vstd::prelude::*;

verus! {

} // verus!
