# kabu_manager

A personal stock-portfolio manager for SBI証券 and e-smart証券 accounts. It
imports the brokers' CSV exports (holdings snapshots, trade histories and
SBI's realized-profit statements) into SQLite and aggregates them for the
screens: latest holdings, asset history, per-stock history, composition and
the trade analysis (realized profit, win count, monthly totals with a running
total, per-stock ranking, recent trades).

## Layout

- `src/` — the verified library (Verus). Decoding and parsing of the three
  CSV kinds, the choice of importer and of a snapshot's date, the keys that
  keep re-imported rows from being stored twice, the stock-master merge rule,
  the import summaries, every screen's aggregation (holdings list, asset and
  per-stock history, composition, stock list, import history) and the
  trade analysis. Amounts are exact decimals (`Amount`, millionths); dates
  are `CalendarDate`s.
  - `text`, `lexical`, `amount`, `date`: characters, text order, decimal
    amounts, calendar dates.
  - `records`, `broker_profile`, `csv_import`, `trade_import`,
    `realized_pnl_import`: CSV rows, header lookup and the three parsers.
  - `import_routing`: which importer a file goes to; the snapshot date.
  - `storage`: stock-master merge, deduplication keys, import summaries.
  - `portfolio`: the holdings screens.
  - `trade_analysis`: the trade-analysis screen.
  - `models`: the types shared by all of them.
- `tests/` — tests of the library on concrete files and rows.
- `app/` — the command-line program: file and database I/O (rusqlite) and
  serializable copies of the result types.

The calls into `chrono`, `csv`, `encoding_rs` and `regex` stand behind small
trusted wrappers in `src/` whose contracts say what those crates return.
