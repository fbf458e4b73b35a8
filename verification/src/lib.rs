//! Verified core of a quantitative research and backtesting framework.
//!
//! The modules hold the parts of a backtest that are decisions on integers,
//! indices and strings: stable time ordering of rows, signal parsing and the
//! per-bar position decision, session and funding clocks, walk-forward and
//! look-back windows, seeded permutations and bootstrap draws, the funding
//! and open-interest stream checks, the event-driven rebalance scheduler,
//! pair enumeration and refit schedules, the robustness scenarios, the
//! route dispatch, the multiple-testing rejection rules, and the parsing
//! of the carry loaders' CSV files into timestamped rows.  Prices,
//! returns and statistics are floating point and stay with the callers.

pub mod carry;
pub mod ordering;
pub mod sampling;
pub mod signals;
pub mod windows;
pub mod orchestrator;
pub mod monte_carlo;
pub mod pairs;
pub mod robustness;
pub mod lookahead;
pub mod money;
pub mod multitest;
pub mod fields;
pub mod csv_table;
