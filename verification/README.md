# quant_research_framework_rs

A backtesting and research framework whose integer, index and string logic
is proved with Verus.

- `src/` is the verified library: stable time ordering, signal parsing and
  the per-bar position decision, session and funding clocks, look-back and
  walk-forward windows, seeded permutations and bootstrap draws, funding,
  open-interest and scheduler logic for carry strategies, pair enumeration
  and refit schedules, robustness scenarios, route dispatch and the
  multiple-testing rejection rules, and the text handling of the loaders
  (comma fields, column lookup, decimal integers), and the timestamped
  CSV tables the carry loaders read from a file's bytes.
- `tests/` exercises the library on concrete values.
- `app/` is the program around it: CSV loading, the floating-point
  backtest, indicators, metrics and statistics, and printing.
