# compiler_rs

A semantic kernel for time-series analysis: it turns a single series or a group of related
series into ranked events (spike, drop, trends, oscillation, sustained high/low, regime shift,
peer imbalance), a canonical record, and one compact description string for language models.

## Layout

- `src/`: the verified library, written in Verus.
  - `normalize`: which samples a series keeps, their offsets, interval and window.
  - `segment`: minimum segment length, regime spans between changepoints, PAA bounds.
  - `signals`: runs of flagged points, direction flips, dwell spans, group member merging.
  - `events`: stable ranking, one event per kind, state, evidence, peer ranks.
  - `payload`: the projection of an analysis to its description.
  - `regression`: tallies of regression cases and their text report.
  - `schema`, `policy`, `features`, `text`, `sorting`, `clock`: enums and wire names, JSON
    escaping, policy defaults, duration and number rendering, and UTC readings and RFC 3339
    parsing through the `time` crate.
- `tests/`: tests of the library on concrete values.
- `app/`: the command line, JSON and fixture I/O, and the floating-point statistics and signal
  detectors, which call into the library for everything above.

## Notes

- `dedup_events` keeps the event of each kind in a `HashMap` keyed by the kind's priority, as
  an integer key whose map contents the standard specifications describe. Scores are compared
  through their total-order keys exactly as floating-point `>` compares the scores (NaN never
  greater, negative zero equal to zero). The kept events come out in priority order; their
  order does not matter to the ranking that follows, which orders events of distinct kinds
  completely.
- `member_span` asks for at least one member event: a group event is only built for a kind that
  some member event has.
