# tileforge-draco

Grid arithmetic and argument checks for a Draco encoder that keeps
neighbouring tiles on one lattice, proved with Verus.

- `src/` is the verified library. Floating-point values travel as their
  binary32 bit patterns (`Binary32`) and are reasoned about exactly, in
  multiples of 2^-149.
  - `binary32`: the value model, `is_power_of_two`, `power_of_two_at_most`.
  - `grid`: `Quantization`, `snap_positions`, and the native grid's domain.
  - `mesh`: attribute kinds, `prepare_encode`, the check every mesh passes
    before the native encoder sees it.
  - `decode`: how native statuses and attribute queries are read.
  - `error`, `text`, `search`: the error type, decimal rendering, and the
    "first failing element" that every in-order check reports.
- `app/` makes the foreign calls into the C entry point over Google Draco,
  which needs `unsafe` and a linked Draco build.
- `tests/` runs the library on concrete values.
