# machine-napkin-numbers

Hardware latency micro-benchmarks ("latency numbers every programmer should
know", measured on the machine at hand), with the logic around the timing
verified in Verus.

- `src/` is the verified library: the decimal and binary-unit text of the
  report (`decimal`, `rounding`, `machine`, `layout`), the sample summary
  and the results table (`harness`), the random single-cycle pointer chase,
  the cache-size boundary grouping, the timed integer kernels and the disk
  read positions (`benches`), and the random choices through `rand`
  (`random`).
- `app/` is the program: it runs and times the benchmarks, calls `sysctl`,
  does the floating-point arithmetic of the report, and prints.
- `tests/` runs the library, including comparisons with Rust's own float
  formatting, integer parsing and padding.
