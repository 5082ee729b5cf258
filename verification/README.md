# rpl_driver

The verified core of the RPL lint driver.

- `src/mixed_radix.rs`: numbering of index tuples in odometer order
  (`product`, `rank`, `digits`, `odometer_step`) and its lemmas.
- `src/cartesian.rs`: `cartesian` and `CartesianIter`, the lazy cartesian
  product of the operation-instance factors, specified by its view (the
  combinations still to come), with the laws of the product.
- `src/lints.rs`: the emission order of pending lints (a stable sort by
  function and pattern item), the removal of lints whose key repeats that of
  a lint kept before them, and the choice of lint root among the primary
  labels.
- `src/patterns.rs`: which items and functions the CVE detectors look into.
- `app/`: the compiler-facing code (rustc callbacks, the matching session,
  the detectors' MIR patterns and diagnostics), which calls the library.
- `tests/`: tests of the library.
