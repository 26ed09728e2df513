# pleat

Ribbon filters with pleated construction, verified with Verus.

A ribbon filter is an approximate set of 64-bit keys. `filter::Ribbon<R>` is the homogeneous
filter and `filter::StdRibbon<R>` the standard one. That they never answer falsely for a key in the
set is proved. For other keys they are meant to answer falsely about once in `2^R` times; this is
not proved, but measured in `tests/filters.rs`.

```rust
use pleat::filter::RibbonFilter;

let filter = RibbonFilter::from_keys_pleated(&[10, 20, 30]);
assert!(filter.contains(20));
let restored = RibbonFilter::from_bytes(&filter.to_bytes()).unwrap();
```

## Layout

- `src/linear.rs`: banded linear systems over bits, and why the order of equations does not matter.
- `src/banding.rs`, `src/banding128.rs`: banding, back-substitution and queries.
- `src/interleave.rs`: how a solution is stored, word by word.
- `src/plan.rs`: pleating. `src/ranges.rs`, `src/parallel.rs`, `src/parallel128.rs`: construction by
  ranges of slots.
- `src/filter.rs`, `src/std_ribbon.rs`: the filters. `src/format.rs`: their envelope.
- `src/key.rs`: hashing keys of other types, with the `xxhash-rust` crate.
- `app/`: threads, floating point and error traits around the library.
