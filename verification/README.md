# zjit

The bookkeeping of a just-in-time compiler for Ruby, written in Rust and verified with Verus:
code pages, side-exit descriptors, background compilation, type profiles, bit sets, a hasher, a
minimal intermediate representation, and an allocator that recycles small blocks.

* `src/` is the library. Its functions state what they do in contracts, and Verus proves them. What
  holds of the library as a whole stands there too, as proof functions whose names begin with
  `law_`.
* `tests/` runs the library on concrete values.
* `app/` ties the library to the Ruby VM and to the operating system: the global allocator, the
  compile thread, the memory that code runs from, the exit handler, the records of side exits and a
  sampling profiler. It carries out what the library decides.

Four functions of the standard library are taken on trust: `Vec::capacity` and
`Vec::reserve_exact`, in `src/growth.rs`, the conversion of a value to its own type, in
`src/bitset.rs`, and `u64::from_ne_bytes`, in `src/fasthash.rs`.
