# sais_rs

Suffix arrays (SA-IS), Burrows–Wheeler transform and its inverse for byte
texts, in libsais's output layout, as a Verus-verified library.

## What is proved

* `suffix_array*` return the suffix array of the text: every position once,
  in increasing suffix order (the end of the text sorts first). The suffix
  array of a text is unique, so the serial and parallel entry points and the
  `i32`/`i64` index types all give the same array.
* `bwt*` return the BWT read off that suffix array: `bwt[0]` is the last
  byte, the primary index is the row of the whole text plus one, in `[1, n]`.
* `unbwt*` invert it: for the BWT of any text, the LF walk never meets the
  sentinel early and spells the text back, so two texts with the same BWT
  and primary index are the same text. `unbwt_walk_ok` tells beforehand
  whether a given pair can be read back.
* The induced-sort passes, serial and block-structured, produce the same
  sorted buckets; matching LMS substrings (closing symbol included) get one
  name, and recursing on the names keeps the suffix order.

## Layout

* `src/suffix.rs`, `order.rs`, `layout.rs`: suffix order, L/S types, bucket
  geometry.
* `src/l_pass.rs`, `s_pass.rs`: the states of the two induction passes.
* `src/induce.rs`, `place.rs`, `keys.rs`, `lms.rs`, `sa.rs`: the SA-IS
  algorithm and the orders its rounds establish.
* `src/bwt.rs`, `unbwt.rs`, `roundtrip.rs`: BWT, inverse BWT, and why they
  invert each other.
* `app/`: rayon thread pools for the parallel entry points, an error type
  with `Display`, and wrappers around the C library used as a reference.
