# realistic

Exact and computable real arithmetic, with every operation stated and
proved in Verus.

A `Real` is a rational factor times a class (one, π, e to a rational
power, a logarithm, a square root, a sine or tangent of a rational multiple
of π, or an irrational computable number). Rationals stay exact; everything
else is carried as a `Computable` expression that can be approximated to
any precision and written out in decimal.

## Layout

- `src/natural.rs` — big naturals and integers over base 2^32 digits, with
  the arithmetic done by `num`'s `BigUint` behind small trusted functions.
- `src/rational.rs`, `src/rational/` — rationals in lowest terms, their
  conversions from machine integers and floating-point bits, and their text.
- `src/computable.rs`, `src/computable/` — computable numbers: exact
  evaluation of rational expressions, fixed-point approximation, and decimal
  formatting (`decimal.rs` holds the arithmetic of decimal digits).
- `src/reals.rs`, `src/reals/` — the `Real` type: arithmetic, functions
  (square root, exponential, logarithms, trigonometry), powers and text.
- `src/simple.rs`, `src/simple/grammar.rs` — a prefix-notation expression
  language, `(+ 1 (* 2 3))`, with its grammar stated character by character
  and its evaluation stated operator by operator.
- `src/laws.rs` — properties that relate several operations.
- `tests/` — tests of the library from outside.
- `app/` — what stays outside the verified library: JSON and CBOR
  serialisation, floating-point conversion, and `std::fmt` adapters.
