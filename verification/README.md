# Verified decimal multiplication

Multiplication of 96-bit decimal numbers (a mantissa of three 32-bit words, a sign and a scale of
at most 28), proved with Verus. The product is exact where it fits; otherwise it is rounded half
to even, dropping the fewest digits that bring the mantissa within 96 bits and the scale within
28, or it overflows.

Layout of `src/`:

- `decimal.rs`: the `Decimal` representation, its flags word, and `CalculationResult`.
- `digits.rs`: powers of ten and the number of decimal digits of an integer.
- `divisor.rs`: division by invariant 64-bit and 128-bit divisors through precomputed
  reciprocals, and the tables for the powers of ten.
- `mul.rs`: the multiplication, its rescaling and rounding, and the specification they meet.
- `laws.rs`: properties of the multiplication as a whole (commutativity, zero, one, exactness,
  sign, rounding error, precision kept, overflow).

The tests under `tests/` compare the multiplication with an exact big-integer model over a large
sample of inputs, and check concrete values.
