# libm

The bit-level core of a C math library subset, verified with Verus.

A float is held by its IEEE 754 encoding (`Binary32`, `Binary64`); contracts read
the sign, exponent and fraction out of the encoding and state the value of a finite
number as an integer count of the format's smallest subnormal (`units`).

- `src/support/` — floating-point status flags and rounding modes (`env`), the
  integer traits and their impls for every primitive integer width (`int_traits`,
  `int_impls`), the `Float` trait over the two formats (`float_traits`), and exact
  widening / round-to-nearest-even narrowing between them (`float_convert`).
- `src/generic/` — `ceil`, `floor`, `trunc`, `round`, `rint` (in every rounding
  mode, with the inexact flag), `fabs` and `copysign`, each proved against an
  integer rounding of `units`.
- `src/libm_helper.rs` — the `Libm<T>` helper with one method per operation.
- `app/` — the `f32` / `f64` entry points, which convert to and from encodings,
  and the transcendental functions, whose logic is floating-point arithmetic.

The tests under `tests/` compare the library with the hardware's own conversions
and roundings.
