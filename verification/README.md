# signal_processing

Building blocks for digital signal processing, verified with Verus.

`src/` is the verified library:

- `quantities`: containers of samples seen as rows (lists, lists of lists,
  arrays, matrices), with resizing, padding to a rectangle, transposition and
  row-wise mapping; polynomials with exact integer coefficients (product,
  difference, power, evaluation, equality up to leading zeros, long division);
  sequences of factors.
- `operations`: direct convolution, filtering through a rational transfer
  function (direct form II, one or several numerator rows, with the state
  sized to the filter and carried between calls) and forward-backward
  (zero-phase) filtering, down- and upsampling, interleaving of sample
  blocks, the sample bookkeeping of interpolation, Savitzky-Golay smoothing,
  the normal form of a state-space system and the quantisation levels of
  encoded samples. Filtering divides the feedback coefficients, and
  zero-phase filtering the steady-state gain, only where the division is
  exact, so the integer filter is the rational one. Filtering, zero-phase
  filtering, smoothing, convolution and polynomial powers also come in
  checked forms that return `None` where a division is not exact or a value
  would not fit in an `i64`.
- `generators`: the matrices of the discrete sine transforms, each entry
  given exactly by integers, and the range of a sampled window.
- `identification`: the ways a frequency-response fit can be solved.
- `arith`: the mathematics the contracts are written in (evaluation of
  coefficient sequences, convolution sums) and the lemmas about it.

`app/` holds what is not verified: floating-point evaluation of the sine
transform matrices, encoding of floating-point samples, evenly spaced
floating-point lists, conversions to `ndarray` arrays, plotting with
`plotters`, and an error type with `std::error::Error`.

`tests/` runs the library on concrete values.
