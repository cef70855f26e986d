# sbpl_pso

Smoothly broken power law (SBPL) fitting of multi-band light curves, verified with
Verus.

## Model

```
F(t, nu) = 10^loga * (nu/1e15)^beta * tau^alpha1 * [0.5 * (1 + tau^(1/D))]^((alpha2 - alpha1) * D)
```

where `tau = (t - t0) / tb` and `D = 10^logd`. All bands with a known effective
frequency (g, r, i, z, y, u and their ZTF and LSST names) are fitted together, by a
particle swarm search with several restarts, each polished by a local minimiser.

## Layout

* `src/` is the verified library. `src/lib.rs` lists its modules from the bottom up.
* `tests/` runs the library with native floating point, random numbers and an L-BFGS
  minimiser plugged in.
* `app/` is ordinary Rust around the library: files, threads, devices, the Python
  module.

## Numbers

The library holds binary64 numbers as bit patterns (`Binary64`). Comparison, addition,
subtraction, multiplication and division are integer computations, proved to be the
exact results rounded to nearest, ties to even. Five elementary functions (`ln`, `exp`,
`pow`, `log10`, `sqrt`), the reading of decimal numerals, random draws, the local
minimiser and the scoring of a batch are arguments: what a function returns is stated
over what these arguments answer.

## What is stated

* `prepare_source`: which observations are used, how they are normalised, the search
  bounds, and when there is too little data.
* `SbplCost`: the reduced chi-squared and its gradient, and where they fail.
* `pso_search`, `lbfgs_refine`, `assemble_result`, `fit_prepared`, `fit_sbpl`: the exact
  outcome, as a function of the source, the configuration and the arguments above. A
  search needs a particle and lower bounds below the upper ones; `can_fit` tells.
* `batch_pso_restarts`, `batch_fit`: the outcome given the scores of the evaluator.
* `load_csv`: the observations of a table, row by row, and each error.

Laws that relate several functions are public proof functions whose names begin with
`law_`. Among them:

* More sweeps of a search report the same cost or a lower one, and always the cost of
  the position they report. Every coordinate of that position is within its bounds or,
  where the bounds are near the limits of the number range, possibly not-a-number.
  Between bounds of magnitude 2^1018 at most it is a number, and so are the reported
  parameters of a whole fit, up to the rounding of the upper bound. The same holds of a
  batch fit, whatever its evaluator answers; the onset is then within 2^-22 day.
* On the default bounds a source that is ready to fit has room to search, however short
  its light curve, as long as 1% of its span is below 10 000 days.
* Polishing keeps or improves.
* Measuring all fluxes in a unit that is a power of two away changes nothing in a
  prepared source but the largest flux.
* The objective is as near to the reduced chi-squared of the model as its sum of
  logarithms is to the model's product of powers.
* Restarts side by side end where separate passes end, whatever else is in the batch, as
  long as the evaluator scores each particle by its own source.
* Reports line up with inputs.

Two functions are taken on trust, both in `src/table.rs`: they read a table with the
`csv` crate.
