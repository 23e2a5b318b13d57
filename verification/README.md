# photensor_sim

Layout bookkeeping for a photonic MZI-mesh simulator, written in Verus.

* `src/gds/model.rs` — plain-value model of a GDSII library (cells, structure
  and array references, text labels). Angles, magnifications and unit sizes
  are kept as the bit patterns of their doubles.
* `src/gds/flatten.rs` — array expansion and the `Flattener`, a resumable
  walk over the cell hierarchy. It decides traversal order, the depth cap and
  the cycle guard (a cell already on the current path with the same
  transform is not entered again), and asks its driver for each composed transform and each
  transformed label origin (floating-point work).
* `src/gds/traversal.rs` — the walk's result stated as a recursive
  depth-first traversal, with the laws that a driver answering every request
  collects exactly that traversal, and that the walk always ends.
* `src/gds/loader.rs` — choosing a layout's top cell.
* `src/mzi_array/engine.rs` — mesh order of the MZI placements, electrode
  numbering, port labels sorted by numeric suffix, and the mapping from
  electrodes to Clements-mesh phase shifters.
* `src/order.rs`, `src/text.rs` — stable ordering and character helpers.
* `app/` — reading GDSII files with `oxiphoton`, the floating-point transform
  arithmetic that drives the `Flattener`, and the mesh's optical operations.

Sets are kept as vectors with linear scans (the referenced-name search in
`loader.rs`): vstd's `HashSet` specification gives no usable contract for
`String` keys, so a vector with its stated invariant is used instead.

Everything under `src/` is verified; `tests/` exercise the library on concrete layouts.
