# pipnn

Verified building blocks of a PiPNN-style graph builder for approximate nearest-neighbour search:
leaves of a partition are turned into nearest-neighbour edges, the edges of all leaves are merged
and pruned, and the graph is searched, saved and encoded.

- `src/` is the library. Every item is checked by Verus against its contract.
- `tests/` runs the library on concrete inputs.
- `app/` holds what needs floating point, files, threads or the processor.

Numbers are carried as their binary32 encodings (`number`), whose comparisons are exact. The five
elementary operations are supplied by the caller (`arith`), and formulas are stated over them, so
that everything proved holds for any arithmetic that gives one answer per question.

One function is trusted: `medoid::choose_multiple`, which draws a sample with the `rand` crate.
