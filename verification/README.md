# layerstack

A composition kernel for layered scene description, verified with Verus.

A stage composes the opinions of many layers on prims and properties. This
library holds the parts of that work that decide: the node graph of a prim and
its strength order, relocation tables, variant fallbacks, spec paths, variable
expressions, schemas, the resolution of values, lists, dictionaries and sparse
arrays, explanations of resolved values, and the flattening of a stage into one
layer together with the check that a flattened layer composes the same.

- `src/` is the library. Every function has a contract over the mathematical
  values of its arguments; the laws that relate functions are the public proof
  functions named `law_*`.
- `tests/` runs it.
- `app/` does the floating-point arithmetic on times and values, which the
  library is handed: it runs and explains queries at times, flattens stages and
  compares flattened ones. It gives errors and mismatches as
  texts.

Numbers are held by their bits. Times map between layers and the stage through
a `TimeTable`, which lists each time that a query reads.
