# jsshaker

The value domain of a JavaScript tree shaker, verified with Verus: what the
analysis knows about literals, primitives, objects, arrays and functions,
how using them is recorded as requests to the analyzer, and the
bookkeeping around it (dependency collectors, the function cache keys and
statistics, option presets, in-memory module file systems).

Layout:

- `src/` is the verified library. Each type carries a view over
  mathematical values (`Seq`, `Map`, `int`), and each operation states in its
  contract what it returns and which requests it makes of the analyzer.
  Properties that relate several operations are public proof functions whose
  names start with `law_` (reading an object's property gives what was
  defined or written there, a deleted property reads as `undefined`, an
  element pushed onto an array reads back, lexical normalization of a
  path's component list is idempotent (stated over components, not over
  path strings), parsing a decimal text gives the number back, and more).
- `tests/` runs the library on concrete values.
- `app/` holds what the library does not: file system access, printing of
  the cache statistics, and the conversions that rest on floating point
  numbers.
