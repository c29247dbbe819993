# rust_exercises

A set of small programs — a calculator, a guessing game, a lending
library, a catalogue, a supermarket's shelving, a line editor, sorting,
a stack and a grocery warehouse — written as a Verus library whose
operations are proved against their contracts.

Layout:

- `src/` — the verified library. Each module states its behaviour over
  mathematical models (`Seq`, `Map`, `Set`) and Verus proves the code:
  - `text` — trimming, splitting and integer syntax on characters;
  - `calculator`, `array_mutation`, `sorting`, `stack`, `guessing`;
  - `book_shelf` (copies and loans), `catalog` (items and their indexes);
  - `supermarket` (rows, shelves and zones, and the command reader);
  - `string_edit` (edits at byte offsets, case mapping, Vigenère cipher);
  - `index` (ordered multi-indexes);
  - `warehouse` (coordinates, free-place map, store, allocation
    strategies and input checks).
- `tests/` — runtime tests of the library.
- `app/` — the terminal programs around the library: input, output, files
  and JSON, and the floating-point parts (shapes, prices, dimensions).

Floating-point values never enter the library: prices and dimensions are
carried as IEEE-754 bit patterns, and dates as Julian day numbers.

Design notes:

- Indexes. The warehouse's three indexes (by name, by identifier, by
  expiry date) and the catalogue's maps are all `index::SortedIndex`: a
  vector of entries in ascending key order, viewed as a `Map` from a key to
  the list filed under it, with the invariant that keys are ascending and
  no list is empty. vstd specifies `BTreeMap` and `HashMap` only for key
  types whose comparison or hashing it knows to be lawful: integers, not
  `String`. It specifies none of `entry`, `get_mut` or `range`, which the
  indexes need (push onto a key's list, drop a key whose list empties,
  walk the dates from a bound). One type gives the three warehouse indexes
  one invariant, the one the store's proofs rest on. A catalogue item's
  keywords are a `Vec<String>` kept free of repeats, for the same reason.
- Free places. `FreeMap` numbers the places of the store row-major,
  `(row * m + shelf) * m + zone`, and keeps the free numbers as merged
  `u64` ranges in a `rangemap` set. Its operations therefore take places
  inside the cube of side `m`, and a store whose `m * m * m` fits in a
  `u64`; inside the cube the numbering orders places exactly as the
  coordinates compare.
- Entry times are nanoseconds since the Unix epoch (`i128`), in the range
  `time::UtcDateTime` holds; their text is the one `time` displays.
