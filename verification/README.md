# structio core, verified

The verified core of a JSON/BEVE serialisation library, written in Verus.

- `OrderedMap` (`src/map.rs`, `src/table.rs`, `src/iter.rs`, `src/entry.rs`,
  `src/eq.rs`, `src/sort.rs`): a map from `String` keys that keeps insertion
  order. Small maps scan; large ones keep a robin hood bucket table, whose
  invariant is the map's type invariant. The view of a map is the sequence of
  its entries, and every operation is specified over it.
- `json::Raw` (`src/json/raw.rs`): one JSON value kept as the text that spelled
  it. `json::walk` states the grammar the check holds a text to, error codes
  and offsets included, and walks it; `json::window` proves that a value's
  walk reads only its own bytes. `json::read_span` reads one value out of a
  longer document from a cursor.
- `emit` (`src/emit.rs`): which declaration macro describes a derived type,
  and the message for a tuple struct declared as an object.
- `declare` (`src/declare.rs`): the declaration a derived type expands to,
  built token by token from a plain description of the type (its fields or
  variants, their attributes, its generics and container attributes), with
  each refusal the derive answers with. Turning the compiler's token stream
  into that description, and the tokens back into one, is the procedural
  macro's own business and is not here.
- `laws` (`src/laws.rs`): what the map's operations promise of one another.

`tests/` runs the library on concrete values.
