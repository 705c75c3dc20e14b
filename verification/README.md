# pygxml

Path queries over XML documents, which are read as a stream of events, with
machine-checked contracts. `store.book.#(price>=30)#.title` reads as: in `store`,
of all `book` elements whose `price` is at least 30, every `title`.

- `src/` is the library. What a path text means is defined in `grammar.rs`, what
  a compiled path selects in `semantics.rs`, and what several paths select in one
  pass in `lockstep.rs`; the executable modules are proved against these
  definitions. The files whose names end in `laws.rs` state what holds of all
  documents and paths.
- XML is read with `quick-xml`. Which events a document has is the parser's
  business: the contracts speak of the sequence of its events.
- Numbers are floating point and stay outside of the library. Where a query has
  to compare numbers, the caller tells it, in `number::Readings`, which number a
  numeral stands for; a query that needs more says so (`NumbersNeeded`,
  `TotalNeeded`) and is asked again.
- `app/` is the Python module around the library.
- `tests/` run the library on concrete documents.
