# geosearch

The core of a geosearch engine for one country: documents are read from comma-separated values,
kept in one file of rows, and found by text, by the beginning of a text, or by nearness to a point.

- `src/` is the library, verified with Verus. It holds the formats of the files, the indexes, the
  searches and their ranking, the configuration of a country, and the requests and responses of the
  web service. What holds of the whole stands in files of its own: of an index in `local_laws.rs`,
  of one that is read and written again in `reindex_laws.rs`, of the rows that a search reads in
  `reading_laws.rs`, of its hits in `search_laws.rs`, and of the batches of an ingestion in
  `ingest_laws.rs`.
- `app/` is what touches files, sockets and floating-point arithmetic.
- `tests/` runs the library.

A number with a fraction is held in the library as its IEEE 754 bit pattern (`float.rs`), which
orders as the number does. Distances and scores are computed, and numerals read and written, in
`app/numbers.rs`; the library takes the results as arguments.

An index directory holds four files:

- `docs.tsv`: one escaped row for each document, in the order of their identifiers;
- `terms.tsv`: for each term the byte offsets of the rows that have it;
- `cells.tsv`: for each cell of the grid the byte offsets of the rows in it;
- `schema.txt`: the country, the languages and the layers.
