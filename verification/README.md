# topolsea

The verified core of the Topolsea vector database: the parts of the engine
that are integer, structural or textual logic, each with a contract proved
by Verus.

## Layout

- `src/` — the library:
  - `text` — decimal rendering and reading of integers, colon splitting.
  - `strmap` — an insertion-ordered map from strings to values with
    distinct keys, viewed as a `Map`.
  - `json` — the JSON documents that metadata and filters are made of,
    their equality, text, index keys and deep copy, with the law that
    equal index keys mean equal values for the values whose keys are exact.
  - `filter` — the metadata filter language: parsing, evaluation, writing
    back, and the law that what is written reads back as the same filter
    (for every filter that parsing gives, except one holding an equality
    against an object, which is written as an operator object).
  - `bitmap` — the id sets of the index, held in `roaring::RoaringBitmap`.
  - `inverted`, `store` — the payload inverted index and the metadata store,
    with their laws (what an upsert or a remove leaves in the index; the
    two id maps stay inverse to each other; the index stays the index of
    the stored documents, and an eligible set it answers is exactly the
    stored ids whose documents match, for filters comparing null, boolean,
    string or integer values or arrays and objects of them, over documents
    of any values held in canonical form: numbers as JSON text reads them,
    object members in key order, at any depth).
  - `grid`, `column`, `quant`, `compact`, `colmap`, `routing` — fractal
    cell keys, columns, quantization tiers and payload byte layout, the
    compaction passes (collapse, promote, demote and split each keep every
    id, each once), where vectors land
    in and leave the column map, and shard routing.
  - `beam` — the bookkeeping of the column beam search: which candidates a
    column admits under the touch budget, and where the walk goes after a
    frontier (descend, revert along the trail, or stop).
  - `ivf` — the buckets of an inverted-file index with their id-to-slot
    table.
  - `observe`, `explain`, `hnsw`, `bench`, `types` — metrics text, query
    audit trail, graph node layers and entry point, benchmark settings,
    ids.
- `tests/` — tests of the library from outside.
- `app/` — the service-side shell: `serde_json` conversion, serde copies of
  library types, metrics behind a lock, and the floating-point parts: the
  distance kernels, the exact, inverted-file, graph and column indexes, and
  for the column index the projection, grid geometry, access ledgers,
  quantization, beam search and compaction pass, which drive the verified
  logic.
