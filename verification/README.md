# bote

Random access into a large JSON document that is read one chunk at a time. A document
is never parsed or held as a whole: a query for a path, a count of children or a
stream over a container reads just the chunks it walks, and a bounded structural index
remembers the containers that were walked so that later queries start near their
target.

The library is written in Verus. Every executable function carries a contract, and the
contracts speak of the document as a plain sequence of bytes: what a function returns
over a window of chunks holds for every document that agrees with those chunks.

## Layout

- `src/` is the verified library.
  - `bits`, `scan`, `simd`, `bitmap`: byte classes, string and nesting state, and the
    64-byte block scans that compute it.
  - `source`, `chunks`: sources, chunk windows, and the reads of a burst.
  - `walker`, `keys`, `path`, `resolve`, `count`: restartable scans over a window.
  - `cache`, `index_cache`: the structural index and the frontier cache.
  - `select`, `session`, `query`, `eval`, `stream`, `cursor`: what can be asked, step
    by step, with the reads left to whoever drives it.
  - `pointer`, `predicate`: JSON pointers and predicates over a child.
  - `soundness`, `index_laws`, `answers`, `history`, `children`, `resuming`,
    `projection`, `items`: what holds across operations, proved. The index changes no
    answer, whatever was asked before; a lookup asks for no chunk past the value it leads
    to; iterating, indexing and counting agree; a scan can start at any child; batches are
    the items of a container cut into pieces.
- `tests/` runs the library on concrete documents.
- `app/` binds it to Node: the source that JavaScript provides, the asynchronous loop
  that reads missing chunks, and the wire forms of paths, selections and predicates.

## Trusted items

Outside functions that the library calls have contracts that are not proved:
`u64::count_ones` (`bits`), `String::push` (`pointer`), `bytes::Bytes` (`source`), and
`serde_json`'s reading and writing of string literals together with UTF-8 validation
(`keys`).
