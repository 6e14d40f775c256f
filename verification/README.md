# memory-search

Semantic search over a store of markdown memories (Thai and English), verified
with Verus.

The markdown files are the source of truth and are only read. Each file is cut
into chunks, each chunk is embedded by BGE-M3 and kept by the hash of its
content, so that an unchanged chunk is never embedded again. A daemon serves the
index while the store changes, and names what the store's own `[[wikilinks]]`
say belongs to a hit.

- `src/` is the library. What a function does stands in its `ensures`, over the
  spec functions beside it. What holds across functions stands in public proof
  functions named `law_...`, most of them in the modules `chunk_laws`,
  `store_laws`, `link_laws`, `index_laws`, `hit_laws` and `daemon_laws`.
- `tests/` runs the library.
- `app/` is what is left around it: files, sockets, the model's loading, JSON on
  the wire, and arithmetic on floating-point numbers. Scores and embeddings
  cross over as the bits of single-precision numbers.

One executable serves under several names: `memq serve` (the daemon), `memq hook`
(reads a hook's JSON on standard input), `memq <text>`, `bench`, `tryquery`,
`spike`, and under any other name the MCP server on standard input and output.
`MEMORY_STORE` names the directory of the store, `MEMQ_EMBED_THREADS` how many
threads the model uses (4 where it is not set).

What the library believes without proof, each with its reason above it:
`String::push` (`text`), BLAKE3 (`chunk`), decoding UTF-8 (`store`), the model
(`index`), and reading and printing JSON (`request`).
