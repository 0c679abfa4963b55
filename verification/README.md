# mge-core

A local memory store for AI agents, verified with Verus. Agents remember
typed memory cells described by markers; recent cells stay in a hot layer,
older ones are sealed into checksummed binary pages with candidate indexes,
and a recall returns a ranked context packet.

## Layout

- `src/` — the verified library.
  - `models`, `markers`, `marker_dictionary`, `text`: cells, marker
    canonicalization and extraction, the marker dictionary.
  - `binary`, `checksum`, `compression`: framed storage files, SHA-256,
    zstd compression.
  - `hot`: the hot layer, hot-log scanning and snapshots.
  - `pages`, `indexes`: page building and clustering, page catalogs, the exact
    and binary-fuse candidate indexes.
  - `retrieval`, `recall`, `packet`, `security`: scoring, recall planning and
    ranking, context packets, recall policies.
  - `store`, `validation`, `store_validation`, `export`: configuration,
    remembering, page pruning, store validation, the Markdown export.
  - `ingestion`, `eval`, `longmemeval`, `locomo`: session chunking and the
    evaluation datasets (generated fixtures and conversation adapters).
- `tests/` — tests of the library.
- `app/` — the memory engine over a store directory (file I/O, MessagePack
  encoding) and the evaluation command-line tool with its floating-point
  metrics.
