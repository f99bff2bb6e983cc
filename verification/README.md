# turbo-rag

A retrieval engine with two tiers: a compressed vector index in memory, and a
durable table that also answers full-text queries. The library under `src/` is
written in Verus; its behaviour is stated in contracts and proved. `app/` is the
command-line program around it.

## Layout

| Module | Contents |
|--------|----------|
| `scalar` | single-precision numbers by bit pattern, and their order |
| `text` | trimming, splitting, decimal numbers |
| `ranking` | sorting by score, deduplication, merging of two tiers |
| `compression` | sizes and ratios of quantized vectors |
| `quantized` | the quantized index, over `turbovec` |
| `turbovec_store` | the in-memory store: index, texts, stored form |
| `columnar`, `lance_store` | rows of the durable table, its queries and answers, over `arrow` |
| `hybrid` | routing between the tiers |
| `blob`, `payload` | blob stores, over `bytes` |
| `json` | the JSON in stored indexes, over `serde_json` |
| `embedder` | embedders that need no model and no network |
| `pipeline` | taking documents in, batch by batch |
| `config`, `backend`, `commands` | settings, choices and the rules of the commands |

Public proof functions named `law_...` state what holds across functions, such as
that a store that was saved and loaded again may give just the same answers, or that
a merged answer is ranked and holds no document twice.

## What is not proved

Calls into other crates stand behind small trusted functions; the comment above
each says what is claimed of the call. Arithmetic on floating-point numbers
(similarities, throughput, random vectors) is in `app/`, as are files, the network
and the clock.
