# ime

The core of a lightweight Japanese input method, written in Verus.

- `src/romaji.rs`: incremental romaji-to-hiragana composition.
- `src/converter.rs`: the dictionary, the minimum-cost search over the
  reading lattice (`convert_best`) and the candidate list (`candidates`).
- `src/lattice.rs`, `src/ordering.rs`: what the search and the orders
  guarantee (segmentation, no cheaper path, dictionary and candidate order,
  results independent of the order of the entries, more entries never
  dearer).
- `src/json.rs`, `src/adapter.rs`: event decoding and the JSON answers for
  native platform adapters.
- `src/evaluation.rs`: options, item selection, katakana folding, the ranks,
  counts and kept failures of a run, and the integer metrics of the offline
  evaluation tool.
- `app/`: the evaluation command line (file and environment access, timing,
  float metrics, report printing) and the C ABI buffer.
