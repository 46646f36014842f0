# host_grammar

Rules for valid register names (`NNNN-slug`) and a prose scanner that reports
stylistic tells, written in Verus with every function of the library proved
against its contract.

- `src/grammar.rs`, `src/roman.rs`: zero-padded numbers, slugs, names, numerals
  (Arabic or canonical Roman), with the generator/checker agreement proved.
- `src/tell.rs`, `src/corpus.rs`: the tell record (exact weights) and vocabularies.
- `src/sentence.rs`, `src/runs.rs`, `src/lexical.rs`, `src/shape.rs`: the lexical,
  per-sentence, cross-sentence and shape equations, each specified over sequences.
- `src/scan.rs`, `src/markdown.rs`: whole-document scans (plain, chunked,
  markdown); chunked scanning is proved equal to the sequential scan.
- `src/ext.rs`: the trusted calls (Unicode segmentation and case mapping,
  the markdown parser).
- `app/`: float weights, the thread-parallel scan and the density score.
