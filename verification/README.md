# manas

The text side of a small, local question-answering learner, verified with Verus.

- `src/text.rs` — character classes (white space, CJK ideographs, and names for the
  Unicode alphanumeric and lowercase tables), and the sequence operations on text:
  trimming, splitting at white space, joining, searching.
- `src/tokenizer.rs` — the prefix / sliding n-gram tokenizer and its vocabulary, with
  an abstract model (`VocabState`) and the laws that relate `encode`,
  `encode_deterministic` and `decode`.
- `src/teach.rs` — teachable units of a text and the extraction of an
  (input, target) fact from each unit: question/answer formats, English and Chinese
  linking words, and a subject fallback.
- `src/cli.rs` — the decisions of the command-line program: commands, `teach`
  arguments and requests, labels and report counters.
- `src/decoder.rs` — which known words may answer a question and which ranked
  candidates make up the answer.
- `app/` — the program around the library: arguments, the brain store, ingestion,
  training, floating-point scoring and printing.
  The program tokenizes, trains and answers through the training crate's own
  tokenizer and decoder. It does not call `manas::tokenizer`, nor the
  `decode_answer` helper in `app/decoder.rs`, which puts the float scores around the
  verified word choice of `manas::decoder`.
