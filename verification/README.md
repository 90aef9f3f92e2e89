# embedding

A library and command-line tool for training word embeddings (skip-gram and
CBOW with negative sampling), with text and source-code preprocessing,
BPE and WordPiece tokenizers, embedding file formats and evaluation helpers.

## Layout

- `src/` — the verified library (Verus). Every public function carries a
  contract over mathematical models of its inputs and outputs:
  - `chars`, `text`, `code`: sentence splitting, word normalisation,
    contraction expansion, comment and literal stripping, camel-case
    splitting, vocabulary building.
  - `tokenizer`, `bpe_training`, `wordpiece_training`: BPE and WordPiece
    encoding, decoding and training, with round-trip laws.
  - `config`, `evaluation`, `training`: training data, batching, train and
    validation splits, cross-validation folds, validation pairs, context
    windows and negative-sample bookkeeping.
  - `mmap`, `pretrained`, `export`, `benchmark`: byte layouts of the
    memory-mapped format, Word2Vec text and binary files, the NumPy header,
    and benchmark TSV records.
  - `commands`, `backend`, `transfer`: command and format names, the
    interactive command language, subword n-grams.
- `app/` — the command-line program and everything that works on
  floating-point vectors (model, training updates, search, clustering,
  quantization, transformer encoder) or on files.
- `tests/` — tests of the library.
