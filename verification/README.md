# whitelist_tokenizer_rs

A word-level tokenizer over a whitelist of words. A word that is not listed,
and anything that is neither a word nor known punctuation, becomes one unknown
token, so that a text can be stripped of everything the list does not hold.

- `src/` is the library, verified with Verus: `text` (characters and strings),
  `vocab` (the vocabulary), `splitter` and `stream` (the pretokenizer),
  `tokenizer` (ids, encoder, decoder), `frames` (the binary form of id lists),
  `cli`, `commands` and `counting` (what the commands compute). `laws` states
  what holds of them together, such as what decoding gives back of an encoded
  text.
- `app/` is the program around it: files, the command line, the bindings for
  Python.
- `tests/` runs the library.

What the proofs rest on without proof is marked in the source: `str::to_lowercase`,
`String::push`, three functions of the crate `regex`, and the parallel map of
the crate `rayon`.
