# nomi

The verified core of a desktop tool that turns a short phrase into a
PascalCase identifier of a chosen number of words.

- `src/` — the library, verified with Verus:
  - `text` — character classes, trimming, first lines, decimal numbers;
  - `pattern` — the regular expressions of the naming rules and what they find;
  - `naming` — the prompt for a chat model, reading an identifier out of its
    reply, and the decisions of the retry loop;
  - `inference` — words of a name, validity, PascalCase conversion, the decisions
    of the search with the on-device model and its decoding constraints;
  - `setup` — status of the local model service, waiting for it to start, and
    download progress reports.
- `app/` — the I/O around it: HTTP to the model service, processes and
  downloads during setup, and the candle/tokenizers translation engine.
- `tests/` — tests of the library on concrete values.
