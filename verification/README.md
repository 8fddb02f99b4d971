# pngmetagrep

PNG `tEXt` metadata extraction, verified with Verus.

The library (`src/`) works on the bytes of a PNG file and never decodes
image data:

- `png` — the file layout: signature, chunk headers, big-endian lengths.
- `read` — the streaming walk over chunks: `scan_text_chunks`,
  `read_text_chunks`, `contains_in_text_chunks`.
- `chunk` — a second reader that walks a file held whole in memory, with
  the proof that it agrees with the streaming reader on complete files.
- `text_map` — `TextChunks`, a keyword → text map kept in `String` order.
- `write` — CRC-32 (with its affine and residue laws), `tEXt` chunk
  building, insertion before `IEND`, and the proof that reading after a
  write gives the written pair back.
- `test_util` — `make_test_png`, with the proof that reading its output
  gives the pairs it was built from.
- `json` — JSON values as plain data (`JsonValue`), parsed and written by
  `serde_json`.
- `meta` — extraction of chosen chunks as JSON values, and the JSON object
  written for a file.
- `find` — the three-level match strategy (byte search, byte regex, JSON
  regex).

`app/` is the command-line tool: argument parsing, directory walking,
reading and writing files, parallelism and output.
