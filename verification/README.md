# OctaSoma

A 3-D fractal semantic memory. An embedding is projected to a point by a matrix of three rows; byte
payloads are kept in a loose octree over these points and found again by where an embedding falls.

The library under `src/` is verified with Verus.

- `rounding`, `ieee`, `roots`, `numbers`, `order`: single and double precision numbers as bit
  patterns. Each operation is stated by its exact result and one rounding.
- `rng`, `projection`, `calibration`, `samples`: seeded and learned matrices, and the projection.
- `geometry`, `node`, `memory`, `insertion`, `lookup`, `soundness`, `writes`: the octree.
- `containment`, `drift`, `recall`, `files`: what holds of it as a whole. What is inserted is found again,
  what is saved is loaded back, and files are refused that are cut, start otherwise than a file does,
  are for embeddings of another length or hold an arena that cannot be decompressed.
- `bytes`, `lz4`, `codec`: the file format. The arena is compressed by `lz4_flex`.
- `json`, `payloads`, `protocol`, `reports`, `tools`: the tool protocol. JSON is read and written by
  `serde_json`.

What is believed without proof is in `lz4`, `json` and `payloads`, each item with what it claims of
the function that it calls.

`app/` holds what touches the outside: files, the Python class and the tool server's loop.
