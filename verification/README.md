# cli_tools

Small command-line tools whose logic is a library verified with Verus:

- `wc`: counts bytes, lines (as `str::lines` splits them), words (runs of characters
  outside Unicode's White_Space) and characters;
- `cut`: picks numbered fields from each line, between the occurrences of a delimiter;
- `json`: a lexer and a recursive-descent parser for a small JSON subset;
- `compress`: Huffman compression, with the header of the frequency table, greedy tree
  construction, prefix codes and bit packing, and the matching decompression;
- `lb`: the decisions of a round-robin load balancer that moves backends between an
  active and an inactive list as health checks fail or pass.

Layout:

- `src/` is the verified library. Each public function states what it returns in its
  `ensures`; the public proof functions state the laws that relate several of them (the
  header read back from what was written, decoding undoing encoding with the same tree
  and, when no frequencies tie, with the tree the decoder rebuilds, unique keys in parsed
  objects, a second lexing adding nothing, health checks keeping every backend in exactly
  one list, requests going round the backends).
- `tests/` runs the library on concrete values.
- `app/` is the program: argument parsing, files and standard input, printing, and the
  network side of the load balancer (`axum`, `reqwest`, `tokio`).
