# meshcheck

A combinatorial topology auditor for directed triangle meshes, written in
Verus. It reads vertex ids and directed triangles and decides, in a fixed
priority, whether they form an orientable surface: every undirected edge used
twice in opposite directions (or once, on a hole, in boundary mode), the faces
around every vertex forming one fan, and all faces edge-connected. On success
it reports `V`, `E`, `F`, the Euler characteristic and the genus, and in
boundary mode the canonical boundary loops. No coordinates are read.

## Layout

- `src/` — the verified library.
  - `text` — lines, `#` comments, ASCII-whitespace tokens, id order.
  - `parse` — the document grammar and `parse`, with the exact rejection
    a document earns.
  - `types` — the public types and their views.
  - `model` — faces as corner positions and directed edge counts.
  - `graph` — reachability, depth-first marking, component counting.
  - `edges`, `sectors`, `connect` — the three audit stages; `connect` also
    proves that, once the first two stages pass, the connectivity stage
    passes exactly when all faces form one edge-connected component.
  - `loops` — boundary loops: why they exist after the first two stages,
    and how they are traced.
  - `analyze` — the whole audit and the surface verdict.
  - `render` — the printed text of a report (including one `boundary` line
    per reported loop) and the command's exit code.
  - `canonical`, `modes` — laws: the canonical loops (and hence the report)
    are unique; a closed pass is exactly a boundary pass without loops.
- `tests/` — the end-to-end gallery and checks of each building block.
- `app/` — the command-line front end: argument handling, reading the file or
  standard input, printing the rendered report and exiting with its code.

Document format, one record per line:

```text
v <id>                 # declare a vertex
f <id> <id> <id>       # a directed triangle
```

Exit codes of the command: 0 valid, 1 rejected, 2 edge failure, 3 vertex
failure (also usage errors), 4 disconnected, 5 no non-negative integer genus.
