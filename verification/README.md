# Graviz

An explorer for GraphQL schemas: an SDL file becomes a graph of cards and edges that can be searched,
sliced by root operation, and compared with an overlay.

- `src/` is the library. It is written in Verus: the functions state in contracts what they return or
  change, and the contracts are proved.
  - Reading schemas: `document`, `sdl`, `extensions`, `declarations`, `relay`, `edges`, `removals`.
  - Overlays: `scan`, `overlay`, `provenance`, `loader`.
  - Slices of a graph: `components`, `reachable`, `slices`, `until`.
  - Layout: `cycles`, `depths`, `simplex`, `ranking`, `balance`, `parts`, `lanes`, `layers`, `sweeps`,
    `ordering`, `crossings`, `clusters`, `drawing`, `layouts`.
  - Cards and edges: `cards`, `geometry`, `model`, `scene`, `tips`.
  - Search, panels and editing: `matching`, `search`, `browse`, `sidebar`, `details`, `panels`,
    `deadlines`, `textedit`, `typing`, `carets`, `highlight`, `trail`, `recents`, `theme`.
- `tests/` runs the library on concrete values.
- `app/` is the program around it: windows, files, the network, and the floating-point geometry.

What is taken from elsewhere without proof stands in four places: `document` (the GraphQL parser),
`matching` (lower case of text), `text` (pushing a character) and `update` (members of a JSON value).
