# influence_maximization

Influence maximisation on a signed social graph with an ant-colony search,
after Salavati and Abdollahpouri. The crate is a Verus library with a small
command-line program around it.

`src/` (verified):

- `wrappers` — `Node` and `Edge`.
- `records` — the comma-separated record format of the relation and graph
  files: field splitting, decimal parsing as `u64::from_str` and
  `i8::from_str` do it, decimal rendering, and the law that a written edge
  record reads back unchanged.
- `graph` — neighbour lists, first- and second-order neighbourhoods, and the
  whole-number parts of the similarity measure.
- `epinions` — the Epinions relations (ratings in quarter points, trust
  decisions), sampling of connected sub-graphs of distinct users, and the
  choice of the weighted edges of a sample.
- `ordering` — sorting nodes by id.
- `random` — the calls into `rand` (`gen_range`, `shuffle`).
- `ant` — the walk of each ant: shuffled starts, candidate draws, and the
  bookkeeping that keeps an ant's path and remaining nodes a rearrangement of
  the graph's nodes.

`app/` (plain Rust): the command line, file input and output, and everything
that is computed in floating point — edge weights, pheromones, profits,
fitness, the greedy choice among candidates, and the SVG drawing.
