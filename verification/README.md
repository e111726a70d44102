# rsomics-link-prediction

Neighborhood-overlap link prediction (Jaccard, Adamic-Adar, resource
allocation, preferential attachment, common-neighbor centrality) over an
undirected graph read from an edge list, written in Verus.

- `src/` is the verified library. `text` reads edge-list and pairs texts,
  `model` is the mathematical graph the contracts speak of, `graph` builds the
  interned graph and answers neighbor, union and breadth-first distance
  queries, `order` and `pairs` choose and order the pairs to score, `scores`
  gives the exact integer terms of each score, `method` names the methods,
  `laws` states properties of the library as a whole, and `relabel` shows that
  the graph, the default pairs and their terms depend on the labelled edges
  alone.
- `app/` is the command-line program: it reads stdin and the pairs file,
  computes the floating-point scores from the library's terms, and prints text
  or JSON.
- `tests/` exercises the library on concrete inputs.
