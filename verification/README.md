# pi_world

The core data structures of an entity-component-system world, written in
Verus with their contracts proved:

- `exec_graph`, `ngraph`: the execution graph of systems, archetype
  components and resources (nodes, intrusive edge lists, topological order,
  the counters that release nodes when their inputs are done); `dot` writes
  it as graphviz text.
- `archetype`, `alter`: archetypes, their component sets and the plan of an
  alteration (which columns are added, moved, removed); the mappings that
  move marked rows between archetypes.
- `column`, `blob`, `blob_vec`, `components`: component storage by
  archetype, with change ticks and settling; rows kept in blobs built on
  `pi_buckets`, ticks in `pi_arr` arrays.
- `event`, `dirty`, `multi_res`, `event_deal`: event lists with per-listener
  read positions, dirty lists, multi-instance resources.
- `system`: a system's parameter relations and the conflict check.

`app/` holds what cannot be proved here: running a graph's systems
asynchronously and writing the dot file. `tests/` runs the library.
