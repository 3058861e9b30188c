# krates

Creates graphs of crates from the metadata `cargo metadata` prints: each
crate is a node, each of its enabled features is a node, and dependency and
feature links are edges. A `Builder` filters what ends up in the graph:
dependency kinds (normal, dev, build) ignored in or out of the workspace,
target platforms for target-specific dependencies, excluded package
specifications, and the workspace crates the graph grows from.

The library under `src/` is verified with Verus:

- `cm` holds the metadata as plain values (packages, dependencies, targets,
  the resolved graph);
- `builder` holds the `cargo metadata` command line (`Cmd`), the filters and
  the rules that decide which dependency links stay;
- `construct` walks the resolved graph from the roots and builds the crate
  graph; its contract says which crates the graph holds (package ids in
  cargo's opaque or stable form), that every edge leaving a crate follows a
  dependency that stays and carries the kind and target of one of its links
  that stay, that every such dependency between crates of the graph is an
  edge, which packages are reported as left out, which features end up
  enabled on each crate (those its dependents' links and features turn on,
  and, for a root, those cargo resolved; no other feature is enabled but one
  named by an entry of the crate's own features), and that the nodes of enabled
  features are linked to their crates, to the features they enable, to
  the dependencies their `dep:` entries name and to the dependency features
  their `<crate>/<feature>` entries name;
- `krates` holds the graph and the queries on it; `graph` the underlying
  node and edge lists;
- `pkgspec`, `features`, `version`, `index` hold package specifications,
  feature entries, versions and the registry index's features;
- `cfg`, `paths` and `version` call `cfg-expr`, `camino` and `semver`; the
  predicates of a `cfg()` expression are decided by the library.

Resolved nodes are paired with their packages by id or, for a git package
whose id holds a `?branch=` specifier, by the parts the id decomposes into
(`construct::align_ids`).

The crate graph is the library's own (`graph`): the graph's node and edge
weights are generic (`Node<N>`, `E`), and a name for what an outside
collection holds can be given only over plain, non-generic values.

`app/` runs `cargo metadata` through `cargo_metadata`, converts its output
into the library's types, and renders a graph in `dot` form.
