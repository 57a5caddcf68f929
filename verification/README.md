# pipemeeter

A PipeWire mixer in the style of VoiceMeeter. Strips stand for physical
devices or for groups of programs; nodes of the PipeWire graph are matched to
strips by glob patterns, and the graph is kept linked the way the strips are
routed.

- `src/` is the verified library: matching strips to nodes, the links,
  combined nodes and meter streams the graph should have, the difference
  between that and the graph as it is, the normal form of the configuration,
  editing strips, and the bookkeeping for taking over the default sink and
  source (which the program does not wire up). Besides the
  contracts of the functions, `resolution_laws.rs`, `reconcile_laws.rs` and
  `device_laws.rs` state and prove what the resolution and the plans guarantee.
  The resolution can also be run on verdicts the glob gave before
  (`resolve_nodes_with_verdicts`).
- `tests/` runs the library on concrete graphs and configurations.
- `app/` is the program around it: the egui window, the PipeWire worker that
  mirrors the graph and carries out the plans, the configuration file, the
  control socket and the session-manager client.
