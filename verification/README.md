# workspace-cache

Dependency caching for Rust workspaces with several binaries: from the
workspace's metadata it works out which members a binary needs, writes a
minimal stub workspace whose dependencies can be built and cached on their
own, and renders a multi-stage Dockerfile around it.

The planning logic is written in Verus and proved against its contracts.

## Layout

- `src/metadata.rs`: the workspace model (packages, targets, resolve graph),
  member extraction, the workspace-dependency closure, and binary lookup.
- `src/graph.rs`: reachability over a successor function, used by the
  closures.
- `src/generator.rs`: the plan of the stub workspace (manifest, filtered
  lockfile, stub sources per member).
- `src/manifest.rs`: rewriting the root `Cargo.toml` through `toml_edit`.
- `src/lockfile.rs`: keeping only the resolved entries of a `Cargo.lock`.
- `src/dockerfile.rs`: the Dockerfile template and its rendering through
  `minijinja`.
- `src/builder.rs`: the `cargo build` arguments.
- `src/cli.rs`: the command-line grammar.
- `src/laws.rs`: properties that span several functions.
- `app/`: the program around the library: argument parsing with `clap`,
  `cargo metadata`, file system writes and running `cargo`.
