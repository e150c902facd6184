# ark

Architectural boundary checks for .NET solutions: project references between layers,
forbidden packages per layer, and C# `using` directives between the namespaces of different
layers, with baselines for known violations and an `init` wizard that proposes layers from
the solution's dependency tiers.

## Layout

- `src/` — the library, verified with Verus:
  - `rules.rs` — which layer claims a project or a namespace (glob patterns), and ignores;
  - `check.rs` — the three checks, each stated as the exact findings it adds to a report;
  - `baseline.rs`, `report.rs` — baselines of violation keys and the check report;
  - `project.rs`, `scanner.rs` — reading `.csproj` files (quick-xml) and C# headers
    (tree-sitter);
  - `graph.rs` — the project graph (petgraph) and its Mermaid and Graphviz renderings;
  - `scaffold.rs`, `tiers.rs`, `order.rs` — the `init` scan: test projects, dependency
    tiers, cycles, layer-name suggestions, and the dependencies between confirmed layers;
  - `wizard.rs`, `generator.rs` — what the wizard's answers do, and the generated
    `architecture.toml`;
  - `explain.rs` — the text of `ark explain`;
  - `laws.rs` — properties of the checks and baselines that hold for every input.
- `app/` — the command line around the library: argument parsing, file and directory
  walking, configuration and baseline files, prompts, and diagnostics.
- `tests/` — tests of the library.
