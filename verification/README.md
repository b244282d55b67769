# ast_to_mermaid

Source code to a graph of code entities to Mermaid diagrams. The parser reads
Rust, Python and Dart; a walk over a directory takes Rust and Python files.

`src/` is a verified library: each of its public functions carries a contract
that Verus proves, and so do most of the others.

- `parser`: tree-sitter trees to atoms and edges
- `graph`: the store of atoms and edges, reachability, and the catalog
- `render`: project, overview, module, function and impact views
- `artifacts`, `bundle`: what is written per entity, and how it is read back
- `cache`, `diff`, `git_source`, `walk`, `pipeline`, `cli`: the bookkeeping
  around them

Laws that relate several functions are public proof functions whose names begin
with `law_`. The functions marked `external_body` wrap the calls into
tree-sitter, sha2, sha1_smol, serde_json and the standard library; what is
believed of each is its contract.

`app/` is the command line: arguments, files, processes and JSON. What it
decides, it asks the library.
