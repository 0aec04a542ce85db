# ginko

A library for device-tree sources, written in Rust and verified with Verus.

It holds the parts of a source file and how they are written, the analysis that finds
out which labels and nodes there are and what is wrong with a file, and projects made
of files that include each other. What an editor asks for (symbols, definitions, texts
to show) is computed here too.

- `src/data.rs`, `src/ast.rs`: positions, tokens and the parts of a source file.
- `src/text.rs`, `src/path.rs`, `src/display.rs`: reading and writing of names, paths,
  numbers and all the rest.
- `src/error_codes.rs`, `src/diagnostics.rs`: findings and their severities.
- `src/keyed.rs`, `src/graph.rs`, `src/import_guard.rs`: maps by what keys say, which
  file reaches which, and a guard against circles of imports.
- `src/context.rs`, `src/tree.rs`, `src/analysis.rs`: what is known of a device tree,
  what its nodes hold, and the analysis of a file.
- `src/loader.rs`, `src/parse.rs`, `src/project.rs`: the search for files, the order in
  which files are parsed and analyzed, and the project itself.
- `src/server.rs`: what an editor is told.
- `src/*_laws.rs`: what holds of every analysis, every run of the parser and every
  project.
- `app/`: the language server around the library. Files are numbers in the library; the
  server keeps the table of paths, reads files and talks to the editor. It is given a
  parser.
