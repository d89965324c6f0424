# archidoc

An architecture documentation compiler: it turns a directory tree and the
`@c4` annotations of its modules into a JSON intermediate representation
(ArchitectureIR), and renders that IR as compact trees and PlantUML C4
diagrams.

The library in `src/` is written in Verus. Its functions carry contracts that
Verus proves, except seven small `#[verifier::external_body]` wrappers around
std calls (`String::push`, `str::to_lowercase`, `char::to_uppercase`, and
`Path::extension`, `file_name`, `strip_prefix`, `parent`): their contracts
are trusted, not proved, and each doc comment says what it claims.

- `ir`: the IR tree and its queries (annotated / all / by path).
- `module_doc`: what a language adapter extracts from one annotated module.
- `tree`: filtering rules, the bare IR tree of a directory listing, and the
  compact text trees (a law shows the IR rendering equals the listing's).
- `ir_builder`: laying module annotations on the tree, creating missing
  directories, resolving each annotated node's nearest annotated ancestor.
- `merge`: merging two IRs (incoming strategy wins, level conflicts refused).
- `plantuml`: container, component, context and code diagrams.
- `cargo_modules`, `cargo_metadata`: import graphs, crate graphs, and the
  drift between declared `@c4 uses` arrows and real dependencies.
- `walker`: choosing the module entry files of a Rust source tree.
- `commands`: the decisions behind the command line (argument parsing, the
  IR version gate, design stamping, printed summaries).
- `text`, `paths`, `seq_facts`: string and sequence helpers and their lemmas.

`app/` is the command-line front end (`archidoc ir compile | render plantuml |
check-deps`): it reads the file system, runs `cargo metadata`, and reads and
writes JSON; the decisions it makes are the library's.
