# rust_hero

A command-line assistant that finds Rust functions with tree-sitter queries and asks a
CodeBERT-based classifier whether their `unsafe` keyword is needed.

- `src/` is the library, written in Verus and verified: the languages and their names,
  compiling tree-sitter queries, joining the queries given for one language, running a query
  over a text and turning its captures into matches, building the
  configuration of a run from the parsed command line, the names of the output formats, the
  line output and the sorting of extracted files by path, choosing the extractor of a file
  by its type, and preparing the
  code fragments and token batches for the classifier.
- `app/` is the program around it: argument parsing with clap, walking the file system,
  reading files, loading the model and printing.
- `tests/` runs the library on concrete inputs.
