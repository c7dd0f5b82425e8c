# ninja_rs

A verified library for a small clone of the ninja build system, written in Verus.

- `src/parse` reads `.ninja` files: a lexer, a parser and the evaluation of bindings and build
  edges into a build description. Files are read through a `LoadLog`, which keeps the record of
  every load asked for, so that the contracts can say which file each `include` asks for.
- `src/desc` turns a description with rules and unevaluated paths into its canonical form.
- `src/builder` turns a description into keys and tasks, decides from modification times what
  must be rebuilt, and keeps the state of a parallel topological schedule over petgraph's graph.
- `src/driver` decides the rounds of a run: the build file is brought up to date and read again
  before what was asked for is built.
- `src/tasks`, `src/paths`, `src/metrics`, `src/config` and `src/line_lexer` hold the smaller
  pieces: keys of lists of keys, path interning, operation counters, command-line settings and a
  line lexer.
- `app/` is the `ninja` command around the library: arguments, files, processes and the
  terminal.
