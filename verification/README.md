# cleard

An interactive terminal program that finds regenerable build, dependency and
cache directories across many ecosystems (`node_modules`, `target`,
`__pycache__`, …) and deletes the ones you pick.

- `src/` is the verified library: the marker-aware rule catalog and glob
  matching, the list model (filtering, stable sorting by size, age or path,
  selection, deletion targets), key bindings and what each action or
  background report does to the state, the containment check that bounds
  every removal to the scan root, the broad-root guard, and the texts the
  screen shows. Its functions carry contracts that are proved, except for
  a few small wrappers around calls into std (`str::to_lowercase`,
  `String::push`, `String::pop`) and `humansize::format_size`, whose
  contracts are trusted and say what those calls return.
- `app/` is the program around it, not verified: argument parsing, the
  config file, the parallel directory walk and sizing, the terminal, the
  removals, and the size parser and bar widths, which use floating point.
- `tests/` runs the library on concrete values.
