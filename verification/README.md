# rip

`rip` sends files to a graveyard (`/tmp/graveyard-$USER` by default) under
their absolute path instead of unlinking them, records each burial in
`.record` at the top of the graveyard, and can bring buried files back.

- `src/` is the library, verified with Verus: path components and joining,
  the choice of a free grave, the record format and its searches (last
  burial, seance, the lines of given graves), the graveyard's location, the
  run mode, the steps for one target and for unburying, and
  human-readable sizes.
- `app/main.rs` is the program: command line, environment, prompts and all
  file system work (renaming, copying, removing, walking directories),
  calling the library for the decisions in between.
- `tests/` runs the library on concrete values, and compares its path
  handling with `std::path`.
