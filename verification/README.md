# autorct

A daemon meant to watch a project directory and run build, run and clean
commands for the files that change, as a configuration file (`.RCTconf`)
maps them. As it stands it does not get that far: the configuration reader
accepts no file (the first line of the `@FMAP` block always begins with
`{`, which no mapping line may), the program builds its one mapping by
hand, adds no watch, and so never runs a command.

The library (`src/`) is written in Verus and verified:

- `text`: character-level string operations (splitting, trimming, finding,
  replacing, lines) with their specifications.
- `fpath`: path components as `std::path` reads them on Unix, and an
  in-memory tree of paths (`NTree`) whose operations are specified over a
  map from component sequences to entry types; `tree_laws` proves what the
  operations guarantee together.
- `parse`: configuration values (`Properties`, `Config`, `Cmd`), empty
  fields and event letters.
- `conf`: reading the configuration text: cleaning, global definitions,
  substitution, function definitions (found with the `regex` crate), and
  the `@IGNORE` and `@FMAP` blocks.
- `cond`: the condition language.
- `fxn`: running a function body against a stack of scopes.
- `daemon`: the watch daemon's state and its decision for each inotify
  event; the bits of inotify's masks come from the `inotify` crate.
- `helper`: the command line.

The program (`app/`) does what cannot be verified: reading the arguments,
the environment and the file, running commands, the inotify instance and
its thread, and what involves floating point.
