# pave

`pave` manages the directories on the user's PATH on Unix and Windows: it
adds directories (given as a path, or found from an executable's name),
removes or blocks them, lists and searches the PATH, and prints the PATH a
shell should use.

The crate is a Verus library (`src/`) with a thin program around it (`app/`).

- `src/text.rs` – splitting and joining PATH values and line lists.
- `src/components.rs` – paths as component sequences: equality, order,
  parent, file name and extension, as `std::path::Path` has them, with the
  Windows drive, UNC, device and verbatim prefixes.
- `src/path_store.rs` – the managed and blocked lists: storage format and how
  adding, removing and blocking change them; the Windows registry encoding.
- `src/util/` – PATH directories and executables, the filesystem search's
  results, shell detection and the PATH handed to a shell, terminal lines.
- `src/commands/` – the decisions of `add`, `remove`, `env` and `search`,
  each a step function from what the program found out to what it does next.
- `app/` – argument parsing, files, the registry, the filesystem walk and the
  interactive picker.

The laws proved about the library (for instance that the computed PATH puts
the managed directories first, drops blocked ones, and is stable when
computed again, or that a stored list reads back unchanged) are the
`law_*` proof functions in `src/`.
