# wrath

`wrath <target>` kills every process that holds a port, or every process with a
given name, together with all of their descendants, after showing what it found and
asking for confirmation.

The crate has two parts:

- `src/` is the library, verified with Verus. It decides everything: what the target
  names (`cli`), what the port lookup output says (`port`), which processes a kill
  covers and in which order (`process`), what a process runs (`inspect`), how the
  cards, the prompt and the final message read (`ui`), and whether a release is newer
  (`update`). `text` holds the character-level building blocks. The contracts state
  the results exactly, over spec functions; the public proof functions state the
  properties that relate several calls (the order on versions, the shape of the
  flame).
- `app/main.rs` is the command around it: argument parsing with `clap`, the process
  table read with `sysinfo`, the lookup command run, the terminal I/O, the kills, the
  update request with `ureq`, and the formatting of byte counts, which uses floating
  point.

The tests under `tests/` run the library on concrete values.
