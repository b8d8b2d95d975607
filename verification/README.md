# flake-syncer

A terminal program for finding Nix flake inputs that are declared identically across
projects but pinned to different revisions, and for converging them.

`src/` is the library, and every function of it is verified with Verus: reading lockfiles
into groups, locating and rewriting the one string literal in a `flake.nix` that holds an
input's url, planning and running the steps that converge a group, working out which store
paths that would free, and laying out every screen. What it takes on trust of outside
functions (`String::push`, `char::is_alphanumeric`, ratatui's `Layout::split`) is stated
where they are declared. `app/` is the program around it: files,
processes, threads and the terminal. `tests/` runs the library on concrete values.

| module | what it holds |
| --- | --- |
| `text`, `paths`, `order`, `keyed`, `indices`, `numbers` | texts, paths, sorting, ordered sets and maps, rounding |
| `scan`, `lock`, `store` | which projects there are, what they pin, what holds the store |
| `nix_edit`, `diff`, `sync`, `command` | edits of `flake.nix`, their diffs, and the commands of a plan |
| `app`, `keys`, `execute` | the state of the program, what keys do to it, and running a plan |
| `progress`, `report`, `ui` | what is shown while scanning, printed, and on the screen |
