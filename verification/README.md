# SysClean

A system maintenance and package dependency manager for Linux (GTK4 and
libadwaita), whose logic is a library verified with Verus.

## Layout

- `src/` — the verified library (`sysclean`):
  - `model/` — package records, the dependency graph (building it, the
    removal branch of a selection, protection of core packages) and removal
    plans with their commands;
  - `scanner/` — reading what pacman, Flatpak, AppImages and `.desktop`
    files report, and deciding which maintenance tasks to offer;
  - `ui/` — the decisions behind the views: graph roots, depth and edges,
    the selection and its orphan preview, search, node styles, categories,
    the maintenance page and the window's texts;
  - `remover/` — the log of a removal run;
  - `text.rs`, `paths.rs`, `units.rs` — string, path and size helpers.
- `app/` — the GTK application: windows and drawing, running commands,
  reading files, and the floating-point layout of the graph.
- `tests/` — tests of the library.

Verus checks every function in `src/` against its contract; the few calls
into `bytesize` and into std's path and case functions are trusted wrappers
whose contracts are stated next to them.
