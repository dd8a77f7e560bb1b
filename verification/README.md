# port-killer

Lists the TCP servers a developer runs on their own machine (`ss -tlnp`,
ports 1024–65535 without the usual system ports, only the user's own
processes), groups each with the processes that belong to it, and stops
them: SIGTERM first, SIGKILL only for a process that survives, never a
process of another user.

## Layout

- `src/` — the library, verified with Verus:
  - `text.rs`: characters, numbers, lines, words, searching, joining and
    ordering of text, each against a mathematical description;
  - `filter.rs`: which ports are shown and whose processes;
  - `proc.rs`: a snapshot of the process table; parents, descendants and
    the groups of listener processes joined by parent links;
  - `project.rs`: project names from `package.json`, `Cargo.toml` and
    `composer.json`, command lines, and where a process was launched;
  - `listener.rs`: the grammar of an `ss` line and the listing built from
    its output;
  - `group.rs`, `display.rs`: kill targets and their one-line descriptions;
  - `kill.rs`: the run that stops processes, as a state machine whose
    actions (owner check, signal, survival check) the caller performs;
  - `output.rs`: the JSON for Waybar and the panels;
  - `doctor.rs`, `setup.rs`, `setup_gnome.rs`, `menu.rs`, `tui.rs`: the
    decisions of the `doctor`, `setup`, `menu` and picker commands;
  - `diagnostics.rs`: the report of `setup waybar --check`;
  - `config_patch.rs`: why patching the Waybar configuration a second time
    changes nothing.
- `app/` — the program: command line, reading `/proc`, running `ss`, `kill`
  and the other commands, files, terminal and table output.
- `tests/` — tests of the library.

Laws of the library stand as public proof functions next to the functions
they are about (their names start with `lemma_`).
