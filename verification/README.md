# repo_launcher

The decision logic of a desktop launcher for multi-repository development projects, written
in Verus and verified: which folders under a project root are repositories (and with which
toolchain and start script), in which order an "Execute All" run starts them given their
dependencies, what each process start, stop and exit means, how a branch switch proceeds,
how profiles move between projects, and how git's output is read.

Layout:

- `src/` — the verified library. `launcher` (dependency ordering and launch runs),
  `process_manager` (the process table), `scanner` (repository discovery), `git` (reading
  git output, listing branches, the branch-switch state machine), `git_status_cache`,
  `launch_config` (command lines and env files), `profiles`, `commands` (the remaining
  command decisions and result shapes), `persistence` (row types), `error`, `paths`
  (path components, path equality and moving a path to a new root), `text`
  (character-level string helpers).
- `tests/` — tests of the library on concrete values.
- `app/` — the desktop side: SQLite storage, file-system probes, running `git`, spawning
  and killing processes, and the async command functions that tie them to the library.
