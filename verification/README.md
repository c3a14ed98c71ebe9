# dsopt

Find and reclaim disk space from build artifacts: `node_modules` and Rust `target/` directories.

`dsopt` walks file system roots, shows what those directories cost, and removes the ones you pick,
in an interactive session or as a printed list.

## Layout

- `src/` is the library: everything that is decided and computed, verified with Verus.
  - `candidate`, `tree`, `scan`, `listing`: what is found, folded, deduplicated and listed.
  - `safety`, `removal`: what may be deleted, and a removal run from directory to directory.
  - `session`, `app`, `pathset`, `screen`: the interactive session and its texts.
  - `cli`, `cache`, `update`: the command line, the record of the last scan, self-update.
  - `path`, `text`, `size`, `calendar`: paths as bytes, text, byte counts and dates.
- `app/` is the program around it: arguments, file system, threads, drawing and commands.
- `tests/` runs the library.

Public proof functions named `law_..` state what holds of the library as a whole.

## Trusted

Two families of outside functions are believed rather than proved, each behind a small wrapper whose
comment says what is claimed of it: `String::from_utf8_lossy` (in `path`) and reading JSON with
`serde_json` (in `update`).
