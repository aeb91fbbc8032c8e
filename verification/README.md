# jdkenv

A JDK version manager for Windows. It downloads JDKs from the foojay Disco
API into `%USERPROFILE%\.jdkenv\versions\` and switches the active one by
re-pointing the directory junction `%USERPROFILE%\.jdkenv\current`, to which
PATH and JAVA_HOME point once and for all.

## Layout

- `src/` — the library, verified with Verus: the tool's decisions on the
  values it reads (paths, versions, PATH and JAVA_HOME, foojay packages),
  stated as contracts over the characters of the strings involved. Paths are
  handled as text, so a path that is not valid Unicode is refused.
  - `text.rs` — the string operations used throughout (split, join, trim,
    search, replace) with their specifications.
  - `version.rs` — numeric version keys, their order, and how a query such as
    `21` selects `21.0.5`.
  - `sort.rs` — a stable insertion sort over a strict weak order.
  - `paths.rs` — the `.jdkenv` layout, installed JDKs and their selection.
  - `foojay.rs` — the package query, the choice of the build to install, the
    remote listing.
  - `env_win.rs` — the PATH and JAVA_HOME edits, the registry encoding of a
    string and the command line of the elevated relaunch.
  - `arch.rs`, `commands/` — architecture names and the per-command decisions.
- `tests/` — tests of the library on concrete values.
- `app/` — the Windows program around the library: command line, registry,
  junction, file system, network and console.
