# imgsync

Copies new files from sources (for example the folders of an SD card) into structured
destinations, such as a photo library sorted by year and month, and into backups. Files are
only read and copied, never removed or altered.

The planning is a library verified with Verus (`src/`); the program around it (`app/`) reads
the configuration, lists files, asks for confirmation and copies.

## Layout

- `src/files.rs`: file names and their format values (`{name}`, `{parent}`,
  `{extensions}`), files, groups of files with the same prefix, sources and destinations.
- `src/planning.rs`: the suffix that keeps a group from overwriting different files, the
  cutoff time of a source, and planning every source in turn.
- `src/plan.rs`: the copy plan, copying directly or from the first destination.
- `src/laws.rs`: what planning promises as a whole: existing files are never replaced, and
  copying from the first destination changes neither where files land nor which files land
  there.
- `src/replan.rs`: planning again over what planning left plans nothing new.
- `src/section.rs`: sections of the configuration.
- `src/pathmap.rs`, `src/order.rs`, `src/text.rs`, `src/util.rs`: maps keyed by path,
  ordering of paths, character helpers, merging maps and reading answers.
- `src/paths.rs`, `src/clock.rs`, `src/matcher.rs`: std's path operations, the local UTC
  offset and chrono's time formatting and the regex crate, as the planner uses them.
