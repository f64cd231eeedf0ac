# kairos

A local timeline of a project's text files. Every change that is seen is recorded under
the git branch or commit that was checked out at the time, so that the files, or the whole
project, can be read back, compared and restored as they were at any moment.

## Layout

`src/` is the library, written in Verus. All of it is verified.

| Module | What it holds |
| --- | --- |
| `text`, `path` | text and path rules: joining, normalising, ordering |
| `time` | timestamps as users write them and as they are shown |
| `git` | what git says of a directory, and the contexts that follow from it |
| `config` | names, limits, where a timeline lives |
| `filter` | which paths are recorded |
| `delta` | patches between two contents of a file |
| `store` | the timeline: its rows, recording, reading back, listing, pruning, migration |
| `debounce`, `watcher` | which seen paths are ready, when to rescan, when to beat |
| `snapshot` | scans of the project and single changes |
| `rescan` | what a scan counts, and that a second one finds nothing |
| `restore` | plans that bring files back |
| `inside` | that nothing outside the project is tracked or restored |
| `commands`, `ui`, `cli` | what each command prints and takes |

The functions named `law_…` state what holds of several operations together: what a read
gives back of a write, that contexts are kept apart, what pruning and migration leave as
it was, what every row looks like. They are in `store/laws.rs`, `store/separation.rs`,
`store/retention.rs`, `store/in_turn.rs`, `store/unique.rs`, `store/newest.rs`, `store/shape.rs`,
`store/legacy_states.rs`, `rescan.rs` and `inside.rs`, and next to what they speak of
elsewhere.

What is taken from other crates on trust (time, patches, ignore rules, digests, unified
diffs) stands behind small functions marked `external_body`; the comment above each says
what is claimed of the crate.

`app/` is the program around the library: the command line, the disk, SQLite, git and the
file system watcher. `tests/` holds the tests of the library.
