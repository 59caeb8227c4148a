# aurox

An AUR helper in front of pacman, with a verified core. All metadata comes from a
clone of the AUR's git mirror; an index built from every `.SRCINFO` serves search,
info and dependency resolution.

## Layout

- `src/` is the library, verified with [Verus](https://github.com/verus-lang/verus):
  the `.SRCINFO` parser, the index and its lookup tables, the resolver, the decisions
  behind a refresh or a download, the preflight rules, trace analysis, and what the
  user is shown. It does no I/O.
- `tests/` runs the library on concrete values.
- `app/` is the program: it reads files, talks to git, curl, libalpm and the terminal,
  and asks the library what to do next.

## What is proved

Each public function states its result over spec functions that say what the data means.
Where another crate decides, the contract says what it was asked: a date is the text of
its own time in some time zone. Laws that relate several functions are the public proof functions named
`law_…`: for instance that a sealed index opens again to the same bytes, that an
incremental update ends where a fresh build would, that build dependencies come before
what needs them, or that a clone never starts without consent.

What the library takes from other crates (`regex`, `smallvec`, `console`, `jiff`,
`tracing-subscriber`) stands behind small wrappers. Their contracts are believed, not
proved; the comment above each says what it claims.

## The program

| Command                | What it does                                              |
| ---------------------- | --------------------------------------------------------- |
| `aurox`                | Shows what could be upgraded                              |
| `aurox -S <pkg>...`    | Resolves packages, installs what the repositories hold, checks the rest out for `makepkg` |
| `aurox -Sy` / `-Syy`   | Refreshes the mirror / clones it again                    |
| `aurox -Ss <regex>`    | Searches the AUR                                          |
| `aurox -Si <pkg>`      | Shows AUR packages                                        |
| `aurox -Sc` / `-Scc`   | Removes the working trees, then runs `pacman`             |
| `aurox system [prune]` | Shows what the state on disk takes, or removes the caches |
| anything else          | Runs `pacman`                                             |

Called as `aurox-trace` it shows where the time of the last run went.
