# Polis

The verified core of a city drawn from a repository, and of the session transcripts
that drive it.

- `src/` is the library, verified with Verus: reading transcript lines and naming
  sessions, tailing and replaying them, and the rules by which a repository becomes a
  city of plots, blocks, districts, lots, streets and landmarks. What depends on
  distances takes them as whole numbers that order in the same way.
- `tests/` runs the library on concrete values.
- `app/` is ordinary Rust around it: files, threads and clocks, and plane geometry in
  floating point.
