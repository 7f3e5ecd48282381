# sokoban-utils

Sokoban levels, their wire formats, and a push solver, verified with Verus.

- `src/` is the library. Levels are read and written as XSB text (`level`), in a binary form with a
  checksum (`wire`) and as URL fragments (`url`). The solver (`solver`, `search`) is a best-first
  search over pushes, guided by the cheapest assignment of boxes to goals (`matching`, `estimate`)
  and pruned by corners, deadlock sets, frozen boxes and corrals. `collection` reads collections of
  puzzles and reports on them.
- What holds of the library as a whole is stated in proof functions whose names start with `law_`:
  that every notation can be read back, that a solution can be played and solves the level
  (`replay`, `search`, `push_count`), that the estimate is a lower bound (`lower_bound`), that what
  is pruned is a deadlock (`capacity`, `freeze`, `deadlock`), and that a search within its limit
  finds a solution if there is one, with the fewest pushes of all (`exhaustive`, `completeness`).
- `app/` holds a program that solves a collection in parallel and writes a CSV file (`main.rs`), and
  the bindings for JavaScript (`lib.rs`).
- `tests/` runs the library on concrete levels.
