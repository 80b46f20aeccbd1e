# patrol

Verified tools for a grid-patrol puzzle: robots driven by small finite
automata walk an `N x N` board with walls, and a plan must have every cell
visited on some robot's eventual loop at the lowest cost.

Layout of `src/` (verified with Verus):

- `text` – tokens, decimal numbers and their laws (a written number reads back).
- `judge` – reading instances and plans (with the judge's error texts),
  simulating robots until their configuration repeats, the counts and costs
  behind a score, and the verdict when some cell is not patrolled.
- `flow` – ac-library's max-flow graph behind trusted contracts, with the
  max-flow/min-cut argument proved over its edge model.
- `cover` – the solver: the wall-free runs of the board, a minimum-cost choice
  of runs covering every cell (proved minimal), and the plan text, which the
  judge reads back as the chosen sweepers.
- `sweep` – a sweeper's loop passes every cell of its run, so the judge counts
  every cell for the robots of a covering plan.
- `enumerate` – every 2- and 3-state automaton, listed once each, their best
  coverage, and the cut, ranking and re-scoring of the results.
- `annealer` – boards, simulation, statistics, random moves, the decisions
  of the automaton search, and the answer text, which the judge reads back as
  the automata found; for each of its robots the judge counts exactly the
  cells of the cycle the search found.
- `generator` – random instances from a seed: the walls are exactly the union
  of the drawn segments, kept only when every cell is reachable; the instance
  is the first connected board of the seeded ChaCha20 stream, so a seed always
  gives the same text, and that text reads back as the same instance.

`app/` holds the command line, file and network I/O, threads and the
floating-point parts of the search; `tests/` runs the library.
