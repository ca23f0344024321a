# water_sort

A solver and explorer for the water sort puzzle, written in Verus: the game rules, the
searches and the text formats are proved against their contracts.

## The game

Glasses hold up to four units of colored liquid. A move pours from a source glass that is
neither empty nor sorted into a destination that is not full and is empty or shows the same
top color; as many consecutive units of that color move as fit. A system is solved when every
glass is empty or full of one color.

## Layout

- `src/game_elements`: colors, glasses and systems of glasses, the pour rule (`spec_pour`),
  the valid moves, and laws such as color conservation and that reordering the glasses
  changes nothing.
- `src/solver`: breadth-first, depth-first and heuristic searches over the systems reachable
  by moves, the registry of systems met so far (keyed by an order-independent fingerprint),
  the queues (a verified binary heap for the heuristic search), the evaluation metrics, and
  the explorer that builds the state graph and its text report.
- `src/cli_arguments`: reading a system from text and checking the program's arguments.
- `src/generate`: random systems from a seeded shuffle of the color pool.
- `app/`: the command-line program: argument parsing, file input and output, colored display.
- `tests/`: tests of the library on concrete values.

Breadth-first search returns a shortest solution. A search reports "no solution" only when no
sequence of moves solves the start (or, for the depth-first and heuristic searches, when the
start is already solved), and "too many systems" only when more distinct systems are
reachable than its 32-bit ids can number.
