# hdd_autopilot

Solvers and round logic for the browser games of an auto-player: minesweeper, Lights Out, maze,
nonogram and sokoban, each with a machine-checked contract.

- `src/solver/` — the solvers. Minesweeper deduces forced moves (trivial rule, subset elimination)
  and counts layouts for the rest; Lights Out solves over GF(2); the maze and sokoban are searched
  breadth first; nonograms are propagated line by line and backtracked.
- `src/workflows/` — the decisions of a round: how the daily quota is spread, how the server's
  answers update the board, which move comes next.
- `src/model/` — the requests the game interface takes.
- `app/` — the server's messages as serde types and the loops that play rounds through a client.
