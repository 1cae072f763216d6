# ricochet_robots

A solver for Ricochet Robots puzzles, verified with Verus. Robots slide
across a square board until a wall, the edge or another robot stops them;
robot 0 has to reach the goal.

- `src/` is the verified library: the rules as specifications (`game`),
  reading and writing boards (`parse`, `render`), the slide tables and the
  moves a placement allows (`board`), the distance table (`dists`), and two
  searches, A* (`astar`) and iterative deepening (`ids`), with the data
  structures they use (`frontier`, `state_map`, `fnv`, `robots`).
- `app/main.rs` reads a board on standard input and prints a solution;
  `--ids` selects iterative deepening.
- `tests/` runs both searches on whole boards and the parts on small ones.

A board is written as its width, the number of robots, then the rows:
` ` free, `#` wall, `G` the goal, a digit for a robot.
