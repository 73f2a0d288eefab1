# maze

A grid maze library with proofs. A `Maze` holds two grids of walls and a grid of costs;
the library carves mazes (depth-first, recursive depth-first, binary tree, random walk),
computes the distance of every cell from the start by breadth-first search, and finds a cell
farthest from a given one.

Layout:

- `src/maze.rs`: the types, the view `MazeView`, cell lookup, wall reads and writes.
- `src/paths.rs`: steps, walks and distances over a `MazeView`, and their laws.
- `src/coord_set.rs`: a set of grid coordinates backed by a flat vector of marks.
- `src/search.rs`: `fill_cost`, the breadth-first search that records distances.
- `src/farthest.rs`: `find_farthest_point`.
- `src/generate.rs`: the maze generators and `shuffle`.
- `src/connect.rs`: connectivity of carved mazes and the outer edge.
- `src/spanning.rs`: counting the walls taken down by a depth-first carving.
- `src/walk.rs`: the visit order of the random walk and the walls it takes down.
- `src/area.rs`: the positions a recursive depth-first carving reaches.
- `src/construct.rs`: `Maze::new`.
- `src/random.rs`: the calls into `rand`.
- `app/lib.rs`: a renderer that draws a maze with nannou.
