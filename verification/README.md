# ahc014

A verified library for the grid puzzle "mark points by drawing rectangles":
on an `n x n` grid some cells are marked; a move draws a rectangle
`[p0, p1, p2, p3]` whose sides run along rows, columns or diagonals, whose
corners `p1`, `p2`, `p3` are marked and `p0` is not, whose sides pass
through no other marked cell and share no unit segment with an earlier
rectangle. The move marks `p0`. The score grows with the weight of the
marked cells, heavier away from the centre.

`src/` is the library, proved by Verus. One function is trusted rather
than proved: `anneal::random_index`, which calls `rand`'s `gen_range` and is
taken to return a value below its bound.

- `geometry`: points, the eight directions, cell weights and rectangle areas.
- `state`: the input, the board, and the move check and move itself, with
  the spec `valid_move` of an allowed move and `moved` of its effect, and
  the proof that every covered segment stays recorded at both of its ends.
- `rays`: the nearest marked cell seen from a cell in each direction.
- `rects`: the two orientations of one rectangle, right angles at the
  corners, and lists holding each move once.
- `candidates`: listing the allowed moves from scratch and updating the list
  after a move, with the proofs that the list stays exactly the set of
  allowed moves, each once.
- `order`: the stable sort of candidates by area and weight.
- `score`: the integer weight sums behind the score.
- `replay`: solutions as sequences of moves replayed on the board, and
  legal solutions.
- `search`: one step of the greedy fill.
- `anneal`: the neighbour of a solution (one move removed, the rest replayed),
  the tabu list and the bookkeeping of current and best solutions, with the
  proof that every solution the search keeps stays legal.
- `report`: reading the score line the solver writes on its error output.

`app/` is the program around it: input, timing, the floating-point parts
(random choice among candidates weighted by float weights, the annealing
temperature and acceptance, the final score scaling) and the test runner.
