//! A maze carved by a recursive backtracker on a half-resolution grid.
use vstd::prelude::*;
use rand::rngs::StdRng;
use crate::map_buffer::{fill_cells, MapBuffer};
use crate::random::roll_dice;

verus! {

/// One cell of the logical maze, with the wall on each of its sides.
#[derive(Copy, Clone, Debug)]
pub struct Cell {
    pub row: usize,
    pub column: usize,
    pub top: bool,
    pub right: bool,
    pub bottom: bool,
    pub left: bool,
    pub visited: bool,
}

/// The side of `a` that faces `b`: 0 top, 1 right, 2 bottom, 3 left;
/// -1 when the cells are not neighbours.
pub open spec fn faces(a: Cell, b: Cell) -> int {
    if b.row + 1 == a.row && b.column == a.column {
        0
    } else if a.row == b.row && b.column == a.column + 1 {
        1
    } else if b.row == a.row + 1 && b.column == a.column {
        2
    } else if a.row == b.row && a.column == b.column + 1 {
        3
    } else {
        -1
    }
}

/// Whether cell `c` has a wall on side `d`.
pub open spec fn wall(c: Cell, d: int) -> bool {
    if d == 0 {
        c.top
    } else if d == 1 {
        c.right
    } else if d == 2 {
        c.bottom
    } else {
        c.left
    }
}

/// The wall of cell `a` towards cell `b` is open.
pub open spec fn opened(cells: Seq<Cell>, a: int, b: int) -> bool {
    !wall(cells[a], faces(cells[a], cells[b]))
}

/// The open walls of `cells` are exactly the edges from each cell but the
/// first to its parent, a neighbour visited earlier (lower `rank`): they
/// form a tree that spans every cell, with one opening fewer than cells.
pub open spec fn tree_by(cells: Seq<Cell>, parent: Seq<int>, rank: Seq<int>) -> bool {
    &&& parent.len() == cells.len()
    &&& rank.len() == cells.len()
    &&& rank[0] == 0
    &&& forall|k: int|
        #![trigger parent[k]]
        0 < k < cells.len() ==> 0 <= parent[k] < cells.len() && 0 <= faces(cells[k], cells[parent[k]]) && 0
            <= rank[parent[k]] < rank[k]
    &&& forall|a: int, b: int|
        0 <= a < cells.len() && 0 <= b < cells.len() && 0 <= faces(cells[a], cells[b]) ==> (#[trigger] opened(
            cells,
            a,
            b,
        ) <==> ((a != 0 && parent[a] == b) || (b != 0 && parent[b] == a)))
}

/// The walk so far: the visited cells and the walls opened between them
/// form a tree rooted at the first cell, as `tree_by` says once every cell
/// is visited; unvisited cells keep all four walls.
pub open spec fn tree_so_far(cells: Seq<Cell>, parent: Seq<int>, rank: Seq<int>, counter: int) -> bool {
    &&& parent.len() == cells.len()
    &&& rank.len() == cells.len()
    &&& cells.len() >= 1
    &&& rank[0] == 0
    &&& cells[0].visited
    &&& forall|k: int|
        #![trigger parent[k]]
        0 < k < cells.len() && cells[k].visited ==> 0 <= parent[k] < cells.len() && cells[parent[k]].visited && 0
            <= faces(cells[k], cells[parent[k]]) && 0 <= rank[parent[k]] < rank[k]
    &&& forall|k: int| #![trigger rank[k]] 0 <= k < cells.len() && cells[k].visited ==> 0 <= rank[k] < counter
    &&& forall|k: int|
        #![trigger cells[k]]
        0 <= k < cells.len() && !cells[k].visited ==> cells[k].top && cells[k].right && cells[k].bottom && cells[k].left
    &&& forall|a: int, b: int|
        0 <= a < cells.len() && 0 <= b < cells.len() && 0 <= faces(cells[a], cells[b]) ==> (#[trigger] opened(
            cells,
            a,
            b,
        ) <==> ((cells[a].visited && a != 0 && parent[a] == b) || (cells[b].visited && b != 0 && parent[b] == a)))
}

/// Cells are told apart by their places.
pub open spec fn distinct_places(cells: Seq<Cell>) -> bool {
    forall|i: int, j: int|
        0 <= i < cells.len() && 0 <= j < cells.len() && (#[trigger] cells[i]).row == (#[trigger] cells[j]).row
            && cells[i].column == cells[j].column ==> i == j
}

/// In a well-formed grid, cells are told apart by their places.
proof fn lemma_places(g: MazeGrid)
    requires
        g.wf(),
    ensures
        distinct_places(g.cells@),
{
    assert forall|i: int, j: int|
        0 <= i < g.cells@.len() && 0 <= j < g.cells@.len() && (#[trigger] g.cells@[i]).row == (#[trigger] g.cells@[j]).row
            && g.cells@[i].column == g.cells@[j].column implies i == j by {
        assert(g.cells@[i].row * g.width + g.cells@[i].column == i);
        assert(g.cells@[j].row * g.width + g.cells@[j].column == j);
    }
}

/// Once every cell is visited, the tree built so far spans the grid.
proof fn lemma_tree_done(cells: Seq<Cell>, parent: Seq<int>, rank: Seq<int>, counter: int)
    requires
        tree_so_far(cells, parent, rank, counter),
        forall|k: int| 0 <= k < cells.len() ==> #[trigger] cells[k].visited,
    ensures
        tree_by(cells, parent, rank),
{
    assert forall|k: int| #![trigger parent[k]] 0 < k < cells.len() implies 0 <= parent[k] < cells.len() && 0 <= faces(
        cells[k],
        cells[parent[k]],
    ) && 0 <= rank[parent[k]] < rank[k] by {
        assert(cells[k].visited);
    }
    assert forall|a: int, b: int|
        0 <= a < cells.len() && 0 <= b < cells.len() && 0 <= faces(cells[a], cells[b]) implies (#[trigger] opened(
            cells,
            a,
            b,
        ) <==> ((a != 0 && parent[a] == b) || (b != 0 && parent[b] == a))) by {
        assert(cells[a].visited && cells[b].visited);
    }
}

/// Opening the wall between visited `cur` and unvisited `n`, and making
/// `cur` the parent of `n`, extends the tree.
proof fn lemma_tree_step(
    c0: Seq<Cell>,
    c1: Seq<Cell>,
    cur: int,
    n: int,
    parent: Seq<int>,
    rank: Seq<int>,
    counter: int,
)
    requires
        tree_so_far(c0, parent, rank, counter),
        distinct_places(c0),
        0 <= cur < c0.len(),
        0 <= n < c0.len(),
        c0[cur].visited,
        !c0[n].visited,
        0 <= faces(c0[cur], c0[n]),
        c1.len() == c0.len(),
        forall|i: int| #![trigger c1[i]] 0 <= i < c1.len() && i != cur && i != n ==> c1[i] == c0[i],
        c1[cur].row == c0[cur].row && c1[cur].column == c0[cur].column && c1[cur].visited,
        c1[n].row == c0[n].row && c1[n].column == c0[n].column && c1[n].visited,
        forall|d: int| 0 <= d < 4 ==> #[trigger] wall(c1[cur], d) == (wall(c0[cur], d) && d != faces(c0[cur], c0[n])),
        forall|d: int| 0 <= d < 4 ==> #[trigger] wall(c1[n], d) == (wall(c0[n], d) && d != faces(c0[n], c0[cur])),
    ensures
        tree_so_far(c1, parent.update(n, cur), rank.update(n, counter), counter + 1),
        distinct_places(c1),
{
    let p1 = parent.update(n, cur);
    let r1 = rank.update(n, counter);
    assert(n != cur);
    assert(n != 0);
    assert forall|i: int, j: int|
        0 <= i < c1.len() && 0 <= j < c1.len() && (#[trigger] c1[i]).row == (#[trigger] c1[j]).row && c1[i].column
            == c1[j].column implies i == j by {
        assert(c0[i].row == c1[i].row && c0[i].column == c1[i].column);
        assert(c0[j].row == c1[j].row && c0[j].column == c1[j].column);
        assert(c0[i].row == c0[j].row);
    }
    assert forall|k: int|
        #![trigger p1[k]]
        0 < k < c1.len() && c1[k].visited implies 0 <= p1[k] < c1.len() && c1[p1[k]].visited && 0 <= faces(
            c1[k],
            c1[p1[k]],
        ) && 0 <= r1[p1[k]] < r1[k] by {
        if k == n {
            assert(c1[cur].visited);
            assert(faces(c1[n], c1[cur]) >= 0);
        } else {
            if k != cur {
                assert(c0[k] == c1[k]);
            }
            assert(c0[k].visited && c0[k].row == c1[k].row && c0[k].column == c1[k].column);
            assert(parent[k] == p1[k]);
            assert(c0[parent[k]].visited);
            assert(parent[k] != n);
            assert(c0[parent[k]].row == c1[parent[k]].row && c0[parent[k]].column == c1[parent[k]].column);
            assert(rank[parent[k]] < rank[k]);
        }
    }
    assert forall|k: int| #![trigger r1[k]] 0 <= k < c1.len() && c1[k].visited implies 0 <= r1[k] < counter + 1 by {
        if k != n {
            assert(c0[k].visited);
        }
    }
    assert forall|k: int|
        #![trigger c1[k]]
        0 <= k < c1.len() && !c1[k].visited implies c1[k].top && c1[k].right && c1[k].bottom && c1[k].left by {
        assert(c0[k] == c1[k]);
    }
    assert forall|a: int, b: int|
        0 <= a < c1.len() && 0 <= b < c1.len() && 0 <= faces(c1[a], c1[b]) implies (#[trigger] opened(c1, a, b)
            <==> ((c1[a].visited && a != 0 && p1[a] == b) || (c1[b].visited && b != 0 && p1[b] == a))) by {
        lemma_step_pair(c0, c1, cur, n, parent, rank, counter, a, b);
    }
}

proof fn lemma_step_pair(
    c0: Seq<Cell>,
    c1: Seq<Cell>,
    cur: int,
    n: int,
    parent: Seq<int>,
    rank: Seq<int>,
    counter: int,
    a: int,
    b: int,
)
    requires
        tree_so_far(c0, parent, rank, counter),
        distinct_places(c0),
        0 <= cur < c0.len(),
        0 <= n < c0.len(),
        n != cur,
        n != 0,
        c0[cur].visited,
        !c0[n].visited,
        0 <= faces(c0[cur], c0[n]),
        c1.len() == c0.len(),
        forall|i: int| #![trigger c1[i]] 0 <= i < c1.len() && i != cur && i != n ==> c1[i] == c0[i],
        c1[cur].row == c0[cur].row && c1[cur].column == c0[cur].column && c1[cur].visited,
        c1[n].row == c0[n].row && c1[n].column == c0[n].column && c1[n].visited,
        forall|d: int| 0 <= d < 4 ==> #[trigger] wall(c1[cur], d) == (wall(c0[cur], d) && d != faces(c0[cur], c0[n])),
        forall|d: int| 0 <= d < 4 ==> #[trigger] wall(c1[n], d) == (wall(c0[n], d) && d != faces(c0[n], c0[cur])),
        0 <= a < c1.len(),
        0 <= b < c1.len(),
        0 <= faces(c1[a], c1[b]),
    ensures
        opened(c1, a, b) <==> ((c1[a].visited && a != 0 && parent.update(n, cur)[a] == b) || (c1[b].visited && b
            != 0 && parent.update(n, cur)[b] == a)),
{
    let p1 = parent.update(n, cur);
    // places, and so the side facing, are as before
    assert(c1[a].row == c0[a].row && c1[a].column == c0[a].column);
    assert(c1[b].row == c0[b].row && c1[b].column == c0[b].column);
    let fa = faces(c0[a], c0[b]);
    let fb = faces(c0[b], c0[a]);
    assert(faces(c1[a], c1[b]) == fa);
    assert(faces(c1[b], c1[a]) == fb);
    assert(0 <= fb < 4);
    assert(opened(c0, a, b) == opened(c0, b, a));
    if a == cur && b == n {
        assert(!wall(c1[cur], fa));
    } else if a == n && b == cur {
        assert(!wall(c1[n], fa));
    } else if a == n {
        // n keeps its other walls, which were all closed
        assert(fa != faces(c0[n], c0[cur]));
        assert(wall(c0[n], fa));
        assert(wall(c1[n], fa));
        assert(!opened(c0, b, a));
        if b != 0 && c0[b].visited {
            assert(c0[parent[b]].visited);
        }
    } else if b == n {
        if a == cur {
        } else {
            assert(c1[a] == c0[a]);
            assert(fb != faces(c0[n], c0[cur]));
            assert(wall(c0[n], fb));
            assert(!opened(c0, b, a));
            if a != 0 && c0[a].visited {
                assert(c0[parent[a]].visited);
            }
        }
    } else if a == cur {
        assert(fa != faces(c0[cur], c0[n]));
        assert(c1[b] == c0[b]);
        assert(wall(c1[cur], fa) == wall(c0[cur], fa));
        assert(opened(c0, a, b) <==> ((c0[a].visited && a != 0 && parent[a] == b) || (c0[b].visited && b != 0
            && parent[b] == a)));
    } else if b == cur {
        assert(c1[a] == c0[a]);
        assert(opened(c0, a, b) <==> ((c0[a].visited && a != 0 && parent[a] == b) || (c0[b].visited && b != 0
            && parent[b] == a)));
    } else {
        assert(c1[a] == c0[a] && c1[b] == c0[b]);
        assert(opened(c0, a, b) <==> ((c0[a].visited && a != 0 && parent[a] == b) || (c0[b].visited && b != 0
            && parent[b] == a)));
    }
}

pub open spec fn count_unvisited(cells: Seq<Cell>) -> nat
    decreases cells.len(),
{
    if cells.len() == 0 {
        0
    } else {
        count_unvisited(cells.drop_last()) + if cells.last().visited { 0nat } else { 1nat }
    }
}

proof fn lemma_visit(cells: Seq<Cell>, i: int, c: Cell)
    requires
        0 <= i < cells.len(),
        c.visited,
    ensures
        count_unvisited(cells.update(i, c)) == count_unvisited(cells) - if cells[i].visited { 0int } else { 1int },
    decreases cells.len(),
{
    if i == cells.len() - 1 {
        assert(cells.update(i, c).drop_last() =~= cells.drop_last());
    } else {
        lemma_visit(cells.drop_last(), i, c);
        assert(cells.update(i, c).drop_last() =~= cells.drop_last().update(i, c));
    }
}

/// The logical maze: `width` by `height` cells stored row by row.
pub struct MazeGrid {
    pub width: usize,
    pub height: usize,
    pub cells: Vec<Cell>,
}

impl MazeGrid {
    pub open spec fn wf(&self) -> bool {
        &&& self.cells@.len() == self.width * self.height
        &&& self.width * self.height <= usize::MAX
        &&& self.width >= 1
        &&& self.height >= 1
        &&& self.width < i32::MAX
        &&& self.height < i32::MAX
        &&& forall|i: int|
            #![trigger self.cells@[i]]
            0 <= i < self.cells@.len() ==> self.cells@[i].row < self.height && self.cells@[i].column < self.width
                && self.cells@[i].row * self.width + self.cells@[i].column == i
    }

    /// A grid of walled, unvisited cells.
    pub fn new(width: usize, height: usize) -> (r: MazeGrid)
        requires
            1 <= width < i32::MAX,
            1 <= height < i32::MAX,
            width * height <= usize::MAX,
        ensures
            r.wf(),
            r.width == width,
            r.height == height,
            forall|k: int| 0 <= k < r.cells@.len() ==> !(#[trigger] r.cells@[k]).visited,
            forall|k: int|
                0 <= k < r.cells@.len() ==> (#[trigger] r.cells@[k]).top && r.cells@[k].right && r.cells@[k].bottom
                    && r.cells@[k].left,
    {
        let mut cells: Vec<Cell> = Vec::new();
        let mut row: usize = 0;
        while row < height
            invariant
                1 <= width < i32::MAX,
                1 <= height < i32::MAX,
                width * height <= usize::MAX,
                row <= height,
                cells@.len() == row * width,
                forall|k: int| 0 <= k < cells@.len() ==> !(#[trigger] cells@[k]).visited,
                forall|k: int|
                    0 <= k < cells@.len() ==> (#[trigger] cells@[k]).top && cells@[k].right && cells@[k].bottom
                        && cells@[k].left,
                forall|i: int|
                    #![trigger cells@[i]]
                    0 <= i < cells@.len() ==> cells@[i].row < height && cells@[i].column < width && cells@[i].row
                        * width + cells@[i].column == i,
            decreases height - row,
        {
            let mut column: usize = 0;
            proof {
                assert(row * width + width <= height * width) by (nonlinear_arith)
                    requires row < height, width >= 1;
            }
            while column < width
                invariant
                    1 <= width < i32::MAX,
                    1 <= height < i32::MAX,
                    width * height <= usize::MAX,
                    row < height,
                    column <= width,
                    row * width + width <= height * width,
                    cells@.len() == row * width + column,
                    forall|k: int| 0 <= k < cells@.len() ==> !(#[trigger] cells@[k]).visited,
                    forall|k: int|
                        0 <= k < cells@.len() ==> (#[trigger] cells@[k]).top && cells@[k].right && cells@[k].bottom
                            && cells@[k].left,
                forall|k: int|
                    0 <= k < cells@.len() ==> (#[trigger] cells@[k]).top && cells@[k].right && cells@[k].bottom
                        && cells@[k].left,
                    forall|i: int|
                        #![trigger cells@[i]]
                        0 <= i < cells@.len() ==> cells@[i].row < height && cells@[i].column < width
                            && cells@[i].row * width + cells@[i].column == i,
                decreases width - column,
            {
                cells.push(
                    Cell { row, column, top: true, right: true, bottom: true, left: true, visited: false },
                );
                column = column + 1;
            }
            proof {
                assert((row + 1) * width == row * width + width) by (nonlinear_arith);
            }
            row = row + 1;
        }
        assert(height * width == width * height) by (nonlinear_arith);
        MazeGrid { width, height, cells }
    }

    /// Cells `c` and `n` share a side.
    pub open spec fn adjacent(&self, c: int, n: int) -> bool {
        let (a, b) = (self.cells@[c], self.cells@[n]);
        (a.row == b.row && (a.column + 1 == b.column || b.column + 1 == a.column)) || (a.column == b.column && (
        a.row + 1 == b.row || b.row + 1 == a.row))
    }

    /// Every neighbour of cell `k` is visited.
    pub open spec fn finished(&self, k: int) -> bool {
        forall|n: int| 0 <= n < self.cells@.len() && #[trigger] self.adjacent(k, n) ==> self.cells@[n].visited
    }

    /// With the first cell visited and every visited cell finished, every
    /// cell up to `k` is visited: the grid is connected.
    pub proof fn lemma_all_visited(&self, k: int)
        requires
            self.wf(),
            0 <= k < self.cells@.len(),
            self.cells@[0].visited,
            forall|j: int| 0 <= j < self.cells@.len() && #[trigger] self.cells@[j].visited ==> self.finished(j),
        ensures
            forall|j: int| 0 <= j <= k ==> #[trigger] self.cells@[j].visited,
        decreases k,
    {
        if k > 0 {
            self.lemma_all_visited(k - 1);
            let w = self.width as int;
            self.lemma_cell_at(k);
            let (r, c) = (self.cells@[k].row as int, self.cells@[k].column as int);
            if c > 0 {
                self.lemma_cell_at(k - 1);
                crate::map_buffer::lemma_cell_index_unique(w, self.cells@[k - 1].column as int,
                    self.cells@[k - 1].row as int, c - 1, r);
                assert(self.cells@[k - 1].visited);
                assert(self.adjacent(k - 1, k));
            } else {
                assert(r >= 1) by (nonlinear_arith)
                    requires r * w + c == k, c == 0, k > 0, r >= 0;
                assert((r - 1) * w + c == k - w) by (nonlinear_arith)
                    requires r * w + c == k;
                self.lemma_cell_at(k - w);
                crate::map_buffer::lemma_cell_index_unique(w, self.cells@[k - w].column as int,
                    self.cells@[k - w].row as int, c, r - 1);
                assert(self.cells@[k - w].visited);
                assert(self.adjacent(k - w, k));
            }
            assert forall|j: int| 0 <= j <= k implies #[trigger] self.cells@[j].visited by {
                if j < k {
                    assert(self.cells@[j].visited);
                }
            }
        }
    }

    /// Indices of the unvisited cells above, right of, below and left of
    /// cell `current`, in that order.
    pub fn get_available_neighbors(&self, current: usize) -> (r: Vec<usize>)
        requires
            self.wf(),
            current < self.cells@.len(),
        ensures
            r@.len() <= 4,
            forall|k: int|
                #![trigger r@[k]]
                0 <= k < r@.len() ==> r@[k] < self.cells@.len() && !self.cells@[r@[k] as int].visited
                    && self.adjacent(current as int, r@[k] as int),
            forall|n: int|
                0 <= n < self.cells@.len() && #[trigger] self.adjacent(current as int, n) && !self.cells@[n].visited
                    ==> r@.contains(n as usize),
    {
        let mut neighbors: Vec<usize> = Vec::new();
        let w = self.width;
        let row = self.cells[current].row;
        let column = self.cells[current].column;
        proof {
            assert(row * w + column < self.width * self.height);
            assert(row * w + w <= self.height * w) by (nonlinear_arith)
                requires row < self.height, w >= 1;
            assert(self.height * w == self.width * self.height) by (nonlinear_arith)
                requires w == self.width;
        }
        let ghost k_up = neighbors@.len();
        if row > 0 {
            proof {
                assert((row - 1) * w + column == current - w) by (nonlinear_arith)
                    requires row * w + column == current, row >= 1;
                self.lemma_cell_at(current - w);
                crate::map_buffer::lemma_cell_index_unique(w as int, self.cells@[current - w].column as int,
                    self.cells@[current - w].row as int, column as int, row - 1);
            }
            let up = current - w;
            let free = !self.cells[up].visited;
            push_cell_if(&mut neighbors, free, up);
        }
        let ghost k_right = neighbors@.len();
        if column + 1 < w {
            let right = current + 1;
            proof {
                self.lemma_cell_at(current + 1);
                crate::map_buffer::lemma_cell_index_unique(w as int, self.cells@[current + 1].column as int,
                    self.cells@[current + 1].row as int, column + 1, row as int);
            }
            let free = !self.cells[right].visited;
            push_cell_if(&mut neighbors, free, right);
        }
        let ghost k_down = neighbors@.len();
        if row + 1 < self.height {
            proof {
                assert((row + 1) * w + column == current + w) by (nonlinear_arith)
                    requires row * w + column == current;
                assert((row + 1) * w + column < self.width * self.height) by (nonlinear_arith)
                    requires row + 1 < self.height, column < w, self.width == w;
                self.lemma_cell_at(current + w);
                crate::map_buffer::lemma_cell_index_unique(w as int, self.cells@[current + w].column as int,
                    self.cells@[current + w].row as int, column as int, row + 1);
            }
            let down = current + w;
            let free = !self.cells[down].visited;
            push_cell_if(&mut neighbors, free, down);
        }
        let ghost k_left = neighbors@.len();
        if column > 0 {
            let left = current - 1;
            proof {
                self.lemma_cell_at(current - 1);
                crate::map_buffer::lemma_cell_index_unique(w as int, self.cells@[current - 1].column as int,
                    self.cells@[current - 1].row as int, column - 1, row as int);
            }
            let free = !self.cells[left].visited;
            push_cell_if(&mut neighbors, free, left);
        }
        proof {
            assert forall|n: int|
                0 <= n < self.cells@.len() && #[trigger] self.adjacent(current as int, n) && !self.cells@[n].visited
                    implies neighbors@.contains(n as usize) by {
                self.lemma_cell_at(n);
                let (nr, nc) = (self.cells@[n].row as int, self.cells@[n].column as int);
                if nr + 1 == row && nc == column {
                    assert(n == current - w) by (nonlinear_arith)
                        requires n == nr * w + nc, current == row * w + column, nr + 1 == row, nc == column;
                    assert(neighbors@[k_up as int] == n as usize);
                } else if nr == row && nc == column + 1 {
                    assert(neighbors@[k_right as int] == n as usize);
                } else if nr == row + 1 && nc == column {
                    assert(n == current + w) by (nonlinear_arith)
                        requires n == nr * w + nc, current == row * w + column, nr == row + 1, nc == column;
                    assert(neighbors@[k_down as int] == n as usize);
                } else {
                    assert(neighbors@[k_left as int] == n as usize);
                }
            }
        }
        neighbors
    }

    /// The coordinates of cell `i` give back its index.
    proof fn lemma_cell_at(&self, i: int)
        requires
            self.wf(),
            0 <= i < self.cells@.len(),
        ensures
            self.cells@[i].row * self.width + self.cells@[i].column == i,
            self.cells@[i].row < self.height,
            self.cells@[i].column < self.width,
    {
        assert(self.cells@[i] == self.cells@[i]);
    }

    /// A random unvisited neighbour of cell `current`, if it has one.
    pub fn find_next_cell(&self, rng: &mut StdRng, current: usize) -> (r: Option<usize>)
        requires
            self.wf(),
            current < self.cells@.len(),
        ensures
            r matches Some(n) ==> n < self.cells@.len() && !self.cells@[n as int].visited && self.adjacent(
                current as int,
                n as int,
            ),
            r.is_none() <==> forall|n: int|
                0 <= n < self.cells@.len() && #[trigger] self.adjacent(current as int, n) ==> self.cells@[n].visited,
    {
        let neighbors = self.get_available_neighbors(current);
        if neighbors.len() == 0 {
            None
        } else if neighbors.len() == 1 {
            Some(neighbors[0])
        } else {
            let k = roll_dice(rng, 1, neighbors.len()) - 1;
            Some(neighbors[k])
        }
    }

    /// Opens the wall between cell `a` and its neighbour `b`.
    #[verifier::rlimit(100)]
    #[verifier::spinoff_prover]
    pub fn remove_walls(&mut self, a: usize, b: usize)
        requires
            old(self).wf(),
            a < old(self).cells@.len(),
            b < old(self).cells@.len(),
        ensures
            final(self).wf(),
            final(self).width == old(self).width,
            final(self).height == old(self).height,
            forall|i: int|
                #![trigger final(self).cells@[i]]
                0 <= i < final(self).cells@.len() ==> final(self).cells@[i].visited == old(self).cells@[i].visited,
            forall|i: int|
                #![trigger final(self).cells@[i]]
                0 <= i < final(self).cells@.len() && i != a && i != b ==> final(self).cells@[i] == old(self).cells@[i],
            a != b ==> ({
                let (oa, ob) = (old(self).cells@[a as int], old(self).cells@[b as int]);
                let (na, nb) = (final(self).cells@[a as int], final(self).cells@[b as int]);
                &&& na == (if oa.column == ob.column + 1 {
                    Cell { left: false, ..oa }
                } else if ob.column == oa.column + 1 {
                    Cell { right: false, ..oa }
                } else if oa.row == ob.row + 1 {
                    Cell { top: false, ..oa }
                } else if ob.row == oa.row + 1 {
                    Cell { bottom: false, ..oa }
                } else {
                    oa
                })
                &&& nb == (if oa.column == ob.column + 1 {
                    Cell { right: false, ..ob }
                } else if ob.column == oa.column + 1 {
                    Cell { left: false, ..ob }
                } else if oa.row == ob.row + 1 {
                    Cell { bottom: false, ..ob }
                } else if ob.row == oa.row + 1 {
                    Cell { top: false, ..ob }
                } else {
                    ob
                })
            }),
    {
        let mut ca = self.cells[a];
        let mut cb = self.cells[b];
        let x = ca.column as i64 - cb.column as i64;
        let y = ca.row as i64 - cb.row as i64;
        if x == 1 {
            ca.left = false;
            cb.right = false;
        } else if x == -1 {
            ca.right = false;
            cb.left = false;
        } else if y == 1 {
            ca.top = false;
            cb.bottom = false;
        } else if y == -1 {
            ca.bottom = false;
            cb.top = false;
        }
        self.cells.set(a, ca);
        self.cells.set(b, cb);
    }

    /// Draws the maze on `map`: everything wall, then for each visited cell
    /// its centre and each side without a wall become floor.
    pub fn copy_to_map(&self, map: &mut MapBuffer)
        requires
            self.wf(),
            old(map).wf(),
            2 * self.width + 4 <= old(map).width,
            2 * self.height + 4 <= old(map).height,
        ensures
            final(map).wf(),
            final(map).same_frame(old(map)),
            forall|a: int, b: int|
                #![trigger final(map).walkable_at(a, b)]
                final(map).walkable_at(a, b) ==> 1 <= a <= 2 * self.width + 1 && 1 <= b <= 2 * self.height + 1,
            forall|a: int, b: int|
                #![trigger final(map).walkable_at(a, b)]
                final(map).walkable_at(a, b) == exists|k: int|
                    0 <= k < self.cells@.len() && #[trigger] cell_draws(self.cells@[k], a, b),
    {
        let mut i: usize = 0;
        while i < map.walkables.len()
            invariant
                map.wf(),
                map.same_frame(old(map)),
                i <= map.walkables@.len(),
                forall|k: int| 0 <= k < i ==> !#[trigger] map.walkables@[k],
            decreases map.walkables@.len() - i,
        {
            map.walkables.set(i, false);
            i = i + 1;
        }
        assert forall|a: int, b: int| #![trigger map.walkable_at(a, b)] !map.walkable_at(a, b) by {
            if map.in_bounds(a, b) {
                crate::map_buffer::lemma_cell_index(map.width as int, map.height as int, a, b);
            }
        }
        let mut k: usize = 0;
        while k < self.cells.len()
            invariant
                self.wf(),
                map.wf(),
                map.same_frame(old(map)),
                2 * self.width + 4 <= map.width,
                2 * self.height + 4 <= map.height,
                k <= self.cells@.len(),
                forall|a: int, b: int|
                    #![trigger map.walkable_at(a, b)]
                    map.walkable_at(a, b) ==> 1 <= a <= 2 * self.width + 1 && 1 <= b <= 2 * self.height + 1,
                forall|a: int, b: int|
                    #![trigger map.walkable_at(a, b)]
                    map.walkable_at(a, b) == exists|j: int| 0 <= j < k && #[trigger] cell_draws(self.cells@[j], a, b),
            decreases self.cells@.len() - k,
        {
            let cell = self.cells[k];
            let ghost before = *map;
            proof {
                assert(cell.row < self.height && cell.column < self.width);
            }
            if cell.visited {
                let x = (cell.column + 1) * 2;
                let y = (cell.row + 1) * 2;
                fill_cells(map, x, x + 1, y, y + 1);
                if !cell.top {
                    fill_cells(map, x, x + 1, y - 1, y);
                }
                if !cell.right {
                    fill_cells(map, x + 1, x + 2, y, y + 1);
                }
                if !cell.bottom {
                    fill_cells(map, x, x + 1, y + 1, y + 2);
                }
                if !cell.left {
                    fill_cells(map, x - 1, x, y, y + 1);
                }
            }
            proof {
                assert forall|a: int, b: int|
                    #![trigger map.walkable_at(a, b)]
                    map.walkable_at(a, b) == exists|j: int| 0 <= j < k + 1 && #[trigger] cell_draws(self.cells@[j], a, b) by {
                    if map.walkable_at(a, b) && !before.walkable_at(a, b) {
                        assert(cell_draws(self.cells@[k as int], a, b));
                    }
                    if exists|j: int| 0 <= j < k + 1 && #[trigger] cell_draws(self.cells@[j], a, b) {
                        let j = choose|j: int| 0 <= j < k + 1 && #[trigger] cell_draws(self.cells@[j], a, b);
                        if j < k {
                            assert(before.walkable_at(a, b));
                        }
                    }
                }
            }
            k = k + 1;
        }
    }
}

/// Drawing visited cell `c` makes (a, b) floor: its centre, at twice its
/// coordinates plus two, and the cell next to the centre on each open side.
pub open spec fn cell_draws(c: Cell, a: int, b: int) -> bool {
    let x = (c.column + 1) * 2;
    let y = (c.row + 1) * 2;
    &&& c.visited
    &&& ((a == x && b == y) || (!c.top && a == x && b == y - 1) || (!c.right && a == x + 1 && b == y) || (
    !c.bottom && a == x && b == y + 1) || (!c.left && a == x - 1 && b == y))
}

/// Appends `n` when `c` holds; earlier entries stay in place.
fn push_cell_if(v: &mut Vec<usize>, c: bool, n: usize)
    ensures
        final(v)@.len() == old(v)@.len() + if c { 1int } else { 0int },
        forall|i: int| 0 <= i < old(v)@.len() ==> #[trigger] final(v)@[i] == old(v)@[i],
        c ==> final(v)@[old(v)@.len() as int] == n,
{
    if c {
        v.push(n);
    }
}

/// Carves a maze with a recursive backtracker.
#[derive(Copy, Clone, Debug)]
pub struct MazeBuilder {}

impl MazeBuilder {
    pub fn new() -> (r: MazeBuilder) {
        MazeBuilder {}
    }

    /// What `modify_map` returns: the drawing of a logical maze of the right
    /// size whose cells are all visited; so the outer ring is wall and cell
    /// (2, 2) is floor.
    pub open spec fn outcome(&self, m: MapBuffer, r: MapBuffer) -> bool {
        &&& r.fits()
        &&& r.same_frame(&m)
        &&& r.border_blocked()
        &&& r.walkable_at(2, 2)
        &&& exists|g: MazeGrid|
            #![trigger g.wf()]
            g.wf() && g.width == m.width / 2 - 2 && g.height == m.height / 2 - 2 && g.cells@[0].visited
                && (forall|k: int| 0 <= k < g.cells@.len() ==> #[trigger] g.cells@[k].visited)
                && (exists|parent: Seq<int>, rank: Seq<int>| #[trigger] tree_by(g.cells@, parent, rank))
                && forall|a: int, b: int|
                #![trigger r.walkable_at(a, b)]
                r.walkable_at(a, b) == exists|k: int| 0 <= k < g.cells@.len() && #[trigger] cell_draws(g.cells@[k], a, b)
    }

    /// Walks the logical maze from its first cell: each step visits a random
    /// unvisited neighbour and opens the wall to it, or, with none left,
    /// returns to the cell last left behind, until there is none to return
    /// to. The maze is drawn on the map every fiftieth step and at the end.
    pub fn modify_map(&self, rng: &mut StdRng, map: &MapBuffer) -> (r: MapBuffer)
        requires
            map.fits(),
            map.width >= 6,
            map.height >= 6,
        ensures
            self.outcome(*map, r),
    {
        let mut new_map = map.duplicate();
        let gw = map.width / 2 - 2;
        let gh = map.height / 2 - 2;
        assert(gw * gh <= map.width * map.height && gw * gh >= 1) by (nonlinear_arith)
            requires 1 <= gw <= map.width, 1 <= gh <= map.height;
        let mut grid = MazeGrid::new(gw, gh);
        let mut backtrace: Vec<usize> = Vec::new();
        let mut current: usize = 0;
        let mut i: usize = 0;
        let mut c0 = grid.cells[0];
        c0.visited = true;
        grid.cells.set(0, c0);
        let ghost cells0 = grid.cells@;
        let ghost mut parent: Seq<int> = Seq::new(grid.cells@.len(), |k: int| 0int);
        let ghost mut rank: Seq<int> = Seq::new(grid.cells@.len(), |k: int| 0int);
        let ghost mut counter: int = 1;
        proof {
            lemma_places(grid);
            assert forall|a: int, b: int|
                0 <= a < grid.cells@.len() && 0 <= b < grid.cells@.len() && 0 <= faces(grid.cells@[a], grid.cells@[b])
                    implies !#[trigger] opened(grid.cells@, a, b) by {
                assert(grid.cells@[a].top && grid.cells@[a].right && grid.cells@[a].bottom && grid.cells@[a].left);
            }
            assert forall|k: int| 0 <= k < grid.cells@.len() && k != 0 implies !#[trigger] grid.cells@[k].visited by {}
            assert(tree_so_far(grid.cells@, parent, rank, counter));
        }
        loop
            invariant
                map.fits(),
                new_map.fits(),
                new_map.same_frame(map),
                map.width >= 6,
                map.height >= 6,
                grid.wf(),
                grid.width == map.width / 2 - 2,
                grid.height == map.height / 2 - 2,
                grid.cells@[0].visited,
                current < grid.cells@.len(),
                forall|k: int| #![trigger backtrace@[k]] 0 <= k < backtrace@.len() ==> backtrace@[k] < grid.cells@.len(),
                forall|k: int|
                    #![trigger grid.cells@[k]]
                    0 <= k < grid.cells@.len() ==> grid.cells@[k].row == cells0[k].row && grid.cells@[k].column
                        == cells0[k].column,
                forall|k: int|
                    0 <= k < grid.cells@.len() && #[trigger] grid.cells@[k].visited ==> k == current
                        || backtrace@.contains(k as usize) || grid.finished(k),
                tree_so_far(grid.cells@, parent, rank, counter),
                distinct_places(grid.cells@),
                grid.cells@[current as int].visited,
                forall|k: int| #![trigger backtrace@[k]] 0 <= k < backtrace@.len() ==> grid.cells@[backtrace@[k] as int].visited,
            ensures
                exists|parent: Seq<int>, rank: Seq<int>, counter: int| #[trigger] tree_so_far(grid.cells@, parent, rank, counter),
                new_map.fits(),
                new_map.same_frame(map),
                grid.wf(),
                grid.width == map.width / 2 - 2,
                grid.height == map.height / 2 - 2,
                grid.cells@[0].visited,
                forall|k: int|
                    0 <= k < grid.cells@.len() && #[trigger] grid.cells@[k].visited ==> grid.finished(k),
            decreases count_unvisited(grid.cells@), backtrace@.len(),
        {
            let ghost g0 = grid;
            let ghost stack0 = backtrace@;
            let ghost cur0 = current;
            let mut c = grid.cells[current];
            c.visited = true;
            proof {
                lemma_visit(grid.cells@, current as int, c);
            }
            grid.cells.set(current, c);
            assert(grid.cells@ =~= g0.cells@);
            let next = grid.find_next_cell(rng, current);
            match next {
                Some(n) => {
                    let mut cn = grid.cells[n];
                    cn.visited = true;
                    proof {
                        lemma_visit(grid.cells@, n as int, cn);
                    }
                    let ghost c0 = grid.cells@;
                    grid.cells.set(n, cn);
                    backtrace.push(current);
                    let ghost cells1 = grid.cells@;
                    grid.remove_walls(current, n);
                    proof {
                        assert(cells1[current as int] == c0[current as int]);
                        lemma_walls(cells1[current as int], cells1[n as int], grid.cells@[current as int], grid.cells@[n as int]);
                        lemma_tree_step(c0, grid.cells@, current as int, n as int, parent, rank, counter);
                        parent = parent.update(n as int, current as int);
                        rank = rank.update(n as int, counter);
                        counter = counter + 1;
                        assert forall|k: int| #![trigger backtrace@[k]] 0 <= k < backtrace@.len() implies grid.cells@[backtrace@[k] as int].visited by {
                            if k < stack0.len() {
                                assert(backtrace@[k] == stack0[k]);
                                assert(g0.cells@[stack0[k] as int].visited);
                            }
                        }
                        lemma_same_visited(cells1, grid.cells@);
                        assert(grid.cells@[0].visited == cells1[0].visited);
                        assert(grows(g0, grid));
                        assert forall|k: int|
                            0 <= k < grid.cells@.len() && #[trigger] grid.cells@[k].visited implies k == n
                                || backtrace@.contains(k as usize) || grid.finished(k) by {
                            assert(backtrace@ == stack0.push(cur0 as usize));
                            assert(backtrace@[stack0.len() as int] == cur0 as usize);
                            if k != n && k != cur0 {
                                assert(g0.cells@[k].visited);
                                if stack0.contains(k as usize) {
                                    let j = choose|j: int| 0 <= j < stack0.len() && stack0[j] == k as usize;
                                    assert(backtrace@[j] == k as usize);
                                } else {
                                    lemma_finished_stable(g0, grid, k);
                                }
                            }
                        }
                    }
                    current = n;
                },
                None => {
                    let ghost g1 = grid;
                    proof {
                        assert(grows(g0, grid));
                        assert(grid.finished(cur0 as int));
                    }
                    match backtrace.pop() {
                        Some(b) => {
                            proof {
                                assert forall|k: int|
                                    0 <= k < grid.cells@.len() && #[trigger] grid.cells@[k].visited implies k == b
                                        || backtrace@.contains(k as usize) || grid.finished(k) by {
                                    if k != cur0 {
                                        assert(g0.cells@[k].visited);
                                        if stack0.contains(k as usize) {
                                            let j = choose|j: int| 0 <= j < stack0.len() && stack0[j] == k as usize;
                                            if j < backtrace@.len() {
                                                assert(backtrace@[j] == k as usize);
                                            }
                                        } else {
                                            lemma_finished_stable(g0, grid, k);
                                        }
                                    }
                                }
                                assert(b == stack0[stack0.len() - 1]);
                                assert forall|k: int| #![trigger backtrace@[k]] 0 <= k < backtrace@.len() implies grid.cells@[backtrace@[k] as int].visited by {
                                    assert(backtrace@[k] == stack0[k]);
                                }
                            }
                            current = b;
                        },
                        None => {
                            proof {
                                assert forall|k: int|
                                    0 <= k < grid.cells@.len() && #[trigger] grid.cells@[k].visited implies grid.finished(k) by {
                                    if k != cur0 {
                                        assert(g0.cells@[k].visited);
                                        assert(!stack0.contains(k as usize));
                                        lemma_finished_stable(g0, grid, k);
                                    }
                                }
                                assert(tree_so_far(grid.cells@, parent, rank, counter));
                            }
                            break;
                        },
                    }
                },
            }
            if i % 50 == 0 {
                grid.copy_to_map(&mut new_map);
            }
            i = if i < usize::MAX { i + 1 } else { 0 };
        }
        grid.copy_to_map(&mut new_map);
        proof {
            grid.lemma_all_visited(grid.cells@.len() - 1);
            let (tp, tr, tc) = choose|tp: Seq<int>, tr: Seq<int>, tc: int| #[trigger] tree_so_far(grid.cells@, tp, tr, tc);
            lemma_tree_done(grid.cells@, tp, tr, tc);
            assert forall|x: int, y: int|
                #![trigger new_map.walkable_at(x, y)]
                new_map.in_bounds(x, y) && (x == 0 || y == 0 || x == new_map.width - 1 || y == new_map.height - 1)
                    implies !new_map.walkable_at(x, y) by {}
            assert(grid.cells@[0].row == 0 && grid.cells@[0].column == 0) by {
                assert(grid.cells@[0].row * grid.width + grid.cells@[0].column == 0);
                assert(grid.cells@[0].row == 0) by (nonlinear_arith)
                    requires grid.cells@[0].row * grid.width + grid.cells@[0].column == 0, grid.width >= 1;
            }
            assert(cell_draws(grid.cells@[0], 2, 2));
            assert(new_map.walkable_at(2, 2));
        }
        new_map
    }
}

/// The grid kept its cells' places and only gained visited cells.
pub open spec fn grows(a: MazeGrid, b: MazeGrid) -> bool {
    &&& a.cells@.len() == b.cells@.len()
    &&& forall|k: int|
        #![trigger b.cells@[k]]
        0 <= k < b.cells@.len() ==> b.cells@[k].row == a.cells@[k].row && b.cells@[k].column == a.cells@[k].column
            && (a.cells@[k].visited ==> b.cells@[k].visited)
}

/// A finished cell stays finished as the grid grows.
proof fn lemma_finished_stable(a: MazeGrid, b: MazeGrid, k: int)
    requires
        grows(a, b),
        0 <= k < a.cells@.len(),
        a.finished(k),
    ensures
        b.finished(k),
{
    assert forall|n: int| 0 <= n < b.cells@.len() && #[trigger] b.adjacent(k, n) implies b.cells@[n].visited by {
        assert(b.cells@[k].row == a.cells@[k].row && b.cells@[n].row == a.cells@[n].row);
        assert(a.adjacent(k, n));
    }
}

/// What `remove_walls` does to the two cells, side by side.
proof fn lemma_walls(oa: Cell, ob: Cell, na: Cell, nb: Cell)
    requires
        0 <= faces(oa, ob),
        na == (if oa.column == ob.column + 1 {
            Cell { left: false, ..oa }
        } else if ob.column == oa.column + 1 {
            Cell { right: false, ..oa }
        } else if oa.row == ob.row + 1 {
            Cell { top: false, ..oa }
        } else if ob.row == oa.row + 1 {
            Cell { bottom: false, ..oa }
        } else {
            oa
        }),
        nb == (if oa.column == ob.column + 1 {
            Cell { right: false, ..ob }
        } else if ob.column == oa.column + 1 {
            Cell { left: false, ..ob }
        } else if oa.row == ob.row + 1 {
            Cell { bottom: false, ..ob }
        } else if ob.row == oa.row + 1 {
            Cell { top: false, ..ob }
        } else {
            ob
        }),
    ensures
        na.row == oa.row && na.column == oa.column && na.visited == oa.visited,
        nb.row == ob.row && nb.column == ob.column && nb.visited == ob.visited,
        forall|d: int| 0 <= d < 4 ==> #[trigger] wall(na, d) == (wall(oa, d) && d != faces(oa, ob)),
        forall|d: int| 0 <= d < 4 ==> #[trigger] wall(nb, d) == (wall(ob, d) && d != faces(ob, oa)),
{
}

proof fn lemma_same_visited(c1: Seq<Cell>, c2: Seq<Cell>)
    requires
        c1.len() == c2.len(),
        forall|i: int| #![trigger c2[i]] 0 <= i < c2.len() ==> c2[i].visited == c1[i].visited,
    ensures
        count_unvisited(c1) == count_unvisited(c2),
    decreases c1.len(),
{
    if c1.len() > 0 {
        lemma_same_visited(c1.drop_last(), c2.drop_last());
        assert(c2[c2.len() - 1].visited == c1[c1.len() - 1].visited);
    }
}

} // verus!
