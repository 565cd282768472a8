//! Cost of walking from one cell to every other cell of a map.
//!
//! Costs are in hundredths of a move: 100 along an axis, 145 on a diagonal.
//! A cell that cannot be reached, or only at a cost of at least the depth
//! bound (one hundred per cell of the map), holds `UNREACHABLE`.
use vstd::prelude::*;
use crate::geometry::Point;
use crate::map_buffer::{is_exit, lemma_cell_index, step_cost, MapBuffer};

verus! {

/// The cost that marks a cell as out of reach.
pub const UNREACHABLE: u64 = 0xffff_ffff_ffff_ffff;

/// Cost of cell (x, y) in a row-major cost array of a grid `w` cells wide.
pub open spec fn cost_at(tiles: Seq<u64>, w: int, x: int, y: int) -> u64 {
    tiles[y * w + x]
}

pub open spec fn sum_costs(s: Seq<u64>) -> int
    decreases s.len(),
{
    if s.len() == 0 {
        0
    } else {
        sum_costs(s.drop_last()) + s.last()
    }
}

proof fn lemma_sum_update(s: Seq<u64>, i: int, v: u64)
    requires
        0 <= i < s.len(),
    ensures
        sum_costs(s.update(i, v)) == sum_costs(s) - s[i] + v,
    decreases s.len(),
{
    if i == s.len() - 1 {
        assert(s.update(i, v).drop_last() =~= s.drop_last());
    } else {
        lemma_sum_update(s.drop_last(), i, v);
        assert(s.update(i, v).drop_last() =~= s.drop_last().update(i, v));
    }
}

proof fn lemma_sum_nonneg(s: Seq<u64>)
    ensures
        sum_costs(s) >= 0,
    decreases s.len(),
{
    if s.len() > 0 {
        lemma_sum_nonneg(s.drop_last());
    }
}

/// No move out of (x, y) could lower a neighbour's cost below the depth bound.
pub open spec fn relaxed_at(m: MapBuffer, tiles: Seq<u64>, bound: int, x: int, y: int) -> bool {
    forall|nx: int, ny: int|
        #![trigger is_exit(m, x, y, nx, ny)]
        is_exit(m, x, y, nx, ny) && cost_at(tiles, m.width as int, x, y) + step_cost(x, y, nx, ny)
            < bound ==> cost_at(tiles, m.width as int, nx, ny) <= cost_at(tiles, m.width as int, x, y)
            + step_cost(x, y, nx, ny)
}

/// Cell (x, y) is reached by one move from a reached cell whose cost plus
/// the move's cost is at most its own.
pub open spec fn supported_at(m: MapBuffer, tiles: Seq<u64>, x: int, y: int) -> bool {
    exists|px: int, py: int|
        #![trigger is_exit(m, px, py, x, y)]
        m.in_bounds(px, py) && cost_at(tiles, m.width as int, px, py) != UNREACHABLE && is_exit(m, px, py, x, y)
            && cost_at(tiles, m.width as int, px, py) + step_cost(px, py, x, y) <= cost_at(
            tiles,
            m.width as int,
            x,
            y,
        )
}

/// Every queued entry from index `from` on names a cell of the map, a cost
/// under the bound, and no less than the cell's present cost.
pub open spec fn queue_ok(m: MapBuffer, tiles: Seq<u64>, queue: Seq<(usize, usize, u64)>, from: int, bound: int) -> bool {
    forall|k: int|
        #![trigger queue[k]]
        from <= k < queue.len() ==> {
            let e = queue[k];
            &&& m.in_bounds(e.0 as int, e.1 as int)
            &&& e.2 < bound
            &&& cost_at(tiles, m.width as int, e.0 as int, e.1 as int) <= e.2
        }
}

/// What holds of one cell while the search runs: its cost is under the
/// bound or out of reach; a reached cell has had its moves relaxed or waits
/// in the queue with its present cost; a reached cell other than the start
/// is supported by a neighbour.
pub open spec fn cell_ok(
    m: MapBuffer,
    tiles: Seq<u64>,
    queue: Seq<(usize, usize, u64)>,
    from: int,
    sx: int,
    sy: int,
    bound: int,
    x: int,
    y: int,
) -> bool {
    let c = cost_at(tiles, m.width as int, x, y);
    &&& c == UNREACHABLE || c < bound
    &&& (c != UNREACHABLE ==> relaxed_at(m, tiles, bound, x, y) || exists|k: int|
        #![trigger queue[k]]
        from <= k < queue.len() && queue[k] == (x as usize, y as usize, c))
    &&& (c != UNREACHABLE && (x != sx || y != sy) ==> supported_at(m, tiles, x, y))
}

#[verifier::opaque]
pub open spec fn cells_ok(
    m: MapBuffer,
    tiles: Seq<u64>,
    queue: Seq<(usize, usize, u64)>,
    from: int,
    sx: int,
    sy: int,
    bound: int,
) -> bool {
    forall|x: int, y: int|
        #![trigger cost_at(tiles, m.width as int, x, y)]
        m.in_bounds(x, y) ==> cell_ok(m, tiles, queue, from, sx, sy, bound, x, y)
}

/// Every one of the first `i` moves out of the current cell has been relaxed
/// with cost `depth`.
#[verifier::opaque]
pub open spec fn moves_done(
    m: MapBuffer,
    tiles: Seq<u64>,
    exits: Seq<(usize, usize, u32)>,
    i: int,
    depth: int,
    bound: int,
) -> bool {
    forall|j: int|
        #![trigger exits[j]]
        0 <= j < i ==> {
            let e = exits[j];
            cost_at(tiles, m.width as int, e.0 as int, e.1 as int) <= depth + e.2 || depth + e.2 >= bound
        }
}

/// The cost array `t2` is `t1` with the cost of (x, y) lowered to `v`.
pub open spec fn lowered(m: MapBuffer, t1: Seq<u64>, t2: Seq<u64>, x: int, y: int, v: u64) -> bool {
    &&& m.in_bounds(x, y)
    &&& v < cost_at(t1, m.width as int, x, y)
    &&& t1.len() == m.width * m.height
    &&& t2 == t1.update(y * m.width + x, v)
}

proof fn lemma_start(m: MapBuffer, tiles: Seq<u64>, queue: Seq<(usize, usize, u64)>, sx: int, sy: int, bound: int)
    requires
        m.wf(),
        m.in_bounds(sx, sy),
        bound > 0,
        bound < UNREACHABLE,
        tiles == Seq::new((m.width * m.height) as nat, |i: int| UNREACHABLE).update(sy * m.width + sx, 0u64),
        queue == seq![(sx as usize, sy as usize, 0u64)],
    ensures
        cells_ok(m, tiles, queue, 0, sx, sy, bound),
        queue_ok(m, tiles, queue, 0, bound),
        cost_at(tiles, m.width as int, sx, sy) == 0,
{
    reveal(cells_ok);
    lemma_cell_index(m.width as int, m.height as int, sx, sy);
    assert forall|x: int, y: int|
        #![trigger cost_at(tiles, m.width as int, x, y)]
        m.in_bounds(x, y) implies cell_ok(m, tiles, queue, 0, sx, sy, bound, x, y) by {
        lemma_cell_index(m.width as int, m.height as int, x, y);
        if x != sx || y != sy {
            if y * m.width + x == sy * m.width + sx {
                crate::map_buffer::lemma_cell_index_unique(m.width as int, x, y, sx, sy);
            }
        } else {
            assert(queue[0] == (x as usize, y as usize, 0u64));
        }
    }
}

/// Lowering one cell's cost and queueing it keeps every invariant.
proof fn lemma_lower(
    m: MapBuffer,
    t1: Seq<u64>,
    t2: Seq<u64>,
    q1: Seq<(usize, usize, u64)>,
    from: int,
    sx: int,
    sy: int,
    bound: int,
    px: int,
    py: int,
    nx: int,
    ny: int,
    v: u64,
    exits: Seq<(usize, usize, u32)>,
    i: int,
    depth: int,
)
    requires
        m.wf(),
        0 <= from <= q1.len(),
        bound < UNREACHABLE,
        m.in_bounds(sx, sy),
        cost_at(t1, m.width as int, sx, sy) == 0,
        cells_ok(m, t1, q1, from, sx, sy, bound),
        queue_ok(m, t1, q1, from, bound),
        moves_done(m, t1, exits, i, depth, bound),
        0 <= i < exits.len(),
        forall|j: int| 0 <= j < exits.len() ==> m.in_bounds(#[trigger] exits[j].0 as int, exits[j].1 as int),
        exits[i].0 == nx && exits[i].1 == ny,
        v == depth + exits[i].2,
        lowered(m, t1, t2, nx, ny, v),
        v < bound,
        m.in_bounds(px, py),
        cost_at(t1, m.width as int, px, py) <= depth,
        is_exit(m, px, py, nx, ny),
        v == depth + step_cost(px, py, nx, ny),
    ensures
        cells_ok(m, t2, q1.push((nx as usize, ny as usize, v)), from, sx, sy, bound),
        queue_ok(m, t2, q1.push((nx as usize, ny as usize, v)), from, bound),
        moves_done(m, t2, exits, i + 1, depth, bound),
        sum_costs(t2) < sum_costs(t1),
        cost_at(t2, m.width as int, px, py) == cost_at(t1, m.width as int, px, py),
        cost_at(t2, m.width as int, sx, sy) == cost_at(t1, m.width as int, sx, sy),
{
    let w = m.width as int;
    lemma_cell_index(w, m.height as int, nx, ny);
    lemma_sum_update(t1, ny * w + nx, v);
    lemma_update_cell(m, t1, t2, nx, ny, v);
    assert(cost_at(t1, w, nx, ny) == t1[ny * w + nx]);
    lemma_lower_cells(m, t1, t2, q1, from, sx, sy, bound, px, py, nx, ny, v);
    lemma_lower_queue(m, t1, t2, q1, from, bound, nx, ny, v);
    lemma_lower_moves(m, t1, t2, exits, i, depth, bound, nx, ny, v);
}

proof fn lemma_lower_moves(
    m: MapBuffer,
    t1: Seq<u64>,
    t2: Seq<u64>,
    exits: Seq<(usize, usize, u32)>,
    i: int,
    depth: int,
    bound: int,
    nx: int,
    ny: int,
    v: u64,
)
    requires
        m.wf(),
        moves_done(m, t1, exits, i, depth, bound),
        0 <= i < exits.len(),
        forall|j: int| 0 <= j < exits.len() ==> m.in_bounds(#[trigger] exits[j].0 as int, exits[j].1 as int),
        exits[i].0 == nx && exits[i].1 == ny,
        v == depth + exits[i].2,
        lowered(m, t1, t2, nx, ny, v),
        forall|a: int, b: int|
            #![trigger cost_at(t2, m.width as int, a, b)]
            m.in_bounds(a, b) ==> cost_at(t2, m.width as int, a, b) == if a == nx && b == ny {
                v
            } else {
                cost_at(t1, m.width as int, a, b)
            },
    ensures
        moves_done(m, t2, exits, i + 1, depth, bound),
{
    reveal(moves_done);
    let w = m.width as int;
    assert forall|j: int|
        #![trigger exits[j]]
        0 <= j < i + 1 implies {
            let e = exits[j];
            cost_at(t2, w, e.0 as int, e.1 as int) <= depth + e.2 || depth + e.2 >= bound
        } by {
        let e = exits[j];
        assert(m.in_bounds(e.0 as int, e.1 as int));
    }
}

proof fn lemma_lower_queue(
    m: MapBuffer,
    t1: Seq<u64>,
    t2: Seq<u64>,
    q1: Seq<(usize, usize, u64)>,
    from: int,
    bound: int,
    nx: int,
    ny: int,
    v: u64,
)
    requires
        m.wf(),
        0 <= from,
        queue_ok(m, t1, q1, from, bound),
        lowered(m, t1, t2, nx, ny, v),
        v < bound,
        forall|a: int, b: int|
            #![trigger cost_at(t2, m.width as int, a, b)]
            m.in_bounds(a, b) ==> cost_at(t2, m.width as int, a, b) == if a == nx && b == ny {
                v
            } else {
                cost_at(t1, m.width as int, a, b)
            },
    ensures
        queue_ok(m, t2, q1.push((nx as usize, ny as usize, v)), from, bound),
{
    let w = m.width as int;
    let q2 = q1.push((nx as usize, ny as usize, v));
    assert forall|k: int|
        #![trigger q2[k]]
        from <= k < q2.len() implies {
            let e = q2[k];
            &&& m.in_bounds(e.0 as int, e.1 as int)
            &&& e.2 < bound
            &&& cost_at(t2, w, e.0 as int, e.1 as int) <= e.2
        } by {
        if k < q1.len() {
            assert(q2[k] == q1[k]);
        }
    }
}

proof fn lemma_lower_cells(
    m: MapBuffer,
    t1: Seq<u64>,
    t2: Seq<u64>,
    q1: Seq<(usize, usize, u64)>,
    from: int,
    sx: int,
    sy: int,
    bound: int,
    px: int,
    py: int,
    nx: int,
    ny: int,
    v: u64,
)
    requires
        m.wf(),
        0 <= from <= q1.len(),
        bound < UNREACHABLE,
        cells_ok(m, t1, q1, from, sx, sy, bound),
        lowered(m, t1, t2, nx, ny, v),
        v < bound,
        m.in_bounds(px, py),
        cost_at(t1, m.width as int, px, py) + step_cost(px, py, nx, ny) <= v,
        is_exit(m, px, py, nx, ny),
        forall|a: int, b: int|
            #![trigger cost_at(t2, m.width as int, a, b)]
            m.in_bounds(a, b) ==> cost_at(t2, m.width as int, a, b) == if a == nx && b == ny {
                v
            } else {
                cost_at(t1, m.width as int, a, b)
            },
    ensures
        cells_ok(m, t2, q1.push((nx as usize, ny as usize, v)), from, sx, sy, bound),
{
    reveal(cells_ok);
    let w = m.width as int;
    let q2 = q1.push((nx as usize, ny as usize, v));
    assert forall|x: int, y: int|
        #![trigger cost_at(t2, w, x, y)]
        m.in_bounds(x, y) implies cell_ok(m, t2, q2, from, sx, sy, bound, x, y) by {
        assert(cell_ok(m, t1, q1, from, sx, sy, bound, x, y));
        lemma_lower_cell(m, t1, t2, q1, from, sx, sy, bound, px, py, nx, ny, v, x, y);
    }
}

proof fn lemma_lower_cell(
    m: MapBuffer,
    t1: Seq<u64>,
    t2: Seq<u64>,
    q1: Seq<(usize, usize, u64)>,
    from: int,
    sx: int,
    sy: int,
    bound: int,
    px: int,
    py: int,
    nx: int,
    ny: int,
    v: u64,
    x: int,
    y: int,
)
    requires
        m.wf(),
        0 <= from <= q1.len(),
        bound < UNREACHABLE,
        m.in_bounds(x, y),
        cell_ok(m, t1, q1, from, sx, sy, bound, x, y),
        lowered(m, t1, t2, nx, ny, v),
        v < bound,
        m.in_bounds(px, py),
        cost_at(t1, m.width as int, px, py) + step_cost(px, py, nx, ny) <= v,
        is_exit(m, px, py, nx, ny),
        forall|a: int, b: int|
            #![trigger cost_at(t2, m.width as int, a, b)]
            m.in_bounds(a, b) ==> cost_at(t2, m.width as int, a, b) == if a == nx && b == ny {
                v
            } else {
                cost_at(t1, m.width as int, a, b)
            },
    ensures
        cell_ok(m, t2, q1.push((nx as usize, ny as usize, v)), from, sx, sy, bound, x, y),
{
    let w = m.width as int;
    let q2 = q1.push((nx as usize, ny as usize, v));
    let c = cost_at(t2, w, x, y);
    if x == nx && y == ny {
        assert(q2[q1.len() as int] == (x as usize, y as usize, c));
        assert(px != nx || py != ny);
        assert(cost_at(t2, w, px, py) == cost_at(t1, w, px, py));
        assert(cost_at(t2, w, px, py) != UNREACHABLE);
        assert(is_exit(m, px, py, x, y));
        assert(supported_at(m, t2, x, y));
        assert(c < bound);
    } else {
        if c != UNREACHABLE {
            if relaxed_at(m, t1, bound, x, y) {
                assert forall|ax: int, ay: int|
                    #![trigger is_exit(m, x, y, ax, ay)]
                    is_exit(m, x, y, ax, ay) && cost_at(t2, w, x, y) + step_cost(x, y, ax, ay) < bound
                        implies cost_at(t2, w, ax, ay) <= cost_at(t2, w, x, y) + step_cost(x, y, ax, ay) by {
                    assert(cost_at(t2, w, ax, ay) <= cost_at(t1, w, ax, ay));
                }
            } else {
                let k = choose|k: int| from <= k < q1.len() && q1[k] == (x as usize, y as usize, c);
                assert(q2[k] == q1[k]);
            }
            if x != sx || y != sy {
                let (qx, qy) = choose|qx: int, qy: int|
                    #![trigger is_exit(m, qx, qy, x, y)]
                    m.in_bounds(qx, qy) && cost_at(t1, w, qx, qy) != UNREACHABLE && is_exit(m, qx, qy, x, y)
                        && cost_at(t1, w, qx, qy) + step_cost(qx, qy, x, y) <= cost_at(t1, w, x, y);
                assert(cost_at(t2, w, qx, qy) <= cost_at(t1, w, qx, qy));
                assert(is_exit(m, qx, qy, x, y));
            }
        }
    }
}

/// Representation of a cost map: one cost per cell of the map it was built on.
pub struct DijkstraMap {
    pub tiles: Vec<u64>,
    pub size_x: usize,
    pub size_y: usize,
    pub max_depth: u64,
}

/// The costs `tiles` are those of walking on `m` from (sx, sy): the start
/// costs nothing; every reached cell is relaxed; every other reached cell
/// costs exactly one move more than some reached neighbour.
pub open spec fn is_cost_map(m: MapBuffer, tiles: Seq<u64>, sx: int, sy: int, bound: int) -> bool {
    &&& tiles.len() == m.width * m.height
    &&& cost_at(tiles, m.width as int, sx, sy) == 0
    &&& forall|x: int, y: int|
        #![trigger cost_at(tiles, m.width as int, x, y)]
        m.in_bounds(x, y) ==> {
            let c = cost_at(tiles, m.width as int, x, y);
            &&& c == UNREACHABLE || c < bound
            &&& (c != UNREACHABLE ==> relaxed_at(m, tiles, bound, x, y))
            &&& (c != UNREACHABLE && (x != sx || y != sy) ==> exists|px: int, py: int|
                #![trigger is_exit(m, px, py, x, y)]
                m.in_bounds(px, py) && cost_at(tiles, m.width as int, px, py) != UNREACHABLE
                    && is_exit(m, px, py, x, y) && cost_at(tiles, m.width as int, px, py)
                    + step_cost(px, py, x, y) == c)
        }
}

impl DijkstraMap {
    /// Builds the cost map of `map` from `starting_point`, by breadth-first
    /// relaxation: a cell is queued again each time its cost drops.
    pub fn new(map: &MapBuffer, starting_point: &Point) -> (r: DijkstraMap)
        requires
            map.wf(),
            starting_point.x < map.width,
            starting_point.y < map.height,
            map.width * map.height * 100 + 200 < UNREACHABLE,
        ensures
            r.size_x == map.width,
            r.size_y == map.height,
            r.max_depth == map.width * map.height * 100,
            is_cost_map(*map, r.tiles@, starting_point.x as int, starting_point.y as int, r.max_depth as int),
    {
        let w = map.width;
        let h = map.height;
        let len = w * h;
        let max_depth: u64 = (len as u64) * 100;
        let mut tiles: Vec<u64> = vec![UNREACHABLE; len];
        let ghost m = *map;
        let sx = starting_point.x;
        let sy = starting_point.y;
        proof {
            lemma_cell_index(w as int, h as int, sx as int, sy as int);
        }
        let start_idx = sy * w + sx;
        tiles.set(start_idx, 0);
        let mut queue: Vec<(usize, usize, u64)> = Vec::new();
        queue.push((sx, sy, 0));
        let mut head: usize = 0;
        proof {
            assert(tiles@ == Seq::new((w * h) as nat, |i: int| UNREACHABLE).update(sy * w + sx, 0u64));
            assert(queue@ == seq![(sx, sy, 0u64)]);
            lemma_start(m, tiles@, queue@, sx as int, sy as int, max_depth as int);
        }
        while head < queue.len()
            invariant
                m == *map,
                m.wf(),
                w == m.width,
                h == m.height,
                sx < w,
                sy < h,
                max_depth == w * h * 100,
                w * h * 100 + 200 < UNREACHABLE,
                tiles@.len() == w * h,
                head <= queue@.len(),
                cost_at(tiles@, w as int, sx as int, sy as int) == 0,
                queue_ok(m, tiles@, queue@, head as int, max_depth as int),
                cells_ok(m, tiles@, queue@, head as int, sx as int, sy as int, max_depth as int),
            decreases sum_costs(tiles@), queue@.len() - head,
        {
            let (x, y, depth) = queue[head];
            let ghost tiles0 = tiles@;
            let ghost qlen0 = queue@.len();
            assert(m.in_bounds(x as int, y as int) && depth < max_depth && cost_at(tiles@, w as int, x as int, y as int) <= depth) by {
                assert(queue@[head as int] == (x, y, depth));
            }
            head = head + 1;
            let exits = map.get_available_exits(x, y);
            proof {
                reveal(moves_done);
            }
            let mut i: usize = 0;
            while i < exits.len()
                invariant
                    m == *map,
                    m.wf(),
                    w == m.width,
                    h == m.height,
                    sx < w,
                    sy < h,
                    max_depth == w * h * 100,
                    w * h * 100 + 200 < UNREACHABLE,
                    tiles@.len() == w * h,
                    1 <= head <= qlen0 <= queue@.len(),
                    i <= exits@.len(),
                    m.in_bounds(x as int, y as int),
                    depth < max_depth,
                    cost_at(tiles@, w as int, x as int, y as int) <= depth,
                    cost_at(tiles@, w as int, sx as int, sy as int) == 0,
                    queue@[head - 1] == (x, y, depth),
                    queue@.len() == qlen0 ==> tiles@ == tiles0,
                    queue@.len() > qlen0 ==> sum_costs(tiles@) < sum_costs(tiles0),
                    forall|j: int|
                        0 <= j < exits@.len() ==> is_exit(
                            m,
                            x as int,
                            y as int,
                            #[trigger] exits@[j].0 as int,
                            exits@[j].1 as int,
                        ) && exits@[j].2 == step_cost(x as int, y as int, exits@[j].0 as int, exits@[j].1 as int),
                    forall|nx: int, ny: int|
                        #[trigger] is_exit(m, x as int, y as int, nx, ny) ==> exists|j: int|
                            0 <= j < exits@.len() && exits@[j].0 == nx && exits@[j].1 == ny,
                    moves_done(m, tiles@, exits@, i as int, depth as int, max_depth as int),
                    queue_ok(m, tiles@, queue@, head - 1, max_depth as int),
                    cells_ok(m, tiles@, queue@, head - 1, sx as int, sy as int, max_depth as int),
                decreases exits@.len() - i,
            {
                let (nx, ny, add) = exits[i];
                let new_depth = depth + add as u64;
                proof {
                    lemma_cell_index(w as int, h as int, nx as int, ny as int);
                }
                let idx = ny * w + nx;
                let prev = tiles[idx];
                if new_depth < prev && new_depth < max_depth {
                    let ghost t1 = tiles@;
                    let ghost q1 = queue@;
                    tiles.set(idx, new_depth);
                    queue.push((nx, ny, new_depth));
                    proof {
                        assert(forall|j: int| 0 <= j < exits@.len() ==> m.in_bounds(#[trigger] exits@[j].0 as int, exits@[j].1 as int));
                        lemma_lower(m, t1, tiles@, q1, head - 1, sx as int, sy as int, max_depth as int,
                            x as int, y as int, nx as int, ny as int, new_depth, exits@, i as int, depth as int);
                        if qlen0 < q1.len() {
                        } else {
                            assert(t1 == tiles0);
                        }
                        assert(queue@[head - 1] == q1[head - 1]);
                    }
                } else {
                    proof {
                        reveal(moves_done);
                    }
                }
                i = i + 1;
            }
            proof {
                lemma_pop(m, tiles@, queue@, head as int, sx as int, sy as int, max_depth as int, x as int, y as int, depth as int, exits@);
                lemma_sum_nonneg(tiles@);
            }
        }
        proof {
            lemma_finish(m, tiles@, queue@, head as int, sx as int, sy as int, max_depth as int);
        }
        DijkstraMap { tiles, size_x: w, size_y: h, max_depth }
    }
}

/// Once every move out of the popped cell is relaxed, its queue entry is no
/// longer needed.
proof fn lemma_pop(
    m: MapBuffer,
    tiles: Seq<u64>,
    queue: Seq<(usize, usize, u64)>,
    head: int,
    sx: int,
    sy: int,
    bound: int,
    x: int,
    y: int,
    depth: int,
    exits: Seq<(usize, usize, u32)>,
)
    requires
        m.wf(),
        1 <= head <= queue.len(),
        queue[head - 1] == (x as usize, y as usize, depth as u64),
        m.in_bounds(x, y),
        0 <= depth < UNREACHABLE,
        forall|j: int|
            0 <= j < exits.len() ==> is_exit(m, x, y, #[trigger] exits[j].0 as int, exits[j].1 as int)
                && exits[j].2 == step_cost(x, y, exits[j].0 as int, exits[j].1 as int),
        forall|nx: int, ny: int|
            #[trigger] is_exit(m, x, y, nx, ny) ==> exists|j: int|
                0 <= j < exits.len() && exits[j].0 == nx && exits[j].1 == ny,
        moves_done(m, tiles, exits, exits.len() as int, depth, bound),
        queue_ok(m, tiles, queue, head - 1, bound),
        cells_ok(m, tiles, queue, head - 1, sx, sy, bound),
    ensures
        queue_ok(m, tiles, queue, head, bound),
        cells_ok(m, tiles, queue, head, sx, sy, bound),
{
    reveal(cells_ok);
    reveal(moves_done);
    let w = m.width as int;
    assert forall|a: int, b: int|
        #![trigger cost_at(tiles, w, a, b)]
        m.in_bounds(a, b) implies cell_ok(m, tiles, queue, head, sx, sy, bound, a, b) by {
        assert(cell_ok(m, tiles, queue, head - 1, sx, sy, bound, a, b));
        let c = cost_at(tiles, w, a, b);
        if c != UNREACHABLE && !relaxed_at(m, tiles, bound, a, b) {
            let k = choose|k: int| head - 1 <= k < queue.len() && queue[k] == (a as usize, b as usize, c);
            if k == head - 1 {
                assert(a == x && b == y && c == depth);
                assert forall|nx: int, ny: int|
                    #![trigger is_exit(m, a, b, nx, ny)]
                    is_exit(m, a, b, nx, ny) && cost_at(tiles, w, a, b) + step_cost(a, b, nx, ny) < bound
                        implies cost_at(tiles, w, nx, ny) <= cost_at(tiles, w, a, b) + step_cost(a, b, nx, ny) by {
                    let j = choose|j: int| 0 <= j < exits.len() && exits[j].0 == nx && exits[j].1 == ny;
                    assert(is_exit(m, x, y, exits[j].0 as int, exits[j].1 as int));
                }
            }
        }
    }
}

/// With the queue empty, the invariants give the contract of a cost map.
proof fn lemma_finish(
    m: MapBuffer,
    tiles: Seq<u64>,
    queue: Seq<(usize, usize, u64)>,
    head: int,
    sx: int,
    sy: int,
    bound: int,
)
    requires
        m.wf(),
        head == queue.len(),
        bound < UNREACHABLE,
        tiles.len() == m.width * m.height,
        cost_at(tiles, m.width as int, sx, sy) == 0,
        cells_ok(m, tiles, queue, head, sx, sy, bound),
    ensures
        is_cost_map(m, tiles, sx, sy, bound),
{
    reveal(cells_ok);
    let w = m.width as int;
    assert forall|x: int, y: int|
        #![trigger cost_at(tiles, w, x, y)]
        m.in_bounds(x, y) implies {
            let c = cost_at(tiles, w, x, y);
            &&& c == UNREACHABLE || c < bound
            &&& (c != UNREACHABLE ==> relaxed_at(m, tiles, bound, x, y))
            &&& (c != UNREACHABLE && (x != sx || y != sy) ==> exists|px: int, py: int|
                #![trigger is_exit(m, px, py, x, y)]
                m.in_bounds(px, py) && cost_at(tiles, w, px, py) != UNREACHABLE
                    && is_exit(m, px, py, x, y) && cost_at(tiles, w, px, py)
                    + step_cost(px, py, x, y) == c)
        } by {
        assert(cell_ok(m, tiles, queue, head, sx, sy, bound, x, y));
        let c = cost_at(tiles, w, x, y);
        if c != UNREACHABLE && (x != sx || y != sy) {
            let (px, py) = choose|px: int, py: int|
                #![trigger is_exit(m, px, py, x, y)]
                m.in_bounds(px, py) && cost_at(tiles, w, px, py) != UNREACHABLE && is_exit(m, px, py, x, y)
                    && cost_at(tiles, w, px, py) + step_cost(px, py, x, y) <= c;
            assert(cell_ok(m, tiles, queue, head, sx, sy, bound, px, py));
            assert(relaxed_at(m, tiles, bound, px, py));
            assert(is_exit(m, px, py, x, y));
        }
    }
}

/// Writing cost `v` at (x, y) changes that cell alone.
proof fn lemma_update_cell(m: MapBuffer, t1: Seq<u64>, t2: Seq<u64>, x: int, y: int, v: u64)
    requires
        m.wf(),
        m.in_bounds(x, y),
        t1.len() == m.width * m.height,
        t2 == t1.update(y * m.width + x, v),
    ensures
        forall|a: int, b: int|
            #![trigger cost_at(t2, m.width as int, a, b)]
            m.in_bounds(a, b) ==> cost_at(t2, m.width as int, a, b) == if a == x && b == y {
                v
            } else {
                cost_at(t1, m.width as int, a, b)
            },
{
    assert forall|a: int, b: int|
        #![trigger cost_at(t2, m.width as int, a, b)]
        m.in_bounds(a, b) implies cost_at(t2, m.width as int, a, b) == if a == x && b == y {
            v
        } else {
            cost_at(t1, m.width as int, a, b)
        } by {
        lemma_cell_index(m.width as int, m.height as int, a, b);
        lemma_cell_index(m.width as int, m.height as int, x, y);
        if a != x || b != y {
            if b * m.width + a == y * m.width + x {
                crate::map_buffer::lemma_cell_index_unique(m.width as int, a, b, x, y);
            }
        }
    }
}

} // verus!
