//! Points of interest: where the player starts, where the exit lies, and
//! the removal of floor that cannot be reached from the start.
use vstd::prelude::*;
use crate::dijkstra::{cost_at, is_cost_map, DijkstraMap, UNREACHABLE};
use crate::geometry::Point;
use crate::map_buffer::{lemma_cell_index, MapBuffer};

verus! {

/// Column of the anchor the starting point is searched around.
#[derive(PartialEq, Eq, Structural, Copy, Clone, Debug)]
pub enum XStart {
    LEFT,
    CENTER,
    RIGHT,
}

/// Row of the anchor the starting point is searched around.
#[derive(PartialEq, Eq, Structural, Copy, Clone, Debug)]
pub enum YStart {
    TOP,
    CENTER,
    BOTTOM,
}

/// Puts the starting point on the floor cell nearest to an anchor.
#[derive(Copy, Clone, Debug)]
pub struct AreaStartingPosition {
    pub x: XStart,
    pub y: YStart,
}

pub open spec fn anchor_x(x: XStart, w: int) -> int {
    match x {
        XStart::LEFT => 1,
        XStart::CENTER => w / 2,
        XStart::RIGHT => w - 2,
    }
}

pub open spec fn anchor_y(y: YStart, h: int) -> int {
    match y {
        YStart::TOP => 1,
        YStart::CENTER => h / 2,
        YStart::BOTTOM => h - 2,
    }
}

/// Square of the distance between (x, y) and (ax, ay).
pub open spec fn dist2(x: int, y: int, ax: int, ay: int) -> int {
    (x - ax) * (x - ax) + (y - ay) * (y - ay)
}

/// (x, y) is the first floor cell, in row-major order, among those nearest
/// to the anchor (ax, ay).
pub open spec fn is_nearest_floor(m: MapBuffer, ax: int, ay: int, x: int, y: int) -> bool {
    &&& m.walkable_at(x, y)
    &&& forall|a: int, b: int|
        #![trigger m.walkable_at(a, b)]
        m.walkable_at(a, b) ==> dist2(x, y, ax, ay) <= dist2(a, b, ax, ay)
    &&& forall|a: int, b: int|
        #![trigger m.walkable_at(a, b)]
        m.walkable_at(a, b) && m.idx(a, b) < m.idx(x, y) ==> dist2(x, y, ax, ay) < dist2(a, b, ax, ay)
}

pub open spec fn has_floor(m: MapBuffer) -> bool {
    exists|a: int, b: int| #[trigger] m.walkable_at(a, b)
}

/// Whether `map` has a floor cell.
pub fn floor_exists(map: &MapBuffer) -> (r: bool)
    requires
        map.wf(),
    ensures
        r == has_floor(*map),
{
    let mut y: usize = 0;
    while y < map.height
        invariant
            map.wf(),
            y <= map.height,
            forall|a: int, b: int| #![trigger map.walkable_at(a, b)] b < y ==> !map.walkable_at(a, b),
        decreases map.height - y,
    {
        let mut x: usize = 0;
        while x < map.width
            invariant
                map.wf(),
                y < map.height,
                x <= map.width,
                forall|a: int, b: int|
                    #![trigger map.walkable_at(a, b)]
                    b < y || (b == y && a < x) ==> !map.walkable_at(a, b),
            decreases map.width - x,
        {
            if map.is_walkable(x, y) {
                return true;
            }
            x = x + 1;
        }
        y = y + 1;
    }
    false
}

impl AreaStartingPosition {
    pub fn new(x: XStart, y: YStart) -> (r: AreaStartingPosition)
        ensures
            r.x == x,
            r.y == y,
    {
        AreaStartingPosition { x, y }
    }

    /// The floor cell nearest to the anchor, the first in row-major order
    /// among equals; `None` when the map has no floor.
    pub fn nearest_floor(&self, map: &MapBuffer) -> (r: Option<Point>)
        requires
            map.fits(),
            map.width >= 2,
            map.height >= 2,
        ensures
            r.is_none() <==> !has_floor(*map),
            r matches Some(p) ==> is_nearest_floor(
                *map,
                anchor_x(self.x, map.width as int),
                anchor_y(self.y, map.height as int),
                p.x as int,
                p.y as int,
            ),
    {
        let w = map.width;
        let h = map.height;
        let seed_x: usize = match self.x {
            XStart::LEFT => 1,
            XStart::CENTER => w / 2,
            XStart::RIGHT => w - 2,
        };
        let seed_y: usize = match self.y {
            YStart::TOP => 1,
            YStart::CENTER => h / 2,
            YStart::BOTTOM => h - 2,
        };
        let ghost ax = seed_x as int;
        let ghost ay = seed_y as int;
        let mut best: Option<Point> = None;
        let mut best_d: u128 = 0;
        let mut y: usize = 0;
        while y < h
            invariant
                map.fits(),
                w == map.width,
                h == map.height,
                seed_x < w,
                seed_y < h,
                ax == seed_x,
                ay == seed_y,
                y <= h,
                best.is_none() ==> forall|a: int, b: int|
                    #![trigger map.walkable_at(a, b)]
                    map.walkable_at(a, b) ==> b >= y,
                best matches Some(p) ==> {
                    &&& map.walkable_at(p.x as int, p.y as int)
                    &&& p.y < y
                    &&& best_d == dist2(p.x as int, p.y as int, ax, ay)
                    &&& forall|a: int, b: int|
                        #![trigger map.walkable_at(a, b)]
                        map.walkable_at(a, b) && b < y ==> best_d <= dist2(a, b, ax, ay)
                    &&& forall|a: int, b: int|
                        #![trigger map.walkable_at(a, b)]
                        map.walkable_at(a, b) && map.idx(a, b) < map.idx(p.x as int, p.y as int)
                            ==> best_d < dist2(a, b, ax, ay)
                },
            decreases h - y,
        {
            let mut x: usize = 0;
            while x < w
                invariant
                    map.fits(),
                    w == map.width,
                    h == map.height,
                    seed_x < w,
                    seed_y < h,
                    ax == seed_x,
                    ay == seed_y,
                    y < h,
                    x <= w,
                    best.is_none() ==> forall|a: int, b: int|
                        #![trigger map.walkable_at(a, b)]
                        map.walkable_at(a, b) ==> b > y || (b == y && a >= x),
                    best matches Some(p) ==> {
                        &&& map.walkable_at(p.x as int, p.y as int)
                        &&& (p.y < y || (p.y == y && p.x < x))
                        &&& best_d == dist2(p.x as int, p.y as int, ax, ay)
                        &&& forall|a: int, b: int|
                            #![trigger map.walkable_at(a, b)]
                            map.walkable_at(a, b) && (b < y || (b == y && a < x)) ==> best_d <= dist2(a, b, ax, ay)
                        &&& forall|a: int, b: int|
                            #![trigger map.walkable_at(a, b)]
                            map.walkable_at(a, b) && map.idx(a, b) < map.idx(p.x as int, p.y as int)
                                ==> best_d < dist2(a, b, ax, ay)
                    },
                decreases w - x,
            {
                if map.is_walkable(x, y) {
                    let d = Point::new(x, y).distance_squared(&Point::new(seed_x, seed_y));
                    proof {
                        assert(d == dist2(x as int, y as int, ax, ay)) by (nonlinear_arith)
                            requires
                                d == crate::geometry::abs_diff(x as int, ax) * crate::geometry::abs_diff(x as int, ax)
                                    + crate::geometry::abs_diff(y as int, ay) * crate::geometry::abs_diff(y as int, ay),
                        ;
                    }
                    let better = match best {
                        None => true,
                        Some(_) => d < best_d,
                    };
                    if better {
                        proof {
                            assert forall|a: int, b: int|
                                #![trigger map.walkable_at(a, b)]
                                map.walkable_at(a, b) && map.idx(a, b) < map.idx(x as int, y as int)
                                    implies d < dist2(a, b, ax, ay) by {
                                lemma_row_major_order(w as int, a, b, x as int, y as int);
                            }
                        }
                        best = Some(Point::new(x, y));
                        best_d = d;
                    }
                }
                x = x + 1;
            }
            y = y + 1;
        }
        best
    }

    /// The floor cell nearest to the anchor, the first in row-major order
    /// among equals. A map without floor has no starting point: calling it
    /// there is ruled out.
    pub fn find(&self, map: &MapBuffer) -> (r: Point)
        requires
            map.fits(),
            map.width >= 2,
            map.height >= 2,
            has_floor(*map),
        ensures
            is_nearest_floor(
                *map,
                anchor_x(self.x, map.width as int),
                anchor_y(self.y, map.height as int),
                r.x as int,
                r.y as int,
            ),
    {
        match self.nearest_floor(map) {
            Some(p) => p,
            None => {
                proof {
                    assert(false);
                }
                Point::new(0, 0)
            },
        }
    }

    /// What `modify_map` returns: the map with its starting point set to
    /// the floor cell `find` gives.
    pub open spec fn outcome(&self, m: MapBuffer, n: MapBuffer) -> bool {
        &&& n.fits()
        &&& n@.walkables == m@.walkables
        &&& n@.width == m@.width
        &&& n@.height == m@.height
        &&& n@.tile_types == m@.tile_types
        &&& n@.rooms == m@.rooms
        &&& n@.corridors == m@.corridors
        &&& n.exit_point == m.exit_point
        &&& n.starting_point matches Some(p) && is_nearest_floor(
            m,
            anchor_x(self.x, m.width as int),
            anchor_y(self.y, m.height as int),
            p.x as int,
            p.y as int,
        )
    }

    /// The map with its starting point set by `find`.
    pub fn modify_map(&self, map: &MapBuffer) -> (r: MapBuffer)
        requires
            map.fits(),
            map.width >= 2,
            map.height >= 2,
            has_floor(*map),
        ensures
            self.outcome(*map, r),
    {
        let p = self.find(map);
        let mut new_map = map.duplicate();
        new_map.starting_point = Some(p);
        new_map
    }
}

/// (x, y) is the reached cell of highest cost, the first in row-major order
/// among equals; the start itself when nothing else is reached.
pub open spec fn is_farthest(m: MapBuffer, tiles: Seq<u64>, sx: int, sy: int, x: int, y: int) -> bool {
    let w = m.width as int;
    let c = cost_at(tiles, w, x, y);
    &&& m.in_bounds(x, y)
    &&& c != UNREACHABLE
    &&& forall|a: int, b: int|
        #![trigger cost_at(tiles, w, a, b)]
        m.in_bounds(a, b) && cost_at(tiles, w, a, b) != UNREACHABLE ==> cost_at(tiles, w, a, b) <= c
    &&& (c == 0 ==> x == sx && y == sy)
    &&& (c > 0 ==> forall|a: int, b: int|
        #![trigger cost_at(tiles, w, a, b)]
        m.in_bounds(a, b) && m.idx(a, b) < m.idx(x, y) && cost_at(tiles, w, a, b) != UNREACHABLE
            ==> cost_at(tiles, w, a, b) < c)
}

/// The starting point of `m`, or cell (0, 0) when it has none.
pub open spec fn start_of(m: MapBuffer) -> Point {
    match m.starting_point {
        Some(p) => p,
        None => Point { x: 0, y: 0 },
    }
}

/// Puts the exit on the reachable cell farthest from the starting point.
#[derive(Copy, Clone, Debug)]
pub struct DistantExit {}

impl DistantExit {
    pub fn new() -> (r: DistantExit) {
        DistantExit {}
    }

    /// The farthest reached cell of a cost map built on `map` from (sx, sy).
    pub fn farthest(map: &MapBuffer, tiles: &Vec<u64>, sx: usize, sy: usize) -> (r: Point)
        requires
            map.wf(),
            tiles@.len() == map.width * map.height,
            sx < map.width,
            sy < map.height,
            cost_at(tiles@, map.width as int, sx as int, sy as int) == 0,
        ensures
            is_farthest(*map, tiles@, sx as int, sy as int, r.x as int, r.y as int),
    {
        let w = map.width;
        let h = map.height;
        let ghost t = tiles@;
        let mut best = Point::new(sx, sy);
        let mut best_value: u64 = 0;
        let mut y: usize = 0;
        while y < h
            invariant
                map.wf(),
                w == map.width,
                h == map.height,
                t == tiles@,
                t.len() == w * h,
                sx < w,
                sy < h,
                cost_at(t, w as int, sx as int, sy as int) == 0,
                y <= h,
                map.in_bounds(best.x as int, best.y as int),
                best_value == cost_at(t, w as int, best.x as int, best.y as int),
                best_value != UNREACHABLE,
                best_value == 0 ==> best.x == sx && best.y == sy,
                best_value > 0 ==> best.y < y,
                forall|a: int, b: int|
                    #![trigger cost_at(t, w as int, a, b)]
                    map.in_bounds(a, b) && b < y && cost_at(t, w as int, a, b) != UNREACHABLE
                        ==> cost_at(t, w as int, a, b) <= best_value,
                best_value > 0 ==> forall|a: int, b: int|
                    #![trigger cost_at(t, w as int, a, b)]
                    map.in_bounds(a, b) && map.idx(a, b) < map.idx(best.x as int, best.y as int)
                        && cost_at(t, w as int, a, b) != UNREACHABLE ==> cost_at(t, w as int, a, b) < best_value,
            decreases h - y,
        {
            let mut x: usize = 0;
            while x < w
                invariant
                    map.wf(),
                    w == map.width,
                    h == map.height,
                    t == tiles@,
                    t.len() == w * h,
                    sx < w,
                    sy < h,
                    cost_at(t, w as int, sx as int, sy as int) == 0,
                    y < h,
                    x <= w,
                    map.in_bounds(best.x as int, best.y as int),
                    best_value == cost_at(t, w as int, best.x as int, best.y as int),
                    best_value != UNREACHABLE,
                    best_value == 0 ==> best.x == sx && best.y == sy,
                    best_value > 0 ==> best.y < y || (best.y == y && best.x < x),
                    forall|a: int, b: int|
                        #![trigger cost_at(t, w as int, a, b)]
                        map.in_bounds(a, b) && (b < y || (b == y && a < x)) && cost_at(t, w as int, a, b)
                            != UNREACHABLE ==> cost_at(t, w as int, a, b) <= best_value,
                    best_value > 0 ==> forall|a: int, b: int|
                        #![trigger cost_at(t, w as int, a, b)]
                        map.in_bounds(a, b) && map.idx(a, b) < map.idx(best.x as int, best.y as int)
                            && cost_at(t, w as int, a, b) != UNREACHABLE ==> cost_at(t, w as int, a, b) < best_value,
                decreases w - x,
            {
                proof {
                    lemma_cell_index(w as int, h as int, x as int, y as int);
                }
                let value = tiles[y * w + x];
                if value < UNREACHABLE && value > best_value {
                    proof {
                        assert forall|a: int, b: int|
                            #![trigger cost_at(t, w as int, a, b)]
                            map.in_bounds(a, b) && map.idx(a, b) < map.idx(x as int, y as int)
                                && cost_at(t, w as int, a, b) != UNREACHABLE implies cost_at(t, w as int, a, b) < value by {
                            lemma_row_major_order(w as int, a, b, x as int, y as int);
                        }
                    }
                    best = Point::new(x, y);
                    best_value = value;
                }
                x = x + 1;
            }
            y = y + 1;
        }
        best
    }

    /// The reachable cell farthest from `starting_point`, by the cost map
    /// built from it.
    pub fn find(starting_point: &Point, map: &MapBuffer) -> (r: Point)
        requires
            map.fits(),
            starting_point.x < map.width,
            starting_point.y < map.height,
        ensures
            exists|t: Seq<u64>|
                #[trigger] is_cost_map(*map, t, starting_point.x as int, starting_point.y as int, map.width * map.height * 100)
                    && is_farthest(*map, t, starting_point.x as int, starting_point.y as int, r.x as int, r.y as int),
    {
        let dm = DijkstraMap::new(map, starting_point);
        let r = DistantExit::farthest(map, &dm.tiles, starting_point.x, starting_point.y);
        assert(is_cost_map(*map, dm.tiles@, starting_point.x as int, starting_point.y as int, map.width * map.height * 100));
        r
    }

    /// What `modify_map` returns: the map with its exit set to the farthest
    /// reached cell from its starting point (or cell (0, 0)).
    pub open spec fn outcome(&self, m: MapBuffer, r: MapBuffer) -> bool {
        &&& r.fits()
        &&& r@.walkables == m@.walkables
        &&& r@.width == m@.width
        &&& r@.height == m@.height
        &&& r@.rooms == m@.rooms
        &&& r.starting_point == m.starting_point
        &&& r.exit_point matches Some(e) && {
            let s = start_of(m);
            exists|t: Seq<u64>|
                #[trigger] is_cost_map(m, t, s.x as int, s.y as int, m.width * m.height * 100)
                    && is_farthest(m, t, s.x as int, s.y as int, e.x as int, e.y as int)
        }
    }

    /// The map with its exit set by `find`, from its starting point, or from
    /// cell (0, 0) when it has none.
    pub fn modify_map(&self, map: &MapBuffer) -> (r: MapBuffer)
        requires
            map.fits(),
            map.width >= 1,
            map.height >= 1,
        ensures
            self.outcome(*map, r),
    {
        let start = match map.starting_point {
            Some(p) => p,
            None => Point::new(0, 0),
        };
        assert(start == start_of(*map));
        let exit = DistantExit::find(&start, map);
        let mut new_map = map.duplicate();
        new_map.exit_point = Some(exit);
        new_map
    }
}

/// Turns every floor cell that cannot be reached from the starting point
/// into wall.
#[derive(Copy, Clone, Debug)]
pub struct CullUnreachable {}

impl CullUnreachable {
    pub fn new() -> (r: CullUnreachable) {
        CullUnreachable {}
    }

    /// The floor of `map` without the cells whose cost in `tiles` is
    /// `UNREACHABLE`.
    pub fn cull(map: &MapBuffer, tiles: &Vec<u64>) -> (r: MapBuffer)
        requires
            map.wf(),
            tiles@.len() == map.width * map.height,
        ensures
            r.wf(),
            r.same_frame(map),
            forall|x: int, y: int|
                #![trigger r.walkable_at(x, y)]
                r.walkable_at(x, y) == (map.walkable_at(x, y) && cost_at(tiles@, map.width as int, x, y)
                    != UNREACHABLE),
    {
        let mut new_map = map.duplicate();
        let w = map.width;
        let h = map.height;
        let ghost t = tiles@;
        let mut y: usize = 0;
        while y < h
            invariant
                map.wf(),
                new_map.wf(),
                new_map.same_frame(map),
                w == map.width,
                h == map.height,
                t == tiles@,
                t.len() == w * h,
                y <= h,
                forall|a: int, b: int|
                    #![trigger new_map.walkable_at(a, b)]
                    new_map.walkable_at(a, b) == (map.walkable_at(a, b) && (b >= y || cost_at(t, w as int, a, b)
                        != UNREACHABLE)),
            decreases h - y,
        {
            let mut x: usize = 0;
            while x < w
                invariant
                    map.wf(),
                    new_map.wf(),
                    new_map.same_frame(map),
                    w == map.width,
                    h == map.height,
                    t == tiles@,
                    t.len() == w * h,
                    y < h,
                    x <= w,
                    forall|a: int, b: int|
                        #![trigger new_map.walkable_at(a, b)]
                        new_map.walkable_at(a, b) == (map.walkable_at(a, b) && (b > y || (b == y && a >= x)
                            || cost_at(t, w as int, a, b) != UNREACHABLE)),
                decreases w - x,
            {
                proof {
                    lemma_cell_index(w as int, h as int, x as int, y as int);
                }
                if new_map.is_walkable(x, y) && tiles[y * w + x] == UNREACHABLE {
                    let ghost before = new_map;
                    new_map.set_walkable(x, y, false);
                    proof {
                        assert forall|a: int, b: int|
                            #![trigger new_map.walkable_at(a, b)]
                            new_map.walkable_at(a, b) == (before.walkable_at(a, b) && (a != x || b != y)) by {
                            if new_map.in_bounds(a, b) {
                                lemma_cell_index(w as int, h as int, a, b);
                                if new_map.idx(a, b) == new_map.idx(x as int, y as int) {
                                    crate::map_buffer::lemma_cell_index_unique(w as int, a, b, x as int, y as int);
                                }
                            }
                        }
                    }
                }
                x = x + 1;
            }
            y = y + 1;
        }
        new_map
    }

    /// The map without the floor that the starting point cannot reach.
    pub fn remove_walkable_tiles(starting_point: &Point, map: &MapBuffer) -> (r: MapBuffer)
        requires
            map.fits(),
            starting_point.x < map.width,
            starting_point.y < map.height,
        ensures
            r.wf(),
            r.same_frame(map),
            exists|t: Seq<u64>|
                #[trigger] is_cost_map(*map, t, starting_point.x as int, starting_point.y as int, map.width * map.height * 100)
                    && forall|x: int, y: int|
                    #![trigger r.walkable_at(x, y)]
                    r.walkable_at(x, y) == (map.walkable_at(x, y) && cost_at(t, map.width as int, x, y)
                        != UNREACHABLE),
    {
        let dm = DijkstraMap::new(map, starting_point);
        let r = CullUnreachable::cull(map, &dm.tiles);
        assert(is_cost_map(*map, dm.tiles@, starting_point.x as int, starting_point.y as int, map.width * map.height * 100));
        r
    }

    /// What `modify_map` returns: the map without the floor that its
    /// starting point (or cell (0, 0)) cannot reach.
    pub open spec fn outcome(&self, m: MapBuffer, r: MapBuffer) -> bool {
        &&& r.fits()
        &&& r.same_frame(&m)
        &&& ({
            let s = start_of(m);
            exists|t: Seq<u64>|
                #[trigger] is_cost_map(m, t, s.x as int, s.y as int, m.width * m.height * 100)
                    && forall|x: int, y: int|
                    #![trigger r.walkable_at(x, y)]
                    r.walkable_at(x, y) == (m.walkable_at(x, y) && cost_at(t, m.width as int, x, y)
                        != UNREACHABLE)
        })
    }

    /// The map culled from its starting point, or from cell (0, 0) when it
    /// has none.
    pub fn modify_map(&self, map: &MapBuffer) -> (r: MapBuffer)
        requires
            map.fits(),
            map.width >= 1,
            map.height >= 1,
        ensures
            self.outcome(*map, r),
    {
        let start = match map.starting_point {
            Some(p) => p,
            None => Point::new(0, 0),
        };
        assert(start == start_of(*map));
        CullUnreachable::remove_walkable_tiles(&start, map)
    }
}

/// Cells of a `w`-wide grid compare in row-major order as their indices do.
pub proof fn lemma_row_major_order(w: int, a: int, b: int, x: int, y: int)
    requires
        0 <= a < w,
        0 <= x < w,
        0 <= b,
        0 <= y,
        b * w + a < y * w + x,
    ensures
        b < y || (b == y && a < x),
{
    if b > y {
        assert(b * w >= y * w + w) by (nonlinear_arith)
            requires
                b > y,
                w > 0,
        ;
    }
}

} // verus!
