//! Procedural generation of 2D grid maps for games.
//!
//! A `MapBuilder` starts from an all-wall map and runs a list of filters
//! over it in turn; each filter reads the map so far and the shared random
//! generator, and returns the next map.
use vstd::prelude::*;
use rand::rngs::StdRng;

pub mod cave;
pub mod dijkstra;
pub mod geometry;
pub mod map_buffer;
pub mod maze;
pub mod metric;
pub mod poi;
pub mod random;
pub mod rooms;
pub mod text;

use crate::cave::{CellularAutomata, DrunkardsWalk, NoiseGenerator, VoronoiHive};
use crate::map_buffer::MapBuffer;
use crate::maze::MazeBuilder;
use crate::poi::{floor_exists, has_floor, AreaStartingPosition, CullUnreachable, DistantExit};
use crate::rooms::{placed, BspInterior, BspRooms, NearestCorridors, SimpleRooms, SPLIT_LIMIT};

verus! {

/// One step of a build: a generator, a room connector or a point of
/// interest finder.
#[derive(Copy, Clone, Debug)]
pub enum MapFilter {
    Noise(NoiseGenerator),
    CellularAutomata(CellularAutomata),
    Drunkard(DrunkardsWalk),
    Voronoi(VoronoiHive),
    Maze(MazeBuilder),
    SimpleRooms(SimpleRooms),
    BspRooms(BspRooms),
    BspInterior(BspInterior),
    NearestCorridors(NearestCorridors),
    StartingPoint(AreaStartingPosition),
    DistantExit(DistantExit),
    CullUnreachable(CullUnreachable),
}

impl MapFilter {
    /// Whether the filter can run on `map`: the map is large enough for it
    /// and its settings are in range.
    pub open spec fn accepts(&self, map: MapBuffer) -> bool {
        let (w, h) = (map.width as int, map.height as int);
        match *self {
            MapFilter::Noise(_) => w >= 2 && h >= 2,
            MapFilter::CellularAutomata(_) => w >= 2 && h >= 2,
            MapFilter::Drunkard(f) => w >= 4 && h >= 4 && f.floor_percent <= 100,
            MapFilter::Voronoi(f) => w >= 2 && h >= 2 && f.n_seeds >= 1,
            MapFilter::Maze(_) => w >= 6 && h >= 6,
            MapFilter::SimpleRooms(f) => f.min_room_size <= f.max_room_size && f.max_room_size + 1 < w
                && f.max_room_size + 1 < h,
            MapFilter::BspRooms(f) => 6 <= w <= SPLIT_LIMIT && 6 <= h <= SPLIT_LIMIT && f.max_split
                <= 0x0fff_ffff,
            MapFilter::BspInterior(f) => w >= 4 && h >= 4 && 2 <= f.min_room_size < i32::MAX,
            MapFilter::NearestCorridors(_) => forall|k: int|
                #![trigger map@.rooms[k]]
                0 <= k < map@.rooms.len() ==> placed(map@.rooms[k]),
            MapFilter::StartingPoint(_) => w >= 2 && h >= 2 && has_floor(map),
            MapFilter::DistantExit(_) => w >= 1 && h >= 1,
            MapFilter::CullUnreachable(_) => w >= 1 && h >= 1,
        }
    }

    /// What the filter may return for `map`: the outcome its own contract
    /// states.
    pub open spec fn outcome(&self, map: MapBuffer, n: MapBuffer) -> bool {
        &&& n.fits()
        &&& n.width == map.width
        &&& n.height == map.height
        &&& self.own_outcome(map, n)
    }

    /// A filter that draws at random until a goal is met, and so may give
    /// up: after `u64::MAX` tries without the goal.
    pub open spec fn may_give_up(&self) -> bool {
        self is Drunkard || self is Voronoi
    }

    pub open spec fn own_outcome(&self, map: MapBuffer, n: MapBuffer) -> bool {
        match *self {
            MapFilter::Noise(f) => f.outcome(map, n),
            MapFilter::CellularAutomata(f) => f.outcome(map, n),
            MapFilter::Drunkard(f) => f.outcome(map, n),
            MapFilter::Voronoi(f) => f.outcome(map, n),
            MapFilter::Maze(f) => f.outcome(map, n),
            MapFilter::SimpleRooms(f) => f.outcome(map, n),
            MapFilter::BspRooms(f) => f.outcome(map, n),
            MapFilter::BspInterior(f) => f.outcome(map, n),
            MapFilter::NearestCorridors(f) => f.outcome(map, n),
            MapFilter::StartingPoint(f) => f.outcome(map, n),
            MapFilter::DistantExit(f) => f.outcome(map, n),
            MapFilter::CullUnreachable(f) => f.outcome(map, n),
        }
    }

    /// Runs the filter on `map`; `None` when it cannot run there, or when a
    /// filter that may give up did.
    pub fn modify_map(&self, rng: &mut StdRng, map: &MapBuffer) -> (r: Option<MapBuffer>)
        requires
            map.fits(),
        ensures
            !self.accepts(*map) ==> r.is_none(),
            r.is_none() ==> !self.accepts(*map) || self.may_give_up(),
            r matches Some(n) ==> self.outcome(*map, n),
    {
        let w = map.width;
        let h = map.height;
        match self {
            MapFilter::Noise(f) => {
                if w >= 2 && h >= 2 {
                    Some(f.modify_map(rng, map))
                } else {
                    None
                }
            },
            MapFilter::CellularAutomata(f) => {
                if w >= 2 && h >= 2 {
                    Some(f.modify_map(map))
                } else {
                    None
                }
            },
            MapFilter::Drunkard(f) => {
                if w >= 4 && h >= 4 && f.floor_percent <= 100 {
                    f.modify_map(rng, map)
                } else {
                    None
                }
            },
            MapFilter::Voronoi(f) => {
                if w >= 2 && h >= 2 && f.n_seeds >= 1 {
                    f.modify_map(rng, map)
                } else {
                    None
                }
            },
            MapFilter::Maze(f) => {
                if w >= 6 && h >= 6 {
                    Some(f.modify_map(rng, map))
                } else {
                    None
                }
            },
            MapFilter::SimpleRooms(f) => {
                if w >= 1 && h >= 1 && f.min_room_size <= f.max_room_size && f.max_room_size < w - 1
                    && f.max_room_size < h - 1 {
                    Some(f.modify_map(rng, map))
                } else {
                    None
                }
            },
            MapFilter::BspRooms(f) => {
                if 6 <= w && w <= SPLIT_LIMIT as usize && 6 <= h && h <= SPLIT_LIMIT as usize && f.max_split
                    <= 0x0fff_ffff {
                    Some(f.modify_map(rng, map))
                } else {
                    None
                }
            },
            MapFilter::BspInterior(f) => {
                if w >= 4 && h >= 4 && 2 <= f.min_room_size && f.min_room_size < i32::MAX as usize {
                    Some(f.modify_map(rng, map))
                } else {
                    None
                }
            },
            MapFilter::NearestCorridors(f) => {
                if all_placed(&map.rooms) {
                    assert(map@.rooms == map.rooms@);
                    Some(f.corridors(map))
                } else {
                    assert(map@.rooms == map.rooms@);
                    None
                }
            },
            MapFilter::StartingPoint(f) => {
                if w >= 2 && h >= 2 && floor_exists(map) {
                    Some(f.modify_map(map))
                } else {
                    None
                }
            },
            MapFilter::DistantExit(f) => {
                if w >= 1 && h >= 1 {
                    Some(f.modify_map(map))
                } else {
                    None
                }
            },
            MapFilter::CullUnreachable(f) => {
                if w >= 1 && h >= 1 {
                    Some(f.modify_map(map))
                } else {
                    None
                }
            },
        }
    }
}

/// One more accepted step extends a build.
pub proof fn lemma_steps_push(filters: Seq<MapFilter>, maps: Seq<MapBuffer>, k: int, next: MapBuffer)
    requires
        steps(filters, maps, k),
        k < filters.len(),
        filters[k].accepts(maps[k]),
        filters[k].outcome(maps[k], next),
    ensures
        steps(filters, maps.push(next), k + 1),
        maps.push(next)[0] == maps[0],
        maps.push(next).last() == next,
{
    let m2 = maps.push(next);
    assert forall|i: int| 0 <= i < k + 1 implies #[trigger] step_ok(filters, m2, i) by {
        assert(m2[i] == maps[i]);
        if i < k {
            assert(m2[i + 1] == maps[i + 1]);
            assert(step_ok(filters, maps, i));
        } else {
            assert(m2[i + 1] == next);
        }
    }
}

/// Every map of a build has the size of the map it started from: each
/// filter's outcome keeps width and height, and one entry per cell.
pub proof fn lemma_build_keeps_size(filters: Seq<MapFilter>, maps: Seq<MapBuffer>, k: int, w: int, h: int)
    requires
        steps(filters, maps, k),
        blank(maps[0], w, h),
    ensures
        forall|i: int|
            0 <= i <= k ==> (#[trigger] maps[i]).fits() && maps[i].width == w && maps[i].height == h
                && maps[i].walkables@.len() == w * h,
    decreases k,
{
    if k > 0 {
        let prev = maps.drop_last();
        assert forall|i: int| 0 <= i < k - 1 implies #[trigger] step_ok(filters, prev, i) by {
            assert(step_ok(filters, maps, i));
            assert(prev[i] == maps[i] && prev[i + 1] == maps[i + 1]);
        }
        lemma_build_keeps_size(filters, prev, k - 1, w, h);
        assert(step_ok(filters, maps, k - 1));
        assert(maps[k - 1] == prev[k - 1]);
        assert forall|i: int| 0 <= i <= k implies (#[trigger] maps[i]).fits() && maps[i].width == w && maps[i].height
            == h && maps[i].walkables@.len() == w * h by {
            if i < k {
                assert(maps[i] == prev[i]);
            }
        }
    }
}

/// The generators that leave the outer ring alone, or draw it as wall,
/// return a map whose ring is all wall when they are given one.
pub proof fn lemma_generators_keep_border(f: MapFilter, m: MapBuffer, n: MapBuffer)
    requires
        m.border_blocked(),
        f is Noise || f is Voronoi || f is Maze || f is SimpleRooms || f is BspRooms || f is BspInterior,
        f.outcome(m, n),
    ensures
        n.border_blocked(),
{
    match f {
        MapFilter::Maze(_) => {},
        MapFilter::Noise(g) => {
            let rolls = choose|rolls: Seq<u32>| #[trigger] g.filled(m, rolls, n);
            assert(crate::cave::keeps_border(m, n));
            crate::cave::lemma_border_stays_blocked(m, n);
        },
        MapFilter::Voronoi(g) => {
            assert(crate::cave::keeps_border(m, n));
            crate::cave::lemma_border_stays_blocked(m, n);
        },
        _ => {
            crate::cave::lemma_border_stays_blocked(m, n);
        },
    }
}

/// The room generators keep rooms from overlapping.
pub proof fn lemma_room_generators_keep_rooms_apart(f: MapFilter, m: MapBuffer, n: MapBuffer)
    requires
        crate::rooms::rooms_disjoint(m@.rooms),
        f is SimpleRooms || f is BspRooms,
        f.outcome(m, n),
    ensures
        crate::rooms::rooms_disjoint(n@.rooms),
{
    crate::rooms::lemma_disjoint_after_adding(m@.rooms, n@.rooms);
}

/// The all-wall `w` by `h` map a build starts from.
pub open spec fn blank(m: MapBuffer, w: int, h: int) -> bool {
    &&& m.fits()
    &&& m.width == w
    &&& m.height == h
    &&& m.starting_point.is_none()
    &&& m.exit_point.is_none()
    &&& m@.rooms.len() == 0
    &&& m@.corridors.len() == 0
    &&& forall|x: int, y: int| !#[trigger] m.walkable_at(x, y)
    &&& forall|i: int| 0 <= i < m.width * m.height ==> #[trigger] m.tile_types@[i] == 0
}

/// `maps` holds the first `k` steps of a build with `filters`: each map is
/// an outcome of the filter before it, run on the map before that, which
/// it accepted.
pub open spec fn steps(filters: Seq<MapFilter>, maps: Seq<MapBuffer>, k: int) -> bool {
    &&& maps.len() == k + 1
    &&& 0 <= k <= filters.len()
    &&& forall|i: int| 0 <= i < k ==> #[trigger] step_ok(filters, maps, i)
}

/// Filter `i` accepted map `i` and returned map `i + 1`.
pub open spec fn step_ok(filters: Seq<MapFilter>, maps: Seq<MapBuffer>, i: int) -> bool {
    filters[i].accepts(maps[i]) && filters[i].outcome(maps[i], maps[i + 1])
}

/// Whether every room has non-negative corners.
pub fn all_placed(rooms: &Vec<crate::geometry::Rect>) -> (r: bool)
    ensures
        r == forall|k: int| #![trigger rooms@[k]] 0 <= k < rooms@.len() ==> placed(rooms@[k]),
{
    let mut i: usize = 0;
    while i < rooms.len()
        invariant
            i <= rooms@.len(),
            forall|k: int| #![trigger rooms@[k]] 0 <= k < i ==> placed(rooms@[k]),
        decreases rooms@.len() - i,
    {
        let r = rooms[i];
        if r.x1 < 0 || r.x2 < 0 || r.y1 < 0 || r.y2 < 0 {
            return false;
        }
        i = i + 1;
    }
    true
}

/// Runs a list of filters, in order, over an all-wall map.
pub struct MapBuilder {
    pub width: usize,
    pub height: usize,
    pub modifiers: Vec<MapFilter>,
}

impl MapBuilder {
    /// A builder for `width` by `height` maps, with no filters yet.
    pub fn new(width: usize, height: usize) -> (r: MapBuilder)
        ensures
            r.width == width,
            r.height == height,
            r.modifiers@.len() == 0,
    {
        MapBuilder { width, height, modifiers: Vec::new() }
    }

    /// The builder with `modifier` appended to its filters.
    pub fn with(self, modifier: MapFilter) -> (r: MapBuilder)
        ensures
            r.width == self.width,
            r.height == self.height,
            r.modifiers@ == self.modifiers@.push(modifier),
    {
        let mut b = self;
        b.modifiers.push(modifier);
        b
    }

    /// Builds the map, drawing from `rng`: an all-wall map of the builder's
    /// size, then each filter in turn on the map the one before returned.
    /// `None` when a filter does not accept the map it is handed, or gives
    /// up; otherwise the last map of the chain.
    pub fn build_with_rng(&self, rng: &mut StdRng) -> (r: Option<MapBuffer>)
        requires
            self.width < i32::MAX,
            self.height < i32::MAX,
            self.width * self.height <= usize::MAX,
            self.width * self.height * 100 + 200 < u64::MAX,
        ensures
            r matches Some(m) ==> m.fits() && m.width == self.width && m.height == self.height && exists|
                maps: Seq<MapBuffer>,
            |
                #[trigger] steps(self.modifiers@, maps, self.modifiers@.len() as int) && blank(
                    maps[0],
                    self.width as int,
                    self.height as int,
                ) && maps.last() == m,
            r.is_none() ==> exists|maps: Seq<MapBuffer>, k: int|
                #[trigger] steps(self.modifiers@, maps, k) && blank(maps[0], self.width as int, self.height as int)
                    && k < self.modifiers@.len() && (!self.modifiers@[k].accepts(maps[k])
                    || self.modifiers@[k].may_give_up()),
    {
        let mut map = MapBuffer::new(self.width, self.height);
        assert forall|x: int, y: int| !#[trigger] map.walkable_at(x, y) by {
            if map.in_bounds(x, y) {
                crate::map_buffer::lemma_cell_index(self.width as int, self.height as int, x, y);
            }
        }
        let ghost maps: Seq<MapBuffer> = seq![map];
        assert(blank(maps[0], self.width as int, self.height as int));
        let mut i: usize = 0;
        while i < self.modifiers.len()
            invariant
                map.fits(),
                map.width == self.width,
                map.height == self.height,
                i <= self.modifiers@.len(),
                steps(self.modifiers@, maps, i as int),
                blank(maps[0], self.width as int, self.height as int),
                maps.last() == map,
            decreases self.modifiers@.len() - i,
        {
            match self.modifiers[i].modify_map(rng, &map) {
                Some(next) => {
                    proof {
                        lemma_steps_push(self.modifiers@, maps, i as int, next);
                        maps = maps.push(next);
                    }
                    map = next;
                },
                None => {
                    assert(steps(self.modifiers@, maps, i as int));
                    return None;
                },
            }
            i = i + 1;
        }
        assert(steps(self.modifiers@, maps, self.modifiers@.len() as int));
        Some(map)
    }

    /// Builds the map with a generator seeded by `seed`.
    pub fn build_with_seed(&self, seed: u64) -> (r: Option<MapBuffer>)
        requires
            self.width < i32::MAX,
            self.height < i32::MAX,
            self.width * self.height <= usize::MAX,
            self.width * self.height * 100 + 200 < u64::MAX,
        ensures
            r matches Some(m) ==> m.fits() && m.width == self.width && m.height == self.height && exists|
                maps: Seq<MapBuffer>,
            |
                #[trigger] steps(self.modifiers@, maps, self.modifiers@.len() as int) && blank(
                    maps[0],
                    self.width as int,
                    self.height as int,
                ) && maps.last() == m,
            r.is_none() ==> exists|maps: Seq<MapBuffer>, k: int|
                #[trigger] steps(self.modifiers@, maps, k) && blank(maps[0], self.width as int, self.height as int)
                    && k < self.modifiers@.len() && (!self.modifiers@[k].accepts(maps[k])
                    || self.modifiers@[k].may_give_up()),
    {
        let mut rng = crate::random::seeded_rng(seed);
        self.build_with_rng(&mut rng)
    }
}

} // verus!
