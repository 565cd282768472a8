//! Generators that carve caves out of solid rock: noise, cellular automata,
//! drunkard's walk, Voronoi hive and maze.
use vstd::prelude::*;
use rand::rngs::StdRng;
use crate::geometry::Point;
use crate::map_buffer::{count_floor, count_true, lemma_cell_index, paint_covers, MapBuffer, Symmetry};
use crate::random::{next_u32, roll_dice};

verus! {

/// Cell (x, y) lies on the outermost ring of the grid.
pub open spec fn on_border(m: MapBuffer, x: int, y: int) -> bool {
    x == 0 || y == 0 || x == m.width - 1 || y == m.height - 1
}

/// Every cell off the ring keeps its state; `n` has the size of `m`.
pub open spec fn keeps_border(m: MapBuffer, n: MapBuffer) -> bool {
    &&& n.width == m.width
    &&& n.height == m.height
    &&& forall|x: int, y: int|
        #![trigger n.walkable_at(x, y)]
        on_border(m, x, y) ==> n.walkable_at(x, y) == m.walkable_at(x, y)
}

/// A generator that leaves the outer ring as it found it returns a map
/// whose ring is all wall when it is given one.
pub proof fn lemma_border_stays_blocked(m: MapBuffer, n: MapBuffer)
    requires
        keeps_border(m, n),
        m.border_blocked(),
    ensures
        n.border_blocked(),
{
    assert forall|x: int, y: int|
        #![trigger n.walkable_at(x, y)]
        n.in_bounds(x, y) && (x == 0 || y == 0 || x == n.width - 1 || y == n.height - 1) implies !n.walkable_at(x, y) by {
        assert(on_border(m, x, y));
        assert(!m.walkable_at(x, y));
    }
}

/// Fills the inside of the map with random floor and wall.
#[derive(Copy, Clone, Debug)]
pub struct NoiseGenerator {
    /// Chance, in percent, that a cell stays wall.
    pub prob: u32,
}

impl NoiseGenerator {
    pub fn new(prob: u32) -> (r: NoiseGenerator)
        ensures
            r.prob == prob,
    {
        NoiseGenerator { prob }
    }

    /// Half floor, half wall.
    pub fn uniform() -> (r: NoiseGenerator)
        ensures
            r.prob == 50,
    {
        NoiseGenerator { prob: 50 }
    }

    /// Cell (x, y) off the ring is floor by the rolls: the rolls are taken
    /// row by row over the cells off the ring, and a cell is floor when its
    /// roll, modulo 100, exceeds `prob`.
    pub open spec fn rolled_floor(&self, rolls: Seq<u32>, w: int, x: int, y: int) -> bool {
        rolls[(y - 1) * (w - 2) + (x - 1)] % 100 > self.prob
    }

    /// `r` is `m` with every cell off the ring set by `rolls`.
    pub open spec fn filled(&self, m: MapBuffer, rolls: Seq<u32>, r: MapBuffer) -> bool {
        &&& r.fits()
        &&& r.same_frame(&m)
        &&& rolls.len() == (m.width - 2) * (m.height - 2)
        &&& forall|x: int, y: int|
            #![trigger r.walkable_at(x, y)]
            r.walkable_at(x, y) == if m.in_bounds(x, y) && !on_border(m, x, y) {
                self.rolled_floor(rolls, m.width as int, x, y)
            } else {
                m.walkable_at(x, y)
            }
    }

    /// What `modify_map` may return: the map filled by some rolls.
    pub open spec fn outcome(&self, m: MapBuffer, r: MapBuffer) -> bool {
        exists|rolls: Seq<u32>| #[trigger] self.filled(m, rolls, r)
    }

    /// Draws one roll per cell off the ring, row by row, and fills the map
    /// with them.
    pub fn modify_map(&self, rng: &mut StdRng, map: &MapBuffer) -> (r: MapBuffer)
        requires
            map.fits(),
            map.width >= 2,
            map.height >= 2,
        ensures
            self.outcome(*map, r),
            keeps_border(*map, r),
    {
        proof {
            assert((map.width - 2) * (map.height - 2) <= map.width * map.height) by (nonlinear_arith)
                requires map.width >= 2, map.height >= 2;
        }
        let n = (map.width - 2) * (map.height - 2);
        let mut rolls: Vec<u32> = Vec::new();
        let mut k: usize = 0;
        while k < n
            invariant
                k <= n,
                rolls@.len() == k,
            decreases n - k,
        {
            rolls.push(next_u32(rng));
            k = k + 1;
        }
        let r = self.fill(map, &rolls);
        assert(self.filled(*map, rolls@, r));
        r
    }

    /// The map with every cell off the ring set by `rolls`; the ring is
    /// left as it was.
    pub fn fill(&self, map: &MapBuffer, rolls: &Vec<u32>) -> (r: MapBuffer)
        requires
            map.fits(),
            map.width >= 2,
            map.height >= 2,
            rolls@.len() == (map.width - 2) * (map.height - 2),
        ensures
            self.filled(*map, rolls@, r),
            keeps_border(*map, r),
    {
        let mut new_map = map.duplicate();
        let w = map.width;
        let h = map.height;
        let mut y: usize = 1;
        while y < h - 1
            invariant
                map.fits(),
                new_map.fits(),
                new_map.same_frame(map),
                w == map.width,
                h == map.height,
                w >= 2,
                h >= 2,
                rolls@.len() == (w - 2) * (h - 2),
                1 <= y <= h - 1,
                forall|a: int, b: int|
                    #![trigger new_map.walkable_at(a, b)]
                    new_map.walkable_at(a, b) == if map.in_bounds(a, b) && !on_border(*map, a, b) && b < y {
                        self.rolled_floor(rolls@, w as int, a, b)
                    } else {
                        map.walkable_at(a, b)
                    },
            decreases h - y,
        {
            let mut x: usize = 1;
            while x < w - 1
                invariant
                    map.fits(),
                    new_map.fits(),
                    new_map.same_frame(map),
                    w == map.width,
                    h == map.height,
                    w >= 2,
                    h >= 2,
                    rolls@.len() == (w - 2) * (h - 2),
                    1 <= y < h - 1,
                    1 <= x <= w - 1,
                    forall|a: int, b: int|
                        #![trigger new_map.walkable_at(a, b)]
                        new_map.walkable_at(a, b) == if map.in_bounds(a, b) && !on_border(*map, a, b) && (b < y
                            || (b == y && a < x)) {
                            self.rolled_floor(rolls@, w as int, a, b)
                        } else {
                            map.walkable_at(a, b)
                        },
                decreases w - x,
            {
                proof {
                    assert((y - 1) * (w - 2) + (x - 1) < (w - 2) * (h - 2)) by (nonlinear_arith)
                        requires 1 <= y < h - 1, 1 <= x < w - 1;
                    assert((w - 2) * (h - 2) <= w * h) by (nonlinear_arith)
                        requires w >= 2, h >= 2;
                    assert((y - 1) * (w - 2) <= (y - 1) * (w - 2) + (x - 1));
                }
                let k = (y - 1) * (w - 2) + (x - 1);
                let floor = rolls[k] % 100 > self.prob;
                let ghost before = new_map;
                new_map.set_walkable(x, y, floor);
                proof {
                    lemma_set_cell(before, new_map, x as int, y as int, floor);
                }
                x = x + 1;
            }
            y = y + 1;
        }
        new_map
    }
}


/// Cell (x, y) of a `w` by `h` grid stored row by row in `c` is floor.
pub open spec fn cell(c: Seq<bool>, w: int, h: int, x: int, y: int) -> bool {
    0 <= x < w && 0 <= y < h && c[y * w + x]
}

pub open spec fn walls_around(c: Seq<bool>, w: int, h: int, x: int, y: int) -> int {
    (if cell(c, w, h, x - 1, y - 1) { 0int } else { 1int })
    + (if cell(c, w, h, x, y - 1) { 0int } else { 1int })
    + (if cell(c, w, h, x + 1, y - 1) { 0int } else { 1int })
    + (if cell(c, w, h, x - 1, y) { 0int } else { 1int })
    + (if cell(c, w, h, x + 1, y) { 0int } else { 1int })
    + (if cell(c, w, h, x - 1, y + 1) { 0int } else { 1int })
    + (if cell(c, w, h, x, y + 1) { 0int } else { 1int })
    + (if cell(c, w, h, x + 1, y + 1) { 0int } else { 1int })
}

/// One round of the automaton on the cells `c` of a `w` by `h` grid.
pub open spec fn ca_round(c: Seq<bool>, w: int, h: int) -> Seq<bool> {
    Seq::new(
        c.len(),
        |i: int|
            {
                let x = i % w;
                let y = i / w;
                if 0 < x < w - 1 && 0 < y < h - 1 {
                    0 < walls_around(c, w, h, x, y) < 5
                } else {
                    c[i]
                }
            },
    )
}

/// `n` rounds of the automaton.
pub open spec fn ca_rounds(c: Seq<bool>, w: int, h: int, n: nat) -> Seq<bool>
    decreases n,
{
    if n == 0 {
        c
    } else {
        ca_round(ca_rounds(c, w, h, (n - 1) as nat), w, h)
    }
}

/// An index of a `w` by `h` grid splits into its column and row.
pub proof fn lemma_index_split(w: int, h: int, i: int)
    requires
        w > 0,
        0 <= i < w * h,
    ensures
        0 <= i % w < w,
        0 <= i / w < h,
        (i / w) * w + i % w == i,
{
    vstd::arithmetic::div_mod::lemma_fundamental_div_mod(i, w);
    assert((i / w) * w == w * (i / w)) by (nonlinear_arith);
    assert(0 <= i / w < h) by (nonlinear_arith)
        requires
            w > 0,
            0 <= i < w * h,
            i == w * (i / w) + i % w,
            0 <= i % w < w,
    ;
}

/// Smooths noise into caves: a cell becomes floor when between one and four
/// of its eight neighbours are wall.
#[derive(Copy, Clone, Debug)]
pub struct CellularAutomata {
    pub num_iteraction: u32,
}

impl CellularAutomata {
    pub fn new() -> (r: CellularAutomata)
        ensures
            r.num_iteraction == 15,
    {
        CellularAutomata { num_iteraction: 15 }
    }

    /// What `modify_map` returns: `num_iteraction` rounds of the automaton.
    pub open spec fn outcome(&self, m: MapBuffer, r: MapBuffer) -> bool {
        &&& r.fits()
        &&& r.same_frame(&m)
        &&& r.walkables@ == ca_rounds(m.walkables@, m.width as int, m.height as int, self.num_iteraction as nat)
    }

    /// Runs `num_iteraction` rounds of `apply_iteration`.
    pub fn modify_map(&self, map: &MapBuffer) -> (r: MapBuffer)
        requires
            map.fits(),
            map.width >= 2,
            map.height >= 2,
        ensures
            self.outcome(*map, r),
            keeps_border(*map, r),
    {
        let mut new_map = map.duplicate();
        let mut i: u32 = 0;
        while i < self.num_iteraction
            invariant
                map.fits(),
                new_map.fits(),
                new_map.same_frame(map),
                map.width >= 2,
                map.height >= 2,
                keeps_border(*map, new_map),
                i <= self.num_iteraction,
                new_map.walkables@ == ca_rounds(map.walkables@, map.width as int, map.height as int, i as nat),
            decreases self.num_iteraction - i,
        {
            new_map = apply_iteration(&new_map);
            i = i + 1;
        }
        new_map
    }
}

/// One round of the automaton: every cell off the ring becomes floor exactly
/// when between one and four of its neighbours on `map` are wall.
pub fn apply_iteration(map: &MapBuffer) -> (r: MapBuffer)
    requires
        map.fits(),
        map.width >= 2,
        map.height >= 2,
    ensures
        r.fits(),
        r.same_frame(map),
        forall|x: int, y: int|
            #![trigger r.walkable_at(x, y)]
            r.walkable_at(x, y) == if map.in_bounds(x, y) && !on_border(*map, x, y) {
                0 < walls_around(map.walkables@, map.width as int, map.height as int, x, y) < 5
            } else {
                map.walkable_at(x, y)
            },
        r.walkables@ == ca_round(map.walkables@, map.width as int, map.height as int),
{
    let mut new_map = map.duplicate();
    let w = map.width;
    let h = map.height;
    let mut y: usize = 1;
    while y < h - 1
        invariant
            map.fits(),
            new_map.wf(),
            new_map.same_frame(map),
            w == map.width,
            h == map.height,
            w >= 2,
            h >= 2,
            1 <= y <= h - 1,
            forall|a: int, b: int|
                #![trigger new_map.walkable_at(a, b)]
                new_map.walkable_at(a, b) == if map.in_bounds(a, b) && !on_border(*map, a, b) && b < y {
                    0 < walls_around(map.walkables@, map.width as int, map.height as int, a, b) < 5
                } else {
                    map.walkable_at(a, b)
                },
        decreases h - y,
    {
        let mut x: usize = 1;
        while x < w - 1
            invariant
                map.fits(),
                new_map.wf(),
                new_map.same_frame(map),
                w == map.width,
                h == map.height,
                w >= 2,
                h >= 2,
                1 <= y < h - 1,
                1 <= x <= w - 1,
                forall|a: int, b: int|
                    #![trigger new_map.walkable_at(a, b)]
                    new_map.walkable_at(a, b) == if map.in_bounds(a, b) && !on_border(*map, a, b) && (b < y
                        || (b == y && a < x)) {
                        0 < walls_around(map.walkables@, map.width as int, map.height as int, a, b) < 5
                    } else {
                        map.walkable_at(a, b)
                    },
            decreases w - x,
        {
            let mut n: u32 = 0;
            if map.is_blocked(x - 1, y - 1) { n = n + 1; }
            if map.is_blocked(x, y - 1) { n = n + 1; }
            if map.is_blocked(x + 1, y - 1) { n = n + 1; }
            if map.is_blocked(x - 1, y) { n = n + 1; }
            if map.is_blocked(x + 1, y) { n = n + 1; }
            if map.is_blocked(x - 1, y + 1) { n = n + 1; }
            if map.is_blocked(x, y + 1) { n = n + 1; }
            if map.is_blocked(x + 1, y + 1) { n = n + 1; }
            assert(n == walls_around(map.walkables@, w as int, h as int, x as int, y as int));
            let walkable = n < 5 && n > 0;
            let ghost before = new_map;
            new_map.set_walkable(x, y, walkable);
            proof {
                lemma_set_cell(before, new_map, x as int, y as int, walkable);
            }
            x = x + 1;
        }
        y = y + 1;
    }
    proof {
        let (w, h) = (map.width as int, map.height as int);
        let c = map.walkables@;
        assert forall|i: int| 0 <= i < c.len() implies #[trigger] new_map.walkables@[i] == ca_round(c, w, h)[i] by {
            lemma_index_split(w, h, i);
            let (x, y) = (i % w, i / w);
            assert(new_map.walkable_at(x, y) == new_map.walkables@[i]);
            assert(map.walkable_at(x, y) == c[i]);
        }
        assert(new_map.walkables@ =~= ca_round(c, w, h));
    }
    new_map
}

/// Where a digger at (x, y) on a `w` by `h` map goes on `roll`: 1 west,
/// 2 east, 3 north, anything else south; it stays put rather than step
/// onto the outer ring.
pub open spec fn stagger(w: int, h: int, x: int, y: int, roll: usize) -> (int, int) {
    if roll == 1 {
        if x > 1 { (x - 1, y) } else { (x, y) }
    } else if roll == 2 {
        if x < w - 2 { (x + 1, y) } else { (x, y) }
    } else if roll == 3 {
        if y > 1 { (x, y - 1) } else { (x, y) }
    } else {
        if y < h - 2 { (x, y + 1) } else { (x, y) }
    }
}

/// Where a digger that starts at (sx, sy) stands after `i` rolls.
pub open spec fn walk_pos(w: int, h: int, sx: int, sy: int, rolls: Seq<usize>, i: nat) -> (int, int)
    decreases i,
{
    if i == 0 {
        (sx, sy)
    } else {
        let p = walk_pos(w, h, sx, sy, rolls, (i - 1) as nat);
        stagger(w, h, p.0, p.1, rolls[i - 1])
    }
}

/// A digger that starts off the outer ring stays off it.
pub proof fn lemma_walk_inside(w: int, h: int, sx: int, sy: int, rolls: Seq<usize>, i: nat)
    requires
        1 <= sx <= w - 2,
        1 <= sy <= h - 2,
    ensures
        1 <= walk_pos(w, h, sx, sy, rolls, i).0 <= w - 2,
        1 <= walk_pos(w, h, sx, sy, rolls, i).1 <= h - 2,
    decreases i,
{
    if i > 0 {
        lemma_walk_inside(w, h, sx, sy, rolls, (i - 1) as nat);
    }
}

/// Where each digger after the first starts.
#[derive(PartialEq, Eq, Structural, Copy, Clone, Debug)]
pub enum DrunkSpawnMode {
    StartingPoint,
    Random,
}

/// Carves the map with diggers that stagger at random until enough of it
/// is floor.
#[derive(Copy, Clone, Debug)]
pub struct DrunkardsWalk {
    pub spawn_mode: DrunkSpawnMode,
    pub drunken_lifetime: i32,
    /// Share of the map, in percent, that must be floor.
    pub floor_percent: u32,
    pub brush_size: usize,
    pub symmetry: Symmetry,
}

impl DrunkardsWalk {
    pub fn new(
        spawn_mode: DrunkSpawnMode,
        drunken_lifetime: i32,
        floor_percent: u32,
        brush_size: usize,
        symmetry: Symmetry,
    ) -> (r: DrunkardsWalk)
        ensures
            r.spawn_mode == spawn_mode,
            r.drunken_lifetime == drunken_lifetime,
            r.floor_percent == floor_percent,
            r.brush_size == brush_size,
            r.symmetry == symmetry,
    {
        DrunkardsWalk { spawn_mode, drunken_lifetime, floor_percent, brush_size, symmetry }
    }

    pub fn open_area() -> (r: DrunkardsWalk)
        ensures
            r == DrunkardsWalk::spec_preset(DrunkSpawnMode::StartingPoint, 50, 1, Symmetry::Neither),
    {
        Self::new(DrunkSpawnMode::StartingPoint, 400, 50, 1, Symmetry::Neither)
    }

    pub fn open_halls() -> (r: DrunkardsWalk)
        ensures
            r == DrunkardsWalk::spec_preset(DrunkSpawnMode::Random, 50, 1, Symmetry::Neither),
    {
        Self::new(DrunkSpawnMode::Random, 400, 50, 1, Symmetry::Neither)
    }

    pub fn winding_passages() -> (r: DrunkardsWalk)
        ensures
            r == DrunkardsWalk::spec_preset(DrunkSpawnMode::Random, 40, 1, Symmetry::Neither),
    {
        Self::new(DrunkSpawnMode::Random, 400, 40, 1, Symmetry::Neither)
    }

    pub fn fat_passages() -> (r: DrunkardsWalk)
        ensures
            r == DrunkardsWalk::spec_preset(DrunkSpawnMode::Random, 40, 2, Symmetry::Neither),
    {
        Self::new(DrunkSpawnMode::Random, 400, 40, 2, Symmetry::Neither)
    }

    pub fn fearful_symmetry() -> (r: DrunkardsWalk)
        ensures
            r == DrunkardsWalk::spec_preset(DrunkSpawnMode::Random, 40, 1, Symmetry::Both),
    {
        Self::new(DrunkSpawnMode::Random, 400, 40, 1, Symmetry::Both)
    }

    /// Some digger standing off the outer ring of a `w` by `h` map paints
    /// cell (a, b).
    pub open spec fn dug(&self, w: int, h: int, a: int, b: int) -> bool {
        exists|px: int, py: int|
            1 <= px <= w - 2 && 1 <= py <= h - 2 && #[trigger] paint_covers(
                w,
                h,
                self.symmetry,
                self.brush_size as int,
                px,
                py,
                a,
                b,
            )
    }

    /// What `modify_map` may return: the map's frame kept, its floor kept,
    /// the centre made floor, any other new floor painted by a digger, and
    /// at least `floor_percent` percent of the map floor.
    pub open spec fn outcome(&self, m: MapBuffer, r: MapBuffer) -> bool {
        &&& self.reaches_share(m.width * m.height, r)
        &&& r.fits()
        &&& r.same_frame(&m)
        &&& r.walkable_at(m.width as int / 2, m.height as int / 2)
        &&& forall|x: int, y: int|
            #![trigger r.walkable_at(x, y)]
            m.walkable_at(x, y) ==> r.walkable_at(x, y)
        &&& forall|x: int, y: int|
            #![trigger r.walkable_at(x, y)]
            r.walkable_at(x, y) ==> m.walkable_at(x, y) || (x == m.width / 2 && y == m.height / 2) || self.dug(
                m.width as int,
                m.height as int,
                x,
                y,
            )
    }

    /// At least `floor_percent` percent of the `cells` cells of `r` are floor,
    /// rounded down.
    pub open spec fn reaches_share(&self, cells: int, r: MapBuffer) -> bool {
        count_true(r.walkables@) >= self.floor_percent * cells / 100
    }

    /// A preset: diggers live 400 steps.
    pub open spec fn spec_preset(mode: DrunkSpawnMode, percent: u32, brush: usize, sym: Symmetry) -> DrunkardsWalk {
        DrunkardsWalk {
            spawn_mode: mode,
            drunken_lifetime: 400,
            floor_percent: percent,
            brush_size: brush,
            symmetry: sym,
        }
    }

    /// Walks one digger from (start_x, start_y): at each step it paints
    /// floor where it stands, then staggers as the next roll says (1 west,
    /// 2 east, 3 north, anything else south), never onto the outer ring.
    /// The new floor is exactly what those paints cover.
    pub fn walk(&self, map: &mut MapBuffer, start_x: usize, start_y: usize, rolls: &Vec<usize>)
        requires
            old(map).fits(),
            old(map).width >= 4,
            old(map).height >= 4,
            1 <= start_x <= old(map).width - 2,
            1 <= start_y <= old(map).height - 2,
        ensures
            final(map).fits(),
            final(map).same_frame(old(map)),
            forall|a: int, b: int|
                #![trigger final(map).walkable_at(a, b)]
                final(map).walkable_at(a, b) == (old(map).walkable_at(a, b) || self.walked(
                    old(map).width as int,
                    old(map).height as int,
                    start_x as int,
                    start_y as int,
                    rolls@,
                    a,
                    b,
                )),
    {
        let ghost m0 = *map;
        let w = map.width;
        let h = map.height;
        let ghost (sx, sy) = (start_x as int, start_y as int);
        let mut x = start_x;
        let mut y = start_y;
        let mut i: usize = 0;
        while i < rolls.len()
            invariant
                map.fits(),
                map.same_frame(&m0),
                w == m0.width,
                h == m0.height,
                w >= 4,
                h >= 4,
                i <= rolls@.len(),
                1 <= x <= w - 2,
                1 <= y <= h - 2,
                (x as int, y as int) == walk_pos(w as int, h as int, sx, sy, rolls@, i as nat),
                forall|a: int, b: int|
                    #![trigger map.walkable_at(a, b)]
                    map.walkable_at(a, b) == (m0.walkable_at(a, b) || exists|k: int|
                        0 <= k < i && #[trigger] self.step_covers(w as int, h as int, sx, sy, rolls@, k, a, b)),
            decreases rolls@.len() - i,
        {
            let ghost before = *map;
            map.paint(self.symmetry, self.brush_size, x, y);
            proof {
                assert forall|a: int, b: int|
                    #![trigger map.walkable_at(a, b)]
                    map.walkable_at(a, b) == (m0.walkable_at(a, b) || exists|k: int|
                        0 <= k < i + 1 && #[trigger] self.step_covers(w as int, h as int, sx, sy, rolls@, k, a, b)) by {
                    assert(self.step_covers(w as int, h as int, sx, sy, rolls@, i as int, a, b) == paint_covers(
                        w as int,
                        h as int,
                        self.symmetry,
                        self.brush_size as int,
                        x as int,
                        y as int,
                        a,
                        b,
                    ));
                    if exists|k: int| 0 <= k < i + 1 && #[trigger] self.step_covers(w as int, h as int, sx, sy, rolls@, k, a, b) {
                        let k = choose|k: int| 0 <= k < i + 1 && #[trigger] self.step_covers(w as int, h as int, sx, sy, rolls@, k, a, b);
                        if k < i {
                            assert(exists|k: int| 0 <= k < i && #[trigger] self.step_covers(w as int, h as int, sx, sy, rolls@, k, a, b));
                        }
                    }
                }
            }
            let roll = rolls[i];
            if roll == 1 {
                if x > 1 {
                    x = x - 1;
                }
            } else if roll == 2 {
                if x < w - 2 {
                    x = x + 1;
                }
            } else if roll == 3 {
                if y > 1 {
                    y = y - 1;
                }
            } else {
                if y < h - 2 {
                    y = y + 1;
                }
            }
            i = i + 1;
        }
        proof {
            assert forall|a: int, b: int|
                #![trigger map.walkable_at(a, b)]
                map.walkable_at(a, b) == (m0.walkable_at(a, b) || self.walked(w as int, h as int, sx, sy, rolls@, a, b)) by {
                if exists|k: int| 0 <= k < i && #[trigger] self.step_covers(w as int, h as int, sx, sy, rolls@, k, a, b) {
                    let k = choose|k: int| 0 <= k < i && #[trigger] self.step_covers(w as int, h as int, sx, sy, rolls@, k, a, b);
                    lemma_walk_inside(w as int, h as int, sx, sy, rolls@, k as nat);
                }
            }
        }
    }

    /// Step `k` of the walk paints cell (a, b).
    pub open spec fn step_covers(&self, w: int, h: int, sx: int, sy: int, rolls: Seq<usize>, k: int, a: int, b: int) -> bool {
        let p = walk_pos(w, h, sx, sy, rolls, k as nat);
        paint_covers(w, h, self.symmetry, self.brush_size as int, p.0, p.1, a, b)
    }

    /// Some step of the walk paints cell (a, b).
    pub open spec fn walked(&self, w: int, h: int, sx: int, sy: int, rolls: Seq<usize>, a: int, b: int) -> bool {
        exists|k: int| 0 <= k < rolls.len() && #[trigger] self.step_covers(w, h, sx, sy, rolls, k, a, b)
    }

    /// Spawns diggers, at the centre or at random as `spawn_mode` says,
    /// each walked with `walk` for `drunken_lifetime` steps, until
    /// `floor_percent` percent of the map is floor. `None` when that share
    /// is still not reached after `u64::MAX` diggers.
    pub fn modify_map(&self, rng: &mut StdRng, map: &MapBuffer) -> (r: Option<MapBuffer>)
        requires
            map.fits(),
            map.width >= 4,
            map.height >= 4,
            self.floor_percent <= 100,
        ensures
            r matches Some(n) ==> self.outcome(*map, n),
            count_true(map.walkables@.update(map.idx(map.width as int / 2, map.height as int / 2), true)) >= self.floor_percent
                * (map.width * map.height) / 100 ==> (r matches Some(n) && n.walkables@ == map.walkables@.update(
                map.idx(map.width as int / 2, map.height as int / 2),
                true,
            )),
    {
        let mut new_map = map.duplicate();
        let w = map.width;
        let h = map.height;
        let start_x = w / 2;
        let start_y = h / 2;
        let ghost before = new_map;
        new_map.set_walkable(start_x, start_y, true);
        proof {
            lemma_set_cell(before, new_map, start_x as int, start_y as int, true);
        }
        let ghost first = new_map;
        assert(first.walkables@ == map.walkables@.update(map.idx(map.width as int / 2, map.height as int / 2), true));
        let total = (w * h) as u64;
        assert((self.floor_percent as u64) * total <= 100 * total) by (nonlinear_arith)
            requires
                self.floor_percent <= 100,
        ;
        let desired = (self.floor_percent as u64) * total / 100;
        let mut floor_tile_count = count_floor(&new_map) as u64;
        let mut digger_count: u64 = 0;
        let ghost initial_ok = floor_tile_count >= desired;
        while floor_tile_count < desired && digger_count < u64::MAX
            invariant
                initial_ok ==> digger_count == 0,
                initial_ok == (count_true(first.walkables@) >= desired),
                floor_tile_count == count_true(new_map.walkables@),
                desired == self.floor_percent * (w * h) / 100,
                digger_count == 0 ==> new_map == first,
                map.fits(),
                new_map.fits(),
                new_map.same_frame(map),
                w == map.width,
                h == map.height,
                w >= 4,
                h >= 4,
                new_map.walkable_at(start_x as int, start_y as int),
                start_x == w / 2,
                start_y == h / 2,
                forall|x: int, y: int|
                    #![trigger new_map.walkable_at(x, y)]
                    map.walkable_at(x, y) ==> new_map.walkable_at(x, y),
                forall|x: int, y: int|
                    #![trigger new_map.walkable_at(x, y)]
                    new_map.walkable_at(x, y) ==> map.walkable_at(x, y) || (x == w / 2 && y == h / 2)
                        || self.dug(w as int, h as int, x, y),
            decreases u64::MAX - digger_count,
        {
            let mut drunk_x: usize = start_x;
            let mut drunk_y: usize = start_y;
            if self.spawn_mode == DrunkSpawnMode::Random && digger_count > 0 {
                drunk_x = roll_dice(rng, 1, w - 3) + 1;
                drunk_y = roll_dice(rng, 1, h - 3) + 1;
            }
            let mut rolls: Vec<usize> = Vec::new();
            let mut drunk_life = self.drunken_lifetime;
            while drunk_life > 0
                decreases drunk_life,
            {
                rolls.push(roll_dice(rng, 1, 4));
                drunk_life = drunk_life - 1;
            }
            let ghost before = new_map;
            self.walk(&mut new_map, drunk_x, drunk_y, &rolls);
            proof {
                assert forall|x: int, y: int|
                    #![trigger new_map.walkable_at(x, y)]
                    new_map.walkable_at(x, y) implies map.walkable_at(x, y) || (x == w / 2 && y == h / 2)
                        || self.dug(w as int, h as int, x, y) by {
                    if !before.walkable_at(x, y) {
                        let k = choose|k: int| 0 <= k < rolls@.len() && #[trigger] self.step_covers(w as int, h as int, drunk_x as int, drunk_y as int, rolls@, k, x, y);
                        lemma_walk_inside(w as int, h as int, drunk_x as int, drunk_y as int, rolls@, k as nat);
                        let p = walk_pos(w as int, h as int, drunk_x as int, drunk_y as int, rolls@, k as nat);
                        assert(paint_covers(w as int, h as int, self.symmetry, self.brush_size as int, p.0, p.1, x, y));
                    }
                }
                assert forall|x: int, y: int|
                    #![trigger new_map.walkable_at(x, y)]
                    map.walkable_at(x, y) implies new_map.walkable_at(x, y) by {
                    assert(before.walkable_at(x, y));
                }
                assert(before.walkable_at(start_x as int, start_y as int));
            }
            digger_count = digger_count + 1;
            floor_tile_count = count_floor(&new_map) as u64;
        }
        if floor_tile_count >= desired {
            proof {
                assert(self.reaches_share(map.width * map.height, new_map));
            }
            Some(new_map)
        } else {
            None
        }
    }
}

/// Seed `k` is the one nearest to (x, y), the first among equals.
pub open spec fn is_nearest_seed(seeds: Seq<Point>, x: int, y: int, k: int) -> bool {
    &&& 0 <= k < seeds.len()
    &&& forall|j: int|
        #![trigger seeds[j]]
        0 <= j < seeds.len() ==> Point { x: x as usize, y: y as usize }.dist2(seeds[k]) <= Point {
            x: x as usize,
            y: y as usize,
        }.dist2(seeds[j])
    &&& forall|j: int|
        #![trigger seeds[j]]
        0 <= j < k ==> Point { x: x as usize, y: y as usize }.dist2(seeds[k]) < Point {
            x: x as usize,
            y: y as usize,
        }.dist2(seeds[j])
}

/// The region of cell (x, y): the index of its nearest seed.
pub open spec fn region(seeds: Seq<Point>, x: int, y: int) -> int {
    choose|k: int| is_nearest_seed(seeds, x, y, k)
}

pub proof fn lemma_nearest_unique(seeds: Seq<Point>, x: int, y: int, k: int)
    requires
        is_nearest_seed(seeds, x, y, k),
    ensures
        region(seeds, x, y) == k,
{
    assert(exists|c: int| is_nearest_seed(seeds, x, y, c));
    let c = region(seeds, x, y);
    assert(is_nearest_seed(seeds, x, y, c));
    let here = Point { x: x as usize, y: y as usize };
    if c < k {
        assert(here.dist2(seeds[k]) < here.dist2(seeds[c]));
        assert(here.dist2(seeds[c]) <= here.dist2(seeds[k]));
    } else if c > k {
        assert(here.dist2(seeds[c]) < here.dist2(seeds[k]));
        assert(here.dist2(seeds[k]) <= here.dist2(seeds[c]));
    }
}

/// How many of the four axis neighbours of (x, y) lie in another region.
pub open spec fn foreign_neighbours(seeds: Seq<Point>, x: int, y: int) -> int {
    let me = region(seeds, x, y);
    (if region(seeds, x - 1, y) != me { 1int } else { 0int })
    + (if region(seeds, x + 1, y) != me { 1int } else { 0int })
    + (if region(seeds, x, y - 1) != me { 1int } else { 0int })
    + (if region(seeds, x, y + 1) != me { 1int } else { 0int })
}

/// Carves a honeycomb: cells are grouped around random seeds, and a cell
/// becomes floor unless two or more of its neighbours belong to other seeds.
#[derive(Copy, Clone, Debug)]
pub struct VoronoiHive {
    pub n_seeds: usize,
}

impl VoronoiHive {
    pub fn new() -> (r: VoronoiHive)
        ensures
            r.n_seeds == 64,
    {
        VoronoiHive { n_seeds: 64 }
    }

    /// Distinct seeds, at most `n_seeds`, inside `1..=w - 1` by `1..=h - 1`.
    pub open spec fn valid_seeds(&self, seeds: Seq<Point>, w: int, h: int) -> bool {
        &&& 1 <= seeds.len() <= self.n_seeds
        &&& forall|i: int|
            #![trigger seeds[i]]
            0 <= i < seeds.len() ==> 1 <= seeds[i].x <= w - 1 && 1 <= seeds[i].y <= h - 1
        &&& forall|i: int, j: int| 0 <= i < j < seeds.len() ==> seeds[i] != seeds[j]
    }

    /// What `modify_map` may return: `m` carved around `n_seeds` valid seeds.
    pub open spec fn outcome(&self, m: MapBuffer, r: MapBuffer) -> bool {
        &&& r.fits()
        &&& r.same_frame(&m)
        &&& exists|seeds: Seq<Point>|
            #[trigger] self.valid_seeds(seeds, m.width as int, m.height as int) && seeds.len() == self.n_seeds
                && forall|x: int, y: int|
                #![trigger r.walkable_at(x, y)]
                r.walkable_at(x, y) == (m.walkable_at(x, y) || (m.in_bounds(x, y) && !on_border(m, x, y)
                    && foreign_neighbours(seeds, x, y) < 2))
    }

    /// Draws distinct seeds with coordinates in `1..=width - 1` and
    /// `1..=height - 1` until there are `n_seeds`; also returns the number
    /// of draws, which stops short of `n_seeds` seeds only at `u64::MAX`.
    pub fn generate_seeds(&self, rng: &mut StdRng, width: usize, height: usize) -> (r: (Vec<Point>, u64))
        requires
            2 <= width < i32::MAX,
            2 <= height < i32::MAX,
            self.n_seeds >= 1,
        ensures
            self.valid_seeds(r.0@, width as int, height as int),
            r.1 < u64::MAX ==> r.0@.len() == self.n_seeds,
    {
        let mut seeds: Vec<Point> = Vec::new();
        let mut attempts: u64 = 0;
        while seeds.len() < self.n_seeds && attempts < u64::MAX
            invariant
                2 <= width < i32::MAX,
                2 <= height < i32::MAX,
                self.n_seeds >= 1,
                seeds@.len() <= self.n_seeds,
                attempts == 0 ==> seeds@.len() == 0,
                attempts > 0 ==> seeds@.len() >= 1,
                forall|i: int|
                    #![trigger seeds@[i]]
                    0 <= i < seeds@.len() ==> 1 <= seeds@[i].x <= width - 1 && 1 <= seeds@[i].y <= height - 1,
                forall|i: int, j: int| 0 <= i < j < seeds@.len() ==> seeds@[i] != seeds@[j],
            decreases u64::MAX - attempts,
        {
            let vx = roll_dice(rng, 1, width - 1);
            let vy = roll_dice(rng, 1, height - 1);
            let candidate = Point::new(vx, vy);
            if !contains_point(&seeds, &candidate) {
                seeds.push(candidate);
            }
            attempts = attempts + 1;
        }
        (seeds, attempts)
    }

    /// Draws the seeds, then carves around them with `carve`; `None` when
    /// `u64::MAX` draws did not give `n_seeds` distinct seeds.
    pub fn modify_map(&self, rng: &mut StdRng, map: &MapBuffer) -> (r: Option<MapBuffer>)
        requires
            map.fits(),
            map.width >= 2,
            map.height >= 2,
            self.n_seeds >= 1,
        ensures
            r matches Some(n) ==> self.outcome(*map, n) && keeps_border(*map, n),
    {
        let (seeds, _) = self.generate_seeds(rng, map.width, map.height);
        if seeds.len() < self.n_seeds {
            return None;
        }
        let r = carve(map, &seeds);
        assert(self.valid_seeds(seeds@, map.width as int, map.height as int));
        Some(r)
    }
}

/// Whether `p` is one of `seeds`.
pub fn contains_point(seeds: &Vec<Point>, p: &Point) -> (r: bool)
    ensures
        r == seeds@.contains(*p),
{
    let mut i: usize = 0;
    while i < seeds.len()
        invariant
            i <= seeds@.len(),
            forall|j: int| 0 <= j < i ==> seeds@[j] != *p,
        decreases seeds@.len() - i,
    {
        if seeds[i].x == p.x && seeds[i].y == p.y {
            assert(seeds@[i as int] == *p);
            return true;
        }
        i = i + 1;
    }
    false
}

/// The index of the seed nearest to (x, y), the first among equals.
pub fn nearest_seed(seeds: &Vec<Point>, x: usize, y: usize) -> (r: usize)
    requires
        seeds@.len() >= 1,
        x <= i64::MAX,
        y <= i64::MAX,
        forall|i: int| #![trigger seeds@[i]] 0 <= i < seeds@.len() ==> seeds@[i].x <= i64::MAX && seeds@[i].y <= i64::MAX,
    ensures
        is_nearest_seed(seeds@, x as int, y as int, r as int),
{
    let here = Point::new(x, y);
    let mut best: usize = 0;
    let mut best_d = here.distance_squared(&seeds[0]);
    let mut i: usize = 1;
    while i < seeds.len()
        invariant
            seeds@.len() >= 1,
            here == (Point { x, y }),
            x <= i64::MAX,
            y <= i64::MAX,
            forall|i: int| #![trigger seeds@[i]] 0 <= i < seeds@.len() ==> seeds@[i].x <= i64::MAX && seeds@[i].y <= i64::MAX,
            1 <= i <= seeds@.len(),
            best < i,
            best_d == here.dist2(seeds@[best as int]),
            forall|j: int| #![trigger seeds@[j]] 0 <= j < i ==> best_d <= here.dist2(seeds@[j]),
            forall|j: int| #![trigger seeds@[j]] 0 <= j < best ==> best_d < here.dist2(seeds@[j]),
        decreases seeds@.len() - i,
    {
        let d = here.distance_squared(&seeds[i]);
        if d < best_d {
            best = i;
            best_d = d;
        }
        i = i + 1;
    }
    best
}

/// Every cell off the ring whose four axis neighbours include fewer than
/// two of another region becomes floor; nothing else changes.
pub fn carve(map: &MapBuffer, seeds: &Vec<Point>) -> (r: MapBuffer)
    requires
        map.fits(),
        map.width >= 2,
        map.height >= 2,
        seeds@.len() >= 1,
        forall|i: int| #![trigger seeds@[i]] 0 <= i < seeds@.len() ==> seeds@[i].x <= i64::MAX && seeds@[i].y <= i64::MAX,
    ensures
        r.fits(),
        r.same_frame(map),
        forall|x: int, y: int|
            #![trigger r.walkable_at(x, y)]
            r.walkable_at(x, y) == (map.walkable_at(x, y) || (map.in_bounds(x, y) && !on_border(*map, x, y)
                && foreign_neighbours(seeds@, x, y) < 2)),
{
    let w = map.width;
    let h = map.height;
    let mut new_map = map.duplicate();
    let mut y: usize = 1;
    while y < h - 1
        invariant
            map.fits(),
            new_map.wf(),
            new_map.same_frame(map),
            w == map.width,
            h == map.height,
            w >= 2,
            h >= 2,
            1 <= y <= h - 1,
            seeds@.len() >= 1,
            forall|i: int| #![trigger seeds@[i]] 0 <= i < seeds@.len() ==> seeds@[i].x <= i64::MAX && seeds@[i].y <= i64::MAX,
            forall|a: int, b: int|
                #![trigger new_map.walkable_at(a, b)]
                new_map.walkable_at(a, b) == (map.walkable_at(a, b) || (map.in_bounds(a, b) && !on_border(*map, a, b)
                    && b < y && foreign_neighbours(seeds@, a, b) < 2)),
        decreases h - y,
    {
        let mut x: usize = 1;
        while x < w - 1
            invariant
                map.fits(),
                new_map.wf(),
                new_map.same_frame(map),
                w == map.width,
                h == map.height,
                w >= 2,
                h >= 2,
                1 <= y < h - 1,
                1 <= x <= w - 1,
                seeds@.len() >= 1,
                forall|i: int| #![trigger seeds@[i]] 0 <= i < seeds@.len() ==> seeds@[i].x <= i64::MAX && seeds@[i].y <= i64::MAX,
                forall|a: int, b: int|
                    #![trigger new_map.walkable_at(a, b)]
                    new_map.walkable_at(a, b) == (map.walkable_at(a, b) || (map.in_bounds(a, b) && !on_border(*map, a, b)
                        && (b < y || (b == y && a < x)) && foreign_neighbours(seeds@, a, b) < 2)),
            decreases w - x,
        {
            let me = nearest_seed(seeds, x, y);
            let left = nearest_seed(seeds, x - 1, y);
            let right = nearest_seed(seeds, x + 1, y);
            let up = nearest_seed(seeds, x, y - 1);
            let down = nearest_seed(seeds, x, y + 1);
            proof {
                lemma_nearest_unique(seeds@, x as int, y as int, me as int);
                lemma_nearest_unique(seeds@, x - 1, y as int, left as int);
                lemma_nearest_unique(seeds@, x + 1, y as int, right as int);
                lemma_nearest_unique(seeds@, x as int, y - 1, up as int);
                lemma_nearest_unique(seeds@, x as int, y + 1, down as int);
            }
            let mut neighbors: u32 = 0;
            if left != me { neighbors = neighbors + 1; }
            if right != me { neighbors = neighbors + 1; }
            if up != me { neighbors = neighbors + 1; }
            if down != me { neighbors = neighbors + 1; }
            assert(neighbors == foreign_neighbours(seeds@, x as int, y as int));
            if neighbors < 2 {
                let ghost before = new_map;
                new_map.set_walkable(x, y, true);
                proof {
                    lemma_set_cell(before, new_map, x as int, y as int, true);
                }
            }
            x = x + 1;
        }
        y = y + 1;
    }
    new_map
}

/// Setting cell (x, y) to `v` changes that cell alone.
pub proof fn lemma_set_cell(before: MapBuffer, after: MapBuffer, x: int, y: int, v: bool)
    requires
        before.wf(),
        before.in_bounds(x, y),
        after.width == before.width,
        after.height == before.height,
        after.walkables@ == before.walkables@.update(before.idx(x, y), v),
    ensures
        forall|a: int, b: int| #[trigger]
            after.walkable_at(a, b) == if a == x && b == y { v } else { before.walkable_at(a, b) },
{
    assert forall|a: int, b: int| #[trigger]
        after.walkable_at(a, b) == if a == x && b == y { v } else { before.walkable_at(a, b) } by {
        if before.in_bounds(a, b) {
            lemma_cell_index(before.width as int, before.height as int, a, b);
            lemma_cell_index(before.width as int, before.height as int, x, y);
            if before.idx(a, b) == before.idx(x, y) {
                crate::map_buffer::lemma_cell_index_unique(before.width as int, a, b, x, y);
            }
        }
    }
}

} // verus!
