//! The walkable grid that every generator reads and writes, with the
//! points of interest and the rooms and corridors placed on it.
use vstd::prelude::*;
use crate::geometry::{abs_diff, usize_abs, Point, Rect};

verus! {

/// Mirroring applied when painting with a brush.
#[derive(PartialEq, Eq, Structural, Copy, Clone, Debug)]
pub enum Symmetry {
    Neither,
    Horizontal,
    Vertical,
    Both,
}

/// A rectangular grid of walkable (`true`) and blocked (`false`) cells,
/// stored row by row.
#[derive(Clone, Debug)]
pub struct MapBuffer {
    pub walkables: Vec<bool>,
    pub tile_types: Vec<usize>,
    pub width: usize,
    pub height: usize,
    pub starting_point: Option<Point>,
    pub exit_point: Option<Point>,
    pub rooms: Vec<Rect>,
    pub corridors: Vec<Vec<Point>>,
}

/// What a `MapBuffer` holds, as mathematical values.
pub struct MapView {
    pub walkables: Seq<bool>,
    pub tile_types: Seq<usize>,
    pub width: nat,
    pub height: nat,
    pub starting_point: Option<Point>,
    pub exit_point: Option<Point>,
    pub rooms: Seq<Rect>,
    pub corridors: Seq<Seq<Point>>,
}

impl View for MapBuffer {
    type V = MapView;

    open spec fn view(&self) -> MapView {
        MapView {
            walkables: self.walkables@,
            tile_types: self.tile_types@,
            width: self.width as nat,
            height: self.height as nat,
            starting_point: self.starting_point,
            exit_point: self.exit_point,
            rooms: self.rooms@,
            corridors: Seq::new(self.corridors@.len(), |i: int| self.corridors@[i]@),
        }
    }
}

/// The row-major index of cell (x, y) lies inside a `w` by `h` grid.
pub proof fn lemma_cell_index(w: int, h: int, x: int, y: int)
    requires
        0 <= x < w,
        0 <= y < h,
    ensures
        0 <= y * w + x < w * h,
{
    assert(0 <= y * w + x < w * h) by (nonlinear_arith)
        requires
            0 <= x < w,
            0 <= y < h,
    ;
}

/// Distinct cells have distinct row-major indices.
pub proof fn lemma_cell_index_unique(w: int, x1: int, y1: int, x2: int, y2: int)
    requires
        0 <= x1 < w,
        0 <= x2 < w,
        0 <= y1,
        0 <= y2,
        y1 * w + x1 == y2 * w + x2,
    ensures
        x1 == x2 && y1 == y2,
{
    if y1 < y2 {
        assert(y1 * w + w <= y2 * w) by (nonlinear_arith)
            requires
                y1 < y2,
                w > 0,
        ;
    } else if y2 < y1 {
        assert(y2 * w + w <= y1 * w) by (nonlinear_arith)
            requires
                y2 < y1,
                w > 0,
        ;
    }
}

pub open spec fn in_rect(r: Rect, x: int, y: int) -> bool {
    r.x1 <= x < r.x2 && r.y1 <= y < r.y2
}

impl MapBuffer {
    /// Every per-cell array holds one entry per cell.
    pub open spec fn wf(&self) -> bool {
        &&& self.width * self.height <= usize::MAX
        &&& self.walkables@.len() == self.width * self.height
        &&& self.tile_types@.len() == self.width * self.height
    }

    /// Well formed, with coordinates that fit the signed rectangles and
    /// costs that fit a cost map, and points of interest on the grid.
    pub open spec fn fits(&self) -> bool {
        &&& self.wf()
        &&& self.width < i32::MAX
        &&& self.height < i32::MAX
        &&& self.width * self.height * 100 + 200 < u64::MAX
        &&& (self.starting_point matches Some(p) ==> self.in_bounds(p.x as int, p.y as int))
        &&& (self.exit_point matches Some(p) ==> self.in_bounds(p.x as int, p.y as int))
    }

    /// Every cell of the outermost ring is blocked.
    pub open spec fn border_blocked(&self) -> bool {
        forall|x: int, y: int|
            #![trigger self.walkable_at(x, y)]
            self.in_bounds(x, y) && (x == 0 || y == 0 || x == self.width - 1 || y == self.height - 1)
                ==> !self.walkable_at(x, y)
    }

    pub open spec fn in_bounds(&self, x: int, y: int) -> bool {
        0 <= x < self.width && 0 <= y < self.height
    }

    pub open spec fn idx(&self, x: int, y: int) -> int {
        y * self.width + x
    }

    /// Whether cell (x, y) is floor; any cell outside the grid is blocked.
    pub open spec fn walkable_at(&self, x: int, y: int) -> bool {
        self.in_bounds(x, y) && self.walkables@[self.idx(x, y)]
    }

    /// The same grid size, the same metadata, rooms and corridors.
    pub open spec fn same_frame(&self, other: &MapBuffer) -> bool {
        &&& self.width == other.width
        &&& self.height == other.height
        &&& self@.tile_types == other@.tile_types
        &&& self.starting_point == other.starting_point
        &&& self.exit_point == other.exit_point
        &&& self@.rooms == other@.rooms
        &&& self@.corridors == other@.corridors
    }

    /// Generates an empty map, consisting entirely of solid walls.
    pub fn new(width: usize, height: usize) -> (r: MapBuffer)
        requires
            width * height <= usize::MAX,
        ensures
            r.wf(),
            r.width == width,
            r.height == height,
            forall|i: int| 0 <= i < width * height ==> !#[trigger] r.walkables@[i],
            forall|i: int| 0 <= i < width * height ==> #[trigger] r.tile_types@[i] == 0,
            r.starting_point.is_none(),
            r.exit_point.is_none(),
            r.rooms@.len() == 0,
            r.corridors@.len() == 0,
    {
        let count = width * height;
        MapBuffer {
            walkables: vec![false; count],
            tile_types: vec![0; count],
            width,
            height,
            starting_point: None,
            exit_point: None,
            rooms: Vec::new(),
            corridors: Vec::new(),
        }
    }

    /// A copy of the map, equal to it in every field.
    pub fn duplicate(&self) -> (r: MapBuffer)
        ensures
            r@ == self@,
    {
        let walkables = self.walkables.clone();
        let tile_types = self.tile_types.clone();
        let rooms = self.rooms.clone();
        assert(walkables@ =~= self.walkables@);
        assert(tile_types@ =~= self.tile_types@);
        assert(rooms@ =~= self.rooms@);
        let mut corridors: Vec<Vec<Point>> = Vec::new();
        let mut i: usize = 0;
        while i < self.corridors.len()
            invariant
                i <= self.corridors@.len(),
                corridors@.len() == i,
                forall|k: int| 0 <= k < i ==> #[trigger] corridors@[k]@ == self.corridors@[k]@,
            decreases self.corridors@.len() - i,
        {
            let c = self.corridors[i].clone();
            assert(c@ =~= self.corridors@[i as int]@);
            corridors.push(c);
            i = i + 1;
        }
        let r = MapBuffer {
            walkables,
            tile_types,
            width: self.width,
            height: self.height,
            starting_point: self.starting_point,
            exit_point: self.exit_point,
            rooms,
            corridors,
        };
        assert(r@.corridors =~= self@.corridors);
        r
    }

    pub fn is_walkable(&self, x: usize, y: usize) -> (r: bool)
        requires
            self.wf(),
        ensures
            r == self.walkable_at(x as int, y as int),
    {
        if x >= self.width || y >= self.height {
            false
        } else {
            proof {
                lemma_cell_index(self.width as int, self.height as int, x as int, y as int);
            }
            self.walkables[y * self.width + x]
        }
    }

    pub fn is_blocked(&self, x: usize, y: usize) -> (r: bool)
        requires
            self.wf(),
        ensures
            r == !self.walkable_at(x as int, y as int),
    {
        !self.is_walkable(x, y)
    }

    /// Sets cell (x, y); a cell outside the grid is left alone.
    pub fn set_walkable(&mut self, x: usize, y: usize, set: bool)
        requires
            old(self).wf(),
        ensures
            final(self).wf(),
            final(self).same_frame(old(self)),
            final(self).walkables@ == if old(self).in_bounds(x as int, y as int) {
                old(self).walkables@.update(old(self).idx(x as int, y as int), set)
            } else {
                old(self).walkables@
            },
    {
        if x < self.width && y < self.height {
            proof {
                lemma_cell_index(self.width as int, self.height as int, x as int, y as int);
            }
            let idx = self.xy_idx(x, y);
            self.walkables.set(idx, set);
        }
    }

    /// The cosmetic tile type of cell (x, y); 0 outside the grid.
    pub fn tile_type(&self, x: usize, y: usize) -> (r: usize)
        requires
            self.wf(),
        ensures
            r == if self.in_bounds(x as int, y as int) {
                self.tile_types@[self.idx(x as int, y as int)]
            } else {
                0
            },
    {
        if x >= self.width || y >= self.height {
            0
        } else {
            proof {
                lemma_cell_index(self.width as int, self.height as int, x as int, y as int);
            }
            self.tile_types[y * self.width + x]
        }
    }

    /// Sets the tile type of cell (x, y); a cell outside the grid is left alone.
    pub fn set_tile(&mut self, x: usize, y: usize, id: usize)
        requires
            old(self).wf(),
        ensures
            final(self).wf(),
            final(self)@.walkables == old(self)@.walkables,
            final(self).width == old(self).width,
            final(self).height == old(self).height,
            final(self).starting_point == old(self).starting_point,
            final(self).exit_point == old(self).exit_point,
            final(self)@.rooms == old(self)@.rooms,
            final(self)@.corridors == old(self)@.corridors,
            final(self).tile_types@ == if old(self).in_bounds(x as int, y as int) {
                old(self).tile_types@.update(old(self).idx(x as int, y as int), id)
            } else {
                old(self).tile_types@
            },
    {
        if x < self.width && y < self.height {
            proof {
                lemma_cell_index(self.width as int, self.height as int, x as int, y as int);
            }
            let idx = self.xy_idx(x, y);
            self.tile_types.set(idx, id);
        }
    }

    pub fn xy_idx(&self, x: usize, y: usize) -> (r: usize)
        requires
            y * self.width + x <= usize::MAX,
        ensures
            r == self.idx(x as int, y as int),
    {
        y * self.width + x
    }

    pub fn idx_point(&self, idx: usize) -> (r: Point)
        requires
            self.width > 0,
        ensures
            r.x == idx % self.width,
            r.y == idx / self.width,
            self.idx(r.x as int, r.y as int) == idx,
    {
        proof {
            let w = self.width as int;
            vstd::arithmetic::div_mod::lemma_fundamental_div_mod(idx as int, w);
            assert((idx as int / w) * w == w * (idx as int / w)) by (nonlinear_arith);
        }
        Point { x: idx % self.width, y: idx / self.width }
    }

    /// Create a room on the map: every cell inside `rect` becomes floor.
    pub fn add_room(&mut self, rect: Rect)
        requires
            old(self).wf(),
        ensures
            final(self).wf(),
            final(self).width == old(self).width,
            final(self).height == old(self).height,
            final(self)@.tile_types == old(self)@.tile_types,
            final(self).starting_point == old(self).starting_point,
            final(self).exit_point == old(self).exit_point,
            final(self)@.corridors == old(self)@.corridors,
            final(self).rooms@ == old(self).rooms@.push(rect),
            forall|x: int, y: int| #[trigger]
                final(self).walkable_at(x, y) == (old(self).walkable_at(x, y) || (old(
                    self,
                ).in_bounds(x, y) && in_rect(rect, x, y))),
    {
        fill_rect(self, rect);
        let ghost mid = *self;
        self.rooms.push(rect);
        assert forall|x: int, y: int| #[trigger]
            self.walkable_at(x, y) == mid.walkable_at(x, y) by {}
    }

    #[verifier::rlimit(100)]
    #[verifier::spinoff_prover]
    /// The moves out of cell (x, y), with their costs in hundredths: the
    /// axis moves first, then the diagonals.
    pub fn get_available_exits(&self, x: usize, y: usize) -> (r: Vec<(usize, usize, u32)>)
        requires
            self.wf(),
            x < self.width,
            y < self.height,
        ensures
            forall|i: int|
                0 <= i < r@.len() ==> is_exit(*self, x as int, y as int, #[trigger] r@[i].0 as int, r@[i].1 as int)
                    && r@[i].2 == step_cost(x as int, y as int, r@[i].0 as int, r@[i].1 as int),
            forall|nx: int, ny: int|
                #[trigger] is_exit(*self, x as int, y as int, nx, ny) ==> exists|i: int|
                    0 <= i < r@.len() && r@[i].0 == nx && r@[i].1 == ny,
            ranked(x as int, y as int, r@, 8),
    {
        let mut exits: Vec<(usize, usize, u32)> = Vec::new();
        let ghost m = *self;
        proof {
            lemma_ranked_empty(x as int, y as int);
        }
        let xl: usize = if x > 0 { x - 1 } else { 0 };
        let yu: usize = if y > 0 { y - 1 } else { 0 };
        let c1 = x > 0 && self.is_walkable(x - 1, y);
        let ghost k1 = exits@.len();
        push_exit_if(&mut exits, c1, xl, y, 100, Ghost(m), x, y, Ghost(0int));
        let c2 = self.is_walkable(x + 1, y);
        let ghost k2 = exits@.len();
        push_exit_if(&mut exits, c2, x + 1, y, 100, Ghost(m), x, y, Ghost(1int));
        let c3 = y > 0 && self.is_walkable(x, y - 1);
        let ghost k3 = exits@.len();
        push_exit_if(&mut exits, c3, x, yu, 100, Ghost(m), x, y, Ghost(2int));
        let c4 = self.is_walkable(x, y + 1);
        let ghost k4 = exits@.len();
        push_exit_if(&mut exits, c4, x, y + 1, 100, Ghost(m), x, y, Ghost(3int));
        let c5 = x > 0 && y > 0 && self.is_walkable(x - 1, y - 1);
        let ghost k5 = exits@.len();
        push_exit_if(&mut exits, c5, xl, yu, 145, Ghost(m), x, y, Ghost(4int));
        let c6 = y > 0 && self.is_walkable(x + 1, y - 1);
        let ghost k6 = exits@.len();
        push_exit_if(&mut exits, c6, x + 1, yu, 145, Ghost(m), x, y, Ghost(5int));
        let c7 = x > 0 && self.is_walkable(x - 1, y + 1);
        let ghost k7 = exits@.len();
        push_exit_if(&mut exits, c7, xl, y + 1, 145, Ghost(m), x, y, Ghost(6int));
        let c8 = self.is_walkable(x + 1, y + 1);
        let ghost k8 = exits@.len();
        push_exit_if(&mut exits, c8, x + 1, y + 1, 145, Ghost(m), x, y, Ghost(7int));
        assert forall|nx: int, ny: int|
            #[trigger] is_exit(m, x as int, y as int, nx, ny) implies exists|i: int|
                0 <= i < exits@.len() && exits@[i].0 == nx && exits@[i].1 == ny by {
            assert(k1 <= k2 <= k3 <= k4 <= k5 <= k6 <= k7 <= k8 <= exits@.len());
            if nx == x - 1 && ny == y {
                assert(exits@[k1 as int].0 == nx);
            } else if nx == x + 1 && ny == y {
                assert(exits@[k2 as int].0 == nx);
            } else if nx == x && ny == y - 1 {
                assert(exits@[k3 as int].0 == nx);
            } else if nx == x && ny == y + 1 {
                assert(exits@[k4 as int].0 == nx);
            } else if nx == x - 1 && ny == y - 1 {
                assert(exits@[k5 as int].0 == nx);
            } else if nx == x + 1 && ny == y - 1 {
                assert(exits@[k6 as int].0 == nx);
            } else if nx == x - 1 && ny == y + 1 {
                assert(exits@[k7 as int].0 == nx);
            } else {
                assert(exits@[k8 as int].0 == nx);
            }
        }
        exits
    }

    /// Paints floor at (x, y) with a brush of `brush_size` cells, mirrored
    /// across the grid's centre lines as `mode` says.
    pub fn paint(&mut self, mode: Symmetry, brush_size: usize, x: usize, y: usize)
        requires
            old(self).wf(),
            mode != Symmetry::Neither ==> x < old(self).width && y < old(self).height,
        ensures
            final(self).wf(),
            final(self).same_frame(old(self)),
            forall|a: int, b: int| #[trigger]
                final(self).walkable_at(a, b) == (old(self).walkable_at(a, b) || paint_covers(
                    old(self).width as int,
                    old(self).height as int,
                    mode,
                    brush_size as int,
                    x as int,
                    y as int,
                    a,
                    b,
                )),
    {
        let ghost m0 = *self;
        match mode {
            Symmetry::Neither => self.apply_paint(brush_size, x, y),
            Symmetry::Horizontal => {
                let center_x = self.width / 2;
                if x == center_x {
                    self.apply_paint(brush_size, x, y);
                } else {
                    let dist_x = usize_abs(center_x, x);
                    self.apply_paint(brush_size, center_x + dist_x, y);
                    self.apply_paint(brush_size, center_x - dist_x, y);
                }
            },
            Symmetry::Vertical => {
                let center_y = self.height / 2;
                if y == center_y {
                    self.apply_paint(brush_size, x, y);
                } else {
                    let dist_y = usize_abs(center_y, y);
                    self.apply_paint(brush_size, x, center_y + dist_y);
                    self.apply_paint(brush_size, x, center_y - dist_y);
                }
            },
            Symmetry::Both => {
                let center_x = self.width / 2;
                let center_y = self.height / 2;
                if x == center_x && y == center_y {
                    self.apply_paint(brush_size, x, y);
                } else {
                    let dist_x = usize_abs(center_x, x);
                    self.apply_paint(brush_size, center_x + dist_x, y);
                    self.apply_paint(brush_size, center_x - dist_x, y);
                    let dist_y = usize_abs(center_y, y);
                    self.apply_paint(brush_size, x, center_y + dist_y);
                    self.apply_paint(brush_size, x, center_y - dist_y);
                }
            },
        }
    }

    /// One dab of the brush centred on (x, y).
    pub fn apply_paint(&mut self, brush_size: usize, x: usize, y: usize)
        requires
            old(self).wf(),
        ensures
            final(self).wf(),
            final(self).same_frame(old(self)),
            forall|a: int, b: int| #[trigger]
                final(self).walkable_at(a, b) == (old(self).walkable_at(a, b) || brush_covers(
                    old(self).width as int,
                    old(self).height as int,
                    brush_size as int,
                    x as int,
                    y as int,
                    a,
                    b,
                )),
    {
        let ghost m0 = *self;
        if brush_size == 1 {
            self.set_walkable(x, y, true);
            proof {
                if m0.in_bounds(x as int, y as int) {
                    lemma_set_one(m0, *self, x as int, y as int);
                }
            }
        } else {
            let half = brush_size / 2;
            let w = self.width;
            let h = self.height;
            // the brush square, clipped to the cells off the two outer rings
            let lo_x: usize = if x >= half && x - half > 2 { x - half } else { 2 };
            let lo_y: usize = if y >= half && y - half > 2 { y - half } else { 2 };
            let hi_x: usize = if w < 1 { 0 } else if x <= usize::MAX - half && x + half < w - 1 { x + half } else { w - 1 };
            let hi_y: usize = if h < 1 { 0 } else if y <= usize::MAX - half && y + half < h - 1 { y + half } else { h - 1 };
            fill_cells(self, lo_x, hi_x, lo_y, hi_y);
        }
    }

    /// Carves a corridor from `from` to `to`, x first, then y. Each blocked
    /// cell stepped onto becomes floor, and the list of those cells is
    /// recorded as a new corridor.
    pub fn add_corridor(&mut self, from: Point, to: Point)
        requires
            old(self).wf(),
        ensures
            final(self).wf(),
            final(self).width == old(self).width,
            final(self).height == old(self).height,
            final(self)@.tile_types == old(self)@.tile_types,
            final(self).starting_point == old(self).starting_point,
            final(self).exit_point == old(self).exit_point,
            final(self)@.rooms == old(self)@.rooms,
            final(self)@.corridors == old(self)@.corridors.push(
                blocked_along(*old(self), corridor_path(from, to)),
            ),
            forall|a: int, b: int| #[trigger]
                final(self).walkable_at(a, b) == (old(self).walkable_at(a, b) || (old(
                    self,
                ).in_bounds(a, b) && corridor_path(from, to).contains(
                    Point { x: a as usize, y: b as usize },
                ))),
    {
        let ghost m0 = *self;
        let ghost walked: Seq<Point> = seq![];
        let mut corridor: Vec<Point> = Vec::new();
        let mut x = from.x;
        let mut y = from.y;
        while x != to.x || y != to.y
            invariant
                self.wf(),
                self.same_frame(&m0),
                walked + corridor_path(Point { x, y }, to) == corridor_path(from, to),
                corridor@ == blocked_along(m0, walked),
                forall|i: int|
                    0 <= i < walked.len() ==> manhattan(#[trigger] walked[i], to) >= manhattan(
                        Point { x, y },
                        to,
                    ),
                forall|a: int, b: int| #[trigger]
                    self.walkable_at(a, b) == (m0.walkable_at(a, b) || (m0.in_bounds(a, b)
                        && walked.contains(Point { x: a as usize, y: b as usize }))),
            decreases manhattan(Point { x, y }, to),
        {
            let ghost cur = Point { x, y };
            if x < to.x {
                x = x + 1;
            } else if x > to.x {
                x = x - 1;
            } else if y < to.y {
                y = y + 1;
            } else if y > to.y {
                y = y - 1;
            }
            let ghost next = Point { x, y };
            proof {
                assert(next == step_toward(cur, to));
                assert(manhattan(next, to) < manhattan(cur, to));
                assert(corridor_path(cur, to) == seq![next] + corridor_path(next, to));
                assert(walked.push(next) + corridor_path(next, to) =~= walked + corridor_path(
                    cur,
                    to,
                ));
                assert(!walked.contains(next)) by {
                    if walked.contains(next) {
                        let i = choose|i: int| 0 <= i < walked.len() && walked[i] == next;
                        assert(manhattan(walked[i], to) > manhattan(cur, to));
                    }
                }
                assert(self.walkable_at(x as int, y as int) == m0.walkable_at(x as int, y as int));
                assert(walked.push(next).drop_last() =~= walked);
            }
            let blocked = self.is_blocked(x, y);
            if blocked {
                corridor.push(Point::new(x, y));
            }
            let ghost before = *self;
            self.set_walkable(x, y, true);
            proof {
                assert forall|a: int, b: int| #[trigger]
                    self.walkable_at(a, b) == (before.walkable_at(a, b) || (before.in_bounds(a, b)
                        && a == x && b == y)) by {
                    if self.in_bounds(a, b) && self.in_bounds(x as int, y as int) {
                        lemma_cell_index(self.width as int, self.height as int, a, b);
                        lemma_cell_index(self.width as int, self.height as int, x as int, y as int);
                        if self.idx(a, b) == self.idx(x as int, y as int) {
                            lemma_cell_index_unique(self.width as int, a, b, x as int, y as int);
                        }
                    }
                }
                assert forall|a: int, b: int| #[trigger]
                    self.walkable_at(a, b) == (m0.walkable_at(a, b) || (m0.in_bounds(a, b)
                        && walked.push(next).contains(Point { x: a as usize, y: b as usize }))) by {
                    let p = Point { x: a as usize, y: b as usize };
                    if m0.in_bounds(a, b) && walked.push(next).contains(p) {
                        if p != next {
                            let i = choose|i: int| 0 <= i < walked.push(next).len() && walked.push(next)[i] == p;
                            assert(walked[i] == p);
                        }
                    }
                    if walked.contains(p) {
                        let i = choose|i: int| 0 <= i < walked.len() && walked[i] == p;
                        assert(walked.push(next)[i] == p);
                    }
                    if a == x && b == y {
                        assert(walked.push(next)[walked.len() as int] == next);
                    }
                }
                walked = walked.push(next);
            }
        }
        proof {
            assert(walked =~= walked + corridor_path(Point { x, y }, to));
        }
        let ghost mid = *self;
        self.corridors.push(corridor);
        assert forall|a: int, b: int| #[trigger]
            self.walkable_at(a, b) == mid.walkable_at(a, b) by {}
        assert(self@.corridors =~= m0@.corridors.push(blocked_along(m0, corridor_path(from, to))));
    }
}

/// One step of a corridor: along x first, then along y.
pub open spec fn step_toward(p: Point, to: Point) -> Point {
    if p.x < to.x {
        Point { x: (p.x + 1) as usize, y: p.y }
    } else if p.x > to.x {
        Point { x: (p.x - 1) as usize, y: p.y }
    } else if p.y < to.y {
        Point { x: p.x, y: (p.y + 1) as usize }
    } else if p.y > to.y {
        Point { x: p.x, y: (p.y - 1) as usize }
    } else {
        p
    }
}

pub open spec fn manhattan(p: Point, q: Point) -> nat {
    abs_diff(p.x as int, q.x as int) + abs_diff(p.y as int, q.y as int)
}

/// The cells a corridor steps onto from `from` (excluded) to `to` (included).
pub open spec fn corridor_path(from: Point, to: Point) -> Seq<Point>
    decreases manhattan(from, to),
{
    if from == to {
        seq![]
    } else {
        seq![step_toward(from, to)] + corridor_path(step_toward(from, to), to)
    }
}

/// The cells of `path` that are blocked on `m`, in order.
pub open spec fn blocked_along(m: MapBuffer, path: Seq<Point>) -> Seq<Point>
    decreases path.len(),
{
    if path.len() == 0 {
        seq![]
    } else {
        let rest = blocked_along(m, path.drop_last());
        let p = path.last();
        if m.walkable_at(p.x as int, p.y as int) {
            rest
        } else {
            rest.push(p)
        }
    }
}

/// Whether one dab of a brush of `brush` cells centred on (cx, cy) covers
/// cell (a, b): a single cell for size 1, else a square clipped to stay off
/// the two outer rings of the grid.
pub open spec fn brush_covers(w: int, h: int, brush: int, cx: int, cy: int, a: int, b: int) -> bool {
    if brush == 1 {
        a == cx && b == cy && 0 <= a < w && 0 <= b < h
    } else {
        let half = brush / 2;
        &&& cx - half <= a < cx + half
        &&& cy - half <= b < cy + half
        &&& 1 < a < w - 1
        &&& 1 < b < h - 1
    }
}

/// Whether painting at (x, y) with the given mirroring covers cell (a, b).
pub open spec fn paint_covers(
    w: int,
    h: int,
    mode: Symmetry,
    brush: int,
    x: int,
    y: int,
    a: int,
    b: int,
) -> bool {
    let cx = w / 2;
    let cy = h / 2;
    let dx = abs_diff(cx, x) as int;
    let dy = abs_diff(cy, y) as int;
    match mode {
        Symmetry::Neither => brush_covers(w, h, brush, x, y, a, b),
        Symmetry::Horizontal => if x == cx {
            brush_covers(w, h, brush, x, y, a, b)
        } else {
            brush_covers(w, h, brush, cx + dx, y, a, b) || brush_covers(w, h, brush, cx - dx, y, a, b)
        },
        Symmetry::Vertical => if y == cy {
            brush_covers(w, h, brush, x, y, a, b)
        } else {
            brush_covers(w, h, brush, x, cy + dy, a, b) || brush_covers(w, h, brush, x, cy - dy, a, b)
        },
        Symmetry::Both => if x == cx && y == cy {
            brush_covers(w, h, brush, x, y, a, b)
        } else {
            brush_covers(w, h, brush, cx + dx, y, a, b) || brush_covers(w, h, brush, cx - dx, y, a, b)
                || brush_covers(w, h, brush, x, cy + dy, a, b) || brush_covers(
                w,
                h,
                brush,
                x,
                cy - dy,
                a,
                b,
            )
        },
    }
}

/// Cost of one move, in hundredths: 1.00 along an axis, 1.45 on a diagonal.
pub open spec fn step_cost(x: int, y: int, nx: int, ny: int) -> u32 {
    if x == nx || y == ny {
        100
    } else {
        145
    }
}

/// Whether one can walk from (x, y) to (nx, ny) in one move: the cells are
/// 8-neighbours and (nx, ny) is floor.
pub open spec fn is_exit(m: MapBuffer, x: int, y: int, nx: int, ny: int) -> bool {
    &&& abs_diff(x, nx) <= 1
    &&& abs_diff(y, ny) <= 1
    &&& (x != nx || y != ny)
    &&& m.walkable_at(nx, ny)
}

/// Appends the move to (nx, ny) when `c` holds; earlier entries stay in place.
fn push_exit_if(
    v: &mut Vec<(usize, usize, u32)>,
    c: bool,
    nx: usize,
    ny: usize,
    cost: u32,
    Ghost(m): Ghost<MapBuffer>,
    x: usize,
    y: usize,
    Ghost(rank): Ghost<int>,
)
    requires
        c ==> dir_rank(x as int, y as int, nx as int, ny as int) == rank,
        ranked(x as int, y as int, old(v)@, rank),
        c ==> is_exit(m, x as int, y as int, nx as int, ny as int) && cost == step_cost(
            x as int,
            y as int,
            nx as int,
            ny as int,
        ),
        forall|i: int|
            0 <= i < old(v)@.len() ==> is_exit(m, x as int, y as int, #[trigger] old(v)@[i].0 as int, old(v)@[i].1 as int)
                && old(v)@[i].2 == step_cost(x as int, y as int, old(v)@[i].0 as int, old(v)@[i].1 as int),
    ensures
        final(v)@.len() == old(v)@.len() + if c { 1int } else { 0int },
        forall|i: int| 0 <= i < old(v)@.len() ==> #[trigger] final(v)@[i] == old(v)@[i],
        c ==> final(v)@[old(v)@.len() as int] == (nx, ny, cost),
        ranked(x as int, y as int, final(v)@, rank + 1),
        forall|i: int|
            0 <= i < final(v)@.len() ==> is_exit(m, x as int, y as int, #[trigger] final(v)@[i].0 as int, final(v)@[i].1 as int)
                && final(v)@[i].2 == step_cost(x as int, y as int, final(v)@[i].0 as int, final(v)@[i].1 as int),
{
    reveal(ranked);
    if c {
        v.push((nx, ny, cost));
    }
}

/// The moves of `v` out of (x, y) come in strictly increasing `dir_rank`,
/// all below `k`; so no cell is listed twice.
#[verifier::opaque]
pub open spec fn ranked(x: int, y: int, v: Seq<(usize, usize, u32)>, k: int) -> bool {
    &&& forall|i: int| 0 <= i < v.len() ==> dir_rank(x, y, #[trigger] v[i].0 as int, v[i].1 as int) < k
    &&& forall|i: int, j: int|
        0 <= i < j < v.len() ==> dir_rank(x, y, #[trigger] v[i].0 as int, v[i].1 as int) < dir_rank(
            x,
            y,
            #[trigger] v[j].0 as int,
            v[j].1 as int,
        )
}

pub proof fn lemma_ranked_empty(x: int, y: int)
    ensures
        ranked(x, y, seq![], 0),
{
    reveal(ranked);
}

/// Moves listed in `ranked` order go to distinct cells.
pub proof fn lemma_ranked_distinct(x: int, y: int, v: Seq<(usize, usize, u32)>, k: int)
    requires
        ranked(x, y, v, k),
    ensures
        forall|i: int, j: int| 0 <= i < j < v.len() ==> (#[trigger] v[i].0, v[i].1) != (#[trigger] v[j].0, v[j].1),
{
    reveal(ranked);
    assert forall|i: int, j: int| 0 <= i < j < v.len() implies (#[trigger] v[i].0, v[i].1) != (#[trigger] v[j].0, v[j].1) by {
        assert(dir_rank(x, y, v[i].0 as int, v[i].1 as int) < dir_rank(x, y, v[j].0 as int, v[j].1 as int));
    }
}

/// Position of the move from (x, y) to (nx, ny) in the order west, east,
/// north, south, north-west, north-east, south-west, south-east.
pub open spec fn dir_rank(x: int, y: int, nx: int, ny: int) -> int {
    if ny == y {
        if nx < x { 0 } else { 1 }
    } else if nx == x {
        if ny < y { 2 } else { 3 }
    } else if ny < y {
        if nx < x { 4 } else { 5 }
    } else {
        if nx < x { 6 } else { 7 }
    }
}

/// Number of `true` entries of `s`.
pub open spec fn count_true(s: Seq<bool>) -> nat
    decreases s.len(),
{
    if s.len() == 0 {
        0
    } else {
        count_true(s.drop_last()) + if s.last() { 1nat } else { 0nat }
    }
}

/// Number of floor cells of `map`.
pub fn count_floor(map: &MapBuffer) -> (r: usize)
    ensures
        r == count_true(map.walkables@),
{
    let mut n: usize = 0;
    let mut i: usize = 0;
    while i < map.walkables.len()
        invariant
            i <= map.walkables@.len(),
            n == count_true(map.walkables@.subrange(0, i as int)),
            n <= i,
        decreases map.walkables@.len() - i,
    {
        proof {
            let s = map.walkables@.subrange(0, i as int + 1);
            assert(s.drop_last() =~= map.walkables@.subrange(0, i as int));
        }
        if map.walkables[i] {
            n = n + 1;
        }
        i = i + 1;
    }
    assert(map.walkables@.subrange(0, i as int) =~= map.walkables@);
    n
}

/// A corridor stays within the box spanned by its two ends.
pub proof fn lemma_path_in_box(from: Point, to: Point)
    ensures
        forall|i: int|
            #![trigger corridor_path(from, to)[i]]
            0 <= i < corridor_path(from, to).len() ==> {
                let p = corridor_path(from, to)[i];
                &&& (from.x <= to.x ==> from.x <= p.x <= to.x)
                &&& (from.x > to.x ==> to.x <= p.x <= from.x)
                &&& (from.y <= to.y ==> from.y <= p.y <= to.y)
                &&& (from.y > to.y ==> to.y <= p.y <= from.y)
            },
    decreases manhattan(from, to),
{
    if from != to {
        let n = step_toward(from, to);
        lemma_path_in_box(n, to);
        assert(corridor_path(from, to) == seq![n] + corridor_path(n, to));
        assert forall|i: int|
            #![trigger corridor_path(from, to)[i]]
            0 <= i < corridor_path(from, to).len() implies {
                let p = corridor_path(from, to)[i];
                &&& (from.x <= to.x ==> from.x <= p.x <= to.x)
                &&& (from.x > to.x ==> to.x <= p.x <= from.x)
                &&& (from.y <= to.y ==> from.y <= p.y <= to.y)
                &&& (from.y > to.y ==> to.y <= p.y <= from.y)
            } by {
            if i > 0 {
                assert(corridor_path(from, to)[i] == corridor_path(n, to)[i - 1]);
            }
        }
    }
}

/// Turns every cell of `rect` that lies on the grid into floor.
pub fn fill_rect(map: &mut MapBuffer, rect: Rect)
    requires
        old(map).wf(),
    ensures
        final(map).wf(),
        final(map).same_frame(old(map)),
        forall|x: int, y: int| #[trigger]
            final(map).walkable_at(x, y) == (old(map).walkable_at(x, y) || (old(map).in_bounds(
                x,
                y,
            ) && in_rect(rect, x, y))),
{
    let w = map.width;
    let h = map.height;
    // the part of the rectangle that lies on the grid
    let hi_x: usize = if rect.x2 < 0 { 0 } else if (rect.x2 as usize) < w { rect.x2 as usize } else { w };
    let hi_y: usize = if rect.y2 < 0 { 0 } else if (rect.y2 as usize) < h { rect.y2 as usize } else { h };
    let lo_x: usize = if rect.x1 < 0 { 0 } else if (rect.x1 as usize) < hi_x { rect.x1 as usize } else { hi_x };
    let lo_y: usize = if rect.y1 < 0 { 0 } else if (rect.y1 as usize) < hi_y { rect.y1 as usize } else { hi_y };
    fill_cells(map, lo_x, hi_x, lo_y, hi_y);
}

/// Turns every cell (a, b) with `lo_x <= a < hi_x` and `lo_y <= b < hi_y` into floor.
pub fn fill_cells(map: &mut MapBuffer, lo_x: usize, hi_x: usize, lo_y: usize, hi_y: usize)
    requires
        old(map).wf(),
        hi_x <= old(map).width,
        hi_y <= old(map).height,
    ensures
        final(map).wf(),
        final(map).same_frame(old(map)),
        forall|a: int, b: int| #[trigger]
            final(map).walkable_at(a, b) == (old(map).walkable_at(a, b) || (lo_x <= a < hi_x
                && lo_y <= b < hi_y)),
{
    let ghost m0 = *map;
    let w = map.width;
    let h = map.height;
    if lo_x >= hi_x || lo_y >= hi_y {
        return;
    }
    let mut y = lo_y;
    while y < hi_y
        invariant
            map.wf(),
            map.same_frame(&m0),
            w == m0.width,
            h == m0.height,
            lo_x < hi_x <= w,
            hi_y <= h,
            lo_y <= y <= hi_y,
            forall|a: int, b: int| #[trigger]
                map.walkable_at(a, b) == (m0.walkable_at(a, b) || (lo_x <= a < hi_x && lo_y <= b
                    < y)),
        decreases hi_y - y,
    {
        let mut x = lo_x;
        while x < hi_x
            invariant
                map.wf(),
                map.same_frame(&m0),
                w == m0.width,
                h == m0.height,
                lo_x < hi_x <= w,
                hi_y <= h,
                lo_y <= y < hi_y,
                lo_x <= x <= hi_x,
                forall|a: int, b: int| #[trigger]
                    map.walkable_at(a, b) == (m0.walkable_at(a, b) || (lo_x <= a < hi_x && lo_y
                        <= b < y) || (lo_x <= a < x && b == y)),
            decreases hi_x - x,
        {
            let ghost before = *map;
            map.set_walkable(x, y, true);
            proof {
                lemma_set_one(before, *map, x as int, y as int);
            }
            x = x + 1;
        }
        y = y + 1;
    }
}

/// After setting cell (x, y) to floor, exactly that cell has changed.
pub proof fn lemma_set_one(before: MapBuffer, after: MapBuffer, x: int, y: int)
    requires
        before.wf(),
        before.in_bounds(x, y),
        after.width == before.width,
        after.height == before.height,
        after.walkables@ == before.walkables@.update(before.idx(x, y), true),
    ensures
        forall|a: int, b: int| #[trigger]
            after.walkable_at(a, b) == (before.walkable_at(a, b) || (a == x && b == y)),
{
    assert forall|a: int, b: int| #[trigger]
        after.walkable_at(a, b) == (before.walkable_at(a, b) || (a == x && b == y)) by {
        if before.in_bounds(a, b) {
            lemma_cell_index(before.width as int, before.height as int, a, b);
            lemma_cell_index(before.width as int, before.height as int, x, y);
            if before.idx(a, b) == before.idx(x, y) {
                lemma_cell_index_unique(before.width as int, a, b, x, y);
            }
        }
    }
}

} // verus!
