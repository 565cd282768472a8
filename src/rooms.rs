//! Generators that lay out rectangular rooms, and the corridors joining them.
use vstd::prelude::*;
use rand::rngs::StdRng;
use crate::cave::keeps_border;
use crate::geometry::{Point, Rect};
use crate::map_buffer::{corridor_path, in_rect, MapBuffer};
use crate::random::{random_range, roll_dice};

verus! {

/// No two rooms of `rooms` overlap.
pub open spec fn rooms_disjoint(rooms: Seq<Rect>) -> bool {
    forall|i: int, j: int| 0 <= i < j < rooms.len() ==> !(#[trigger] rooms[i]).overlaps(#[trigger] rooms[j])
}

/// `rooms` starts with `old`, and each room added after them overlaps no
/// room before it.
pub open spec fn adds_disjoint_rooms(old: Seq<Rect>, rooms: Seq<Rect>) -> bool {
    &&& old.len() <= rooms.len()
    &&& rooms.subrange(0, old.len() as int) == old
    &&& forall|i: int, j: int|
        0 <= i < j < rooms.len() && j >= old.len() ==> !(#[trigger] rooms[i]).overlaps(#[trigger] rooms[j])
}

/// Whether `rect` overlaps one of `rooms`.
pub fn intersects_any(rooms: &Vec<Rect>, rect: &Rect) -> (r: bool)
    ensures
        r == exists|i: int| 0 <= i < rooms@.len() && (#[trigger] rooms@[i]).overlaps(*rect),
{
    let mut i: usize = 0;
    while i < rooms.len()
        invariant
            i <= rooms@.len(),
            forall|j: int| 0 <= j < i ==> !(#[trigger] rooms@[j]).overlaps(*rect),
        decreases rooms@.len() - i,
    {
        if rooms[i].intersect(rect) {
            return true;
        }
        i = i + 1;
    }
    false
}

/// Adding rooms that do not overlap keeps rooms apart.
pub proof fn lemma_disjoint_after_adding(old: Seq<Rect>, rooms: Seq<Rect>)
    requires
        rooms_disjoint(old),
        adds_disjoint_rooms(old, rooms),
    ensures
        rooms_disjoint(rooms),
{
    assert forall|i: int, j: int| 0 <= i < j < rooms.len() implies !(#[trigger] rooms[i]).overlaps(
        #[trigger] rooms[j],
    ) by {
        if j < old.len() {
            assert(rooms[i] == rooms.subrange(0, old.len() as int)[i]);
            assert(rooms[j] == rooms.subrange(0, old.len() as int)[j]);
        }
    }
}

/// Places rooms of random size at random, skipping any that would overlap
/// a room already placed.
#[derive(Copy, Clone, Debug)]
pub struct SimpleRooms {
    pub max_rooms: usize,
    pub min_room_size: usize,
    pub max_room_size: usize,
}

impl SimpleRooms {
    pub fn new() -> (r: SimpleRooms)
        ensures
            r.max_rooms == 30,
            r.min_room_size == 6,
            r.max_room_size == 10,
    {
        SimpleRooms { max_rooms: 30, min_room_size: 6, max_room_size: 10 }
    }

    /// A room as `modify_map` places it: off the outer ring of a `w` by `h`
    /// map, between `min_room_size` and `max_room_size` cells each way
    /// (short of `max_room_size` unless the two are equal).
    pub open spec fn room_ok(&self, r: Rect, w: int, h: int) -> bool {
        &&& 1 <= r.x1 && r.x2 <= w - 1
        &&& 1 <= r.y1 && r.y2 <= h - 1
        &&& self.min_room_size <= r.x2 - r.x1 <= self.max_room_size
        &&& self.min_room_size <= r.y2 - r.y1 <= self.max_room_size
        &&& (self.min_room_size < self.max_room_size ==> r.x2 - r.x1 < self.max_room_size && r.y2 - r.y1
            < self.max_room_size)
    }

    /// What `modify_map` may return: at most `max_rooms` rooms added, each
    /// placed as `room_ok` says, as `rooms_grown` describes; at least one
    /// when the map had none and `max_rooms` is not 0.
    pub open spec fn outcome(&self, m: MapBuffer, r: MapBuffer) -> bool {
        &&& rooms_grown(m, r)
        &&& r@.rooms.len() <= m@.rooms.len() + self.max_rooms
        &&& (m@.rooms.len() == 0 && self.max_rooms >= 1 ==> r@.rooms.len() >= 1)
        &&& forall|j: int|
            #![trigger r@.rooms[j]]
            m@.rooms.len() <= j < r@.rooms.len() ==> self.room_ok(r@.rooms[j], m.width as int, m.height as int)
    }

    /// Tries `max_rooms` times to place a room; a room lies off the outer
    /// ring and overlaps no room placed before it.
    pub fn modify_map(&self, rng: &mut StdRng, map: &MapBuffer) -> (r: MapBuffer)
        requires
            map.fits(),
            self.min_room_size <= self.max_room_size,
            self.max_room_size + 1 < map.width,
            self.max_room_size + 1 < map.height,
        ensures
            self.outcome(*map, r),
            rooms_disjoint(map@.rooms) ==> rooms_disjoint(r@.rooms),
    {
        let mut new_map = map.duplicate();
        let w = map.width;
        let h = map.height;
        let mut k: usize = 0;
        proof {
            lemma_rooms_grown_start(*map, new_map);
        }
        while k < self.max_rooms
            invariant
                map.fits(),
                w == map.width,
                h == map.height,
                self.min_room_size <= self.max_room_size,
                self.max_room_size + 1 < w,
                self.max_room_size + 1 < h,
                k <= self.max_rooms,
                rooms_grown(*map, new_map),
                new_map@.rooms.len() <= map@.rooms.len() + k,
                map@.rooms.len() == 0 && k >= 1 ==> new_map@.rooms.len() >= 1,
                forall|j: int|
                    #![trigger new_map@.rooms[j]]
                    map@.rooms.len() <= j < new_map@.rooms.len() ==> self.room_ok(new_map@.rooms[j], w as int, h as int),
            decreases self.max_rooms - k,
        {
            let rw = random_range(rng, self.min_room_size, self.max_room_size);
            let rh = random_range(rng, self.min_room_size, self.max_room_size);
            let x = random_range(rng, 1, w - rw);
            let y = random_range(rng, 1, h - rh);
            let new_room = Rect::new(x as i32, y as i32, rw as i32, rh as i32);
            if !intersects_any(&new_map.rooms, &new_room) {
                let ghost before = new_map;
                new_map.add_room(new_room);
                proof {
                    lemma_room_added(*map, before, new_map, new_room);
                    assert forall|j: int|
                        #![trigger new_map@.rooms[j]]
                        map@.rooms.len() <= j < new_map@.rooms.len() implies self.room_ok(new_map@.rooms[j], w as int, h as int) by {
                        if j < before@.rooms.len() {
                            assert(new_map@.rooms[j] == before@.rooms[j]);
                        }
                    }
                }
            } else {
                proof {
                    if map@.rooms.len() == 0 && k == 0 {
                        assert(new_map@.rooms.len() == 0);
                    }
                }
            }
            k = k + 1;
        }
        proof {
            if rooms_disjoint(map@.rooms) {
                lemma_disjoint_after_adding(map@.rooms, new_map@.rooms);
            }
        }
        new_map
    }
}

/// Largest coordinate a work rectangle of `BspRooms` may take; splitting
/// clamps to it.
pub const SPLIT_LIMIT: i32 = 0x3fff_ffff;

/// A rectangle of the work list: at least one cell each way, with
/// coordinates in `0..=SPLIT_LIMIT`.
pub open spec fn work_rect(r: Rect) -> bool {
    0 <= r.x1 && r.x1 < r.x2 && r.x2 <= SPLIT_LIMIT && 0 <= r.y1 && r.y1 < r.y2 && r.y2 <= SPLIT_LIMIT
}

/// `rect`, grown by two cells each way, stays off the outer ring of `m`
/// and covers no floor.
pub open spec fn room_fits(m: MapBuffer, rect: Rect) -> bool {
    &&& rect.x1 - 2 >= 1
    &&& rect.y1 - 2 >= 1
    &&& rect.x2 + 2 <= m.width - 2
    &&& rect.y2 + 2 <= m.height - 2
    &&& forall|x: int, y: int|
        #![trigger m.walkable_at(x, y)]
        rect.x1 - 2 <= x <= rect.x2 + 2 && rect.y1 - 2 <= y <= rect.y2 + 2 ==> !m.walkable_at(x, y)
}

fn clamp_coord(v: i64) -> (r: i32)
    ensures
        0 <= v <= SPLIT_LIMIT ==> r == v,
        v > SPLIT_LIMIT ==> r == SPLIT_LIMIT,
        0 <= r <= SPLIT_LIMIT,
{
    if v < 0 {
        0
    } else if v > SPLIT_LIMIT as i64 {
        SPLIT_LIMIT
    } else {
        v as i32
    }
}

/// A room as `BspRooms` places it: four to twenty cells each way, and
/// grown by two cells each way off the outer ring of `m` and clear of its
/// floor.
pub open spec fn bsp_room_ok(m: MapBuffer, r: Rect) -> bool {
    &&& 4 <= r.x2 - r.x1 <= 20
    &&& 4 <= r.y2 - r.y1 <= 20
    &&& room_fits(m, r)
}

/// The four quarters of `rect`, each at least one cell each way: top-left,
/// bottom-left, top-right, bottom-right.
pub open spec fn quarters(rect: Rect) -> Seq<Rect> {
    let hw = if (rect.x2 - rect.x1) / 2 > 1 { (rect.x2 - rect.x1) / 2 } else { 1 };
    let hh = if (rect.y2 - rect.y1) / 2 > 1 { (rect.y2 - rect.y1) / 2 } else { 1 };
    seq![
        Rect { x1: rect.x1, y1: rect.y1, x2: (rect.x1 + hw) as i32, y2: (rect.y1 + hh) as i32 },
        Rect { x1: rect.x1, y1: (rect.y1 + hh) as i32, x2: (rect.x1 + hw) as i32, y2: (rect.y1 + 2 * hh) as i32 },
        Rect { x1: (rect.x1 + hw) as i32, y1: rect.y1, x2: (rect.x1 + 2 * hw) as i32, y2: (rect.y1 + hh) as i32 },
        Rect {
            x1: (rect.x1 + hw) as i32,
            y1: (rect.y1 + hh) as i32,
            x2: (rect.x1 + 2 * hw) as i32,
            y2: (rect.y1 + 2 * hh) as i32,
        },
    ]
}

/// Places rooms by carving random sub-rectangles out of a list of areas
/// that splits each time a room is placed.
#[derive(Copy, Clone, Debug)]
pub struct BspRooms {
    pub max_split: usize,
}

impl BspRooms {
    pub fn new() -> (r: BspRooms)
        ensures
            r.max_split == 240,
    {
        BspRooms { max_split: 240 }
    }

    /// What `modify_map` may return: at most `max_split` rooms added, each
    /// placed as `bsp_room_ok` says, as `rooms_grown` describes.
    pub open spec fn outcome(&self, m: MapBuffer, r: MapBuffer) -> bool {
        &&& rooms_grown(m, r)
        &&& r@.rooms.len() <= m@.rooms.len() + self.max_split
        &&& forall|j: int|
            #![trigger r@.rooms[j]]
            m@.rooms.len() <= j < r@.rooms.len() ==> bsp_room_ok(m, r@.rooms[j])
    }

    /// The four quarters of `rect`, each at least one cell each way.
    pub fn split_into_subrects(&self, rect: Rect) -> (r: Vec<Rect>)
        requires
            work_rect(rect),
        ensures
            r@.len() == 4,
            forall|i: int| #![trigger r@[i]] 0 <= i < 4 ==> work_rect(r@[i]),
            rect.x2 + 2 < SPLIT_LIMIT && rect.y2 + 2 < SPLIT_LIMIT ==> r@ == quarters(rect),
    {
        let mut rects: Vec<Rect> = Vec::new();
        let width = rect.width();
        let height = rect.height();
        let half_width: i64 = if width / 2 > 1 { (width / 2) as i64 } else { 1 };
        let half_height: i64 = if height / 2 > 1 { (height / 2) as i64 } else { 1 };
        let x1 = rect.x1 as i64;
        let y1 = rect.y1 as i64;
        rects.push(quarter(x1, y1, half_width, half_height));
        rects.push(quarter(x1, y1 + half_height, half_width, half_height));
        rects.push(quarter(x1 + half_width, y1, half_width, half_height));
        rects.push(quarter(x1 + half_width, y1 + half_height, half_width, half_height));
        rects
    }

    /// One rectangle of the list, at random.
    pub fn get_random_rect(&self, rng: &mut StdRng, rects: &Vec<Rect>) -> (r: Rect)
        requires
            1 <= rects@.len() <= u32::MAX,
        ensures
            rects@.contains(r),
    {
        if rects.len() == 1 {
            return rects[0];
        }
        let idx = random_range(rng, 0, rects.len());
        rects[idx]
    }

    /// A room inside `rect`: shifted by up to five cells each way, three to
    /// twenty cells across, plus one.
    pub fn get_random_sub_rect(&self, rect: Rect, rng: &mut StdRng) -> (r: Rect)
        requires
            work_rect(rect),
        ensures
            rect.x1 <= r.x1 <= rect.x1 + 5,
            rect.y1 <= r.y1 <= rect.y1 + 5,
            4 <= r.x2 - r.x1 <= 20,
            4 <= r.y2 - r.y1 <= 20,
    {
        let rect_width = rect.width() as usize;
        let rect_height = rect.height() as usize;
        let wr = random_range(rng, 1, if rect_width < 20 { rect_width } else { 20 });
        let hr = random_range(rng, 1, if rect_height < 20 { rect_height } else { 20 });
        let w = (if wr > 3 { wr } else { 3 }) + 1;
        let h = (if hr > 3 { hr } else { 3 }) + 1;
        let dx = random_range(rng, 0, 6);
        let dy = random_range(rng, 0, 6);
        let x1 = rect.x1 + dx as i32;
        let y1 = rect.y1 + dy as i32;
        Rect { x1, y1, x2: x1 + w as i32, y2: y1 + h as i32 }
    }

    /// Whether `rect` can become a room: it overlaps no room of `map`, and
    /// grown by two cells each way it stays off the outer ring and covers
    /// no floor.
    pub fn is_possible(&self, rect: Rect, map: &MapBuffer) -> (r: bool)
        requires
            map.fits(),
            rect.x1 <= rect.x2,
            rect.y1 <= rect.y2,
            0 <= rect.x1,
            0 <= rect.y1,
            rect.x2 <= i32::MAX - 2,
            rect.y2 <= i32::MAX - 2,
        ensures
            r == (!(exists|i: int| 0 <= i < map@.rooms.len() && (#[trigger] map@.rooms[i]).overlaps(rect))
                && room_fits(*map, rect)),
    {
        let clear = !intersects_any(&map.rooms, &rect);
        assert(map@.rooms == map.rooms@);
        if rect.x1 < 3 || rect.y1 < 3 || rect.x2 as i64 + 2 > map.width as i64 - 2 || rect.y2 as i64 + 2
            > map.height as i64 - 2 {
            return false;
        }
        let lo_x = (rect.x1 - 2) as usize;
        let hi_x = (rect.x2 + 2) as usize;
        let lo_y = (rect.y1 - 2) as usize;
        let hi_y = (rect.y2 + 2) as usize;
        let mut y = lo_y;
        while y <= hi_y
            invariant
                map.fits(),
                rect.x1 <= rect.x2,
                lo_x == rect.x1 - 2,
                hi_x == rect.x2 + 2,
                lo_y == rect.y1 - 2,
                hi_y == rect.y2 + 2,
                hi_x <= map.width - 2,
                hi_y <= map.height - 2,
                lo_y <= y <= hi_y + 1,
                forall|a: int, b: int|
                    #![trigger map.walkable_at(a, b)]
                    lo_x <= a <= hi_x && lo_y <= b < y ==> !map.walkable_at(a, b),
            decreases hi_y + 1 - y,
        {
            let mut x = lo_x;
            while x <= hi_x
                invariant
                    map.fits(),
                    rect.x1 <= rect.x2,
                lo_x == rect.x1 - 2,
                    hi_x == rect.x2 + 2,
                    lo_y == rect.y1 - 2,
                    hi_y == rect.y2 + 2,
                    hi_x <= map.width - 2,
                    hi_y <= map.height - 2,
                    lo_y <= y <= hi_y,
                    lo_x <= x <= hi_x + 1,
                    forall|a: int, b: int|
                        #![trigger map.walkable_at(a, b)]
                        lo_x <= a <= hi_x && (lo_y <= b < y || (b == y && lo_x <= a < x)) ==> !map.walkable_at(a, b),
                decreases hi_x + 1 - x,
            {
                if map.is_walkable(x, y) {
                    return false;
                }
                x = x + 1;
            }
            y = y + 1;
        }
        clear
    }

    /// One try at a room: when `is_possible` accepts `candidate`, it becomes
    /// a room of `map` and the quarters of `area` join the work list;
    /// otherwise both stay as they are. Returns whether the room was placed.
    pub fn place_attempt(&self, map: &mut MapBuffer, rects: &mut Vec<Rect>, area: Rect, candidate: Rect) -> (placed: bool)
        requires
            old(map).fits(),
            work_rect(area),
            candidate.x1 <= candidate.x2,
            candidate.y1 <= candidate.y2,
            0 <= candidate.x1,
            0 <= candidate.y1,
            candidate.x2 <= i32::MAX - 2,
            candidate.y2 <= i32::MAX - 2,
        ensures
            placed == (!(exists|i: int| 0 <= i < old(map)@.rooms.len() && (#[trigger] old(map)@.rooms[i]).overlaps(
                candidate,
            )) && room_fits(*old(map), candidate)),
            !placed ==> final(map)@ == old(map)@ && final(rects)@ == old(rects)@,
            placed ==> {
                &&& final(map).wf()
                &&& final(map).width == old(map).width
                &&& final(map).height == old(map).height
                &&& final(map)@.tile_types == old(map)@.tile_types
                &&& final(map).starting_point == old(map).starting_point
                &&& final(map).exit_point == old(map).exit_point
                &&& final(map)@.corridors == old(map)@.corridors
                &&& final(map)@.rooms == old(map)@.rooms.push(candidate)
                &&& forall|x: int, y: int| #[trigger]
                    final(map).walkable_at(x, y) == (old(map).walkable_at(x, y) || (old(map).in_bounds(x, y)
                        && in_rect(candidate, x, y)))
                &&& final(rects)@.len() == old(rects)@.len() + 4
                &&& final(rects)@.subrange(0, old(rects)@.len() as int) == old(rects)@
                &&& forall|i: int|
                    #![trigger final(rects)@[i]]
                    old(rects)@.len() <= i < final(rects)@.len() ==> work_rect(final(rects)@[i])
                &&& (area.x2 + 2 < SPLIT_LIMIT && area.y2 + 2 < SPLIT_LIMIT ==> final(rects)@.subrange(
                    old(rects)@.len() as int,
                    old(rects)@.len() + 4int,
                ) == quarters(area))
            },
    {
        if self.is_possible(candidate, map) {
            map.add_room(candidate);
            let mut parts = self.split_into_subrects(area);
            let ghost r0 = rects@;
            let ghost q = parts@;
            rects.append(&mut parts);
            assert(rects@.subrange(0, r0.len() as int) =~= r0);
            assert(rects@.subrange(r0.len() as int, r0.len() + 4int) =~= q);
            assert forall|i: int|
                #![trigger rects@[i]]
                r0.len() <= i < rects@.len() implies work_rect(rects@[i]) by {
                assert(rects@[i] == q[i - r0.len()]);
            }
            true
        } else {
            false
        }
    }

    /// Starting from the map inset by two cells and its four quarters, tries
    /// `max_split` times to carve a room out of a random area; each room
    /// placed splits its area into four more.
    pub fn modify_map(&self, rng: &mut StdRng, map: &MapBuffer) -> (r: MapBuffer)
        requires
            map.fits(),
            map.width >= 6,
            map.height >= 6,
            map.width <= SPLIT_LIMIT,
            map.height <= SPLIT_LIMIT,
            self.max_split <= 0x0fff_ffff,
        ensures
            self.outcome(*map, r),
            rooms_disjoint(map@.rooms) ==> rooms_disjoint(r@.rooms),
    {
        let mut new_map = map.duplicate();
        let mut rects: Vec<Rect> = Vec::new();
        let first_room = Rect::new(2, 2, (map.width - 5) as i32, (map.height - 5) as i32);
        rects.push(first_room);
        let mut quarters = self.split_into_subrects(first_room);
        rects.append(&mut quarters);
        proof {
            lemma_rooms_grown_start(*map, new_map);
        }
        let mut k: usize = 0;
        while k < self.max_split
            invariant
                map.fits(),
                new_map.fits(),
                map.width >= 6,
                map.height >= 6,
                self.max_split <= 0x0fff_ffff,
                k <= self.max_split,
                5 <= rects@.len() <= 5 + 4 * k,
                forall|i: int| #![trigger rects@[i]] 0 <= i < rects@.len() ==> work_rect(rects@[i]),
                rooms_grown(*map, new_map),
                new_map@.rooms.len() <= map@.rooms.len() + k,
                forall|j: int|
                    #![trigger new_map@.rooms[j]]
                    map@.rooms.len() <= j < new_map@.rooms.len() ==> bsp_room_ok(*map, new_map@.rooms[j]),
            decreases self.max_split - k,
        {
            let rect = self.get_random_rect(rng, &rects);
            assert(work_rect(rect));
            let candidate = self.get_random_sub_rect(rect, rng);
            let ghost before = new_map;
            let ghost rects0 = rects@;
            if self.place_attempt(&mut new_map, &mut rects, rect, candidate) {
                proof {
                    lemma_room_added(*map, before, new_map, candidate);
                    assert forall|x: int, y: int|
                        #![trigger map.walkable_at(x, y)]
                        candidate.x1 - 2 <= x <= candidate.x2 + 2 && candidate.y1 - 2 <= y <= candidate.y2 + 2
                            implies !map.walkable_at(x, y) by {
                        assert(!before.walkable_at(x, y));
                    }
                    assert(bsp_room_ok(*map, candidate));
                    assert forall|j: int|
                        #![trigger new_map@.rooms[j]]
                        map@.rooms.len() <= j < new_map@.rooms.len() implies bsp_room_ok(*map, new_map@.rooms[j]) by {
                        if j < before@.rooms.len() {
                            assert(new_map@.rooms[j] == before@.rooms[j]);
                        }
                    }
                }
                assert forall|i: int| #![trigger rects@[i]] 0 <= i < rects@.len() implies work_rect(rects@[i]) by {
                    if i < rects0.len() {
                        assert(rects@[i] == rects@.subrange(0, rects0.len() as int)[i]);
                    }
                }
            } else {
                proof {
                    assert forall|x: int, y: int| #[trigger] new_map.walkable_at(x, y) == before.walkable_at(x, y) by {}
                }
            }
            k = k + 1;
        }
        proof {
            if rooms_disjoint(map@.rooms) {
                lemma_disjoint_after_adding(map@.rooms, new_map@.rooms);
            }
        }
        new_map
    }
}

/// The rectangle at (x, y) of the given size, clamped to the work area.
fn quarter(x: i64, y: i64, w: i64, h: i64) -> (r: Rect)
    requires
        0 <= x <= SPLIT_LIMIT,
        0 <= y <= SPLIT_LIMIT,
        1 <= w <= SPLIT_LIMIT,
        1 <= h <= SPLIT_LIMIT,
    ensures
        work_rect(r),
        x < SPLIT_LIMIT && x + w <= SPLIT_LIMIT && y < SPLIT_LIMIT && y + h <= SPLIT_LIMIT ==> r == (Rect {
            x1: x as i32,
            y1: y as i32,
            x2: (x + w) as i32,
            y2: (y + h) as i32,
        }),
{
    let x1 = clamp_coord(x);
    let y1 = clamp_coord(y);
    let x1 = if x1 == SPLIT_LIMIT { SPLIT_LIMIT - 1 } else { x1 };
    let y1 = if y1 == SPLIT_LIMIT { SPLIT_LIMIT - 1 } else { y1 };
    let x2 = clamp_coord(x1 as i64 + w);
    let y2 = clamp_coord(y1 as i64 + h);
    Rect { x1, y1, x2, y2 }
}

/// A rectangle of `BspInterior` on a `w` by `h` map: inside the cells off
/// the outer ring, possibly empty, with its top-left corner at least one
/// cell from the far edges.
pub open spec fn interior_rect(r: Rect, w: int, h: int) -> bool {
    &&& 1 <= r.x1 <= r.x2 <= w - 1
    &&& 1 <= r.y1 <= r.y2 <= h - 1
    &&& r.x1 <= w - 2
    &&& r.y1 <= h - 2
}

/// `p` is a cell `random_range` may pick in `room`: inside it, or its
/// corner when the room is empty along an axis.
pub open spec fn picked(room: Rect, p: Point) -> bool {
    &&& room.x1 <= p.x && (p.x < room.x2 || p.x == room.x1)
    &&& room.y1 <= p.y && (p.y < room.y2 || p.y == room.y1)
}

/// Cell (x, y) lies on the corridor between the ends `ends[j]`.
pub open spec fn on_path(ends: Seq<(Point, Point)>, j: int, x: int, y: int) -> bool {
    corridor_path(ends[j].0, ends[j].1).contains(Point { x: x as usize, y: y as usize })
}

/// Cell (x, y) lies in a room of `r` added after the rooms of `m`.
pub open spec fn in_new_room(m: MapBuffer, r: MapBuffer, x: int, y: int) -> bool {
    exists|k: int| m@.rooms.len() <= k < r@.rooms.len() && #[trigger] in_rect(r@.rooms[k], x, y)
}

/// The new rooms of `r`, in order, are joined by corridors between the
/// cells `ends` picks in consecutive rooms; the floor of `r` is that of
/// `m`, the new rooms and those corridors, and nothing else.
pub open spec fn linked(m: MapBuffer, r: MapBuffer, ends: Seq<(Point, Point)>) -> bool {
    let n0 = m@.rooms.len() as int;
    &&& ends.len() + 1 == r@.rooms.len() - n0
    &&& forall|i: int|
        #![trigger ends[i]]
        0 <= i < ends.len() ==> picked(r@.rooms[n0 + i], ends[i].0) && picked(r@.rooms[n0 + i + 1], ends[i].1)
    &&& forall|x: int, y: int|
        #![trigger r.walkable_at(x, y)]
        r.walkable_at(x, y) == (m.walkable_at(x, y) || (m.in_bounds(x, y) && (in_new_room(m, r, x, y) || exists|
            j: int,
        | 0 <= j < ends.len() && #[trigger] on_path(ends, j, x, y))))
}

/// The leaves of two separated halves, appended one after the other, are
/// leaves of the whole that do not overlap.
proof fn lemma_join_leaves(start: Seq<Rect>, mid: Seq<Rect>, after: Seq<Rect>, c1: Rect, c2: Rect, rect: Rect, m: int)
    requires
        start.len() < mid.len() < after.len(),
        mid.subrange(0, start.len() as int) == start,
        after.subrange(0, mid.len() as int) == mid,
        forall|i: int| #![trigger mid[i]] start.len() <= i < mid.len() ==> leaf_ok(mid[i], c1, m),
        forall|i: int| #![trigger after[i]] mid.len() <= i < after.len() ==> leaf_ok(after[i], c2, m),
        rooms_disjoint(mid.subrange(start.len() as int, mid.len() as int)),
        rooms_disjoint(after.subrange(mid.len() as int, after.len() as int)),
        within(c1, rect),
        within(c2, rect),
        c1.x2 < c2.x1 || c1.y2 < c2.y1,
    ensures
        after.subrange(0, start.len() as int) == start,
        forall|i: int| #![trigger after[i]] start.len() <= i < after.len() ==> leaf_ok(after[i], rect, m),
        rooms_disjoint(after.subrange(start.len() as int, after.len() as int)),
{
    let s0 = start.len() as int;
    let s1 = mid.len() as int;
    assert forall|i: int| 0 <= i < s1 implies after[i] == mid[i] by {
        assert(after[i] == after.subrange(0, s1)[i]);
    }
    assert(after.subrange(0, s0) =~= start) by {
        assert forall|i: int| 0 <= i < s0 implies after[i] == start[i] by {
            assert(mid[i] == mid.subrange(0, s0)[i]);
        }
    }
    assert forall|i: int| #![trigger after[i]] s0 <= i < after.len() implies leaf_ok(after[i], rect, m) by {
        if i < s1 {
            assert(after[i] == mid[i]);
        }
    }
    let whole = after.subrange(s0, after.len() as int);
    assert forall|i: int, j: int| 0 <= i < j < whole.len() implies !(#[trigger] whole[i]).overlaps(#[trigger] whole[j]) by {
        let (a, b) = (s0 + i, s0 + j);
        if b < s1 {
            let left = mid.subrange(s0, s1);
            assert(whole[i] == left[i] && whole[j] == left[j]);
        } else if a >= s1 {
            let right = after.subrange(s1, after.len() as int);
            assert(whole[i] == right[a - s1] && whole[j] == right[b - s1]);
        } else {
            assert(whole[i] == mid[a]);
            assert(within(mid[a], c1));
            assert(within(after[b], c2));
        }
    }
}

/// A leaf of the partition of `parent`: inside it, and no more than `m`
/// cells across along the axis of its last split, which is why it was not
/// split again.
pub open spec fn leaf_ok(r: Rect, parent: Rect, m: int) -> bool {
    within(r, parent) && (r.x2 - r.x1 <= m || r.y2 - r.y1 <= m)
}

/// `inner` lies inside `outer`.
pub open spec fn within(inner: Rect, outer: Rect) -> bool {
    outer.x1 <= inner.x1 && inner.x2 <= outer.x2 && outer.y1 <= inner.y1 && inner.y2 <= outer.y2
}

/// Splits the map into rooms by binary space partition and joins each
/// room to the next with a corridor.
#[derive(Copy, Clone, Debug)]
pub struct BspInterior {
    pub min_room_size: usize,
}

impl BspInterior {
    pub fn new() -> (r: BspInterior)
        ensures
            r.min_room_size == 8,
    {
        BspInterior { min_room_size: 8 }
    }

    /// Halves `rect` across or along, as a four-sided die says, and appends
    /// the halves to `rects`, each split again while its parent's half
    /// exceeds `min_room_size`. The leaves appended lie inside `rect`, do
    /// not overlap, and each is at most `min_room_size` cells across along
    /// its last split.
    pub fn add_subrects(&self, rect: Rect, rng: &mut StdRng, rects: &mut Vec<Rect>, Ghost(w): Ghost<int>, Ghost(h): Ghost<int>)
        requires
            interior_rect(rect, w, h),
            rect.x2 - rect.x1 >= 2,
            rect.y2 - rect.y1 >= 2,
            2 <= self.min_room_size < i32::MAX,
            w < i32::MAX,
            h < i32::MAX,
            forall|i: int| #![trigger old(rects)@[i]] 0 <= i < old(rects)@.len() ==> interior_rect(old(rects)@[i], w, h),
        ensures
            forall|i: int| #![trigger final(rects)@[i]] 0 <= i < final(rects)@.len() ==> interior_rect(final(rects)@[i], w, h),
            final(rects)@.len() >= old(rects)@.len() + 2,
            final(rects)@.subrange(0, old(rects)@.len() as int) == old(rects)@,
            forall|i: int|
                #![trigger final(rects)@[i]]
                old(rects)@.len() <= i < final(rects)@.len() ==> leaf_ok(final(rects)@[i], rect, self.min_room_size as int),
            rooms_disjoint(final(rects)@.subrange(old(rects)@.len() as int, final(rects)@.len() as int)),
        decreases (rect.x2 - rect.x1) + (rect.y2 - rect.y1), 0int,
    {
        let width = rect.x2 - rect.x1;
        let height = rect.y2 - rect.y1;
        let half_width = width / 2;
        let half_height = height / 2;
        let ghost start = rects@;
        let split = roll_dice(rng, 1, 4);
        let (c1, c2, deeper) = if split <= 2 {
            (
                Rect::new(rect.x1, rect.y1, half_width - 1, height),
                Rect::new(rect.x1 + half_width, rect.y1, half_width, height),
                half_width > self.min_room_size as i32,
            )
        } else {
            (
                Rect::new(rect.x1, rect.y1, width, half_height - 1),
                Rect::new(rect.x1, rect.y1 + half_height, width, half_height),
                half_height > self.min_room_size as i32,
            )
        };
        proof {
            assert(c1.x2 < c2.x1 || c1.y2 < c2.y1);
        }
        self.add_child(c1, deeper, rng, rects, Ghost(rect), Ghost(w), Ghost(h));
        let ghost mid = rects@;
        self.add_child(c2, deeper, rng, rects, Ghost(rect), Ghost(w), Ghost(h));
        proof {
            lemma_join_leaves(start, mid, rects@, c1, c2, rect, self.min_room_size as int);
        }
    }

    /// Appends `child`, or its own leaves when `deeper`, to `rects`.
    fn add_child(
        &self,
        child: Rect,
        deeper: bool,
        rng: &mut StdRng,
        rects: &mut Vec<Rect>,
        Ghost(rect): Ghost<Rect>,
        Ghost(w): Ghost<int>,
        Ghost(h): Ghost<int>,
    )
        requires
            interior_rect(child, w, h),
            within(child, rect),
            child.x2 - child.x1 >= 0,
            child.y2 - child.y1 >= 0,
            deeper ==> child.x2 - child.x1 >= 2 && child.y2 - child.y1 >= 2,
            !deeper ==> child.x2 - child.x1 <= self.min_room_size || child.y2 - child.y1 <= self.min_room_size,
            2 <= self.min_room_size < i32::MAX,
            w < i32::MAX,
            h < i32::MAX,
            forall|i: int| #![trigger old(rects)@[i]] 0 <= i < old(rects)@.len() ==> interior_rect(old(rects)@[i], w, h),
        ensures
            forall|i: int| #![trigger final(rects)@[i]] 0 <= i < final(rects)@.len() ==> interior_rect(final(rects)@[i], w, h),
            final(rects)@.len() >= old(rects)@.len() + 1,
            final(rects)@.subrange(0, old(rects)@.len() as int) == old(rects)@,
            forall|i: int|
                #![trigger final(rects)@[i]]
                old(rects)@.len() <= i < final(rects)@.len() ==> leaf_ok(final(rects)@[i], child, self.min_room_size as int),
            rooms_disjoint(final(rects)@.subrange(old(rects)@.len() as int, final(rects)@.len() as int)),
        decreases (child.x2 - child.x1) + (child.y2 - child.y1), 1int,
    {
        if deeper {
            self.add_subrects(child, rng, rects, Ghost(w), Ghost(h));
        } else {
            let ghost before = rects@;
            rects.push(child);
            assert(rects@.subrange(0, before.len() as int) =~= before);
            assert(rects@.subrange(before.len() as int, rects@.len() as int) =~= seq![child]);
        }
    }

    /// What `modify_map` may return: its rooms added after the map's own,
    /// inside the cells off the ring and filled with floor.
    pub open spec fn outcome(&self, m: MapBuffer, r: MapBuffer) -> bool {
        &&& r.fits()
        &&& keeps_border(m, r)
        &&& r.starting_point == m.starting_point
        &&& r.exit_point == m.exit_point
        &&& forall|x: int, y: int|
            #![trigger r.walkable_at(x, y)]
            m.walkable_at(x, y) ==> r.walkable_at(x, y)
        &&& r@.rooms.len() >= m@.rooms.len() + 2
        &&& r@.rooms.subrange(0, m@.rooms.len() as int) == m@.rooms
        &&& forall|k: int|
            #![trigger r@.rooms[k]]
            m@.rooms.len() <= k < r@.rooms.len() ==> interior_rect(r@.rooms[k], m.width as int, m.height as int)
                && forall|x: int, y: int| #[trigger] in_rect(r@.rooms[k], x, y) ==> r.walkable_at(x, y)
        &&& exists|ends: Seq<(Point, Point)>| #[trigger] linked(m, r, ends)
        &&& forall|k: int|
            #![trigger r@.rooms[k]]
            m@.rooms.len() <= k < r@.rooms.len() ==> leaf_ok(
                r@.rooms[k],
                Rect { x1: 1, y1: 1, x2: (m.width - 1) as i32, y2: (m.height - 1) as i32 },
                self.min_room_size as int,
            )
        &&& rooms_disjoint(r@.rooms.subrange(m@.rooms.len() as int, r@.rooms.len() as int))
    }

    /// Partitions the map inset by one cell into rooms, then joins each room
    /// to the next by a corridor between random cells of the two.
    pub fn modify_map(&self, rng: &mut StdRng, map: &MapBuffer) -> (r: MapBuffer)
        requires
            map.fits(),
            map.width >= 4,
            map.height >= 4,
            2 <= self.min_room_size < i32::MAX,
        ensures
            self.outcome(*map, r),
    {
        let mut new_map = map.duplicate();
        let w = map.width;
        let h = map.height;
        let mut rects: Vec<Rect> = Vec::new();
        let first_room = Rect::new(1, 1, (w - 2) as i32, (h - 2) as i32);
        self.add_subrects(first_room, rng, &mut rects, Ghost(w as int), Ghost(h as int));
        let mut k: usize = 0;
        assert(new_map@.rooms =~= map@.rooms + rects@.subrange(0, 0));
        while k < rects.len()
            invariant
                k <= rects@.len(),
                rects@.len() >= 2,
                new_map@.rooms == map@.rooms + rects@.subrange(0, k as int),
                forall|j: int, x: int, y: int|
                    0 <= j < k && #[trigger] in_rect(rects@[j], x, y) ==> #[trigger] new_map.walkable_at(x, y),
                forall|x: int, y: int|
                    #![trigger new_map.walkable_at(x, y)]
                    new_map.walkable_at(x, y) == (map.walkable_at(x, y) || (map.in_bounds(x, y) && exists|j: int|
                        0 <= j < k && #[trigger] in_rect(rects@[j], x, y))),
                map.fits(),
                new_map.fits(),
                w == map.width,
                h == map.height,
                forall|i: int| #![trigger rects@[i]] 0 <= i < rects@.len() ==> interior_rect(rects@[i], w as int, h as int),
                keeps_border(*map, new_map),
                new_map.starting_point == map.starting_point,
                new_map.exit_point == map.exit_point,
                forall|x: int, y: int|
                    #![trigger new_map.walkable_at(x, y)]
                    map.walkable_at(x, y) ==> new_map.walkable_at(x, y),
            decreases rects@.len() - k,
        {
            let room = rects[k];
            let ghost before = new_map;
            new_map.add_room(room);
            assert forall|x: int, y: int|
                #![trigger new_map.walkable_at(x, y)]
                crate::cave::on_border(*map, x, y) implies new_map.walkable_at(x, y) == map.walkable_at(x, y) by {
                assert(before.walkable_at(x, y) == map.walkable_at(x, y));
            }
            assert(new_map@.rooms =~= map@.rooms + rects@.subrange(0, k + 1));
            assert forall|x: int, y: int|
                #![trigger new_map.walkable_at(x, y)]
                new_map.walkable_at(x, y) == (map.walkable_at(x, y) || (map.in_bounds(x, y) && exists|j: int|
                    0 <= j < k + 1 && #[trigger] in_rect(rects@[j], x, y))) by {
                if exists|j: int| 0 <= j < k + 1 && #[trigger] in_rect(rects@[j], x, y) {
                    let j = choose|j: int| 0 <= j < k + 1 && #[trigger] in_rect(rects@[j], x, y);
                    if j < k {
                        assert(exists|j: int| 0 <= j < k && #[trigger] in_rect(rects@[j], x, y));
                    }
                }
                if map.in_bounds(x, y) && in_rect(room, x, y) {
                    assert(in_rect(rects@[k as int], x, y));
                }
            }
            assert forall|j: int, x: int, y: int|
                0 <= j < k + 1 && #[trigger] in_rect(rects@[j], x, y) implies #[trigger] new_map.walkable_at(x, y) by {
                if j < k {
                    assert(before.walkable_at(x, y));
                } else {
                    assert(interior_rect(rects@[j], w as int, h as int));
                }
            }
            k = k + 1;
        }
        let mut i: usize = 0;
        let last = rects.len() - 1;
        assert(rects@.subrange(0, k as int) =~= rects@);
        let ghost ends: Seq<(Point, Point)> = seq![];
        while i < last
            invariant
                ends.len() == i,
                forall|j: int|
                    #![trigger ends[j]]
                    0 <= j < i ==> picked(rects@[j], ends[j].0) && picked(rects@[j + 1], ends[j].1),
                forall|x: int, y: int|
                    #![trigger new_map.walkable_at(x, y)]
                    new_map.walkable_at(x, y) == (map.walkable_at(x, y) || (map.in_bounds(x, y) && ((exists|j: int|
                        0 <= j < rects@.len() && #[trigger] in_rect(rects@[j], x, y)) || exists|j: int|
                        0 <= j < i && #[trigger] on_path(ends, j, x, y)))),
                new_map@.rooms == map@.rooms + rects@,
                forall|j: int, x: int, y: int|
                    0 <= j < rects@.len() && #[trigger] in_rect(rects@[j], x, y) ==> #[trigger] new_map.walkable_at(x, y),
                last == rects@.len() - 1,
                i <= last,
                map.fits(),
                new_map.fits(),
                w == map.width,
                h == map.height,
                forall|i: int| #![trigger rects@[i]] 0 <= i < rects@.len() ==> interior_rect(rects@[i], w as int, h as int),
                keeps_border(*map, new_map),
                new_map.starting_point == map.starting_point,
                new_map.exit_point == map.exit_point,
                forall|x: int, y: int|
                    #![trigger new_map.walkable_at(x, y)]
                    map.walkable_at(x, y) ==> new_map.walkable_at(x, y),
            decreases rects@.len() - i,
        {
            let room = rects[i];
            let next_room = rects[i + 1];
            let start_x = random_range(rng, room.x1 as usize, room.x2 as usize);
            let start_y = random_range(rng, room.y1 as usize, room.y2 as usize);
            let end_x = random_range(rng, next_room.x1 as usize, next_room.x2 as usize);
            let end_y = random_range(rng, next_room.y1 as usize, next_room.y2 as usize);
            let from = Point::new(start_x, start_y);
            let to = Point::new(end_x, end_y);
            let ghost before = new_map;
            new_map.add_corridor(from, to);
            assert forall|j: int, x: int, y: int|
                0 <= j < rects@.len() && #[trigger] in_rect(rects@[j], x, y) implies #[trigger] new_map.walkable_at(x, y) by {
                assert(before.walkable_at(x, y));
            }
            proof {
                let old_ends = ends;
                ends = ends.push((from, to));
                assert(picked(rects@[i as int], from) && picked(rects@[i + 1], to));
                assert forall|j: int|
                    #![trigger ends[j]]
                    0 <= j < i + 1 implies picked(rects@[j], ends[j].0) && picked(rects@[j + 1], ends[j].1) by {
                    if j < i {
                        assert(ends[j] == old_ends[j]);
                    }
                }
                assert forall|x: int, y: int|
                    #![trigger new_map.walkable_at(x, y)]
                    new_map.walkable_at(x, y) == (map.walkable_at(x, y) || (map.in_bounds(x, y) && ((exists|j: int|
                        0 <= j < rects@.len() && #[trigger] in_rect(rects@[j], x, y)) || exists|j: int|
                        0 <= j < i + 1 && #[trigger] on_path(ends, j, x, y)))) by {
                    assert(before.walkable_at(x, y) == (map.walkable_at(x, y) || (map.in_bounds(x, y) && ((exists|j: int|
                        0 <= j < rects@.len() && #[trigger] in_rect(rects@[j], x, y)) || exists|j: int|
                        0 <= j < i && #[trigger] on_path(old_ends, j, x, y)))));
                    assert(on_path(ends, i as int, x, y) == corridor_path(from, to).contains(Point { x: x as usize, y: y as usize }));
                    if exists|j: int| 0 <= j < i + 1 && #[trigger] on_path(ends, j, x, y) {
                        let j = choose|j: int| 0 <= j < i + 1 && #[trigger] on_path(ends, j, x, y);
                        if j < i {
                            assert(ends[j] == old_ends[j]);
                            assert(on_path(old_ends, j, x, y));
                        }
                    }
                    if exists|j: int| 0 <= j < i && #[trigger] on_path(old_ends, j, x, y) {
                        let j = choose|j: int| 0 <= j < i && #[trigger] on_path(old_ends, j, x, y);
                        assert(ends[j] == old_ends[j]);
                        assert(on_path(ends, j, x, y));
                    }
                }
            }
            proof {
                crate::map_buffer::lemma_path_in_box(from, to);
                assert forall|x: int, y: int|
                    #![trigger new_map.walkable_at(x, y)]
                    crate::cave::on_border(*map, x, y) implies new_map.walkable_at(x, y) == map.walkable_at(x, y) by {
                    assert(before.walkable_at(x, y) == map.walkable_at(x, y));
                    if before.in_bounds(x, y) && corridor_path(from, to).contains(Point { x: x as usize, y: y as usize }) {
                        let j = choose|j: int| 0 <= j < corridor_path(from, to).len() && corridor_path(from, to)[j] == Point { x: x as usize, y: y as usize };
                        assert(corridor_path(from, to)[j] == Point { x: x as usize, y: y as usize });
                    }
                }
            }
            i = i + 1;
        }
        proof {
            let rooms = new_map@.rooms;
            let n0 = map@.rooms.len() as int;
            assert(rooms.subrange(0, n0) =~= map@.rooms);
            assert forall|j: int| #![trigger ends[j]] 0 <= j < ends.len() implies picked(rooms[n0 + j], ends[j].0)
                && picked(rooms[n0 + j + 1], ends[j].1) by {
                assert(rooms[n0 + j] == rects@[j]);
                assert(rooms[n0 + j + 1] == rects@[j + 1]);
            }
            assert forall|x: int, y: int|
                #![trigger new_map.walkable_at(x, y)]
                new_map.walkable_at(x, y) == (map.walkable_at(x, y) || (map.in_bounds(x, y) && (in_new_room(*map, new_map, x, y)
                    || exists|j: int| 0 <= j < ends.len() && #[trigger] on_path(ends, j, x, y)))) by {
                if exists|j: int| 0 <= j < rects@.len() && #[trigger] in_rect(rects@[j], x, y) {
                    let j = choose|j: int| 0 <= j < rects@.len() && #[trigger] in_rect(rects@[j], x, y);
                    assert(rooms[n0 + j] == rects@[j]);
                    assert(in_rect(rooms[n0 + j], x, y));
                }
                if in_new_room(*map, new_map, x, y) {
                    let k = choose|k: int| n0 <= k < rooms.len() && #[trigger] in_rect(rooms[k], x, y);
                    assert(rooms[k] == rects@[k - n0]);
                    assert(in_rect(rects@[k - n0], x, y));
                }
            }
            assert(linked(*map, new_map, ends));
            assert forall|k: int|
                #![trigger rooms[k]]
                n0 <= k < rooms.len() implies leaf_ok(rooms[k], first_room, self.min_room_size as int) by {
                assert(rooms[k] == rects@[k - n0]);
            }
            assert(rooms.subrange(n0, rooms.len() as int) =~= rects@);
            assert(rects@.subrange(0, rects@.len() as int) =~= rects@);
            assert forall|k: int|
                #![trigger rooms[k]]
                n0 <= k < rooms.len() implies interior_rect(rooms[k], map.width as int, map.height as int)
                    && forall|x: int, y: int| #[trigger] in_rect(rooms[k], x, y) ==> new_map.walkable_at(x, y) by {
                assert(rooms[k] == rects@[k - n0]);
                assert forall|x: int, y: int| #[trigger] in_rect(rooms[k], x, y) implies new_map.walkable_at(x, y) by {
                    assert(in_rect(rects@[k - n0], x, y));
                }
            }
        }
        new_map
    }
}

/// All corners of `r` are non-negative.
pub open spec fn placed(r: Rect) -> bool {
    r.x1 >= 0 && r.x2 >= 0 && r.y1 >= 0 && r.y2 >= 0
}

/// Room `j` is the room whose centre is nearest to that of room `i`, among
/// the rooms other than `i` not marked in `connected`; the first among
/// equals.
pub open spec fn is_nearest_room(rooms: Seq<Rect>, connected: Seq<bool>, i: int, j: int) -> bool {
    let c = rooms[i].center_spec();
    &&& 0 <= j < rooms.len()
    &&& j != i
    &&& !connected[j]
    &&& forall|k: int|
        #![trigger rooms[k]]
        0 <= k < rooms.len() && k != i && !connected[k] ==> c.dist2(rooms[j].center_spec()) <= c.dist2(
            rooms[k].center_spec(),
        )
    &&& forall|k: int|
        #![trigger rooms[k]]
        0 <= k < j && k != i && !connected[k] ==> c.dist2(rooms[j].center_spec()) < c.dist2(
            rooms[k].center_spec(),
        )
}

/// The room nearest to room `i` among those not yet connected, if any.
pub fn nearest_room(rooms: &Vec<Rect>, connected: &Vec<bool>, i: usize) -> (r: Option<usize>)
    requires
        i < rooms@.len(),
        connected@.len() == rooms@.len(),
        forall|k: int| #![trigger rooms@[k]] 0 <= k < rooms@.len() ==> placed(rooms@[k]),
    ensures
        r matches Some(j) ==> is_nearest_room(rooms@, connected@, i as int, j as int),
        r.is_none() ==> forall|k: int| 0 <= k < rooms@.len() && k != i ==> #[trigger] connected@[k],
{
    let center = rooms[i].center();
    let mut best: Option<usize> = None;
    let mut best_d: u128 = 0;
    let mut j: usize = 0;
    while j < rooms.len()
        invariant
            i < rooms@.len(),
            connected@.len() == rooms@.len(),
            forall|k: int| #![trigger rooms@[k]] 0 <= k < rooms@.len() ==> placed(rooms@[k]),
            center == rooms@[i as int].center_spec(),
            j <= rooms@.len(),
            best.is_none() ==> forall|k: int| 0 <= k < j && k != i ==> #[trigger] connected@[k],
            best matches Some(b) ==> {
                &&& b < j
                &&& b != i
                &&& !connected@[b as int]
                &&& best_d == center.dist2(rooms@[b as int].center_spec())
                &&& forall|k: int|
                    #![trigger rooms@[k]]
                    0 <= k < j && k != i && !connected@[k] ==> best_d <= center.dist2(rooms@[k].center_spec())
                &&& forall|k: int|
                    #![trigger rooms@[k]]
                    0 <= k < b && k != i && !connected@[k] ==> best_d < center.dist2(rooms@[k].center_spec())
            },
        decreases rooms@.len() - j,
    {
        if j != i && !connected[j] {
            let other = rooms[j].center();
            let d = center.distance_squared(&other);
            let better = match best {
                None => true,
                Some(_) => d < best_d,
            };
            if better {
                best = Some(j);
                best_d = d;
            }
        }
        j = j + 1;
    }
    best
}

/// While room `i` is processed, exactly the rooms before it are joined.
pub open spec fn joined_before(n: int, i: int) -> Seq<bool> {
    Seq::new(n as nat, |k: int| k < i)
}

/// The room that room `i` is joined to: the nearest of the rooms after it.
pub open spec fn partner(rooms: Seq<Rect>, i: int) -> int {
    choose|j: int| is_nearest_room(rooms, joined_before(rooms.len() as int, i), i, j)
}

/// Cell (a, b) lies on the corridor from room `k` to its partner.
pub open spec fn on_corridor(rooms: Seq<Rect>, k: int, a: int, b: int) -> bool {
    corridor_path(rooms[k].center_spec(), rooms[partner(rooms, k)].center_spec()).contains(
        Point { x: a as usize, y: b as usize },
    )
}

proof fn lemma_partner_unique(rooms: Seq<Rect>, i: int, j: int)
    requires
        0 <= i < rooms.len(),
        is_nearest_room(rooms, joined_before(rooms.len() as int, i), i, j),
    ensures
        partner(rooms, i) == j,
{
    let flags = joined_before(rooms.len() as int, i);
    let p = partner(rooms, i);
    assert(is_nearest_room(rooms, flags, i, p));
    let c = rooms[i].center_spec();
    if p < j {
        assert(c.dist2(rooms[j].center_spec()) < c.dist2(rooms[p].center_spec()));
        assert(c.dist2(rooms[p].center_spec()) <= c.dist2(rooms[j].center_spec()));
    } else if p > j {
        assert(c.dist2(rooms[p].center_spec()) < c.dist2(rooms[j].center_spec()));
        assert(c.dist2(rooms[j].center_spec()) <= c.dist2(rooms[p].center_spec()));
    }
}

/// Joins each room but the last, in order, by a corridor from its centre
/// to the centre of the nearest room after it (the first among equals);
/// rooms stay as they are. A room can so receive corridors from several
/// earlier rooms but starts only one.
pub fn connect_nearest(rooms: &Vec<Rect>, grid: &mut MapBuffer)
    requires
        old(grid).wf(),
        forall|k: int| #![trigger rooms@[k]] 0 <= k < rooms@.len() ==> placed(rooms@[k]),
    ensures
        final(grid).wf(),
        final(grid).width == old(grid).width,
        final(grid).height == old(grid).height,
        final(grid)@.tile_types == old(grid)@.tile_types,
        final(grid).starting_point == old(grid).starting_point,
        final(grid).exit_point == old(grid).exit_point,
        final(grid)@.rooms == old(grid)@.rooms,
        final(grid)@.corridors.len() == old(grid)@.corridors.len() + if rooms@.len() == 0 {
            0
        } else {
            rooms@.len() - 1
        },
        forall|x: int, y: int|
            #![trigger final(grid).walkable_at(x, y)]
            final(grid).walkable_at(x, y) == (old(grid).walkable_at(x, y) || (old(grid).in_bounds(x, y)
                && exists|k: int| 0 <= k < rooms@.len() - 1 && #[trigger] on_corridor(rooms@, k, x, y))),
{
    let ghost g0 = *grid;
    let n = rooms.len();
    let mut connected: Vec<bool> = Vec::new();
    let mut k: usize = 0;
    while k < n
        invariant
            n == rooms@.len(),
            k <= n,
            connected@.len() == k,
            forall|j: int| 0 <= j < k ==> !#[trigger] connected@[j],
        decreases n - k,
    {
        connected.push(false);
        k = k + 1;
    }
    let mut i: usize = 0;
    while i < n
        invariant
            n == rooms@.len(),
            i <= n,
            connected@ == joined_before(n as int, if i + 1 < n { i as int } else if n > 0 { n - 1 } else { 0 }),
            forall|k: int| #![trigger rooms@[k]] 0 <= k < rooms@.len() ==> placed(rooms@[k]),
            grid.wf(),
            grid.width == g0.width,
            grid.height == g0.height,
            grid@.tile_types == g0@.tile_types,
            grid.starting_point == g0.starting_point,
            grid.exit_point == g0.exit_point,
            grid@.rooms == g0@.rooms,
            grid@.corridors.len() == g0@.corridors.len() + if i + 1 < n { i as int } else if n > 0 { n - 1 } else { 0 },
            forall|x: int, y: int|
                #![trigger grid.walkable_at(x, y)]
                grid.walkable_at(x, y) == (g0.walkable_at(x, y) || (g0.in_bounds(x, y) && exists|k: int|
                    0 <= k < i && k < n - 1 && #[trigger] on_corridor(rooms@, k, x, y))),
        decreases n - i,
    {
        proof {
            assert(connected@ =~= joined_before(n as int, i as int)) by {
                if i + 1 >= n {
                    assert(i == n - 1);
                }
            }
        }
        match nearest_room(rooms, &connected, i) {
            Some(j) => {
                proof {
                    lemma_partner_unique(rooms@, i as int, j as int);
                    if i + 1 >= n {
                        assert(j < i);
                        assert(connected@[j as int]);
                    }
                }
                let from = rooms[i].center();
                let to = rooms[j].center();
                let ghost before = *grid;
                grid.add_corridor(from, to);
                proof {
                    assert forall|x: int, y: int|
                        #![trigger grid.walkable_at(x, y)]
                        grid.walkable_at(x, y) == (g0.walkable_at(x, y) || (g0.in_bounds(x, y) && exists|k: int|
                            0 <= k < i + 1 && k < n - 1 && #[trigger] on_corridor(rooms@, k, x, y))) by {
                        if g0.in_bounds(x, y) && on_corridor(rooms@, i as int, x, y) {
                            assert(before.in_bounds(x, y));
                        }
                        if exists|k: int| 0 <= k < i + 1 && k < n - 1 && #[trigger] on_corridor(rooms@, k, x, y) {
                            let k = choose|k: int| 0 <= k < i + 1 && k < n - 1 && #[trigger] on_corridor(rooms@, k, x, y);
                            if k < i {
                                assert(exists|k: int| 0 <= k < i && k < n - 1 && #[trigger] on_corridor(rooms@, k, x, y));
                            }
                        }
                    }
                    assert(connected@.update(i as int, true) =~= joined_before(n as int, if i + 2 < n { i + 1 } else { n - 1 }));
                }
                connected.set(i, true);
            },
            None => {
                proof {
                    assert(i + 1 >= n) by {
                        if i + 1 < n {
                            assert(!connected@[n - 1]);
                        }
                    }
                    assert forall|x: int, y: int|
                        #![trigger grid.walkable_at(x, y)]
                        grid.walkable_at(x, y) == (g0.walkable_at(x, y) || (g0.in_bounds(x, y) && exists|k: int|
                            0 <= k < i + 1 && k < n - 1 && #[trigger] on_corridor(rooms@, k, x, y))) by {
                        if exists|k: int| 0 <= k < i + 1 && k < n - 1 && #[trigger] on_corridor(rooms@, k, x, y) {
                            let k = choose|k: int| 0 <= k < i + 1 && k < n - 1 && #[trigger] on_corridor(rooms@, k, x, y);
                            assert(exists|k: int| 0 <= k < i && k < n - 1 && #[trigger] on_corridor(rooms@, k, x, y));
                        }
                    }
                }
            },
        }
        i = i + 1;
    }
}

/// Joins rooms to their nearest neighbours with corridors.
#[derive(Copy, Clone, Debug)]
pub struct NearestCorridors {}

impl NearestCorridors {
    pub fn new() -> (r: NearestCorridors) {
        NearestCorridors {}
    }

    /// What `corridors` returns: each room but the last joined to the nearest
    /// room after it.
    pub open spec fn outcome(&self, m: MapBuffer, r: MapBuffer) -> bool {
        &&& r.fits()
        &&& r.width == m.width
        &&& r.height == m.height
        &&& r@.rooms == m@.rooms
        &&& r.starting_point == m.starting_point
        &&& r.exit_point == m.exit_point
        &&& forall|x: int, y: int|
            #![trigger r.walkable_at(x, y)]
            r.walkable_at(x, y) == (m.walkable_at(x, y) || (m.in_bounds(x, y) && exists|k: int|
                0 <= k < m@.rooms.len() - 1 && #[trigger] on_corridor(m@.rooms, k, x, y)))
    }

    /// The map with its rooms joined by `connect_nearest`.
    pub fn corridors(&self, map: &MapBuffer) -> (r: MapBuffer)
        requires
            map.fits(),
            forall|k: int| #![trigger map@.rooms[k]] 0 <= k < map@.rooms.len() ==> placed(map@.rooms[k]),
        ensures
            self.outcome(*map, r),
    {
        let mut new_map = map.duplicate();
        let rooms = map.rooms.clone();
        assert(rooms@ =~= map@.rooms);
        connect_nearest(&rooms, &mut new_map);
        new_map
    }

    /// The room map with its rooms joined by `connect_nearest`.
    pub fn generate(&self, map: &RoomsMap) -> (r: RoomsMap)
        requires
            map.wf(),
            forall|k: int| #![trigger map.rooms@[k]] 0 <= k < map.rooms@.len() ==> placed(map.rooms@[k]),
        ensures
            r.wf(),
            r.width == map.width,
            r.height == map.height,
            r.rooms@ == map.rooms@,
            forall|x: int, y: int|
                #![trigger r.walkable_layer.walkable_at(x, y)]
                r.walkable_layer.walkable_at(x, y) == (map.walkable_layer.walkable_at(x, y) || (
                map.walkable_layer.in_bounds(x, y) && exists|k: int|
                    0 <= k < map.rooms@.len() - 1 && #[trigger] on_corridor(map.rooms@, k, x, y))),
    {
        let mut layer = map.walkable_layer.duplicate();
        let rooms = map.rooms.clone();
        assert(rooms@ =~= map.rooms@);
        let before = layer.corridors.len();
        connect_nearest(&rooms, &mut layer);
        let mut corridors: Vec<Vec<Point>> = Vec::new();
        let mut k: usize = 0;
        while k < map.corridors.len()
            invariant
                k <= map.corridors@.len(),
                corridors@.len() == k,
            decreases map.corridors@.len() - k,
        {
            corridors.push(map.corridors[k].clone());
            k = k + 1;
        }
        let mut k: usize = before;
        while k < layer.corridors.len()
            invariant
                before <= k <= layer.corridors@.len(),
            decreases layer.corridors@.len() - k,
        {
            corridors.push(layer.corridors[k].clone());
            k = k + 1;
        }
        RoomsMap { width: map.width, height: map.height, rooms, corridors, walkable_layer: layer }
    }
}

/// A map kept as a list of rooms and corridors over a walkable grid.
#[derive(Clone, Debug)]
pub struct RoomsMap {
    pub width: usize,
    pub height: usize,
    pub rooms: Vec<Rect>,
    pub corridors: Vec<Vec<Point>>,
    pub walkable_layer: MapBuffer,
}

impl RoomsMap {
    pub open spec fn wf(&self) -> bool {
        &&& self.walkable_layer.wf()
        &&& self.walkable_layer.width == self.width
        &&& self.walkable_layer.height == self.height
    }

    /// An all-wall map without rooms or corridors.
    pub fn new(width: usize, height: usize) -> (r: RoomsMap)
        requires
            width * height <= usize::MAX,
        ensures
            r.wf(),
            r.width == width,
            r.height == height,
            r.rooms@.len() == 0,
            r.corridors@.len() == 0,
            forall|x: int, y: int| !#[trigger] r.walkable_layer.walkable_at(x, y),
    {
        let layer = MapBuffer::new(width, height);
        assert forall|x: int, y: int| !#[trigger] layer.walkable_at(x, y) by {
            if layer.in_bounds(x, y) {
                crate::map_buffer::lemma_cell_index(width as int, height as int, x, y);
            }
        }
        RoomsMap { width, height, rooms: Vec::new(), corridors: Vec::new(), walkable_layer: layer }
    }

    /// Records `rect` as a room and makes its cells floor.
    pub fn add_room(&mut self, rect: Rect)
        requires
            old(self).wf(),
        ensures
            final(self).wf(),
            final(self).width == old(self).width,
            final(self).height == old(self).height,
            final(self).rooms@ == old(self).rooms@.push(rect),
            forall|x: int, y: int| #[trigger]
                final(self).walkable_layer.walkable_at(x, y) == (old(self).walkable_layer.walkable_at(x, y)
                    || (old(self).walkable_layer.in_bounds(x, y) && in_rect(rect, x, y))),
    {
        self.rooms.push(rect);
        crate::map_buffer::fill_rect(&mut self.walkable_layer, rect);
    }

    /// Carves a corridor from `from` to `to`, x first, and records it.
    pub fn add_corridor(&mut self, from: Point, to: Point)
        requires
            old(self).wf(),
        ensures
            final(self).wf(),
            final(self).width == old(self).width,
            final(self).height == old(self).height,
            final(self).rooms@ == old(self).rooms@,
            final(self).corridors@.len() == old(self).corridors@.len() + 1,
            forall|a: int, b: int| #[trigger]
                final(self).walkable_layer.walkable_at(a, b) == (old(self).walkable_layer.walkable_at(a, b) || (old(
                    self,
                ).walkable_layer.in_bounds(a, b) && corridor_path(from, to).contains(
                    Point { x: a as usize, y: b as usize },
                ))),
    {
        self.walkable_layer.add_corridor(from, to);
        assert(self.walkable_layer@.corridors.len() == self.walkable_layer.corridors@.len());
        let last = self.walkable_layer.corridors.len() - 1;
        let c = self.walkable_layer.corridors[last].clone();
        self.corridors.push(c);
    }

    pub fn is_walkable(&self, x: usize, y: usize) -> (r: bool)
        requires
            self.wf(),
        ensures
            r == self.walkable_layer.walkable_at(x as int, y as int),
    {
        self.walkable_layer.is_walkable(x, y)
    }

    pub fn is_blocked(&self, x: usize, y: usize) -> (r: bool)
        requires
            self.wf(),
        ensures
            r == !self.walkable_layer.walkable_at(x as int, y as int),
    {
        !self.is_walkable(x, y)
    }

    pub fn set_walkable(&mut self, x: usize, y: usize, set: bool)
        requires
            old(self).wf(),
        ensures
            final(self).wf(),
            final(self).width == old(self).width,
            final(self).height == old(self).height,
            final(self).rooms@ == old(self).rooms@,
            forall|a: int, b: int| #[trigger]
                final(self).walkable_layer.walkable_at(a, b) == if a == x && b == y && old(self).walkable_layer.in_bounds(a, b) {
                    set
                } else {
                    old(self).walkable_layer.walkable_at(a, b)
                },
    {
        let ghost before = self.walkable_layer;
        self.walkable_layer.set_walkable(x, y, set);
        proof {
            if before.in_bounds(x as int, y as int) {
                crate::cave::lemma_set_cell(before, self.walkable_layer, x as int, y as int, set);
            }
        }
    }

    pub fn xy_idx(&self, x: usize, y: usize) -> (r: usize)
        requires
            y * self.walkable_layer.width + x <= usize::MAX,
        ensures
            r == y * self.walkable_layer.width + x,
    {
        self.walkable_layer.xy_idx(x, y)
    }
}

/// `r` is `m` with rooms added after its own: the frame and old floor kept,
/// the outer ring as it was, every new room overlapping no earlier room and
/// filled with floor, and new floor only inside new rooms.
pub open spec fn rooms_grown(m: MapBuffer, r: MapBuffer) -> bool {
    &&& r.fits()
    &&& keeps_border(m, r)
    &&& r@.tile_types == m@.tile_types
    &&& r.starting_point == m.starting_point
    &&& r.exit_point == m.exit_point
    &&& r@.corridors == m@.corridors
    &&& adds_disjoint_rooms(m@.rooms, r@.rooms)
    &&& forall|x: int, y: int|
        #![trigger r.walkable_at(x, y)]
        m.walkable_at(x, y) ==> r.walkable_at(x, y)
    &&& forall|k: int, x: int, y: int|
        m@.rooms.len() <= k < r@.rooms.len() && m.in_bounds(x, y) && #[trigger] in_rect(r@.rooms[k], x, y)
            ==> r.walkable_at(x, y)
    &&& forall|x: int, y: int|
        #![trigger r.walkable_at(x, y)]
        r.walkable_at(x, y) ==> m.walkable_at(x, y) || exists|k: int|
            m@.rooms.len() <= k < r@.rooms.len() && #[trigger] in_rect(r@.rooms[k], x, y)
}

pub proof fn lemma_rooms_grown_start(m: MapBuffer, r: MapBuffer)
    requires
        m.fits(),
        r@ == m@,
    ensures
        rooms_grown(m, r),
{
    assert(r@.rooms.subrange(0, m@.rooms.len() as int) =~= m@.rooms);
    assert forall|x: int, y: int| #[trigger] r.walkable_at(x, y) == m.walkable_at(x, y) by {}
}

/// Adding a room that lies off the outer ring and overlaps no earlier room
/// keeps `rooms_grown`.
pub proof fn lemma_room_added(m: MapBuffer, before: MapBuffer, after: MapBuffer, room: Rect)
    requires
        m.fits(),
        rooms_grown(m, before),
        !(exists|i: int| 0 <= i < before@.rooms.len() && (#[trigger] before@.rooms[i]).overlaps(room)),
        1 <= room.x1,
        room.x2 <= m.width - 1,
        1 <= room.y1,
        room.y2 <= m.height - 1,
        after.wf(),
        after.width == before.width,
        after.height == before.height,
        after@.tile_types == before@.tile_types,
        after.starting_point == before.starting_point,
        after.exit_point == before.exit_point,
        after@.corridors == before@.corridors,
        after@.rooms == before@.rooms.push(room),
        forall|x: int, y: int| #[trigger]
            after.walkable_at(x, y) == (before.walkable_at(x, y) || (before.in_bounds(x, y) && in_rect(room, x, y))),
    ensures
        rooms_grown(m, after),
{
    let old = m@.rooms;
    let rooms = after@.rooms;
    let n = before@.rooms.len() as int;
    assert(rooms.subrange(0, old.len() as int) =~= before@.rooms.subrange(0, old.len() as int));
    assert forall|i: int, j: int|
        0 <= i < j < rooms.len() && j >= old.len() implies !(#[trigger] rooms[i]).overlaps(#[trigger] rooms[j]) by {
        if j == rooms.len() - 1 {
            assert(rooms[i] == before@.rooms[i]);
            if rooms[i].overlaps(room) {
                assert(before@.rooms[i].overlaps(room));
            }
        } else {
            assert(rooms[i] == before@.rooms[i]);
            assert(rooms[j] == before@.rooms[j]);
        }
    }
    assert forall|x: int, y: int|
        #![trigger after.walkable_at(x, y)]
        crate::cave::on_border(m, x, y) implies after.walkable_at(x, y) == m.walkable_at(x, y) by {
        assert(before.walkable_at(x, y) == m.walkable_at(x, y));
    }
    assert forall|x: int, y: int|
        #![trigger after.walkable_at(x, y)]
        m.walkable_at(x, y) implies after.walkable_at(x, y) by {
        assert(before.walkable_at(x, y));
    }
    assert forall|k: int, x: int, y: int|
        old.len() <= k < rooms.len() && m.in_bounds(x, y) && #[trigger] in_rect(rooms[k], x, y) implies after.walkable_at(x, y) by {
        if k < n {
            assert(rooms[k] == before@.rooms[k]);
            assert(before.walkable_at(x, y));
        }
    }
    assert forall|x: int, y: int|
        #![trigger after.walkable_at(x, y)]
        after.walkable_at(x, y) implies m.walkable_at(x, y) || exists|k: int|
            old.len() <= k < rooms.len() && #[trigger] in_rect(rooms[k], x, y) by {
        if before.walkable_at(x, y) {
            if !m.walkable_at(x, y) {
                let k = choose|k: int| old.len() <= k < before@.rooms.len() && #[trigger] in_rect(before@.rooms[k], x, y);
                assert(rooms[k] == before@.rooms[k]);
                assert(in_rect(rooms[k], x, y));
            }
        } else {
            assert(rooms[n] == room);
            assert(in_rect(rooms[n], x, y));
        }
    }
}

} // verus!
