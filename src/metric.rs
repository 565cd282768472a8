//! Measures of a finished map.
use vstd::prelude::*;
use crate::dijkstra::{cost_at, is_cost_map, DijkstraMap};
use crate::geometry::Point;
use crate::map_buffer::{count_floor, count_true, lemma_cell_index, MapBuffer};

verus! {

/// The share of floor: the number of floor cells and the number of cells.
pub fn density(map: &MapBuffer) -> (r: (usize, usize))
    ensures
        r.0 == count_true(map.walkables@),
        r.1 == map.walkables@.len(),
{
    (count_floor(map), map.walkables.len())
}

/// Cost, in hundredths of a move, of the cheapest walk from
/// `starting_point` to `exit_point`.
pub fn path_length(map: &MapBuffer, starting_point: &Point, exit_point: &Point) -> (r: u64)
    requires
        map.fits(),
        starting_point.x < map.width,
        starting_point.y < map.height,
        exit_point.x < map.width,
        exit_point.y < map.height,
    ensures
        exists|t: Seq<u64>|
            #[trigger] is_cost_map(*map, t, starting_point.x as int, starting_point.y as int, map.width * map.height * 100)
                && r == cost_at(t, map.width as int, exit_point.x as int, exit_point.y as int),
{
    let dijkstra = DijkstraMap::new(map, starting_point);
    proof {
        lemma_cell_index(map.width as int, map.height as int, exit_point.x as int, exit_point.y as int);
    }
    let r = dijkstra.tiles[exit_point.y * map.width + exit_point.x];
    assert(is_cost_map(*map, dijkstra.tiles@, starting_point.x as int, starting_point.y as int, map.width * map.height * 100));
    r
}

} // verus!
