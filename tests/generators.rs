use mapgen::cave::{apply_iteration, carve, CellularAutomata, DrunkardsWalk, NoiseGenerator, VoronoiHive};
use mapgen::geometry::{Point, Rect};
use mapgen::map_buffer::MapBuffer;
use mapgen::maze::MazeBuilder;
use mapgen::random::{random_range, roll_dice};
use rand::rngs::StdRng;
use rand::SeedableRng;
use mapgen::rooms::{BspInterior, BspRooms, NearestCorridors, RoomsMap, SimpleRooms};
use mapgen::{MapBuilder, MapFilter};

fn border_blocked(map: &MapBuffer) {
    for i in 0..map.width {
        assert!(map.is_blocked(i, 0));
        assert!(map.is_blocked(i, map.height - 1));
    }
    for j in 0..map.height {
        assert!(map.is_blocked(0, j));
        assert!(map.is_blocked(map.width - 1, j));
    }
}

fn rooms_apart(map: &MapBuffer) {
    for i in 0..map.rooms.len() {
        for j in (i + 1)..map.rooms.len() {
            assert!(!map.rooms[i].intersect(&map.rooms[j]));
        }
    }
}

#[test]
fn cellular_automata_test_iteration_wal() {
    let map = MapBuffer::new(3, 3);
    let new_map = apply_iteration(&map);
    assert!(new_map.is_blocked(1, 1));
}

#[test]
fn cellular_automata_test_iteration_floor() {
    let mut map = MapBuffer::new(3, 3);
    for i in 0..3 {
        for j in 0..2 {
            map.set_walkable(i, j, true);
        }
    }
    let new_map = apply_iteration(&map);
    assert!(new_map.is_walkable(1, 1));
}

#[test]
fn bsp_interior_no_corridors_on_borders() {
    let mut rng = StdRng::seed_from_u64(907647352);
    let gen = MapFilter::BspInterior(BspInterior::new());
    let map = gen.modify_map(&mut rng, &MapBuffer::new(80, 50)).unwrap();
    for i in 0..80 {
        assert!(map.is_blocked(i, 0));
        assert!(map.is_blocked(i, 49));
    }
    for j in 0..50 {
        assert!(map.is_blocked(0, j));
        assert!(map.is_blocked(79, j));
    }
}

#[test]
fn bsp_rooms_no_corridors_on_borders() {
    let mut rng = StdRng::seed_from_u64(907647352);
    let gen = MapFilter::BspRooms(BspRooms::new());
    let map = gen.modify_map(&mut rng, &MapBuffer::new(80, 50)).unwrap();
    for i in 0..80 {
        assert!(map.is_blocked(i, 0));
        assert!(map.is_blocked(i, 49));
    }
    for j in 0..50 {
        assert!(map.is_blocked(0, j));
        assert!(map.is_blocked(79, j));
    }
}

#[test]
fn corridors_nearest_no_corridors_on_borders() {
    let mut rooms = RoomsMap::new(10, 5);
    rooms.add_room(Rect::new(1, 1, 3, 3));
    rooms.add_room(Rect::new(6, 1, 3, 3));
    let corridors = NearestCorridors::new();
    let map = corridors.generate(&rooms);

    let map_str = "
        ##########
        #   ##   #
        #        #
        #   ##   #
        ##########
        ";
    let expected = MapBuffer::from_string(map_str);

    assert_eq!(map.walkable_layer.walkables, expected.walkables);
}

#[test]
fn tile_map_test_new_map() {
    let map = RoomsMap::new(10, 10);
    for i in 0..10 {
        for j in 0..10 {
            assert!(map.is_blocked(i, j));
        }
    }
}

#[test]
fn tile_map_test_create_room() {
    let mut map = RoomsMap::new(5, 5);
    map.add_room(Rect::new(1, 1, 3, 3));
    for x in 0..map.width {
        for y in 0..map.height {
            if x == 0 || y == 0 || x == 4 || y == 4 {
                assert!(map.is_blocked(x, y));
            } else {
                assert!(!map.is_blocked(x, y));
            }
        }
    }
}

#[test]
fn rooms_map_records_corridor() {
    let mut map = RoomsMap::new(10, 5);
    map.add_corridor(Point::new(1, 1), Point::new(3, 2));
    assert_eq!(map.corridors, vec![vec![Point::new(2, 1), Point::new(3, 1), Point::new(3, 2)]]);
    assert!(map.is_walkable(3, 2));
    assert!(map.is_blocked(1, 1));
    assert_eq!(map.xy_idx(3, 2), 23);
    map.set_walkable(1, 1, true);
    assert!(map.is_walkable(1, 1));
}

#[test]
fn test_ca_map() {
    let seed = std::time::SystemTime::now()
        .duration_since(std::time::UNIX_EPOCH)
        .expect("Can't access system time")
        .as_millis() as u64;
    let map = MapBuilder::new(80, 50)
        .with(MapFilter::Noise(NoiseGenerator::new(55)))
        .with(MapFilter::CellularAutomata(CellularAutomata::new()))
        .build_with_seed(seed)
        .unwrap();

    assert_eq!(map.width, 80);
    assert_eq!(map.height, 50);
}

#[test]
fn build_is_deterministic() {
    let builder = MapBuilder::new(60, 40)
        .with(MapFilter::Noise(NoiseGenerator::uniform()))
        .with(MapFilter::CellularAutomata(CellularAutomata::new()))
        .with(MapFilter::StartingPoint(mapgen::poi::AreaStartingPosition::new(
            mapgen::poi::XStart::CENTER,
            mapgen::poi::YStart::CENTER,
        )))
        .with(MapFilter::CullUnreachable(mapgen::poi::CullUnreachable::new()))
        .with(MapFilter::DistantExit(mapgen::poi::DistantExit::new()));
    let a = builder.build_with_seed(42).unwrap();
    let b = builder.build_with_seed(42).unwrap();
    assert_eq!(a.walkables, b.walkables);
    assert_eq!(a.starting_point, b.starting_point);
    assert_eq!(a.exit_point, b.exit_point);
    assert!(a.starting_point.is_some());
}

#[test]
fn empty_builder_gives_walls() {
    let map = MapBuilder::new(7, 5).build_with_seed(1).unwrap();
    assert_eq!(map.walkables, vec![false; 35]);
}

#[test]
fn builder_stops_on_filter_that_cannot_run() {
    let built = MapBuilder::new(3, 3).with(MapFilter::Maze(MazeBuilder::new())).build_with_seed(1);
    assert!(built.is_none());
    let no_floor = MapBuilder::new(10, 10)
        .with(MapFilter::StartingPoint(mapgen::poi::AreaStartingPosition::new(
            mapgen::poi::XStart::LEFT,
            mapgen::poi::YStart::TOP,
        )))
        .build_with_seed(1);
    assert!(no_floor.is_none());
}

#[test]
fn generators_keep_size_and_border() {
    let filters = vec![
        MapFilter::Noise(NoiseGenerator::new(45)),
        MapFilter::CellularAutomata(CellularAutomata::new()),
        MapFilter::BspInterior(BspInterior::new()),
        MapFilter::BspRooms(BspRooms::new()),
        MapFilter::SimpleRooms(SimpleRooms::new()),
        MapFilter::Voronoi(VoronoiHive::new()),
        MapFilter::Maze(MazeBuilder::new()),
    ];
    for (k, f) in filters.iter().enumerate() {
        let mut rng = StdRng::seed_from_u64(k as u64 + 7);
        let map = f.modify_map(&mut rng, &MapBuffer::new(80, 50)).unwrap();
        assert_eq!(map.width, 80);
        assert_eq!(map.height, 50);
        assert_eq!(map.walkables.len(), 80 * 50);
        border_blocked(&map);
    }
}

#[test]
fn room_generators_keep_rooms_apart() {
    for seed in 0..5u64 {
        let mut rng = StdRng::seed_from_u64(seed);
        let simple = SimpleRooms::new().modify_map(&mut rng, &MapBuffer::new(80, 50));
        assert!(simple.rooms.len() >= 1);
        rooms_apart(&simple);
        let bsp = BspRooms::new().modify_map(&mut rng, &MapBuffer::new(80, 50));
        assert!(bsp.rooms.len() >= 1);
        rooms_apart(&bsp);
    }
}

#[test]
fn noise_fill_follows_rolls() {
    let gen = NoiseGenerator::new(50);
    // a 4 by 3 map has two cells off the ring
    let map = gen.fill(&MapBuffer::new(4, 3), &vec![151, 49]);
    assert!(map.is_walkable(1, 1));
    assert!(map.is_blocked(2, 1));
    assert_eq!(map.walkables.iter().filter(|&&w| w).count(), 1);
}

#[test]
fn simple_rooms_floor_is_rooms() {
    let mut rng = StdRng::seed_from_u64(4);
    let gen = SimpleRooms::new();
    let map = gen.modify_map(&mut rng, &MapBuffer::new(80, 50));
    assert!(map.rooms.len() >= 1 && map.rooms.len() <= 30);
    for y in 0..50usize {
        for x in 0..80usize {
            let inside = map.rooms.iter().any(|r| {
                r.x1 as usize <= x && x < r.x2 as usize && r.y1 as usize <= y && y < r.y2 as usize
            });
            assert_eq!(map.is_walkable(x, y), inside);
        }
    }
    for r in map.rooms.iter() {
        assert!(r.width() >= 6 && r.width() < 10);
        assert!(r.height() >= 6 && r.height() < 10);
    }
}

#[test]
fn bsp_interior_rooms_are_small_apart_leaves() {
    let mut rng = StdRng::seed_from_u64(907647352);
    let map = BspInterior::new().modify_map(&mut rng, &MapBuffer::new(80, 50));
    assert!(map.rooms.len() >= 2);
    rooms_apart(&map);
    for r in map.rooms.iter() {
        assert!(r.x1 >= 1 && r.y1 >= 1 && r.x2 <= 79 && r.y2 <= 49);
        assert!(r.width() <= 8 || r.height() <= 8);
    }
}

#[test]
fn bsp_rooms_place_attempt() {
    let gen = BspRooms::new();
    let mut map = MapBuffer::new(40, 40);
    let mut rects = vec![Rect::new(2, 2, 35, 35)];
    let area = Rect::new(2, 2, 35, 35);
    assert!(gen.place_attempt(&mut map, &mut rects, area, Rect::new(5, 5, 4, 4)));
    assert_eq!(rects.len(), 5);
    assert_eq!(map.rooms.len(), 1);
    // touching the first room's margin is refused and changes nothing
    assert!(!gen.place_attempt(&mut map, &mut rects, area, Rect::new(10, 5, 4, 4)));
    assert_eq!(rects.len(), 5);
    assert_eq!(map.rooms.len(), 1);
}

#[test]
fn noise_full_probability_is_all_wall() {
    let mut rng = StdRng::seed_from_u64(3);
    let map = NoiseGenerator::new(100).modify_map(&mut rng, &MapBuffer::new(20, 20));
    assert_eq!(map.walkables, vec![false; 400]);
}

#[test]
fn drunkard_reaches_floor_share() {
    let presets = vec![
        DrunkardsWalk::open_area(),
        DrunkardsWalk::open_halls(),
        DrunkardsWalk::winding_passages(),
        DrunkardsWalk::fat_passages(),
        DrunkardsWalk::fearful_symmetry(),
    ];
    for p in presets.iter() {
        let mut rng = StdRng::seed_from_u64(11);
        let map = p.modify_map(&mut rng, &MapBuffer::new(60, 40)).unwrap();
        let floor = map.walkables.iter().filter(|&&w| w).count();
        assert!(floor * 100 >= p.floor_percent as usize * 60 * 40);
        assert!(map.is_walkable(30, 20));
    }
}

#[test]
fn voronoi_carve_two_regions() {
    // two seeds: the column between them is a boundary
    let map = MapBuffer::new(9, 5);
    let seeds = vec![Point::new(2, 2), Point::new(6, 2)];
    let carved = carve(&map, &seeds);
    assert!(carved.is_walkable(2, 2));
    assert!(carved.is_walkable(6, 2));
    assert!(carved.is_blocked(0, 2));
    let (seeds, _) = VoronoiHive::new().generate_seeds(&mut StdRng::seed_from_u64(5), 80, 50);
    assert_eq!(seeds.len(), 64);
}

#[test]
fn drunkard_walk_follows_rolls() {
    let digger = DrunkardsWalk::open_area();
    let mut map = MapBuffer::new(6, 6);
    // start at (2, 2): paint, east, paint, south, paint, west against nothing
    digger.walk(&mut map, 2, 2, &vec![2, 4, 1]);
    assert!(map.is_walkable(2, 2));
    assert!(map.is_walkable(3, 2));
    assert!(map.is_walkable(3, 3));
    assert_eq!(map.walkables.iter().filter(|&&w| w).count(), 3);
}

#[test]
fn drunkard_already_open_map_is_unchanged() {
    let mut map = MapBuffer::new(6, 6);
    for x in 1..5 {
        for y in 1..5 {
            map.set_walkable(x, y, true);
        }
    }
    let out = DrunkardsWalk::winding_passages().modify_map(&mut StdRng::seed_from_u64(1), &map).unwrap();
    assert_eq!(out.walkables, map.walkables);
}

#[test]
fn maze_has_floor() {
    let mut rng = StdRng::seed_from_u64(9);
    let map = MazeBuilder::new().modify_map(&mut rng, &MapBuffer::new(30, 30));
    assert!(map.is_walkable(2, 2));
    // 13 by 13 logical cells, all visited: their centres are floor
    for r in 0..13 {
        for c in 0..13 {
            assert!(map.is_walkable((c + 1) * 2, (r + 1) * 2));
        }
    }
    // a spanning tree opens one wall fewer than there are cells
    assert_eq!(map.walkables.iter().filter(|&&w| w).count(), 169 + 168);
    border_blocked(&map);
}

#[test]
fn nearest_corridors_on_buffer() {
    let mut map = MapBuffer::new(20, 7);
    map.add_room(Rect::new(1, 1, 3, 3));
    map.add_room(Rect::new(14, 1, 3, 3));
    map.add_room(Rect::new(7, 3, 3, 3));
    let joined = NearestCorridors::new().corridors(&map);
    assert_eq!(joined.rooms, map.rooms);
    assert_eq!(joined.corridors.len(), 2);
    assert!(joined.is_walkable(5, 2));
}

#[test]
fn random_test_range() {
    let mut rng = StdRng::seed_from_u64(100);
    let x = random_range(&mut rng, 5, 8);
    assert!(x >= 5 && x < 8);
    assert_eq!(random_range(&mut rng, 4, 4), 4);
}

#[test]
fn test_range_average() {
    let num_op = 10000;
    let mut rng = StdRng::seed_from_u64(1000);
    let xs: Vec<usize> = (0..num_op).map(|_| random_range(&mut rng, 5, 10)).collect();
    let mean = xs.iter().sum::<usize>() / num_op;
    let min = *xs.iter().min().expect("no min");
    let max = *xs.iter().max().expect("no max");
    assert_eq!(mean, 7);
    assert_eq!(min, 5);
    assert_eq!(max, 9);
}

#[test]
fn test_roll_dice() {
    let num_op = 1000;
    let mut rng = StdRng::seed_from_u64(2000);
    let xs: Vec<usize> = (0..num_op).map(|_| roll_dice(&mut rng, 1, 7)).collect();
    let mean = xs.iter().sum::<usize>() as f32 / num_op as f32 + 0.5;
    let min = *xs.iter().min().expect("no min");
    let max = *xs.iter().max().expect("no max");
    assert_eq!(mean as usize, 4);
    assert_eq!(min, 1);
    assert_eq!(max, 7);
}
