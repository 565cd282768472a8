use mapgen::dijkstra::{DijkstraMap, UNREACHABLE};
use mapgen::geometry::Point;
use mapgen::map_buffer::MapBuffer;
use mapgen::metric::{density, path_length};
use mapgen::poi::{AreaStartingPosition, CullUnreachable, DistantExit, XStart, YStart};
use rand::rngs::StdRng;
use rand::SeedableRng;
use mapgen::MapFilter;

fn cost(c: u64) -> f32 {
    if c == UNREACHABLE {
        f32::MAX
    } else {
        c as f32 / 100.0
    }
}

#[test]
fn dijkstra_test_culling() {
    let map_str = "
        ##########
        # #      #
        ##########
        ";
    let map = MapBuffer::from_string(map_str);
    let dm = DijkstraMap::new(&map, &Point::new(8, 1));
    let tiles: Vec<f32> = dm.tiles.iter().map(|&c| cost(c)).collect();

    println!("{:?}", &tiles.iter().map(|&v| if v == f32::MAX { 9.0 } else { v }).collect::<Vec<f32>>());

    assert_eq!(dm.size_x, 10);
    assert_eq!(dm.size_y, 3);
    for i in 0..10 {
        assert_eq!(tiles[i], f32::MAX);
        assert_eq!(tiles[2 * dm.size_x as usize + i], f32::MAX);
        let idx = dm.size_x as usize + i;
        if i < 3 || i == 9 {
            assert_eq!(tiles[idx], f32::MAX);
        } else {
            assert_eq!(tiles[idx], (8 - i) as f32);
        }
    }
}

#[test]
fn dijkstra_test_2() {
    let map_str = "
        ####
        #  #
        #  #
        ####
        ";
    let map = MapBuffer::from_string(map_str);
    let starting_point = Point::new(2, 2);
    let dm = DijkstraMap::new(&map, &starting_point);
    let expected = [
        f32::MAX, f32::MAX, f32::MAX, f32::MAX,
        f32::MAX, 1.45, 1.0, f32::MAX,
        f32::MAX, 1.0, 0.0, f32::MAX,
        f32::MAX, f32::MAX, f32::MAX, f32::MAX,
    ];
    let tiles: Vec<f32> = dm.tiles.iter().map(|&c| cost(c)).collect();
    assert_eq!(tiles, expected);
}

#[test]
fn dijkstra_test_3() {
    let map_str = "
        ##########
        #        #
        #  #     #
        ##########
        ";
    let map = MapBuffer::from_string(map_str);
    let starting_point = Point::new(8, 2);
    let dm = DijkstraMap::new(&map, &starting_point);
    let m = f32::MAX;
    let expected = [
        m, m, m, m, m, m, m, m, m, m,
        m, 7.45, 6.45, 5.45, 4.45, 3.45, 2.45, 1.45, 1.0, m,
        m, 7.9, 6.9, m, 4.0, 3.0, 2.0, 1.0, 0.0, m,
        m, m, m, m, m, m, m, m, m, m,
    ];
    let tiles: Vec<f32> = dm.tiles.iter().map(|&c| cost(c)).collect();
    for (v, e) in tiles.iter().zip(expected.iter()) {
        assert!(f32::abs(v - e) <= 0.01);
    }
}

#[test]
fn cull_unreachable_test_culling() {
    let map_str = "
        ##########
        #  #     #
        ##########
        ";
    let mut map = MapBuffer::from_string(map_str);
    map.starting_point = Some(Point::new(9, 1));
    let expected_map_str = "
        ##########
        ####     #
        ##########
        ";
    let expected_map = MapBuffer::from_string(expected_map_str);

    let modifier = MapFilter::CullUnreachable(CullUnreachable::new());
    let mut rng = StdRng::seed_from_u64(0);
    let new_map = modifier.modify_map(&mut rng, &map).unwrap();

    assert_eq!(new_map.walkables, expected_map.walkables);
}

#[test]
fn distant_exit_test_exit() {
    let map_str = "
        ##########
        #        #
        #  #     #
        ##########
        ";
    let mut map = MapBuffer::from_string(map_str);
    map.starting_point = Some(Point::new(9, 2));

    let modifier = MapFilter::DistantExit(DistantExit::new());
    let mut rng = StdRng::seed_from_u64(0);
    let new_map = modifier.modify_map(&mut rng, &map).unwrap();

    assert_eq!(new_map.exit_point, Some(Point::new(1, 2)));
}

#[test]
fn starting_point_test_exit() {
    let map_str = "
        ##########
        #   ##   #
        #  # #   #
        ##########
        ";
    let mut map = MapBuffer::from_string(map_str);
    map.starting_point = Some(Point::new(9, 2));

    let modifier = MapFilter::StartingPoint(AreaStartingPosition::new(XStart::CENTER, YStart::TOP));
    let mut rng = StdRng::seed_from_u64(0);
    let new_map = modifier.modify_map(&mut rng, &map).unwrap();

    assert_eq!(new_map.starting_point, Some(Point::new(6, 1)));
}

#[test]
fn starting_point_fails_without_floor() {
    let map = MapBuffer::new(10, 10);
    let finder = AreaStartingPosition::new(XStart::LEFT, YStart::TOP);
    assert_eq!(finder.nearest_floor(&map), None);
    let filter = MapFilter::StartingPoint(finder);
    assert!(filter.modify_map(&mut StdRng::seed_from_u64(0), &map).is_none());
}

#[test]
fn starting_point_corners() {
    let map = MapBuffer::from_string(
        "
        #####
        #   #
        #   #
        #   #
        #####
        ",
    );
    let bottom_right = AreaStartingPosition::new(XStart::RIGHT, YStart::BOTTOM);
    assert_eq!(bottom_right.find(&map), Point::new(3, 3));
    let centre = AreaStartingPosition::new(XStart::CENTER, YStart::CENTER);
    assert_eq!(centre.find(&map), Point::new(2, 2));
    let far = AreaStartingPosition::new(XStart::LEFT, YStart::TOP);
    assert_eq!(far.find(&map), Point::new(1, 1));
}

#[test]
fn distant_exit_alone_is_start() {
    let map = MapBuffer::from_string(
        "
        #####
        ## ##
        #####
        ",
    );
    assert_eq!(DistantExit::find(&Point::new(2, 1), &map), Point::new(2, 1));
}

#[test]
fn cull_without_start_uses_origin() {
    let map = MapBuffer::from_string(
        "
        #####
        # # #
        #####
        ",
    );
    let culled = CullUnreachable::new().modify_map(&map);
    // (1, 1) is one diagonal move from the origin; (3, 1) is cut off
    assert!(culled.is_walkable(1, 1));
    assert!(culled.is_blocked(3, 1));
}

#[test]
fn test_density_no_floor() {
    let layer = MapBuffer::new(10, 10);
    let (floor, cells) = density(&layer);
    let score = floor as f32 / cells as f32;
    assert_eq!(score, 0.0);
}

#[test]
fn test_density() {
    let map_str = "
            ##########
            #   ##   #
            ##########
            ";
    let layer = MapBuffer::from_string(map_str);
    let (floor, cells) = density(&layer);
    let score = floor as f32 / cells as f32;
    assert_eq!(score, 0.2);
}

#[test]
fn test_path_length() {
    let map_str = "
            ##########
            #   ##   #
            #        #
            ##########
            ";
    let map = MapBuffer::from_string(map_str);
    let starting_point = Point::new(1, 1);
    let exit_point = Point::new(8, 1);

    let score = path_length(&map, &starting_point, &exit_point) as f32 / 100.0;
    assert!(f32::abs(score - 7.9) <= 0.01);
}

#[test]
fn path_length_unreachable() {
    let map = MapBuffer::from_string(
        "
        #####
        # # #
        #####
        ",
    );
    assert_eq!(path_length(&map, &Point::new(1, 1), &Point::new(3, 1)), UNREACHABLE);
    assert_eq!(path_length(&map, &Point::new(1, 1), &Point::new(1, 1)), 0);
}
