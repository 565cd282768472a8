use mapgen::geometry::{Point, Rect};
use mapgen::map_buffer::{MapBuffer, Symmetry};

fn room_map_checks(map: &MapBuffer) {
    for x in 0..map.width {
        for y in 0..map.height {
            if x == 0 || y == 0 || x == 4 || y == 4 {
                assert!(map.is_blocked(x, y));
            } else {
                assert!(map.is_blocked(x, y) == false);
            }
        }
    }
}

fn from_string_checks(map: &MapBuffer) {
    assert_eq!(map.width, 10);
    assert_eq!(map.height, 3);
    for i in 0..10 {
        assert!(map.is_blocked(i, 0));
        assert!(map.is_blocked(i, 2));
        if i == 0 || i == 9 {
            assert!(map.is_blocked(i, 1));
        } else {
            assert!(map.is_walkable(i, 1));
        }
    }
}

const WIDE_ROOM: &str = "
        ##########
        #        #
        ##########
        ";

#[test]
fn map_buffer_test_new_map() {
    let map = MapBuffer::new(10, 10);
    for i in 0..10 {
        for j in 0..10 {
            assert!(map.is_blocked(i, j));
        }
    }
}

#[test]
fn map_buffer_test_from_string() {
    let map = MapBuffer::from_string(WIDE_ROOM);
    from_string_checks(&map);
}

#[test]
fn map_buffer_test_exists() {
    let map_str = "
        ##########
        #        #
        #        #
        ##########
        ";
    let map = MapBuffer::from_string(map_str);
    let exists: Vec<(usize, usize, f32)> = map
        .get_available_exits(1, 1)
        .iter()
        .map(|&(x, y, c)| (x, y, c as f32 / 100.0))
        .collect();
    let expected_exists = vec![(2, 1, 1.0), (1, 2, 1.0), (2, 2, 1.45)];
    assert_eq!(exists, expected_exists);
}

#[test]
fn map_buffer_test_create_room() {
    let mut map = MapBuffer::new(5, 5);
    map.add_room(Rect::new(1, 1, 3, 3));
    room_map_checks(&map);
}

#[test]
fn map_buffer_test_add_corridor() {
    let map_str = "
        ##########
        #    #   #
        ##########
        ";
    let mut map = MapBuffer::from_string(map_str);
    let expected_map_str = "
        ##########
        #        #
        ##########
        ";
    let expected_map = MapBuffer::from_string(expected_map_str);

    map.add_corridor(Point::new(1, 1), Point::new(8, 1));

    assert_eq!(map.walkables, expected_map.walkables);
    assert_eq!(map.corridors, vec![vec![Point::new(5, 1)]]);
}

#[test]
fn map_buffer_test_available_exists() {
    let map_str = "
         #########
        #    #   #
        ##########
        ";
    let map = MapBuffer::from_string(map_str);
    let exists = map.get_available_exits(0, 0);

    assert_eq!(exists.len(), 1);
}

#[test]
fn map_buffer_convert_xy_idx() {
    let x = 64;
    let y = 45;

    let map = MapBuffer::new(65, 65);

    let idx = map.xy_idx(x, y);

    let Point { x: x2, y: y2 } = map.idx_point(idx);

    assert_eq!(x, x2);
    assert_eq!(y, y2);
}

#[test]
fn filter_based_map_test_new_map() {
    let map = MapBuffer::new(10, 10);
    for i in 0..10 {
        for j in 0..10 {
            assert!(map.is_blocked(i, j));
        }
    }
}

#[test]
fn filter_based_map_test_from_string() {
    let map = MapBuffer::from_string(WIDE_ROOM);
    from_string_checks(&map);
}

#[test]
fn filter_based_map_convert_xy_idx() {
    let map = MapBuffer::new(65, 65);
    let idx = map.xy_idx(64, 45);
    let Point { x: x2, y: y2 } = map.idx_point(idx);
    assert_eq!(64, x2);
    assert_eq!(45, y2);
}

#[test]
fn map_test_new_map() {
    let map = MapBuffer::new(10, 10);
    for i in 0..10 {
        for j in 0..10 {
            assert!(map.is_blocked(i, j));
        }
    }
}

#[test]
fn map_test_from_string() {
    let map = MapBuffer::from_string(WIDE_ROOM);
    from_string_checks(&map);
}

#[test]
fn map_test_create_room() {
    let mut map = MapBuffer::new(5, 5);
    map.add_room(Rect::new(1, 1, 3, 3));
    room_map_checks(&map);
}

#[test]
fn map_test_add_corridor() {
    let mut map = MapBuffer::from_string(
        "
        ##########
        #    #   #
        ##########
        ",
    );
    let expected_map = MapBuffer::from_string(WIDE_ROOM);
    map.add_corridor(Point::new(1, 1), Point::new(8, 1));
    assert_eq!(map.walkables, expected_map.walkables);
}

#[test]
fn map_test_exists() {
    let map = MapBuffer::from_string(
        "
        ##########
        #        #
        #        #
        ##########
        ",
    );
    let exists = map.get_available_exits(1, 1);
    assert_eq!(exists, vec![(2, 1, 100), (1, 2, 100), (2, 2, 145)]);
}

#[test]
fn test_new_layer() {
    let map = MapBuffer::new(10, 10);
    for i in 0..10 {
        for j in 0..10 {
            assert!(map.is_blocked(i, j));
        }
    }
}

#[test]
fn layer_test_from_string() {
    let map = MapBuffer::from_string(WIDE_ROOM);
    from_string_checks(&map);
}

#[test]
fn layer_test_exists() {
    let map = MapBuffer::from_string(
        "
        ##########
        #        #
        #        #
        ##########
        ",
    );
    assert_eq!(map.get_available_exits(1, 1).len(), 3);
}

#[test]
fn layer_test_available_exists() {
    let map = MapBuffer::from_string(
        "
         #########
        #    #   #
        ##########
        ",
    );
    assert_eq!(map.get_available_exits(0, 0).len(), 1);
}

#[test]
fn out_of_range_reads_blocked_and_writes_ignored() {
    let mut map = MapBuffer::new(3, 3);
    assert!(map.is_blocked(3, 0));
    assert!(map.is_blocked(0, 100));
    map.set_walkable(5, 5, true);
    assert_eq!(map.walkables, vec![false; 9]);
    map.set_walkable(1, 2, true);
    assert!(map.is_walkable(1, 2));
    assert_eq!(map.walkables.len(), 9);
}

#[test]
fn tile_types_are_kept_apart() {
    let mut map = MapBuffer::new(4, 4);
    map.set_tile(2, 1, 7);
    assert_eq!(map.tile_type(2, 1), 7);
    assert_eq!(map.tile_type(9, 9), 0);
    assert!(map.is_blocked(2, 1));
}

#[test]
fn from_string_empty_and_short_rows() {
    let empty = MapBuffer::from_string("");
    assert_eq!(empty.width, 1);
    assert_eq!(empty.height, 0);
    let map = MapBuffer::from_string("###\n#\n\n  # \n");
    assert_eq!(map.width, 3);
    assert_eq!(map.height, 3);
    // trailing cells of a short row stay blocked
    assert!(map.is_blocked(1, 1));
    assert!(map.is_blocked(2, 1));
    // "  # " trims to "#"
    assert!(map.is_blocked(0, 2));
}

#[test]
fn text_round_trip() {
    let text = "#####\n# # #\n#   #\n#####\n";
    let map = MapBuffer::from_string(text);
    let bytes = map.to_bytes();
    assert_eq!(String::from_utf8(bytes.clone()).unwrap(), text);
    let back = MapBuffer::from_bytes(&bytes);
    assert_eq!(back.width, map.width);
    assert_eq!(back.height, map.height);
    assert_eq!(back.walkables, map.walkables);
}

#[test]
fn paint_single_and_mirrored() {
    let mut map = MapBuffer::new(9, 9);
    map.paint(Symmetry::Neither, 1, 2, 3);
    assert!(map.is_walkable(2, 3));
    let mut map = MapBuffer::new(9, 9);
    map.paint(Symmetry::Horizontal, 1, 2, 3);
    assert!(map.is_walkable(2, 3));
    assert!(map.is_walkable(6, 3));
    let mut map = MapBuffer::new(9, 9);
    map.paint(Symmetry::Both, 1, 2, 3);
    assert!(map.is_walkable(2, 3));
    assert!(map.is_walkable(6, 3));
    assert!(map.is_walkable(2, 5));
    let mut map = MapBuffer::new(9, 9);
    map.paint(Symmetry::Vertical, 1, 2, 4);
    assert_eq!(map.walkables.iter().filter(|&&w| w).count(), 1);
}

#[test]
fn paint_wide_brush_stays_inside() {
    let mut map = MapBuffer::new(8, 8);
    map.paint(Symmetry::Neither, 4, 2, 2);
    // square from 0..4 clipped to 2..=5
    assert!(map.is_walkable(2, 2));
    assert!(map.is_walkable(3, 3));
    assert!(map.is_blocked(1, 1));
    assert!(map.is_blocked(4, 2));
    assert_eq!(map.walkables.iter().filter(|&&w| w).count(), 4);
}

#[test]
fn tile_map_test_from_string() {
    let map = MapBuffer::from_string(WIDE_ROOM);
    from_string_checks(&map);
}

#[test]
fn tile_map_convert_xy_idx() {
    let map = MapBuffer::new(65, 65);
    let idx = map.xy_idx(64, 45);
    let Point { x: x2, y: y2 } = map.idx_point(idx);
    assert_eq!(64, x2);
    assert_eq!(45, y2);
}

#[test]
fn from_string_trims_unicode_space() {
    let map = MapBuffer::from_string("\u{3000}#  #\u{a0}\n\u{2003}####\u{3000}\n");
    assert_eq!(map.width, 4);
    assert_eq!(map.height, 2);
    assert!(map.is_walkable(1, 0));
    assert!(map.is_blocked(3, 0));
}

#[test]
fn exits_listed_once_each() {
    let map = MapBuffer::from_string("###\n# #\n###\n");
    let open = MapBuffer::from_string("#####\n#   #\n#   #\n#   #\n#####\n");
    assert!(map.get_available_exits(1, 1).is_empty());
    let exits = open.get_available_exits(2, 2);
    assert_eq!(exits.len(), 8);
    for i in 0..exits.len() {
        for j in (i + 1)..exits.len() {
            assert!((exits[i].0, exits[i].1) != (exits[j].0, exits[j].1));
        }
    }
}
