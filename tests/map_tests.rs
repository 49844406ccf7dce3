use substrate_map::geometry::{Dimension, Position, Rectangle, Size};
use substrate_map::map::{
    add_room_to_map, add_tunnel, build_simple_map, create_map, create_map_with_rooms, create_room,
    create_simple_map, grid_to_center_pixels, grid_to_pixels, pixels_to_grid, place_rooms, Orientation, TileMap, TileType,
    GRID_SIZE,
};

fn rect(col: usize, row: usize, width: usize, height: usize) -> Rectangle {
    Rectangle(
        Position(Dimension(col), Dimension(row)),
        Size(Dimension(width), Dimension(height)),
    )
}

fn pos(col: usize, row: usize) -> Position {
    Position(Dimension(col), Dimension(row))
}

fn solid(columns: usize, rows: usize) -> TileMap {
    TileMap { rows, columns, tiles: vec![TileType::Wall; columns * rows] }
}

fn tile(map: &TileMap, col: usize, row: usize) -> TileType {
    map.tiles[map.grid_to_index(pos(col, row))]
}

#[test]
fn test_coordinate_to_grid() {
    let grid = pixels_to_grid(100, 100);
    assert!(grid.0 == Dimension(3) && grid.1 == Dimension(3));
}

#[test]
fn test_grid_to_coordinate() {
    let grid = Position(Dimension(7), Dimension(7));
    let coord = grid_to_pixels(grid);
    assert!(coord.0 == 224 && coord.1 == 224);
}

#[test]
fn test_new_room() {
    let room = create_room(0.into(), 4.into(), Size(10.into(), 10.into()));
    assert!(room.0 .0 < 10.into());
    assert!(room.0 .1 < 10.into());
    assert!(room.1 .0 <= 4.into());
    assert!(room.1 .1 <= 4.into());
}

#[test]
fn new_rooms_stay_in_their_ranges_and_vary() {
    let mut widths_seen = Vec::new();
    for _ in 0..200 {
        let room = create_room(Dimension(2), Dimension(5), Size(Dimension(12), Dimension(9)));
        let (x, y, w, h) = (room.0 .0 .0, room.0 .1 .0, room.1 .0 .0, room.1 .1 .0);
        assert!((2..5).contains(&w) && (2..5).contains(&h));
        assert!(x >= 1 && x < 12 - w - 1);
        assert!(y >= 1 && y < 9 - h - 1);
        if !widths_seen.contains(&w) {
            widths_seen.push(w);
        }
    }
    assert!(widths_seen.len() > 1);
}

#[test]
fn pixel_round_trip_keeps_cells() {
    for &(c, r) in &[(0usize, 0usize), (1, 5), (7, 7), (1000, 3), ((1usize << 31) - 1, 12)] {
        let (x, y) = grid_to_pixels(pos(c, r));
        assert_eq!(x, c * GRID_SIZE);
        assert_eq!(pixels_to_grid(x, y), pos(c, r));
    }
    assert_eq!(pixels_to_grid(31, 32), pos(0, 1));
}

#[test]
fn dimension_arithmetic() {
    assert_eq!(Dimension(3) + Dimension(4), Dimension(7));
    assert_eq!(Dimension(3) * Dimension(4), Dimension(12));
    assert_eq!(Dimension(9) / Dimension(2), Dimension(4));
    assert_eq!(Dimension::from(5usize), Dimension(5));
    assert_eq!(usize::from(Dimension(6)), 6);
    assert!(Dimension(2) < Dimension(3));
    assert!(!(Dimension(3) < Dimension(3)));
}

#[test]
fn corner_test_is_one_sided() {
    let a = rect(2, 2, 4, 4);
    let b = rect(3, 3, 2, 2);
    assert!(a.intersect(&b));
    assert!(!b.intersect(&a));
    assert!(a.intersect(&rect(6, 6, 1, 1)));
    assert!(!a.intersect(&rect(7, 2, 1, 1)));
    // A room that encloses another without its corner inside goes unnoticed.
    let big = rect(1, 1, 9, 9);
    assert!(!a.intersect(&big));
}

#[test]
fn center_halves_origin_plus_size() {
    assert_eq!(rect(2, 4, 6, 8).center(), pos(4, 6));
    assert_eq!(rect(3, 0, 4, 1).center(), pos(3, 0));
}

#[test]
fn grid_index_is_row_major() {
    let map = solid(5, 4);
    assert_eq!(map.grid_to_index(pos(2, 3)), 17);
    assert_eq!(map.grid_to_index(pos(0, 0)), 0);
    assert_eq!(map.grid_to_index(pos(4, 3)), 19);
}

#[test]
fn dimension_validation() {
    let err = create_simple_map(100, 64, 5, (1, 1)).err().unwrap();
    assert_eq!(err, "Invalid dimensions, we need to be divisable by 32");
    assert!(create_simple_map(96, 65, 5, (1, 1)).is_err());
    let map = create_simple_map(96, 64, 5, (1, 1)).ok().unwrap();
    assert_eq!(map.columns, 3);
    assert_eq!(map.rows, 2);
    assert_eq!(map.tiles.len(), 6);
    assert!(map.tiles.iter().all(|t| *t == TileType::Wall));
    assert!(create_map(100, 640, (1, 1)).is_err());
    assert!(create_map_with_rooms(96, 70, &Vec::new()).is_err());
}

#[test]
fn simple_map_border_obstacles_and_reserved_cell() {
    for _ in 0..20 {
        let map = create_simple_map(320, 256, 30, (3, 3)).ok().unwrap();
        assert_eq!((map.columns, map.rows), (10, 8));
        assert_eq!(map.tiles.len(), 80);
        for row in 0..8 {
            for col in 0..10 {
                let border = row == 0 || col == 0 || row == 7 || col == 9;
                if border {
                    assert!(tile(&map, col, row) == TileType::Wall);
                }
            }
        }
        let mut inner_walls = 0;
        for row in 1..7 {
            for col in 1..9 {
                if tile(&map, col, row) == TileType::Wall {
                    inner_walls += 1;
                }
            }
        }
        assert!(inner_walls <= 30);
        assert!(tile(&map, 3, 3) == TileType::Floor);
    }
    let empty = create_simple_map(320, 256, 0, (3, 3)).ok().unwrap();
    assert_eq!(empty.tiles.iter().filter(|t| **t == TileType::Wall).count(), 2 * 10 + 2 * 6);
}

#[test]
fn simple_map_from_given_obstacles() {
    let obstacles = vec![pos(2, 2), pos(3, 3), pos(2, 2), pos(4, 1)];
    let map = build_simple_map(192, 160, &obstacles, (3, 3)).ok().unwrap();
    assert_eq!((map.columns, map.rows), (6, 5));
    assert!(tile(&map, 2, 2) == TileType::Wall);
    assert!(tile(&map, 4, 1) == TileType::Wall);
    assert!(tile(&map, 3, 3) == TileType::Floor);
    assert!(tile(&map, 1, 1) == TileType::Floor);
    assert!(tile(&map, 0, 2) == TileType::Wall);
    assert!(tile(&map, 5, 4) == TileType::Wall);
    assert_eq!(map.tiles.iter().filter(|t| **t == TileType::Wall).count(), 18 + 2);
    assert!(build_simple_map(190, 160, &obstacles, (3, 3)).is_err());
}

#[test]
fn carving_a_room_twice_changes_nothing_more() {
    let mut once = solid(8, 6);
    add_room_to_map(rect(1, 2, 3, 2), &mut once);
    let mut twice = once.clone();
    add_room_to_map(rect(1, 2, 3, 2), &mut twice);
    assert!(once.tiles == twice.tiles);
    for row in 0..6 {
        for col in 0..8 {
            let inside = (1..4).contains(&col) && (2..4).contains(&row);
            let expected = if inside { TileType::Floor } else { TileType::Wall };
            assert!(tile(&once, col, row) == expected);
        }
    }
    assert_eq!(once.tiles.iter().filter(|t| **t == TileType::Floor).count(), 6);
}

#[test]
fn tunnels_carve_one_line() {
    let mut map = solid(6, 5);
    add_tunnel(Orientation::Horizontal, &pos(1, 2), Dimension(4), &mut map);
    add_tunnel(Orientation::Vertical, &pos(3, 0), Dimension(5), &mut map);
    for row in 0..5 {
        for col in 0..6 {
            let on_line = (row == 2 && (1..5).contains(&col)) || col == 3;
            let expected = if on_line { TileType::Floor } else { TileType::Wall };
            assert!(tile(&map, col, row) == expected);
        }
    }
}

#[test]
fn walkability_follows_tiles() {
    let mut map = solid(4, 3);
    add_room_to_map(rect(1, 1, 2, 1), &mut map);
    assert!(map.is_walkable(pos(1, 1)));
    assert!(map.is_walkable(pos(2, 1)));
    assert!(!map.is_walkable(pos(0, 0)));
    assert!(!map.is_walkable(pos(0, 3)));
    assert!(!map.is_walkable(pos(usize::MAX, usize::MAX)));
}

#[test]
fn overlapping_candidates_are_rejected_both_ways() {
    let mut map = solid(20, 20);
    let candidates = vec![
        rect(2, 2, 4, 4),
        rect(3, 3, 2, 2),
        rect(1, 1, 8, 8),
        rect(10, 10, 3, 3),
        rect(13, 2, 4, 4),
    ];
    let accepted = place_rooms(&candidates, &mut map);
    assert_eq!(accepted, vec![rect(2, 2, 4, 4), rect(10, 10, 3, 3), rect(13, 2, 4, 4)]);
    for a in &accepted {
        for b in &accepted {
            if a != b {
                assert!(!a.intersect(b));
            }
        }
    }
    assert_eq!(map.tiles.iter().filter(|t| **t == TileType::Floor).count(), 16 + 9 + 16);
}

#[test]
fn fixed_room_map() {
    let map = create_map_with_rooms(320, 320, &vec![rect(2, 3, 4, 2)]).ok().unwrap();
    assert_eq!((map.columns, map.rows), (10, 10));
    assert!(tile(&map, 2, 3) == TileType::Floor);
    assert!(tile(&map, 5, 4) == TileType::Floor);
    assert!(tile(&map, 6, 4) == TileType::Wall);
    assert!(tile(&map, 2, 5) == TileType::Wall);
    assert_eq!(map.tiles.iter().filter(|t| **t == TileType::Floor).count(), 8);
}

#[test]
fn random_room_map_keeps_off_the_border() {
    for _ in 0..20 {
        let map = create_map(640, 480, (1, 1)).ok().unwrap();
        assert_eq!((map.columns, map.rows), (20, 15));
        assert_eq!(map.tiles.len(), 300);
        let floors = map.tiles.iter().filter(|t| **t == TileType::Floor).count();
        assert!(floors >= 16);
        for row in 0..15 {
            for col in 0..20 {
                if row == 0 || col == 0 || row == 14 || col == 19 {
                    assert!(tile(&map, col, row) == TileType::Wall);
                }
            }
        }
    }
}

#[test]
fn wall_cells_in_row_major_order() {
    let mut map = solid(4, 3);
    add_room_to_map(rect(1, 1, 2, 1), &mut map);
    let cells = map.wall_cells();
    let expected = vec![
        pos(0, 0), pos(1, 0), pos(2, 0), pos(3, 0),
        pos(0, 1), pos(3, 1),
        pos(0, 2), pos(1, 2), pos(2, 2), pos(3, 2),
    ];
    assert_eq!(cells, expected);
    let empty = TileMap { rows: 0, columns: 0, tiles: Vec::new() };
    assert!(empty.wall_cells().is_empty());
}

#[test]
fn cell_centres() {
    assert_eq!(grid_to_center_pixels(pos(0, 0)), (16, 16));
    assert_eq!(grid_to_center_pixels(pos(10, 8)), (336, 272));
}
