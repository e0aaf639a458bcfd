use crowdsim::{Coord, TileMap};

fn c(x: i32, y: i32) -> Coord {
    Coord::new(x, y)
}

#[test]
fn new_map_has_wall_border_and_free_inside() {
    let m = TileMap::new(c(4, 3));
    assert_eq!(m.size(), c(4, 3));
    for x in -1..=4 {
        for y in -1..=3 {
            let border = x == -1 || x == 4 || y == -1 || y == 3;
            assert_eq!(m.get(c(x, y)), border, "tile ({}, {})", x, y);
        }
    }
}

#[test]
fn empty_map_is_all_border() {
    let m = TileMap::new(c(0, 0));
    assert!(m.get(c(-1, -1)));
    assert!(m.get(c(0, 0)));
    assert!(m.get(c(-1, 0)));
    assert!(m.get(c(0, -1)));
}

#[test]
fn set_reports_change_and_updates_only_that_tile() {
    let mut m = TileMap::new(c(3, 3));
    assert!(m.set(c(1, 1), true));
    assert!(m.get(c(1, 1)));
    // setting the same state again changes nothing
    assert!(!m.set(c(1, 1), true));
    for x in -1..=3 {
        for y in -1..=3 {
            let expected = x == -1 || x == 3 || y == -1 || y == 3 || (x == 1 && y == 1);
            assert_eq!(m.get(c(x, y)), expected);
        }
    }
    assert!(m.set(c(1, 1), false));
    assert!(!m.get(c(1, 1)));
}

#[test]
fn border_tiles_can_be_freed() {
    let mut m = TileMap::new(c(2, 2));
    assert!(m.set(c(2, 0), false));
    assert!(!m.get(c(2, 0)));
    assert!(m.get(c(2, 1)));
}
