use crowdsim::{massage_waypoints, Coord, TileMap, Trail, Waypoint, TRAIL_LEN};

fn c(x: i32, y: i32) -> Coord {
    Coord::new(x, y)
}

#[test]
fn new_trail_remembers_start_everywhere() {
    let t = Trail::new(3u32);
    assert_eq!(t.prev_pos(), 3);
    assert_eq!(t.prev_prev_pos(), 3);
    assert!(t.points().iter().all(|&p| p == 3));
    assert_eq!(t.points().len(), TRAIL_LEN);
}

#[test]
fn logging_shifts_history() {
    let mut t = Trail::new(0u32);
    t.log_position(1);
    assert_eq!(t.prev_pos(), 1);
    assert_eq!(t.prev_prev_pos(), 0);
    t.log_position(2);
    assert_eq!(t.prev_pos(), 2);
    assert_eq!(t.prev_prev_pos(), 1);
}

#[test]
fn trail_wraps_around_and_keeps_last_entries() {
    let mut t = Trail::new(0u32);
    for i in 1..=45u32 {
        t.log_position(i);
    }
    assert_eq!(t.prev_pos(), 45);
    assert_eq!(t.prev_prev_pos(), 44);
    let mut seen: Vec<u32> = t.points().to_vec();
    seen.sort();
    assert_eq!(seen, (26..=45).collect::<Vec<u32>>());
}

#[test]
fn empty_raw_path_gives_no_waypoints() {
    let m = TileMap::new(c(4, 4));
    assert!(massage_waypoints(&m, &[]).is_empty());
}

#[test]
fn single_tile_path_gives_its_center() {
    let m = TileMap::new(c(4, 4));
    assert_eq!(massage_waypoints(&m, &[c(2, 1)]), vec![Waypoint::Center(c(2, 1))]);
}

#[test]
fn straight_path_visits_every_tile() {
    let m = TileMap::new(c(6, 3));
    let w = massage_waypoints(&m, &[c(0, 1), c(3, 1), c(3, 0)]);
    assert_eq!(
        w,
        vec![
            Waypoint::Center(c(0, 1)),
            Waypoint::Center(c(1, 1)),
            Waypoint::Center(c(2, 1)),
            Waypoint::Center(c(3, 1)),
            Waypoint::Center(c(3, 0)),
        ]
    );
}

#[test]
fn diagonal_step_past_wall_adds_clearing_point() {
    let mut m = TileMap::new(c(5, 5));
    // wall to the x side of the first diagonal step out of (1, 1)
    m.set(c(2, 1), true);
    // wall to the y side of the step out of (2, 2)
    m.set(c(2, 3), true);
    let w = massage_waypoints(&m, &[c(1, 1), c(3, 3)]);
    assert_eq!(
        w,
        vec![
            Waypoint::Center(c(1, 1)),
            Waypoint::WideOfX { tile: c(1, 1), dx: 1, dy: 1 },
            Waypoint::Center(c(2, 2)),
            Waypoint::WideOfY { tile: c(2, 2), dx: 1, dy: 1 },
            Waypoint::Center(c(3, 3)),
        ]
    );
}

#[test]
fn diagonal_step_with_only_diagonal_wall_adds_nothing() {
    let mut m = TileMap::new(c(4, 4));
    m.set(c(0, 0), true);
    let w = massage_waypoints(&m, &[c(1, 1), c(0, 0)]);
    assert_eq!(w, vec![Waypoint::Center(c(1, 1)), Waypoint::Center(c(0, 0))]);
}

#[test]
fn repeated_tile_in_raw_path_adds_nothing() {
    let m = TileMap::new(c(3, 3));
    let w = massage_waypoints(&m, &[c(1, 1), c(1, 1), c(2, 1)]);
    assert_eq!(w, vec![Waypoint::Center(c(1, 1)), Waypoint::Center(c(2, 1))]);
}

#[test]
fn straight_path_outside_the_map_needs_no_lookups() {
    let m = TileMap::new(c(2, 2));
    let w = massage_waypoints(&m, &[c(-5, 100), c(-5, 102)]);
    assert_eq!(
        w,
        vec![
            Waypoint::Center(c(-5, 100)),
            Waypoint::Center(c(-5, 101)),
            Waypoint::Center(c(-5, 102)),
        ]
    );
}

#[test]
fn diagonal_step_onto_the_border_sees_border_walls() {
    let m = TileMap::new(c(3, 3));
    let w = massage_waypoints(&m, &[c(0, 0), c(-1, -1)]);
    assert_eq!(
        w,
        vec![
            Waypoint::Center(c(0, 0)),
            Waypoint::WideOfX { tile: c(0, 0), dx: -1, dy: -1 },
            Waypoint::Center(c(-1, -1)),
        ]
    );
}
