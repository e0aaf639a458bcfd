use crowdsim::{Coord, MeshChunks, Terrain, CHUNK_SIZE};

fn c(x: i32, y: i32) -> Coord {
    Coord::new(x, y)
}

fn fresh_mesh_matches(t: &Terrain) -> bool {
    let fresh = MeshChunks::new(&t.tilemap, c(CHUNK_SIZE, CHUNK_SIZE));
    fresh.len() == t.mesh_chunks.len()
        && (0..fresh.len()).all(|i| fresh.chunk(i) == t.mesh_chunks.chunk(i) && !t.mesh_chunks.is_chunk_dirty(i))
}

#[test]
fn new_terrain_is_walled_and_needs_paths() {
    let t = Terrain::new(c(10, 6));
    assert!(t.repath_needed);
    assert_eq!(t.tilemap.size(), c(10, 6));
    assert!(t.tilemap.get(c(-1, 2)));
    assert!(!t.tilemap.get(c(5, 2)));
    assert_eq!(t.mesh_chunks.width(), 2);
    assert_eq!(t.mesh_chunks.len(), 2);
    assert!(fresh_mesh_matches(&t));
}

#[test]
fn set_wall_reports_change_and_requests_repath() {
    let mut t = Terrain::new(c(20, 20));
    t.repath_needed = false;
    assert!(!t.set_wall(c(3, 3), false));
    assert!(!t.repath_needed);
    assert!(t.set_wall(c(3, 3), true));
    assert!(t.repath_needed);
    assert!(t.tilemap.get(c(3, 3)));
    assert!(t.mesh_chunks.is_chunk_dirty(0));
    assert!(!t.mesh_chunks.is_chunk_dirty(1));
}

#[test]
fn set_wall_on_chunk_corner_marks_four_chunks() {
    let mut t = Terrain::new(c(20, 20));
    assert!(t.set_wall(c(8, 8), true));
    // chunks are 3 wide; (7..=9, 7..=9) touches chunks 0, 1, 3 and 4
    let dirty: Vec<usize> = (0..t.mesh_chunks.len()).filter(|&i| t.mesh_chunks.is_chunk_dirty(i)).collect();
    assert_eq!(dirty, vec![0, 1, 3, 4]);
}

#[test]
fn edits_then_rebuild_match_a_fresh_mesh() {
    let mut t = Terrain::new(c(20, 17));
    let edits = [
        (c(0, 0), true),
        (c(7, 7), true),
        (c(8, 7), true),
        (c(8, 8), true),
        (c(15, 16), true),
        (c(7, 7), false),
        (c(19, 3), true),
        (c(20, 5), false),
    ];
    for (tile, wall) in edits {
        t.set_wall(tile, wall);
        t.update_mesh();
        assert!(fresh_mesh_matches(&t));
    }
    for (tile, wall) in edits {
        t.set_wall(tile, !wall);
    }
    t.update_mesh();
    assert!(fresh_mesh_matches(&t));
}
