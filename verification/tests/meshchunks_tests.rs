use crowdsim::{classify_corner, Coord, CornerKind, CornerPiece, MeshChunks, TileMap};

fn c(x: i32, y: i32) -> Coord {
    Coord::new(x, y)
}

#[test]
fn corner_classification_table() {
    assert_eq!(classify_corner(false, false, false), CornerKind::RoundedCorner);
    assert_eq!(classify_corner(true, false, false), CornerKind::BorderOnYEdge);
    assert_eq!(classify_corner(true, false, true), CornerKind::BorderOnYEdge);
    assert_eq!(classify_corner(false, true, false), CornerKind::BorderOnXEdge);
    assert_eq!(classify_corner(false, true, true), CornerKind::BorderOnXEdge);
    assert_eq!(classify_corner(false, false, true), CornerKind::BorderOnBothEdges);
    assert_eq!(classify_corner(true, true, false), CornerKind::InnerCorner);
    assert_eq!(classify_corner(true, true, true), CornerKind::NoBorder);
}

#[test]
fn chunk_grid_covers_the_map() {
    let m = TileMap::new(c(256, 256));
    let mc = MeshChunks::new(&m, c(8, 8));
    assert_eq!(mc.width(), 32);
    assert_eq!(mc.len(), 1024);
    let m = TileMap::new(c(9, 3));
    let mc = MeshChunks::new(&m, c(4, 2));
    assert_eq!(mc.width(), 3);
    assert_eq!(mc.len(), 6);
    let m = TileMap::new(c(0, 0));
    let mc = MeshChunks::new(&m, c(8, 8));
    assert_eq!(mc.width(), 1);
    assert_eq!(mc.len(), 1);
    let mc = MeshChunks::new(&m, c(1, 1));
    assert_eq!(mc.width(), 0);
    assert_eq!(mc.len(), 0);
}

#[test]
fn open_map_has_no_pieces() {
    let m = TileMap::new(c(5, 5));
    let mc = MeshChunks::new(&m, c(2, 2));
    for i in 0..mc.len() {
        assert!(mc.chunk(i).is_empty());
        assert!(!mc.is_chunk_dirty(i));
    }
}

#[test]
fn wall_tile_gets_four_classified_quarters() {
    let mut m = TileMap::new(c(3, 3));
    m.set(c(0, 0), true);
    let mc = MeshChunks::new(&m, c(2, 2));
    assert_eq!(mc.len(), 4);
    let t = c(0, 0);
    assert_eq!(
        mc.chunk(0),
        &vec![
            CornerPiece { tile: t, dx: -1, dy: -1, kind: CornerKind::NoBorder },
            CornerPiece { tile: t, dx: -1, dy: 1, kind: CornerKind::BorderOnYEdge },
            CornerPiece { tile: t, dx: 1, dy: -1, kind: CornerKind::BorderOnXEdge },
            CornerPiece { tile: t, dx: 1, dy: 1, kind: CornerKind::RoundedCorner },
        ]
    );
    for i in 1..4 {
        assert!(mc.chunk(i).is_empty());
    }
}

#[test]
fn chunk_lists_tiles_column_by_column() {
    let mut m = TileMap::new(c(4, 4));
    m.set(c(1, 0), true);
    m.set(c(0, 1), true);
    let mc = MeshChunks::new(&m, c(4, 4));
    let tiles: Vec<Coord> = mc.chunk(0).iter().map(|p| p.tile).collect();
    assert_eq!(tiles, vec![c(0, 1), c(0, 1), c(0, 1), c(0, 1), c(1, 0), c(1, 0), c(1, 0), c(1, 0)]);
    // (0, 1) towards (+1, -1): x side (1, 1) free, y side (0, 0) free, diagonal (1, 0) wall
    assert_eq!(mc.chunk(0)[2].kind, CornerKind::BorderOnBothEdges);
}

#[test]
fn mark_dirty_marks_chunks_around_tile() {
    let m = TileMap::new(c(3, 3));
    let mut mc = MeshChunks::new(&m, c(2, 2));
    mc.mark_dirty(c(0, 0));
    assert!(mc.is_chunk_dirty(0));
    assert!(!mc.is_chunk_dirty(1));
    assert!(!mc.is_chunk_dirty(2));
    assert!(!mc.is_chunk_dirty(3));
    mc.mark_dirty(c(1, 1));
    for i in 0..4 {
        assert!(mc.is_chunk_dirty(i));
    }
}

#[test]
fn mark_dirty_of_border_tile_marks_neighbouring_chunk() {
    let m = TileMap::new(c(4, 4));
    let mut mc = MeshChunks::new(&m, c(2, 2));
    mc.mark_dirty(c(-1, 3));
    // only in-map neighbour tiles (0, 2) and (0, 3) matter: chunk (0, 1)
    assert_eq!((0..4).map(|i| mc.is_chunk_dirty(i)).collect::<Vec<_>>(), vec![false, false, true, false]);
}

#[test]
fn update_rebuilds_dirty_chunks_only() {
    let mut m = TileMap::new(c(4, 4));
    let mut mc = MeshChunks::new(&m, c(2, 2));
    m.set(c(3, 3), true);
    // chunk 3 holds (3, 3) but is not marked: it keeps its old (empty) mesh
    mc.update(&m);
    assert!(mc.chunk(3).is_empty());
    mc.mark_dirty(c(3, 3));
    assert!(mc.is_chunk_dirty(3));
    mc.update(&m);
    assert!(!mc.is_chunk_dirty(3));
    assert_eq!(mc.chunk(3).len(), 4);
    assert!(mc.chunk(0).is_empty());
}

#[test]
fn mark_dirty_on_empty_map_marks_chunk_zero() {
    let m = TileMap::new(c(0, 0));
    let mut mc = MeshChunks::new(&m, c(8, 8));
    assert!(mc.can_mark_around(c(0, 0)));
    mc.mark_dirty(c(0, 0));
    assert!(mc.is_chunk_dirty(0));
    // away from (-1, -1) no neighbour survives clamping to the empty map
    let mut mc = MeshChunks::new(&m, c(8, 8));
    assert!(mc.can_mark_around(c(5, 5)));
    mc.mark_dirty(c(5, 5));
    assert!(!mc.is_chunk_dirty(0));
}

#[test]
fn marking_on_empty_map_with_unit_chunks_has_no_chunk() {
    let m = TileMap::new(c(0, 0));
    let mc = MeshChunks::new(&m, c(1, 1));
    assert_eq!(mc.len(), 0);
    assert!(!mc.can_mark_around(c(0, 0)));
    assert!(mc.can_mark_around(c(7, 7)));
}

#[test]
fn can_mark_around_any_tile_of_a_real_map() {
    let m = TileMap::new(c(5, 3));
    let mc = MeshChunks::new(&m, c(2, 2));
    for x in -3..8 {
        for y in -3..6 {
            assert!(mc.can_mark_around(c(x, y)));
        }
    }
}

#[test]
fn chunk_holds_four_quarters_per_wall_tile() {
    let mut m = TileMap::new(c(6, 6));
    let walls = [c(0, 0), c(1, 2), c(2, 2), c(4, 5)];
    for w in walls {
        m.set(w, true);
    }
    let mc = MeshChunks::new(&m, c(3, 3));
    // chunks: 0 = x 0..3, y 0..3; 1 = x 3..6, y 0..3; 2 = x 0..3, y 3..6; 3 = x 3..6, y 3..6
    assert_eq!(mc.chunk(0).len(), 12);
    assert!(mc.chunk(1).is_empty());
    assert!(mc.chunk(2).is_empty());
    assert_eq!(mc.chunk(3).len(), 4);
    for i in 0..4 {
        for p in mc.chunk(i) {
            assert!(walls.contains(&p.tile));
            assert!(p.dx == 1 || p.dx == -1);
            assert!(p.dy == 1 || p.dy == -1);
        }
    }
}
