pub mod bot;

use vstd::prelude::*;

use crate::coord::Coord;
use crate::meshchunks::{chunk_count_along, differ_only_at, MeshChunks};
use crate::tilemap::{in_padded, lemma_set_effect, on_border, TileMap};

verus! {

/// Side length, in tiles, of the square chunks the wall mesh is cut into.
pub const CHUNK_SIZE: i32 = 8;

/// The static part of the world: the wall map, its mesh cut into chunks,
/// and whether paths have to be recomputed because walls changed.
pub struct Terrain {
    pub tilemap: TileMap,
    pub mesh_chunks: MeshChunks,
    pub repath_needed: bool,
}

impl Terrain {
    /// The map and the mesh are well formed, made for the same size, and every
    /// chunk not marked dirty shows the current map.
    pub open spec fn wf(&self) -> bool {
        &&& self.tilemap.wf()
        &&& self.mesh_chunks.wf()
        &&& self.mesh_chunks.map_dims() == self.tilemap.dims()
        &&& self.mesh_chunks.chunk_dims() == (Coord { x: CHUNK_SIZE, y: CHUNK_SIZE })
        &&& self.mesh_chunks.up_to_date(self.tilemap)
    }

    /// A map of the given size with walls all around, its mesh fully built,
    /// and paths to be computed.
    pub fn new(size: Coord) -> (t: Terrain)
        requires
            0 <= size.x,
            0 <= size.y,
            (size.x + 2) * (size.y + 2) <= i32::MAX,
        ensures
            t.wf(),
            t.tilemap.dims() == size,
            forall|x: int, y: int|
                in_padded(size, x, y) ==> #[trigger] t.tilemap.wall_at(x, y) == on_border(
                    size,
                    x,
                    y,
                ),
            t.mesh_chunks.matches(t.tilemap),
            t.repath_needed,
    {
        let tilemap = TileMap::new(size);
        proof {
            lemma_chunk_span(size.x as int, size.y as int);
            lemma_chunk_span(size.y as int, size.x as int);
        }
        let mesh_chunks = MeshChunks::new(&tilemap, Coord { x: CHUNK_SIZE, y: CHUNK_SIZE });
        Terrain { tilemap, mesh_chunks, repath_needed: true }
    }

    /// Makes `tile` a wall or frees it. When its state changes, paths are to
    /// be recomputed and the chunks around it are marked for rebuilding.
    /// Returns whether the state changed.
    pub fn set_wall(&mut self, tile: Coord, wall: bool) -> (changed: bool)
        requires
            old(self).wf(),
            old(self).tilemap.addressable(tile),
            old(self).tilemap.is_wall(tile) != wall ==> {
                &&& old(self).mesh_chunks.mark_in_bounds(tile)
                &&& i32::MIN < tile.x < i32::MAX
                &&& i32::MIN < tile.y < i32::MAX
            },
        ensures
            final(self).tilemap.wf(),
            final(self).mesh_chunks.wf(),
            final(self).tilemap.dims() == old(self).tilemap.dims(),
            final(self).mesh_chunks.map_dims() == old(self).mesh_chunks.map_dims(),
            final(self).mesh_chunks.chunk_dims() == old(self).mesh_chunks.chunk_dims(),
            final(self).mesh_chunks.grid_width() == old(self).mesh_chunks.grid_width(),
            final(self).mesh_chunks.num_chunks() == old(self).mesh_chunks.num_chunks(),
            final(self).tilemap.cells() == old(self).tilemap.cells().update(
                old(self).tilemap.slot(tile),
                wall,
            ),
            changed == (old(self).tilemap.is_wall(tile) != wall),
            final(self).repath_needed == (old(self).repath_needed || changed),
            forall|i: int|
                0 <= i < old(self).mesh_chunks.num_chunks() ==> #[trigger] final(self).mesh_chunks.chunk_pieces(i) == old(self).mesh_chunks.chunk_pieces(i),
            forall|i: int|
                0 <= i < old(self).mesh_chunks.num_chunks() ==> #[trigger] final(self).mesh_chunks.is_dirty(i) == (old(self).mesh_chunks.is_dirty(i) || (changed
                    && old(self).mesh_chunks.marked_by(tile, i))),
            in_padded(old(self).tilemap.dims(), tile.x as int, tile.y as int) ==> final(self).wf(),
    {
        let ghost before = *self;
        let changed = self.tilemap.set(tile, wall);
        if changed {
            self.repath_needed = true;
            self.mesh_chunks.mark_dirty(tile);
        }
        proof {
            if in_padded(before.tilemap.dims(), tile.x as int, tile.y as int) {
                lemma_set_effect(before.tilemap, self.tilemap, tile, wall);
                assert(differ_only_at(before.tilemap, self.tilemap, tile));
                if changed {
                    before.mesh_chunks.lemma_marking_keeps_up_to_date(
                        self.mesh_chunks,
                        before.tilemap,
                        self.tilemap,
                        tile,
                    );
                }
            }
        }
        changed
    }

    /// Rebuilds the dirty chunks of the mesh from the map.
    pub fn update_mesh(&mut self)
        requires
            old(self).tilemap.wf(),
            old(self).mesh_chunks.wf(),
        ensures
            final(self).tilemap == old(self).tilemap,
            final(self).repath_needed == old(self).repath_needed,
            final(self).mesh_chunks.wf(),
            final(self).mesh_chunks.map_dims() == old(self).mesh_chunks.map_dims(),
            final(self).mesh_chunks.chunk_dims() == old(self).mesh_chunks.chunk_dims(),
            final(self).mesh_chunks.num_chunks() == old(self).mesh_chunks.num_chunks(),
            final(self).mesh_chunks.grid_width() == old(self).mesh_chunks.grid_width(),
            forall|i: int|
                0 <= i < old(self).mesh_chunks.num_chunks() ==> !#[trigger] final(self).mesh_chunks.is_dirty(i),
            forall|i: int|
                0 <= i < old(self).mesh_chunks.num_chunks() ==> #[trigger] final(self).mesh_chunks.chunk_pieces(i) == (if old(self).mesh_chunks.is_dirty(i) {
                    old(self).mesh_chunks.expected_pieces(old(self).tilemap, i)
                } else {
                    old(self).mesh_chunks.chunk_pieces(i)
                }),
            old(self).mesh_chunks.up_to_date(old(self).tilemap) ==> final(self).mesh_chunks.matches(final(self).tilemap),
    {
        self.mesh_chunks.update(&self.tilemap);
    }
}

/// The chunks along one axis of a map of the given size span at most
/// `i32::MAX` tiles.
proof fn lemma_chunk_span(m: int, other: int)
    requires
        0 <= m,
        0 <= other,
        (m + 2) * (other + 2) <= i32::MAX,
    ensures
        chunk_count_along(m, CHUNK_SIZE as int) * CHUNK_SIZE <= i32::MAX,
{
    assert(m + 8 <= i32::MAX) by (nonlinear_arith)
        requires
            0 <= m,
            0 <= other,
            (m + 2) * (other + 2) <= i32::MAX,
    ;
    if m >= 1 {
        assert(((m - 1) / 8) * 8 <= m - 1);
    }
}

} // verus!
