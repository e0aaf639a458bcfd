use vstd::prelude::*;

use crate::coord::{trunc_div, Coord};
use crate::tilemap::{in_padded, TileMap};

verus! {

/// How one quarter of a wall tile is drawn, decided by the three tiles that
/// touch that quarter: the side neighbour along x, the side neighbour along y
/// and the diagonal neighbour.
#[derive(Clone, Copy, Debug, PartialEq, Eq, Structural)]
pub enum CornerKind {
    /// No neighbour is a wall: a rounded corner.
    RoundedCorner,
    /// Only the x neighbour is a wall (the diagonal may be): border along the y edge.
    BorderOnYEdge,
    /// Only the y neighbour is a wall (the diagonal may be): border along the x edge.
    BorderOnXEdge,
    /// Only the diagonal neighbour is a wall: border on both edges.
    BorderOnBothEdges,
    /// Both side neighbours are walls but not the diagonal: an inner corner.
    InnerCorner,
    /// All three neighbours are walls: no border at all.
    NoBorder,
}

/// One quarter of a wall tile: the tile, the quarter's direction
/// (`dx`, `dy` each `-1` or `1`) and its shape.
#[derive(Clone, Copy, Debug, PartialEq, Eq, Structural)]
pub struct CornerPiece {
    pub tile: Coord,
    pub dx: i32,
    pub dy: i32,
    pub kind: CornerKind,
}

/// The shape of a quarter given whether its x, y and diagonal neighbours are walls.
pub open spec fn corner_kind(gx: bool, gy: bool, gxy: bool) -> CornerKind {
    if gx {
        if gy {
            if gxy {
                CornerKind::NoBorder
            } else {
                CornerKind::InnerCorner
            }
        } else {
            CornerKind::BorderOnYEdge
        }
    } else if gy {
        CornerKind::BorderOnXEdge
    } else if gxy {
        CornerKind::BorderOnBothEdges
    } else {
        CornerKind::RoundedCorner
    }
}

/// The shape a quarter must take, by case on its neighbours: all three walls,
/// no border; both sides but not the diagonal, an inner corner; the x side
/// alone, a border on the y edge; the y side alone, a border on the x edge;
/// the diagonal alone, borders on both edges; none, a rounded corner.
pub open spec fn shape_from_walls(gx: bool, gy: bool, gxy: bool) -> CornerKind {
    if gx && gy && gxy {
        CornerKind::NoBorder
    } else if gx && gy && !gxy {
        CornerKind::InnerCorner
    } else if gx && !gy {
        CornerKind::BorderOnYEdge
    } else if !gx && gy {
        CornerKind::BorderOnXEdge
    } else if gxy {
        CornerKind::BorderOnBothEdges
    } else {
        CornerKind::RoundedCorner
    }
}

/// Piece `p` is a quarter of a wall tile, pointing diagonally, and shaped by
/// the walls beside it, read from the map: with `gx`, `gy` and `gxy` the
/// walls next to the quarter along x, along y and diagonally, all three give
/// no border, both sides without the diagonal an inner corner, the x side
/// alone a border on the y edge, the y side alone a border on the x edge,
/// the diagonal alone borders on both edges, and none a rounded corner.
pub open spec fn shaped_by_walls(tm: TileMap, p: CornerPiece) -> bool {
    let x = p.tile.x as int;
    let y = p.tile.y as int;
    let gx = tm.wall_at(x + p.dx, y);
    let gy = tm.wall_at(x, y + p.dy);
    let gxy = tm.wall_at(x + p.dx, y + p.dy);
    &&& tm.wall_at(x, y)
    &&& (p.dx == -1 || p.dx == 1)
    &&& (p.dy == -1 || p.dy == 1)
    &&& (gx && gy && gxy ==> p.kind == CornerKind::NoBorder)
    &&& (gx && gy && !gxy ==> p.kind == CornerKind::InnerCorner)
    &&& (gx && !gy ==> p.kind == CornerKind::BorderOnYEdge)
    &&& (!gx && gy ==> p.kind == CornerKind::BorderOnXEdge)
    &&& (!gx && !gy && gxy ==> p.kind == CornerKind::BorderOnBothEdges)
    &&& (!gx && !gy && !gxy ==> p.kind == CornerKind::RoundedCorner)
}

/// The quarter of wall tile `(x, y)` in direction `(dx, dy)`.
pub open spec fn corner_piece(tm: TileMap, x: int, y: int, dx: int, dy: int) -> CornerPiece {
    CornerPiece {
        tile: Coord { x: x as i32, y: y as i32 },
        dx: dx as i32,
        dy: dy as i32,
        kind: corner_kind(tm.wall_at(x + dx, y), tm.wall_at(x, y + dy), tm.wall_at(x + dx, y + dy)),
    }
}

/// The four quarters of tile `(x, y)` if it is a wall, nothing otherwise.
pub open spec fn tile_pieces(tm: TileMap, x: int, y: int) -> Seq<CornerPiece> {
    if tm.wall_at(x, y) {
        seq![
            corner_piece(tm, x, y, -1, -1),
            corner_piece(tm, x, y, -1, 1),
            corner_piece(tm, x, y, 1, -1),
            corner_piece(tm, x, y, 1, 1),
        ]
    } else {
        seq![]
    }
}

/// The pieces of tiles `(x, y0) .. (x, y1 - 1)`, in increasing `y`.
pub open spec fn column_pieces(tm: TileMap, x: int, y0: int, y1: int) -> Seq<CornerPiece>
    decreases y1 - y0,
{
    if y1 <= y0 {
        seq![]
    } else {
        column_pieces(tm, x, y0, y1 - 1) + tile_pieces(tm, x, y1 - 1)
    }
}

/// The pieces of the tiles with `x0 <= x < x1` and `y0 <= y < y1`, column by column.
pub open spec fn rect_pieces(tm: TileMap, x0: int, x1: int, y0: int, y1: int) -> Seq<CornerPiece>
    decreases x1 - x0,
{
    if x1 <= x0 {
        seq![]
    } else {
        rect_pieces(tm, x0, x1 - 1, y0, y1) + column_pieces(tm, x1 - 1, y0, y1)
    }
}

/// The number of wall tiles `(x, y0) .. (x, y1 - 1)`.
pub open spec fn column_walls(tm: TileMap, x: int, y0: int, y1: int) -> nat
    decreases y1 - y0,
{
    if y1 <= y0 {
        0
    } else {
        column_walls(tm, x, y0, y1 - 1) + (if tm.wall_at(x, y1 - 1) {
            1nat
        } else {
            0nat
        })
    }
}

/// The number of wall tiles with `x0 <= x < x1` and `y0 <= y < y1`.
pub open spec fn rect_walls(tm: TileMap, x0: int, x1: int, y0: int, y1: int) -> nat
    decreases x1 - x0,
{
    if x1 <= x0 {
        0
    } else {
        rect_walls(tm, x0, x1 - 1, y0, y1) + column_walls(tm, x1 - 1, y0, y1)
    }
}

/// Piece `p` is one quarter of wall tile `(x, y)`, shaped by `tm`.
pub open spec fn quarter_of_wall(tm: TileMap, p: CornerPiece, x: int, y: int) -> bool {
    &&& p.tile.x == x
    &&& p.tile.y == y
    &&& tm.wall_at(x, y)
    &&& (p.dx == -1 || p.dx == 1)
    &&& (p.dy == -1 || p.dy == 1)
    &&& p == corner_piece(tm, x, y, p.dx as int, p.dy as int)
}

/// Direction of the quarter at position `k` of a run: `-1` for the first
/// two, `1` for the last two along x; alternating `-1`, `1` along y.
pub open spec fn run_dx(k: int) -> i32 {
    if k % 4 < 2 {
        -1i32
    } else {
        1i32
    }
}

pub open spec fn run_dy(k: int) -> i32 {
    if k % 2 == 0 {
        -1i32
    } else {
        1i32
    }
}

/// Piece `k` of `s` has the direction its place in a run of four calls for,
/// and, unless it starts a run, belongs to the same tile as the piece before.
pub open spec fn run_ok(s: Seq<CornerPiece>, k: int) -> bool {
    &&& s[k].dx == run_dx(k)
    &&& s[k].dy == run_dy(k)
    &&& k % 4 != 0 ==> s[k].tile == s[k - 1].tile
}

/// Pieces come in runs of four, one run per wall tile, each run holding the
/// quarters towards `(-1, -1)`, `(-1, 1)`, `(1, -1)` and `(1, 1)` in that order.
pub open spec fn in_quarter_runs(s: Seq<CornerPiece>) -> bool {
    &&& s.len() % 4 == 0
    &&& forall|k: int| 0 <= k < s.len() ==> #[trigger] run_ok(s, k)
}

proof fn lemma_mod_shift(m: int, j: int)
    requires
        m % 4 == 0,
        0 <= m,
        0 <= j,
    ensures
        (m + j) % 4 == j % 4,
        (m + j) % 2 == j % 2,
{
    vstd::arithmetic::div_mod::lemma_fundamental_div_mod(m, 4);
    let q = m / 4;
    vstd::arithmetic::div_mod::lemma_mod_multiples_vanish(q, j, 4);
    vstd::arithmetic::div_mod::lemma_mod_multiples_vanish(2 * q, j, 2);
    assert(4 * q + j == m + j);
    assert(2 * (2 * q) + j == m + j);
}

proof fn lemma_run_ok_concat_at(a: Seq<CornerPiece>, b: Seq<CornerPiece>, k: int)
    requires
        in_quarter_runs(a),
        in_quarter_runs(b),
        0 <= k < a.len() + b.len(),
    ensures
        run_ok(a + b, k),
{
    let c = a + b;
    if k < a.len() {
        assert(run_ok(a, k));
        assert(c[k] == a[k]);
        if k % 4 != 0 {
            assert(c[k - 1] == a[k - 1]);
        }
    } else {
        let j = k - a.len();
        assert(run_ok(b, j));
        assert(c[k] == b[j]);
        lemma_mod_shift(a.len() as int, j);
        assert(run_dx(k) == run_dx(j));
        assert(run_dy(k) == run_dy(j));
        if k % 4 != 0 {
            assert(j % 4 != 0);
            assert(j >= 1);
            assert(c[k - 1] == b[j - 1]);
        }
    }
}

proof fn lemma_runs_concat(a: Seq<CornerPiece>, b: Seq<CornerPiece>)
    requires
        in_quarter_runs(a),
        in_quarter_runs(b),
    ensures
        in_quarter_runs(a + b),
{
    lemma_mod_shift(a.len() as int, b.len() as int);
    assert forall|k: int| 0 <= k < (a + b).len() implies #[trigger] run_ok(a + b, k) by {
        lemma_run_ok_concat_at(a, b, k);
    }
}

/// The pieces of every column and rectangle of tiles come in runs of four
/// quarters, one run per wall tile, in a fixed order of directions.
pub proof fn lemma_rect_quarter_runs(tm: TileMap, x0: int, x1: int, y0: int, y1: int)
    ensures
        in_quarter_runs(rect_pieces(tm, x0, x1, y0, y1)),
    decreases x1 - x0,
{
    if x1 > x0 {
        lemma_rect_quarter_runs(tm, x0, x1 - 1, y0, y1);
        lemma_column_quarter_runs(tm, x1 - 1, y0, y1);
        lemma_runs_concat(rect_pieces(tm, x0, x1 - 1, y0, y1), column_pieces(tm, x1 - 1, y0, y1));
    } else {
        assert(rect_pieces(tm, x0, x1, y0, y1).len() == 0);
    }
}

proof fn lemma_column_quarter_runs(tm: TileMap, x: int, y0: int, y1: int)
    ensures
        in_quarter_runs(column_pieces(tm, x, y0, y1)),
    decreases y1 - y0,
{
    if y1 > y0 {
        lemma_column_quarter_runs(tm, x, y0, y1 - 1);
        let t = tile_pieces(tm, x, y1 - 1);
        assert(in_quarter_runs(t)) by {
            if tm.wall_at(x, y1 - 1) {
                assert(t.len() == 4);
                assert(run_ok(t, 0));
                assert(run_ok(t, 1));
                assert(run_ok(t, 2));
                assert(run_ok(t, 3));
                assert forall|k: int| 0 <= k < t.len() implies #[trigger] run_ok(t, k) by {
                    assert(k == 0 || k == 1 || k == 2 || k == 3);
                }
            }
        }
        lemma_runs_concat(column_pieces(tm, x, y0, y1 - 1), t);
    } else {
        assert(column_pieces(tm, x, y0, y1).len() == 0);
    }
}

/// A column has four pieces per wall tile, every piece is a quarter of one
/// of its wall tiles, and there are none exactly when it holds no wall.
pub proof fn lemma_column_pieces_shape(tm: TileMap, x: int, y0: int, y1: int)
    requires
        i32::MIN <= x <= i32::MAX,
        i32::MIN <= y0,
        y1 <= i32::MAX + 1,
    ensures
        column_pieces(tm, x, y0, y1).len() == 4 * column_walls(tm, x, y0, y1),
        column_walls(tm, x, y0, y1) == 0 <==> forall|y: int| y0 <= y < y1 ==> !#[trigger] tm.wall_at(x, y),
        forall|k: int|
            0 <= k < column_pieces(tm, x, y0, y1).len() ==> y0 <= (#[trigger] column_pieces(
                tm,
                x,
                y0,
                y1,
            )[k]).tile.y < y1 && quarter_of_wall(tm, column_pieces(tm, x, y0, y1)[k], x, column_pieces(tm, x, y0, y1)[k].tile.y as int),
    decreases y1 - y0,
{
    if y1 > y0 {
        lemma_column_pieces_shape(tm, x, y0, y1 - 1);
        let prev = column_pieces(tm, x, y0, y1 - 1);
        let last = tile_pieces(tm, x, y1 - 1);
        let all = column_pieces(tm, x, y0, y1);
        assert(all == prev + last);
        assert forall|k: int| 0 <= k < all.len() implies y0 <= (#[trigger] all[k]).tile.y < y1
            && quarter_of_wall(tm, all[k], x, all[k].tile.y as int) by {
            if k < prev.len() {
                assert(all[k] == prev[k]);
            } else {
                assert(all[k] == last[k - prev.len()]);
            }
        }
        if column_walls(tm, x, y0, y1) == 0 {
            assert forall|y: int| y0 <= y < y1 implies !#[trigger] tm.wall_at(x, y) by {
                if y < y1 - 1 {
                } else {
                }
            }
        }
    }
}

/// A rectangle has four pieces per wall tile, every piece is a quarter of one
/// of its wall tiles, and there are none exactly when it holds no wall.
pub proof fn lemma_rect_pieces_shape(tm: TileMap, x0: int, x1: int, y0: int, y1: int)
    requires
        i32::MIN <= x0,
        x1 <= i32::MAX + 1,
        i32::MIN <= y0,
        y1 <= i32::MAX + 1,
    ensures
        rect_pieces(tm, x0, x1, y0, y1).len() == 4 * rect_walls(tm, x0, x1, y0, y1),
        rect_walls(tm, x0, x1, y0, y1) == 0 <==> forall|x: int, y: int|
            x0 <= x < x1 && y0 <= y < y1 ==> !#[trigger] tm.wall_at(x, y),
        forall|k: int|
            0 <= k < rect_pieces(tm, x0, x1, y0, y1).len() ==> {
                let p = #[trigger] rect_pieces(tm, x0, x1, y0, y1)[k];
                &&& x0 <= p.tile.x < x1
                &&& y0 <= p.tile.y < y1
                &&& quarter_of_wall(tm, p, p.tile.x as int, p.tile.y as int)
            },
    decreases x1 - x0,
{
    if x1 > x0 {
        lemma_rect_pieces_shape(tm, x0, x1 - 1, y0, y1);
        lemma_column_pieces_shape(tm, x1 - 1, y0, y1);
        let prev = rect_pieces(tm, x0, x1 - 1, y0, y1);
        let col = column_pieces(tm, x1 - 1, y0, y1);
        let all = rect_pieces(tm, x0, x1, y0, y1);
        assert(all == prev + col);
        assert forall|k: int| 0 <= k < all.len() implies {
            let p = #[trigger] all[k];
            &&& x0 <= p.tile.x < x1
            &&& y0 <= p.tile.y < y1
            &&& quarter_of_wall(tm, p, p.tile.x as int, p.tile.y as int)
        } by {
            if k < prev.len() {
                assert(all[k] == prev[k]);
            } else {
                assert(all[k] == col[k - prev.len()]);
            }
        }
        if rect_walls(tm, x0, x1, y0, y1) == 0 {
            assert forall|x: int, y: int| x0 <= x < x1 && y0 <= y < y1 implies !#[trigger] tm.wall_at(x, y) by {
                if x < x1 - 1 {
                } else {
                    assert(!tm.wall_at(x1 - 1, y));
                }
            }
        } else {
            if rect_walls(tm, x0, x1 - 1, y0, y1) != 0 {
                let (x, y) = choose|x: int, y: int|
                    x0 <= x < x1 - 1 && y0 <= y < y1 && #[trigger] tm.wall_at(x, y);
                assert(tm.wall_at(x, y));
            } else {
                let y = choose|y: int| y0 <= y < y1 && #[trigger] tm.wall_at(x1 - 1, y);
                assert(tm.wall_at(x1 - 1, y));
            }
        }
    }
}

/// How many chunks of `chunk` tiles cover `map` tiles along one axis.
pub open spec fn chunk_count_along(map: int, chunk: int) -> int {
    trunc_div(map - 1, chunk) + 1
}

pub open spec fn min_int(a: int, b: int) -> int {
    if a < b {
        a
    } else {
        b
    }
}

/// Clamping `v` to `[0, m - 1]` as glam does (first raising it to 0, then
/// lowering it to `m - 1`) leaves it unchanged. On `m >= 1` this says
/// `0 <= v < m`; on `m == 0` it holds of `v == -1` alone.
pub open spec fn clamp_keeps(v: int, m: int) -> bool {
    let lo = if v < 0 {
        0
    } else {
        v
    };
    v == (if lo > m - 1 {
        m - 1
    } else {
        lo
    })
}

/// The shape of a quarter given whether its x, y and diagonal neighbours are walls.
pub fn classify_corner(gx: bool, gy: bool, gxy: bool) -> (k: CornerKind)
    ensures
        k == corner_kind(gx, gy, gxy),
        gx && gy && gxy ==> k == CornerKind::NoBorder,
        gx && gy && !gxy ==> k == CornerKind::InnerCorner,
        gx && !gy ==> k == CornerKind::BorderOnYEdge,
        !gx && gy ==> k == CornerKind::BorderOnXEdge,
        !gx && !gy && gxy ==> k == CornerKind::BorderOnBothEdges,
        !gx && !gy && !gxy ==> k == CornerKind::RoundedCorner,
{
    if gx {
        if gy {
            if gxy {
                CornerKind::NoBorder
            } else {
                CornerKind::InnerCorner
            }
        } else {
            CornerKind::BorderOnYEdge
        }
    } else if gy {
        CornerKind::BorderOnXEdge
    } else if gxy {
        CornerKind::BorderOnBothEdges
    } else {
        CornerKind::RoundedCorner
    }
}

fn corner_at(tm: &TileMap, x: i32, y: i32, dx: i32, dy: i32) -> (p: CornerPiece)
    requires
        tm.wf(),
        0 <= x < tm.dims().x,
        0 <= y < tm.dims().y,
        dx == -1 || dx == 1,
        dy == -1 || dy == 1,
    ensures
        p == corner_piece(*tm, x as int, y as int, dx as int, dy as int),
        p.tile == (Coord { x, y }),
        p.dx == dx,
        p.dy == dy,
        p.kind == shape_from_walls(
            tm.wall_at(x + dx, y as int),
            tm.wall_at(x as int, y + dy),
            tm.wall_at(x + dx, y + dy),
        ),
{
    let cx = Coord { x: x + dx, y };
    let cy = Coord { x, y: y + dy };
    let cxy = Coord { x: x + dx, y: y + dy };
    proof {
        tm.lemma_padded_addressable(cx);
        tm.lemma_padded_addressable(cy);
        tm.lemma_padded_addressable(cxy);
    }
    let gx = tm.get(cx);
    let gy = tm.get(cy);
    let gxy = tm.get(cxy);
    CornerPiece { tile: Coord { x, y }, dx, dy, kind: classify_corner(gx, gy, gxy) }
}

fn push_tile_pieces(tm: &TileMap, x: i32, y: i32, out: &mut Vec<CornerPiece>)
    requires
        tm.wf(),
        0 <= x < tm.dims().x,
        0 <= y < tm.dims().y,
    ensures
        final(out)@ == old(out)@ + tile_pieces(*tm, x as int, y as int),
{
    let c = Coord { x, y };
    proof {
        tm.lemma_padded_addressable(c);
    }
    if tm.get(c) {
        out.push(corner_at(tm, x, y, -1, -1));
        out.push(corner_at(tm, x, y, -1, 1));
        out.push(corner_at(tm, x, y, 1, -1));
        out.push(corner_at(tm, x, y, 1, 1));
    }
}

/// The wall outlines of a tile map, cut into rectangular chunks of tiles so
/// that a change to one tile only requires rebuilding the chunks around it.
/// Chunk `i` covers the tiles whose column is in
/// `[(i % width) * chunk.x, (i % width + 1) * chunk.x)` and whose row is in
/// `[(i / width) * chunk.y, (i / width + 1) * chunk.y)`, where `width` is the
/// number of chunks per row.
pub struct MeshChunks {
    pieces: Vec<Vec<CornerPiece>>,
    dirty: Vec<bool>,
    stride: i32,
    chunk_size: Coord,
    map_size: Coord,
}

impl MeshChunks {
    /// Number of chunks per row.
    pub closed spec fn grid_width(&self) -> int {
        self.stride as int
    }

    /// Size of a chunk in tiles.
    pub closed spec fn chunk_dims(&self) -> Coord {
        self.chunk_size
    }

    /// Size of the tile map the chunks were made for.
    pub closed spec fn map_dims(&self) -> Coord {
        self.map_size
    }

    pub closed spec fn num_chunks(&self) -> int {
        self.pieces@.len() as int
    }

    /// The pieces currently stored for chunk `i`.
    pub closed spec fn chunk_pieces(&self, i: int) -> Seq<CornerPiece> {
        self.pieces@[i]@
    }

    /// Chunk `i` has to be rebuilt.
    pub closed spec fn is_dirty(&self, i: int) -> bool {
        self.dirty@[i]
    }

    pub closed spec fn storage_ok(&self) -> bool {
        self.dirty@.len() == self.pieces@.len()
    }

    /// Number of chunk rows.
    pub open spec fn grid_height(&self) -> int {
        chunk_count_along(self.map_dims().y as int, self.chunk_dims().y as int)
    }

    pub open spec fn wf(&self) -> bool {
        &&& 1 <= self.chunk_dims().x
        &&& 1 <= self.chunk_dims().y
        &&& 0 <= self.map_dims().x
        &&& 0 <= self.map_dims().y
        &&& self.grid_width() == chunk_count_along(
            self.map_dims().x as int,
            self.chunk_dims().x as int,
        )
        &&& self.grid_width() * self.grid_height() <= i32::MAX
        &&& self.grid_width() * self.chunk_dims().x <= i32::MAX
        &&& self.grid_height() * self.chunk_dims().y <= i32::MAX
        &&& self.num_chunks() == self.grid_width() * self.grid_height()
        &&& self.storage_ok()
    }

    /// Column of the first tile of chunk `i`.
    pub open spec fn origin_x(&self, i: int) -> int {
        (i % self.grid_width()) * self.chunk_dims().x
    }

    /// Row of the first tile of chunk `i`.
    pub open spec fn origin_y(&self, i: int) -> int {
        (i / self.grid_width()) * self.chunk_dims().y
    }

    /// What chunk `i` holds when built from `tm`: the pieces of its wall
    /// tiles that lie inside `tm`, column by column.
    pub open spec fn expected_pieces(&self, tm: TileMap, i: int) -> Seq<CornerPiece> {
        rect_pieces(
            tm,
            self.origin_x(i),
            min_int(self.origin_x(i) + self.chunk_dims().x, tm.dims().x as int),
            self.origin_y(i),
            min_int(self.origin_y(i) + self.chunk_dims().y, tm.dims().y as int),
        )
    }

    /// Every chunk that is not marked dirty holds what `tm` says it should.
    pub open spec fn up_to_date(&self, tm: TileMap) -> bool {
        forall|i: int|
            0 <= i < self.num_chunks() && !#[trigger] self.is_dirty(i) ==> self.chunk_pieces(i)
                == self.expected_pieces(tm, i)
    }

    /// Every chunk holds what `tm` says it should, and none is dirty.
    pub open spec fn matches(&self, tm: TileMap) -> bool {
        forall|i: int|
            0 <= i < self.num_chunks() ==> !#[trigger] self.is_dirty(i) && self.chunk_pieces(i)
                == self.expected_pieces(tm, i)
    }

    /// The index of the chunk holding tile `(x, y)`, computed with Rust's
    /// rounding toward zero.
    pub open spec fn chunk_index_of(&self, x: int, y: int) -> int {
        trunc_div(y, self.chunk_dims().y as int) * self.grid_width() + trunc_div(
            x,
            self.chunk_dims().x as int,
        )
    }

    /// The index of the chunk holding tile `t + (dx, dy)`.
    pub open spec fn neighbour_index(&self, t: Coord, dx: int, dy: int) -> int {
        self.chunk_index_of(t.x + dx, t.y + dy)
    }

    /// Clamping tile `t + (dx, dy)` to the map, coordinate by coordinate,
    /// leaves it unchanged.
    pub open spec fn neighbour_kept(&self, t: Coord, dx: int, dy: int) -> bool {
        clamp_keeps(t.x + dx, self.map_dims().x as int) && clamp_keeps(
            t.y + dy,
            self.map_dims().y as int,
        )
    }

    /// Tile `t + (dx, dy)` survives clamping to the map and lies in chunk `i`.
    pub open spec fn marks_via(&self, t: Coord, dx: int, dy: int, i: int) -> bool {
        &&& self.neighbour_kept(t, dx, dy)
        &&& self.neighbour_index(t, dx, dy) == i
    }

    /// Chunk `i` holds `t` or one of its eight neighbours that survive
    /// clamping to the map (on a map of at least one tile: those inside it).
    pub open spec fn marked_by(&self, t: Coord, i: int) -> bool {
        exists|dx: int, dy: int| -1 <= dx <= 1 && -1 <= dy <= 1 && #[trigger] self.marks_via(t, dx, dy, i)
    }

    /// Every neighbour of `t` that survives clamping lies in a stored chunk,
    /// so marking around `t` indexes no chunk that does not exist.
    pub open spec fn mark_in_bounds(&self, t: Coord) -> bool {
        forall|dx: int, dy: int|
            -1 <= dx <= 1 && -1 <= dy <= 1 && self.neighbour_kept(t, dx, dy) ==> 0
                <= #[trigger] self.neighbour_index(t, dx, dy) < self.num_chunks()
    }

    /// On a map of at least one tile every tile can be marked around.
    pub proof fn lemma_mark_in_bounds(&self, t: Coord)
        requires
            self.wf(),
            1 <= self.map_dims().x,
            1 <= self.map_dims().y,
        ensures
            self.mark_in_bounds(t),
    {
        assert forall|dx: int, dy: int|
            -1 <= dx <= 1 && -1 <= dy <= 1 && self.neighbour_kept(t, dx, dy) implies 0
            <= #[trigger] self.neighbour_index(t, dx, dy) < self.num_chunks() by {
            let x = t.x + dx;
            let y = t.y + dy;
            lemma_chunk_of_tile_bounds(x, self.map_dims().x as int, self.chunk_dims().x as int);
            lemma_chunk_of_tile_bounds(y, self.map_dims().y as int, self.chunk_dims().y as int);
            let a = x / (self.chunk_dims().x as int);
            let b = y / (self.chunk_dims().y as int);
            let gw = self.grid_width();
            let gh = self.grid_height();
            assert(0 <= b * gw + a < gw * gh) by (nonlinear_arith)
                requires
                    0 <= a < gw,
                    0 <= b < gh,
            ;
        }
    }

    proof fn lemma_origin_bounds(&self, i: int)
        requires
            self.wf(),
            0 <= i < self.num_chunks(),
        ensures
            0 <= self.origin_x(i),
            self.origin_x(i) + self.chunk_dims().x <= i32::MAX,
            0 <= self.origin_y(i),
            self.origin_y(i) + self.chunk_dims().y <= i32::MAX,
            0 <= i % self.grid_width() < self.grid_width(),
            0 <= i / self.grid_width() < self.grid_height(),
    {
        let gw = self.grid_width();
        let gh = self.grid_height();
        let csx = self.chunk_dims().x as int;
        let csy = self.chunk_dims().y as int;
        assert(gw > 0) by (nonlinear_arith)
            requires
                0 <= i < gw * gh,
                gh >= 0,
        ;
        let q = i / gw;
        let r = i % gw;
        assert(0 <= r < gw);
        vstd::arithmetic::div_mod::lemma_fundamental_div_mod(i, gw);
        assert(q * gw + r == i) by (nonlinear_arith)
            requires
                i == gw * q + r,
        ;
        assert(0 <= q < gh) by (nonlinear_arith)
            requires
                q * gw + r == i,
                0 <= r < gw,
                0 <= i < gw * gh,
                gw > 0,
        ;
        assert(0 <= r * csx && r * csx + csx <= gw * csx) by (nonlinear_arith)
            requires
                0 <= r < gw,
                1 <= csx,
        ;
        assert(0 <= q * csy && q * csy + csy <= gh * csy) by (nonlinear_arith)
            requires
                0 <= q < gh,
                1 <= csy,
        ;
    }

    /// Builds chunk `i` from `tm`.
    fn build_chunk(&self, tm: &TileMap, i: usize) -> (v: Vec<CornerPiece>)
        requires
            self.wf(),
            tm.wf(),
            i < self.num_chunks(),
        ensures
            v@ == self.expected_pieces(*tm, i as int),
    {
        proof {
            self.lemma_origin_bounds(i as int);
        }
        let ii = i as i32;
        let cx = (ii % self.stride) * self.chunk_size.x;
        let cy = (ii / self.stride) * self.chunk_size.y;
        assert(cx == self.origin_x(i as int));
        assert(cy == self.origin_y(i as int));
        let x_end = cx + self.chunk_size.x;
        let y_end = cy + self.chunk_size.y;
        let tm_size = tm.size();
        let ghost ye = min_int(y_end as int, tm_size.y as int);
        let mut out: Vec<CornerPiece> = Vec::new();
        let mut x = cx;
        while x < x_end && x < tm_size.x
            invariant
                0 <= cx <= x,
                x == cx || (x <= x_end && x <= tm_size.x),
                cx < x_end,
                cy < y_end,
                tm.wf(),
                tm_size == tm.dims(),
                0 <= cy,
                ye == min_int(y_end as int, tm_size.y as int),
                out@ == rect_pieces(*tm, cx as int, x as int, cy as int, ye),
            decreases x_end - x,
        {
            let mut y = cy;
            while y < y_end
                invariant
                    0 <= cx <= x < x_end,
                    x < tm_size.x,
                    tm.wf(),
                    tm_size == tm.dims(),
                    0 <= cy <= y <= y_end,
                    ye == min_int(y_end as int, tm_size.y as int),
                    out@ == rect_pieces(*tm, cx as int, x as int, cy as int, ye) + column_pieces(
                        *tm,
                        x as int,
                        cy as int,
                        min_int(y as int, ye),
                    ),
                decreases y_end - y,
            {
                if y < tm_size.y {
                    push_tile_pieces(tm, x, y, &mut out);
                }
                y = y + 1;
            }
            proof {
                if ye < cy {
                    assert(column_pieces(*tm, x as int, cy as int, ye) =~= seq![]);
                }
                assert(min_int(y as int, ye) == ye);
                assert(rect_pieces(*tm, cx as int, x + 1, cy as int, ye) == rect_pieces(
                    *tm,
                    cx as int,
                    x as int,
                    cy as int,
                    ye,
                ) + column_pieces(*tm, x as int, cy as int, ye));
            }
            x = x + 1;
        }
        proof {
            let xe = min_int(x_end as int, tm_size.x as int);
            if xe <= cx {
                assert(rect_pieces(*tm, cx as int, xe, cy as int, ye) =~= seq![]);
                assert(rect_pieces(*tm, cx as int, x as int, cy as int, ye) =~= seq![]);
            }
        }
        out
    }

    /// The chunks for `tilemap`, in chunks of `chunk_size` tiles, all built.
    pub fn new(tilemap: &TileMap, chunk_size: Coord) -> (m: MeshChunks)
        requires
            tilemap.wf(),
            1 <= chunk_size.x,
            1 <= chunk_size.y,
            chunk_count_along(tilemap.dims().x as int, chunk_size.x as int) * chunk_size.x
                <= i32::MAX,
            chunk_count_along(tilemap.dims().y as int, chunk_size.y as int) * chunk_size.y
                <= i32::MAX,
        ensures
            m.wf(),
            m.map_dims() == tilemap.dims(),
            m.chunk_dims() == chunk_size,
            m.matches(*tilemap),
            forall|i: int, k: int|
                0 <= i < m.num_chunks() && 0 <= k < m.chunk_pieces(i).len() ==> shaped_by_walls(
                    *tilemap,
                    #[trigger] m.chunk_pieces(i)[k],
                ),
            forall|i: int| 0 <= i < m.num_chunks() ==> in_quarter_runs(#[trigger] m.chunk_pieces(i)),
    {
        let map_size = tilemap.size();
        let gw = (map_size.x - 1) / chunk_size.x + 1;
        let gh = (map_size.y - 1) / chunk_size.y + 1;
        proof {
            lemma_chunk_count_bounds(map_size.x as int, chunk_size.x as int);
            lemma_chunk_count_bounds(map_size.y as int, chunk_size.y as int);
            let a = gw as int;
            let b = gh as int;
            let mx = map_size.x as int;
            let my = map_size.y as int;
            assert(a * b <= (mx + 2) * (my + 2)) by (nonlinear_arith)
                requires
                    0 <= a <= mx + 1,
                    0 <= b <= my + 1,
                    0 <= mx,
                    0 <= my,
            ;
        }
        let n = gw * gh;
        let mut pieces: Vec<Vec<CornerPiece>> = Vec::new();
        let mut dirty: Vec<bool> = Vec::new();
        let mut k: i32 = 0;
        while k < n
            invariant
                0 <= k <= n,
                pieces@.len() == k,
                dirty@.len() == k,
                forall|j: int| 0 <= j < k ==> #[trigger] dirty@[j],
            decreases n - k,
        {
            pieces.push(Vec::new());
            dirty.push(true);
            k = k + 1;
        }
        let mut m = MeshChunks { pieces, dirty, stride: gw, chunk_size, map_size };
        m.update(tilemap);
        proof {
            assert forall|i: int| 0 <= i < m.num_chunks() implies in_quarter_runs(
                #[trigger] m.chunk_pieces(i),
            ) && forall|k: int|
                0 <= k < m.chunk_pieces(i).len() ==> shaped_by_walls(
                    *tilemap,
                    #[trigger] m.chunk_pieces(i)[k],
                ) by {
                m.lemma_chunk_piece_kinds(*tilemap, i);
                m.lemma_chunk_quarter_runs(*tilemap, i);
            }
        }
        m
    }

    /// Marks dirty every chunk that holds `tile` or one of its eight
    /// neighbours, keeping those that clamping to the map leaves unchanged
    /// (on a map of at least one tile: those inside it).
    pub fn mark_dirty(&mut self, tile: Coord)
        requires
            old(self).wf(),
            old(self).mark_in_bounds(tile),
            i32::MIN < tile.x < i32::MAX,
            i32::MIN < tile.y < i32::MAX,
        ensures
            final(self).wf(),
            final(self).map_dims() == old(self).map_dims(),
            final(self).chunk_dims() == old(self).chunk_dims(),
            final(self).grid_width() == old(self).grid_width(),
            final(self).num_chunks() == old(self).num_chunks(),
            forall|i: int|
                0 <= i < old(self).num_chunks() ==> #[trigger] final(self).chunk_pieces(i)
                    == old(self).chunk_pieces(i),
            forall|i: int|
                0 <= i < old(self).num_chunks() ==> #[trigger] final(self).is_dirty(i) == (old(
                    self,
                ).is_dirty(i) || old(self).marked_by(tile, i)),
    {
        let ghost orig = *self;
        let mut dx: i32 = -1;
        while dx <= 1
            invariant
                -1 <= dx <= 2,
                self.wf(),
                orig.mark_in_bounds(tile),
                i32::MIN < tile.x < i32::MAX,
                i32::MIN < tile.y < i32::MAX,
                self.map_dims() == orig.map_dims(),
                self.chunk_dims() == orig.chunk_dims(),
                self.grid_width() == orig.grid_width(),
                self.num_chunks() == orig.num_chunks(),
                forall|i: int|
                    0 <= i < orig.num_chunks() ==> #[trigger] self.chunk_pieces(i)
                        == orig.chunk_pieces(i),
                forall|i: int|
                    0 <= i < orig.num_chunks() ==> #[trigger] self.is_dirty(i) == (orig.is_dirty(i)
                        || exists|ddx: int, ddy: int|
                        -1 <= ddx < dx && -1 <= ddy <= 1 && #[trigger] orig.marks_via(
                            tile,
                            ddx,
                            ddy,
                            i,
                        )),
            decreases 2 - dx,
        {
            let mut dy: i32 = -1;
            while dy <= 1
                invariant
                    -1 <= dx <= 1,
                    -1 <= dy <= 2,
                    self.wf(),
                    orig.mark_in_bounds(tile),
                    i32::MIN < tile.x < i32::MAX,
                    i32::MIN < tile.y < i32::MAX,
                    self.map_dims() == orig.map_dims(),
                    self.chunk_dims() == orig.chunk_dims(),
                    self.grid_width() == orig.grid_width(),
                    self.num_chunks() == orig.num_chunks(),
                    forall|i: int|
                        0 <= i < orig.num_chunks() ==> #[trigger] self.chunk_pieces(i)
                            == orig.chunk_pieces(i),
                    forall|i: int|
                        0 <= i < orig.num_chunks() ==> #[trigger] self.is_dirty(i) == (
                        orig.is_dirty(i) || exists|ddx: int, ddy: int|
                            ((-1 <= ddx < dx && -1 <= ddy <= 1) || (ddx == dx && -1 <= ddy < dy))
                                && #[trigger] orig.marks_via(tile, ddx, ddy, i)),
                decreases 2 - dy,
            {
                let ghost before = *self;
                proof {
                    if orig.neighbour_kept(tile, dx as int, dy as int) {
                        assert(0 <= orig.neighbour_index(tile, dx as int, dy as int)
                            < orig.num_chunks());
                    }
                }
                self.mark_tile(Coord { x: tile.x + dx, y: tile.y + dy });
                proof {
                    assert forall|i: int| 0 <= i < orig.num_chunks() implies #[trigger] self.is_dirty(i) == (
                    orig.is_dirty(i) || exists|ddx: int, ddy: int|
                        ((-1 <= ddx < dx && -1 <= ddy <= 1) || (ddx == dx && -1 <= ddy < dy + 1))
                            && #[trigger] orig.marks_via(tile, ddx, ddy, i)) by {
                        if orig.marks_via(tile, dx as int, dy as int, i) {
                            assert(self.is_dirty(i));
                        }
                        if exists|ddx: int, ddy: int|
                            ((-1 <= ddx < dx && -1 <= ddy <= 1) || (ddx == dx && -1 <= ddy < dy + 1))
                                && #[trigger] orig.marks_via(tile, ddx, ddy, i) {
                            let (ddx, ddy) = choose|ddx: int, ddy: int|
                                ((-1 <= ddx < dx && -1 <= ddy <= 1) || (ddx == dx && -1 <= ddy < dy + 1))
                                    && #[trigger] orig.marks_via(tile, ddx, ddy, i);
                            if ddx == dx && ddy == dy {
                                assert(self.is_dirty(i));
                            } else {
                                assert(before.is_dirty(i));
                            }
                        }
                    }
                }
                dy = dy + 1;
            }
            dx = dx + 1;
        }
        proof {
            assert forall|i: int| 0 <= i < orig.num_chunks() implies #[trigger] self.is_dirty(i) == (
            orig.is_dirty(i) || orig.marked_by(tile, i)) by {
                if orig.marked_by(tile, i) {
                    let (ddx, ddy) = choose|ddx: int, ddy: int|
                        -1 <= ddx <= 1 && -1 <= ddy <= 1 && #[trigger] orig.marks_via(tile, ddx, ddy, i);
                    assert(-1 <= ddx < dx && -1 <= ddy <= 1 && orig.marks_via(tile, ddx, ddy, i));
                }
            }
        }
    }

    /// Whether marking around `tile` indexes only stored chunks.
    pub fn can_mark_around(&self, tile: Coord) -> (ok: bool)
        requires
            self.wf(),
            i32::MIN < tile.x < i32::MAX,
            i32::MIN < tile.y < i32::MAX,
        ensures
            ok == self.mark_in_bounds(tile),
    {
        let n = self.dirty.len();
        let mut dx: i32 = -1;
        while dx <= 1
            invariant
                -1 <= dx <= 2,
                self.wf(),
                n == self.num_chunks(),
                i32::MIN < tile.x < i32::MAX,
                i32::MIN < tile.y < i32::MAX,
                forall|ddx: int, ddy: int|
                    -1 <= ddx < dx && -1 <= ddy <= 1 && self.neighbour_kept(tile, ddx, ddy) ==> 0
                        <= #[trigger] self.neighbour_index(tile, ddx, ddy) < self.num_chunks(),
            decreases 2 - dx,
        {
            let mut dy: i32 = -1;
            while dy <= 1
                invariant
                    -1 <= dx <= 1,
                    -1 <= dy <= 2,
                    self.wf(),
                    n == self.num_chunks(),
                    i32::MIN < tile.x < i32::MAX,
                    i32::MIN < tile.y < i32::MAX,
                    forall|ddx: int, ddy: int|
                        ((-1 <= ddx < dx && -1 <= ddy <= 1) || (ddx == dx && -1 <= ddy < dy))
                            && self.neighbour_kept(tile, ddx, ddy) ==> 0 <= #[trigger] self.neighbour_index(
                            tile,
                            ddx,
                            ddy,
                        ) < self.num_chunks(),
                decreases 2 - dy,
            {
                let ux = tile.x + dx;
                let uy = tile.y + dy;
                let lo_x = if ux < 0 {
                    0
                } else {
                    ux
                };
                let clamped_x = if lo_x > self.map_size.x - 1 {
                    self.map_size.x - 1
                } else {
                    lo_x
                };
                let lo_y = if uy < 0 {
                    0
                } else {
                    uy
                };
                let clamped_y = if lo_y > self.map_size.y - 1 {
                    self.map_size.y - 1
                } else {
                    lo_y
                };
                if ux == clamped_x && uy == clamped_y {
                    let cx = ux / self.chunk_size.x;
                    let cy = uy / self.chunk_size.y;
                    proof {
                        lemma_kept_chunk_bounds(
                            ux as int,
                            self.map_size.x as int,
                            self.chunk_size.x as int,
                        );
                        lemma_kept_chunk_bounds(
                            uy as int,
                            self.map_size.y as int,
                            self.chunk_size.y as int,
                        );
                        let a = cx as int;
                        let b = cy as int;
                        let gw = self.grid_width();
                        let gh = self.grid_height();
                        assert(-gw <= b * gw <= gw * gh) by (nonlinear_arith)
                            requires
                                -1 <= b <= gh,
                                0 <= gw,
                        ;
                        assert(cx == trunc_div(ux as int, self.chunk_size.x as int));
                        assert(cy == trunc_div(uy as int, self.chunk_size.y as int));
                    }
                    let idx = (cy as i64) * (self.stride as i64) + (cx as i64);
                    assert(idx == self.neighbour_index(tile, dx as int, dy as int));
                    if idx < 0 || idx >= n as i64 {
                        return false;
                    }
                }
                dy = dy + 1;
            }
            dx = dx + 1;
        }
        true
    }

    /// Marks dirty the chunk holding `u`, if clamping `u` to the map leaves it unchanged.
    fn mark_tile(&mut self, u: Coord)
        requires
            old(self).wf(),
            clamp_keeps(u.x as int, old(self).map_dims().x as int) && clamp_keeps(
                u.y as int,
                old(self).map_dims().y as int,
            ) ==> 0 <= old(self).chunk_index_of(u.x as int, u.y as int) < old(self).num_chunks(),
        ensures
            final(self).wf(),
            final(self).map_dims() == old(self).map_dims(),
            final(self).chunk_dims() == old(self).chunk_dims(),
            final(self).grid_width() == old(self).grid_width(),
            final(self).num_chunks() == old(self).num_chunks(),
            forall|i: int|
                0 <= i < old(self).num_chunks() ==> #[trigger] final(self).chunk_pieces(i)
                    == old(self).chunk_pieces(i),
            forall|i: int|
                0 <= i < old(self).num_chunks() ==> #[trigger] final(self).is_dirty(i) == (old(
                    self,
                ).is_dirty(i) || (clamp_keeps(u.x as int, old(self).map_dims().x as int)
                    && clamp_keeps(u.y as int, old(self).map_dims().y as int) && old(
                    self,
                ).chunk_index_of(u.x as int, u.y as int) == i)),
    {
        // Keep `u` only where clamping it to the map leaves it unchanged.
        let lo_x = if u.x < 0 {
            0
        } else {
            u.x
        };
        let clamped_x = if lo_x > self.map_size.x - 1 {
            self.map_size.x - 1
        } else {
            lo_x
        };
        let lo_y = if u.y < 0 {
            0
        } else {
            u.y
        };
        let clamped_y = if lo_y > self.map_size.y - 1 {
            self.map_size.y - 1
        } else {
            lo_y
        };
        if u.x != clamped_x || u.y != clamped_y {
            return ;
        }
        let cx = u.x / self.chunk_size.x;
        let cy = u.y / self.chunk_size.y;
        proof {
            lemma_kept_chunk_bounds(u.x as int, self.map_size.x as int, self.chunk_size.x as int);
            assert(cx == trunc_div(u.x as int, self.chunk_size.x as int));
            assert(cy == trunc_div(u.y as int, self.chunk_size.y as int));
        }
        let idx = (cy * self.stride + cx) as usize;
        self.dirty.set(idx, true);
    }

    /// Rebuilds every dirty chunk from `tilemap` and clears its mark; clean
    /// chunks keep what they hold.
    pub fn update(&mut self, tilemap: &TileMap)
        requires
            old(self).wf(),
            tilemap.wf(),
        ensures
            final(self).wf(),
            final(self).map_dims() == old(self).map_dims(),
            final(self).chunk_dims() == old(self).chunk_dims(),
            final(self).grid_width() == old(self).grid_width(),
            final(self).num_chunks() == old(self).num_chunks(),
            forall|i: int| 0 <= i < old(self).num_chunks() ==> !#[trigger] final(self).is_dirty(i),
            forall|i: int|
                0 <= i < old(self).num_chunks() ==> #[trigger] final(self).chunk_pieces(i) == (if old(
                    self,
                ).is_dirty(i) {
                    old(self).expected_pieces(*tilemap, i)
                } else {
                    old(self).chunk_pieces(i)
                }),
            forall|i: int|
                0 <= i < old(self).num_chunks() && old(self).is_dirty(i) ==> in_quarter_runs(
                    #[trigger] final(self).chunk_pieces(i),
                ),
            forall|i: int, k: int|
                0 <= i < old(self).num_chunks() && old(self).is_dirty(i) && 0 <= k < final(self).chunk_pieces(i).len() ==> shaped_by_walls(
                    *tilemap,
                    #[trigger] final(self).chunk_pieces(i)[k],
                ),
    {
        let ghost orig = *self;
        let n = self.pieces.len();
        let mut i: usize = 0;
        while i < n
            invariant
                0 <= i <= n,
                n == orig.num_chunks(),
                tilemap.wf(),
                self.wf(),
                self.map_dims() == orig.map_dims(),
                self.chunk_dims() == orig.chunk_dims(),
                self.grid_width() == orig.grid_width(),
                self.num_chunks() == orig.num_chunks(),
                forall|j: int| 0 <= j < i ==> !#[trigger] self.is_dirty(j),
                forall|j: int| i <= j < n ==> #[trigger] self.is_dirty(j) == orig.is_dirty(j),
                forall|j: int|
                    0 <= j < n ==> #[trigger] self.chunk_pieces(j) == (if j < i && orig.is_dirty(j) {
                        orig.expected_pieces(*tilemap, j)
                    } else {
                        orig.chunk_pieces(j)
                    }),
            decreases n - i,
        {
            let ghost before = *self;
            if self.dirty[i] {
                let built = self.build_chunk(tilemap, i);
                self.pieces.set(i, built);
                self.dirty.set(i, false);
            }
            proof {
                assert forall|j: int| 0 <= j < n && j != i implies #[trigger] self.is_dirty(j)
                    == before.is_dirty(j) by {}
                assert forall|j: int| 0 <= j < n && j != i implies #[trigger] self.chunk_pieces(j)
                    == before.chunk_pieces(j) by {}
                assert(before.chunk_pieces(i as int) == orig.chunk_pieces(i as int));
                assert(before.is_dirty(i as int) == orig.is_dirty(i as int));
                assert(!self.is_dirty(i as int));
                assert(before.expected_pieces(*tilemap, i as int) == orig.expected_pieces(
                    *tilemap,
                    i as int,
                ));
                if orig.is_dirty(i as int) {
                    assert(self.chunk_pieces(i as int) == orig.expected_pieces(*tilemap, i as int));
                } else {
                    assert(self.chunk_pieces(i as int) == orig.chunk_pieces(i as int));
                }
            }
            i = i + 1;
        }
        proof {
            assert forall|i: int| 0 <= i < orig.num_chunks() && orig.is_dirty(i) implies in_quarter_runs(
                #[trigger] self.chunk_pieces(i),
            ) && forall|k: int|
                0 <= k < self.chunk_pieces(i).len() ==> shaped_by_walls(
                    *tilemap,
                    #[trigger] self.chunk_pieces(i)[k],
                ) by {
                orig.lemma_chunk_piece_kinds(*tilemap, i);
                orig.lemma_chunk_quarter_runs(*tilemap, i);
            }
        }
    }

    /// The pieces stored for chunk `i`.
    pub fn chunk(&self, i: usize) -> (p: &Vec<CornerPiece>)
        requires
            self.wf(),
            i < self.num_chunks(),
        ensures
            p@ == self.chunk_pieces(i as int),
    {
        &self.pieces[i]
    }

    /// Whether chunk `i` is marked for rebuilding.
    pub fn is_chunk_dirty(&self, i: usize) -> (d: bool)
        requires
            self.wf(),
            i < self.num_chunks(),
        ensures
            d == self.is_dirty(i as int),
    {
        self.dirty[i]
    }

    /// The number of chunks.
    pub fn len(&self) -> (n: usize)
        requires
            self.wf(),
        ensures
            n == self.num_chunks(),
    {
        self.pieces.len()
    }

    /// Number of chunks per row.
    pub fn width(&self) -> (w: i32)
        ensures
            w == self.grid_width(),
    {
        self.stride
    }

    /// Size of a chunk in tiles.
    pub fn chunk_size(&self) -> (c: Coord)
        ensures
            c == self.chunk_dims(),
    {
        self.chunk_size
    }

    /// Size of the tile map the chunks were made for.
    pub fn map_size(&self) -> (c: Coord)
        ensures
            c == self.map_dims(),
    {
        self.map_size
    }
}

/// Tile `(x, y)` is neither `t` nor one of its eight neighbours.
pub open spec fn far_from(t: Coord, x: int, y: int) -> bool {
    x < t.x - 1 || x > t.x + 1 || y < t.y - 1 || y > t.y + 1
}

/// Two maps of the same size that differ at most at tile `t` (a tile of the
/// map or its border).
pub open spec fn differ_only_at(a: TileMap, b: TileMap, t: Coord) -> bool {
    &&& a.wf()
    &&& b.wf()
    &&& a.dims() == b.dims()
    &&& in_padded(a.dims(), t.x as int, t.y as int)
    &&& forall|x: int, y: int|
        in_padded(a.dims(), x, y) && !(x == t.x && y == t.y) ==> #[trigger] a.wall_at(x, y)
            == b.wall_at(x, y)
}

/// The pieces of a tile far from the only tile where two maps differ are
/// the same in both maps.
pub proof fn lemma_tile_pieces_unchanged(a: TileMap, b: TileMap, t: Coord, x: int, y: int)
    requires
        differ_only_at(a, b, t),
        0 <= x < a.dims().x,
        0 <= y < a.dims().y,
        far_from(t, x, y),
    ensures
        tile_pieces(a, x, y) == tile_pieces(b, x, y),
{
    assert(a.wall_at(x, y) == b.wall_at(x, y));
    assert(a.wall_at(x - 1, y) == b.wall_at(x - 1, y));
    assert(a.wall_at(x + 1, y) == b.wall_at(x + 1, y));
    assert(a.wall_at(x, y - 1) == b.wall_at(x, y - 1));
    assert(a.wall_at(x, y + 1) == b.wall_at(x, y + 1));
    assert(a.wall_at(x - 1, y - 1) == b.wall_at(x - 1, y - 1));
    assert(a.wall_at(x - 1, y + 1) == b.wall_at(x - 1, y + 1));
    assert(a.wall_at(x + 1, y - 1) == b.wall_at(x + 1, y - 1));
    assert(a.wall_at(x + 1, y + 1) == b.wall_at(x + 1, y + 1));
}

/// A column of tiles all far from `t` has the same pieces in both maps.
pub proof fn lemma_column_pieces_unchanged(
    a: TileMap,
    b: TileMap,
    t: Coord,
    x: int,
    y0: int,
    y1: int,
)
    requires
        differ_only_at(a, b, t),
        0 <= x < a.dims().x,
        0 <= y0,
        y1 <= a.dims().y,
        forall|y: int| y0 <= y < y1 ==> #[trigger] far_from(t, x, y),
    ensures
        column_pieces(a, x, y0, y1) == column_pieces(b, x, y0, y1),
    decreases y1 - y0,
{
    if y1 > y0 {
        lemma_column_pieces_unchanged(a, b, t, x, y0, y1 - 1);
        assert(far_from(t, x, y1 - 1));
        lemma_tile_pieces_unchanged(a, b, t, x, y1 - 1);
    }
}

/// A rectangle of tiles all far from `t` has the same pieces in both maps.
pub proof fn lemma_rect_pieces_unchanged(
    a: TileMap,
    b: TileMap,
    t: Coord,
    x0: int,
    x1: int,
    y0: int,
    y1: int,
)
    requires
        differ_only_at(a, b, t),
        0 <= x0,
        x1 <= a.dims().x,
        0 <= y0,
        y1 <= a.dims().y,
        forall|x: int, y: int| x0 <= x < x1 && y0 <= y < y1 ==> #[trigger] far_from(t, x, y),
    ensures
        rect_pieces(a, x0, x1, y0, y1) == rect_pieces(b, x0, x1, y0, y1),
    decreases x1 - x0,
{
    if x1 > x0 {
        lemma_rect_pieces_unchanged(a, b, t, x0, x1 - 1, y0, y1);
        assert forall|y: int| y0 <= y < y1 implies #[trigger] far_from(t, x1 - 1, y) by {
            assert(far_from(t, x1 - 1, y));
        }
        lemma_column_pieces_unchanged(a, b, t, x1 - 1, y0, y1);
    }
}

impl MeshChunks {
    /// A tile of the map that lies in the area of chunk `i` belongs to chunk `i`.
    pub proof fn lemma_tile_in_chunk(&self, i: int, x: int, y: int)
        requires
            self.wf(),
            0 <= i < self.num_chunks(),
            self.origin_x(i) <= x < self.origin_x(i) + self.chunk_dims().x,
            self.origin_y(i) <= y < self.origin_y(i) + self.chunk_dims().y,
        ensures
            self.chunk_index_of(x, y) == i,
    {
        self.lemma_origin_bounds(i);
        let gw = self.grid_width();
        let cx = self.chunk_dims().x as int;
        let cy = self.chunk_dims().y as int;
        vstd::arithmetic::div_mod::lemma_fundamental_div_mod_converse(
            x,
            cx,
            i % gw,
            x - (i % gw) * cx,
        );
        vstd::arithmetic::div_mod::lemma_fundamental_div_mod_converse(
            y,
            cy,
            i / gw,
            y - (i / gw) * cy,
        );
        vstd::arithmetic::div_mod::lemma_fundamental_div_mod(i, gw);
        assert((i / gw) * gw + i % gw == i) by (nonlinear_arith)
            requires
                i == gw * (i / gw) + i % gw,
        ;
    }

    /// What chunk `i` holds when built from `tm`: four quarters for each
    /// wall tile of its area inside `tm`, every piece a quarter of such a
    /// tile, and nothing exactly when its area holds no wall tile.
    pub proof fn lemma_chunk_contents(&self, tm: TileMap, i: int)
        requires
            self.wf(),
            tm.wf(),
            0 <= i < self.num_chunks(),
        ensures
            self.expected_pieces(tm, i).len() == 4 * rect_walls(
                tm,
                self.origin_x(i),
                min_int(self.origin_x(i) + self.chunk_dims().x, tm.dims().x as int),
                self.origin_y(i),
                min_int(self.origin_y(i) + self.chunk_dims().y, tm.dims().y as int),
            ),
            self.expected_pieces(tm, i).len() == 0 <==> forall|x: int, y: int|
                self.origin_x(i) <= x < self.origin_x(i) + self.chunk_dims().x && self.origin_y(i)
                    <= y < self.origin_y(i) + self.chunk_dims().y && 0 <= x < tm.dims().x && 0
                    <= y < tm.dims().y ==> !#[trigger] tm.wall_at(x, y),
            forall|k: int|
                0 <= k < self.expected_pieces(tm, i).len() ==> {
                    let p = #[trigger] self.expected_pieces(tm, i)[k];
                    &&& self.origin_x(i) <= p.tile.x < self.origin_x(i) + self.chunk_dims().x
                    &&& self.origin_y(i) <= p.tile.y < self.origin_y(i) + self.chunk_dims().y
                    &&& 0 <= p.tile.x < tm.dims().x
                    &&& 0 <= p.tile.y < tm.dims().y
                    &&& quarter_of_wall(tm, p, p.tile.x as int, p.tile.y as int)
                },
    {
        self.lemma_origin_bounds(i);
        let ox = self.origin_x(i);
        let oy = self.origin_y(i);
        let xe = min_int(ox + self.chunk_dims().x, tm.dims().x as int);
        let ye = min_int(oy + self.chunk_dims().y, tm.dims().y as int);
        lemma_rect_pieces_shape(tm, ox, xe, oy, ye);
        let r = self.expected_pieces(tm, i);
        assert(r.len() == 0 <==> rect_walls(tm, ox, xe, oy, ye) == 0);
        if r.len() == 0 {
            assert forall|x: int, y: int|
                ox <= x < ox + self.chunk_dims().x && oy <= y < oy + self.chunk_dims().y && 0 <= x
                    < tm.dims().x && 0 <= y < tm.dims().y implies !#[trigger] tm.wall_at(x, y) by {
                assert(ox <= x < xe && oy <= y < ye);
            }
        } else {
            if forall|x: int, y: int|
                ox <= x < ox + self.chunk_dims().x && oy <= y < oy + self.chunk_dims().y && 0 <= x
                    < tm.dims().x && 0 <= y < tm.dims().y ==> !#[trigger] tm.wall_at(x, y) {
                assert forall|x: int, y: int| ox <= x < xe && oy <= y < ye implies !#[trigger] tm.wall_at(
                    x,
                    y,
                ) by {}
            }
        }
    }

    /// Every quarter of a built chunk is shaped by the walls beside it, read
    /// from the map: with `gx`, `gy` and `gxy` the walls next to the quarter
    /// along x, along y and diagonally, all three give no border, both sides
    /// without the diagonal an inner corner, the x side alone a border on the
    /// y edge, the y side alone a border on the x edge, the diagonal alone
    /// borders on both edges, and none a rounded corner.
    pub proof fn lemma_chunk_piece_kinds(&self, tm: TileMap, i: int)
        requires
            self.wf(),
            tm.wf(),
            0 <= i < self.num_chunks(),
        ensures
            forall|k: int|
                0 <= k < self.expected_pieces(tm, i).len() ==> shaped_by_walls(
                    tm,
                    #[trigger] self.expected_pieces(tm, i)[k],
                ),
    {
        self.lemma_chunk_contents(tm, i);
    }

    /// A built chunk lists each of its wall tiles as a run of four quarters,
    /// towards `(-1, -1)`, `(-1, 1)`, `(1, -1)` and `(1, 1)` in that order.
    pub proof fn lemma_chunk_quarter_runs(&self, tm: TileMap, i: int)
        ensures
            in_quarter_runs(self.expected_pieces(tm, i)),
    {
        lemma_rect_quarter_runs(
            tm,
            self.origin_x(i),
            min_int(self.origin_x(i) + self.chunk_dims().x, tm.dims().x as int),
            self.origin_y(i),
            min_int(self.origin_y(i) + self.chunk_dims().y, tm.dims().y as int),
        );
    }

    /// Marking the neighbourhood of the only tile where two maps differ keeps
    /// chunks that were up to date with the first map up to date with the second.
    pub proof fn lemma_marking_keeps_up_to_date(
        &self,
        marked: MeshChunks,
        a: TileMap,
        b: TileMap,
        t: Coord,
    )
        requires
            self.wf(),
            differ_only_at(a, b, t),
            self.map_dims() == a.dims(),
            self.up_to_date(a),
            marked.wf(),
            marked.map_dims() == self.map_dims(),
            marked.chunk_dims() == self.chunk_dims(),
            marked.grid_width() == self.grid_width(),
            marked.num_chunks() == self.num_chunks(),
            forall|i: int|
                0 <= i < self.num_chunks() ==> #[trigger] marked.chunk_pieces(i)
                    == self.chunk_pieces(i),
            forall|i: int|
                0 <= i < self.num_chunks() ==> #[trigger] marked.is_dirty(i) == (self.is_dirty(i)
                    || self.marked_by(t, i)),
        ensures
            marked.up_to_date(b),
    {
        assert forall|i: int|
            0 <= i < marked.num_chunks() && !#[trigger] marked.is_dirty(i) implies marked.chunk_pieces(
            i,
        ) == marked.expected_pieces(b, i) by {
            assert(!self.is_dirty(i));
            assert(!self.marked_by(t, i));
            self.lemma_origin_bounds(i);
            let ox = self.origin_x(i);
            let oy = self.origin_y(i);
            let xe = min_int(ox + self.chunk_dims().x, a.dims().x as int);
            let ye = min_int(oy + self.chunk_dims().y, a.dims().y as int);
            assert forall|x: int, y: int| ox <= x < xe && oy <= y < ye implies #[trigger] far_from(
                t,
                x,
                y,
            ) by {
                if !far_from(t, x, y) {
                    self.lemma_tile_in_chunk(i, x, y);
                    assert(self.marks_via(t, x - t.x, y - t.y, i));
                }
            }
            lemma_rect_pieces_unchanged(a, b, t, ox, xe, oy, ye);
            assert(self.expected_pieces(a, i) == marked.expected_pieces(b, i));
        }
    }
}

/// Bounds on the number of chunks along an axis.
proof fn lemma_chunk_count_bounds(map: int, chunk: int)
    requires
        0 <= map,
        1 <= chunk,
    ensures
        0 <= chunk_count_along(map, chunk) <= map + 1,
{
    if map >= 1 {
        assert((map - 1) / chunk <= map - 1) by (nonlinear_arith)
            requires
                0 <= map - 1,
                1 <= chunk,
        ;
    }
}

/// A coordinate that clamping to the map leaves unchanged lies at most one
/// chunk before the first and before the last chunk along that axis.
proof fn lemma_kept_chunk_bounds(v: int, map: int, chunk: int)
    requires
        0 <= map,
        1 <= chunk,
        clamp_keeps(v, map),
    ensures
        -1 <= trunc_div(v, chunk) < chunk_count_along(map, chunk),
{
    if map >= 1 {
        lemma_chunk_of_tile_bounds(v, map, chunk);
    } else {
        assert(v == -1);
        assert(1int / chunk <= 1) by (nonlinear_arith)
            requires
                1 <= chunk,
        ;
        assert(1int / chunk >= 0) by (nonlinear_arith)
            requires
                1 <= chunk,
        ;
    }
}

/// A tile inside the map lies in one of the chunks along that axis.
proof fn lemma_chunk_of_tile_bounds(u: int, map: int, chunk: int)
    requires
        0 <= u < map,
        1 <= chunk,
    ensures
        0 <= u / chunk < chunk_count_along(map, chunk),
{
    assert(u / chunk <= (map - 1) / chunk) by (nonlinear_arith)
        requires
            0 <= u <= map - 1,
            1 <= chunk,
    {
        vstd::arithmetic::div_mod::lemma_div_is_ordered(u, map - 1, chunk);
    }
}

} // verus!
