use vstd::prelude::*;

use crate::coord::Coord;

verus! {

/// A grid of tiles, each either a wall or free, surrounded by a one-tile
/// border of walls. Tiles inside the map have `0 <= x < size.x` and
/// `0 <= y < size.y`; the border occupies `x == -1`, `x == size.x`,
/// `y == -1` and `y == size.y`.
pub struct TileMap {
    walls: Vec<bool>,
    stride: i32,
    size: Coord,
}

/// Where tile `(x, y)` lives in the row-major storage of a map `width` tiles
/// wide (rows are `width + 2` long because of the border).
pub open spec fn slot_of(width: int, x: int, y: int) -> int {
    (width + 2) * (y + 1) + x + 1
}

/// The tile lies inside the map or on its border.
pub open spec fn in_padded(size: Coord, x: int, y: int) -> bool {
    -1 <= x <= size.x && -1 <= y <= size.y
}

/// The tile lies on the border ring around the map.
pub open spec fn on_border(size: Coord, x: int, y: int) -> bool {
    x == -1 || x == size.x || y == -1 || y == size.y
}

/// Bounds of the storage position of a tile in the map or on its border.
pub proof fn lemma_slot_bounds(w: int, h: int, x: int, y: int)
    requires
        0 <= w,
        0 <= h,
        -1 <= x <= w,
        -1 <= y <= h,
    ensures
        0 <= (w + 2) * (y + 1) <= (w + 2) * (h + 1),
        0 <= slot_of(w, x, y) < (w + 2) * (h + 2),
{
    assert(0 <= (w + 2) * (y + 1) <= (w + 2) * (h + 1)) by (nonlinear_arith)
        requires
            0 <= w,
            -1 <= y <= h,
    ;
    assert((w + 2) * (h + 2) == (w + 2) * (h + 1) + w + 2) by (nonlinear_arith);
}

/// Distinct tiles of the map or its border have distinct storage positions.
pub proof fn lemma_slot_injective(w: int, x1: int, y1: int, x2: int, y2: int)
    requires
        -1 <= x1 <= w,
        -1 <= x2 <= w,
        slot_of(w, x1, y1) == slot_of(w, x2, y2),
    ensures
        x1 == x2,
        y1 == y2,
{
    assert(y1 == y2) by (nonlinear_arith)
        requires
            -1 <= x1 <= w,
            -1 <= x2 <= w,
            (w + 2) * (y1 + 1) + x1 == (w + 2) * (y2 + 1) + x2,
    {
        if y1 < y2 {
            assert((w + 2) * (y2 + 1) >= (w + 2) * (y1 + 1) + (w + 2));
        } else if y1 > y2 {
            assert((w + 2) * (y1 + 1) >= (w + 2) * (y2 + 1) + (w + 2));
        }
    }
}

/// Setting tile `t` of the map or its border makes `t` hold the new state
/// and leaves every other tile of the map and its border as it was.
pub proof fn lemma_set_effect(before: TileMap, after: TileMap, t: Coord, wall: bool)
    requires
        before.wf(),
        after.wf(),
        after.dims() == before.dims(),
        in_padded(before.dims(), t.x as int, t.y as int),
        after.cells() == before.cells().update(before.slot(t), wall),
    ensures
        after.is_wall(t) == wall,
        forall|x: int, y: int|
            in_padded(before.dims(), x, y) && !(x == t.x && y == t.y) ==> #[trigger] after.wall_at(
                x,
                y,
            ) == before.wall_at(x, y),
{
    let w = before.dims().x as int;
    let h = before.dims().y as int;
    lemma_slot_bounds(w, h, t.x as int, t.y as int);
    assert forall|x: int, y: int|
        in_padded(before.dims(), x, y) && !(x == t.x && y == t.y) implies #[trigger] after.wall_at(
        x,
        y,
    ) == before.wall_at(x, y) by {
        lemma_slot_bounds(w, h, x, y);
        if slot_of(w, x, y) == slot_of(w, t.x as int, t.y as int) {
            lemma_slot_injective(w, x, y, t.x as int, t.y as int);
        }
    }
}

impl TileMap {
    /// The wall flags in storage order.
    pub closed spec fn cells(&self) -> Seq<bool> {
        self.walls@
    }

    /// The number of columns (`x`) and rows (`y`) inside the border.
    pub closed spec fn dims(&self) -> Coord {
        self.size
    }

    pub closed spec fn stride_matches(&self) -> bool {
        self.stride == self.dims().x + 2
    }

    /// Well-formedness: non-negative size, storage of exactly one flag per
    /// tile of the map and its border, and sizes that fit in `i32`.
    pub open spec fn wf(&self) -> bool {
        &&& 0 <= self.dims().x
        &&& 0 <= self.dims().y
        &&& (self.dims().x + 2) * (self.dims().y + 2) <= i32::MAX
        &&& self.cells().len() == (self.dims().x + 2) * (self.dims().y + 2)
        &&& self.stride_matches()
    }

    /// The storage position of a tile.
    pub open spec fn slot(&self, c: Coord) -> int {
        slot_of(self.dims().x as int, c.x as int, c.y as int)
    }

    /// A tile can be looked up: its storage position is computed without
    /// `i32` overflow and falls inside the storage.
    pub open spec fn addressable(&self, c: Coord) -> bool {
        &&& (self.dims().x + 2) * (c.y + 1) <= i32::MAX
        &&& i32::MIN <= (self.dims().x + 2) * (c.y + 1)
        &&& i32::MIN <= (self.dims().x + 2) * (c.y + 1) + c.x <= i32::MAX
        &&& 0 <= self.slot(c) < self.cells().len()
    }

    /// Whether the tile `(x, y)` is a wall.
    pub open spec fn wall_at(&self, x: int, y: int) -> bool {
        self.cells()[slot_of(self.dims().x as int, x, y)]
    }

    pub open spec fn is_wall(&self, c: Coord) -> bool {
        self.wall_at(c.x as int, c.y as int)
    }

    /// Every tile of the map and its border can be looked up.
    pub proof fn lemma_padded_addressable(&self, c: Coord)
        requires
            self.wf(),
            in_padded(self.dims(), c.x as int, c.y as int),
        ensures
            self.addressable(c),
    {
        lemma_slot_bounds(self.dims().x as int, self.dims().y as int, c.x as int, c.y as int);
    }

    /// A map of the given size whose border tiles are walls and whose inner
    /// tiles are all free.
    pub fn new(size: Coord) -> (map: TileMap)
        requires
            0 <= size.x,
            0 <= size.y,
            (size.x + 2) * (size.y + 2) <= i32::MAX,
        ensures
            map.wf(),
            map.dims() == size,
            forall|x: int, y: int|
                in_padded(size, x, y) ==> #[trigger] map.wall_at(x, y) == on_border(size, x, y),
    {
        let ghost w = size.x as int;
        let ghost h = size.y as int;
        assert(w + 2 <= i32::MAX && h + 2 <= i32::MAX) by (nonlinear_arith)
            requires
                0 <= w,
                0 <= h,
                (w + 2) * (h + 2) <= i32::MAX,
        ;
        let stride = size.x + 2;
        let n = stride * (size.y + 2);
        let mut walls = vec![false; n as usize];
        proof {
            assert forall|x: int, y: int| in_padded(size, x, y) implies !walls@[slot_of(w, x, y)] by {
                lemma_slot_bounds(w, h, x, y);
            }
        }
        let mut x: i32 = 0;
        while x < stride
            invariant
                0 <= x <= stride,
                stride == w + 2,
                n == (w + 2) * (h + 2),
                0 <= w,
                0 <= h,
                n <= i32::MAX,
                w + 2 <= i32::MAX,
                h + 2 <= i32::MAX,
                size.x == w,
                size.y == h,
                walls@.len() == n,
                forall|xx: int, yy: int|
                    in_padded(size, xx, yy) ==> #[trigger] walls@[slot_of(w, xx, yy)] == ((yy == -1
                        || yy == h) && xx + 1 < x),
            decreases stride - x,
        {
            proof {
                lemma_slot_bounds(w, h, (x - 1) as int, -1);
                lemma_slot_bounds(w, h, (x - 1) as int, h);
            }
            let top = x as usize;
            let bottom = (stride * (size.y + 1) + x) as usize;
            assert(top == slot_of(w, x - 1, -1));
            assert(bottom == slot_of(w, x - 1, h));
            let ghost before = walls@;
            walls.set(top, true);
            walls.set(bottom, true);
            proof {
                assert forall|xx: int, yy: int| in_padded(size, xx, yy) implies #[trigger] walls@[slot_of(w, xx, yy)] == ((yy == -1 || yy == h) && xx + 1 < x + 1) by {
                    lemma_slot_bounds(w, h, xx, yy);
                    if slot_of(w, xx, yy) == top as int {
                        lemma_slot_injective(w, xx, yy, x - 1, -1);
                    } else if slot_of(w, xx, yy) == bottom as int {
                        lemma_slot_injective(w, xx, yy, x - 1, h);
                    } else {
                        assert(walls@[slot_of(w, xx, yy)] == before[slot_of(w, xx, yy)]);
                        if (yy == -1 || yy == h) && xx == x - 1 {
                            assert(false);
                        }
                    }
                }
            }
            x = x + 1;
        }
        let mut y: i32 = 1;
        while y <= size.y
            invariant
                1 <= y <= h + 1,
                stride == w + 2,
                n == (w + 2) * (h + 2),
                0 <= w,
                0 <= h,
                n <= i32::MAX,
                w + 2 <= i32::MAX,
                h + 2 <= i32::MAX,
                size.x == w,
                size.y == h,
                walls@.len() == n,
                forall|xx: int, yy: int|
                    in_padded(size, xx, yy) ==> #[trigger] walls@[slot_of(w, xx, yy)] == (yy == -1
                        || yy == h || ((xx == -1 || xx == w) && yy + 1 < y)),
            decreases h + 1 - y,
        {
            proof {
                lemma_slot_bounds(w, h, -1, (y - 1) as int);
                lemma_slot_bounds(w, h, w, (y - 1) as int);
                lemma_slot_bounds(w, h, w, y as int);
            }
            let left = (stride * y) as usize;
            let right_i: i32 = stride * (y + 1) - 1;
            assert(right_i == (w + 2) * (y + 1) - 1);
            assert((w + 2) * (y + 1) >= 1) by (nonlinear_arith)
                requires
                    0 <= w,
                    1 <= y,
            ;
            let right = right_i as usize;
            assert(left == slot_of(w, -1, y - 1));
            assert(right == slot_of(w, w, y - 1)) by (nonlinear_arith)
                requires
                    right == (w + 2) * (y + 1) - 1,
            ;
            let ghost before = walls@;
            walls.set(left, true);
            walls.set(right, true);
            proof {
                assert forall|xx: int, yy: int| in_padded(size, xx, yy) implies #[trigger] walls@[slot_of(w, xx, yy)] == (yy == -1 || yy == h || ((xx == -1 || xx == w) && yy + 1 < y + 1)) by {
                    lemma_slot_bounds(w, h, xx, yy);
                    if slot_of(w, xx, yy) == left as int {
                        lemma_slot_injective(w, xx, yy, -1, y - 1);
                    } else if slot_of(w, xx, yy) == right as int {
                        lemma_slot_injective(w, xx, yy, w, y - 1);
                    } else {
                        assert(walls@[slot_of(w, xx, yy)] == before[slot_of(w, xx, yy)]);
                        if (xx == -1 || xx == w) && yy == y - 1 {
                            assert(false);
                        }
                    }
                }
            }
            y = y + 1;
        }
        TileMap { walls, stride, size }
    }

    /// The number of columns (`x`) and rows (`y`) inside the border.
    pub fn size(&self) -> (s: Coord)
        ensures
            s == self.dims(),
    {
        self.size
    }

    fn idx(&self, tile: Coord) -> (i: usize)
        requires
            self.wf(),
            self.addressable(tile),
        ensures
            i as int == self.slot(tile),
    {
        proof {
            let sx = self.dims().x as int;
            let ty = tile.y as int;
            assert(ty + 1 <= i32::MAX) by (nonlinear_arith)
                requires
                    0 <= sx,
                    (sx + 2) * (ty + 1) <= i32::MAX,
            ;
        }
        (self.stride * (tile.y + 1) + tile.x + 1) as usize
    }

    /// Whether the tile is a wall.
    pub fn get(&self, tile: Coord) -> (wall: bool)
        requires
            self.wf(),
            self.addressable(tile),
        ensures
            wall == self.is_wall(tile),
    {
        self.walls[self.idx(tile)]
    }

    /// Makes the tile a wall or frees it; returns whether its state changed.
    pub fn set(&mut self, tile: Coord, wall: bool) -> (changed: bool)
        requires
            old(self).wf(),
            old(self).addressable(tile),
        ensures
            final(self).wf(),
            final(self).dims() == old(self).dims(),
            final(self).cells() == old(self).cells().update(old(self).slot(tile), wall),
            changed == (old(self).is_wall(tile) != wall),
            !changed ==> *final(self) == *old(self),
    {
        let i = self.idx(tile);
        if self.walls[i] == wall {
            false
        } else {
            self.walls.set(i, wall);
            true
        }
    }
}

} // verus!
