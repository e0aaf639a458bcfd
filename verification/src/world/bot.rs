use vstd::prelude::*;

use crate::coord::Coord;
use crate::tilemap::TileMap;

verus! {

/// How many past positions a trail remembers.
pub const TRAIL_LEN: usize = 20;

/// The last `TRAIL_LEN` positions of a bot, logged once per tick into a
/// ring buffer; `idx` is the slot of the most recent one.
#[derive(Debug)]
pub struct Trail<T> {
    points: [T; TRAIL_LEN],
    idx: usize,
}

impl<T: Copy> Trail<T> {
    /// The slots of the ring buffer.
    pub closed spec fn slots(&self) -> Seq<T> {
        self.points@
    }

    /// The slot of the most recent position.
    pub closed spec fn cursor(&self) -> int {
        self.idx as int
    }

    pub open spec fn wf(&self) -> bool {
        &&& 0 <= self.cursor() < TRAIL_LEN
        &&& self.slots().len() == TRAIL_LEN
    }

    /// The position logged `k` ticks before the most recent one.
    pub open spec fn recent(&self, k: int) -> T {
        self.slots()[(self.cursor() - k) % (TRAIL_LEN as int)]
    }

    /// A trail that has only ever seen `pos`.
    pub fn new(pos: T) -> (t: Trail<T>)
        ensures
            t.wf(),
            t.cursor() == 0,
            forall|i: int| 0 <= i < TRAIL_LEN ==> #[trigger] t.slots()[i] == pos,
    {
        let points = [pos; TRAIL_LEN];
        proof {
            broadcast use vstd::array::group_array_axioms;
        }
        Trail { points, idx: 0 }
    }

    /// The most recently logged position.
    pub fn prev_pos(&self) -> (p: T)
        requires
            self.wf(),
        ensures
            p == self.recent(0),
    {
        self.points[self.idx]
    }

    /// The position logged the tick before the most recent one.
    pub fn prev_prev_pos(&self) -> (p: T)
        requires
            self.wf(),
        ensures
            p == self.recent(1),
    {
        let prev_idx = (self.points.len() + self.idx - 1) % self.points.len();
        assert(prev_idx == (self.cursor() - 1) % (TRAIL_LEN as int));
        self.points[prev_idx]
    }

    /// Records `pos` as the most recent position, overwriting the oldest.
    pub fn log_position(&mut self, pos: T)
        requires
            old(self).wf(),
        ensures
            final(self).wf(),
            final(self).cursor() == (old(self).cursor() + 1) % (TRAIL_LEN as int),
            final(self).slots() == old(self).slots().update(final(self).cursor(), pos),
            final(self).recent(0) == pos,
            forall|k: int| 1 <= k < TRAIL_LEN ==> #[trigger] final(self).recent(k) == old(self).recent(
                k - 1,
            ),
    {
        self.idx = (self.idx + 1) % self.points.len();
        self.points[self.idx] = pos;
        proof {
            assert forall|k: int| 1 <= k < TRAIL_LEN implies #[trigger] self.recent(k) == old(
                self,
            ).recent(k - 1) by {
                let c = old(self).cursor();
                assert((self.cursor() - k) % (TRAIL_LEN as int) == (c - (k - 1)) % (TRAIL_LEN as int));
                assert((c - (k - 1)) % (TRAIL_LEN as int) != self.cursor());
            }
        }
    }

    /// All remembered positions, in slot order.
    pub fn points(&self) -> (a: &[T; TRAIL_LEN])
        ensures
            a@ == self.slots(),
    {
        &self.points
    }
}

/// A point a bot walks through, described by tiles of the map.
#[derive(Clone, Copy, Debug, PartialEq, Eq, Structural)]
pub enum Waypoint {
    /// The centre of a tile.
    Center(Coord),
    /// Taking the diagonal step `(dx, dy)` out of `tile` past a wall on its
    /// x side: a point moved away from that wall.
    WideOfX { tile: Coord, dx: i32, dy: i32 },
    /// Taking the diagonal step `(dx, dy)` out of `tile` past a wall on its
    /// y side (the x side being free): a point moved away from that wall.
    WideOfY { tile: Coord, dx: i32, dy: i32 },
}

/// The sign of `v`: -1, 0 or 1.
pub open spec fn sgn(v: int) -> int {
    if v > 0 {
        1
    } else if v < 0 {
        -1
    } else {
        0
    }
}

pub open spec fn abs_int(v: int) -> int {
    if v < 0 {
        -v
    } else {
        v
    }
}

/// `j` steps of size `d` (`d` one of -1, 0, 1).
pub open spec fn offset(j: int, d: int) -> int {
    if d > 0 {
        j
    } else if d < 0 {
        -j
    } else {
        0
    }
}

/// The step from `a` to `b` runs along an axis or an exact diagonal, so that
/// repeated unit steps toward `b` reach it.
pub open spec fn aligned(a: Coord, b: Coord) -> bool {
    let dx = b.x - a.x;
    let dy = b.y - a.y;
    dx == 0 || dy == 0 || abs_int(dx) == abs_int(dy)
}

/// How many unit steps lead from `a` to `b`.
pub open spec fn step_count(a: Coord, b: Coord) -> nat {
    let dx = abs_int(b.x - a.x);
    let dy = abs_int(b.y - a.y);
    (if dx > dy {
        dx
    } else {
        dy
    }) as nat
}

pub open spec fn at(x: int, y: int) -> Coord {
    Coord { x: x as i32, y: y as i32 }
}

/// The waypoints of one unit step `(dx, dy)` out of tile `(x, y)`: its centre
/// and, on a diagonal step past a wall, a point that keeps clear of it.
pub open spec fn step_waypoints(tm: TileMap, x: int, y: int, dx: int, dy: int) -> Seq<Waypoint> {
    let c = at(x, y);
    if dx != 0 && dy != 0 {
        if tm.wall_at(x + dx, y) {
            seq![Waypoint::Center(c), Waypoint::WideOfX { tile: c, dx: dx as i32, dy: dy as i32 }]
        } else if tm.wall_at(x, y + dy) {
            seq![Waypoint::Center(c), Waypoint::WideOfY { tile: c, dx: dx as i32, dy: dy as i32 }]
        } else {
            seq![Waypoint::Center(c)]
        }
    } else {
        seq![Waypoint::Center(c)]
    }
}

/// The waypoints of the first `n` unit steps `(dx, dy)` from tile `(x, y)`.
pub open spec fn walk(tm: TileMap, x: int, y: int, dx: int, dy: int, n: nat) -> Seq<Waypoint>
    decreases n,
{
    if n == 0 {
        seq![]
    } else {
        walk(tm, x, y, dx, dy, (n - 1) as nat) + step_waypoints(
            tm,
            x + offset(n - 1, dx),
            y + offset(n - 1, dy),
            dx,
            dy,
        )
    }
}

/// The waypoints of the walk from `a` to `b` (without `b` itself).
pub open spec fn segment(tm: TileMap, a: Coord, b: Coord) -> Seq<Waypoint> {
    walk(tm, a.x as int, a.y as int, sgn(b.x - a.x), sgn(b.y - a.y), step_count(a, b))
}

/// The waypoints of the walks along the first `k` steps of `raw`.
pub open spec fn segments(tm: TileMap, raw: Seq<Coord>, k: int) -> Seq<Waypoint>
    decreases k,
{
    if k <= 0 {
        seq![]
    } else {
        segments(tm, raw, k - 1) + segment(tm, raw[k - 1], raw[k])
    }
}

/// The waypoints of a raw tile path: every tile walked through in order, a
/// clearing point after each diagonal step past a wall, and the last tile.
pub open spec fn massaged(tm: TileMap, raw: Seq<Coord>) -> Seq<Waypoint> {
    if raw.len() == 0 {
        seq![]
    } else {
        segments(tm, raw, raw.len() - 1).push(Waypoint::Center(raw.last()))
    }
}

/// The wall lookups of unit step `j` from `a` toward `b` can be made: on a
/// diagonal step the tile beside it along x can be looked up, and, when that
/// one is free, so can the tile beside it along y.
pub open spec fn lookups_ok(tm: TileMap, a: Coord, b: Coord, j: int) -> bool {
    let dx = sgn(b.x - a.x);
    let dy = sgn(b.y - a.y);
    let x = a.x + offset(j, dx);
    let y = a.y + offset(j, dy);
    dx != 0 && dy != 0 ==> {
        &&& tm.addressable(at(x + dx, y))
        &&& !tm.is_wall(at(x + dx, y)) ==> tm.addressable(at(x, y + dy))
    }
}

/// The step from `a` to `b` can be walked: its difference fits in `i32`, it
/// runs along an axis or an exact diagonal, and every wall lookup on the way
/// can be made.
pub open spec fn step_walkable(tm: TileMap, a: Coord, b: Coord) -> bool {
    &&& i32::MIN <= b.x - a.x <= i32::MAX
    &&& i32::MIN <= b.y - a.y <= i32::MAX
    &&& aligned(a, b)
    &&& forall|j: int| 0 <= j < step_count(a, b) ==> #[trigger] lookups_ok(tm, a, b, j)
}

/// Every step of a raw path can be walked.
pub open spec fn walkable(tm: TileMap, raw: Seq<Coord>) -> bool {
    forall|i: int| 0 <= i < raw.len() - 1 ==> step_walkable(tm, #[trigger] raw[i], raw[i + 1])
}

/// A path whose tiles all lie inside the map and whose steps all run along
/// an axis or an exact diagonal can be walked.
pub proof fn lemma_inside_map_walkable(tm: TileMap, raw: Seq<Coord>)
    requires
        tm.wf(),
        forall|i: int|
            0 <= i < raw.len() ==> 0 <= (#[trigger] raw[i]).x < tm.dims().x && 0 <= raw[i].y
                < tm.dims().y,
        forall|i: int| 0 <= i < raw.len() - 1 ==> aligned(#[trigger] raw[i], raw[i + 1]),
    ensures
        walkable(tm, raw),
{
    assert forall|i: int| 0 <= i < raw.len() - 1 implies step_walkable(tm, #[trigger] raw[i], raw[i + 1]) by {
        let a = raw[i];
        let b = raw[i + 1];
        assert(aligned(a, b));
        assert forall|j: int| 0 <= j < step_count(a, b) implies #[trigger] lookups_ok(tm, a, b, j) by {
            lemma_walk_reaches(a, b, j);
            lemma_walk_reaches(a, b, j + 1);
            let dx = sgn(b.x - a.x);
            let dy = sgn(b.y - a.y);
            let x = a.x + offset(j, dx);
            let y = a.y + offset(j, dy);
            if dx != 0 && dy != 0 {
                tm.lemma_padded_addressable(at(x + dx, y));
                tm.lemma_padded_addressable(at(x, y + dy));
            }
        }
    }
}

fn sign(v: i32) -> (s: i32)
    ensures
        s == sgn(v as int),
{
    if v > 0 {
        1
    } else if v < 0 {
        -1
    } else {
        0
    }
}

/// Tile `t` is the `j`-th of the `n` tiles walked from `(x, y)` in unit
/// steps `(dx, dy)`.
pub open spec fn on_walk(x: int, y: int, dx: int, dy: int, n: int, j: int, t: Coord) -> bool {
    &&& 0 <= j < n
    &&& t.x == x + offset(j, dx)
    &&& t.y == y + offset(j, dy)
}

/// Entry `k` of `s`, produced by walking `n` unit steps `(dx, dy)` from
/// `(x, y)`, is the centre of a walked tile, or a clearing point of a walked
/// tile that carries the step's own direction, directly follows that tile's
/// centre, and has a wall beside it: on its x side (`WideOfX`), or on its y
/// side with the x side free (`WideOfY`).
pub open spec fn walk_entry_ok(
    tm: TileMap,
    x: int,
    y: int,
    dx: int,
    dy: int,
    n: int,
    s: Seq<Waypoint>,
    k: int,
) -> bool {
    match s[k] {
        Waypoint::Center(c) => exists|j: int| #[trigger] on_walk(x, y, dx, dy, n, j, c),
        Waypoint::WideOfX { tile, dx: ex, dy: ey } => {
            &&& ex == dx
            &&& ey == dy
            &&& dx != 0
            &&& dy != 0
            &&& exists|j: int| #[trigger] on_walk(x, y, dx, dy, n, j, tile)
            &&& tm.wall_at(tile.x + dx, tile.y as int)
            &&& 1 <= k
            &&& s[k - 1] == Waypoint::Center(tile)
        },
        Waypoint::WideOfY { tile, dx: ex, dy: ey } => {
            &&& ex == dx
            &&& ey == dy
            &&& dx != 0
            &&& dy != 0
            &&& exists|j: int| #[trigger] on_walk(x, y, dx, dy, n, j, tile)
            &&& !tm.wall_at(tile.x + dx, tile.y as int)
            &&& tm.wall_at(tile.x as int, tile.y + dy)
            &&& 1 <= k
            &&& s[k - 1] == Waypoint::Center(tile)
        },
    }
}

/// Every entry of a walk is a walked tile's centre or a correctly placed
/// clearing point.
proof fn lemma_walk_sound(tm: TileMap, x: int, y: int, dx: int, dy: int, n: nat)
    requires
        -1 <= dx <= 1,
        -1 <= dy <= 1,
        forall|j: int|
            0 <= j < n ==> i32::MIN <= x + #[trigger] offset(j, dx) <= i32::MAX && i32::MIN <= y
                + offset(j, dy) <= i32::MAX,
    ensures
        forall|k: int|
            0 <= k < walk(tm, x, y, dx, dy, n).len() ==> #[trigger] walk_entry_ok(
                tm,
                x,
                y,
                dx,
                dy,
                n as int,
                walk(tm, x, y, dx, dy, n),
                k,
            ),
    decreases n,
{
    if n > 0 {
        let m = (n - 1) as nat;
        lemma_walk_sound(tm, x, y, dx, dy, m);
        let prev = walk(tm, x, y, dx, dy, m);
        let px = x + offset(m as int, dx);
        let py = y + offset(m as int, dy);
        let last = step_waypoints(tm, px, py, dx, dy);
        let all = walk(tm, x, y, dx, dy, n);
        assert(all == prev + last);
        assert(i32::MIN <= x + offset(m as int, dx) <= i32::MAX);
        assert(i32::MIN <= y + offset(m as int, dy) <= i32::MAX);
        let c = at(px, py);
        assert(c.x == px && c.y == py);
        assert(on_walk(x, y, dx, dy, n as int, m as int, c));
        assert forall|k: int| 0 <= k < all.len() implies #[trigger] walk_entry_ok(
            tm,
            x,
            y,
            dx,
            dy,
            n as int,
            all,
            k,
        ) by {
            if k < prev.len() {
                assert(walk_entry_ok(tm, x, y, dx, dy, m as int, prev, k));
                assert(all[k] == prev[k]);
                if k >= 1 {
                    assert(all[k - 1] == prev[k - 1]);
                }
                match prev[k] {
                    Waypoint::Center(cc) => {
                        let j = choose|j: int| #[trigger] on_walk(x, y, dx, dy, m as int, j, cc);
                        assert(on_walk(x, y, dx, dy, n as int, j, cc));
                    },
                    Waypoint::WideOfX { tile, .. } => {
                        let j = choose|j: int| #[trigger] on_walk(x, y, dx, dy, m as int, j, tile);
                        assert(on_walk(x, y, dx, dy, n as int, j, tile));
                    },
                    Waypoint::WideOfY { tile, .. } => {
                        let j = choose|j: int| #[trigger] on_walk(x, y, dx, dy, m as int, j, tile);
                        assert(on_walk(x, y, dx, dy, n as int, j, tile));
                    },
                }
                assert(walk_entry_ok(tm, x, y, dx, dy, n as int, all, k));
            } else {
                let j = k - prev.len();
                assert(all[k] == last[j]);
                if j == 0 {
                    assert(all[k] == Waypoint::Center(c));
                    assert(on_walk(x, y, dx, dy, n as int, m as int, c));
                    assert(exists|jj: int| #[trigger] on_walk(x, y, dx, dy, n as int, jj, c));
                    assert(all[k] matches Waypoint::Center(cc) && cc == c);
                    assert(walk_entry_ok(tm, x, y, dx, dy, n as int, all, k));
                } else {
                    assert(j == 1);
                    assert(dx != 0 && dy != 0);
                    assert(all[k - 1] == last[0]);
                    assert(last[0] == Waypoint::Center(c));
                    if tm.wall_at(px + dx, py) {
                        assert(all[k] == Waypoint::WideOfX { tile: c, dx: dx as i32, dy: dy as i32 });
                        assert(walk_entry_ok(tm, x, y, dx, dy, n as int, all, k));
                    } else {
                        assert(tm.wall_at(px, py + dy));
                        assert(all[k] == Waypoint::WideOfY { tile: c, dx: dx as i32, dy: dy as i32 });
                        assert(walk_entry_ok(tm, x, y, dx, dy, n as int, all, k));
                    }
                }
            }
        }
    }
}

/// A walk holds the centre of every tile it walks through, and, on a
/// diagonal walk, a clearing point for every tile with a wall beside it: on
/// its x side (`WideOfX`), or on its y side with the x side free (`WideOfY`).
proof fn lemma_walk_complete(tm: TileMap, x: int, y: int, dx: int, dy: int, n: nat)
    requires
        -1 <= dx <= 1,
        -1 <= dy <= 1,
        forall|j: int|
            0 <= j < n ==> i32::MIN <= x + #[trigger] offset(j, dx) <= i32::MAX && i32::MIN <= y
                + offset(j, dy) <= i32::MAX,
    ensures
        forall|j: int, t: Coord|
            #[trigger] on_walk(x, y, dx, dy, n as int, j, t) ==> {
                &&& walk(tm, x, y, dx, dy, n).contains(Waypoint::Center(t))
                &&& dx != 0 && dy != 0 && tm.wall_at(t.x + dx, t.y as int) ==> walk(
                    tm,
                    x,
                    y,
                    dx,
                    dy,
                    n,
                ).contains(Waypoint::WideOfX { tile: t, dx: dx as i32, dy: dy as i32 })
                &&& dx != 0 && dy != 0 && !tm.wall_at(t.x + dx, t.y as int) && tm.wall_at(
                    t.x as int,
                    t.y + dy,
                ) ==> walk(tm, x, y, dx, dy, n).contains(
                    Waypoint::WideOfY { tile: t, dx: dx as i32, dy: dy as i32 },
                )
            },
    decreases n,
{
    if n > 0 {
        let m = (n - 1) as nat;
        lemma_walk_complete(tm, x, y, dx, dy, m);
        let prev = walk(tm, x, y, dx, dy, m);
        let px = x + offset(m as int, dx);
        let py = y + offset(m as int, dy);
        let last = step_waypoints(tm, px, py, dx, dy);
        let all = walk(tm, x, y, dx, dy, n);
        assert(all == prev + last);
        assert(i32::MIN <= x + offset(m as int, dx) <= i32::MAX);
        assert(i32::MIN <= y + offset(m as int, dy) <= i32::MAX);
        assert forall|j: int, t: Coord| #[trigger] on_walk(x, y, dx, dy, n as int, j, t) implies {
            &&& all.contains(Waypoint::Center(t))
            &&& dx != 0 && dy != 0 && tm.wall_at(t.x + dx, t.y as int) ==> all.contains(
                Waypoint::WideOfX { tile: t, dx: dx as i32, dy: dy as i32 },
            )
            &&& dx != 0 && dy != 0 && !tm.wall_at(t.x + dx, t.y as int) && tm.wall_at(
                t.x as int,
                t.y + dy,
            ) ==> all.contains(Waypoint::WideOfY { tile: t, dx: dx as i32, dy: dy as i32 })
        } by {
            if j < m {
                assert(on_walk(x, y, dx, dy, m as int, j, t));
                let e = Waypoint::Center(t);
                let i0 = choose|i: int| 0 <= i < prev.len() && prev[i] == e;
                assert(all[i0] == e);
                if dx != 0 && dy != 0 && tm.wall_at(t.x + dx, t.y as int) {
                    let e = Waypoint::WideOfX { tile: t, dx: dx as i32, dy: dy as i32 };
                    let i1 = choose|i: int| 0 <= i < prev.len() && prev[i] == e;
                    assert(all[i1] == e);
                }
                if dx != 0 && dy != 0 && !tm.wall_at(t.x + dx, t.y as int) && tm.wall_at(
                    t.x as int,
                    t.y + dy,
                ) {
                    let e = Waypoint::WideOfY { tile: t, dx: dx as i32, dy: dy as i32 };
                    let i1 = choose|i: int| 0 <= i < prev.len() && prev[i] == e;
                    assert(all[i1] == e);
                }
            } else {
                assert(j == m);
                assert(t == at(px, py));
                assert(all[prev.len() as int] == last[0]);
                assert(all[prev.len() as int] == Waypoint::Center(t));
                if dx != 0 && dy != 0 && tm.wall_at(t.x + dx, t.y as int) {
                    assert(all[prev.len() as int + 1] == last[1]);
                    assert(all[prev.len() as int + 1] == Waypoint::WideOfX {
                        tile: t,
                        dx: dx as i32,
                        dy: dy as i32,
                    });
                }
                if dx != 0 && dy != 0 && !tm.wall_at(t.x + dx, t.y as int) && tm.wall_at(
                    t.x as int,
                    t.y + dy,
                ) {
                    assert(all[prev.len() as int + 1] == last[1]);
                    assert(all[prev.len() as int + 1] == Waypoint::WideOfY {
                        tile: t,
                        dx: dx as i32,
                        dy: dy as i32,
                    });
                }
            }
        }
    }
}

/// The x direction of step `i` of a raw path.
pub open spec fn step_dx(raw: Seq<Coord>, i: int) -> int {
    sgn(raw[i + 1].x - raw[i].x)
}

/// The y direction of step `i` of a raw path.
pub open spec fn step_dy(raw: Seq<Coord>, i: int) -> int {
    sgn(raw[i + 1].y - raw[i].y)
}

/// Tile `t` is the `j`-th tile walked through on step `i` of a raw path,
/// from `raw[i]` toward `raw[i + 1]`.
pub open spec fn walked_tile(raw: Seq<Coord>, i: int, j: int, t: Coord) -> bool {
    &&& 0 <= i < raw.len() - 1
    &&& on_walk(
        raw[i].x as int,
        raw[i].y as int,
        step_dx(raw, i),
        step_dy(raw, i),
        step_count(raw[i], raw[i + 1]) as int,
        j,
        t,
    )
}

/// Entry `k` of `s` is the centre of the last tile of `raw` or of a tile
/// walked through on one of its steps, or a clearing point of a walked tile
/// that carries the direction of the step that walks through it, directly
/// follows that tile's centre, and has a wall beside it: on its x side
/// (`WideOfX`), or on its y side with the x side free (`WideOfY`).
pub open spec fn path_entry_ok(tm: TileMap, raw: Seq<Coord>, s: Seq<Waypoint>, k: int) -> bool {
    match s[k] {
        Waypoint::Center(c) => (raw.len() > 0 && c == raw.last()) || exists|i: int, j: int|
            #[trigger] walked_tile(raw, i, j, c),
        Waypoint::WideOfX { tile, dx, dy } => {
            &&& exists|i: int, j: int|
                #[trigger] walked_tile(raw, i, j, tile) && dx == step_dx(raw, i) && dy == step_dy(
                    raw,
                    i,
                )
            &&& dx != 0
            &&& dy != 0
            &&& tm.wall_at(tile.x + dx, tile.y as int)
            &&& 1 <= k
            &&& s[k - 1] == Waypoint::Center(tile)
        },
        Waypoint::WideOfY { tile, dx, dy } => {
            &&& exists|i: int, j: int|
                #[trigger] walked_tile(raw, i, j, tile) && dx == step_dx(raw, i) && dy == step_dy(
                    raw,
                    i,
                )
            &&& dx != 0
            &&& dy != 0
            &&& !tm.wall_at(tile.x + dx, tile.y as int)
            &&& tm.wall_at(tile.x as int, tile.y + dy)
            &&& 1 <= k
            &&& s[k - 1] == Waypoint::Center(tile)
        },
    }
}

/// What a raw path's waypoints must hold for every tile walked on its steps:
/// the tile's centre, and, on a diagonal step, a clearing point carrying the
/// step's direction when a wall stands beside the tile: on its x side
/// (`WideOfX`), or on its y side with the x side free (`WideOfY`).
pub open spec fn covers_walked_tile(tm: TileMap, raw: Seq<Coord>, s: Seq<Waypoint>, i: int, t: Coord) -> bool {
    let dx = step_dx(raw, i);
    let dy = step_dy(raw, i);
    &&& s.contains(Waypoint::Center(t))
    &&& dx != 0 && dy != 0 && tm.wall_at(t.x + dx, t.y as int) ==> s.contains(
        Waypoint::WideOfX { tile: t, dx: dx as i32, dy: dy as i32 },
    )
    &&& dx != 0 && dy != 0 && !tm.wall_at(t.x + dx, t.y as int) && tm.wall_at(t.x as int, t.y + dy)
        ==> s.contains(Waypoint::WideOfY { tile: t, dx: dx as i32, dy: dy as i32 })
}

proof fn lemma_step_in_range(raw: Seq<Coord>, i: int)
    requires
        0 <= i < raw.len() - 1,
        aligned(raw[i], raw[i + 1]),
    ensures
        -1 <= step_dx(raw, i) <= 1,
        -1 <= step_dy(raw, i) <= 1,
        forall|j: int|
            0 <= j < step_count(raw[i], raw[i + 1]) ==> i32::MIN <= raw[i].x + #[trigger] offset(
                j,
                step_dx(raw, i),
            ) <= i32::MAX && i32::MIN <= raw[i].y + offset(j, step_dy(raw, i)) <= i32::MAX,
{
    assert forall|j: int| 0 <= j < step_count(raw[i], raw[i + 1]) implies i32::MIN <= raw[i].x
        + #[trigger] offset(j, step_dx(raw, i)) <= i32::MAX && i32::MIN <= raw[i].y + offset(
        j,
        step_dy(raw, i),
    ) <= i32::MAX by {
        lemma_walk_reaches(raw[i], raw[i + 1], j);
    }
}

proof fn lemma_segments_follow(tm: TileMap, raw: Seq<Coord>, kk: int)
    requires
        walkable(tm, raw),
        0 <= kk <= raw.len() - 1,
    ensures
        forall|k: int|
            0 <= k < segments(tm, raw, kk).len() ==> #[trigger] path_entry_ok(
                tm,
                raw,
                segments(tm, raw, kk),
                k,
            ),
        forall|i: int, j: int, t: Coord|
            #[trigger] walked_tile(raw, i, j, t) && i < kk ==> covers_walked_tile(
                tm,
                raw,
                segments(tm, raw, kk),
                i,
                t,
            ),
    decreases kk,
{
    if kk > 0 {
        lemma_segments_follow(tm, raw, kk - 1);
        let i0 = kk - 1;
        let a = raw[i0];
        let b = raw[kk];
        assert(step_walkable(tm, a, b));
        lemma_step_in_range(raw, i0);
        let dx = step_dx(raw, i0);
        let dy = step_dy(raw, i0);
        let n = step_count(a, b);
        lemma_walk_sound(tm, a.x as int, a.y as int, dx, dy, n);
        lemma_walk_complete(tm, a.x as int, a.y as int, dx, dy, n);
        let prev = segments(tm, raw, kk - 1);
        let seg = walk(tm, a.x as int, a.y as int, dx, dy, n);
        let all = segments(tm, raw, kk);
        assert(all == prev + seg);
        assert forall|k: int| 0 <= k < all.len() implies #[trigger] path_entry_ok(tm, raw, all, k) by {
            if k < prev.len() {
                assert(path_entry_ok(tm, raw, prev, k));
                assert(all[k] == prev[k]);
                if k >= 1 {
                    assert(all[k - 1] == prev[k - 1]);
                }
            } else {
                let q = k - prev.len();
                assert(all[k] == seg[q]);
                assert(walk_entry_ok(tm, a.x as int, a.y as int, dx, dy, n as int, seg, q));
                if q >= 1 {
                    assert(all[k - 1] == seg[q - 1]);
                }
                match seg[q] {
                    Waypoint::Center(c) => {
                        let j = choose|j: int| #[trigger] on_walk(a.x as int, a.y as int, dx, dy, n as int, j, c);
                        assert(walked_tile(raw, i0, j, c));
                    },
                    Waypoint::WideOfX { tile, .. } => {
                        let j = choose|j: int| #[trigger] on_walk(a.x as int, a.y as int, dx, dy, n as int, j, tile);
                        assert(walked_tile(raw, i0, j, tile));
                    },
                    Waypoint::WideOfY { tile, .. } => {
                        let j = choose|j: int| #[trigger] on_walk(a.x as int, a.y as int, dx, dy, n as int, j, tile);
                        assert(walked_tile(raw, i0, j, tile));
                    },
                }
            }
        }
        assert forall|i: int, j: int, t: Coord| #[trigger] walked_tile(raw, i, j, t) && i < kk implies covers_walked_tile(
            tm,
            raw,
            all,
            i,
            t,
        ) by {
            let ddx = step_dx(raw, i);
            let ddy = step_dy(raw, i);
            if i < kk - 1 {
                assert(covers_walked_tile(tm, raw, prev, i, t));
                let e = Waypoint::Center(t);
                let p0 = choose|p: int| 0 <= p < prev.len() && prev[p] == e;
                assert(all[p0] == e);
                if ddx != 0 && ddy != 0 && tm.wall_at(t.x + ddx, t.y as int) {
                    let e = Waypoint::WideOfX { tile: t, dx: ddx as i32, dy: ddy as i32 };
                    let p1 = choose|p: int| 0 <= p < prev.len() && prev[p] == e;
                    assert(all[p1] == e);
                }
                if ddx != 0 && ddy != 0 && !tm.wall_at(t.x + ddx, t.y as int) && tm.wall_at(
                    t.x as int,
                    t.y + ddy,
                ) {
                    let e = Waypoint::WideOfY { tile: t, dx: ddx as i32, dy: ddy as i32 };
                    let p1 = choose|p: int| 0 <= p < prev.len() && prev[p] == e;
                    assert(all[p1] == e);
                }
            } else {
                assert(i == i0);
                assert(on_walk(a.x as int, a.y as int, dx, dy, n as int, j, t));
                let e = Waypoint::Center(t);
                let p0 = choose|p: int| 0 <= p < seg.len() && seg[p] == e;
                assert(all[prev.len() + p0] == e);
                if ddx != 0 && ddy != 0 && tm.wall_at(t.x + ddx, t.y as int) {
                    let e = Waypoint::WideOfX { tile: t, dx: ddx as i32, dy: ddy as i32 };
                    let p1 = choose|p: int| 0 <= p < seg.len() && seg[p] == e;
                    assert(all[prev.len() + p1] == e);
                }
                if ddx != 0 && ddy != 0 && !tm.wall_at(t.x + ddx, t.y as int) && tm.wall_at(
                    t.x as int,
                    t.y + ddy,
                ) {
                    let e = Waypoint::WideOfY { tile: t, dx: ddx as i32, dy: ddy as i32 };
                    let p1 = choose|p: int| 0 <= p < seg.len() && seg[p] == e;
                    assert(all[prev.len() + p1] == e);
                }
            }
        }
    }
}

/// The waypoints of a raw path follow its steps. Every entry is the centre
/// of the last tile or of a tile walked through on some step, or a clearing
/// point of such a tile that carries that step's own direction, directly
/// follows the tile's centre and has a wall beside it: on its x side
/// (`WideOfX`), or on its y side with the x side free (`WideOfY`). Conversely
/// every walked tile has its centre among the waypoints, and, on a diagonal
/// step, the clearing point for a wall beside it. The last waypoint is the
/// centre of the last tile.
pub proof fn lemma_waypoints_follow_path(tm: TileMap, raw: Seq<Coord>)
    requires
        walkable(tm, raw),
    ensures
        forall|k: int|
            0 <= k < massaged(tm, raw).len() ==> #[trigger] path_entry_ok(
                tm,
                raw,
                massaged(tm, raw),
                k,
            ),
        forall|i: int, j: int, t: Coord|
            #[trigger] walked_tile(raw, i, j, t) ==> covers_walked_tile(
                tm,
                raw,
                massaged(tm, raw),
                i,
                t,
            ),
        raw.len() > 0 ==> massaged(tm, raw).last() == Waypoint::Center(raw.last()),
{
    if raw.len() > 0 {
        let kk = raw.len() - 1;
        lemma_segments_follow(tm, raw, kk);
        let segs = segments(tm, raw, kk);
        let all = massaged(tm, raw);
        assert(all == segs.push(Waypoint::Center(raw.last())));
        assert forall|k: int| 0 <= k < all.len() implies #[trigger] path_entry_ok(tm, raw, all, k) by {
            if k < segs.len() {
                assert(path_entry_ok(tm, raw, segs, k));
                assert(all[k] == segs[k]);
                if k >= 1 {
                    assert(all[k - 1] == segs[k - 1]);
                }
            } else {
                assert(all[k] == Waypoint::Center(raw.last()));
            }
        }
        assert forall|i: int, j: int, t: Coord| #[trigger] walked_tile(raw, i, j, t) implies covers_walked_tile(
            tm,
            raw,
            all,
            i,
            t,
        ) by {
            assert(covers_walked_tile(tm, raw, segs, i, t));
            let ddx = step_dx(raw, i);
            let ddy = step_dy(raw, i);
            let e = Waypoint::Center(t);
            let p0 = choose|p: int| 0 <= p < segs.len() && segs[p] == e;
            assert(all[p0] == e);
            if ddx != 0 && ddy != 0 && tm.wall_at(t.x + ddx, t.y as int) {
                let e = Waypoint::WideOfX { tile: t, dx: ddx as i32, dy: ddy as i32 };
                let p1 = choose|p: int| 0 <= p < segs.len() && segs[p] == e;
                assert(all[p1] == e);
            }
            if ddx != 0 && ddy != 0 && !tm.wall_at(t.x + ddx, t.y as int) && tm.wall_at(
                t.x as int,
                t.y + ddy,
            ) {
                let e = Waypoint::WideOfY { tile: t, dx: ddx as i32, dy: ddy as i32 };
                let p1 = choose|p: int| 0 <= p < segs.len() && segs[p] == e;
                assert(all[p1] == e);
            }
        }
    }
}

/// Unit steps toward an aligned target reach it after `step_count` steps
/// and not before.
proof fn lemma_walk_reaches(a: Coord, b: Coord, j: int)
    requires
        aligned(a, b),
        0 <= j <= step_count(a, b),
    ensures
        (a.x + offset(j, sgn(b.x - a.x)) == b.x && a.y + offset(j, sgn(b.y - a.y)) == b.y) <==> j
            == step_count(a, b),
        a.x <= a.x + offset(j, sgn(b.x - a.x)) <= b.x || b.x <= a.x + offset(j, sgn(b.x - a.x))
            <= a.x,
        a.y <= a.y + offset(j, sgn(b.y - a.y)) <= b.y || b.y <= a.y + offset(j, sgn(b.y - a.y))
            <= a.y,
{
}

/// Turns a raw path of tiles, as a path finder returns it, into the
/// waypoints a bot follows: the centre of every tile walked through, a
/// point that keeps clear of the wall after each diagonal step past one,
/// and finally the last tile.
pub fn massage_waypoints(tilemap: &TileMap, raw_path: &[Coord]) -> (path: Vec<Waypoint>)
    requires
        tilemap.wf(),
        walkable(*tilemap, raw_path@),
    ensures
        path@ == massaged(*tilemap, raw_path@),
        forall|k: int| 0 <= k < path@.len() ==> #[trigger] path_entry_ok(*tilemap, raw_path@, path@, k),
        forall|i: int, j: int, t: Coord|
            #[trigger] walked_tile(raw_path@, i, j, t) ==> covers_walked_tile(
                *tilemap,
                raw_path@,
                path@,
                i,
                t,
            ),
        raw_path@.len() > 0 ==> path@.last() == Waypoint::Center(raw_path@.last()),
{
    proof {
        lemma_waypoints_follow_path(*tilemap, raw_path@);
    }
    let len = raw_path.len();
    if len == 0 {
        return Vec::new();
    }
    let last = raw_path[len - 1];
    let mut path: Vec<Waypoint> = Vec::new();
    let mut cur = raw_path[0];
    let mut i: usize = 0;
    while i + 1 < len
        invariant
            tilemap.wf(),
            walkable(*tilemap, raw_path@),
            len == raw_path@.len(),
            0 <= i < len,
            cur == raw_path@[i as int],
            path@ == segments(*tilemap, raw_path@, i as int),
        decreases len - i,
    {
        let a = raw_path[i];
        let b = raw_path[i + 1];
        assert(step_walkable(*tilemap, a, b));
        let d = Coord { x: sign(b.x - a.x), y: sign(b.y - a.y) };
        let ghost n = step_count(a, b);
        let ghost prefix = path@;
        let ghost mut j: int = 0;
        while cur != b
            invariant
                tilemap.wf(),
                step_walkable(*tilemap, a, b),
                n == step_count(a, b),
                d.x == sgn(b.x - a.x),
                d.y == sgn(b.y - a.y),
                0 <= j <= n,
                cur.x == a.x + offset(j, d.x as int),
                cur.y == a.y + offset(j, d.y as int),
                path@ == prefix + walk(
                    *tilemap,
                    a.x as int,
                    a.y as int,
                    d.x as int,
                    d.y as int,
                    j as nat,
                ),
            decreases n - j,
        {
            proof {
                lemma_walk_reaches(a, b, j);
                if j == n {
                    assert(cur == b);
                }
                lemma_walk_reaches(a, b, j + 1);
            }
            let ghost before = path@;
            path.push(Waypoint::Center(cur));
            if d.x != 0 && d.y != 0 {
                let side_x = Coord { x: cur.x + d.x, y: cur.y };
                let side_y = Coord { x: cur.x, y: cur.y + d.y };
                proof {
                    assert(lookups_ok(*tilemap, a, b, j));
                }
                if tilemap.get(side_x) {
                    path.push(Waypoint::WideOfX { tile: cur, dx: d.x, dy: d.y });
                } else if tilemap.get(side_y) {
                    path.push(Waypoint::WideOfY { tile: cur, dx: d.x, dy: d.y });
                }
            }
            proof {
                assert(path@ =~= before + step_waypoints(
                    *tilemap,
                    cur.x as int,
                    cur.y as int,
                    d.x as int,
                    d.y as int,
                ));
                assert(walk(*tilemap, a.x as int, a.y as int, d.x as int, d.y as int, (j + 1) as nat)
                    == walk(*tilemap, a.x as int, a.y as int, d.x as int, d.y as int, j as nat)
                    + step_waypoints(*tilemap, cur.x as int, cur.y as int, d.x as int, d.y as int));
                j = j + 1;
            }
            cur = Coord { x: cur.x + d.x, y: cur.y + d.y };
        }
        proof {
            lemma_walk_reaches(a, b, j);
            assert(path@ == segments(*tilemap, raw_path@, i + 1));
        }
        i = i + 1;
    }
    path.push(Waypoint::Center(last));
    path
}

} // verus!
