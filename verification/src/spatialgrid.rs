use vstd::prelude::*;

verus! {

/// The keys of cells `(x, y0) .. (x, y1 - 1)` of a grid `cols` cells wide,
/// in increasing `y`.
pub open spec fn column_keys<K>(cells: Seq<Seq<K>>, cols: int, x: int, y0: int, y1: int) -> Seq<K>
    decreases y1 - y0,
{
    if y1 <= y0 {
        seq![]
    } else {
        column_keys(cells, cols, x, y0, y1 - 1) + cells[(y1 - 1) * cols + x]
    }
}

/// The keys of the cells with `x0 <= x < x1` and `y0 <= y < y1`, column by
/// column, each column in increasing `y`.
pub open spec fn range_keys<K>(
    cells: Seq<Seq<K>>,
    cols: int,
    x0: int,
    x1: int,
    y0: int,
    y1: int,
) -> Seq<K>
    decreases x1 - x0,
{
    if x1 <= x0 {
        seq![]
    } else {
        range_keys(cells, cols, x0, x1 - 1, y0, y1) + column_keys(cells, cols, x1 - 1, y0, y1)
    }
}

pub open spec fn max_int(a: int, b: int) -> int {
    if a > b {
        a
    } else {
        b
    }
}

pub open spec fn min_int(a: int, b: int) -> int {
    if a < b {
        a
    } else {
        b
    }
}

/// A key is in a column's keys exactly when one of its cells holds it.
pub proof fn lemma_column_keys_contains<K>(
    cells: Seq<Seq<K>>,
    cols: int,
    x: int,
    y0: int,
    y1: int,
    k: K,
)
    ensures
        column_keys(cells, cols, x, y0, y1).contains(k) <==> exists|y: int|
            y0 <= y < y1 && #[trigger] cells[y * cols + x].contains(k),
    decreases y1 - y0,
{
    if y1 > y0 {
        lemma_column_keys_contains(cells, cols, x, y0, y1 - 1, k);
        let prefix = column_keys(cells, cols, x, y0, y1 - 1);
        let last = cells[(y1 - 1) * cols + x];
        assert((prefix + last).contains(k) <==> prefix.contains(k) || last.contains(k)) by {
            if (prefix + last).contains(k) {
                let i = choose|i: int| 0 <= i < (prefix + last).len() && (prefix + last)[i] == k;
                if i < prefix.len() {
                    assert(prefix[i] == k);
                } else {
                    assert(last[i - prefix.len()] == k);
                }
            }
            if prefix.contains(k) {
                let i = choose|i: int| 0 <= i < prefix.len() && prefix[i] == k;
                assert((prefix + last)[i] == k);
            }
            if last.contains(k) {
                let i = choose|i: int| 0 <= i < last.len() && last[i] == k;
                assert((prefix + last)[prefix.len() + i] == k);
            }
        }
        if last.contains(k) {
            assert(cells[(y1 - 1) * cols + x].contains(k));
        }
        if exists|y: int| y0 <= y < y1 && #[trigger] cells[y * cols + x].contains(k) {
            let y = choose|y: int| y0 <= y < y1 && #[trigger] cells[y * cols + x].contains(k);
            if y < y1 - 1 {
                assert(prefix.contains(k));
            } else {
                assert(last.contains(k));
            }
        }
    }
}

/// A key is in the keys of a range exactly when one of its cells holds it.
pub proof fn lemma_range_keys_contains<K>(
    cells: Seq<Seq<K>>,
    cols: int,
    x0: int,
    x1: int,
    y0: int,
    y1: int,
    k: K,
)
    ensures
        range_keys(cells, cols, x0, x1, y0, y1).contains(k) <==> exists|x: int, y: int|
            x0 <= x < x1 && y0 <= y < y1 && #[trigger] cells[y * cols + x].contains(k),
    decreases x1 - x0,
{
    if x1 > x0 {
        lemma_range_keys_contains(cells, cols, x0, x1 - 1, y0, y1, k);
        lemma_column_keys_contains(cells, cols, x1 - 1, y0, y1, k);
        let prefix = range_keys(cells, cols, x0, x1 - 1, y0, y1);
        let last = column_keys(cells, cols, x1 - 1, y0, y1);
        assert((prefix + last).contains(k) <==> prefix.contains(k) || last.contains(k)) by {
            if (prefix + last).contains(k) {
                let i = choose|i: int| 0 <= i < (prefix + last).len() && (prefix + last)[i] == k;
                if i < prefix.len() {
                    assert(prefix[i] == k);
                } else {
                    assert(last[i - prefix.len()] == k);
                }
            }
            if prefix.contains(k) {
                let i = choose|i: int| 0 <= i < prefix.len() && prefix[i] == k;
                assert((prefix + last)[i] == k);
            }
            if last.contains(k) {
                let i = choose|i: int| 0 <= i < last.len() && last[i] == k;
                assert((prefix + last)[prefix.len() + i] == k);
            }
        }
        if last.contains(k) {
            let y = choose|y: int| y0 <= y < y1 && #[trigger] cells[y * cols + (x1 - 1)].contains(k);
            assert(x0 <= x1 - 1 < x1 && y0 <= y < y1 && cells[y * cols + (x1 - 1)].contains(k));
        }
        if exists|x: int, y: int| x0 <= x < x1 && y0 <= y < y1 && #[trigger] cells[y * cols + x].contains(k) {
            let (x, y) = choose|x: int, y: int|
                x0 <= x < x1 && y0 <= y < y1 && #[trigger] cells[y * cols + x].contains(k);
            if x < x1 - 1 {
                assert(prefix.contains(k));
            } else {
                assert(cells[y * cols + (x1 - 1)].contains(k));
                assert(last.contains(k));
            }
        }
    }
}

/// A range of cells that are all empty holds no keys.
pub proof fn lemma_range_keys_empty<K>(cells: Seq<Seq<K>>, cols: int, x0: int, x1: int, y0: int, y1: int)
    requires
        forall|x: int, y: int| x0 <= x < x1 && y0 <= y < y1 ==> (#[trigger] cells[y * cols + x]).len() == 0,
    ensures
        range_keys(cells, cols, x0, x1, y0, y1).len() == 0,
{
    let r = range_keys(cells, cols, x0, x1, y0, y1);
    if r.len() > 0 {
        lemma_range_keys_contains(cells, cols, x0, x1, y0, y1, r[0]);
        assert(r.contains(r[0]));
        let (x, y) = choose|x: int, y: int|
            x0 <= x < x1 && y0 <= y < y1 && #[trigger] cells[y * cols + x].contains(r[0]);
        assert(cells[y * cols + x].len() == 0);
    }
}

/// A grid of cells over the world, each holding the keys of the things that
/// were inserted at a position inside it. Cell `(x, y)` is stored at
/// `y * cols + x`.
pub struct SpatialGrid<K> {
    cells: Vec<Vec<K>>,
    cols: i32,
    rows: i32,
}

impl<K: Copy> SpatialGrid<K> {
    /// The keys in every cell, in storage order.
    pub closed spec fn contents(&self) -> Seq<Seq<K>> {
        self.cells@.map_values(|c: Vec<K>| c@)
    }

    pub closed spec fn num_cols(&self) -> int {
        self.cols as int
    }

    pub closed spec fn num_rows(&self) -> int {
        self.rows as int
    }

    pub open spec fn wf(&self) -> bool {
        &&& 0 <= self.num_cols() * self.num_rows() <= i32::MAX
        &&& self.contents().len() == self.num_cols() * self.num_rows()
    }

    /// Cell `(x, y)` lies in the grid.
    pub open spec fn in_grid(&self, x: int, y: int) -> bool {
        0 <= x < self.num_cols() && 0 <= y < self.num_rows()
    }

    /// Where cell `(x, y)` is stored.
    pub open spec fn cell_of(&self, x: int, y: int) -> int {
        y * self.num_cols() + x
    }

    /// The keys a query over cell columns `[min_x, max_x)` and rows
    /// `[min_y, max_y)` returns: those of the cells of that range that lie in
    /// the grid.
    pub open spec fn keys_in(&self, min_x: int, max_x: int, min_y: int, max_y: int) -> Seq<K> {
        range_keys(
            self.contents(),
            self.num_cols(),
            max_int(min_x, 0),
            min_int(max_x, self.num_cols()),
            max_int(min_y, 0),
            min_int(max_y, self.num_rows()),
        )
    }

    proof fn lemma_cell_bounds(&self, x: int, y: int)
        requires
            self.wf(),
            self.in_grid(x, y),
        ensures
            0 <= self.cell_of(x, y) < self.contents().len(),
    {
        let c = self.num_cols();
        let r = self.num_rows();
        assert(0 <= y * c + x < c * r) by (nonlinear_arith)
            requires
                0 <= x < c,
                0 <= y < r,
        ;
    }

    /// A query finds a key exactly when one of the queried cells that lie in
    /// the grid holds it.
    pub proof fn lemma_query_contains(
        &self,
        min_x: int,
        max_x: int,
        min_y: int,
        max_y: int,
        k: K,
    )
        requires
            self.wf(),
        ensures
            self.keys_in(min_x, max_x, min_y, max_y).contains(k) <==> exists|x: int, y: int|
                min_x <= x < max_x && min_y <= y < max_y && self.in_grid(x, y)
                    && #[trigger] self.contents()[self.cell_of(x, y)].contains(k),
    {
        let x0 = max_int(min_x, 0);
        let x1 = min_int(max_x, self.num_cols());
        let y0 = max_int(min_y, 0);
        let y1 = min_int(max_y, self.num_rows());
        lemma_range_keys_contains(self.contents(), self.num_cols(), x0, x1, y0, y1, k);
        if exists|x: int, y: int|
            min_x <= x < max_x && min_y <= y < max_y && self.in_grid(x, y)
                && #[trigger] self.contents()[self.cell_of(x, y)].contains(k) {
            let (x, y) = choose|x: int, y: int|
                min_x <= x < max_x && min_y <= y < max_y && self.in_grid(x, y)
                    && #[trigger] self.contents()[self.cell_of(x, y)].contains(k);
            assert(self.contents()[y * self.num_cols() + x].contains(k));
        }
        if self.keys_in(min_x, max_x, min_y, max_y).contains(k) {
            let (x, y) = choose|x: int, y: int|
                x0 <= x < x1 && y0 <= y < y1 && #[trigger] self.contents()[y * self.num_cols()
                    + x].contains(k);
            assert(self.contents()[self.cell_of(x, y)].contains(k));
        }
    }

    /// A key inserted into a cell of the grid is found by every later query
    /// whose range covers that cell.
    pub proof fn lemma_insert_then_query(
        before: Self,
        after: Self,
        x: int,
        y: int,
        key: K,
        min_x: int,
        max_x: int,
        min_y: int,
        max_y: int,
    )
        requires
            before.wf(),
            after.wf(),
            after.num_cols() == before.num_cols(),
            after.num_rows() == before.num_rows(),
            before.in_grid(x, y),
            after.contents() == before.contents().update(
                before.cell_of(x, y),
                before.contents()[before.cell_of(x, y)].push(key),
            ),
            min_x <= x < max_x,
            min_y <= y < max_y,
        ensures
            after.keys_in(min_x, max_x, min_y, max_y).contains(key),
    {
        before.lemma_cell_bounds(x, y);
        let cell = after.contents()[after.cell_of(x, y)];
        assert(cell[cell.len() - 1] == key);
        assert(cell.contains(key));
        after.lemma_query_contains(min_x, max_x, min_y, max_y, key);
    }

    /// When every cell is empty, every query returns nothing.
    pub proof fn lemma_empty_query(&self, min_x: int, max_x: int, min_y: int, max_y: int)
        requires
            self.wf(),
            forall|i: int| 0 <= i < self.contents().len() ==> (#[trigger] self.contents()[i]).len()
                == 0,
        ensures
            self.keys_in(min_x, max_x, min_y, max_y).len() == 0,
    {
        let x0 = max_int(min_x, 0);
        let x1 = min_int(max_x, self.num_cols());
        let y0 = max_int(min_y, 0);
        let y1 = min_int(max_y, self.num_rows());
        assert forall|x: int, y: int| x0 <= x < x1 && y0 <= y < y1 implies (
        #[trigger] self.contents()[y * self.num_cols() + x]).len() == 0 by {
            self.lemma_cell_bounds(x, y);
        }
        lemma_range_keys_empty(self.contents(), self.num_cols(), x0, x1, y0, y1);
    }

    /// An empty grid of `cols` by `rows` cells.
    pub fn new(cols: i32, rows: i32) -> (g: SpatialGrid<K>)
        requires
            0 <= cols * rows <= i32::MAX,
        ensures
            g.wf(),
            g.num_cols() == cols,
            g.num_rows() == rows,
            forall|i: int| 0 <= i < g.contents().len() ==> (#[trigger] g.contents()[i]).len() == 0,
    {
        let n = cols * rows;
        let mut cells: Vec<Vec<K>> = Vec::new();
        let mut k: i32 = 0;
        while k < n
            invariant
                0 <= k <= n,
                cells@.len() == k,
                forall|j: int| 0 <= j < k ==> (#[trigger] cells@[j])@.len() == 0,
            decreases n - k,
        {
            cells.push(Vec::new());
            k = k + 1;
        }
        SpatialGrid { cells, cols, rows }
    }

    /// Empties every cell.
    pub fn clear(&mut self)
        requires
            old(self).wf(),
        ensures
            final(self).wf(),
            final(self).num_cols() == old(self).num_cols(),
            final(self).num_rows() == old(self).num_rows(),
            final(self).contents().len() == old(self).contents().len(),
            forall|i: int|
                0 <= i < final(self).contents().len() ==> (#[trigger] final(self).contents()[i]).len()
                    == 0,
    {
        let n = self.cells.len();
        let mut i: usize = 0;
        while i < n
            invariant
                0 <= i <= n,
                self.cells@.len() == n,
                self.wf(),
                self.num_cols() == old(self).num_cols(),
                self.num_rows() == old(self).num_rows(),
                forall|j: int| 0 <= j < i ==> (#[trigger] self.cells@[j])@.len() == 0,
            decreases n - i,
        {
            self.cells.set(i, Vec::new());
            i = i + 1;
        }
    }

    /// Where cell `(x, y)` is stored, if it lies in the grid.
    pub fn cell_index(&self, x: i32, y: i32) -> (idx: Option<usize>)
        requires
            self.wf(),
        ensures
            idx == (if self.in_grid(x as int, y as int) {
                Some(self.cell_of(x as int, y as int) as usize)
            } else {
                None
            }),
            idx matches Some(i) ==> i < self.contents().len() && i as int == self.cell_of(
                x as int,
                y as int,
            ),
    {
        if x >= 0 && x < self.cols && y >= 0 && y < self.rows {
            proof {
                self.lemma_cell_bounds(x as int, y as int);
            }
            Some((y * self.cols + x) as usize)
        } else {
            None
        }
    }

    /// Adds `key` to cell `(x, y)`; does nothing if the cell lies outside the grid.
    pub fn insert(&mut self, x: i32, y: i32, key: K)
        requires
            old(self).wf(),
        ensures
            final(self).wf(),
            final(self).num_cols() == old(self).num_cols(),
            final(self).num_rows() == old(self).num_rows(),
            final(self).contents() == (if old(self).in_grid(x as int, y as int) {
                old(self).contents().update(
                    old(self).cell_of(x as int, y as int),
                    old(self).contents()[old(self).cell_of(x as int, y as int)].push(key),
                )
            } else {
                old(self).contents()
            }),
    {
        if let Some(idx) = self.cell_index(x, y) {
            let ghost before = self.cells@;
            self.cells[idx].push(key);
            proof {
                assert(self.cells@.len() == before.len());
                assert(forall|j: int| 0 <= j < before.len() && j != idx ==> self.cells@[j] == before[j]);
                assert(self.cells@[idx as int]@ == before[idx as int]@.push(key));
                assert(self.contents() =~= old(self).contents().update(
                    idx as int,
                    old(self).contents()[idx as int].push(key),
                ));
            }
        }
    }

    /// The keys of every cell in columns `[min_x, max_x)` and rows
    /// `[min_y, max_y)`, clipped to the grid, column by column.
    pub fn query(&self, min_x: i32, max_x: i32, min_y: i32, max_y: i32) -> (keys: Vec<K>)
        requires
            self.wf(),
        ensures
            keys@ == self.keys_in(min_x as int, max_x as int, min_y as int, max_y as int),
    {
        let x0 = if min_x > 0 {
            min_x
        } else {
            0
        };
        let x1 = if max_x < self.cols {
            max_x
        } else {
            self.cols
        };
        let y0 = if min_y > 0 {
            min_y
        } else {
            0
        };
        let y1 = if max_y < self.rows {
            max_y
        } else {
            self.rows
        };
        let ghost cells = self.contents();
        let ghost cols = self.num_cols();
        let mut neighbors: Vec<K> = Vec::new();
        let mut x = x0;
        while x < x1
            invariant
                self.wf(),
                cells == self.contents(),
                cols == self.num_cols(),
                0 <= x0,
                0 <= y0,
                x1 <= self.num_cols(),
                y1 <= self.num_rows(),
                x0 <= x,
                x <= x1 || x == x0,
                neighbors@ == range_keys(cells, cols, x0 as int, x as int, y0 as int, y1 as int),
            decreases x1 - x,
        {
            let mut y = y0;
            while y < y1
                invariant
                    self.wf(),
                    cells == self.contents(),
                    cols == self.num_cols(),
                    0 <= x0 <= x < x1,
                    x1 <= self.num_cols(),
                    0 <= y0,
                    y1 <= self.num_rows(),
                    y0 <= y,
                    y <= y1 || y == y0,
                    neighbors@ == range_keys(cells, cols, x0 as int, x as int, y0 as int, y1 as int)
                        + column_keys(cells, cols, x as int, y0 as int, y as int),
                decreases y1 - y,
            {
                proof {
                    self.lemma_cell_bounds(x as int, y as int);
                }
                let idx = (y * self.cols + x) as usize;
                let cell = &self.cells[idx];
                let ghost before = neighbors@;
                let mut j: usize = 0;
                while j < cell.len()
                    invariant
                        0 <= j <= cell@.len(),
                        neighbors@ == before + cell@.subrange(0, j as int),
                    decreases cell@.len() - j,
                {
                    neighbors.push(cell[j]);
                    j = j + 1;
                    proof {
                        assert(cell@.subrange(0, j as int) =~= cell@.subrange(0, j - 1).push(
                            cell@[j - 1],
                        ));
                    }
                }
                proof {
                    assert(cell@.subrange(0, cell@.len() as int) =~= cell@);
                    assert(cells[idx as int] == cell@);
                    assert(column_keys(cells, cols, x as int, y0 as int, y + 1) == column_keys(
                        cells,
                        cols,
                        x as int,
                        y0 as int,
                        y as int,
                    ) + cells[(y as int) * cols + x]);
                    assert(neighbors@ =~= range_keys(
                        cells,
                        cols,
                        x0 as int,
                        x as int,
                        y0 as int,
                        y1 as int,
                    ) + column_keys(cells, cols, x as int, y0 as int, y + 1));
                }
                y = y + 1;
            }
            proof {
                if y1 <= y0 {
                    assert(column_keys(cells, cols, x as int, y0 as int, y1 as int) =~= seq![]);
                }
                assert(neighbors@ =~= range_keys(
                    cells,
                    cols,
                    x0 as int,
                    x + 1,
                    y0 as int,
                    y1 as int,
                ));
            }
            x = x + 1;
        }
        proof {
            if x1 <= x0 {
                assert(range_keys(cells, cols, x0 as int, x1 as int, y0 as int, y1 as int) =~= seq![]);
            }
        }
        neighbors
    }
}

} // verus!
