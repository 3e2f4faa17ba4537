//! A rectangular grid of cells with bounds-checked lookup.

use vstd::arithmetic::div_mod::lemma_fundamental_div_mod_converse;
use vstd::prelude::*;

verus! {

/// Why a grid could not be built.
#[derive(Clone, Copy, Debug, PartialEq, Eq, Structural)]
pub enum GridError {
    /// Two rows differ in length.
    InconsistentRows,
}

impl GridError {
    /// A sentence that says what went wrong.
    pub fn message(&self) -> (msg: String)
        ensures
            msg@ == "Matrix row sizes are inconsistent."@,
    {
        "Matrix row sizes are inconsistent.".to_owned()
    }
}

/// A grid of cells stored row by row. All rows have the same length, and the
/// shape never changes after construction.
pub struct Grid2D<T> {
    arr: Vec<Vec<T>>,
}

/// The cells held by `rows`, row by row.
pub open spec fn cells_of<T>(rows: Seq<Vec<T>>) -> Seq<Seq<T>> {
    Seq::new(rows.len(), |i: int| rows[i]@)
}

/// Whether all rows of `cells` have one length.
pub open spec fn rectangular<T>(cells: Seq<Seq<T>>) -> bool {
    forall|i: int| 0 <= i < cells.len() ==> (#[trigger] cells[i]).len() == cells[0].len()
}

/// The distance between two indices along one axis.
pub open spec fn gap(a: usize, b: usize) -> int {
    if a >= b {
        a - b
    } else {
        b - a
    }
}

/// Whether `a` and `b` are distinct cells that touch by an edge or a corner.
pub open spec fn adjacent(a: (usize, usize), b: (usize, usize)) -> bool {
    gap(a.0, b.0) <= 1 && gap(a.1, b.1) <= 1 && a != b
}

/// Whether `a` comes before `b` when cells are read row by row.
pub open spec fn precedes(a: (usize, usize), b: (usize, usize)) -> bool {
    a.0 < b.0 || (a.0 == b.0 && a.1 < b.1)
}

/// Whether `items` lists the cell at `coord`.
pub open spec fn lists<T>(items: Seq<(usize, usize, &T)>, coord: (usize, usize)) -> bool {
    exists|k: int| 0 <= k < items.len() && (#[trigger] items[k]).0 == coord.0 && items[k].1 == coord.1
}

/// Borrows one cell of `rows` mutably; the shape of `rows` cannot change
/// through the borrow.
fn cell_mut<T>(rows: &mut Vec<Vec<T>>, r: usize, c: usize) -> (cell: &mut T)
    requires
        r < old(rows).len(),
        c < old(rows)[r as int].len(),
    ensures
        *cell == old(rows)[r as int][c as int],
        final(rows).len() == old(rows).len(),
        forall|i: int|
            0 <= i < old(rows).len() ==> (#[trigger] final(rows)@[i]).len() == old(rows)@[i].len(),
        cells_of(final(rows)@) == cells_of(old(rows)@).update(
            r as int,
            old(rows)[r as int]@.update(c as int, *final(cell)),
        ),
{
    &mut rows[r][c]
}

impl<T> Grid2D<T> {
    /// The cells of the grid, row by row from the top.
    pub closed spec fn view(&self) -> Seq<Seq<T>> {
        cells_of(self.arr@)
    }

    /// The grid's invariant: every row has the same length. Construction
    /// establishes it and every operation keeps it.
    pub open spec fn wf(&self) -> bool {
        rectangular(self@)
    }

    /// The number of rows.
    pub open spec fn spec_height(&self) -> nat {
        self@.len()
    }

    /// The number of columns: the length of every row, and 0 without rows.
    pub open spec fn spec_width(&self) -> nat {
        if self@.len() == 0 {
            0
        } else {
            self@[0].len()
        }
    }

    /// Whether `coord`, a (row, column) pair, names a cell of the grid.
    pub open spec fn in_bounds(&self, coord: (usize, usize)) -> bool {
        coord.0 < self.spec_height() && coord.1 < self.spec_width()
    }

    /// The cell at `coord`.
    pub open spec fn cell(&self, coord: (usize, usize)) -> T
        recommends
            self.in_bounds(coord),
    {
        self@[coord.0 as int][coord.1 as int]
    }

    /// Builds a grid from its rows, refusing rows of unequal length.
    pub fn new(rows: Vec<Vec<T>>) -> (res: Result<Self, GridError>)
        ensures
            res is Ok <==> rectangular(cells_of(rows@)),
            res matches Ok(grid) ==> grid.wf() && grid@ == cells_of(rows@),
            res matches Err(e) ==> e == GridError::InconsistentRows,
    {
        let mut i: usize = 1;
        while i < rows.len()
            invariant
                1 <= i,
                forall|k: int|
                    0 <= k < i && k < rows.len() ==> (#[trigger] rows@[k]).len() == rows@[0].len(),
            decreases rows.len() - i,
        {
            if rows[i].len() != rows[i - 1].len() {
                assert(cells_of(rows@)[i as int].len() != cells_of(rows@)[i - 1].len());
                assert(!rectangular(cells_of(rows@)));
                return Err(GridError::InconsistentRows);
            }
            i += 1;
        }
        Ok(Grid2D { arr: rows })
    }

    /// The number of columns.
    pub fn width(&self) -> (w: usize)
        ensures
            w == self.spec_width(),
    {
        if self.arr.len() == 0 {
            0
        } else {
            self.arr[0].len()
        }
    }

    /// The number of rows.
    pub fn height(&self) -> (h: usize)
        ensures
            h == self.spec_height(),
    {
        self.arr.len()
    }

    /// The rows of the grid.
    pub fn rows(&self) -> (rows: &Vec<Vec<T>>)
        ensures
            cells_of(rows@) == self@,
    {
        &self.arr
    }

    /// The cell at `coord`, or `None` where `coord` lies outside the grid.
    pub fn get(&self, coord: (usize, usize)) -> (res: Option<&T>)
        requires
            self.wf(),
        ensures
            res is Some <==> self.in_bounds(coord),
            res matches Some(cell) ==> *cell == self.cell(coord),
    {
        assert(coord.0 < self@.len() ==> self@[coord.0 as int].len() == self@[0].len());
        if coord.0 < self.arr.len() && coord.1 < self.arr[coord.0].len() {
            Some(&self.arr[coord.0][coord.1])
        } else {
            None
        }
    }

    /// Mutable access to the cell at `coord`, or `None` where `coord` lies
    /// outside the grid. Writing through the reference changes that cell and
    /// nothing else.
    pub fn get_mut(&mut self, coord: (usize, usize)) -> (res: Option<&mut T>)
        requires
            old(self).wf(),
        ensures
            final(self).wf(),
            res is Some <==> old(self).in_bounds(coord),
            res matches Some(cell) ==> *cell == old(self).cell(coord) && final(self)@ == old(
                self,
            )@.update(
                coord.0 as int,
                old(self)@[coord.0 as int].update(coord.1 as int, *final(cell)),
            ),
            res is None ==> final(self)@ == old(self)@,
    {
        assert(coord.0 < self@.len() ==> self@[coord.0 as int].len() == self@[0].len());
        if coord.0 < self.arr.len() && coord.1 < self.arr[coord.0].len() {
            Some(cell_mut(&mut self.arr, coord.0, coord.1))
        } else {
            None
        }
    }

    /// Every cell with its coordinates, row by row: entry `k` is the cell in
    /// row `k / width` and column `k % width`.
    pub fn enumerate(&self) -> (out: Vec<(usize, usize, &T)>)
        requires
            self.wf(),
        ensures
            out.len() == self.spec_height() * self.spec_width(),
            forall|k: int|
                0 <= k < out.len() ==> {
                    let item = #[trigger] out[k];
                    &&& item.0 == k / (self.spec_width() as int)
                    &&& item.1 == k % (self.spec_width() as int)
                    &&& *item.2 == self.cell((item.0, item.1))
                },
    {
        let mut out: Vec<(usize, usize, &T)> = Vec::new();
        let ghost w = self.spec_width() as int;
        let mut r: usize = 0;
        while r < self.arr.len()
            invariant
                self.wf(),
                w == self.spec_width(),
                r <= self.arr.len(),
                out.len() == r * w,
                forall|k: int|
                    0 <= k < out.len() ==> {
                        let item = #[trigger] out[k];
                        &&& item.0 == k / w
                        &&& item.1 == k % w
                        &&& *item.2 == self.cell((item.0, item.1))
                    },
            decreases self.arr.len() - r,
        {
            let row = &self.arr[r];
            assert(self@[r as int].len() == self@[0].len());
            let mut c: usize = 0;
            while c < row.len()
                invariant
                    self.wf(),
                    w == self.spec_width(),
                    r < self.arr.len(),
                    *row == self.arr[r as int],
                    row.len() == w,
                    c <= row.len(),
                    out.len() == r * w + c,
                    forall|k: int|
                        0 <= k < out.len() ==> {
                            let item = #[trigger] out[k];
                            &&& item.0 == k / w
                            &&& item.1 == k % w
                            &&& *item.2 == self.cell((item.0, item.1))
                        },
                decreases row.len() - c,
            {
                proof {
                    lemma_fundamental_div_mod_converse(r * w + c, w, r as int, c as int);
                }
                out.push((r, c, &row[c]));
                c += 1;
            }
            assert((r + 1) * w == r * w + w) by (nonlinear_arith);
            r += 1;
        }
        out
    }

    /// The cells that touch the one at `coord` by an edge or a corner, with
    /// their coordinates, read row by row. `coord` itself is never among
    /// them, and it need not lie inside the grid.
    pub fn neighbours(&self, coord: (usize, usize)) -> (out: Vec<(usize, usize, &T)>)
        requires
            self.wf(),
        ensures
            forall|k: int|
                0 <= k < out.len() ==> {
                    let item = #[trigger] out[k];
                    &&& self.in_bounds((item.0, item.1))
                    &&& adjacent(coord, (item.0, item.1))
                    &&& *item.2 == self.cell((item.0, item.1))
                },
            forall|n: (usize, usize)|
                self.in_bounds(n) && adjacent(coord, n) ==> #[trigger] lists(out@, n),
            forall|k: int, l: int|
                0 <= k < l < out.len() ==> precedes(
                    ((#[trigger] out[k]).0, out[k].1),
                    ((#[trigger] out[l]).0, out[l].1),
                ),
    {
        let (i, j) = coord;
        let h = self.arr.len();
        let w = self.width();
        let mut out: Vec<(usize, usize, &T)> = Vec::new();
        let mut r: usize = if i == 0 {
            0
        } else {
            i - 1
        };
        while r < h && (r <= i || r - i == 1)
            invariant
                self.wf(),
                coord == (i, j),
                h == self.spec_height(),
                w == self.spec_width(),
                r + 1 >= i,
                forall|k: int|
                    0 <= k < out.len() ==> {
                        let item = #[trigger] out[k];
                        &&& self.in_bounds((item.0, item.1))
                        &&& adjacent(coord, (item.0, item.1))
                        &&& *item.2 == self.cell((item.0, item.1))
                        &&& item.0 < r
                    },
                forall|n: (usize, usize)|
                    self.in_bounds(n) && adjacent(coord, n) && n.0 < r ==> #[trigger] lists(out@, n),
                forall|k: int, l: int|
                    0 <= k < l < out.len() ==> precedes(
                        ((#[trigger] out[k]).0, out[k].1),
                        ((#[trigger] out[l]).0, out[l].1),
                    ),
            decreases h - r,
        {
            let row = &self.arr[r];
            assert(self@[r as int].len() == self@[0].len());
            let mut c: usize = if j == 0 {
                0
            } else {
                j - 1
            };
            while c < w && (c <= j || c - j == 1)
                invariant
                    self.wf(),
                    coord == (i, j),
                    h == self.spec_height(),
                    w == self.spec_width(),
                    r < h,
                    gap(r, i) <= 1,
                    *row == self.arr[r as int],
                    row.len() == w,
                    c + 1 >= j,
                    forall|k: int|
                        0 <= k < out.len() ==> {
                            let item = #[trigger] out[k];
                            &&& self.in_bounds((item.0, item.1))
                            &&& adjacent(coord, (item.0, item.1))
                            &&& *item.2 == self.cell((item.0, item.1))
                            &&& precedes((item.0, item.1), (r, c))
                        },
                    forall|n: (usize, usize)|
                        self.in_bounds(n) && adjacent(coord, n) && precedes(n, (r, c))
                            ==> #[trigger] lists(out@, n),
                    forall|k: int, l: int|
                        0 <= k < l < out.len() ==> precedes(
                            ((#[trigger] out[k]).0, out[k].1),
                            ((#[trigger] out[l]).0, out[l].1),
                        ),
                decreases w - c,
            {
                let ghost before = out@;
                if r != i || c != j {
                    out.push((r, c, &row[c]));
                    assert(out@[before.len() as int].0 == r && out@[before.len() as int].1 == c);
                }
                proof {
                    assert forall|n: (usize, usize)|
                        self.in_bounds(n) && adjacent(coord, n) && precedes(
                            n,
                            (r, (c + 1) as usize),
                        ) implies #[trigger] lists(out@, n) by {
                        if precedes(n, (r, c)) {
                            assert(lists(before, n));
                            let k = choose|k: int|
                                0 <= k < before.len() && (#[trigger] before[k]).0 == n.0
                                    && before[k].1 == n.1;
                            assert(out@[k] == before[k]);
                        } else {
                            assert(n == (r, c));
                            assert(out@[before.len() as int].0 == n.0);
                        }
                    }
                }
                c += 1;
            }
            proof {
                assert forall|n: (usize, usize)|
                    self.in_bounds(n) && adjacent(coord, n) && n.0 < r + 1 implies #[trigger] lists(
                    out@,
                    n,
                ) by {
                    assert(precedes(n, (r, c)));
                }
            }
            r += 1;
        }
        out
    }
}

} // verus!
