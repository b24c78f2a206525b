//! Column tables of the PLONK trace: a fixed number of columns of equal
//! length, written one row at a time.
use vstd::prelude::*;
use crate::field::PastaFE;

verus! {

/// Writing a row of a table at once: the `i`-th value goes to column `i`.
pub trait MultiAssign<T> {
    /// The number of columns that can be written.
    spec fn ma_cols(&self) -> int;

    /// The number of rows that can be written.
    spec fn ma_rows(&self) -> int;

    /// The cell at column `c`, row `r`.
    spec fn ma_at(&self, c: int, r: int) -> T;

    /// Writes `values[i]` into column `i` of row `row`, for every `i`; the
    /// other cells keep their contents.
    fn multi_assign(&mut self, row: usize, values: &[T])
        requires
            row < old(self).ma_rows(),
            values@.len() == old(self).ma_cols(),
        ensures
            final(self).ma_cols() == old(self).ma_cols(),
            final(self).ma_rows() == old(self).ma_rows(),
            forall|c: int, r: int|
                0 <= c < old(self).ma_cols() && 0 <= r < old(self).ma_rows() ==> #[trigger] final(self).ma_at(c, r)
                    == if r == row && c < values@.len() {
                    values@[c]
                } else {
                    old(self).ma_at(c, r)
                },
    ;
}

/// `cols` columns of `rows` field elements, stored column after column.
pub struct Table {
    pub cols: usize,
    pub rows: usize,
    pub data: Vec<PastaFE>,
}

impl Table {
    /// The storage holds exactly `cols * rows` cells.
    pub open spec fn wf(&self) -> bool {
        self.data@.len() == self.cols * self.rows
    }

    /// The cell at column `c`, row `r`.
    pub open spec fn at(&self, c: int, r: int) -> PastaFE {
        self.data@[c * self.rows + r]
    }

    /// A table of `cols` columns and `rows` rows, every cell `fill`.
    pub fn new(cols: usize, rows: usize, fill: PastaFE) -> (t: Table)
        requires
            cols * rows <= usize::MAX,
        ensures
            t.wf(),
            t.cols == cols,
            t.rows == rows,
            forall|c: int, r: int| 0 <= c < cols && 0 <= r < rows ==> #[trigger] t.at(c, r) == fill,
    {
        let n: usize = cols * rows;
        let mut data: Vec<PastaFE> = Vec::with_capacity(n);
        let mut i: usize = 0;
        while i < n
            invariant
                i <= n,
                data@.len() == i,
                forall|k: int| 0 <= k < i ==> data@[k] == fill,
            decreases n - i,
        {
            data.push(fill);
            i = i + 1;
        }
        let t = Table { cols, rows, data };
        proof {
            assert forall|c: int, r: int| 0 <= c < cols && 0 <= r < rows implies #[trigger] t.at(c, r) == fill by {
                lemma_cell_in_range(c, r, cols as int, rows as int);
            }
        }
        t
    }

    /// The cell at column `c`, row `r`.
    pub fn get(&self, c: usize, r: usize) -> (v: PastaFE)
        requires
            self.wf(),
            c < self.cols,
            r < self.rows,
        ensures
            v == self.at(c as int, r as int),
    {
        let len = self.data.len();
        proof { lemma_cell_in_range(c as int, r as int, self.cols as int, self.rows as int); }
        assert(c * self.rows + r < len);
        self.data[c * self.rows + r]
    }

    /// Column `c` as a vector of `rows` elements.
    pub fn column(&self, c: usize) -> (v: Vec<PastaFE>)
        requires
            self.wf(),
            c < self.cols,
        ensures
            v@.len() == self.rows,
            forall|r: int| 0 <= r < self.rows ==> #[trigger] v@[r] == self.at(c as int, r),
    {
        let mut v: Vec<PastaFE> = Vec::new();
        let mut r: usize = 0;
        while r < self.rows
            invariant
                self.wf(),
                c < self.cols,
                r <= self.rows,
                v@.len() == r,
                forall|k: int| 0 <= k < r ==> #[trigger] v@[k] == self.at(c as int, k),
            decreases self.rows - r,
        {
            let x = self.get(c, r);
            v.push(x);
            r = r + 1;
        }
        v
    }
}

/// A cell index `c * rows + r` of a table lies inside its storage, and
/// distinct cells have distinct indices.
pub proof fn lemma_cell_in_range(c: int, r: int, cols: int, rows: int)
    requires
        0 <= c < cols,
        0 <= r < rows,
    ensures
        0 <= c * rows + r < cols * rows,
        c * rows <= (cols - 1) * rows,
{
    assert(c * rows <= (cols - 1) * rows) by (nonlinear_arith)
        requires
            0 <= c <= cols - 1,
            0 <= rows,
    ;
    assert((cols - 1) * rows + rows == cols * rows) by (nonlinear_arith);
    assert(0 <= c * rows) by (nonlinear_arith)
        requires
            0 <= c,
            0 <= rows,
    ;
}

/// Two cells of a table share a storage index only if they are the same cell.
pub proof fn lemma_cell_injective(c1: int, r1: int, c2: int, r2: int, rows: int)
    requires
        0 <= r1 < rows,
        0 <= r2 < rows,
        0 <= c1,
        0 <= c2,
        c1 * rows + r1 == c2 * rows + r2,
    ensures
        c1 == c2 && r1 == r2,
{
    if c1 < c2 {
        assert(c1 * rows + rows <= c2 * rows) by (nonlinear_arith)
            requires
                c1 < c2,
                0 <= rows,
        ;
    } else if c2 < c1 {
        assert(c2 * rows + rows <= c1 * rows) by (nonlinear_arith)
            requires
                c2 < c1,
                0 <= rows,
        ;
    }
}

impl MultiAssign<PastaFE> for Table {
    open spec fn ma_cols(&self) -> int {
        if self.wf() {
            self.cols as int
        } else {
            0
        }
    }

    open spec fn ma_rows(&self) -> int {
        if self.wf() {
            self.rows as int
        } else {
            0
        }
    }

    open spec fn ma_at(&self, c: int, r: int) -> PastaFE {
        self.at(c, r)
    }

    fn multi_assign(&mut self, row: usize, values: &[PastaFE]) {
        let ghost start = *self;
        let mut i: usize = 0;
        while i < values.len()
            invariant
                start.wf(),
                row < start.rows,
                values@.len() <= start.cols,
                i <= values@.len(),
                self.cols == start.cols,
                self.rows == start.rows,
                self.wf(),
                forall|c: int, r: int|
                    0 <= c < start.cols && 0 <= r < start.rows ==> #[trigger] self.at(c, r) == if r
                        == row && c < i {
                        values@[c]
                    } else {
                        start.at(c, r)
                    },
            decreases values@.len() - i,
        {
            let len = self.data.len();
            proof { lemma_cell_in_range(i as int, row as int, self.cols as int, self.rows as int); }
            assert(i * self.rows + row < len);
            let k: usize = i * self.rows + row;
            let ghost before = *self;
            self.data.set(k, values[i]);
            proof {
                assert forall|c: int, r: int|
                    0 <= c < start.cols && 0 <= r < start.rows implies #[trigger] self.at(c, r) == if r
                        == row && c < i + 1 {
                        values@[c]
                    } else {
                        start.at(c, r)
                    } by {
                    lemma_cell_in_range(c, r, self.cols as int, self.rows as int);
                    if c * self.rows + r == k {
                        lemma_cell_injective(c, r, i as int, row as int, self.rows as int);
                    }
                    assert(before.at(c, r) == before.data@[c * self.rows + r]);
                }
            }
            i = i + 1;
        }
    }
}

} // verus!
