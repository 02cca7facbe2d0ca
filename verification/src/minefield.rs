use crate::counting::{
    count_when, lemma_count_when_agree, lemma_count_when_update, lemma_flat_index_bounds,
    lemma_flat_index_decompose, lemma_mul_bounds_upper,
};
use crate::rng::random_below;
use vstd::prelude::*;

verus! {

#[derive(Clone, Copy, PartialEq, Eq, Structural)]
pub enum HiddenCell {
    Mine,
    Space,
}

/// A rectangular grid of mine placements, immutable after construction.
/// Cells are stored row-major in one flat vector.
pub struct Minefield {
    rows: i32,
    cols: i32,
    minecount: i32,
    cells: Vec<HiddenCell>,
}

/// The configurations a field can be built from: positive dimensions, a cell
/// count that a 32-bit index can address, and a mine count the grid can hold.
pub open spec fn valid_config(rows: int, cols: int, minecount: int) -> bool {
    &&& 1 <= rows
    &&& 1 <= cols
    &&& rows * cols <= i32::MAX as int
    &&& 0 <= minecount <= rows * cols
}

impl Minefield {
    pub closed spec fn spec_rows(self) -> int {
        self.rows as int
    }

    pub closed spec fn spec_cols(self) -> int {
        self.cols as int
    }

    pub closed spec fn spec_minecount(self) -> int {
        self.minecount as int
    }

    pub open spec fn total(self) -> int {
        self.spec_rows() * self.spec_cols()
    }

    pub open spec fn in_bounds(self, r: int, c: int) -> bool {
        0 <= r < self.spec_rows() && 0 <= c < self.spec_cols()
    }

    pub closed spec fn mine_at(self, r: int, c: int) -> bool {
        self.in_bounds(r, c) && self.cells@[r * self.spec_cols() + c] is Mine
    }

    pub closed spec fn wf(self) -> bool {
        &&& valid_config(self.spec_rows(), self.spec_cols(), self.spec_minecount())
        &&& self.cells@.len() == self.total()
        &&& count_when(self.total(), |i: int| self.cells@[i] is Mine) == self.spec_minecount()
    }

    /// A well-formed field was built from a valid configuration.
    pub proof fn lemma_wf_config(self)
        requires
            self.wf(),
        ensures
            valid_config(self.spec_rows(), self.spec_cols(), self.spec_minecount()),
            self.spec_rows() <= i32::MAX as int,
            self.spec_cols() <= i32::MAX as int,
            self.spec_minecount() <= i32::MAX as int,
            self.total() <= i32::MAX as int,
    {
    }

    /// Law: a well-formed field holds exactly its mine count of mine cells;
    /// the count runs over every cell of the grid, row by row.
    pub proof fn lemma_mine_cells_counted(self)
        requires
            self.wf(),
        ensures
            count_when(
                self.total(),
                |i: int| self.mine_at(i / self.spec_cols(), i % self.spec_cols()),
            ) == self.spec_minecount(),
    {
        let stored = |i: int| self.cells@[i] is Mine;
        let by_coords = |i: int| self.mine_at(i / self.spec_cols(), i % self.spec_cols());
        assert forall|i: int| 0 <= i < self.total() implies #[trigger] stored(i) == by_coords(
            i,
        ) by {
            lemma_flat_index_decompose(self.spec_rows(), self.spec_cols(), i);
        }
        lemma_count_when_agree(self.total(), stored, by_coords);
    }

    /// A field built with no mines has a mine nowhere.
    pub proof fn lemma_no_mines(self, r: int, c: int)
        requires
            self.wf(),
            self.spec_minecount() == 0,
        ensures
            !self.mine_at(r, c),
    {
        if self.mine_at(r, c) {
            lemma_flat_index_bounds(self.spec_rows(), self.spec_cols(), r, c);
            crate::counting::lemma_count_when_ge_one(
                self.total(),
                |i: int| self.cells@[i] is Mine,
                r * self.spec_cols() + c,
            );
        }
    }

    pub fn is_valid_index(&self, row: i32, col: i32) -> (r: bool)
        ensures
            r == self.in_bounds(row as int, col as int),
    {
        (col >= 0) && (row >= 0) && (col < self.cols) && (row < self.rows)
    }

    fn hidden_cell(&self, row: i32, col: i32) -> (r: Option<HiddenCell>)
        requires
            self.wf(),
        ensures
            r is Some <==> self.in_bounds(row as int, col as int),
            (r matches Some(c) ==> (c is Mine <==> self.mine_at(row as int, col as int))),
    {
        if self.is_valid_index(row, col) {
            proof {
                lemma_flat_index_bounds(
                    self.spec_rows(),
                    self.spec_cols(),
                    row as int,
                    col as int,
                );
            }
            let idx: usize = (row as usize) * (self.cols as usize) + (col as usize);
            Some(self.cells[idx])
        } else {
            None
        }
    }

    pub fn is_mine(&self, row: i32, col: i32) -> (r: bool)
        requires
            self.wf(),
        ensures
            r == self.mine_at(row as int, col as int),
    {
        match self.hidden_cell(row, col) {
            Some(cell) => matches!(cell, HiddenCell::Mine),
            None => false,
        }
    }

    /// Builds a field with exactly `minecount` mines placed at random, or
    /// reports an invalid configuration.
    pub fn new(rows: i32, cols: i32, minecount: i32) -> (r: Result<Minefield, String>)
        ensures
            r is Ok <==> valid_config(rows as int, cols as int, minecount as int),
            (r matches Ok(m) ==> m.wf() && m.spec_rows() == rows as int && m.spec_cols()
                == cols as int && m.spec_minecount() == minecount as int),
    {
        if rows < 1 || cols < 1 {
            return Err("field dimensions must be positive".to_owned());
        }
        proof {
            lemma_mul_bounds_upper(rows as int, cols as int, i32::MAX as int, i32::MAX as int);
        }
        let wide: i64 = (rows as i64) * (cols as i64);
        if wide > (i32::MAX as i64) {
            return Err("field has more cells than a cell index can address".to_owned());
        }
        if minecount < 0 {
            return Err("mine count cannot be negative".to_owned());
        }
        if (minecount as i64) > wide {
            return Err("more mines than cells in the field to hold them".to_owned());
        }
        let total: usize = (rows as usize) * (cols as usize);
        let mines: usize = minecount as usize;

        // Lay out the exact number of mines first, all at the low indices.
        let mut cells: Vec<HiddenCell> = Vec::new();
        let mut i: usize = 0;
        while i < total
            invariant
                i <= total,
                mines == minecount as int,
                cells@.len() == i as int,
                count_when(i as int, |k: int| cells@[k] is Mine) == if i as int <= mines as int {
                    i as int
                } else {
                    mines as int
                },
            decreases total - i,
        {
            let ghost prev = cells@;
            if i < mines {
                cells.push(HiddenCell::Mine);
            } else {
                cells.push(HiddenCell::Space);
            }
            i = i + 1;
            proof {
                let p = |k: int| prev[k] is Mine;
                let q = |k: int| cells@[k] is Mine;
                assert forall|k: int| 0 <= k < i - 1 implies #[trigger] p(k) == q(k) by {
                    assert(cells@[k] == prev[k]);
                }
                lemma_count_when_agree(i - 1, p, q);
                assert(count_when(i as int, q) == count_when(i - 1, q) + if q(i - 1) {
                    1int
                } else {
                    0int
                });
            }
        }

        // A uniformly random permutation of the laid-out cells places the
        // mines uniformly at random without replacement.
        let mut i: usize = 0;
        while i < total
            invariant
                i <= total,
                cells@.len() == total as int,
                total as int <= i32::MAX as int,
                count_when(total as int, |k: int| cells@[k] is Mine) == minecount as int,
            decreases total - i,
        {
            let off = random_below((total - i) as i32);
            let j: usize = i + (off as usize);
            let a = cells[i];
            let b = cells[j];
            let ghost s0 = cells@;
            cells[i] = b;
            let ghost s1 = cells@;
            cells[j] = a;
            proof {
                let p0 = |k: int| s0[k] is Mine;
                let p1 = |k: int| s1[k] is Mine;
                let p2 = |k: int| cells@[k] is Mine;
                assert forall|k: int| 0 <= k < total as int && k != i as int implies #[trigger] p0(k) == p1(
                    k,
                ) by {}
                lemma_count_when_update(total as int, p0, p1, i as int);
                assert forall|k: int| 0 <= k < total as int && k != j as int implies #[trigger] p1(k) == p2(
                    k,
                ) by {}
                lemma_count_when_update(total as int, p1, p2, j as int);
                assert(p0(i as int) == (a is Mine));
                assert(p1(j as int) == (b is Mine));
                assert(p2(j as int) == (a is Mine));
            }
            i = i + 1;
        }

        let ghost laid = cells@;
        let m = Minefield { rows, cols, minecount, cells };
        proof {
            assert(m.cells@ == laid);
            lemma_count_when_agree(
                total as int,
                |k: int| laid[k] is Mine,
                |k: int| m.cells@[k] is Mine,
            );
        }
        Ok(m)
    }

    pub fn get_rows(&self) -> (r: i32)
        ensures
            r as int == self.spec_rows(),
    {
        self.rows
    }

    pub fn get_cols(&self) -> (r: i32)
        ensures
            r as int == self.spec_cols(),
    {
        self.cols
    }

    pub fn get_minecount(&self) -> (r: i32)
        ensures
            r as int == self.spec_minecount(),
    {
        self.minecount
    }
}

} // verus!
