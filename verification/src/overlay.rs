use crate::counting::{
    count_when, lemma_count_when_all, lemma_count_when_bounds, lemma_count_when_disjoint_le,
    lemma_count_when_ge_one, lemma_count_when_monotone, lemma_count_when_update,
    lemma_flat_index_bounds, lemma_flat_index_injective,
};
use crate::minefield::{valid_config, Minefield};
use vstd::prelude::*;

verus! {

#[derive(Clone, Copy, Debug, PartialEq, Eq, Structural)]
pub enum OverlayCell {
    Covered,
    Uncovered(u8),
    Flagged,
    Exploded,
    Mine,
    BadFlag,
}

/// What a cell turns into when a lost game is revealed: covered mines show as
/// mines, flags on harmless cells as bad flags, everything else keeps its look.
pub open spec fn revealed_cell(c: OverlayCell, mine: bool) -> OverlayCell {
    if c is Covered && mine {
        OverlayCell::Mine
    } else if c is Flagged && !mine {
        OverlayCell::BadFlag
    } else {
        c
    }
}

pub open spec fn bool_to_count(b: bool) -> int {
    if b {
        1
    } else {
        0
    }
}

/// The per-cell visibility layer over a minefield it owns exclusively.
/// Cells are stored row-major in one flat vector.
pub struct Overlay {
    minefield: Minefield,
    cells: Vec<OverlayCell>,
    flagcount: i32,
}

impl Overlay {
    pub closed spec fn field(self) -> Minefield {
        self.minefield
    }

    pub open spec fn spec_rows(self) -> int {
        self.field().spec_rows()
    }

    pub open spec fn spec_cols(self) -> int {
        self.field().spec_cols()
    }

    pub open spec fn spec_minecount(self) -> int {
        self.field().spec_minecount()
    }

    pub open spec fn total(self) -> int {
        self.field().total()
    }

    pub closed spec fn spec_flagcount(self) -> int {
        self.flagcount as int
    }

    pub open spec fn in_bounds(self, r: int, c: int) -> bool {
        self.field().in_bounds(r, c)
    }

    pub open spec fn mine_at(self, r: int, c: int) -> bool {
        self.field().mine_at(r, c)
    }

    pub closed spec fn cell(self, r: int, c: int) -> OverlayCell {
        self.cells@[r * self.spec_cols() + c]
    }

    /// Number of mines among the eight neighbours of a cell; neighbours
    /// outside the grid never count.
    pub open spec fn adj_mines(self, r: int, c: int) -> int {
        bool_to_count(self.mine_at(r - 1, c - 1)) + bool_to_count(self.mine_at(r - 1, c))
            + bool_to_count(self.mine_at(r - 1, c + 1)) + bool_to_count(self.mine_at(r, c - 1))
            + bool_to_count(self.mine_at(r, c + 1)) + bool_to_count(self.mine_at(r + 1, c - 1))
            + bool_to_count(self.mine_at(r + 1, c)) + bool_to_count(self.mine_at(r + 1, c + 1))
    }

    pub closed spec fn covered_count(self) -> int {
        count_when(self.total(), |i: int| self.cells@[i] is Covered)
    }

    /// The board is complete once the flags placed plus the cells still
    /// covered add up to exactly the mine count.
    pub open spec fn victory_spec(self) -> bool {
        self.spec_flagcount() + self.covered_count() == self.spec_minecount()
    }

    pub closed spec fn rep_ok(self) -> bool {
        &&& self.cells@.len() == self.total()
        &&& self.spec_flagcount() == count_when(
            self.total(),
            |i: int| self.cells@[i] is Flagged || self.cells@[i] is BadFlag,
        )
    }

    pub open spec fn wf(self) -> bool {
        &&& self.field().wf()
        &&& self.rep_ok()
    }

    /// The flag count and the covered count are cell counts of disjoint kinds,
    /// so each is within the grid and so is their sum.
    pub proof fn lemma_count_bounds(self)
        requires
            self.wf(),
        ensures
            0 <= self.spec_flagcount(),
            0 <= self.covered_count(),
            self.spec_flagcount() + self.covered_count() <= self.total(),
    {
        let flagged = |i: int| self.cells@[i] is Flagged || self.cells@[i] is BadFlag;
        let covered = |i: int| self.cells@[i] is Covered;
        lemma_count_when_bounds(self.total(), flagged);
        lemma_count_when_bounds(self.total(), covered);
        lemma_count_when_disjoint_le(self.total(), flagged, covered);
    }

    pub fn new(rows: i32, cols: i32, minecount: i32) -> (r: Result<Overlay, String>)
        ensures
            r is Ok <==> valid_config(rows as int, cols as int, minecount as int),
            (r matches Ok(o) ==> {
                &&& o.wf()
                &&& o.spec_rows() == rows as int
                &&& o.spec_cols() == cols as int
                &&& o.spec_minecount() == minecount as int
                &&& o.spec_flagcount() == 0
                &&& o.covered_count() == o.total()
                &&& forall|r2: int, c2: int|
                    o.in_bounds(r2, c2) ==> o.cell(r2, c2) is Covered
            }),
    {
        let minefield = match Minefield::new(rows, cols, minecount) {
            Ok(f) => f,
            Err(e) => {
                return Err(e);
            },
        };
        proof {
            minefield.lemma_wf_config();
        }
        let total: usize = (minefield.get_rows() as usize) * (minefield.get_cols() as usize);
        let mut cells: Vec<OverlayCell> = Vec::new();
        let mut i: usize = 0;
        while i < total
            invariant
                i <= total,
                cells@.len() == i as int,
                forall|k: int| 0 <= k < i as int ==> cells@[k] is Covered,
            decreases total - i,
        {
            cells.push(OverlayCell::Covered);
            i = i + 1;
        }
        let o = Overlay { minefield, cells, flagcount: 0 };
        proof {
            lemma_count_when_all(o.total(), |k: int| o.cells@[k] is Covered);
            crate::counting::lemma_count_when_none(
                o.total(),
                |k: int| o.cells@[k] is Flagged || o.cells@[k] is BadFlag,
            );
            assert forall|r2: int, c2: int| o.in_bounds(r2, c2) implies o.cell(r2, c2)
                is Covered by {
                lemma_flat_index_bounds(o.spec_rows(), o.spec_cols(), r2, c2);
            }
        }
        Ok(o)
    }

    pub fn get_cell(&self, row: i32, col: i32) -> (r: Option<OverlayCell>)
        requires
            self.wf(),
        ensures
            r == if self.in_bounds(row as int, col as int) {
                Some(self.cell(row as int, col as int))
            } else {
                None::<OverlayCell>
            },
    {
        if self.minefield.is_valid_index(row, col) {
            proof {
                self.minefield.lemma_wf_config();
                lemma_flat_index_bounds(self.spec_rows(), self.spec_cols(), row as int, col as int);
            }
            let cols = self.minefield.get_cols();
            let idx: usize = (row as usize) * (cols as usize) + (col as usize);
            Some(self.cells[idx])
        } else {
            None
        }
    }

    pub fn is_covered(&self, row: i32, col: i32) -> (r: bool)
        requires
            self.wf(),
        ensures
            r == (self.in_bounds(row as int, col as int) && self.cell(row as int, col as int)
                is Covered),
    {
        match self.get_cell(row, col) {
            Some(c) => matches!(c, OverlayCell::Covered),
            None => false,
        }
    }

    /// Digs a cell: out-of-range digs report nothing, digs on anything not
    /// covered hand back the current state unchanged, digging a covered mine
    /// explodes it, and digging a safe covered cell uncovers it with its
    /// adjacent-mine count.
    pub fn dig(&mut self, row: i32, col: i32) -> (r: Option<OverlayCell>)
        requires
            old(self).wf(),
        ensures
            final(self).wf(),
            final(self).field() == old(self).field(),
            final(self).spec_flagcount() == old(self).spec_flagcount(),
            !old(self).in_bounds(row as int, col as int) ==> r is None && *final(self) == *old(self),
            old(self).in_bounds(row as int, col as int) && !(old(self).cell(
                row as int,
                col as int,
            ) is Covered) ==> r == Some(old(self).cell(row as int, col as int)) && *final(self)
                == *old(self),
            old(self).in_bounds(row as int, col as int) && old(self).cell(row as int, col as int)
                is Covered && old(self).mine_at(row as int, col as int) ==> {
                &&& r == Some(OverlayCell::Exploded)
                &&& final(self).cell(row as int, col as int) == OverlayCell::Exploded
                &&& final(self).covered_count() == old(self).covered_count() - 1
            },
            old(self).in_bounds(row as int, col as int) && old(self).cell(row as int, col as int)
                is Covered && !old(self).mine_at(row as int, col as int) ==> {
                &&& r == Some(OverlayCell::Uncovered(old(self).adj_mines(row as int, col as int) as u8))
                &&& final(self).cell(row as int, col as int) == OverlayCell::Uncovered(
                    old(self).adj_mines(row as int, col as int) as u8,
                )
                &&& final(self).covered_count() == old(self).covered_count() - 1
            },
            forall|r2: int, c2: int|
                old(self).in_bounds(r2, c2) && !(r2 == row as int && c2 == col as int) ==> final(self).cell(r2, c2) == old(self).cell(r2, c2),
    {
        let cur_opt = self.get_cell(row, col);
        let cur = match cur_opt {
            None => {
                return None;
            },
            Some(c) => c,
        };
        if !matches!(cur, OverlayCell::Covered) {
            return Some(cur);
        }
        proof {
            self.minefield.lemma_wf_config();
            lemma_flat_index_bounds(self.spec_rows(), self.spec_cols(), row as int, col as int);
        }
        let cols = self.minefield.get_cols();
        let idx: usize = (row as usize) * (cols as usize) + (col as usize);
        if self.minefield.is_mine(row, col) {
            let ghost pre = *self;
            self.cells[idx] = OverlayCell::Exploded;
            proof {
                lemma_overlay_update(pre, *self, row as int, col as int, OverlayCell::Exploded);
            }
            Some(OverlayCell::Exploded)
        } else {
            let mut count: u8 = 0;
            if self.minefield.is_mine(row - 1, col - 1) {
                count = count + 1;
            }
            if self.minefield.is_mine(row - 1, col) {
                count = count + 1;
            }
            if self.minefield.is_mine(row - 1, col + 1) {
                count = count + 1;
            }
            if self.minefield.is_mine(row, col - 1) {
                count = count + 1;
            }
            if self.minefield.is_mine(row, col + 1) {
                count = count + 1;
            }
            if self.minefield.is_mine(row + 1, col - 1) {
                count = count + 1;
            }
            if self.minefield.is_mine(row + 1, col) {
                count = count + 1;
            }
            if self.minefield.is_mine(row + 1, col + 1) {
                count = count + 1;
            }
            let ghost pre = *self;
            self.cells[idx] = OverlayCell::Uncovered(count);
            proof {
                lemma_overlay_update(
                    pre,
                    *self,
                    row as int,
                    col as int,
                    OverlayCell::Uncovered(count),
                );
            }
            Some(OverlayCell::Uncovered(count))
        }
    }

    /// Flags a covered cell; anything else, including an out-of-range
    /// coordinate, is left untouched.
    pub fn flag(&mut self, row: i32, col: i32)
        requires
            old(self).wf(),
        ensures
            final(self).wf(),
            flag_effect(*old(self), *final(self), row as int, col as int),
            old(self).in_bounds(row as int, col as int) && old(self).cell(row as int, col as int)
                is Covered ==> final(self).covered_count() == old(self).covered_count() - 1,
    {
        let cur = self.get_cell(row, col);
        if let Some(c) = cur {
            if matches!(c, OverlayCell::Covered) {
                proof {
                    self.minefield.lemma_wf_config();
                    lemma_flat_index_bounds(
                        self.spec_rows(),
                        self.spec_cols(),
                        row as int,
                        col as int,
                    );
                }
                let cols = self.minefield.get_cols();
                let idx: usize = (row as usize) * (cols as usize) + (col as usize);
                let ghost pre = *self;
                self.cells[idx] = OverlayCell::Flagged;
                proof {
                    lemma_overlay_update(pre, *self, row as int, col as int, OverlayCell::Flagged);
                    self.minefield.lemma_wf_config();
                    lemma_count_when_bounds(
                        self.total(),
                        |i: int| self.cells@[i] is Flagged || self.cells@[i] is BadFlag,
                    );
                }
                self.flagcount = self.flagcount + 1;
            }
        }
    }

    /// Unflags a flagged cell; anything else, including an out-of-range
    /// coordinate, is left untouched.
    pub fn unflag(&mut self, row: i32, col: i32)
        requires
            old(self).wf(),
        ensures
            final(self).wf(),
            unflag_effect(*old(self), *final(self), row as int, col as int),
            old(self).in_bounds(row as int, col as int) && old(self).cell(row as int, col as int)
                is Flagged ==> final(self).covered_count() == old(self).covered_count() + 1,
    {
        let cur = self.get_cell(row, col);
        if let Some(c) = cur {
            if matches!(c, OverlayCell::Flagged) {
                proof {
                    self.minefield.lemma_wf_config();
                    lemma_flat_index_bounds(
                        self.spec_rows(),
                        self.spec_cols(),
                        row as int,
                        col as int,
                    );
                    lemma_count_when_ge_one(
                        self.total(),
                        |i: int| self.cells@[i] is Flagged || self.cells@[i] is BadFlag,
                        (row as int) * self.spec_cols() + (col as int),
                    );
                }
                let cols = self.minefield.get_cols();
                let idx: usize = (row as usize) * (cols as usize) + (col as usize);
                let ghost pre = *self;
                self.cells[idx] = OverlayCell::Covered;
                proof {
                    lemma_overlay_update(pre, *self, row as int, col as int, OverlayCell::Covered);
                }
                self.flagcount = self.flagcount - 1;
            }
        }
    }

    /// Decides the victory arithmetic: flags placed plus cells still covered
    /// equal the mine count.
    pub fn is_victory_condition(&self) -> (r: bool)
        requires
            self.wf(),
        ensures
            r == self.victory_spec(),
    {
        proof {
            self.lemma_count_bounds();
            self.minefield.lemma_wf_config();
        }
        let total = self.cells.len();
        let mut acc: i32 = self.flagcount;
        let mut i: usize = 0;
        while i < total
            invariant
                self.wf(),
                i <= total,
                total as int == self.total(),
                acc as int == self.spec_flagcount() + count_when(
                    i as int,
                    |k: int| self.cells@[k] is Covered,
                ),
                self.spec_flagcount() + self.covered_count() <= self.total() <= i32::MAX as int,
                self.spec_flagcount() >= 0,
            decreases total - i,
        {
            let covered_here = matches!(self.cells[i], OverlayCell::Covered);
            proof {
                let p = |k: int| self.cells@[k] is Covered;
                assert(count_when(i + 1, p) == count_when(i as int, p) + if p(i as int) {
                    1int
                } else {
                    0int
                });
                lemma_count_when_bounds(i as int, p);
                lemma_count_when_monotone(i + 1, self.total(), p);
            }
            if covered_here {
                acc = acc + 1;
            }
            i = i + 1;
        }
        self.minefield.get_minecount() == acc
    }

    /// Reveals a lost board: covered mines show as mines and flags on
    /// harmless cells as bad flags; this is the only place either appears.
    pub fn reveal_mines(&mut self)
        requires
            old(self).wf(),
        ensures
            final(self).wf(),
            final(self).field() == old(self).field(),
            final(self).spec_flagcount() == old(self).spec_flagcount(),
            final(self).covered_count() <= old(self).covered_count(),
            forall|r2: int, c2: int|
                old(self).in_bounds(r2, c2) ==> final(self).cell(r2, c2) == revealed_cell(
                    old(self).cell(r2, c2),
                    old(self).mine_at(r2, c2),
                ),
    {
        proof {
            self.minefield.lemma_wf_config();
        }
        let rows = self.minefield.get_rows();
        let cols = self.minefield.get_cols();
        let mut r: i32 = 0;
        while r < rows
            invariant
                old(self).wf(),
                self.wf(),
                0 <= (r as int) && (r as int) <= (rows as int),
                rows as int == self.spec_rows(),
                cols as int == self.spec_cols(),
                self.minefield == old(self).minefield,
                self.flagcount == old(self).flagcount,
                self.covered_count() <= old(self).covered_count(),
                forall|r2: int, c2: int|
                    old(self).in_bounds(r2, c2) && r2 < r as int ==> self.cell(r2, c2)
                        == revealed_cell(old(self).cell(r2, c2), old(self).mine_at(r2, c2)),
                forall|r2: int, c2: int|
                    old(self).in_bounds(r2, c2) && r2 >= r as int ==> self.cell(r2, c2) == old(self).cell(r2, c2),
            decreases rows - r,
        {
            proof {
                self.minefield.lemma_wf_config();
            }
            let mut c: i32 = 0;
            while c < cols
                invariant
                    old(self).wf(),
                    self.wf(),
                    0 <= (r as int) && (r as int) < (rows as int),
                    0 <= (c as int) && (c as int) <= (cols as int),
                    rows as int == self.spec_rows(),
                    cols as int == self.spec_cols(),
                    self.minefield == old(self).minefield,
                    self.flagcount == old(self).flagcount,
                    self.covered_count() <= old(self).covered_count(),
                    forall|r2: int, c2: int|
                        old(self).in_bounds(r2, c2) && (r2 < r as int || (r2 == r as int && c2
                            < c as int)) ==> self.cell(r2, c2) == revealed_cell(
                            old(self).cell(r2, c2),
                            old(self).mine_at(r2, c2),
                        ),
                    forall|r2: int, c2: int|
                        old(self).in_bounds(r2, c2) && (r2 > r as int || (r2 == r as int && c2
                            >= c as int)) ==> self.cell(r2, c2) == old(self).cell(r2, c2),
                decreases cols - c,
            {
                let mine = self.minefield.is_mine(r, c);
                let cur = match self.get_cell(r, c) {
                    Some(x) => x,
                    None => {
                        proof {
                            assert(false);
                        }
                        return ;
                    },
                };
                let covered_mine = matches!(cur, OverlayCell::Covered) && mine;
                let bad_flag = matches!(cur, OverlayCell::Flagged) && !mine;
                if covered_mine || bad_flag {
                    proof {
                        self.minefield.lemma_wf_config();
                        lemma_flat_index_bounds(self.spec_rows(), self.spec_cols(), r as int, c as int);
                    }
                    let idx: usize = (r as usize) * (cols as usize) + (c as usize);
                    let ghost pre = *self;
                    if covered_mine {
                        self.cells[idx] = OverlayCell::Mine;
                        proof {
                            lemma_overlay_update(pre, *self, r as int, c as int, OverlayCell::Mine);
                        }
                    } else {
                        self.cells[idx] = OverlayCell::BadFlag;
                        proof {
                            lemma_overlay_update(pre, *self, r as int, c as int, OverlayCell::BadFlag);
                        }
                    }
                }
                c = c + 1;
            }
            r = r + 1;
        }
    }

    /// Flags every covered mine on a won board; the flag count follows along,
    /// so flags plus covered cells stay exactly what they were.
    pub fn flag_all_mines(&mut self)
        requires
            old(self).wf(),
        ensures
            final(self).wf(),
            final(self).field() == old(self).field(),
            forall|r2: int, c2: int|
                old(self).in_bounds(r2, c2) ==> final(self).cell(r2, c2) == (
                if old(self).cell(r2, c2) is Covered && old(self).mine_at(r2, c2) {
                    OverlayCell::Flagged
                } else {
                    old(self).cell(r2, c2)
                }),
            final(self).spec_flagcount() + final(self).covered_count() == old(self).spec_flagcount()
                + old(self).covered_count(),
            forall|r2: int, c2: int|
                old(self).in_bounds(r2, c2) ==> !(final(self).cell(r2, c2) is Covered && final(self).mine_at(r2, c2)),
    {
        proof {
            self.minefield.lemma_wf_config();
        }
        let rows = self.minefield.get_rows();
        let cols = self.minefield.get_cols();
        let mut r: i32 = 0;
        while r < rows
            invariant
                old(self).wf(),
                self.wf(),
                0 <= (r as int) && (r as int) <= (rows as int),
                rows as int == self.spec_rows(),
                cols as int == self.spec_cols(),
                self.minefield == old(self).minefield,
                self.spec_flagcount() + self.covered_count() == old(self).spec_flagcount() + old(self).covered_count(),
                forall|r2: int, c2: int|
                    old(self).in_bounds(r2, c2) && r2 < r as int ==> self.cell(r2, c2) == (
                    if old(self).cell(r2, c2) is Covered && old(self).mine_at(r2, c2) {
                        OverlayCell::Flagged
                    } else {
                        old(self).cell(r2, c2)
                    }),
                forall|r2: int, c2: int|
                    old(self).in_bounds(r2, c2) && r2 >= r as int ==> self.cell(r2, c2) == old(self).cell(r2, c2),
            decreases rows - r,
        {
            proof {
                self.minefield.lemma_wf_config();
            }
            let mut c: i32 = 0;
            while c < cols
                invariant
                    old(self).wf(),
                    self.wf(),
                    0 <= (r as int) && (r as int) < (rows as int),
                    0 <= (c as int) && (c as int) <= (cols as int),
                    rows as int == self.spec_rows(),
                    cols as int == self.spec_cols(),
                    self.minefield == old(self).minefield,
                    self.spec_flagcount() + self.covered_count() == old(self).spec_flagcount()
                        + old(self).covered_count(),
                    forall|r2: int, c2: int|
                        old(self).in_bounds(r2, c2) && (r2 < r as int || (r2 == r as int && c2
                            < c as int)) ==> self.cell(r2, c2) == (
                        if old(self).cell(r2, c2) is Covered && old(self).mine_at(r2, c2) {
                            OverlayCell::Flagged
                        } else {
                            old(self).cell(r2, c2)
                        }),
                    forall|r2: int, c2: int|
                        old(self).in_bounds(r2, c2) && (r2 > r as int || (r2 == r as int && c2
                            >= c as int)) ==> self.cell(r2, c2) == old(self).cell(r2, c2),
                decreases cols - c,
            {
                let mine = self.minefield.is_mine(r, c);
                let cur = match self.get_cell(r, c) {
                    Some(x) => x,
                    None => {
                        proof {
                            assert(false);
                        }
                        return ;
                    },
                };
                if matches!(cur, OverlayCell::Covered) && mine {
                    proof {
                        self.minefield.lemma_wf_config();
                        lemma_flat_index_bounds(self.spec_rows(), self.spec_cols(), r as int, c as int);
                    }
                    let idx: usize = (r as usize) * (cols as usize) + (c as usize);
                    let ghost pre = *self;
                    self.cells[idx] = OverlayCell::Flagged;
                    proof {
                        lemma_overlay_update(pre, *self, r as int, c as int, OverlayCell::Flagged);
                        self.minefield.lemma_wf_config();
                        lemma_count_when_bounds(
                            self.total(),
                            |i: int| self.cells@[i] is Flagged || self.cells@[i] is BadFlag,
                        );
                    }
                    self.flagcount = self.flagcount + 1;
                }
                c = c + 1;
            }
            r = r + 1;
        }
    }

    pub fn get_rows(&self) -> (r: i32)
        ensures
            r as int == self.spec_rows(),
    {
        self.minefield.get_rows()
    }

    pub fn get_cols(&self) -> (r: i32)
        ensures
            r as int == self.spec_cols(),
    {
        self.minefield.get_cols()
    }

    pub fn get_minecount(&self) -> (r: i32)
        ensures
            r as int == self.spec_minecount(),
    {
        self.minefield.get_minecount()
    }

    pub fn get_flag_count(&self) -> (r: i32)
        ensures
            r as int == self.spec_flagcount(),
    {
        self.flagcount
    }
}

/// A board with no covered cell anywhere has a covered count of zero.
pub proof fn lemma_no_covered_cells(o: Overlay)
    requires
        o.wf(),
        forall|r: int, c: int| o.in_bounds(r, c) ==> !(#[trigger] o.cell(r, c) is Covered),
    ensures
        o.covered_count() == 0,
{
    o.field().lemma_wf_config();
    assert forall|i: int| 0 <= i < o.total() implies !(#[trigger] o.cells@[i] is Covered) by {
        crate::counting::lemma_flat_index_decompose(o.spec_rows(), o.spec_cols(), i);
        assert(!(o.cell(i / o.spec_cols(), i % o.spec_cols()) is Covered));
    }
    crate::counting::lemma_count_when_none(o.total(), |i: int| o.cells@[i] is Covered);
}

/// Two distinct cells that touch, orthogonally or diagonally.
pub open spec fn adjacent(r1: int, c1: int, r2: int, c2: int) -> bool {
    &&& -1 <= r2 - r1 <= 1
    &&& -1 <= c2 - c1 <= 1
    &&& !(r2 == r1 && c2 == c1)
}

/// A cell with no adjacent mines has no mine on any neighbouring cell.
pub proof fn lemma_zero_adj_no_mine(o: Overlay, zr: int, zc: int, nr: int, nc: int)
    requires
        o.adj_mines(zr, zc) == 0,
        adjacent(zr, zc, nr, nc),
    ensures
        !o.mine_at(nr, nc),
{
    assert(!o.mine_at(zr - 1, zc - 1) && !o.mine_at(zr - 1, zc) && !o.mine_at(zr - 1, zc + 1)
        && !o.mine_at(zr, zc - 1) && !o.mine_at(zr, zc + 1) && !o.mine_at(zr + 1, zc - 1)
        && !o.mine_at(zr + 1, zc) && !o.mine_at(zr + 1, zc + 1));
}

/// How `flag` changes an overlay: a covered cell becomes flagged and the flag
/// count rises by one; any other target leaves the overlay untouched.
pub open spec fn flag_effect(pre: Overlay, post: Overlay, r: int, c: int) -> bool {
    if pre.in_bounds(r, c) && pre.cell(r, c) is Covered {
        &&& post.field() == pre.field()
        &&& post.cell(r, c) is Flagged
        &&& post.spec_flagcount() == pre.spec_flagcount() + 1
        &&& forall|r2: int, c2: int|
            pre.in_bounds(r2, c2) && !(r2 == r && c2 == c) ==> post.cell(r2, c2) == pre.cell(
                r2,
                c2,
            )
    } else {
        post == pre
    }
}

/// How `unflag` changes an overlay: a flagged cell becomes covered again and
/// the flag count falls by one; any other target leaves the overlay untouched.
pub open spec fn unflag_effect(pre: Overlay, post: Overlay, r: int, c: int) -> bool {
    if pre.in_bounds(r, c) && pre.cell(r, c) is Flagged {
        &&& post.field() == pre.field()
        &&& post.cell(r, c) is Covered
        &&& post.spec_flagcount() == pre.spec_flagcount() - 1
        &&& forall|r2: int, c2: int|
            pre.in_bounds(r2, c2) && !(r2 == r && c2 == c) ==> post.cell(r2, c2) == pre.cell(
                r2,
                c2,
            )
    } else {
        post == pre
    }
}

/// Law: flagging a covered cell and then unflagging it restores the cell to
/// covered, every other cell, and the flag count to what they were before.
pub proof fn lemma_flag_unflag_restores(o0: Overlay, o1: Overlay, o2: Overlay, r: int, c: int)
    requires
        o0.in_bounds(r, c),
        o0.cell(r, c) is Covered,
        flag_effect(o0, o1, r, c),
        unflag_effect(o1, o2, r, c),
    ensures
        o2.spec_flagcount() == o0.spec_flagcount(),
        o2.cell(r, c) is Covered,
        forall|r2: int, c2: int| o0.in_bounds(r2, c2) ==> o2.cell(r2, c2) == o0.cell(r2, c2),
{
    assert forall|r2: int, c2: int| o0.in_bounds(r2, c2) implies o2.cell(r2, c2) == o0.cell(
        r2,
        c2,
    ) by {
        if r2 == r && c2 == c {
            assert(o2.cell(r, c) == OverlayCell::Covered);
            assert(o0.cell(r, c) == OverlayCell::Covered);
        }
    }
}

/// Single-cell update: the written cell takes the new value, every other cell
/// keeps its old one, and the covered and flag-like counts move by the two
/// indicators at the written cell.
proof fn lemma_overlay_update(pre: Overlay, post: Overlay, rr: int, cc: int, v: OverlayCell)
    requires
        pre.field().wf(),
        pre.cells@.len() == pre.total(),
        pre.in_bounds(rr, cc),
        post.minefield == pre.minefield,
        post.flagcount == pre.flagcount,
        post.cells@ == pre.cells@.update(rr * pre.spec_cols() + cc, v),
    ensures
        post.cells@.len() == post.total(),
        post.cell(rr, cc) == v,
        forall|r2: int, c2: int|
            pre.in_bounds(r2, c2) && !(r2 == rr && c2 == cc) ==> post.cell(r2, c2) == pre.cell(
                r2,
                c2,
            ),
        post.covered_count() == pre.covered_count() - bool_to_count(pre.cell(rr, cc) is Covered)
            + bool_to_count(v is Covered),
        count_when(post.total(), |i: int| post.cells@[i] is Flagged || post.cells@[i] is BadFlag)
            == count_when(
            pre.total(),
            |i: int| pre.cells@[i] is Flagged || pre.cells@[i] is BadFlag,
        ) - bool_to_count(pre.cell(rr, cc) is Flagged || pre.cell(rr, cc) is BadFlag)
            + bool_to_count(v is Flagged || v is BadFlag),
{
    let cols = pre.spec_cols();
    let idx = rr * cols + cc;
    lemma_flat_index_bounds(pre.spec_rows(), cols, rr, cc);
    assert forall|r2: int, c2: int|
        pre.in_bounds(r2, c2) && !(r2 == rr && c2 == cc) implies post.cell(r2, c2) == pre.cell(
        r2,
        c2,
    ) by {
        lemma_flat_index_bounds(pre.spec_rows(), cols, r2, c2);
        if r2 * cols + c2 == idx {
            lemma_flat_index_injective(cols, r2, c2, rr, cc);
        }
    }
    let pc = |i: int| pre.cells@[i] is Covered;
    let qc = |i: int| post.cells@[i] is Covered;
    assert forall|i: int| 0 <= i < pre.total() && i != idx implies #[trigger] pc(i) == qc(i) by {}
    lemma_count_when_update(pre.total(), pc, qc, idx);
    let pf = |i: int| pre.cells@[i] is Flagged || pre.cells@[i] is BadFlag;
    let qf = |i: int| post.cells@[i] is Flagged || post.cells@[i] is BadFlag;
    assert forall|i: int| 0 <= i < pre.total() && i != idx implies #[trigger] pf(i) == qf(i) by {}
    lemma_count_when_update(pre.total(), pf, qf, idx);
}

} // verus!
