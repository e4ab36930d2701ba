//! A snapshot of a board's key matrix: which keys are down, row by row.
use vstd::prelude::*;

verus! {

/// The value of a snapshot: its shape and its cells in row-major order.
pub struct MatrixView {
    pub rows: usize,
    pub cols: usize,
    pub cells: Seq<bool>,
}

#[derive(Debug)]
pub struct Matrix {
    rows: usize,
    cols: usize,
    cells: Vec<bool>,
}

impl View for Matrix {
    type V = MatrixView;

    closed spec fn view(&self) -> MatrixView {
        MatrixView { rows: self.rows, cols: self.cols, cells: self.cells@ }
    }
}

impl Matrix {
    /// The empty snapshot that a newly found board starts from.
    pub fn empty() -> (r: Matrix)
        ensures
            r@ == (MatrixView { rows: 0, cols: 0, cells: Seq::<bool>::empty() }),
    {
        Matrix { rows: 0, cols: 0, cells: Vec::new() }
    }

    /// A snapshot of `rows` by `cols` cells; `None` unless there is one cell
    /// for each position.
    pub fn new(rows: usize, cols: usize, cells: Vec<bool>) -> (r: Option<Matrix>)
        ensures
            r.is_some() == (rows * cols == cells@.len()),
            r.is_some() ==> r.unwrap()@ == (MatrixView { rows, cols, cells: cells@ }),
    {
        let len = cells.len();
        match rows.checked_mul(cols) {
            Some(n) => {
                if n == len {
                    Some(Matrix { rows, cols, cells })
                } else {
                    None
                }
            },
            None => {
                proof {
                    assert(rows * cols > usize::MAX) by (nonlinear_arith)
                        requires
                            rows * cols > usize::MAX || rows * cols < 0,
                            rows >= 0,
                            cols >= 0,
                    ;
                    assert(len == cells@.len());
                }
                None
            },
        }
    }

    pub fn rows(&self) -> (r: usize)
        ensures
            r == self@.rows,
    {
        self.rows
    }

    pub fn cols(&self) -> (r: usize)
        ensures
            r == self@.cols,
    {
        self.cols
    }

    /// Whether the key at `row`, `col` is down; `None` outside the matrix.
    pub fn get(&self, row: usize, col: usize) -> (r: Option<bool>)
        ensures
            r == (if row < self@.rows && col < self@.cols && row * self@.cols + col
                < self@.cells.len() {
                Some(self@.cells[row * self@.cols + col])
            } else {
                None
            }),
    {
        let len = self.cells.len();
        if row >= self.rows || col >= self.cols {
            return None;
        }
        match row.checked_mul(self.cols) {
            Some(base) => {
                if base >= self.cells.len() || self.cells.len() - base <= col {
                    None
                } else {
                    Some(self.cells[base + col])
                }
            },
            None => {
                proof {
                    assert(row * self.cols + col >= self.cells@.len()) by (nonlinear_arith)
                        requires
                            row * self.cols > usize::MAX || row * self.cols < 0,
                            row >= 0,
                            self.cols >= 0,
                            col >= 0,
                            self.cells@.len() == len,
                    ;
                }
                None
            },
        }
    }

    /// Value equality of two snapshots.
    pub fn same_as(&self, other: &Matrix) -> (r: bool)
        ensures
            r == (self@ == other@),
    {
        if self.rows != other.rows || self.cols != other.cols || self.cells.len()
            != other.cells.len() {
            proof {
                if self@ == other@ {
                    assert(self.cells@.len() == other.cells@.len());
                }
            }
            return false;
        }
        let mut i: usize = 0;
        while i < self.cells.len()
            invariant
                i <= self.cells@.len(),
                self.cells@.len() == other.cells@.len(),
                forall|j: int| 0 <= j < i ==> self.cells@[j] == other.cells@[j],
            decreases self.cells@.len() - i,
        {
            if self.cells[i] != other.cells[i] {
                return false;
            }
            i = i + 1;
        }
        proof {
            assert(self.cells@ =~= other.cells@);
        }
        true
    }

    /// A second snapshot with the same value.
    pub fn duplicate(&self) -> (r: Matrix)
        ensures
            r@ == self@,
    {
        let mut cells: Vec<bool> = Vec::new();
        let mut i: usize = 0;
        while i < self.cells.len()
            invariant
                i <= self.cells@.len(),
                cells@ == self.cells@.take(i as int),
            decreases self.cells@.len() - i,
        {
            cells.push(self.cells[i]);
            i = i + 1;
            proof {
                assert(cells@ =~= self.cells@.take(i as int));
            }
        }
        proof {
            assert(cells@ =~= self.cells@);
        }
        Matrix { rows: self.rows, cols: self.cols, cells }
    }
}

} // verus!
