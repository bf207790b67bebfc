use vstd::prelude::*;

use crate::error::{MatrixError, Operation};

verus! {

/// A dense matrix of `rows` x `cols` elements, stored row by row in `data`:
/// element (`r`, `c`) sits at `data[r * cols + c]`.
pub struct Matrix<T> {
    pub rows: usize,
    pub cols: usize,
    pub data: Vec<T>,
}

/// The flat offset of (`row`, `col`) lies inside a `rows` x `cols` grid.
proof fn lemma_offset_in_grid(row: int, col: int, rows: int, cols: int)
    requires
        0 <= row < rows,
        0 <= col < cols,
    ensures
        0 <= row * cols + col < rows * cols,
{
    assert(0 <= row * cols + col < rows * cols) by (nonlinear_arith)
        requires
            0 <= row < rows,
            0 <= col < cols,
    ;
}

/// Distinct positions of a grid with `cols` columns have distinct flat offsets.
proof fn lemma_offset_injective(r1: int, c1: int, r2: int, c2: int, cols: int)
    requires
        0 <= c1 < cols,
        0 <= c2 < cols,
        0 <= r1,
        0 <= r2,
        r1 * cols + c1 == r2 * cols + c2,
    ensures
        r1 == r2,
        c1 == c2,
{
    assert(r1 == r2) by (nonlinear_arith)
        requires
            0 <= c1 < cols,
            0 <= c2 < cols,
            0 <= r1,
            0 <= r2,
            r1 * cols + c1 == r2 * cols + c2,
    ;
}

/// `acc` and `prods` record one run of the dot product of row `i` of `a` and
/// column `j` of `b`: `acc[0]` is `zero`, `prods[k]` is what `times` gave for
/// `a[i, k]` and `b[k, j]`, and `acc[k + 1]` is what `plus` gave for `acc[k]`
/// and `prods[k]`, for each `k` in increasing order.
pub open spec fn is_dot_trace<T: Copy, M: Fn(T, T) -> T, A: Fn(T, T) -> T>(
    a: Matrix<T>,
    b: Matrix<T>,
    i: int,
    j: int,
    zero: T,
    times: M,
    plus: A,
    acc: Seq<T>,
    prods: Seq<T>,
) -> bool {
    &&& acc.len() == a.cols + 1
    &&& prods.len() == a.cols
    &&& acc[0] == zero
    &&& forall|k: int|
        0 <= k < a.cols ==> {
            &&& times.ensures((a.entry(i, k), b.entry(k, j)), #[trigger] prods[k])
            &&& plus.ensures((acc[k], prods[k]), acc[k + 1])
        }
}

/// `v` is a value that the dot product of row `i` of `a` and column `j` of `b`
/// can come to: the sum, in increasing `k` and starting from `zero`, of the
/// products `a[i, k] * b[k, j]`, with `times` and `plus` as the operations.
pub open spec fn is_dot_product<T: Copy, M: Fn(T, T) -> T, A: Fn(T, T) -> T>(
    a: Matrix<T>,
    b: Matrix<T>,
    i: int,
    j: int,
    zero: T,
    times: M,
    plus: A,
    v: T,
) -> bool {
    exists|acc: Seq<T>, prods: Seq<T>|
        #[trigger] is_dot_trace(a, b, i, j, zero, times, plus, acc, prods) && acc[a.cols as int]
            == v
}

impl<T: Copy> Matrix<T> {
    /// The storage holds exactly one element per position, and the number of
    /// positions is a `usize`.
    pub open spec fn wf(&self) -> bool {
        &&& self.rows * self.cols <= usize::MAX
        &&& self.data@.len() == self.rows * self.cols
    }

    pub open spec fn in_bounds(&self, row: int, col: int) -> bool {
        0 <= row < self.rows && 0 <= col < self.cols
    }

    /// Row-major position of (`row`, `col`) in `data`.
    pub open spec fn offset(&self, row: int, col: int) -> int {
        row * self.cols + col
    }

    /// The element at (`row`, `col`).
    pub open spec fn entry(&self, row: int, col: int) -> T {
        self.data@[self.offset(row, col)]
    }

    /// A `rows` x `cols` matrix with every element equal to `zero`.
    pub fn new(rows: usize, cols: usize, zero: T) -> (m: Self)
        requires
            rows * cols <= usize::MAX,
        ensures
            m.wf(),
            m.rows == rows,
            m.cols == cols,
            forall|i: int| 0 <= i < m.data@.len() ==> #[trigger] m.data@[i] == zero,
    {
        let len: usize = rows * cols;
        let mut data: Vec<T> = Vec::with_capacity(len);
        let mut i: usize = 0;
        while i < len
            invariant
                i <= len,
                data@.len() == i,
                forall|k: int| 0 <= k < i ==> #[trigger] data@[k] == zero,
            decreases len - i,
        {
            data.push(zero);
            i = i + 1;
        }
        Matrix { rows, cols, data }
    }

    /// The element at (`row`, `col`), or `OutOfBounds` when the position lies
    /// outside the matrix.
    pub fn get(&self, row: usize, col: usize) -> (r: Result<T, MatrixError>)
        requires
            self.wf(),
        ensures
            self.in_bounds(row as int, col as int) ==> r == Ok::<T, MatrixError>(
                self.entry(row as int, col as int),
            ),
            !self.in_bounds(row as int, col as int) ==> r == Err::<T, MatrixError>(
                (MatrixError::OutOfBounds { row, col, rows: self.rows, cols: self.cols }),
            ),
    {
        if row >= self.rows || col >= self.cols {
            return Err(MatrixError::OutOfBounds { row, col, rows: self.rows, cols: self.cols });
        }
        proof {
            lemma_offset_in_grid(row as int, col as int, self.rows as int, self.cols as int);
        }
        Ok(self.data[row * self.cols + col])
    }

    /// Writes `value` at (`row`, `col`), or fails with `OutOfBounds`, leaving
    /// the matrix as it was, when the position lies outside the matrix.
    pub fn set(&mut self, row: usize, col: usize, value: T) -> (r: Result<(), MatrixError>)
        requires
            old(self).wf(),
        ensures
            final(self).wf(),
            final(self).rows == old(self).rows,
            final(self).cols == old(self).cols,
            old(self).in_bounds(row as int, col as int) ==> {
                &&& r is Ok
                &&& final(self).data@ == old(self).data@.update(
                    old(self).offset(row as int, col as int),
                    value,
                )
            },
            !old(self).in_bounds(row as int, col as int) ==> {
                &&& r == Err::<(), MatrixError>(
                    (MatrixError::OutOfBounds { row, col, rows: old(self).rows, cols: old(self).cols }),
                )
                &&& final(self).data@ == old(self).data@
            },
    {
        if row >= self.rows || col >= self.cols {
            return Err(MatrixError::OutOfBounds { row, col, rows: self.rows, cols: self.cols });
        }
        proof {
            lemma_offset_in_grid(row as int, col as int, self.rows as int, self.cols as int);
        }
        let idx = row * self.cols + col;
        self.data.set(idx, value);
        Ok(())
    }

    /// The position-by-position sum of `self` and `other`: element `i` of the
    /// result's storage is what `plus` gives for element `i` of each operand.
    /// Fails with `DimensionMismatch` unless both have the same shape.
    pub fn hadamard_add<A: Fn(T, T) -> T>(&self, other: &Self, plus: A) -> (r: Result<
        Self,
        MatrixError,
    >)
        requires
            self.wf(),
            other.wf(),
            forall|x: T, y: T| plus.requires((x, y)),
        ensures
            !(self.rows == other.rows && self.cols == other.cols) ==> r == Err::<Self, MatrixError>(
                (MatrixError::DimensionMismatch {
                    operation: Operation::HadamardAdd,
                    left_rows: self.rows,
                    left_cols: self.cols,
                    right_rows: other.rows,
                    right_cols: other.cols,
                }),
            ),
            self.rows == other.rows && self.cols == other.cols ==> r is Ok,
            r matches Ok(m) ==> {
                &&& m.wf()
                &&& m.rows == self.rows
                &&& m.cols == self.cols
                &&& forall|i: int|
                    0 <= i < m.data@.len() ==> plus.ensures(
                        (self.data@[i], other.data@[i]),
                        #[trigger] m.data@[i],
                    )
                &&& forall|i: int, j: int|
                    m.in_bounds(i, j) ==> plus.ensures(
                        (self.entry(i, j), other.entry(i, j)),
                        #[trigger] m.entry(i, j),
                    )
            },
    {
        if self.rows != other.rows || self.cols != other.cols {
            return Err(
                MatrixError::DimensionMismatch {
                    operation: Operation::HadamardAdd,
                    left_rows: self.rows,
                    left_cols: self.cols,
                    right_rows: other.rows,
                    right_cols: other.cols,
                },
            );
        }
        let len = self.data.len();
        let mut data: Vec<T> = Vec::with_capacity(len);
        let mut i: usize = 0;
        while i < len
            invariant
                len == self.data@.len(),
                len == other.data@.len(),
                forall|x: T, y: T| plus.requires((x, y)),
                i <= len,
                data@.len() == i,
                forall|k: int|
                    0 <= k < i ==> plus.ensures((self.data@[k], other.data@[k]), #[trigger] data@[k]),
            decreases len - i,
        {
            data.push(plus(self.data[i], other.data[i]));
            i = i + 1;
        }
        let result = Matrix { rows: self.rows, cols: self.cols, data };
        proof {
            assert forall|i: int, j: int| result.in_bounds(i, j) implies plus.ensures(
                (self.entry(i, j), other.entry(i, j)),
                #[trigger] result.entry(i, j),
            ) by {
                lemma_offset_in_grid(i, j, self.rows as int, self.cols as int);
            }
        }
        Ok(result)
    }

    /// The matrix product of `self` and `other`: element (`i`, `j`) of the
    /// result is the dot product of row `i` of `self` and column `j` of
    /// `other`, summed in increasing order from `zero` with `times` and `plus`
    /// as the element operations. Fails with `DimensionMismatch` when
    /// `self.cols != other.rows`.
    pub fn add<M: Fn(T, T) -> T, A: Fn(T, T) -> T>(
        &self,
        other: &Self,
        zero: T,
        times: M,
        plus: A,
    ) -> (r: Result<Self, MatrixError>)
        requires
            self.wf(),
            other.wf(),
            self.cols == other.rows ==> self.rows * other.cols <= usize::MAX,
            forall|x: T, y: T| times.requires((x, y)),
            forall|x: T, y: T| plus.requires((x, y)),
        ensures
            self.cols != other.rows ==> r == Err::<Self, MatrixError>(
                (MatrixError::DimensionMismatch {
                    operation: Operation::Multiply,
                    left_rows: self.rows,
                    left_cols: self.cols,
                    right_rows: other.rows,
                    right_cols: other.cols,
                }),
            ),
            self.cols == other.rows ==> r is Ok,
            r matches Ok(m) ==> {
                &&& m.wf()
                &&& m.rows == self.rows
                &&& m.cols == other.cols
                &&& forall|i: int, j: int|
                    m.in_bounds(i, j) ==> is_dot_product(
                        *self,
                        *other,
                        i,
                        j,
                        zero,
                        times,
                        plus,
                        #[trigger] m.entry(i, j),
                    )
            },
    {
        if self.cols != other.rows {
            return Err(
                MatrixError::DimensionMismatch {
                    operation: Operation::Multiply,
                    left_rows: self.rows,
                    left_cols: self.cols,
                    right_rows: other.rows,
                    right_cols: other.cols,
                },
            );
        }
        let m = self.rows;
        let n = self.cols;
        let p = other.cols;
        let mut result = Matrix::new(m, p, zero);
        let mut i: usize = 0;
        while i < m
            invariant
                self.wf(),
                other.wf(),
                n == self.cols,
                n == other.rows,
                m == self.rows,
                p == other.cols,
                forall|x: T, y: T| times.requires((x, y)),
                forall|x: T, y: T| plus.requires((x, y)),
                i <= m,
                result.wf(),
                result.rows == m,
                result.cols == p,
                forall|ii: int, jj: int|
                    0 <= ii < i && 0 <= jj < p ==> is_dot_product(
                        *self,
                        *other,
                        ii,
                        jj,
                        zero,
                        times,
                        plus,
                        #[trigger] result.entry(ii, jj),
                    ),
            decreases m - i,
        {
            let mut j: usize = 0;
            while j < p
                invariant
                    self.wf(),
                    other.wf(),
                    n == self.cols,
                    n == other.rows,
                    m == self.rows,
                    p == other.cols,
                    forall|x: T, y: T| times.requires((x, y)),
                    forall|x: T, y: T| plus.requires((x, y)),
                    i < m,
                    j <= p,
                    result.wf(),
                    result.rows == m,
                    result.cols == p,
                    forall|ii: int, jj: int|
                        (0 <= ii < i && 0 <= jj < p) || (ii == i && 0 <= jj < j)
                            ==> is_dot_product(
                            *self,
                            *other,
                            ii,
                            jj,
                            zero,
                            times,
                            plus,
                            #[trigger] result.entry(ii, jj),
                        ),
                decreases p - j,
            {
                let mut sum = zero;
                let ghost mut acc: Seq<T> = seq![zero];
                let ghost mut prods: Seq<T> = Seq::empty();
                let mut k: usize = 0;
                while k < n
                    invariant
                        self.wf(),
                        other.wf(),
                        n == self.cols,
                        n == other.rows,
                        p == other.cols,
                        forall|x: T, y: T| times.requires((x, y)),
                        forall|x: T, y: T| plus.requires((x, y)),
                        i < m,
                        m == self.rows,
                        j < p,
                        k <= n,
                        acc.len() == k + 1,
                        prods.len() == k,
                        acc[0] == zero,
                        acc[k as int] == sum,
                        forall|kk: int|
                            0 <= kk < k ==> {
                                &&& times.ensures(
                                    (self.entry(i as int, kk), other.entry(kk, j as int)),
                                    #[trigger] prods[kk],
                                )
                                &&& plus.ensures((acc[kk], prods[kk]), acc[kk + 1])
                            },
                    decreases n - k,
                {
                    proof {
                        lemma_offset_in_grid(i as int, k as int, m as int, n as int);
                        lemma_offset_in_grid(k as int, j as int, n as int, p as int);
                    }
                    let x = self.data[i * n + k];
                    let y = other.data[k * p + j];
                    let prod = times(x, y);
                    let next = plus(sum, prod);
                    proof {
                        prods = prods.push(prod);
                        acc = acc.push(next);
                    }
                    sum = next;
                    k = k + 1;
                }
                proof {
                    assert(is_dot_trace(*self, *other, i as int, j as int, zero, times, plus, acc, prods));
                    lemma_offset_in_grid(i as int, j as int, m as int, p as int);
                }
                let ghost before = result;
                result.data.set(i * p + j, sum);
                proof {
                    assert forall|ii: int, jj: int|
                        (0 <= ii < i && 0 <= jj < p) || (ii == i && 0 <= jj < j + 1)
                            implies is_dot_product(
                            *self,
                            *other,
                            ii,
                            jj,
                            zero,
                            times,
                            plus,
                            #[trigger] result.entry(ii, jj),
                        ) by {
                        if ii == i && jj == j {
                        } else {
                            lemma_offset_in_grid(ii, jj, m as int, p as int);
                            if result.offset(ii, jj) == result.offset(i as int, j as int) {
                                lemma_offset_injective(ii, jj, i as int, j as int, p as int);
                            }
                            assert(result.entry(ii, jj) == before.entry(ii, jj));
                        }
                    }
                }
                j = j + 1;
            }
            i = i + 1;
        }
        Ok(result)
    }
}

/// Reading back what was written: once `set` has written `v` at an in-bounds
/// (`row`, `col`) of `before`, giving `after`, `get` at (`row`, `col`) finds
/// `v`, and every other position still holds what it held in `before`.
pub proof fn lemma_set_then_get<T: Copy>(
    before: Matrix<T>,
    after: Matrix<T>,
    row: int,
    col: int,
    v: T,
)
    requires
        before.wf(),
        before.in_bounds(row, col),
        after.rows == before.rows,
        after.cols == before.cols,
        after.data@ == before.data@.update(before.offset(row, col), v),
    ensures
        after.wf(),
        after.in_bounds(row, col),
        after.entry(row, col) == v,
        forall|r: int, c: int|
            before.in_bounds(r, c) && (r != row || c != col) ==> #[trigger] after.entry(r, c)
                == before.entry(r, c),
{
    lemma_offset_in_grid(row, col, before.rows as int, before.cols as int);
    assert forall|r: int, c: int|
        before.in_bounds(r, c) && (r != row || c != col) implies #[trigger] after.entry(r, c)
        == before.entry(r, c) by {
        lemma_offset_in_grid(r, c, before.rows as int, before.cols as int);
        if before.offset(r, c) == before.offset(row, col) {
            lemma_offset_injective(r, c, row, col, before.cols as int);
        }
    }
}

} // verus!
