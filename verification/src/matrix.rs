//! Row-major matrices: construction, element and row access, and the
//! data-movement operations of the CPU transformer (transpose, row and
//! column slices, gathers and concatenation). They only move entries, so
//! they are written for any copyable entry type.
use crate::slices::copy_range;
use vstd::arithmetic::mul::*;
use vstd::prelude::*;

verus! {

/// Position of entry `(r, c)` in the row-major data of a matrix with `cols`
/// columns.
pub open spec fn row_major(r: int, c: int, cols: int) -> int {
    r * cols + c
}

/// Entry `(r, c)` of a matrix with `rows` rows lies inside its data, and after
/// every entry of earlier rows.
proof fn lemma_row_major_bounds(r: int, c: int, rows: int, cols: int)
    requires
        0 <= r < rows,
        0 <= c < cols,
    ensures
        r * cols <= row_major(r, c, cols) < (r + 1) * cols,
        (r + 1) * cols <= rows * cols,
        0 <= row_major(r, c, cols) < rows * cols,
{
    lemma_mul_is_distributive_add_other_way(cols, r, 1);
    lemma_mul_inequality(r + 1, rows, cols);
    lemma_mul_nonnegative(r, cols);
}

/// Row `r` of a matrix with `rows` rows lies inside its data.
proof fn lemma_row_bounds(r: int, rows: int, cols: int)
    requires
        0 <= r < rows,
        0 <= cols,
    ensures
        0 <= r * cols,
        r * cols + cols == (r + 1) * cols,
        (r + 1) * cols <= rows * cols,
{
    lemma_mul_is_distributive_add_other_way(cols, r, 1);
    lemma_mul_inequality(r + 1, rows, cols);
    lemma_mul_nonnegative(r, cols);
}

/// Distinct entries of a matrix sit at distinct positions of its data.
proof fn lemma_row_major_injective(r1: int, c1: int, r2: int, c2: int, cols: int)
    requires
        0 <= c1 < cols,
        0 <= c2 < cols,
        row_major(r1, c1, cols) == row_major(r2, c2, cols),
    ensures
        r1 == r2,
        c1 == c2,
{
    let x = row_major(r1, c1, cols);
    vstd::arithmetic::div_mod::lemma_fundamental_div_mod_converse(x, cols, r1, c1);
    vstd::arithmetic::div_mod::lemma_fundamental_div_mod_converse(x, cols, r2, c2);
}

/// Appending a row of `w` entries to the data of `i` complete rows keeps the
/// earlier entries and puts the new row at row `i`.
proof fn lemma_append_row<T>(before: Seq<T>, seg: Seq<T>, after: Seq<T>, i: int, w: int)
    requires
        0 <= i,
        0 <= w,
        after == before + seg,
        before.len() == i * w,
        seg.len() == w,
    ensures
        after.len() == (i + 1) * w,
        forall|ii: int, cc: int|
            0 <= ii < i && 0 <= cc < w ==> #[trigger] after[row_major(ii, cc, w)] == before[row_major(
                ii,
                cc,
                w,
            )],
        forall|cc: int| 0 <= cc < w ==> #[trigger] after[row_major(i, cc, w)] == seg[cc],
{
    lemma_mul_is_distributive_add_other_way(w, i, 1);
    assert forall|ii: int, cc: int| 0 <= ii < i && 0 <= cc < w implies #[trigger] after[row_major(
        ii,
        cc,
        w,
    )] == before[row_major(ii, cc, w)] by {
        lemma_row_major_bounds(ii, cc, i, w);
    }
}

/// A matrix stored in row-major order.
#[derive(Clone, Debug)]
pub struct Mat<T> {
    pub data: Vec<T>,
    pub rows: usize,
    pub cols: usize,
}

impl<T> Mat<T> {
    /// The data holds exactly `rows * cols` entries.
    pub open spec fn wf(&self) -> bool {
        self.data@.len() == self.rows * self.cols
    }

    /// Entry `(r, c)`.
    pub open spec fn entry(&self, r: int, c: int) -> T {
        self.data@[row_major(r, c, self.cols as int)]
    }

    /// `t` has the shape of `self` with rows and columns swapped, and entry
    /// `(c, r)` of `t` is entry `(r, c)` of `self`.
    pub open spec fn is_transpose_of(&self, m: &Mat<T>) -> bool {
        &&& self.rows == m.cols
        &&& self.cols == m.rows
        &&& forall|r: int, c: int|
            0 <= r < m.rows && 0 <= c < m.cols ==> #[trigger] self.entry(c, r) == m.entry(r, c)
    }
}

/// Transposing twice gives back the original matrix.
pub proof fn lemma_transpose_twice<T>(m: &Mat<T>, t: &Mat<T>, u: &Mat<T>)
    requires
        m.wf(),
        u.wf(),
        t.is_transpose_of(m),
        u.is_transpose_of(t),
    ensures
        u.rows == m.rows,
        u.cols == m.cols,
        u.data@ == m.data@,
{
    assert forall|i: int| 0 <= i < m.data@.len() implies u.data@[i] == m.data@[i] by {
        let cols = m.cols as int;
        assert(cols > 0) by {
            if cols == 0 {
                lemma_mul_by_zero_is_zero(m.rows as int);
            }
        }
        let r = i / cols;
        let c = i % cols;
        vstd::arithmetic::div_mod::lemma_fundamental_div_mod(i, cols);
        assert(i == row_major(r, c, cols));
        assert(0 <= r < m.rows) by {
            if r >= m.rows {
                lemma_mul_inequality(m.rows as int, r, cols);
            }
            vstd::arithmetic::div_mod::lemma_div_pos_is_pos(i, cols);
        }
        assert(u.entry(r, c) == t.entry(c, r));
        assert(t.entry(c, r) == m.entry(r, c));
    }
    assert(u.data@ =~= m.data@);
}

impl<T: Copy> Mat<T> {
    /// A `rows x cols` matrix over the given row-major data.
    pub fn from_vec(data: Vec<T>, rows: usize, cols: usize) -> (m: Self)
        requires
            data@.len() == rows * cols,
        ensures
            m.wf(),
            m.data@ == data@,
            m.rows == rows,
            m.cols == cols,
    {
        Mat { data, rows, cols }
    }

    /// A `rows x cols` matrix whose every entry is `value`.
    pub fn filled(rows: usize, cols: usize, value: T) -> (m: Self)
        requires
            rows * cols <= usize::MAX,
        ensures
            m.wf(),
            m.rows == rows,
            m.cols == cols,
            forall|i: int| 0 <= i < m.data@.len() ==> #[trigger] m.data@[i] == value,
    {
        let n = rows * cols;
        let mut data: Vec<T> = Vec::with_capacity(n);
        let mut i: usize = 0;
        while i < n
            invariant
                i <= n,
                data@.len() == i,
                forall|j: int| 0 <= j < i ==> #[trigger] data@[j] == value,
            decreases n - i,
        {
            data.push(value);
            i = i + 1;
        }
        Mat { data, rows, cols }
    }

    /// Entry `(r, c)`.
    pub fn at(&self, r: usize, c: usize) -> (v: T)
        requires
            self.wf(),
            r < self.rows,
            c < self.cols,
        ensures
            v == self.entry(r as int, c as int),
    {
        let len = self.data.len();
        proof {
            lemma_row_major_bounds(r as int, c as int, self.rows as int, self.cols as int);
        }
        self.data[r * self.cols + c]
    }

    /// A mutable reference to entry `(r, c)`.
    pub fn at_mut(&mut self, r: usize, c: usize) -> (e: &mut T)
        requires
            old(self).wf(),
            r < old(self).rows,
            c < old(self).cols,
        ensures
            *e == old(self).entry(r as int, c as int),
            final(self).rows == old(self).rows,
            final(self).cols == old(self).cols,
            final(self).data@ == old(self).data@.update(
                row_major(r as int, c as int, old(self).cols as int),
                *final(e),
            ),
    {
        let len = self.data.len();
        proof {
            lemma_row_major_bounds(r as int, c as int, self.rows as int, self.cols as int);
        }
        let i = r * self.cols + c;
        &mut self.data[i]
    }

    /// Row `r`.
    pub fn row(&self, r: usize) -> (s: &[T])
        requires
            self.wf(),
            r < self.rows,
        ensures
            s@ == self.data@.subrange(r * self.cols, r * self.cols + self.cols),
            forall|c: int| 0 <= c < self.cols ==> #[trigger] s@[c] == self.entry(r as int, c),
    {
        let len = self.data.len();
        proof {
            lemma_row_bounds(r as int, self.rows as int, self.cols as int);
        }
        let start = r * self.cols;
        &self.data.as_slice()[start..start + self.cols]
    }

    /// The transpose.
    pub fn transpose(&self) -> (t: Self)
        requires
            self.wf(),
        ensures
            t.wf(),
            t.is_transpose_of(self),
    {
        let rows = self.rows;
        let cols = self.cols;
        let len = self.data.len();
        let mut data: Vec<T> = Vec::new();
        proof {
            lemma_mul_basics(self.cols as int);
            lemma_mul_basics(self.rows as int);
        }
        for c in 0..cols
            invariant
                self.wf(),
                rows == self.rows,
                cols == self.cols,
                len == self.data@.len(),
                data@.len() == c * rows,
                forall|cc: int, rr: int|
                    0 <= cc < c && 0 <= rr < rows ==> #[trigger] data@[row_major(cc, rr, rows as int)]
                        == self.entry(rr, cc),
        {
            proof {
                lemma_mul_is_distributive_add_other_way(rows as int, c as int, 1);
            }
            for r in 0..rows
                invariant
                    self.wf(),
                    rows == self.rows,
                    cols == self.cols,
                    c < cols,
                    len == self.data@.len(),
                    data@.len() == c * rows + r,
                    forall|cc: int, rr: int|
                        0 <= cc < c && 0 <= rr < rows ==> #[trigger] data@[row_major(
                            cc,
                            rr,
                            rows as int,
                        )] == self.entry(rr, cc),
                    forall|rr: int|
                        0 <= rr < r ==> #[trigger] data@[row_major(c as int, rr, rows as int)]
                            == self.entry(rr, c as int),
            {
                proof {
                    lemma_row_major_bounds(r as int, c as int, rows as int, cols as int);
                }
                let v = self.data[r * cols + c];
                let ghost before = data@;
                data.push(v);
                assert forall|cc: int, rr: int|
                    0 <= cc < c && 0 <= rr < rows implies #[trigger] data@[row_major(
                        cc,
                        rr,
                        rows as int,
                    )] == self.entry(rr, cc) by {
                    lemma_row_major_bounds(cc, rr, c as int, rows as int);
                    assert(data@[row_major(cc, rr, rows as int)] == before[row_major(
                        cc,
                        rr,
                        rows as int,
                    )]);
                }
                assert forall|rr: int| 0 <= rr < r + 1 implies #[trigger] data@[row_major(
                    c as int,
                    rr,
                    rows as int,
                )] == self.entry(rr, c as int) by {
                    if rr < r {
                        assert(data@[row_major(c as int, rr, rows as int)] == before[row_major(
                            c as int,
                            rr,
                            rows as int,
                        )]);
                    }
                }
            }
            assert forall|cc: int, rr: int|
                0 <= cc < c + 1 && 0 <= rr < rows implies #[trigger] data@[row_major(
                    cc,
                    rr,
                    rows as int,
                )] == self.entry(rr, cc) by {}
        }
        proof {
            lemma_mul_is_commutative(cols as int, rows as int);
        }
        let t = Mat { data, rows: cols, cols: rows };
        assert forall|r: int, c: int|
            0 <= r < self.rows && 0 <= c < self.cols implies #[trigger] t.entry(c, r) == self.entry(
            r,
            c,
        ) by {}
        t
    }

    /// Rows `start..end`.
    pub fn slice_rows(&self, start: usize, end: usize) -> (m: Self)
        requires
            self.wf(),
            start <= end <= self.rows,
        ensures
            m.wf(),
            m.rows == end - start,
            m.cols == self.cols,
            m.data@ == self.data@.subrange(start * self.cols, end * self.cols),
            forall|r: int, c: int|
                0 <= r < m.rows && 0 <= c < m.cols ==> #[trigger] m.entry(r, c) == self.entry(
                    start + r,
                    c,
                ),
    {
        let cols = self.cols;
        let len = self.data.len();
        proof {
            lemma_mul_inequality(start as int, end as int, cols as int);
            lemma_mul_inequality(end as int, self.rows as int, cols as int);
            lemma_mul_is_distributive_sub_other_way(cols as int, end as int, start as int);
            lemma_mul_nonnegative(start as int, cols as int);
        }
        let data = copy_range(&self.data, start * cols, end * cols);
        let m = Mat { data, rows: end - start, cols };
        assert forall|r: int, c: int| 0 <= r < m.rows && 0 <= c < m.cols implies #[trigger] m.entry(
            r,
            c,
        ) == self.entry(start + r, c) by {
            lemma_row_major_bounds(r, c, m.rows as int, cols as int);
            lemma_mul_is_distributive_add_other_way(cols as int, start as int, r);
        }
        m
    }

    /// Columns `start..end` of every row.
    pub fn slice_cols(&self, start: usize, end: usize) -> (m: Self)
        requires
            self.wf(),
            start <= end <= self.cols,
        ensures
            m.wf(),
            m.rows == self.rows,
            m.cols == end - start,
            forall|r: int, c: int|
                0 <= r < m.rows && 0 <= c < m.cols ==> #[trigger] m.entry(r, c) == self.entry(
                    r,
                    start + c,
                ),
    {
        let rows = self.rows;
        let cols = self.cols;
        let w = end - start;
        proof {
            lemma_mul_basics(w as int);
        }
        let len = self.data.len();
        let mut data: Vec<T> = Vec::new();
        proof {
            lemma_mul_basics(self.cols as int);
            lemma_mul_basics(self.rows as int);
        }
        for r in 0..rows
            invariant
                self.wf(),
                rows == self.rows,
                cols == self.cols,
                len == self.data@.len(),
                start <= end <= cols,
                w == end - start,
                data@.len() == r * w,
                forall|rr: int, cc: int|
                    0 <= rr < r && 0 <= cc < w ==> #[trigger] data@[row_major(rr, cc, w as int)]
                        == self.entry(rr, start + cc),
        {
            proof {
                lemma_row_bounds(r as int, rows as int, cols as int);
            }
            let base = r * cols;
            let mut seg = copy_range(&self.data, base + start, base + end);
            let ghost before = data@;
            let ghost sg = seg@;
            data.append(&mut seg);
            proof {
                lemma_append_row(before, sg, data@, r as int, w as int);
                lemma_mul_nonnegative(r as int, w as int);
            }
        }
        Mat { data, rows, cols: w }
    }

    /// Rows `indices[0]`, `indices[1]`, ... in that order.
    pub fn gather_rows(&self, indices: &[usize]) -> (m: Self)
        requires
            self.wf(),
            forall|i: int| 0 <= i < indices@.len() ==> #[trigger] indices@[i] < self.rows,
        ensures
            m.wf(),
            m.rows == indices@.len(),
            m.cols == self.cols,
            forall|i: int, c: int|
                0 <= i < m.rows && 0 <= c < m.cols ==> #[trigger] m.entry(i, c) == self.entry(
                    indices@[i] as int,
                    c,
                ),
    {
        let cols = self.cols;
        let len = self.data.len();
        let n = indices.len();
        let mut data: Vec<T> = Vec::new();
        proof {
            lemma_mul_basics(self.cols as int);
            lemma_mul_basics(self.rows as int);
        }
        for i in 0..n
            invariant
                self.wf(),
                cols == self.cols,
                len == self.data@.len(),
                n == indices@.len(),
                forall|k: int| 0 <= k < indices@.len() ==> #[trigger] indices@[k] < self.rows,
                data@.len() == i * cols,
                forall|ii: int, cc: int|
                    0 <= ii < i && 0 <= cc < cols ==> #[trigger] data@[row_major(ii, cc, cols as int)]
                        == self.entry(indices@[ii] as int, cc),
        {
            let idx = indices[i];
            proof {
                lemma_row_bounds(idx as int, self.rows as int, cols as int);
            }
            let base = idx * cols;
            let mut seg = copy_range(&self.data, base, base + cols);
            let ghost before = data@;
            let ghost sg = seg@;
            data.append(&mut seg);
            proof {
                lemma_append_row(before, sg, data@, i as int, cols as int);
                lemma_mul_nonnegative(i as int, cols as int);
            }
        }
        Mat { data, rows: n, cols }
    }

    /// The rows of `self` followed, on the same row, by those of `other`.
    pub fn hcat(&self, other: &Self) -> (m: Self)
        requires
            self.wf(),
            other.wf(),
            self.rows == other.rows,
            self.cols + other.cols <= usize::MAX,
        ensures
            m.wf(),
            m.rows == self.rows,
            m.cols == self.cols + other.cols,
            forall|r: int, c: int|
                0 <= r < m.rows && 0 <= c < m.cols ==> #[trigger] m.entry(r, c) == if c < self.cols {
                    self.entry(r, c)
                } else {
                    other.entry(r, c - self.cols)
                },
    {
        let rows = self.rows;
        let ca = self.cols;
        let cb = other.cols;
        let w = ca + cb;
        proof {
            lemma_mul_basics(w as int);
        }
        let len_a = self.data.len();
        let len_b = other.data.len();
        let mut data: Vec<T> = Vec::new();
        proof {
            lemma_mul_basics(self.cols as int);
            lemma_mul_basics(self.rows as int);
        }
        for r in 0..rows
            invariant
                self.wf(),
                other.wf(),
                rows == self.rows == other.rows,
                ca == self.cols,
                cb == other.cols,
                w == ca + cb,
                len_a == self.data@.len(),
                len_b == other.data@.len(),
                data@.len() == r * w,
                forall|rr: int, cc: int|
                    0 <= rr < r && 0 <= cc < w ==> #[trigger] data@[row_major(rr, cc, w as int)]
                        == if cc < ca {
                        self.entry(rr, cc)
                    } else {
                        other.entry(rr, cc - ca)
                    },
        {
            proof {
                lemma_row_bounds(r as int, rows as int, ca as int);
                lemma_row_bounds(r as int, rows as int, cb as int);
            }
            let mut seg = copy_range(&self.data, r * ca, r * ca + ca);
            let mut seg_b = copy_range(&other.data, r * cb, r * cb + cb);
            seg.append(&mut seg_b);
            let ghost before = data@;
            let ghost sg = seg@;
            data.append(&mut seg);
            proof {
                lemma_append_row(before, sg, data@, r as int, w as int);
                lemma_mul_nonnegative(r as int, w as int);
            }
        }
        Mat { data, rows, cols: w }
    }

    /// Sets every entry above the diagonal of a square matrix to `value`:
    /// the causal mask of attention scores, where position `r` may not look
    /// at a later position `c`.
    pub fn fill_above_diagonal(&mut self, value: T)
        requires
            old(self).wf(),
            old(self).rows == old(self).cols,
        ensures
            final(self).wf(),
            final(self).rows == old(self).rows,
            final(self).cols == old(self).cols,
            forall|r: int, c: int|
                0 <= r < old(self).rows && 0 <= c < old(self).cols ==> #[trigger] final(self).entry(
                    r,
                    c,
                ) == if c > r {
                    value
                } else {
                    old(self).entry(r, c)
                },
    {
        let ghost orig = *self;
        let n = self.rows;
        let mut i: usize = 0;
        while i < n
            invariant
                n == self.rows == self.cols == orig.rows == orig.cols,
                self.wf(),
                i <= n,
                forall|r: int, c: int|
                    0 <= r < n && 0 <= c < n ==> #[trigger] self.entry(r, c) == if r < i && c > r {
                        value
                    } else {
                        orig.entry(r, c)
                    },
            decreases n - i,
        {
            let mut j: usize = i + 1;
            while j < n
                invariant
                    n == self.rows == self.cols == orig.rows == orig.cols,
                    self.wf(),
                    i < n,
                    i + 1 <= j <= n,
                    forall|r: int, c: int|
                        0 <= r < n && 0 <= c < n ==> #[trigger] self.entry(r, c) == if (r < i && c
                            > r) || (r == i && i < c < j) {
                            value
                        } else {
                            orig.entry(r, c)
                        },
                decreases n - j,
            {
                let len = self.data.len();
                proof {
                    lemma_row_major_bounds(i as int, j as int, n as int, n as int);
                }
                let k = i * n + j;
                let ghost before = *self;
                self.data.set(k, value);
                assert forall|r: int, c: int| 0 <= r < n && 0 <= c < n implies #[trigger] self.entry(
                    r,
                    c,
                ) == if (r < i && c > r) || (r == i && i < c < j + 1) {
                    value
                } else {
                    orig.entry(r, c)
                } by {
                    lemma_row_major_bounds(r, c, n as int, n as int);
                    if row_major(r, c, n as int) == k {
                        lemma_row_major_injective(r, c, i as int, j as int, n as int);
                    } else {
                        assert(self.entry(r, c) == before.entry(r, c));
                    }
                }
                j = j + 1;
            }
            i = i + 1;
        }
    }

    /// Replaces columns `start..start + src.cols` of every row by the rows of
    /// `src`.
    pub fn set_cols(&mut self, start: usize, src: &Self)
        requires
            old(self).wf(),
            src.wf(),
            src.rows == old(self).rows,
            start + src.cols <= old(self).cols,
        ensures
            final(self).wf(),
            final(self).rows == old(self).rows,
            final(self).cols == old(self).cols,
            forall|r: int, c: int|
                0 <= r < old(self).rows && 0 <= c < old(self).cols ==> #[trigger] final(self).entry(
                    r,
                    c,
                ) == if start <= c < start + src.cols {
                    src.entry(r, c - start)
                } else {
                    old(self).entry(r, c)
                },
    {
        let rows = self.rows;
        let cols = self.cols;
        let w = src.cols;
        let len = self.data.len();
        let len_src = src.data.len();
        let mut data: Vec<T> = Vec::new();
        proof {
            lemma_mul_basics(self.cols as int);
            lemma_mul_basics(self.rows as int);
        }
        for r in 0..rows
            invariant
                self.wf(),
                src.wf(),
                rows == self.rows == src.rows,
                cols == self.cols,
                w == src.cols,
                start + w <= cols,
                len == self.data@.len(),
                len_src == src.data@.len(),
                data@.len() == r * cols,
                forall|rr: int, cc: int|
                    0 <= rr < r && 0 <= cc < cols ==> #[trigger] data@[row_major(
                        rr,
                        cc,
                        cols as int,
                    )] == if start <= cc < start + w {
                        src.entry(rr, cc - start)
                    } else {
                        self.entry(rr, cc)
                    },
        {
            proof {
                lemma_row_bounds(r as int, rows as int, cols as int);
                lemma_row_bounds(r as int, rows as int, w as int);
            }
            let base = r * cols;
            let mut seg = copy_range(&self.data, base, base + start);
            let mut mid = copy_range(&src.data, r * w, r * w + w);
            let mut tail = copy_range(&self.data, base + start + w, base + cols);
            seg.append(&mut mid);
            seg.append(&mut tail);
            let ghost before = data@;
            let ghost sg = seg@;
            data.append(&mut seg);
            proof {
                lemma_append_row(before, sg, data@, r as int, cols as int);
                lemma_mul_nonnegative(r as int, cols as int);
            }
        }
        self.data = data;
    }

    /// Overwrites rows `offset..offset + src.rows` with the rows of `src`.
    pub fn copy_rows_from(&mut self, offset: usize, src: &Self)
        requires
            old(self).wf(),
            src.wf(),
            src.cols == old(self).cols,
            offset + src.rows <= old(self).rows,
        ensures
            final(self).wf(),
            final(self).rows == old(self).rows,
            final(self).cols == old(self).cols,
            final(self).data@ == old(self).data@.subrange(0, offset * old(self).cols) + src.data@
                + old(self).data@.subrange(
                (offset + src.rows) * old(self).cols,
                old(self).data@.len() as int,
            ),
    {
        let cols = self.cols;
        let len = self.data.len();
        let end = offset + src.rows;
        proof {
            lemma_mul_inequality(offset as int, end as int, cols as int);
            lemma_mul_inequality(end as int, self.rows as int, cols as int);
            lemma_mul_is_distributive_add_other_way(cols as int, offset as int, src.rows as int);
            lemma_mul_is_commutative(src.rows as int, cols as int);
            lemma_mul_nonnegative(offset as int, cols as int);
        }
        let mut data = copy_range(&self.data, 0, offset * cols);
        let mut middle = copy_range(&src.data, 0, src.data.len());
        let mut tail = copy_range(&self.data, end * cols, len);
        data.append(&mut middle);
        data.append(&mut tail);
        assert(src.data@.subrange(0, src.data@.len() as int) =~= src.data@);
        self.data = data;
    }
}

} // verus!
