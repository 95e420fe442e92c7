//! A dense matrix stored row after row, as belief propagation keeps its
//! messages.

use vstd::prelude::*;

verus! {

/// Row `i` lies at `cols * i .. cols * i + cols` of the storage, inside it.
proof fn lemma_row_inside(rows: int, cols: int, i: int)
    by (nonlinear_arith)
    requires
        0 <= i < rows,
        0 <= cols,
    ensures
        0 <= cols * i,
        cols * i + cols <= rows * cols,
{
}

/// Rows `k < i` end where row `i` begins or before.
proof fn lemma_rows_ordered(cols: int, k: int, i: int)
    by (nonlinear_arith)
    requires
        0 <= k < i,
        0 <= cols,
    ensures
        cols * k + cols <= cols * i,
{
}

/// A `rows` by `cols` matrix.
pub struct Matrix<T> {
    rows: usize,
    cols: usize,
    data: Vec<T>,
}

impl<T> View for Matrix<T> {
    type V = Seq<Seq<T>>;

    /// The rows, each a sequence of `cols` entries.
    closed spec fn view(&self) -> Seq<Seq<T>> {
        Seq::new(
            self.rows as nat,
            |i: int| self.data@.subrange(self.cols * i, self.cols * i + self.cols),
        )
    }
}

impl<T> Matrix<T> {
    /// The storage holds exactly `rows * cols` entries.
    pub closed spec fn wf(&self) -> bool {
        &&& self.data@.len() == self.rows * self.cols
        &&& self.rows * self.cols <= usize::MAX
    }

    /// The number of columns.
    pub closed spec fn width(&self) -> nat {
        self.cols as nat
    }

    /// Every row has `width()` entries.
    pub proof fn lemma_rows_have_width(&self)
        requires
            self.wf(),
        ensures
            forall|i: int| 0 <= i < self@.len() ==> #[trigger] self@[i].len() == self.width(),
    {
        assert forall|i: int| 0 <= i < self@.len() implies #[trigger] self@[i].len()
            == self.width() by {
            lemma_row_inside(self.rows as int, self.cols as int, i);
        }
    }

    /// A `rows` by `cols` matrix whose entries are all `value`.
    pub fn filled(rows: usize, cols: usize, value: T) -> (r: Self) where T: Copy
        requires
            rows * cols <= usize::MAX,
        ensures
            r.wf(),
            r@.len() == rows,
            r.width() == cols,
            forall|i: int, j: int| 0 <= i < rows && 0 <= j < cols ==> #[trigger] r@[i][j] == value,
    {
        let n: usize = rows * cols;
        let mut data: Vec<T> = Vec::new();
        let mut k: usize = 0;
        while k < n
            invariant
                k <= n,
                data@.len() == k,
                forall|m: int| 0 <= m < k ==> data@[m] == value,
            decreases n - k,
        {
            data.push(value);
            k = k + 1;
        }
        let r = Matrix { rows, cols, data };
        proof {
            assert forall|i: int, j: int| 0 <= i < rows && 0 <= j < cols implies #[trigger] r@[i][j]
                == value by {
                lemma_row_inside(rows as int, cols as int, i);
            }
        }
        r
    }

    /// The number of rows.
    pub fn rows(&self) -> (r: usize)
        ensures
            r == self@.len(),
    {
        self.rows
    }

    /// The number of columns.
    pub fn cols(&self) -> (r: usize)
        ensures
            r == self.width(),
    {
        self.cols
    }

    /// Row `i`.
    pub fn row(&self, i: usize) -> (r: &[T])
        requires
            self.wf(),
            i < self@.len(),
        ensures
            r@ == self@[i as int],
    {
        proof {
            lemma_row_inside(self.rows as int, self.cols as int, i as int);
        }
        let start: usize = self.cols * i;
        vstd::slice::slice_subrange(self.data.as_slice(), start, start + self.cols)
    }

    /// The entry in row `i`, column `j`.
    pub fn get(&self, i: usize, j: usize) -> (r: &T)
        requires
            self.wf(),
            i < self@.len(),
            j < self.width(),
        ensures
            *r == self@[i as int][j as int],
    {
        proof {
            lemma_row_inside(self.rows as int, self.cols as int, i as int);
        }
        &self.data[self.cols * i + j]
    }

    /// Replace the entry in row `i`, column `j` with `value`.
    pub fn set(&mut self, i: usize, j: usize, value: T)
        requires
            old(self).wf(),
            i < old(self)@.len(),
            j < old(self).width(),
        ensures
            final(self).wf(),
            final(self).width() == old(self).width(),
            final(self)@ == old(self)@.update(i as int, old(self)@[i as int].update(j as int, value)),
    {
        proof {
            lemma_row_inside(self.rows as int, self.cols as int, i as int);
        }
        let ghost before = self@;
        let pos: usize = self.cols * i + j;
        self.data.set(pos, value);
        proof {
            let target = before.update(i as int, before[i as int].update(j as int, value));
            assert forall|k: int| 0 <= k < self.rows implies #[trigger] self@[k] == target[k] by {
                lemma_row_inside(self.rows as int, self.cols as int, k);
                if k < i {
                    lemma_rows_ordered(self.cols as int, k, i as int);
                    assert(self@[k] =~= before[k]);
                } else if k > i {
                    lemma_rows_ordered(self.cols as int, i as int, k);
                    assert(self@[k] =~= before[k]);
                } else {
                    assert(self@[k] =~= target[k]);
                }
            }
            assert(self@ =~= target);
        }
    }

    /// Replace row `i` with `values`.
    pub fn set_row(&mut self, i: usize, values: &[T]) where T: Copy
        requires
            old(self).wf(),
            i < old(self)@.len(),
            values@.len() == old(self).width(),
        ensures
            final(self).wf(),
            final(self).width() == old(self).width(),
            final(self)@ == old(self)@.update(i as int, values@),
    {
        proof {
            self.lemma_rows_have_width();
        }
        let ghost before = self@;
        proof {
            assert(values@.subrange(0, 0) + before[i as int].subrange(0, values@.len() as int)
                =~= before[i as int]);
            assert(before.update(i as int, before[i as int]) =~= before);
        }
        let mut j: usize = 0;
        while j < values.len()
            invariant
                self.wf(),
                self.width() == old(self).width(),
                i < self@.len(),
                j <= values@.len(),
                values@.len() == self.width(),
                before == old(self)@,
                i < before.len(),
                before[i as int].len() == values@.len(),
                self@ == before.update(
                    i as int,
                    values@.subrange(0, j as int) + before[i as int].subrange(
                        j as int,
                        values@.len() as int,
                    ),
                ),
            decreases values@.len() - j,
        {
            let ghost mid = self@;
            self.set(i, j, values[j]);
            proof {
                assert(values@.subrange(0, j + 1) + before[i as int].subrange(
                    j + 1,
                    values@.len() as int,
                ) =~= (values@.subrange(0, j as int) + before[i as int].subrange(
                    j as int,
                    values@.len() as int,
                )).update(j as int, values@[j as int]));
                assert(self@ =~= before.update(
                    i as int,
                    values@.subrange(0, j + 1) + before[i as int].subrange(
                        j + 1,
                        values@.len() as int,
                    ),
                ));
            }
            j = j + 1;
        }
        proof {
            assert(values@.subrange(0, j as int) + before[i as int].subrange(
                j as int,
                values@.len() as int,
            ) =~= values@);
        }
    }
}

} // verus!
