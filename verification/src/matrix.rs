//! The dense two-dimensional integer buffer at the core of the engine.
//!
//! A `Matrix` stores its entries row-major in a flat buffer, together with a
//! `transposed` flag.  Transposition only toggles the flag; every accessor
//! derives its stride from the physical layout and the flag, so a transposed
//! matrix reads correctly in every operation, square or not.

use vstd::prelude::*;

use crate::algebra::col_of;
use crate::algebra::dot_entry;
use crate::algebra::dot_fits;
use crate::algebra::dot_prefix;
use crate::algebra::dot_res;
use crate::algebra::flat_idx;
use crate::algebra::grid_const;
use crate::algebra::grid_dot;
use crate::algebra::in_i128;
use crate::algebra::lemma_i64_prod_in_i128;
use crate::algebra::bc_entry;
use crate::algebra::bc_fits;
use crate::algebra::bc_grid;
use crate::algebra::bc_is_scalar;
use crate::algebra::bc_res;
use crate::algebra::op_apply;
use crate::algebra::lemma_recip_pow;
use crate::algebra::pow_int;
use crate::algebra::powi_entry;
use crate::algebra::powi_grid;
use crate::algebra::powi_ok;
use crate::algebra::powi_res;
use crate::algebra::EntryOp;
use crate::algebra::grid_eye;
use crate::algebra::grid_of;
use crate::algebra::grid_t;
use crate::algebra::in_i64;
use crate::algebra::is_grid;
use crate::NetError;

verus! {

/// A dense matrix of 64-bit integer entries.
///
/// `physical_rows` and `physical_cols` are the shape fixed at construction;
/// `data` holds exactly `physical_rows * physical_cols` entries in row-major
/// order; `transposed` swaps the reported shape without touching the buffer.
#[derive(Debug)]
pub struct Matrix {
    pub physical_rows: usize,
    pub physical_cols: usize,
    pub data: Vec<i64>,
    pub transposed: bool,
}

impl Matrix {
    /// The structural invariant: the buffer length matches the physical shape.
    pub open spec fn wf(&self) -> bool {
        &&& self.data@.len() == self.physical_rows * self.physical_cols
        &&& self.physical_rows * self.physical_cols <= usize::MAX
    }

    /// The reported (logical) row count.
    pub open spec fn spec_rows(&self) -> int {
        if self.transposed {
            self.physical_cols as int
        } else {
            self.physical_rows as int
        }
    }

    /// The reported (logical) column count.
    pub open spec fn spec_cols(&self) -> int {
        if self.transposed {
            self.physical_rows as int
        } else {
            self.physical_cols as int
        }
    }

    /// Entry at logical position `(i, j)`, read stride-aware out of the
    /// physical buffer.
    pub open spec fn entry(&self, i: int, j: int) -> int {
        if self.transposed {
            self.data@[j * self.physical_cols + i] as int
        } else {
            self.data@[i * self.physical_cols + j] as int
        }
    }
}

impl View for Matrix {
    type V = Seq<Seq<int>>;

    /// The logical grid this matrix denotes.
    open spec fn view(&self) -> Seq<Seq<int>> {
        Seq::new(
            self.spec_rows() as nat,
            |i: int| Seq::new(self.spec_cols() as nat, |j: int| self.entry(i, j)),
        )
    }
}

/// Row-major position `(i, j)` lies inside an `r` by `c` buffer.
pub proof fn lemma_index_bound(i: int, j: int, r: int, c: int)
    requires
        0 <= i < r,
        0 <= j < c,
    ensures
        0 <= i * c + j < r * c,
{
    assert(0 <= i * c + j < r * c) by (nonlinear_arith)
        requires
            0 <= i < r,
            0 <= j < c,
    ;
}

impl Matrix {
    /// A well-formed matrix denotes a grid of its logical shape, with every
    /// entry in the 64-bit range.
    pub proof fn lemma_view_grid(&self)
        requires
            self.wf(),
        ensures
            is_grid(self@, self.spec_rows(), self.spec_cols()),
            forall|i: int, j: int|
                0 <= i < self.spec_rows() && 0 <= j < self.spec_cols() ==> #[trigger] self@[i][j]
                    == self.entry(i, j) && in_i64(self@[i][j]),
    {
    }

    pub fn rows(&self) -> (r: usize)
        ensures
            r as int == self.spec_rows(),
    {
        if self.transposed {
            self.physical_cols
        } else {
            self.physical_rows
        }
    }

    pub fn cols(&self) -> (r: usize)
        ensures
            r as int == self.spec_cols(),
    {
        if self.transposed {
            self.physical_rows
        } else {
            self.physical_cols
        }
    }

    /// Entry at logical position `(i, j)`.
    pub fn get(&self, i: usize, j: usize) -> (r: i64)
        requires
            self.wf(),
            i < self.spec_rows(),
            j < self.spec_cols(),
        ensures
            r as int == self.entry(i as int, j as int),
            r as int == self@[i as int][j as int],
    {
        if self.transposed {
            proof {
                lemma_index_bound(
                    j as int,
                    i as int,
                    self.physical_rows as int,
                    self.physical_cols as int,
                );
            }
            self.data[j * self.physical_cols + i]
        } else {
            proof {
                lemma_index_bound(
                    i as int,
                    j as int,
                    self.physical_rows as int,
                    self.physical_cols as int,
                );
            }
            self.data[i * self.physical_cols + j]
        }
    }

    /// Builds a matrix of the given shape over the given row-major buffer.
    /// Succeeds exactly when the buffer length matches the shape.
    pub fn new(rows: usize, cols: usize, data: Vec<i64>) -> (r: Result<Matrix, NetError>)
        ensures
            match r {
                Ok(m) => {
                    &&& rows * cols == data@.len()
                    &&& m.wf()
                    &&& !m.transposed
                    &&& m.spec_rows() == rows
                    &&& m.spec_cols() == cols
                    &&& m.data == data
                    &&& m@ == grid_of(data@, rows as int, cols as int)
                },
                Err(e) => e == NetError::DimensionMismatch && rows * cols != data@.len(),
            },
    {
        let buffer_len: usize = data.len();
        let prod = rows.checked_mul(cols);
        match prod {
            Some(n) => {
                if n == buffer_len {
                    let m = Matrix {
                        physical_rows: rows,
                        physical_cols: cols,
                        data,
                        transposed: false,
                    };
                    proof {
                        assert(m@ =~~= grid_of(m.data@, rows as int, cols as int));
                    }
                    Ok(m)
                } else {
                    Err(NetError::DimensionMismatch)
                }
            },
            None => Err(NetError::DimensionMismatch),
        }
    }

    /// The `rows` by `cols` matrix with every entry equal to `repeat_value`.
    pub fn repeat(rows: usize, cols: usize, repeat_value: i64) -> (m: Matrix)
        requires
            rows * cols <= usize::MAX,
        ensures
            m.wf(),
            !m.transposed,
            m.spec_rows() == rows,
            m.spec_cols() == cols,
            m@ == grid_const(rows as int, cols as int, repeat_value as int),
    {
        let n: usize = rows * cols;
        let mut data: Vec<i64> = Vec::new();
        let mut k: usize = 0;
        while k < n
            invariant
                k <= n,
                data@.len() == k,
                forall|t: int| 0 <= t < k ==> data@[t] == repeat_value,
            decreases n - k,
        {
            data.push(repeat_value);
            k = k + 1;
        }
        let m = Matrix { physical_rows: rows, physical_cols: cols, data, transposed: false };
        proof {
            assert forall|a: int, b: int| 0 <= a < rows && 0 <= b < cols implies m.entry(a, b)
                == repeat_value as int by {
                lemma_index_bound(a, b, rows as int, cols as int);
            }
            assert(m@ =~~= grid_const(rows as int, cols as int, repeat_value as int));
        }
        m
    }

    /// The `size` by `size` identity matrix.
    pub fn eye(size: usize) -> (m: Matrix)
        requires
            size * size <= usize::MAX,
        ensures
            m.wf(),
            !m.transposed,
            m.spec_rows() == size,
            m.spec_cols() == size,
            m@ == grid_eye(size as int),
    {
        let mut data: Vec<i64> = Vec::new();
        let mut i: usize = 0;
        while i < size
            invariant
                i <= size,
                size * size <= usize::MAX,
                data@.len() == i * size,
                forall|a: int, b: int|
                    0 <= a < i && 0 <= b < size ==> data@[#[trigger] flat_idx(a, size as int, b)]
                        == (if a == b {
                        1i64
                    } else {
                        0i64
                    }),
            decreases size - i,
        {
            proof {
                assert(i * size + size <= size * size) by (nonlinear_arith)
                    requires
                        i < size,
                ;
            }
            let mut j: usize = 0;
            while j < size
                invariant
                    i < size,
                    j <= size,
                    i * size + size <= size * size <= usize::MAX,
                    data@.len() == i * size + j,
                    forall|a: int, b: int|
                        0 <= a < i && 0 <= b < size ==> data@[#[trigger] flat_idx(a, size as int, b)]
                            == (if a == b {
                            1i64
                        } else {
                            0i64
                        }),
                    forall|b: int|
                        0 <= b < j ==> data@[#[trigger] flat_idx(i as int, size as int, b)] == (if i
                            == b {
                        1i64
                    } else {
                        0i64
                    }),
                decreases size - j,
            {
                let ghost pre = data@;
                if i == j {
                    data.push(1);
                } else {
                    data.push(0);
                }
                proof {
                    assert forall|a: int, b: int| 0 <= a < i && 0 <= b < size implies data@[
                        #[trigger] flat_idx(a, size as int, b)
                    ] == (if a == b {
                        1i64
                    } else {
                        0i64
                    }) by {
                        lemma_index_bound(a, b, i as int, size as int);
                        assert(pre[flat_idx(a, size as int, b)] == (if a == b {
                            1i64
                        } else {
                            0i64
                        }));
                    }
                    assert forall|b: int| 0 <= b < j + 1 implies data@[
                        #[trigger] flat_idx(i as int, size as int, b)
                    ] == (if i == b {
                        1i64
                    } else {
                        0i64
                    }) by {
                        if b < j {
                            assert(pre[flat_idx(i as int, size as int, b)] == (if i == b {
                                1i64
                            } else {
                                0i64
                            }));
                        }
                    }
                }
                j = j + 1;
            }
            proof {
                assert((i + 1) * size == i * size + size) by (nonlinear_arith);
            }
            i = i + 1;
        }
        let m = Matrix { physical_rows: size, physical_cols: size, data, transposed: false };
        proof {
            assert((i * size) == (size * size)) by (nonlinear_arith)
                requires
                    i == size,
            ;
            assert forall|a: int, b: int| 0 <= a < size && 0 <= b < size implies #[trigger] m.entry(
                a,
                b,
            ) == (if a == b {
                1int
            } else {
                0int
            }) by {
                lemma_index_bound(a, b, size as int, size as int);
                assert(data@[flat_idx(a, size as int, b)] == (if a == b {
                    1i64
                } else {
                    0i64
                }));
            }
            assert(m@ =~~= grid_eye(size as int));
        }
        m
    }

    /// Toggles the transpose flag: the reported shape swaps, the buffer is
    /// untouched, and the denoted grid is the transpose of the old one.
    pub fn transpose(&mut self)
        ensures
            final(self).physical_rows == old(self).physical_rows,
            final(self).physical_cols == old(self).physical_cols,
            final(self).data == old(self).data,
            final(self).transposed == !old(self).transposed,
            final(self).spec_rows() == old(self).spec_cols(),
            final(self).spec_cols() == old(self).spec_rows(),
            final(self).wf() == old(self).wf(),
            old(self).wf() ==> final(self)@ == grid_t(
                old(self)@,
                old(self).spec_rows(),
                old(self).spec_cols(),
            ),
    {
        self.transposed = !self.transposed;
        proof {
            if old(self).wf() {
                assert(self@ =~~= grid_t(old(self)@, old(self).spec_rows(), old(self).spec_cols()));
            }
        }
    }

    /// Relies on rand::Rng::random_range: the sample lies within the given
    /// range (here -1..2, so the result is -1, 0 or 1).
    #[verifier::external_body]
    fn sample_unit() -> (r: i64)
        ensures
            -1 <= r <= 1,
    {
        let mut rng = rand::rng();
        rand::Rng::random_range(&mut rng, -1i64..2i64)
    }

    /// The `rows` by `cols` matrix with every entry drawn independently and
    /// uniformly from the unit range of the entry type, the integer
    /// counterpart of a uniform draw from [-1, 1).
    #[verifier::loop_isolation(false)]
    pub fn uniform(rows: usize, cols: usize) -> (m: Matrix)
        requires
            rows * cols <= usize::MAX,
        ensures
            m.wf(),
            !m.transposed,
            m.spec_rows() == rows,
            m.spec_cols() == cols,
            forall|i: int, j: int|
                0 <= i < rows && 0 <= j < cols ==> -1 <= #[trigger] m@[i][j] <= 1,
    {
        let n: usize = rows * cols;
        let mut data: Vec<i64> = Vec::new();
        let mut k: usize = 0;
        while k < n
            invariant
                k <= n,
                data@.len() == k,
                forall|t: int| 0 <= t < k ==> -1 <= #[trigger] data@[t] <= 1,
            decreases n - k,
        {
            data.push(Self::sample_unit());
            k = k + 1;
        }
        let m = Matrix { physical_rows: rows, physical_cols: cols, data, transposed: false };
        proof {
            assert forall|i: int, j: int| 0 <= i < rows && 0 <= j < cols implies -1 <= #[trigger] m@[
                i
            ][j] <= 1 by {
                lemma_index_bound(i, j, rows as int, cols as int);
            }
        }
        m
    }

    /// A copy of this matrix with the transpose flag flipped: same buffer
    /// contents, swapped reported shape, transposed denotation.
    #[verifier::loop_isolation(false)]
    pub fn transposed_dup(&self) -> (r: Matrix)
        requires
            self.wf(),
        ensures
            r.wf(),
            r.spec_rows() == self.spec_cols(),
            r.spec_cols() == self.spec_rows(),
            r@ == grid_t(self@, self.spec_rows(), self.spec_cols()),
    {
        let len: usize = self.data.len();
        let mut data: Vec<i64> = Vec::new();
        let mut k: usize = 0;
        while k < len
            invariant
                k <= len,
                data@.len() == k,
                forall|t: int| 0 <= t < k ==> data@[t] == self.data@[t],
            decreases len - k,
        {
            data.push(self.data[k]);
            k = k + 1;
        }
        let r = Matrix {
            physical_rows: self.physical_rows,
            physical_cols: self.physical_cols,
            data,
            transposed: !self.transposed,
        };
        proof {
            assert(r.data@ =~= self.data@);
            assert(r@ =~~= grid_t(self@, self.spec_rows(), self.spec_cols()));
        }
        r
    }

    /// The elementwise power: each entry raised to `exp`.  A negative
    /// exponent gives the truncated reciprocal of the positive power, which
    /// fails with `Overflow` on a zero entry; a non-negative exponent fails
    /// with `Overflow` when an intermediate power leaves the entry type.
    #[verifier::loop_isolation(false)]
    pub fn powi(&self, exp: i32) -> (r: Result<Matrix, NetError>)
        requires
            self.wf(),
        ensures
            ({
                let pr = powi_res(self@, self.spec_cols(), exp as int);
                match r {
                    Ok(m) => {
                        &&& pr == Ok::<Seq<Seq<int>>, NetError>(m@)
                        &&& m.wf()
                        &&& !m.transposed
                        &&& m.spec_rows() == self.spec_rows()
                        &&& m.spec_cols() == self.spec_cols()
                    },
                    Err(e) => pr == Err::<Seq<Seq<int>>, NetError>(e),
                }
            }),
    {
        let rows: usize = self.rows();
        let cols: usize = self.cols();
        let ghost mg = self@;
        proof {
            self.lemma_view_grid();
        }
        let mut data: Vec<i64> = Vec::new();
        let mut i: usize = 0;
        while i < rows
            invariant
                i <= rows,
                data@.len() == i * cols,
                forall|p: int, q: int|
                    0 <= p < i && 0 <= q < cols ==> data@[#[trigger] flat_idx(p, cols as int, q)]
                        as int == powi_entry(mg[p][q], exp as int) && powi_ok(mg[p][q], exp as int),
            decreases rows - i,
        {
            let mut j: usize = 0;
            while j < cols
                invariant
                    i < rows,
                    j <= cols,
                    data@.len() == i * cols + j,
                    forall|p: int, q: int|
                        0 <= p < i && 0 <= q < cols ==> data@[#[trigger] flat_idx(
                            p,
                            cols as int,
                            q,
                        )] as int == powi_entry(mg[p][q], exp as int) && powi_ok(
                            mg[p][q],
                            exp as int,
                        ),
                    forall|q: int|
                        0 <= q < j ==> data@[#[trigger] flat_idx(i as int, cols as int, q)] as int
                            == powi_entry(mg[i as int][q], exp as int) && powi_ok(
                            mg[i as int][q],
                            exp as int,
                        ),
                decreases cols - j,
            {
                let x = self.get(i, j);
                let v: i64;
                if exp >= 0 {
                    let e: u32 = exp as u32;
                    let mut acc: i64 = 1;
                    let mut k: u32 = 0;
                    while k < e
                        invariant
                            k <= e,
                            acc as int == pow_int(x as int, k as int),
                            forall|u: int|
                                0 <= u <= k ==> in_i64(#[trigger] pow_int(x as int, u)),
                        decreases e - k,
                    {
                        match acc.checked_mul(x) {
                            Some(v2) => {
                                acc = v2;
                            },
                            None => {
                                proof {
                                    assert(pow_int(x as int, k + 1) == pow_int(x as int, k as int)
                                        * (x as int));
                                    assert((acc as int) * (x as int) == (x as int) * (acc as int))
                                        by (nonlinear_arith);
                                    assert(!in_i64(pow_int(x as int, k + 1)));
                                    assert(!powi_ok(mg[i as int][j as int], exp as int));
                                }
                                return Err(NetError::Overflow);
                            },
                        }
                        proof {
                            assert(pow_int(x as int, k + 1) == (x as int) * pow_int(
                                x as int,
                                k as int,
                            ));
                            assert((x as int) * pow_int(x as int, k as int) == pow_int(
                                x as int,
                                k as int,
                            ) * (x as int)) by (nonlinear_arith);
                        }
                        k = k + 1;
                    }
                    v = acc;
                    proof {
                        assert(powi_ok(mg[i as int][j as int], exp as int));
                    }
                } else {
                    let n64: i64 = -(exp as i64);
                    proof {
                        lemma_recip_pow(x as int, n64 as int);
                    }
                    if x == 0 {
                        proof {
                            assert(!powi_ok(mg[i as int][j as int], exp as int));
                        }
                        return Err(NetError::Overflow);
                    } else if x == 1 {
                        v = 1;
                    } else if x == -1 {
                        v = if n64 % 2 == 0 {
                            1
                        } else {
                            -1
                        };
                    } else {
                        v = 0;
                    }
                    proof {
                        assert(powi_ok(mg[i as int][j as int], exp as int));
                        assert(v as int == powi_entry(mg[i as int][j as int], exp as int));
                    }
                }
                let ghost pre = data@;
                data.push(v);
                proof {
                    assert forall|p: int, q: int| 0 <= p < i && 0 <= q < cols implies data@[
                        #[trigger] flat_idx(p, cols as int, q)
                    ] as int == powi_entry(mg[p][q], exp as int) && powi_ok(
                        mg[p][q],
                        exp as int,
                    ) by {
                        lemma_index_bound(p, q, i as int, cols as int);
                        assert(pre[flat_idx(p, cols as int, q)] == data@[flat_idx(
                            p,
                            cols as int,
                            q,
                        )]);
                    }
                    assert forall|q: int| 0 <= q < j + 1 implies data@[#[trigger] flat_idx(
                        i as int,
                        cols as int,
                        q,
                    )] as int == powi_entry(mg[i as int][q], exp as int) && powi_ok(
                        mg[i as int][q],
                        exp as int,
                    ) by {
                        if q < j {
                            assert(pre[flat_idx(i as int, cols as int, q)] == data@[flat_idx(
                                i as int,
                                cols as int,
                                q,
                            )]);
                        }
                    }
                }
                j = j + 1;
            }
            proof {
                assert((i + 1) * cols == i * cols + cols) by (nonlinear_arith);
            }
            i = i + 1;
        }
        let final_len: usize = data.len();
        let m = Matrix { physical_rows: rows, physical_cols: cols, data, transposed: false };
        proof {
            assert(final_len == rows * cols);
            assert forall|p: int, q: int| 0 <= p < rows && 0 <= q < cols implies m.entry(p, q)
                == powi_entry(mg[p][q], exp as int) && powi_ok(#[trigger] mg[p][q], exp as int) by {
                lemma_index_bound(p, q, rows as int, cols as int);
                assert(m.data@[flat_idx(p, cols as int, q)] as int == powi_entry(
                    mg[p][q],
                    exp as int,
                ));
            }
            assert(m@ =~~= powi_grid(mg, self.spec_cols(), exp as int));
        }
        Ok(m)
    }

    /// The matrix product `self · other`, accumulated exactly entry by entry
    /// in 128-bit arithmetic.  Fails with `DimensionMismatch` when the shared
    /// dimension disagrees, and with `Overflow` when a partial sum leaves the
    /// 128-bit range or a finished entry leaves the 64-bit entry type.
    #[verifier::loop_isolation(false)]
    pub fn dot(&self, other: &Matrix) -> (r: Result<Matrix, NetError>)
        requires
            self.wf(),
            other.wf(),
        ensures
            ({
                let sr = dot_res(self@, self.spec_cols(), other@, other.spec_cols());
                match r {
                    Ok(m) => {
                        &&& sr == Ok::<Seq<Seq<int>>, NetError>(m@)
                        &&& m.wf()
                        &&& !m.transposed
                        &&& m.spec_rows() == self.spec_rows()
                        &&& m.spec_cols() == other.spec_cols()
                    },
                    Err(e) => sr == Err::<Seq<Seq<int>>, NetError>(e),
                }
            }),
    {
        let a_rows: usize = self.rows();
        let shared: usize = self.cols();
        let b_cols: usize = other.cols();
        if shared != other.rows() {
            return Err(NetError::DimensionMismatch);
        }
        let ghost ag = self@;
        let ghost bg = other@;
        proof {
            self.lemma_view_grid();
            other.lemma_view_grid();
        }
        let mut data: Vec<i64> = Vec::new();
        let mut i: usize = 0;
        while i < a_rows
            invariant
                i <= a_rows,
                data@.len() == i * b_cols,
                forall|p: int, q: int|
                    0 <= p < i && 0 <= q < b_cols ==> data@[#[trigger] flat_idx(
                        p,
                        b_cols as int,
                        q,
                    )] as int == dot_entry(ag, bg, p, q),
                forall|p: int, q: int, t: int|
                    0 <= p < i && 0 <= q < b_cols && 0 <= t <= shared ==> in_i128(
                        #[trigger] dot_prefix(ag[p], col_of(bg, q), t),
                    ),
            decreases a_rows - i,
        {
            let mut j: usize = 0;
            while j < b_cols
                invariant
                    i < a_rows,
                    j <= b_cols,
                    data@.len() == i * b_cols + j,
                    forall|p: int, q: int|
                        0 <= p < i && 0 <= q < b_cols ==> data@[#[trigger] flat_idx(
                            p,
                            b_cols as int,
                            q,
                        )] as int == dot_entry(ag, bg, p, q),
                    forall|q: int|
                        0 <= q < j ==> data@[#[trigger] flat_idx(i as int, b_cols as int, q)] as int
                            == dot_entry(ag, bg, i as int, q),
                    forall|p: int, q: int, t: int|
                        0 <= p < i && 0 <= q < b_cols && 0 <= t <= shared ==> in_i128(
                            #[trigger] dot_prefix(ag[p], col_of(bg, q), t),
                        ),
                    forall|q: int, t: int|
                        0 <= q < j && 0 <= t <= shared ==> in_i128(
                            #[trigger] dot_prefix(ag[i as int], col_of(bg, q), t),
                        ),
                decreases b_cols - j,
            {
                let ghost row = ag[i as int];
                let ghost col = col_of(bg, j as int);
                let mut acc: i128 = 0;
                let mut t: usize = 0;
                while t < shared
                    invariant
                        t <= shared,
                        i < a_rows,
                        j < b_cols,
                        acc as int == dot_prefix(row, col, t as int),
                        forall|u: int| 0 <= u <= t ==> in_i128(#[trigger] dot_prefix(row, col, u)),
                    decreases shared - t,
                {
                    let x = self.get(i, t);
                    let y = other.get(t, j);
                    proof {
                        lemma_i64_prod_in_i128(x as int, y as int);
                        assert(row[t as int] == x as int);
                        assert(col[t as int] == y as int);
                    }
                    let p: i128 = (x as i128) * (y as i128);
                    match acc.checked_add(p) {
                        Some(v) => {
                            acc = v;
                        },
                        None => {
                            proof {
                                assert(dot_prefix(row, col, t + 1) == acc + p);
                                assert(!in_i128(dot_prefix(row, col, t + 1)));
                                assert(!dot_fits(ag, bg, b_cols as int));
                            }
                            return Err(NetError::Overflow);
                        },
                    }
                    t = t + 1;
                }
                proof {
                    assert(row.len() == shared);
                    assert(acc as int == dot_entry(ag, bg, i as int, j as int));
                }
                if acc > (i64::MAX as i128) || acc < (i64::MIN as i128) {
                    proof {
                        assert(!crate::algebra::in_i64(dot_entry(ag, bg, i as int, j as int)));
                        assert(!dot_fits(ag, bg, b_cols as int));
                    }
                    return Err(NetError::Overflow);
                }
                let ghost pre = data@;
                data.push(acc as i64);
                proof {
                    assert forall|p: int, q: int| 0 <= p < i && 0 <= q < b_cols implies data@[
                        #[trigger] flat_idx(p, b_cols as int, q)
                    ] as int == dot_entry(ag, bg, p, q) by {
                        lemma_index_bound(p, q, i as int, b_cols as int);
                        assert(pre[flat_idx(p, b_cols as int, q)] as int == dot_entry(ag, bg, p, q));
                    }
                    assert forall|q: int| 0 <= q < j + 1 implies data@[
                        #[trigger] flat_idx(i as int, b_cols as int, q)
                    ] as int == dot_entry(ag, bg, i as int, q) by {
                        if q < j {
                            assert(pre[flat_idx(i as int, b_cols as int, q)] as int == dot_entry(
                                ag,
                                bg,
                                i as int,
                                q,
                            ));
                        }
                    }
                }
                j = j + 1;
            }
            proof {
                assert((i + 1) * b_cols == i * b_cols + b_cols) by (nonlinear_arith);
            }
            i = i + 1;
        }
        let final_len: usize = data.len();
        let m = Matrix {
            physical_rows: a_rows,
            physical_cols: b_cols,
            data,
            transposed: false,
        };
        proof {
            assert forall|p: int, q: int| 0 <= p < a_rows && 0 <= q < b_cols implies m.entry(p, q)
                == dot_entry(ag, bg, p, q) && crate::algebra::in_i64(dot_entry(ag, bg, p, q)) by {
                lemma_index_bound(p, q, a_rows as int, b_cols as int);
                assert(m.data@[flat_idx(p, b_cols as int, q)] as int == dot_entry(ag, bg, p, q));
            }
            assert forall|p: int, q: int, t: int|
                0 <= p < ag.len() && 0 <= q < b_cols && 0 <= t <= ag[p].len() implies in_i128(
                #[trigger] dot_prefix(ag[p], col_of(bg, q), t),
            ) by {
                assert(ag[p].len() == shared);
            }
            assert forall|p: int, q: int|
                0 <= p < ag.len() && 0 <= q < b_cols implies crate::algebra::in_i64(
                #[trigger] dot_entry(ag, bg, p, q),
            ) by {
                lemma_index_bound(p, q, a_rows as int, b_cols as int);
                assert(m.data@[flat_idx(p, b_cols as int, q)] as int == dot_entry(ag, bg, p, q));
            }
            assert(dot_fits(ag, bg, b_cols as int));
            assert(m@ =~~= grid_dot(ag, bg, b_cols as int));
        }
        Ok(m)
    }

    /// The broadcast elementwise combination behind `mul`, `add` and `sub`:
    /// a one-element right operand combines as a scalar; otherwise the column
    /// counts must agree and the right operand either matches the row count
    /// or consists of a single row, combined against every row.
    #[verifier::loop_isolation(false)]
    fn broadcast_op(&self, other: &Matrix, op: EntryOp) -> (r: Result<Matrix, NetError>)
        requires
            self.wf(),
            other.wf(),
        ensures
            ({
                let sr = bc_res(op, self@, self.spec_cols(), other@, other.spec_cols());
                match r {
                    Ok(m) => {
                        &&& sr == Ok::<Seq<Seq<int>>, NetError>(m@)
                        &&& m.wf()
                        &&& !m.transposed
                        &&& m.spec_rows() == self.spec_rows()
                        &&& m.spec_cols() == self.spec_cols()
                    },
                    Err(e) => sr == Err::<Seq<Seq<int>>, NetError>(e),
                }
            }),
    {
        let a_rows: usize = self.rows();
        let a_cols: usize = self.cols();
        let b_rows: usize = other.rows();
        let b_cols: usize = other.cols();
        let ghost ag = self@;
        let ghost bg = other@;
        proof {
            self.lemma_view_grid();
            other.lemma_view_grid();
        }
        let scalar: bool = other.data.len() == 1;
        proof {
            assert(b_rows * b_cols == other.physical_rows * other.physical_cols) by (nonlinear_arith)
                requires
                    (b_rows == other.physical_rows && b_cols == other.physical_cols) || (b_rows
                        == other.physical_cols && b_cols == other.physical_rows),
            ;
            if scalar {
                assert(b_rows == 1 && b_cols == 1) by (nonlinear_arith)
                    requires
                        b_rows * b_cols == 1,
                ;
            } else {
                assert(!(b_rows == 1 && b_cols == 1)) by (nonlinear_arith)
                    requires
                        b_rows * b_cols != 1,
                ;
            }
            assert(scalar == bc_is_scalar(bg, other.spec_cols()));
        }
        if !scalar {
            if a_cols != b_cols {
                return Err(NetError::DimensionMismatch);
            }
            if a_rows != b_rows && b_rows != 1 {
                return Err(NetError::DimensionMismatch);
            }
        }
        let mut data: Vec<i64> = Vec::new();
        let mut i: usize = 0;
        while i < a_rows
            invariant
                i <= a_rows,
                data@.len() == i * a_cols,
                forall|p: int, q: int|
                    0 <= p < i && 0 <= q < a_cols ==> data@[#[trigger] flat_idx(
                        p,
                        a_cols as int,
                        q,
                    )] as int == bc_entry(op, ag, bg, b_cols as int, p, q),
            decreases a_rows - i,
        {
            let mut j: usize = 0;
            while j < a_cols
                invariant
                    i < a_rows,
                    j <= a_cols,
                    data@.len() == i * a_cols + j,
                    forall|p: int, q: int|
                        0 <= p < i && 0 <= q < a_cols ==> data@[#[trigger] flat_idx(
                            p,
                            a_cols as int,
                            q,
                        )] as int == bc_entry(op, ag, bg, b_cols as int, p, q),
                    forall|q: int|
                        0 <= q < j ==> data@[#[trigger] flat_idx(i as int, a_cols as int, q)] as int
                            == bc_entry(op, ag, bg, b_cols as int, i as int, q),
                decreases a_cols - j,
            {
                let x = self.get(i, j);
                let y = if scalar {
                    other.get(0, 0)
                } else if a_rows == b_rows {
                    other.get(i, j)
                } else {
                    other.get(0, j)
                };
                proof {
                    lemma_i64_prod_in_i128(x as int, y as int);
                    assert(bc_entry(op, ag, bg, b_cols as int, i as int, j as int) == op_apply(
                        op,
                        x as int,
                        y as int,
                    ));
                }
                let v: i128 = match op {
                    EntryOp::Add => x as i128 + y as i128,
                    EntryOp::Sub => x as i128 - y as i128,
                    EntryOp::Mul => (x as i128) * (y as i128),
                };
                if v > (i64::MAX as i128) || v < (i64::MIN as i128) {
                    proof {
                        assert(!crate::algebra::in_i64(
                            bc_entry(op, ag, bg, b_cols as int, i as int, j as int),
                        ));
                        assert(!bc_fits(op, ag, a_cols as int, bg, b_cols as int));
                    }
                    return Err(NetError::Overflow);
                }
                let ghost pre = data@;
                data.push(v as i64);
                proof {
                    assert forall|p: int, q: int| 0 <= p < i && 0 <= q < a_cols implies data@[
                        #[trigger] flat_idx(p, a_cols as int, q)
                    ] as int == bc_entry(op, ag, bg, b_cols as int, p, q) by {
                        lemma_index_bound(p, q, i as int, a_cols as int);
                        assert(pre[flat_idx(p, a_cols as int, q)] as int == bc_entry(
                            op,
                            ag,
                            bg,
                            b_cols as int,
                            p,
                            q,
                        ));
                    }
                    assert forall|q: int| 0 <= q < j + 1 implies data@[
                        #[trigger] flat_idx(i as int, a_cols as int, q)
                    ] as int == bc_entry(op, ag, bg, b_cols as int, i as int, q) by {
                        if q < j {
                            assert(pre[flat_idx(i as int, a_cols as int, q)] as int == bc_entry(
                                op,
                                ag,
                                bg,
                                b_cols as int,
                                i as int,
                                q,
                            ));
                        }
                    }
                }
                j = j + 1;
            }
            proof {
                assert((i + 1) * a_cols == i * a_cols + a_cols) by (nonlinear_arith);
            }
            i = i + 1;
        }
        let final_len: usize = data.len();
        let m = Matrix {
            physical_rows: a_rows,
            physical_cols: a_cols,
            data,
            transposed: false,
        };
        proof {
            assert(final_len == a_rows * a_cols);
        }
        proof {
            assert forall|p: int, q: int| 0 <= p < a_rows && 0 <= q < a_cols implies m.entry(p, q)
                == bc_entry(op, ag, bg, b_cols as int, p, q) by {
                lemma_index_bound(p, q, a_rows as int, a_cols as int);
                assert(m.data@[flat_idx(p, a_cols as int, q)] as int == bc_entry(
                    op,
                    ag,
                    bg,
                    b_cols as int,
                    p,
                    q,
                ));
            }
            assert forall|p: int, q: int|
                0 <= p < ag.len() && 0 <= q < a_cols implies crate::algebra::in_i64(
                #[trigger] bc_entry(op, ag, bg, b_cols as int, p, q),
            ) by {
                lemma_index_bound(p, q, a_rows as int, a_cols as int);
                assert(m.data@[flat_idx(p, a_cols as int, q)] as int == bc_entry(
                    op,
                    ag,
                    bg,
                    b_cols as int,
                    p,
                    q,
                ));
            }
            assert(bc_fits(op, ag, a_cols as int, bg, b_cols as int));
            assert(m@ =~~= bc_grid(op, ag, a_cols as int, bg, b_cols as int));
        }
        Ok(m)
    }

    /// Elementwise product under the broadcasting rules.
    pub fn mul(&self, other: &Matrix) -> (r: Result<Matrix, NetError>)
        requires
            self.wf(),
            other.wf(),
        ensures
            ({
                let sr = bc_res(EntryOp::Mul, self@, self.spec_cols(), other@, other.spec_cols());
                match r {
                    Ok(m) => {
                        &&& sr == Ok::<Seq<Seq<int>>, NetError>(m@)
                        &&& m.wf()
                        &&& !m.transposed
                        &&& m.spec_rows() == self.spec_rows()
                        &&& m.spec_cols() == self.spec_cols()
                    },
                    Err(e) => sr == Err::<Seq<Seq<int>>, NetError>(e),
                }
            }),
    {
        self.broadcast_op(other, EntryOp::Mul)
    }

    /// Elementwise sum under the broadcasting rules.
    pub fn add(&self, other: &Matrix) -> (r: Result<Matrix, NetError>)
        requires
            self.wf(),
            other.wf(),
        ensures
            ({
                let sr = bc_res(EntryOp::Add, self@, self.spec_cols(), other@, other.spec_cols());
                match r {
                    Ok(m) => {
                        &&& sr == Ok::<Seq<Seq<int>>, NetError>(m@)
                        &&& m.wf()
                        &&& !m.transposed
                        &&& m.spec_rows() == self.spec_rows()
                        &&& m.spec_cols() == self.spec_cols()
                    },
                    Err(e) => sr == Err::<Seq<Seq<int>>, NetError>(e),
                }
            }),
    {
        self.broadcast_op(other, EntryOp::Add)
    }

    /// Elementwise difference under the broadcasting rules.
    pub fn sub(&self, other: &Matrix) -> (r: Result<Matrix, NetError>)
        requires
            self.wf(),
            other.wf(),
        ensures
            ({
                let sr = bc_res(EntryOp::Sub, self@, self.spec_cols(), other@, other.spec_cols());
                match r {
                    Ok(m) => {
                        &&& sr == Ok::<Seq<Seq<int>>, NetError>(m@)
                        &&& m.wf()
                        &&& !m.transposed
                        &&& m.spec_rows() == self.spec_rows()
                        &&& m.spec_cols() == self.spec_cols()
                    },
                    Err(e) => sr == Err::<Seq<Seq<int>>, NetError>(e),
                }
            }),
    {
        self.broadcast_op(other, EntryOp::Sub)
    }
}

} // verus!
