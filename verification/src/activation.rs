//! Activation functions as a closed set of variants.
//!
//! A layer carries one `Activation`; each variant knows its forward map and
//! its derivative.  Only the transforms that are exact over the integer
//! entry type live here; the saturating transforms (sigmoid, softmax) and
//! their derivatives belong to the floating-point front end, where the
//! softmax derivative is folded into the loss derivative rather than
//! applied per layer.

use vstd::prelude::*;

use crate::algebra::flat_idx;
use crate::matrix::Matrix;

verus! {

/// The activation families the integer engine can run.
#[derive(Clone, Copy, Debug, PartialEq, Eq, Structural)]
pub enum Activation {
    Identity,
    Relu,
}

/// The forward map of an activation, on one entry.
pub open spec fn act_entry(a: Activation, x: int) -> int {
    match a {
        Activation::Identity => x,
        Activation::Relu => if x > 0 {
            x
        } else {
            0
        },
    }
}

/// The derivative of an activation, on one entry.
pub open spec fn act_grad_entry(a: Activation, x: int) -> int {
    match a {
        Activation::Identity => 1,
        Activation::Relu => if x > 0 {
            1
        } else {
            0
        },
    }
}

/// The forward map applied to every entry of a grid of `c` columns.
pub open spec fn act_grid(a: Activation, g: Seq<Seq<int>>, c: int) -> Seq<Seq<int>> {
    Seq::new(g.len(), |i: int| Seq::new(c as nat, |j: int| act_entry(a, g[i][j])))
}

/// The derivative applied to every entry of a grid of `c` columns.
pub open spec fn act_grad_grid(a: Activation, g: Seq<Seq<int>>, c: int) -> Seq<Seq<int>> {
    Seq::new(g.len(), |i: int| Seq::new(c as nat, |j: int| act_grad_entry(a, g[i][j])))
}

/// Applies the forward map (`grad` false) or the derivative (`grad` true)
/// of `a` to every entry of `m`.  Neither map can leave the 64-bit range:
/// each result entry is the input entry, zero or one.
#[verifier::loop_isolation(false)]
fn act_map(a: Activation, m: &Matrix, grad: bool) -> (r: Matrix)
    requires
        m.wf(),
    ensures
        r.wf(),
        !r.transposed,
        r.spec_rows() == m.spec_rows(),
        r.spec_cols() == m.spec_cols(),
        r@ == (if grad {
            act_grad_grid(a, m@, m.spec_cols())
        } else {
            act_grid(a, m@, m.spec_cols())
        }),
{
    let rows: usize = m.rows();
    let cols: usize = m.cols();
    let ghost mg = m@;
    proof {
        m.lemma_view_grid();
    }
    let mut data: Vec<i64> = Vec::new();
    let mut i: usize = 0;
    while i < rows
        invariant
            i <= rows,
            data@.len() == i * cols,
            forall|p: int, q: int|
                0 <= p < i && 0 <= q < cols ==> data@[#[trigger] flat_idx(p, cols as int, q)] as int
                    == (if grad {
                    act_grad_entry(a, mg[p][q])
                } else {
                    act_entry(a, mg[p][q])
                }),
        decreases rows - i,
    {
        let mut j: usize = 0;
        while j < cols
            invariant
                i < rows,
                j <= cols,
                data@.len() == i * cols + j,
                forall|p: int, q: int|
                    0 <= p < i && 0 <= q < cols ==> data@[#[trigger] flat_idx(
                        p,
                        cols as int,
                        q,
                    )] as int == (if grad {
                        act_grad_entry(a, mg[p][q])
                    } else {
                        act_entry(a, mg[p][q])
                    }),
                forall|q: int|
                    0 <= q < j ==> data@[#[trigger] flat_idx(i as int, cols as int, q)] as int == (
                    if grad {
                        act_grad_entry(a, mg[i as int][q])
                    } else {
                        act_entry(a, mg[i as int][q])
                    }),
            decreases cols - j,
        {
            let x = m.get(i, j);
            let v: i64 = if grad {
                match a {
                    Activation::Identity => 1,
                    Activation::Relu => if x > 0 {
                        1
                    } else {
                        0
                    },
                }
            } else {
                match a {
                    Activation::Identity => x,
                    Activation::Relu => if x > 0 {
                        x
                    } else {
                        0
                    },
                }
            };
            let ghost pre = data@;
            data.push(v);
            proof {
                assert forall|p: int, q: int| 0 <= p < i && 0 <= q < cols implies data@[
                    #[trigger] flat_idx(p, cols as int, q)
                ] as int == (if grad {
                    act_grad_entry(a, mg[p][q])
                } else {
                    act_entry(a, mg[p][q])
                }) by {
                    crate::matrix::lemma_index_bound(p, q, i as int, cols as int);
                    assert(pre[flat_idx(p, cols as int, q)] == data@[flat_idx(p, cols as int, q)]);
                }
                assert forall|q: int| 0 <= q < j + 1 implies data@[
                    #[trigger] flat_idx(i as int, cols as int, q)
                ] as int == (if grad {
                    act_grad_entry(a, mg[i as int][q])
                } else {
                    act_entry(a, mg[i as int][q])
                }) by {
                    if q < j {
                        assert(pre[flat_idx(i as int, cols as int, q)] == data@[flat_idx(
                            i as int,
                            cols as int,
                            q,
                        )]);
                    }
                }
            }
            j = j + 1;
        }
        proof {
            assert((i + 1) * cols == i * cols + cols) by (nonlinear_arith);
        }
        i = i + 1;
    }
    let final_len: usize = data.len();
    let r = Matrix { physical_rows: rows, physical_cols: cols, data, transposed: false };
    proof {
        assert(final_len == rows * cols);
        assert forall|p: int, q: int| 0 <= p < rows && 0 <= q < cols implies r.entry(p, q) == (
        if grad {
            act_grad_entry(a, mg[p][q])
        } else {
            act_entry(a, mg[p][q])
        }) by {
            crate::matrix::lemma_index_bound(p, q, rows as int, cols as int);
            assert(r.data@[flat_idx(p, cols as int, q)] as int == (if grad {
                act_grad_entry(a, mg[p][q])
            } else {
                act_entry(a, mg[p][q])
            }));
        }
        if grad {
            assert(r@ =~~= act_grad_grid(a, mg, m.spec_cols()));
        } else {
            assert(r@ =~~= act_grid(a, mg, m.spec_cols()));
        }
    }
    r
}

impl Activation {
    /// The forward map of this activation over a whole matrix.
    pub fn apply(&self, m: &Matrix) -> (r: Matrix)
        requires
            m.wf(),
        ensures
            r.wf(),
            !r.transposed,
            r.spec_rows() == m.spec_rows(),
            r.spec_cols() == m.spec_cols(),
            r@ == act_grid(*self, m@, m.spec_cols()),
    {
        act_map(*self, m, false)
    }

    /// The derivative of this activation over a whole matrix.
    pub fn derivative(&self, m: &Matrix) -> (r: Matrix)
        requires
            m.wf(),
        ensures
            r.wf(),
            !r.transposed,
            r.spec_rows() == m.spec_rows(),
            r.spec_cols() == m.spec_cols(),
            r@ == act_grad_grid(*self, m@, m.spec_cols()),
    {
        act_map(*self, m, true)
    }
}

/// Elementwise maximum with zero.
pub fn relu(m: &Matrix) -> (r: Matrix)
    requires
        m.wf(),
    ensures
        r.wf(),
        !r.transposed,
        r.spec_rows() == m.spec_rows(),
        r.spec_cols() == m.spec_cols(),
        r@ == act_grid(Activation::Relu, m@, m.spec_cols()),
{
    act_map(Activation::Relu, m, false)
}

/// Elementwise derivative of `relu`: one where the entry is positive, zero
/// elsewhere.
pub fn d_relu(m: &Matrix) -> (r: Matrix)
    requires
        m.wf(),
    ensures
        r.wf(),
        !r.transposed,
        r.spec_rows() == m.spec_rows(),
        r.spec_cols() == m.spec_cols(),
        r@ == act_grad_grid(Activation::Relu, m@, m.spec_cols()),
{
    act_map(Activation::Relu, m, true)
}

} // verus!
