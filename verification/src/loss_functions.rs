//! Loss functions over a pair of column matrices.
//!
//! Only the sum of squared errors is exact over the integer entry type and
//! lives here; the logarithmic losses (cross-entropy, binary cross-entropy)
//! belong to the floating-point front end.

use vstd::prelude::*;

use crate::algebra::in_i64;
use crate::matrix::Matrix;
use crate::NetError;

verus! {

/// The loss families the integer engine can drive training with.
#[derive(Clone, Copy, Debug, PartialEq, Eq, Structural)]
pub enum Loss {
    SumSquaredError,
}

/// Sum of the squared differences of the leading entries of the first `t`
/// rows of two grids.
pub open spec fn sse_prefix(p: Seq<Seq<int>>, a: Seq<Seq<int>>, t: int) -> int
    decreases t,
{
    if t <= 0 {
        0
    } else {
        sse_prefix(p, a, t - 1) + (p[t - 1][0] - a[t - 1][0]) * (p[t - 1][0] - a[t - 1][0])
    }
}

/// Every partial sum of the squared differences fits the 64-bit entry type.
/// This is exactly the condition under which the executable loss, which
/// accumulates in 128-bit arithmetic and narrows at every step, returns a
/// value.
pub open spec fn sse_fits(p: Seq<Seq<int>>, a: Seq<Seq<int>>) -> bool {
    forall|t: int| 0 <= t <= p.len() ==> in_i64(#[trigger] sse_prefix(p, a, t))
}

/// What the sum-of-squared-error loss returns: the row counts must agree
/// and, when there are rows at all, each operand must have a first column
/// to read; the exact sum must be representable.
pub open spec fn sse_res(p: Seq<Seq<int>>, a: Seq<Seq<int>>) -> Result<int, NetError> {
    if p.len() != a.len() || (p.len() > 0 && (p[0].len() == 0 || a[0].len() == 0)) {
        Err(NetError::DimensionMismatch)
    } else if !sse_fits(p, a) {
        Err(NetError::Overflow)
    } else {
        Ok(sse_prefix(p, a, p.len() as int))
    }
}

/// What a loss returns, by family.
pub open spec fn loss_res(l: Loss, p: Seq<Seq<int>>, a: Seq<Seq<int>>) -> Result<int, NetError> {
    match l {
        Loss::SumSquaredError => sse_res(p, a),
    }
}

/// Sum of squared errors over the first column of `prediction` against the
/// first column of `actual`: the sum over all rows of
/// `(prediction - actual)` squared, with no averaging.  Fails with
/// `DimensionMismatch` when the row counts differ or a non-empty operand
/// has no column, and with `Overflow` when a partial sum leaves the 64-bit
/// entry type.
#[verifier::loop_isolation(false)]
pub fn sse(prediction: &Matrix, actual: &Matrix) -> (r: Result<i64, NetError>)
    requires
        prediction.wf(),
        actual.wf(),
    ensures
        match r {
            Ok(v) => sse_res(prediction@, actual@) == Ok::<int, NetError>(v as int),
            Err(e) => sse_res(prediction@, actual@) == Err::<int, NetError>(e),
        },
{
    let n: usize = prediction.rows();
    if n != actual.rows() {
        return Err(NetError::DimensionMismatch);
    }
    if n > 0 && (prediction.cols() == 0 || actual.cols() == 0) {
        return Err(NetError::DimensionMismatch);
    }
    let ghost pg = prediction@;
    let ghost ag = actual@;
    proof {
        prediction.lemma_view_grid();
        actual.lemma_view_grid();
    }
    let mut loss: i64 = 0;
    let mut i: usize = 0;
    while i < n
        invariant
            i <= n,
            loss as int == sse_prefix(pg, ag, i as int),
            forall|t: int| 0 <= t <= i ==> in_i64(#[trigger] sse_prefix(pg, ag, t)),
        decreases n - i,
    {
        let x = prediction.get(i, 0);
        let y = actual.get(i, 0);
        let d: i128 = x as i128 - y as i128;
        proof {
            assert(d * d >= 0) by (nonlinear_arith);
            assert((d as int) * (d as int) == (pg[i as int][0] - ag[i as int][0]) * (pg[i as int][0]
                - ag[i as int][0]));
        }
        match d.checked_mul(d) {
            None => {
                proof {
                    assert(sse_prefix(pg, ag, i + 1) == loss + d * d);
                    assert(!in_i64(sse_prefix(pg, ag, i + 1)));
                }
                return Err(NetError::Overflow);
            },
            Some(sq) => {
                match (loss as i128).checked_add(sq) {
                    None => {
                        proof {
                            assert(sq >= 0) by (nonlinear_arith)
                                requires
                                    sq == d * d,
                            ;
                            assert(sse_prefix(pg, ag, i + 1) == loss + sq);
                            assert(!in_i64(sse_prefix(pg, ag, i + 1)));
                        }
                        return Err(NetError::Overflow);
                    },
                    Some(total) => {
                        proof {
                            assert(sse_prefix(pg, ag, i + 1) == total as int);
                        }
                        if total > (i64::MAX as i128) || total < (i64::MIN as i128) {
                            proof {
                                assert(!in_i64(sse_prefix(pg, ag, i + 1)));
                            }
                            return Err(NetError::Overflow);
                        }
                        loss = total as i64;
                    },
                }
            },
        }
        i = i + 1;
    }
    proof {
        assert(sse_fits(pg, ag));
    }
    Ok(loss)
}

} // verus!
