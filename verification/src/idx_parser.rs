//! Decoder for the fixed big-endian sample format: a four-byte magic
//! header whose last byte is the dimension count, a four-byte big-endian
//! record count, then fixed-size records.  A dimension count of one means
//! label records of one byte each, turned into one-hot columns; anything
//! else means image records of 784 bytes each, turned into pixel columns.
//! Reading the bytes from a file is the caller's concern; this module
//! decodes a byte buffer.

use vstd::prelude::*;

use crate::matrix::lemma_index_bound;
use crate::matrix::Matrix;
use crate::NetError;

verus! {

/// The number of pixel bytes in one image record: a 28 by 28 image.
pub open spec fn spec_image_len() -> int {
    784
}

/// A big-endian 32-bit quantity read from four bytes.
pub open spec fn be_u32(b0: u8, b1: u8, b2: u8, b3: u8) -> int {
    b0 * 0x100_0000 + b1 * 0x1_0000 + b2 * 0x100 + b3
}

/// The dimension count of a buffer: the last byte of the magic header.
pub open spec fn idx_dim_count(bytes: Seq<u8>) -> int {
    bytes[3] as int
}

/// The record count of a buffer, read big-endian after the magic header.
pub open spec fn idx_count(bytes: Seq<u8>) -> int {
    be_u32(bytes[4], bytes[5], bytes[6], bytes[7])
}

/// The record size the dimension count selects.
pub open spec fn idx_record_len(bytes: Seq<u8>) -> int {
    if idx_dim_count(bytes) == 1 {
        1
    } else {
        spec_image_len()
    }
}

/// Label record `k` of a buffer.
pub open spec fn idx_label(bytes: Seq<u8>, k: int) -> u8 {
    bytes[8 + k]
}

/// The buffer is decodable: it holds the eight header bytes and every
/// declared record, and every label record is a digit.
pub open spec fn idx_ok(bytes: Seq<u8>) -> bool {
    &&& bytes.len() >= 8
    &&& bytes.len() >= 8 + idx_count(bytes) * idx_record_len(bytes)
    &&& (idx_dim_count(bytes) == 1 ==> forall|k: int|
        0 <= k < idx_count(bytes) ==> #[trigger] idx_label(bytes, k) <= 9)
}

/// The ten-row one-hot column for digit `d`.
pub open spec fn one_hot_grid(d: int) -> Seq<Seq<int>> {
    Seq::new(
        10,
        |i: int| Seq::new(1, |j: int| if i == d {
            1int
        } else {
            0int
        }),
    )
}

/// The pixel column of the image record starting at `start`.
pub open spec fn image_grid(bytes: Seq<u8>, start: int) -> Seq<Seq<int>> {
    Seq::new(spec_image_len() as nat, |i: int| Seq::new(1, |j: int| bytes[start + i] as int))
}

/// The one-hot label column for a digit: ten rows, a single one in the row
/// the digit names.
pub fn one_hot(num: u8) -> (m: Matrix)
    requires
        num < 10,
    ensures
        m.wf(),
        !m.transposed,
        m.spec_rows() == 10,
        m.spec_cols() == 1,
        m@ == one_hot_grid(num as int),
{
    let mut m = Matrix::repeat(10, 1, 0);
    proof {
        assert forall|i: int| 0 <= i < 10 implies m.data@[i] == 0i64 by {
            assert(m@[i][0] == 0);
            assert(m.entry(i, 0) == m.data@[i * 1 + 0] as int);
            assert(i * 1 + 0 == i);
        }
    }
    let ghost d0 = m.data@;
    m.data.set(num as usize, 1);
    proof {
        assert forall|i: int, j: int| 0 <= i < 10 && 0 <= j < 1 implies m.entry(i, j) == (if i
            == num as int {
            1int
        } else {
            0int
        }) by {
            assert(m.entry(i, j) == m.data@[i * 1 + j] as int);
            assert(i * 1 + j == i);
            if i != num as int {
                assert(m.data@[i] == d0[i]);
            }
        }
        assert(m@ =~~= one_hot_grid(num as int));
    }
    m
}

/// Decodes a whole buffer into one matrix per record: one-hot label
/// columns when the dimension count is one, 784-row pixel columns
/// otherwise.  Fails with `DimensionMismatch` exactly when the buffer is
/// not decodable: too short for its header or its declared record count,
/// or a label record outside the digit range.
#[verifier::loop_isolation(false)]
#[verifier::rlimit(60)]
pub fn parse(bytes: &Vec<u8>) -> (r: Result<Vec<Matrix>, NetError>)
    ensures
        match r {
            Ok(v) => {
                &&& idx_ok(bytes@)
                &&& v@.len() == idx_count(bytes@)
                &&& idx_dim_count(bytes@) == 1 ==> forall|k: int|
                    0 <= k < v@.len() ==> (#[trigger] v@[k]).wf() && !v@[k].transposed
                        && v@[k]@ == one_hot_grid(idx_label(bytes@, k) as int)
                &&& idx_dim_count(bytes@) != 1 ==> forall|k: int|
                    0 <= k < v@.len() ==> (#[trigger] v@[k]).wf() && !v@[k].transposed && v@[k]@
                        == image_grid(bytes@, 8 + k * spec_image_len())
            },
            Err(e) => e == NetError::DimensionMismatch && !idx_ok(bytes@),
        },
{
    let total: usize = bytes.len();
    if total < 8 {
        return Err(NetError::DimensionMismatch);
    }
    let dim: u8 = bytes[3];
    let count: usize = (bytes[4] as usize) * 0x100_0000 + (bytes[5] as usize) * 0x1_0000 + (
    bytes[6] as usize) * 0x100 + (bytes[7] as usize);
    let record: usize = if dim == 1 {
        1
    } else {
        784
    };
    proof {
        assert(count == idx_count(bytes@));
        assert(record == idx_record_len(bytes@));
    }
    let body = match count.checked_mul(record) {
        Some(n) => n,
        None => {
            return Err(NetError::DimensionMismatch);
        },
    };
    let needed = match body.checked_add(8) {
        Some(n) => n,
        None => {
            return Err(NetError::DimensionMismatch);
        },
    };
    if needed > total {
        return Err(NetError::DimensionMismatch);
    }
    let mut out: Vec<Matrix> = Vec::new();
    let mut k: usize = 0;
    while k < count
        invariant
            k <= count,
            out@.len() == k,
            dim == 1 ==> forall|t: int|
                0 <= t < k ==> (#[trigger] out@[t]).wf() && !out@[t].transposed && out@[t]@
                    == one_hot_grid(idx_label(bytes@, t) as int) && idx_label(bytes@, t) <= 9,
            dim != 1 ==> forall|t: int|
                0 <= t < k ==> (#[trigger] out@[t]).wf() && !out@[t].transposed && out@[t]@
                    == image_grid(bytes@, 8 + t * spec_image_len()),
        decreases count - k,
    {
        if dim == 1 {
            let label = bytes[8 + k];
            proof {
                assert(label == idx_label(bytes@, k as int));
            }
            if label > 9 {
                proof {
                    assert(!idx_ok(bytes@));
                }
                return Err(NetError::DimensionMismatch);
            }
            out.push(one_hot(label));
        } else {
            proof {
                assert(k * 784 + 784 <= count * 784) by (nonlinear_arith)
                    requires
                        k < count,
                ;
            }
            let start: usize = 8 + k * 784;
            let mut data: Vec<i64> = Vec::new();
            let mut i: usize = 0;
            while i < 784
                invariant
                    i <= 784,
                    k < count,
                    start == 8 + k * 784,
                    start + 784 <= total,
                    data@.len() == i,
                    forall|t: int| 0 <= t < i ==> data@[t] == bytes@[start + t] as i64,
                decreases 784 - i,
            {
                data.push(bytes[start + i]  as i64);
                i = i + 1;
            }
            let m = Matrix { physical_rows: 784, physical_cols: 1, data, transposed: false };
            proof {
                assert forall|a: int, b: int| 0 <= a < 784 && 0 <= b < 1 implies m.entry(a, b)
                    == bytes@[start + a] as int by {
                    lemma_index_bound(a, b, 784, 1);
                }
                assert(m@ =~~= image_grid(bytes@, 8 + k * spec_image_len()));
            }
            out.push(m);
        }
        k = k + 1;
    }
    proof {
        if dim == 1 {
            assert forall|t: int| 0 <= t < count implies #[trigger] idx_label(bytes@, t) <= 9 by {
                assert(out@[t].wf());
            }
        }
        assert(idx_ok(bytes@));
    }
    Ok(out)
}

} // verus!
