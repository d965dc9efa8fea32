//! The mathematical model of the matrix engine.
//!
//! A matrix value is modelled as a grid: a sequence of rows, each row a
//! sequence of unbounded integers.  Every executable operation states its
//! result against the spec functions of this module, and the algebraic laws
//! of the engine (shape of a product, identity, associativity, the
//! broadcasting rules) are proved here once, over the model.

use vstd::prelude::*;

use crate::NetError;

verus! {

pub open spec fn in_i64(x: int) -> bool {
    i64::MIN <= x <= i64::MAX
}

pub open spec fn in_i128(x: int) -> bool {
    i128::MIN <= x <= i128::MAX
}

/// `g` is a well-formed `r` by `c` grid: `r` rows, each of length `c`.
pub open spec fn is_grid(g: Seq<Seq<int>>, r: int, c: int) -> bool {
    &&& g.len() == r
    &&& forall|i: int| 0 <= i < g.len() ==> (#[trigger] g[i]).len() == c
}

/// Sum of the first `t` products of corresponding entries of `a` and `b`.
pub open spec fn dot_prefix(a: Seq<int>, b: Seq<int>, t: int) -> int
    decreases t,
{
    if t <= 0 {
        0
    } else {
        dot_prefix(a, b, t - 1) + a[t - 1] * b[t - 1]
    }
}

/// Column `j` of grid `g`, as a sequence.
pub open spec fn col_of(g: Seq<Seq<int>>, j: int) -> Seq<int> {
    Seq::new(g.len(), |k: int| g[k][j])
}

/// Entry `(i, j)` of the product of `a` and `b`: the inner product of row
/// `i` of `a` with column `j` of `b`.
pub open spec fn dot_entry(a: Seq<Seq<int>>, b: Seq<Seq<int>>, i: int, j: int) -> int {
    dot_prefix(a[i], col_of(b, j), a[i].len() as int)
}

/// The matrix product of `a` and `b`, where `b` has `n` columns.  The column
/// count cannot be read off `b` itself when `b` has no rows, so it is passed
/// separately.
pub open spec fn grid_dot(a: Seq<Seq<int>>, b: Seq<Seq<int>>, n: int) -> Seq<Seq<int>> {
    Seq::new(a.len(), |i: int| Seq::new(n as nat, |j: int| dot_entry(a, b, i, j)))
}

/// Every partial sum of every entry of the product stays within `i128`, and
/// every finished entry fits the 64-bit entry type.  This is exactly the
/// condition under which the executable product, which accumulates each
/// entry in an `i128`, returns a value.
pub open spec fn dot_fits(a: Seq<Seq<int>>, b: Seq<Seq<int>>, n: int) -> bool {
    &&& forall|i: int, j: int, t: int|
        0 <= i < a.len() && 0 <= j < n && 0 <= t <= a[i].len() ==> in_i128(
            #[trigger] dot_prefix(a[i], col_of(b, j), t),
        )
    &&& forall|i: int, j: int|
        0 <= i < a.len() && 0 <= j < n ==> in_i64(#[trigger] dot_entry(a, b, i, j))
}

/// What a dot product returns: the operand shapes must agree on the shared
/// dimension (`ac` columns of the left operand against the rows of `b`),
/// and the exact result must be representable.
pub open spec fn dot_res(a: Seq<Seq<int>>, ac: int, b: Seq<Seq<int>>, bc: int) -> Result<
    Seq<Seq<int>>,
    NetError,
> {
    if ac != b.len() {
        Err(NetError::DimensionMismatch)
    } else if !dot_fits(a, b, bc) {
        Err(NetError::Overflow)
    } else {
        Ok(grid_dot(a, b, bc))
    }
}

/// A product of two 64-bit values always fits in 128 bits.
pub proof fn lemma_i64_prod_in_i128(x: int, y: int)
    requires
        in_i64(x),
        in_i64(y),
    ensures
        in_i128(x * y),
{
    assert(i128::MIN <= x * y <= i128::MAX) by (nonlinear_arith)
        requires
            -0x8000_0000_0000_0000 <= x <= 0x7fff_ffff_ffff_ffff,
            -0x8000_0000_0000_0000 <= y <= 0x7fff_ffff_ffff_ffff,
    ;
}

/// The three elementwise operations a pair of matrices can be combined with.
#[derive(Clone, Copy, Debug, PartialEq, Eq, Structural)]
pub enum EntryOp {
    Add,
    Sub,
    Mul,
}

pub open spec fn op_apply(op: EntryOp, x: int, y: int) -> int {
    match op {
        EntryOp::Add => x + y,
        EntryOp::Sub => x - y,
        EntryOp::Mul => x * y,
    }
}

/// The right operand counts as a scalar exactly when it holds one element.
pub open spec fn bc_is_scalar(b: Seq<Seq<int>>, bc: int) -> bool {
    b.len() == 1 && bc == 1
}

/// The broadcasting rules, in priority order: a one-element right operand
/// combines as a scalar with any left shape; otherwise the column counts
/// must agree and the right operand must either match the left row count
/// exactly or consist of a single row.
pub open spec fn bc_shape_ok(a: Seq<Seq<int>>, ac: int, b: Seq<Seq<int>>, bc: int) -> bool {
    ||| bc_is_scalar(b, bc)
    ||| (ac == bc && (a.len() == b.len() || b.len() == 1))
}

/// Entry `(i, j)` of the broadcast combination, following the same priority
/// order: scalar, then strict elementwise, then row broadcast.
pub open spec fn bc_entry(
    op: EntryOp,
    a: Seq<Seq<int>>,
    b: Seq<Seq<int>>,
    bc: int,
    i: int,
    j: int,
) -> int {
    if bc_is_scalar(b, bc) {
        op_apply(op, a[i][j], b[0][0])
    } else if a.len() == b.len() {
        op_apply(op, a[i][j], b[i][j])
    } else {
        op_apply(op, a[i][j], b[0][j])
    }
}

/// The broadcast combination of `a` (an `a.len()` by `ac` grid) with `b`.
pub open spec fn bc_grid(
    op: EntryOp,
    a: Seq<Seq<int>>,
    ac: int,
    b: Seq<Seq<int>>,
    bc: int,
) -> Seq<Seq<int>> {
    Seq::new(a.len(), |i: int| Seq::new(ac as nat, |j: int| bc_entry(op, a, b, bc, i, j)))
}

/// Every combined entry fits the 64-bit entry type.
pub open spec fn bc_fits(op: EntryOp, a: Seq<Seq<int>>, ac: int, b: Seq<Seq<int>>, bc: int) -> bool {
    forall|i: int, j: int|
        0 <= i < a.len() && 0 <= j < ac ==> in_i64(#[trigger] bc_entry(op, a, b, bc, i, j))
}

/// What an elementwise operation returns: the shape-compatibility priority
/// decides between scalar, strict and row-broadcast combination; a shape
/// outside the rules is a `DimensionMismatch`, an unrepresentable entry an
/// `Overflow`.
pub open spec fn bc_res(op: EntryOp, a: Seq<Seq<int>>, ac: int, b: Seq<Seq<int>>, bc: int) -> Result<
    Seq<Seq<int>>,
    NetError,
> {
    if !bc_shape_ok(a, ac, b, bc) {
        Err(NetError::DimensionMismatch)
    } else if !bc_fits(op, a, ac, b, bc) {
        Err(NetError::Overflow)
    } else {
        Ok(bc_grid(op, a, ac, b, bc))
    }
}

/// The transpose of an `r` by `c` grid.
pub open spec fn grid_t(g: Seq<Seq<int>>, r: int, c: int) -> Seq<Seq<int>> {
    Seq::new(c as nat, |i: int| Seq::new(r as nat, |j: int| g[j][i]))
}

/// The `r` by `c` grid whose every entry is `v`.
pub open spec fn grid_const(r: int, c: int, v: int) -> Seq<Seq<int>> {
    Seq::new(r as nat, |i: int| Seq::new(c as nat, |j: int| v))
}

/// The `n` by `n` identity grid.
pub open spec fn grid_eye(n: int) -> Seq<Seq<int>> {
    Seq::new(
        n as nat,
        |i: int| Seq::new(n as nat, |j: int| if i == j { 1int } else { 0int }),
    )
}

/// Row-major position of entry `(i, j)` in a grid of `c` columns.
pub open spec fn flat_idx(i: int, c: int, j: int) -> int {
    i * c + j
}

/// The `r` by `c` grid read row-major out of a flat buffer.
pub open spec fn grid_of(data: Seq<i64>, r: int, c: int) -> Seq<Seq<int>> {
    Seq::new(r as nat, |i: int| Seq::new(c as nat, |j: int| data[i * c + j] as int))
}

/// `x` raised to the exponent `e` (one for a non-positive exponent).
pub open spec fn pow_int(x: int, e: int) -> int
    decreases e,
{
    if e <= 0 {
        1
    } else {
        x * pow_int(x, e - 1)
    }
}

/// The reciprocal of an integer, truncated towards zero: exact for one and
/// minus one, zero for every value of larger magnitude.  Undefined inputs
/// (zero) are kept out by the callers.
pub open spec fn recip_int(p: int) -> int {
    if p == 1 {
        1
    } else if p == -1 {
        -1
    } else {
        0
    }
}

/// One entry of the elementwise power: the exact power for a non-negative
/// exponent, the truncated reciprocal of the power of the negated exponent
/// otherwise.
pub open spec fn powi_entry(x: int, e: int) -> int {
    if e >= 0 {
        pow_int(x, e)
    } else {
        recip_int(pow_int(x, -e))
    }
}

/// The elementwise power of one entry is representable: for a non-negative
/// exponent every intermediate power fits the 64-bit entry type; for a
/// negative exponent the entry must not be zero.
pub open spec fn powi_ok(x: int, e: int) -> bool {
    if e >= 0 {
        forall|k: int| 0 <= k <= e ==> in_i64(#[trigger] pow_int(x, k))
    } else {
        x != 0
    }
}

/// The elementwise power of a grid of `c` columns.
pub open spec fn powi_grid(g: Seq<Seq<int>>, c: int, e: int) -> Seq<Seq<int>> {
    Seq::new(g.len(), |i: int| Seq::new(c as nat, |j: int| powi_entry(g[i][j], e)))
}

/// What the elementwise power returns: the grid of entry powers, or
/// `Overflow` when some entry's power is not representable.
pub open spec fn powi_res(g: Seq<Seq<int>>, c: int, e: int) -> Result<Seq<Seq<int>>, NetError> {
    if !(forall|i: int, j: int| 0 <= i < g.len() && 0 <= j < c ==> powi_ok(#[trigger] g[i][j], e)) {
        Err(NetError::Overflow)
    } else {
        Ok(powi_grid(g, c, e))
    }
}

/// The truncated reciprocal of a positive power: one for base one, the
/// alternating sign for base minus one, zero for any base of magnitude at
/// least two.
pub proof fn lemma_recip_pow(x: int, n: int)
    requires
        n >= 1,
    ensures
        x == 1 ==> pow_int(x, n) == 1,
        x == -1 ==> pow_int(x, n) == (if n % 2 == 0 {
            1int
        } else {
            -1int
        }),
        x >= 2 ==> pow_int(x, n) >= 2,
        x <= -2 ==> (pow_int(x, n) >= 2 || pow_int(x, n) <= -2),
    decreases n,
{
    assert(pow_int(x, 0) == 1);
    if n == 1 {
        assert(pow_int(x, 1) == x * pow_int(x, 0));
    } else {
        lemma_recip_pow(x, n - 1);
        let p = pow_int(x, n - 1);
        assert(pow_int(x, n) == x * p);
        if x == 1 {
            assert(x * p == p) by (nonlinear_arith)
                requires
                    x == 1,
            ;
        }
        if x == -1 {
            assert(x * p == -p) by (nonlinear_arith)
                requires
                    x == -1,
            ;
        }
        if x >= 2 {
            assert(x * p >= 2) by (nonlinear_arith)
                requires
                    x >= 2,
                    p >= 2,
            ;
        }
        if x <= -2 {
            assert(x * p >= 4 || x * p <= -4) by (nonlinear_arith)
                requires
                    x <= -2,
                    p >= 2 || p <= -2,
            ;
        }
    }
}

/// A prefix inner product only reads the first `t` entries of its right side.
proof fn lemma_dot_prefix_congruent(u: Seq<int>, w1: Seq<int>, w2: Seq<int>, t: int)
    requires
        forall|s: int| 0 <= s < t ==> w1[s] == w2[s],
    ensures
        dot_prefix(u, w1, t) == dot_prefix(u, w2, t),
    decreases t,
{
    if t > 0 {
        lemma_dot_prefix_congruent(u, w1, w2, t - 1);
    }
}

/// A prefix inner product with a zero left side is zero.
proof fn lemma_dot_prefix_zero(u: Seq<int>, w: Seq<int>, t: int)
    requires
        forall|s: int| 0 <= s < t ==> u[s] == 0,
    ensures
        dot_prefix(u, w, t) == 0,
    decreases t,
{
    if t > 0 {
        lemma_dot_prefix_zero(u, w, t - 1);
    }
}

/// The prefix inner product is linear in its left side.
proof fn lemma_dot_prefix_linear(
    u1: Seq<int>,
    u2: Seq<int>,
    u3: Seq<int>,
    alpha: int,
    w: Seq<int>,
    t: int,
)
    requires
        forall|s: int| 0 <= s < t ==> u3[s] == u1[s] + alpha * u2[s],
    ensures
        dot_prefix(u3, w, t) == dot_prefix(u1, w, t) + alpha * dot_prefix(u2, w, t),
    decreases t,
{
    if t > 0 {
        lemma_dot_prefix_linear(u1, u2, u3, alpha, w, t - 1);
        assert((u1[t - 1] + alpha * u2[t - 1]) * w[t - 1] == u1[t - 1] * w[t - 1] + alpha * (u2[t
            - 1] * w[t - 1])) by (nonlinear_arith);
        assert(alpha * (dot_prefix(u2, w, t - 1) + u2[t - 1] * w[t - 1]) == alpha * dot_prefix(
            u2,
            w,
            t - 1,
        ) + alpha * (u2[t - 1] * w[t - 1])) by (nonlinear_arith);
    }
}

/// The inner product of a row with a unit column picks one row entry.
proof fn lemma_dot_prefix_unit_col(row: Seq<int>, col: Seq<int>, j: int, t: int)
    requires
        forall|k: int| 0 <= k < t ==> col[k] == (if k == j {
            1int
        } else {
            0int
        }),
    ensures
        dot_prefix(row, col, t) == (if 0 <= j < t {
            row[j]
        } else {
            0
        }),
    decreases t,
{
    if t > 0 {
        lemma_dot_prefix_unit_col(row, col, j, t - 1);
    }
}

/// The inner product of a unit row with a column picks one column entry.
proof fn lemma_dot_prefix_unit_row(row: Seq<int>, col: Seq<int>, i: int, t: int)
    requires
        forall|k: int| 0 <= k < t ==> row[k] == (if k == i {
            1int
        } else {
            0int
        }),
    ensures
        dot_prefix(row, col, t) == (if 0 <= i < t {
            col[i]
        } else {
            0
        }),
    decreases t,
{
    if t > 0 {
        lemma_dot_prefix_unit_row(row, col, i, t - 1);
    }
}

/// A product has as many rows as its left operand and as many columns as
/// its right operand has columns.
pub proof fn lemma_dot_shape(a: Seq<Seq<int>>, b: Seq<Seq<int>>, n: int)
    requires
        n >= 0,
    ensures
        is_grid(grid_dot(a, b, n), a.len() as int, n),
{
}

/// Multiplying an `m` by `n` grid with 64-bit entries by the `n` by `n`
/// identity gives the grid back exactly, and the product is representable:
/// every partial sum is a stored entry or zero.
pub proof fn lemma_dot_identity(a: Seq<Seq<int>>, n: int)
    requires
        n >= 0,
        is_grid(a, a.len() as int, n),
        forall|i: int, j: int| 0 <= i < a.len() && 0 <= j < n ==> in_i64(#[trigger] a[i][j]),
    ensures
        grid_dot(a, grid_eye(n), n) == a,
        dot_fits(a, grid_eye(n), n),
{
    assert forall|i: int, j: int, t: int|
        0 <= i < a.len() && 0 <= j < n && 0 <= t <= a[i].len() implies #[trigger] dot_prefix(
        a[i],
        col_of(grid_eye(n), j),
        t,
    ) == (if 0 <= j < t {
        a[i][j]
    } else {
        0
    }) by {
        lemma_dot_prefix_unit_col(a[i], col_of(grid_eye(n), j), j, t);
    }
    assert forall|i: int, j: int| 0 <= i < a.len() && 0 <= j < n implies #[trigger] dot_entry(
        a,
        grid_eye(n),
        i,
        j,
    ) == a[i][j] by {
        assert(a[i].len() == n);
        assert(dot_prefix(a[i], col_of(grid_eye(n), j), n) == a[i][j]);
    }
    assert(grid_dot(a, grid_eye(n), n) =~~= a);
}

/// Multiplying the `m` by `m` identity by an `m` by `n` grid with 64-bit
/// entries gives the grid back exactly, and the product is representable.
pub proof fn lemma_dot_identity_left(a: Seq<Seq<int>>, n: int)
    requires
        n >= 0,
        is_grid(a, a.len() as int, n),
        forall|i: int, j: int| 0 <= i < a.len() && 0 <= j < n ==> in_i64(#[trigger] a[i][j]),
    ensures
        grid_dot(grid_eye(a.len() as int), a, n) == a,
        dot_fits(grid_eye(a.len() as int), a, n),
{
    let m = a.len() as int;
    let e = grid_eye(m);
    assert forall|i: int, j: int, t: int|
        0 <= i < m && 0 <= j < n && 0 <= t <= m implies #[trigger] dot_prefix(
        e[i],
        col_of(a, j),
        t,
    ) == (if 0 <= i < t {
        a[i][j]
    } else {
        0
    }) by {
        lemma_dot_prefix_unit_row(e[i], col_of(a, j), i, t);
        if 0 <= i < t {
            assert(col_of(a, j)[i] == a[i][j]);
        }
    }
    assert forall|i: int, j: int| 0 <= i < m && 0 <= j < n implies #[trigger] dot_entry(
        e,
        a,
        i,
        j,
    ) == a[i][j] by {
        assert(e[i].len() == m);
    }
    assert(grid_dot(e, a, n) =~~= a);
    assert forall|i: int, j: int, t: int|
        0 <= i < e.len() && 0 <= j < n && 0 <= t <= e[i].len() implies in_i128(
        #[trigger] dot_prefix(e[i], col_of(a, j), t),
    ) by {
        if 0 <= i < t {
            assert(in_i64(a[i][j]));
        }
    }
}

/// The double-sum exchange behind associativity: combining a row with the
/// first `t_lim` rows of `b` column by column and then with `colc` equals
/// combining the row directly with the per-row inner products.
proof fn lemma_assoc_entry(a_row: Seq<int>, b: Seq<Seq<int>>, colc: Seq<int>, p: int, t_lim: int)
    requires
        0 <= p,
        0 <= t_lim <= b.len(),
    ensures
        dot_prefix(Seq::new(p as nat, |s: int| dot_prefix(a_row, col_of(b, s), t_lim)), colc, p)
            == dot_prefix(
            a_row,
            Seq::new(t_lim as nat, |t: int| dot_prefix(b[t], colc, p)),
            t_lim,
        ),
    decreases t_lim,
{
    let rowab = Seq::new(p as nat, |s: int| dot_prefix(a_row, col_of(b, s), t_lim));
    let colbc = Seq::new(t_lim as nat, |t: int| dot_prefix(b[t], colc, p));
    if t_lim == 0 {
        lemma_dot_prefix_zero(rowab, colc, p);
    } else {
        let prev = Seq::new(p as nat, |s: int| dot_prefix(a_row, col_of(b, s), t_lim - 1));
        let colbc_prev = Seq::new((t_lim - 1) as nat, |t: int| dot_prefix(b[t], colc, p));
        lemma_assoc_entry(a_row, b, colc, p, t_lim - 1);
        assert forall|s: int| 0 <= s < p implies rowab[s] == prev[s] + a_row[t_lim - 1] * b[t_lim
            - 1][s] by {
            assert(col_of(b, s)[t_lim - 1] == b[t_lim - 1][s]);
        }
        lemma_dot_prefix_linear(prev, b[t_lim - 1], rowab, a_row[t_lim - 1], colc, p);
        lemma_dot_prefix_congruent(a_row, colbc_prev, colbc, t_lim - 1);
        assert(dot_prefix(a_row, colbc, t_lim) == dot_prefix(a_row, colbc, t_lim - 1) + a_row[t_lim
            - 1] * colbc[t_lim - 1]);
    }
}

/// Associativity of the product: for grids `a` (`m` by `k`), `b` (`k` by
/// `p`) and `c` (`p` by `q`), combining left-first and right-first give the
/// same grid, exactly.
pub proof fn lemma_dot_assoc(
    a: Seq<Seq<int>>,
    b: Seq<Seq<int>>,
    c: Seq<Seq<int>>,
    k: int,
    p: int,
    q: int,
)
    requires
        0 <= k,
        0 <= p,
        0 <= q,
        is_grid(a, a.len() as int, k),
        is_grid(b, k, p),
        is_grid(c, p, q),
    ensures
        grid_dot(grid_dot(a, b, p), c, q) == grid_dot(a, grid_dot(b, c, q), q),
{
    let ab = grid_dot(a, b, p);
    let bc = grid_dot(b, c, q);
    assert forall|i: int, j: int|
        0 <= i < a.len() && 0 <= j < q implies #[trigger] dot_entry(ab, c, i, j) == dot_entry(
        a,
        bc,
        i,
        j,
    ) by {
        assert(a[i].len() == k);
        let rowab = Seq::new(p as nat, |s: int| dot_prefix(a[i], col_of(b, s), k));
        let colbc = Seq::new(k as nat, |t: int| dot_prefix(b[t], col_of(c, j), p));
        assert forall|s: int| 0 <= s < p implies ab[i][s] == rowab[s] by {
            assert(ab[i][s] == dot_entry(a, b, i, s));
        }
        assert(ab[i] =~= rowab);
        assert forall|t: int| 0 <= t < k implies col_of(bc, j)[t] == colbc[t] by {
            assert(col_of(bc, j)[t] == bc[t][j]);
            assert(bc[t][j] == dot_entry(b, c, t, j));
            assert(b[t].len() == p);
        }
        assert(col_of(bc, j) =~= colbc);
        lemma_assoc_entry(a[i], b, col_of(c, j), p, k);
        assert(ab[i].len() == p);
        assert(dot_entry(ab, c, i, j) == dot_prefix(rowab, col_of(c, j), p));
        assert(dot_entry(a, bc, i, j) == dot_prefix(a[i], colbc, k));
    }
    assert(grid_dot(ab, c, q) =~~= grid_dot(a, bc, q));
}

/// A one-element right operand combines as a scalar: whatever the left
/// shape, the shape rules accept the pair and every result entry is the
/// left entry combined with the single right entry.
pub proof fn lemma_scalar_broadcast(op: EntryOp, a: Seq<Seq<int>>, ac: int, b: Seq<Seq<int>>, bc: int)
    requires
        bc_is_scalar(b, bc),
    ensures
        bc_shape_ok(a, ac, b, bc),
        forall|i: int, j: int|
            0 <= i < a.len() && 0 <= j < ac ==> #[trigger] bc_entry(op, a, b, bc, i, j) == op_apply(
                op,
                a[i][j],
                b[0][0],
            ),
{
}

/// A single-row right operand of matching width combines against every row
/// of the left operand.
pub proof fn lemma_row_broadcast(op: EntryOp, a: Seq<Seq<int>>, ac: int, b: Seq<Seq<int>>, bc: int)
    requires
        !bc_is_scalar(b, bc),
        ac == bc,
        b.len() == 1,
        a.len() != 1,
    ensures
        bc_shape_ok(a, ac, b, bc),
        forall|i: int, j: int|
            0 <= i < a.len() && 0 <= j < ac ==> #[trigger] bc_entry(op, a, b, bc, i, j) == op_apply(
                op,
                a[i][j],
                b[0][j],
            ),
{
}

/// Operands whose column counts disagree, where the right operand is not a
/// scalar, always fail the shape rules: every elementwise operation on them
/// is a dimension mismatch.
pub proof fn lemma_cols_mismatch(op: EntryOp, a: Seq<Seq<int>>, ac: int, b: Seq<Seq<int>>, bc: int)
    requires
        !bc_is_scalar(b, bc),
        ac != bc,
    ensures
        bc_res(op, a, ac, b, bc) == Err::<Seq<Seq<int>>, NetError>(NetError::DimensionMismatch),
{
}

} // verus!
