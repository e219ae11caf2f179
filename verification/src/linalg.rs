use vstd::prelude::*;

use crate::error::TensorError;
use crate::shape::{
    copy_dims, in_bounds, lemma_product_zero, lemma_ravel_bound, lemma_ravel_unravel,
    lemma_unravel_ravel, numel,
    ravel_index, ravel_spec, shape_product, unravel_index, unravel_spec,
};
use crate::tensor::{shape_fits, TensorCore};

verus! {

// ---------------------------------------------------------------------------
// Axis swaps
// ---------------------------------------------------------------------------

/// `s` with entries `i` and `j` exchanged.
pub open spec fn swap_spec(s: Seq<usize>, i: int, j: int) -> Seq<usize> {
    s.update(i, s[j]).update(j, s[i])
}

pub proof fn lemma_swap_swap(s: Seq<usize>, i: int, j: int)
    requires
        0 <= i < s.len(),
        0 <= j < s.len(),
    ensures
        swap_spec(swap_spec(s, i, j), i, j) =~= s,
{
}

pub proof fn lemma_swap_in_bounds(c: Seq<usize>, s: Seq<usize>, i: int, j: int)
    requires
        in_bounds(c, s),
        0 <= i < s.len(),
        0 <= j < s.len(),
    ensures
        in_bounds(swap_spec(c, i, j), swap_spec(s, i, j)),
{
    let c2 = swap_spec(c, i, j);
    let s2 = swap_spec(s, i, j);
    assert forall|k: int| 0 <= k < s2.len() implies #[trigger] c2[k] < s2[k] by {
        if k == j {
        } else if k == i {
        } else {
            assert(c2[k] == c[k] && s2[k] == s[k]);
        }
    }
}

/// Replacing one dimension scales the product accordingly.
proof fn lemma_product_update(s: Seq<usize>, i: int, v: usize)
    requires
        0 <= i < s.len(),
    ensures
        shape_product(s.update(i, v)) * s[i] == shape_product(s) * v,
    decreases s.len(),
{
    let t = s.update(i, v);
    let p = shape_product(s.drop_first());
    if i == 0 {
        assert(t.drop_first() =~= s.drop_first());
        assert(v * p * s[0] == s[0] * p * v) by (nonlinear_arith);
    } else {
        assert(t.drop_first() =~= s.drop_first().update(i - 1, v));
        lemma_product_update(s.drop_first(), i - 1, v);
        let q = shape_product(s.drop_first().update(i - 1, v));
        assert(s.drop_first()[i - 1] == s[i]);
        let x = s[0] as nat;
        assert(x * q * s[i] == x * p * v) by (nonlinear_arith)
            requires
                q * s[i] == p * v,
        ;
    }
}

/// Swapping two axes keeps the element count.
pub proof fn lemma_swap_product(s: Seq<usize>, i: int, j: int)
    requires
        0 <= i < s.len(),
        0 <= j < s.len(),
    ensures
        shape_product(swap_spec(s, i, j)) == shape_product(s),
{
    if i == j {
        assert(swap_spec(s, i, j) =~= s);
    } else {
        let t = s.update(i, s[j]);
        let u = t.update(j, s[i]);
        lemma_product_update(s, i, s[j]);
        lemma_product_update(t, j, s[i]);
        assert(t[j] == s[j]);
        if s[j] == 0 {
            lemma_product_zero(s, j);
            assert(u[i] == 0);
            lemma_product_zero(u, i);
        } else {
            let pu = shape_product(u);
            let ps = shape_product(s);
            let pt = shape_product(t);
            assert(pu == ps) by (nonlinear_arith)
                requires
                    pt * s[i] == ps * s[j],
                    pu * s[j] == pt * s[i],
                    s[j] > 0,
            ;
        }
    }
}

/// Elements of `data` (laid out with `shape`) after exchanging axes `i`
/// and `j`: output element `k` is the input element at the swapped
/// coordinates of `k`.
pub open spec fn transpose_spec<T>(data: Seq<T>, shape: Seq<usize>, i: int, j: int) -> Seq<T> {
    let out_shape = swap_spec(shape, i, j);
    Seq::new(
        shape_product(out_shape),
        |k: int| data[ravel_spec(swap_spec(unravel_spec(k, out_shape), i, j), shape)],
    )
}

/// Transposing moves elements, it does not reorder storage: the element at
/// coordinates `c` of the result (whose shape is `shape` with dimensions `i`
/// and `j` exchanged) is the element of the input at `c` with entries `i` and
/// `j` exchanged.
pub proof fn lemma_transpose_moves_elements<T>(
    data: Seq<T>,
    shape: Seq<usize>,
    i: int,
    j: int,
    c: Seq<usize>,
)
    requires
        data.len() == shape_product(shape),
        0 <= i < shape.len(),
        0 <= j < shape.len(),
        in_bounds(c, shape.update(i, shape[j]).update(j, shape[i])),
    ensures
        ravel_spec(c, shape.update(i, shape[j]).update(j, shape[i])) < shape_product(shape),
        transpose_spec(data, shape, i, j)[ravel_spec(c, shape.update(i, shape[j]).update(j, shape[i]))]
            == data[ravel_spec(c.update(i, c[j]).update(j, c[i]), shape)],
{
    let out = swap_spec(shape, i, j);
    lemma_swap_product(shape, i, j);
    lemma_ravel_bound(c, out);
    lemma_ravel_unravel(c, out);
}

/// Exchanging the same two axes twice gives back the original elements.
pub proof fn lemma_transpose_involution<T>(data: Seq<T>, shape: Seq<usize>, i: int, j: int)
    requires
        data.len() == shape_product(shape),
        0 <= i < shape.len(),
        0 <= j < shape.len(),
    ensures
        transpose_spec(transpose_spec(data, shape, i, j), swap_spec(shape, i, j), i, j) =~= data,
{
    let s2 = swap_spec(shape, i, j);
    let once = transpose_spec(data, shape, i, j);
    lemma_swap_swap(shape, i, j);
    lemma_swap_product(shape, i, j);
    let twice = transpose_spec(once, s2, i, j);
    assert(swap_spec(s2, i, j) =~= shape);
    assert forall|k: int| 0 <= k < twice.len() implies #[trigger] twice[k] == data[k] by {
        let u = unravel_spec(k, shape);
        lemma_unravel_ravel(k, shape);
        lemma_swap_in_bounds(u, shape, i, j);
        let m = ravel_spec(swap_spec(u, i, j), s2);
        lemma_ravel_bound(swap_spec(u, i, j), s2);
        lemma_ravel_unravel(swap_spec(u, i, j), s2);
        lemma_swap_swap(u, i, j);
        assert(twice[k] == once[m]);
        assert(unravel_spec(m, s2) =~= swap_spec(u, i, j));
        assert(swap_spec(unravel_spec(m, s2), i, j) =~= u);
    }
}

/// Copy of `v` with entries `i` and `j` exchanged.
fn swapped(v: &Vec<usize>, i: usize, j: usize) -> (r: Vec<usize>)
    requires
        i < v@.len(),
        j < v@.len(),
    ensures
        r@ == swap_spec(v@, i as int, j as int),
{
    let mut r = copy_dims(v.as_slice());
    let vi = v[i];
    let vj = v[j];
    r.set(i, vj);
    r.set(j, vi);
    r
}

/// Exchange axes `dim0` and `dim1`.
pub fn transpose<T: Copy>(a: &TensorCore<T>, dim0: usize, dim1: usize) -> (r: Result<
    TensorCore<T>,
    TensorError,
>)
    requires
        a.well_formed(),
    ensures
        r is Ok <==> dim0 < a.shape@.len() && dim1 < a.shape@.len(),
        r matches Ok(t) ==> {
            &&& t.well_formed()
            &&& t.shape@ == swap_spec(a.shape@, dim0 as int, dim1 as int)
            &&& t.data@ == transpose_spec(a.data@, a.shape@, dim0 as int, dim1 as int)
            &&& forall|c: Seq<usize>|
                in_bounds(c, t.shape@) ==> #[trigger] t.data@[ravel_spec(c, t.shape@)]
                    == a.data@[ravel_spec(
                    c.update(dim0 as int, c[dim1 as int]).update(dim1 as int, c[dim0 as int]),
                    a.shape@,
                )]
        },
        r matches Err(e) ==> (e matches TensorError::AxisOutOfRange { dim0: d0, dim1: d1, ndim }
            && d0 == dim0 && d1 == dim1 && ndim == a.shape@.len()),
{
    let ndim = a.shape.len();
    if dim0 >= ndim || dim1 >= ndim {
        return Err(TensorError::AxisOutOfRange { dim0, dim1, ndim });
    }
    let new_shape = swapped(&a.shape, dim0, dim1);
    proof {
        lemma_swap_product(a.shape@, dim0 as int, dim1 as int);
    }
    let n = numel(new_shape.as_slice());
    let mut out: Vec<T> = Vec::new();
    let mut k: usize = 0;
    while k < n
        invariant
            a.well_formed(),
            dim0 < a.shape@.len(),
            dim1 < a.shape@.len(),
            new_shape@ == swap_spec(a.shape@, dim0 as int, dim1 as int),
            n == shape_product(new_shape@),
            n == shape_product(a.shape@),
            shape_product(a.shape@) <= usize::MAX,
            k <= n,
            out@ =~= transpose_spec(a.data@, a.shape@, dim0 as int, dim1 as int).take(k as int),
        decreases n - k,
    {
        let coords = unravel_index(k, new_shape.as_slice());
        proof {
            lemma_swap_in_bounds(coords@, new_shape@, dim0 as int, dim1 as int);
            lemma_swap_swap(a.shape@, dim0 as int, dim1 as int);
        }
        let src_coords = swapped(&coords, dim0, dim1);
        let src = ravel_index(src_coords.as_slice(), a.shape.as_slice());
        out.push(a.data[src]);
        k += 1;
    }
    assert(transpose_spec(a.data@, a.shape@, dim0 as int, dim1 as int).take(n as int)
        =~= transpose_spec(a.data@, a.shape@, dim0 as int, dim1 as int));
    assert forall|c: Seq<usize>| in_bounds(c, new_shape@) implies #[trigger] out@[ravel_spec(
        c,
        new_shape@,
    )] == a.data@[ravel_spec(
        c.update(dim0 as int, c[dim1 as int]).update(dim1 as int, c[dim0 as int]),
        a.shape@,
    )] by {
        lemma_transpose_moves_elements(a.data@, a.shape@, dim0 as int, dim1 as int, c);
    }
    Ok(TensorCore::new(out, new_shape))
}

/// Transpose of a matrix; other ranks are rejected.
pub fn transpose_2d<T: Copy>(a: &TensorCore<T>) -> (r: Result<
    TensorCore<T>,
    TensorError,
>)
    requires
        a.well_formed(),
    ensures
        r is Ok <==> a.shape@.len() == 2,
        r matches Ok(t) ==> {
            &&& t.well_formed()
            &&& t.shape@ == seq![a.shape@[1], a.shape@[0]]
            &&& t.data@ == transpose_spec(a.data@, a.shape@, 0, 1)
        },
        r matches Err(e) ==> e == (TensorError::NotMatrix { ndim: a.shape@.len() as usize }),
{
    if a.shape.len() != 2 {
        return Err(TensorError::NotMatrix { ndim: a.shape.len() });
    }
    let ghost s = a.shape@;
    let ghost w = swap_spec(s, 0, 1);
    assert(w =~= seq![s[1], s[0]]);
    transpose(a, 0, 1)
}

// ---------------------------------------------------------------------------
// Matrix products
// ---------------------------------------------------------------------------

/// The operand shapes of a matrix product are accepted: two matrices
/// `(m, k) @ (k, n)` or two batches `(B, m, k) @ (B, k, n)`.
pub open spec fn matmul_shapes_ok(a: Seq<usize>, b: Seq<usize>) -> bool {
    ||| (a.len() == 2 && b.len() == 2 && a[1] == b[0])
    ||| (a.len() == 3 && b.len() == 3 && a[0] == b[0] && a[2] == b[1])
}

/// Output shape of an accepted matrix product: `a` with its last
/// dimension replaced by the last dimension of `b`.
pub open spec fn matmul_out_shape(a: Seq<usize>, b: Seq<usize>) -> Seq<usize> {
    a.update(a.len() - 1, b[b.len() - 1])
}

/// The error a rejected matrix product reports: rank, then batch size,
/// then contracted dimension are checked.
pub open spec fn matmul_error_spec(e: TensorError, x: Seq<usize>, y: Seq<usize>) -> bool {
    match e {
        TensorError::MatmulInner { lhs, rhs } => lhs@ == x && rhs@ == y && ((x.len() == 2
            && y.len() == 2) || (x.len() == 3 && y.len() == 3 && x[0] == y[0])),
        TensorError::MatmulBatch { lhs, rhs } => lhs@ == x && rhs@ == y && x.len() == 3 && y.len()
            == 3 && x[0] != y[0],
        TensorError::MatmulRank { lhs, rhs } => lhs@ == x && rhs@ == y && !(x.len() == 2 && y.len()
            == 2) && !(x.len() == 3 && y.len() == 3),
        _ => false,
    }
}

/// Row of `a` that output coordinates `c` contract: the last coordinate
/// runs over the contracted axis.
pub open spec fn matmul_row<T>(a_data: Seq<T>, a_shape: Seq<usize>, c: Seq<usize>) -> Seq<T> {
    let r = c.len() - 1;
    Seq::new(a_shape[r] as nat, |p: int| a_data[ravel_spec(c.update(r, p as usize), a_shape)])
}

/// Column of `b` that output coordinates `c` contract: the second to last
/// coordinate runs over the contracted axis.
pub open spec fn matmul_col<T>(b_data: Seq<T>, b_shape: Seq<usize>, c: Seq<usize>) -> Seq<T> {
    let r = c.len() - 2;
    Seq::new(b_shape[r] as nat, |p: int| b_data[ravel_spec(c.update(r, p as usize), b_shape)])
}

/// Row-major offset of coordinates in a 2-D shape.
proof fn lemma_ravel_2d(c: Seq<usize>, s: Seq<usize>)
    requires
        c.len() == 2,
        s.len() == 2,
    ensures
        ravel_spec(c, s) == c[0] * s[1] + c[1],
{
    let c1 = c.drop_last();
    let s1 = s.drop_last();
    assert(ravel_spec(c1.drop_last(), s1.drop_last()) == 0);
    assert(ravel_spec(c1, s1) == 0 * s1.last() + c1.last());
    assert(0 * (s1.last() as int) == 0) by (nonlinear_arith);
    assert(ravel_spec(c1, s1) == c[0] as int);
}

/// Row-major offset of coordinates in a 3-D shape.
proof fn lemma_ravel_3d(c: Seq<usize>, s: Seq<usize>)
    requires
        c.len() == 3,
        s.len() == 3,
    ensures
        ravel_spec(c, s) == (c[0] * s[1] + c[1]) * s[2] + c[2],
{
    lemma_ravel_2d(c.drop_last(), s.drop_last());
}

/// Matrix product of an `m x k` and a `k x n` matrix: output element
/// `(i, j)`, at offset `i * n + j`, is the kernel applied to row `i` of `a`
/// (offsets `i * k + p`) and column `j` of `b` (offsets `p * n + j`).
pub proof fn lemma_matmul_entry_2d<T>(
    a_data: Seq<T>,
    b_data: Seq<T>,
    m: usize,
    k: usize,
    n: usize,
    i: usize,
    j: usize,
)
    requires
        i < m,
        j < n,
    ensures
        ravel_spec(seq![i, j], matmul_out_shape(seq![m, k], seq![k, n])) == i * n + j,
        matmul_out_shape(seq![m, k], seq![k, n]) == seq![m, n],
        matmul_row(a_data, seq![m, k], seq![i, j]) == Seq::new(
            k as nat,
            |p: int| a_data[i * k + p],
        ),
        matmul_col(b_data, seq![k, n], seq![i, j]) == Seq::new(
            k as nat,
            |p: int| b_data[p * n + j],
        ),
{
    let a_shape = seq![m, k];
    let b_shape = seq![k, n];
    let c = seq![i, j];
    assert(matmul_out_shape(a_shape, b_shape) =~= seq![m, n]);
    lemma_ravel_2d(c, seq![m, n]);
    let row = matmul_row(a_data, a_shape, c);
    assert forall|p: int| 0 <= p < k implies #[trigger] row[p] == a_data[i * k + p] by {
        lemma_ravel_2d(c.update(1, p as usize), a_shape);
    }
    assert(row =~= Seq::new(k as nat, |p: int| a_data[i * k + p]));
    let col = matmul_col(b_data, b_shape, c);
    assert forall|p: int| 0 <= p < k implies #[trigger] col[p] == b_data[p * n + j] by {
        lemma_ravel_2d(c.update(0, p as usize), b_shape);
    }
    assert(col =~= Seq::new(k as nat, |p: int| b_data[p * n + j]));
}

/// Batched matrix product of `bs` pairs of `m x k` and `k x n` matrices:
/// output element `(bi, i, j)`, at offset `bi * m * n + i * n + j`, is the
/// kernel applied to row `i` of matrix `bi` of `a` (offsets
/// `bi * m * k + i * k + p`) and column `j` of matrix `bi` of `b` (offsets
/// `bi * k * n + p * n + j`): both operands are read in the output's batch.
pub proof fn lemma_matmul_entry_batched<T>(
    a_data: Seq<T>,
    b_data: Seq<T>,
    bs: usize,
    m: usize,
    k: usize,
    n: usize,
    bi: usize,
    i: usize,
    j: usize,
)
    requires
        bi < bs,
        i < m,
        j < n,
    ensures
        matmul_out_shape(seq![bs, m, k], seq![bs, k, n]) == seq![bs, m, n],
        ravel_spec(seq![bi, i, j], seq![bs, m, n]) == bi * m * n + i * n + j,
        matmul_row(a_data, seq![bs, m, k], seq![bi, i, j]) == Seq::new(
            k as nat,
            |p: int| a_data[bi * m * k + i * k + p],
        ),
        matmul_col(b_data, seq![bs, k, n], seq![bi, i, j]) == Seq::new(
            k as nat,
            |p: int| b_data[bi * k * n + p * n + j],
        ),
{
    let a_shape = seq![bs, m, k];
    let b_shape = seq![bs, k, n];
    let c = seq![bi, i, j];
    assert(matmul_out_shape(a_shape, b_shape) =~= seq![bs, m, n]);
    lemma_ravel_3d(c, seq![bs, m, n]);
    assert((bi * m + i) * n + j == bi * m * n + i * n + j) by (nonlinear_arith);
    let row = matmul_row(a_data, a_shape, c);
    assert forall|p: int| 0 <= p < k implies #[trigger] row[p] == a_data[bi * m * k + i * k + p] by {
        lemma_ravel_3d(c.update(2, p as usize), a_shape);
        assert((bi * m + i) * k + p == bi * m * k + i * k + p) by (nonlinear_arith);
    }
    assert(row =~= Seq::new(k as nat, |p: int| a_data[bi * m * k + i * k + p]));
    let col = matmul_col(b_data, b_shape, c);
    assert forall|p: int| 0 <= p < k implies #[trigger] col[p] == b_data[bi * k * n + p * n + j] by {
        lemma_ravel_3d(c.update(1, p as usize), b_shape);
        assert((bi * k + p) * n + j == bi * k * n + p * n + j) by (nonlinear_arith);
    }
    assert(col =~= Seq::new(k as nat, |p: int| b_data[bi * k * n + p * n + j]));
}

/// `v` is a possible result of `dot` on vectors holding `x` and `y`.
pub open spec fn dot_result<T, U, F: Fn(Vec<T>, Vec<T>) -> U>(
    dot: F,
    x: Seq<T>,
    y: Seq<T>,
    v: U,
) -> bool {
    exists|xv: Vec<T>, yv: Vec<T>| xv@ == x && yv@ == y && call_ensures(dot, (xv, yv), v)
}

/// Matrix product of two matrices or two equally sized batches of
/// matrices. Output element at coordinates `c` is `dot` of the row of `a`
/// and the column of `b` that `c` selects.
pub fn matmul<T: Copy, U, F: Fn(Vec<T>, Vec<T>) -> U>(
    a: &TensorCore<T>,
    b: &TensorCore<T>,
    dot: F,
) -> (r: Result<TensorCore<U>, TensorError>)
    requires
        a.well_formed(),
        b.well_formed(),
        forall|x: Vec<T>, y: Vec<T>| call_requires(dot, (x, y)),
        matmul_shapes_ok(a.shape@, b.shape@) ==> shape_fits(matmul_out_shape(a.shape@, b.shape@)),
    ensures
        r is Ok <==> matmul_shapes_ok(a.shape@, b.shape@),
        r matches Ok(t) ==> {
            &&& t.well_formed()
            &&& t.shape@ == matmul_out_shape(a.shape@, b.shape@)
            &&& forall|l: int|
                0 <= l < t.data@.len() ==> dot_result(
                    dot,
                    matmul_row(a.data@, a.shape@, unravel_spec(l, t.shape@)),
                    matmul_col(b.data@, b.shape@, unravel_spec(l, t.shape@)),
                    #[trigger] t.data@[l],
                )
        },
        r matches Ok(t) ==> (a.shape@.len() == 2 ==> forall|l: int|
            0 <= l < t.data@.len() ==> dot_result(
                dot,
                Seq::new(
                    a.shape@[1] as nat,
                    |p: int| a.data@[unravel_spec(l, t.shape@)[0] * a.shape@[1] + p],
                ),
                Seq::new(
                    b.shape@[0] as nat,
                    |p: int| b.data@[p * b.shape@[1] + unravel_spec(l, t.shape@)[1]],
                ),
                #[trigger] t.data@[l],
            )),
        r matches Ok(t) ==> (a.shape@.len() == 3 ==> forall|l: int|
            0 <= l < t.data@.len() ==> dot_result(
                dot,
                Seq::new(
                    a.shape@[2] as nat,
                    |p: int|
                        a.data@[unravel_spec(l, t.shape@)[0] * a.shape@[1] * a.shape@[2]
                            + unravel_spec(l, t.shape@)[1] * a.shape@[2] + p],
                ),
                Seq::new(
                    b.shape@[1] as nat,
                    |p: int|
                        b.data@[unravel_spec(l, t.shape@)[0] * b.shape@[1] * b.shape@[2] + p
                            * b.shape@[2] + unravel_spec(l, t.shape@)[2]],
                ),
                #[trigger] t.data@[l],
            )),
        r matches Err(e) ==> matmul_error_spec(e, a.shape@, b.shape@),
{
    let ra = a.shape.len();
    let rb = b.shape.len();
    if ra == 2 && rb == 2 {
        if a.shape[1] != b.shape[0] {
            return Err(TensorError::MatmulInner { lhs: a.shape_vec(), rhs: b.shape_vec() });
        }
    } else if ra == 3 && rb == 3 {
        if a.shape[0] != b.shape[0] {
            return Err(TensorError::MatmulBatch { lhs: a.shape_vec(), rhs: b.shape_vec() });
        }
        if a.shape[2] != b.shape[1] {
            return Err(TensorError::MatmulInner { lhs: a.shape_vec(), rhs: b.shape_vec() });
        }
    } else {
        return Err(TensorError::MatmulRank { lhs: a.shape_vec(), rhs: b.shape_vec() });
    }
    let last = ra - 1;
    let kdim = a.shape[last];
    let mut out_shape = a.shape_vec();
    out_shape.set(last, b.shape[rb - 1]);
    assert(out_shape@ == matmul_out_shape(a.shape@, b.shape@));
    let n = numel(out_shape.as_slice());
    let mut out: Vec<U> = Vec::new();
    let mut l: usize = 0;
    while l < n
        invariant
            a.well_formed(),
            b.well_formed(),
            forall|x: Vec<T>, y: Vec<T>| call_requires(dot, (x, y)),
            matmul_shapes_ok(a.shape@, b.shape@),
            ra == a.shape@.len(),
            rb == b.shape@.len(),
            ra == rb,
            last == ra - 1,
            kdim == a.shape@[last as int],
            shape_product(a.shape@) <= usize::MAX,
            shape_product(b.shape@) <= usize::MAX,
            out_shape@ == matmul_out_shape(a.shape@, b.shape@),
            n == shape_product(out_shape@),
            l <= n,
            out@.len() == l,
            forall|q: int|
                0 <= q < l ==> dot_result(
                    dot,
                    matmul_row(a.data@, a.shape@, unravel_spec(q, out_shape@)),
                    matmul_col(b.data@, b.shape@, unravel_spec(q, out_shape@)),
                    #[trigger] out@[q],
                ),
        decreases n - l,
    {
        let coords = unravel_index(l, out_shape.as_slice());
        let ghost c = coords@;
        let mut row: Vec<T> = Vec::new();
        let mut col: Vec<T> = Vec::new();
        let mut p: usize = 0;
        while p < kdim
            invariant
                a.well_formed(),
                b.well_formed(),
                matmul_shapes_ok(a.shape@, b.shape@),
                ra == a.shape@.len(),
                rb == b.shape@.len(),
                ra == rb,
                last == ra - 1,
                kdim == a.shape@[last as int],
                shape_product(a.shape@) <= usize::MAX,
                shape_product(b.shape@) <= usize::MAX,
                out_shape@ == matmul_out_shape(a.shape@, b.shape@),
                c == coords@,
                in_bounds(c, out_shape@),
                p <= kdim,
                row@ =~= matmul_row(a.data@, a.shape@, c).take(p as int),
                col@ =~= matmul_col(b.data@, b.shape@, c).take(p as int),
            decreases kdim - p,
        {
            let mut ca = copy_dims(coords.as_slice());
            ca.set(last, p);
            assert(in_bounds(ca@, a.shape@)) by {
                assert forall|x: int| 0 <= x < a.shape@.len() implies #[trigger] ca@[x]
                    < a.shape@[x] by {
                    if x != last {
                        assert(c[x] < out_shape@[x]);
                    }
                }
            }
            let ia = ravel_index(ca.as_slice(), a.shape.as_slice());
            row.push(a.data[ia]);
            let mut cb = copy_dims(coords.as_slice());
            cb.set(last - 1, p);
            assert(in_bounds(cb@, b.shape@)) by {
                assert forall|x: int| 0 <= x < b.shape@.len() implies #[trigger] cb@[x]
                    < b.shape@[x] by {
                    if x != last - 1 {
                        assert(c[x] < out_shape@[x]);
                    }
                }
            }
            let ib = ravel_index(cb.as_slice(), b.shape.as_slice());
            col.push(b.data[ib]);
            p += 1;
        }
        let ghost rv = row@;
        let ghost cv = col@;
        assert(rv =~= matmul_row(a.data@, a.shape@, c));
        assert(cv =~= matmul_col(b.data@, b.shape@, c));
        let v = dot(row, col);
        proof {
            assert(dot_result(dot, rv, cv, v));
        }
        out.push(v);
        l += 1;
    }
    proof {
        let os = out_shape@;
        if ra == 2 {
            let (m, k, nn) = (a.shape@[0], a.shape@[1], b.shape@[1]);
            assert(a.shape@ =~= seq![m, k]);
            assert(b.shape@ =~= seq![k, nn]);
            assert forall|q: int| 0 <= q < out@.len() implies dot_result(
                dot,
                Seq::new(k as nat, |p: int| a.data@[unravel_spec(q, os)[0] * k + p]),
                Seq::new(k as nat, |p: int| b.data@[p * nn + unravel_spec(q, os)[1]]),
                #[trigger] out@[q],
            ) by {
                let c = unravel_spec(q, os);
                lemma_unravel_ravel(q, os);
                lemma_matmul_entry_2d(a.data@, b.data@, m, k, nn, c[0], c[1]);
                assert(c =~= seq![c[0], c[1]]);
            }
        } else {
            let (bs, m, k, nn) = (a.shape@[0], a.shape@[1], a.shape@[2], b.shape@[2]);
            assert(a.shape@ =~= seq![bs, m, k]);
            assert(b.shape@ =~= seq![bs, k, nn]);
            assert forall|q: int| 0 <= q < out@.len() implies dot_result(
                dot,
                Seq::new(
                    k as nat,
                    |p: int| a.data@[unravel_spec(q, os)[0] * m * k + unravel_spec(q, os)[1] * k + p],
                ),
                Seq::new(
                    k as nat,
                    |p: int| b.data@[unravel_spec(q, os)[0] * k * nn + p * nn + unravel_spec(q, os)[2]],
                ),
                #[trigger] out@[q],
            ) by {
                let c = unravel_spec(q, os);
                lemma_unravel_ravel(q, os);
                lemma_matmul_entry_batched(a.data@, b.data@, bs, m, k, nn, c[0], c[1], c[2]);
                assert(c =~= seq![c[0], c[1], c[2]]);
            }
        }
    }
    Ok(TensorCore::new(out, out_shape))
}

} // verus!
