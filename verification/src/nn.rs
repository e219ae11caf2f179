use vstd::prelude::*;

use crate::error::TensorError;
use crate::shape::{
    lemma_ravel_concat, ravel_spec, lemma_product_2d, lemma_product_concat, lemma_product_ge_one, lemma_product_positive,
    lemma_product_single,
    numel, shape_product,
};
use crate::tensor::TensorCore;

verus! {

// ---------------------------------------------------------------------------
// Axes and lanes
// ---------------------------------------------------------------------------

/// Axis addressed by `dim` (negative counts from the end) among `ndim`.
pub open spec fn normalized_dim(dim: isize, ndim: usize) -> int {
    if dim < 0 {
        dim + ndim
    } else {
        dim as int
    }
}

/// A negative axis counts from the end (`-1` is the last axis) and a
/// non-negative one from the start; exactly the axes `-ndim..ndim` name an
/// axis of an `ndim`-dimensional tensor.
pub proof fn lemma_axis_numbering(dim: isize, ndim: usize)
    ensures
        dim < 0 ==> normalized_dim(dim, ndim) == ndim as int + dim as int,
        dim >= 0 ==> normalized_dim(dim, ndim) == dim as int,
        (0 <= normalized_dim(dim, ndim) < ndim) <==> (-(ndim as int) <= dim && dim < ndim),
        ndim > 0 ==> normalized_dim(-1isize, ndim) == ndim - 1,
{
}

/// The axis a softmax runs along: `dim`, counted from the end when
/// negative; the tensor must have at least one axis.
pub fn softmax_axis(ndim: usize, dim: isize) -> (r: Result<usize, TensorError>)
    requires
        ndim <= isize::MAX,
    ensures
        r is Ok <==> ndim > 0 && -(ndim as int) <= dim && dim < ndim,
        r matches Ok(d) ==> (dim < 0 ==> d == ndim as int + dim as int) && (dim >= 0 ==> d
            == dim),
        r is Ok <==> ndim > 0 && 0 <= normalized_dim(dim, ndim) < ndim,
        r matches Ok(d) ==> d == normalized_dim(dim, ndim),
        r matches Err(e) ==> if ndim == 0 {
            e == TensorError::SoftmaxScalar
        } else {
            e == (TensorError::SoftmaxAxis { dim, ndim })
        },
{
    if ndim == 0 {
        return Err(TensorError::SoftmaxScalar);
    }
    let mut d = dim;
    if d < 0 {
        d += ndim as isize;
    }
    if d < 0 || d >= ndim as isize {
        return Err(TensorError::SoftmaxAxis { dim, ndim });
    }
    Ok(d as usize)
}

/// Number of lanes before axis `dim` (product of the leading dimensions).
pub open spec fn axis_outer(shape: Seq<usize>, dim: int) -> nat {
    shape_product(shape.take(dim))
}

/// Distance between consecutive elements of a lane along axis `dim`
/// (product of the trailing dimensions).
pub open spec fn axis_block(shape: Seq<usize>, dim: int) -> nat {
    shape_product(shape.skip(dim + 1))
}

/// Flat offset of element `i` of lane `(o, b)` for an axis of length
/// `inner` followed by `block` elements.
pub open spec fn lane_offset(o: int, i: int, b: int, inner: int, block: int) -> int {
    (o * inner + i) * block + b
}

/// The elements of lane `lane` (numbered `o * block + b`).
pub open spec fn lane_input<T>(data: Seq<T>, inner: int, block: int, lane: int) -> Seq<T> {
    Seq::new(inner as nat, |i: int| data[lane_offset(lane / block, i, lane % block, inner, block)])
}

/// Lane of flat offset `p`.
pub open spec fn lane_of(p: int, inner: int, block: int) -> int {
    (p / (inner * block)) * block + (p % (inner * block)) % block
}

/// Position of flat offset `p` inside its lane.
pub open spec fn lane_pos(p: int, inner: int, block: int) -> int {
    (p % (inner * block)) / block
}

/// `y` is a possible result of `f` on a vector holding lane `lane`.
pub open spec fn lane_result<T, F: Fn(Vec<T>) -> Vec<T>>(
    f: F,
    data: Seq<T>,
    inner: int,
    block: int,
    lane: int,
    y: Vec<T>,
) -> bool {
    exists|x: Vec<T>| x@ == lane_input(data, inner, block, lane) && call_ensures(f, (x,), y)
}

/// `out` holds, at every offset, the matching element of the result `ys[l]`
/// of its lane `l`, each a possible result of `f` on the lane of `data`.
pub open spec fn lanes_computed<T, F: Fn(Vec<T>) -> Vec<T>>(
    f: F,
    data: Seq<T>,
    out: Seq<T>,
    inner: int,
    block: int,
    ys: Seq<Vec<T>>,
) -> bool {
    &&& forall|l: int| 0 <= l < ys.len() ==> lane_result(f, data, inner, block, l, #[trigger] ys[l])
    &&& forall|p: int| 0 <= p < out.len() ==> #[trigger] lane_entry(out, ys, inner, block, p)
}

/// Offset `q` of `out` holds its element of its lane's result.
pub open spec fn lane_entry<T>(out: Seq<T>, ys: Seq<Vec<T>>, inner: int, block: int, q: int) -> bool {
    0 <= lane_of(q, inner, block) < ys.len() && out[q] == ys[lane_of(q, inner, block)]@[lane_pos(
        q,
        inner,
        block,
    )]
}

/// A shape splits at axis `dim` into leading, axis and trailing parts.
pub proof fn lemma_axis_split(shape: Seq<usize>, dim: int)
    requires
        0 <= dim < shape.len(),
    ensures
        shape_product(shape) == axis_outer(shape, dim) * shape[dim] * axis_block(shape, dim),
{
    let a = shape.take(dim);
    let c = shape.skip(dim + 1);
    assert(shape =~= a + (seq![shape[dim]] + c));
    lemma_product_concat(a, seq![shape[dim]] + c);
    lemma_product_concat(seq![shape[dim]], c);
    lemma_product_single(shape[dim]);
    let x = shape_product(a);
    let y = shape[dim] as nat;
    let z = shape_product(c);
    assert(x * (y * z) == x * y * z) by (nonlinear_arith);
}

/// Offset `p` of a tensor split as `outer * inner * block` lies at
/// position `lane_pos` of lane `lane_of`.
pub proof fn lemma_lane_decompose(p: int, outer: int, inner: int, block: int)
    requires
        inner > 0,
        block > 0,
        0 <= p < outer * inner * block,
    ensures
        0 <= lane_of(p, inner, block) < outer * block,
        0 <= lane_pos(p, inner, block) < inner,
        lane_of(p, inner, block) / block == p / (inner * block),
        lane_of(p, inner, block) % block == (p % (inner * block)) % block,
        p == lane_offset(
            lane_of(p, inner, block) / block,
            lane_pos(p, inner, block),
            lane_of(p, inner, block) % block,
            inner,
            block,
        ),
{
    let m = inner * block;
    assert(m > 0) by (nonlinear_arith)
        requires
            inner > 0,
            block > 0,
            m == inner * block,
    ;
    let o = p / m;
    let rem = p % m;
    let b = rem % block;
    let i = rem / block;
    assert(p == o * m + rem && 0 <= rem < m) by (nonlinear_arith)
        requires
            m > 0,
            o == p / m,
            rem == p % m,
    ;
    assert(rem == i * block + b && 0 <= b < block) by (nonlinear_arith)
        requires
            block > 0,
            i == rem / block,
            b == rem % block,
            rem >= 0,
    ;
    assert(0 <= i < inner) by (nonlinear_arith)
        requires
            rem == i * block + b,
            0 <= b < block,
            0 <= rem < inner * block,
    ;
    assert(0 <= o < outer) by (nonlinear_arith)
        requires
            p == o * m + rem,
            0 <= rem < m,
            0 <= p < outer * inner * block,
            m == inner * block,
            m > 0,
    ;
    let l = o * block + b;
    vstd::arithmetic::div_mod::lemma_fundamental_div_mod_converse(l, block, o, b);
    assert(0 <= l < outer * block) by (nonlinear_arith)
        requires
            0 <= o < outer,
            0 <= b < block,
            l == o * block + b,
    ;
    assert(p == (o * inner + i) * block + b) by (nonlinear_arith)
        requires
            p == o * m + rem,
            m == inner * block,
            rem == i * block + b,
    ;
}

/// Lanes run along the axis: the element at coordinates `c` is element
/// `c[dim]` of the lane that the coordinates before and after `dim` pick
/// (numbered by their row-major offsets among the leading and among the
/// trailing axes).
pub proof fn lemma_lane_is_axis(shape: Seq<usize>, dim: int, c: Seq<usize>)
    requires
        0 <= dim < shape.len(),
        c.len() == shape.len(),
    ensures
        lane_offset(
            ravel_spec(c.take(dim), shape.take(dim)),
            c[dim] as int,
            ravel_spec(c.skip(dim + 1), shape.skip(dim + 1)),
            shape[dim] as int,
            axis_block(shape, dim) as int,
        ) == ravel_spec(c, shape),
{
    let ct = c.take(dim);
    let st = shape.take(dim);
    let cs = c.skip(dim + 1);
    let ss = shape.skip(dim + 1);
    assert(c =~= (ct + seq![c[dim]]) + cs);
    assert(shape =~= (st + seq![shape[dim]]) + ss);
    lemma_ravel_concat(ct + seq![c[dim]], st + seq![shape[dim]], cs, ss);
    lemma_ravel_concat(ct, st, seq![c[dim]], seq![shape[dim]]);
    lemma_product_single(shape[dim]);
    assert(seq![c[dim]].drop_last() =~= Seq::<usize>::empty());
    assert(seq![shape[dim]].drop_last() =~= Seq::<usize>::empty());
    assert(ravel_spec(Seq::<usize>::empty(), Seq::<usize>::empty()) == 0);
    assert(0 * (shape[dim] as int) == 0) by (nonlinear_arith);
    assert(ravel_spec(seq![c[dim]], seq![shape[dim]]) == c[dim]);
}

/// Lane offsets stay inside the tensor.
pub proof fn lemma_lane_offset_bound(o: int, i: int, b: int, outer: int, inner: int, block: int)
    requires
        0 <= o < outer,
        0 <= i < inner,
        0 <= b < block,
    ensures
        0 <= lane_offset(o, i, b, inner, block) < outer * inner * block,
{
    assert(0 <= (o * inner + i) * block + b < outer * inner * block) by (nonlinear_arith)
        requires
            0 <= o < outer,
            0 <= i < inner,
            0 <= b < block,
    ;
}

/// Replace every lane along axis `dim` by `f` of that lane: element `i`
/// of a lane becomes element `i` of `f`'s result on the lane.
pub fn map_lanes<T: Copy, F: Fn(Vec<T>) -> Vec<T>>(a: &TensorCore<T>, dim: usize, f: F) -> (t:
    TensorCore<T>)
    requires
        a.well_formed(),
        dim < a.shape@.len(),
        forall|x: Vec<T>| call_requires(f, (x,)),
        forall|x: Vec<T>, y: Vec<T>| call_ensures(f, (x,), y) ==> y@.len() == x@.len(),
    ensures
        t.well_formed(),
        t.shape@ == a.shape@,
        t.data@.len() == a.data@.len(),
        exists|ys: Seq<Vec<T>>|
            #[trigger] lanes_computed(
                f,
                a.data@,
                t.data@,
                a.shape@[dim as int] as int,
                axis_block(a.shape@, dim as int) as int,
                ys,
            ),
{
    let n = a.data.len();
    let ghost inner_g = a.shape@[dim as int] as int;
    let ghost block_g = axis_block(a.shape@, dim as int) as int;
    if n == 0 {
        let t = TensorCore::new(Vec::new(), a.shape_vec());
        assert(lanes_computed(f, a.data@, t.data@, inner_g, block_g, Seq::<Vec<T>>::empty()));
        return t;
    }
    proof {
        lemma_product_positive(a.shape@);
        lemma_axis_split(a.shape@, dim as int);
    }
    let prefix = &a.shape.as_slice()[0..dim];
    let len = a.shape.len();
    let suffix = &a.shape.as_slice()[dim + 1..len];
    let ghost outer_g = axis_outer(a.shape@, dim as int) as int;
    proof {
        assert(prefix@ =~= a.shape@.take(dim as int));
        assert(suffix@ =~= a.shape@.skip(dim + 1));
        assert forall|i: int| 0 <= i < prefix@.len() implies #[trigger] prefix@[i] > 0 by {
            assert(prefix@[i] == a.shape@[i]);
        }
        assert forall|i: int| 0 <= i < suffix@.len() implies #[trigger] suffix@[i] > 0 by {
            assert(suffix@[i] == a.shape@[i + dim + 1]);
        }
        lemma_product_ge_one(prefix@);
        lemma_product_ge_one(suffix@);
        assert(outer_g <= n && block_g <= n && inner_g <= n && inner_g > 0) by (nonlinear_arith)
            requires
                n == outer_g * inner_g * block_g,
                outer_g >= 1,
                block_g >= 1,
                inner_g >= 1,
        ;
        assert(outer_g * block_g <= n) by (nonlinear_arith)
            requires
                n == outer_g * inner_g * block_g,
                outer_g >= 1,
                block_g >= 1,
                inner_g >= 1,
        ;
    }
    let outer = numel(prefix);
    let inner = a.shape[dim];
    let block = numel(suffix);
    let nl = outer * block;
    let mut results: Vec<Vec<T>> = Vec::new();
    let mut l: usize = 0;
    while l < nl
        invariant
            a.well_formed(),
            n == a.data@.len(),
            n == outer * inner * block,
            nl == outer * block,
            inner == inner_g,
            block == block_g,
            inner > 0,
            block > 0,
            forall|x: Vec<T>| call_requires(f, (x,)),
            forall|x: Vec<T>, y: Vec<T>| call_ensures(f, (x,), y) ==> y@.len() == x@.len(),
            l <= nl,
            results@.len() == l,
            forall|k: int|
                0 <= k < l ==> lane_result(f, a.data@, inner_g, block_g, k, #[trigger] results@[k])
                    && results@[k]@.len() == inner,
        decreases nl - l,
    {
        let o = l / block;
        let b = l % block;
        proof {
            assert(o < outer) by (nonlinear_arith)
                requires
                    l < outer * block,
                    o == l / block,
                    block > 0,
            ;
        }
        let mut x: Vec<T> = Vec::new();
        let mut i: usize = 0;
        while i < inner
            invariant
                a.well_formed(),
                n == a.data@.len(),
                n == outer * inner * block,
                block > 0,
                o < outer,
                b < block,
                o == l / block,
                b == l % block,
                inner == inner_g,
                block == block_g,
                i <= inner,
                x@ =~= lane_input(a.data@, inner_g, block_g, l as int).take(i as int),
            decreases inner - i,
        {
            proof {
                lemma_lane_offset_bound(o as int, i as int, b as int, outer as int, inner as int, block as int);
                assert(o * inner + i <= (o * inner + i) * block) by (nonlinear_arith)
                    requires
                        block >= 1,
                        o >= 0,
                        inner >= 0,
                        i >= 0,
                ;
                assert(o * inner <= o * inner + i);
            }
            let idx = (o * inner + i) * block + b;
            x.push(a.data[idx]);
            i += 1;
        }
        let ghost xv = x@;
        assert(xv =~= lane_input(a.data@, inner_g, block_g, l as int));
        let y = f(x);
        proof {
            assert(lane_result(f, a.data@, inner_g, block_g, l as int, y));
        }
        results.push(y);
        l += 1;
    }
    let mut out: Vec<T> = Vec::new();
    let mut p: usize = 0;
    proof {
        assert(inner * block <= n) by (nonlinear_arith)
            requires
                n == outer * inner * block,
                outer >= 1,
                inner >= 1,
                block >= 1,
        ;
        assert(inner * block > 0) by (nonlinear_arith)
            requires
                inner >= 1,
                block >= 1,
        ;
    }
    let m = inner * block;
    while p < n
        invariant
            n == outer * inner * block,
            m == inner * block,
            m > 0,
            nl <= n,
            forall|k: int|
                0 <= k < nl ==> lane_result(f, a.data@, inner_g, block_g, k, #[trigger] results@[k]),
            nl == outer * block,
            inner == inner_g,
            block == block_g,
            inner > 0,
            block > 0,
            results@.len() == nl,
            forall|k: int| 0 <= k < nl ==> (#[trigger] results@[k])@.len() == inner,
            p <= n,
            out@.len() == p,
            forall|q: int| 0 <= q < p ==> #[trigger] lane_entry(out@, results@, inner_g, block_g, q),
        decreases n - p,
    {
        proof {
            lemma_lane_decompose(p as int, outer as int, inner as int, block as int);
        }
        let o = p / m;
        let rem = p % m;
        let lane = o * block + rem % block;
        let pos = rem / block;
        assert(lane == lane_of(p as int, inner_g, block_g));
        assert(pos == lane_pos(p as int, inner_g, block_g));
        let ghost before = out@;
        out.push(results[lane][pos]);
        assert(forall|q: int| 0 <= q < p ==> out@[q] == before[q]);
        assert(0 <= lane_of(p as int, inner_g, block_g) < nl);
        assert(out@[p as int] == results@[lane_of(p as int, inner_g, block_g)]@[lane_pos(p as int, inner_g, block_g)]);
        let ghost p0 = p;
        p += 1;
        assert forall|q: int| 0 <= q < p implies #[trigger] lane_entry(out@, results@, inner_g, block_g, q) by {
            if q < p0 {
                assert(lane_entry(before, results@, inner_g, block_g, q));
            }
        }
    }
    let t = TensorCore::new(out, a.shape_vec());
    assert(lanes_computed(f, a.data@, t.data@, inner_g, block_g, results@));
    t
}

/// Softmax-style map along axis `dim` (negative counts from the end):
/// every lane along the axis is replaced by `lane_fn` of the lane.
pub fn softmax<T: Copy, F: Fn(Vec<T>) -> Vec<T>>(a: &TensorCore<T>, dim: isize, lane_fn: F) -> (r:
    Result<TensorCore<T>, TensorError>)
    requires
        a.well_formed(),
        a.shape@.len() <= isize::MAX,
        forall|x: Vec<T>| call_requires(lane_fn, (x,)),
        forall|x: Vec<T>, y: Vec<T>| call_ensures(lane_fn, (x,), y) ==> y@.len() == x@.len(),
    ensures
        r is Ok <==> a.shape@.len() > 0 && 0 <= normalized_dim(dim, a.shape@.len() as usize)
            < a.shape@.len(),
        r is Ok <==> a.shape@.len() > 0 && -(a.shape@.len() as int) <= dim && dim < a.shape@.len(),
        r is Ok ==> normalized_dim(dim, a.shape@.len() as usize) == if dim < 0 {
            a.shape@.len() + dim
        } else {
            dim as int
        },
        r matches Ok(t) ==> {
            let d = normalized_dim(dim, a.shape@.len() as usize);
            &&& t.well_formed()
            &&& t.shape@ == a.shape@
            &&& t.data@.len() == a.data@.len()
            &&& exists|ys: Seq<Vec<T>>|
                #[trigger] lanes_computed(
                    lane_fn,
                    a.data@,
                    t.data@,
                    a.shape@[d] as int,
                    axis_block(a.shape@, d) as int,
                    ys,
                )
        },
        r matches Err(e) ==> if a.shape@.len() == 0 {
            e == TensorError::SoftmaxScalar
        } else {
            e == (TensorError::SoftmaxAxis { dim, ndim: a.shape@.len() as usize })
        },
{
    proof {
        lemma_axis_numbering(dim, a.shape@.len() as usize);
    }
    let d = softmax_axis(a.shape.len(), dim)?;
    Ok(map_lanes(a, d, lane_fn))
}

/// `y` is a possible result of `f` on block `b` (of width `w`) of `data`.
pub open spec fn block_result<T, F: Fn(Vec<T>) -> Vec<T>>(
    f: F,
    data: Seq<T>,
    w: int,
    b: int,
    y: Vec<T>,
) -> bool {
    exists|x: Vec<T>| x@ == data.subrange(b * w, b * w + w) && call_ensures(f, (x,), y)
}

/// Offset `p` of `out` holds its element of its block's result, or the
/// input element past the last whole block.
pub open spec fn block_entry<T>(out: Seq<T>, data: Seq<T>, ys: Seq<Vec<T>>, w: int, p: int) -> bool {
    if p < ys.len() * w {
        out[p] == ys[p / w]@[p % w]
    } else {
        out[p] == data[p]
    }
}

/// `out` is `data` with every whole block of width `w` replaced by `ys`.
pub open spec fn blocks_computed<T, F: Fn(Vec<T>) -> Vec<T>>(
    f: F,
    data: Seq<T>,
    out: Seq<T>,
    w: int,
    ys: Seq<Vec<T>>,
) -> bool {
    &&& ys.len() as int == data.len() as int / w
    &&& forall|b: int| 0 <= b < ys.len() ==> block_result(f, data, w, b, #[trigger] ys[b])
    &&& forall|p: int| 0 <= p < out.len() ==> #[trigger] block_entry(out, data, ys, w, p)
}

/// Layer-norm-style map: the elements are cut into consecutive blocks of
/// `product(normalized_shape)` elements and each whole block is replaced
/// by `block_fn` of it; elements past the last whole block are kept.
pub fn layer_norm<T: Copy, F: Fn(Vec<T>) -> Vec<T>>(
    a: &TensorCore<T>,
    normalized_shape: Vec<usize>,
    block_fn: F,
) -> (r: Result<TensorCore<T>, TensorError>)
    requires
        a.well_formed(),
        shape_product(normalized_shape@) <= usize::MAX,
        forall|x: Vec<T>| call_requires(block_fn, (x,)),
        forall|x: Vec<T>, y: Vec<T>| call_ensures(block_fn, (x,), y) ==> y@.len() == x@.len(),
    ensures
        r is Ok <==> shape_product(normalized_shape@) != 0 && a.shape@.len()
            >= normalized_shape@.len(),
        r matches Ok(t) ==> {
            &&& t.well_formed()
            &&& t.shape@ == a.shape@
            &&& t.data@.len() == a.data@.len()
            &&& exists|ys: Seq<Vec<T>>|
                #[trigger] blocks_computed(
                    block_fn,
                    a.data@,
                    t.data@,
                    shape_product(normalized_shape@) as int,
                    ys,
                )
        },
        r matches Err(e) ==> (e matches TensorError::LayerNormShape { normalized, shape }
            && normalized@ == normalized_shape@ && shape@ == a.shape@),
{
    let w = numel(normalized_shape.as_slice());
    if w == 0 || a.shape.len() < normalized_shape.len() {
        return Err(TensorError::LayerNormShape { normalized: normalized_shape, shape: a.shape_vec() });
    }
    let n = a.data.len();
    let nb = n / w;
    proof {
        assert(nb * w <= n) by (nonlinear_arith)
            requires
                w > 0,
                nb == n / w,
        ;
    }
    let mut results: Vec<Vec<T>> = Vec::new();
    let mut b: usize = 0;
    while b < nb
        invariant
            n == a.data@.len(),
            w > 0,
            nb == n / w,
            nb * w <= n,
            forall|x: Vec<T>| call_requires(block_fn, (x,)),
            forall|x: Vec<T>, y: Vec<T>| call_ensures(block_fn, (x,), y) ==> y@.len() == x@.len(),
            b <= nb,
            results@.len() == b,
            forall|k: int|
                0 <= k < b ==> block_result(block_fn, a.data@, w as int, k, #[trigger] results@[k])
                    && results@[k]@.len() == w,
        decreases nb - b,
    {
        proof {
            assert(b * w + w <= nb * w) by (nonlinear_arith)
                requires
                    b < nb,
                    w > 0,
            ;
        }
        let start = b * w;
        let mut x: Vec<T> = Vec::new();
        let mut i: usize = 0;
        while i < w
            invariant
                n == a.data@.len(),
                start == b * w,
                start + w <= n,
                i <= w,
                x@ =~= a.data@.subrange(start as int, start + i),
            decreases w - i,
        {
            x.push(a.data[start + i]);
            i += 1;
        }
        let ghost xv = x@;
        let y = block_fn(x);
        proof {
            assert(block_result(block_fn, a.data@, w as int, b as int, y));
        }
        results.push(y);
        b += 1;
    }
    let mut out: Vec<T> = Vec::new();
    let mut p: usize = 0;
    let full = nb * w;
    while p < n
        invariant
            n == a.data@.len(),
            w > 0,
            full == nb * w,
            full <= n,
            results@.len() == nb,
            forall|k: int| 0 <= k < nb ==> (#[trigger] results@[k])@.len() == w,
            p <= n,
            out@.len() == p,
            forall|q: int| 0 <= q < p ==> #[trigger] block_entry(out@, a.data@, results@, w as int, q),
        decreases n - p,
    {
        let ghost before = out@;
        if p < full {
            proof {
                assert(p / w < nb) by (nonlinear_arith)
                    requires
                        p < nb * w,
                        w > 0,
                ;
            }
            out.push(results[p / w][p % w]);
        } else {
            out.push(a.data[p]);
        }
        let ghost p0 = p;
        p += 1;
        assert forall|q: int| 0 <= q < p implies #[trigger] block_entry(out@, a.data@, results@, w as int, q) by {
            if q < p0 {
                assert(block_entry(before, a.data@, results@, w as int, q));
            }
        }
    }
    let t = TensorCore::new(out, a.shape_vec());
    assert(blocks_computed(block_fn, a.data@, t.data@, w as int, results@));
    Ok(t)
}

// ---------------------------------------------------------------------------
// Cross entropy
// ---------------------------------------------------------------------------

/// Rows among the first `k` whose target is not the ignored one.
pub open spec fn kept_rows(targets: Seq<i32>, ignore: Option<i32>, k: int) -> Seq<int>
    decreases k,
{
    if k <= 0 {
        Seq::empty()
    } else {
        let prev = kept_rows(targets, ignore, k - 1);
        if ignore == Some(targets[k - 1]) {
            prev
        } else {
            prev.push(k - 1)
        }
    }
}

/// The row vectors held by a vector of vectors.
/// Which rows the loss keeps: with no ignored class every row, in order;
/// with an ignored class exactly the rows whose target is another class,
/// in increasing order.
pub proof fn lemma_kept_rows(targets: Seq<i32>, ignore: Option<i32>, k: int)
    requires
        0 <= k <= targets.len(),
    ensures
        ignore is None ==> kept_rows(targets, ignore, k) == Seq::new(k as nat, |j: int| j),
        ignore matches Some(ig) ==> forall|x: int|
            #[trigger] kept_rows(targets, ignore, k).contains(x) <==> 0 <= x < k && targets[x]
                != ig,
        forall|a: int, b: int|
            0 <= a < b < kept_rows(targets, ignore, k).len() ==> #[trigger] kept_rows(
                targets,
                ignore,
                k,
            )[a] < #[trigger] kept_rows(targets, ignore, k)[b],
        forall|a: int|
            0 <= a < kept_rows(targets, ignore, k).len() ==> 0 <= #[trigger] kept_rows(
                targets,
                ignore,
                k,
            )[a] < k,
    decreases k,
{
    if k > 0 {
        lemma_kept_rows(targets, ignore, k - 1);
        let prev = kept_rows(targets, ignore, k - 1);
        let cur = kept_rows(targets, ignore, k);
        if ignore is None {
            assert(cur =~= Seq::new(k as nat, |j: int| j));
        }
        if let Some(ig) = ignore {
            assert forall|x: int| #[trigger] cur.contains(x) <==> 0 <= x < k && targets[x] != ig by {
                if targets[k - 1] != ig {
                    assert(cur == prev.push(k - 1));
                    if cur.contains(x) && x != k - 1 {
                        let q = choose|q: int| 0 <= q < cur.len() && cur[q] == x;
                        assert(q < prev.len() && prev[q] == x);
                    }
                    if prev.contains(x) {
                        let q = choose|q: int| 0 <= q < prev.len() && prev[q] == x;
                        assert(cur[q] == x);
                    }
                    if x == k - 1 {
                        assert(cur[prev.len() as int] == x);
                    }
                } else {
                    assert(cur == prev);
                }
            }
        }
    } else {
        assert(kept_rows(targets, ignore, k) =~= Seq::new(k as nat, |j: int| j));
    }
}

pub open spec fn row_views<T>(v: Seq<Vec<T>>) -> Seq<Seq<T>> {
    Seq::new(v.len(), |i: int| v[i]@)
}

/// `u` is a possible result of `f` on the logit rows and the target classes
/// of the kept rows.
pub open spec fn loss_result<T, U, F: Fn(Vec<Vec<T>>, Vec<usize>) -> U>(
    f: F,
    logits: Seq<T>,
    classes: int,
    targets: Seq<i32>,
    kept: Seq<int>,
    u: U,
) -> bool {
    exists|rv: Vec<Vec<T>>, cv: Vec<usize>|
        {
            &&& row_views(rv@) == Seq::new(
                kept.len(),
                |j: int| logits.subrange(kept[j] * classes, kept[j] * classes + classes),
            )
            &&& cv@ == Seq::new(kept.len(), |j: int| targets[kept[j]] as usize)
            &&& call_ensures(f, (rv, cv), u)
        }
}

proof fn lemma_kept_rows_bound(targets: Seq<i32>, ignore: Option<i32>, k: int)
    requires
        0 <= k,
    ensures
        forall|j: int|
            0 <= j < kept_rows(targets, ignore, k).len() ==> 0 <= #[trigger] kept_rows(
                targets,
                ignore,
                k,
            )[j] < k,
        kept_rows(targets, ignore, k).len() <= k,
    decreases k,
{
    if k > 0 {
        lemma_kept_rows_bound(targets, ignore, k - 1);
    }
}

/// Cross-entropy-style loss over rows of 2-D logits `(N, C)` with one
/// target class per row: rows whose target equals `ignore_index` are
/// skipped, every other target must name a class, and `mean_loss` gets the
/// kept rows and their classes.
pub fn cross_entropy<T: Copy, U, F: Fn(Vec<Vec<T>>, Vec<usize>) -> U>(
    logits: &TensorCore<T>,
    targets: &TensorCore<i32>,
    ignore_index: Option<i32>,
    mean_loss: F,
) -> (r: Result<TensorCore<U>, TensorError>)
    requires
        logits.well_formed(),
        targets.well_formed(),
        forall|x: Vec<Vec<T>>, y: Vec<usize>| call_requires(mean_loss, (x, y)),
    ensures
        ({
            let ls = logits.shape@;
            let ts = targets.data@;
            let kept = kept_rows(ts, ignore_index, ts.len() as int);
            let ok_shape = ls.len() == 2 && ts.len() == ls[0];
            let all_in_range = forall|j: int|
                0 <= j < kept.len() ==> (ts[#[trigger] kept[j]] as usize) < ls[1];
            &&& r is Ok <==> ok_shape && all_in_range && kept.len() > 0
            &&& r matches Ok(t) ==> {
                &&& t.well_formed()
                &&& t.shape@ == Seq::<usize>::empty()
                &&& t.data@.len() == 1
                &&& loss_result(mean_loss, logits.data@, ls[1] as int, ts, kept, t.data@[0])
            }
            &&& r matches Err(e) ==> if ls.len() != 2 {
                e == TensorError::CrossEntropyRank { ndim: ls.len() as usize }
            } else if ts.len() != ls[0] {
                e matches TensorError::TargetCount { rows, shape } && rows == ls[0] && shape@
                    == targets.shape@
            } else if !all_in_range {
                exists|j: int|
                    0 <= j < kept.len() && (ts[kept[j]] as usize) >= ls[1] && (forall|i: int|
                        0 <= i < j ==> (ts[#[trigger] kept[i]] as usize) < ls[1]) && e
                        == TensorError::TargetOutOfRange {
                        target: ts[#[trigger] kept[j]] as usize,
                        classes: ls[1],
                    }
            } else {
                e == TensorError::NoValidTargets
            }
        }),
        ignore_index is None ==> kept_rows(targets.data@, ignore_index, targets.data@.len() as int)
            == Seq::new(targets.data@.len(), |j: int| j),
        ignore_index matches Some(ig) ==> forall|x: int|
            #[trigger] kept_rows(targets.data@, ignore_index, targets.data@.len() as int).contains(x)
                <==> 0 <= x < targets.data@.len() && targets.data@[x] != ig,
{
    proof {
        lemma_kept_rows(targets.data@, ignore_index, targets.data@.len() as int);
    }
    if logits.shape.len() != 2 {
        return Err(TensorError::CrossEntropyRank { ndim: logits.shape.len() });
    }
    let n = logits.shape[0];
    let c = logits.shape[1];
    proof {
        lemma_product_2d(logits.shape@);
    }
    if targets.numel() != n {
        return Err(TensorError::TargetCount { rows: n, shape: targets.shape_vec() });
    }
    let ghost ts = targets.data@;
    let mut rows: Vec<Vec<T>> = Vec::new();
    let mut classes: Vec<usize> = Vec::new();
    let mut row: usize = 0;
    while row < n
        invariant
            ignore_index is None ==> kept_rows(ts, ignore_index, ts.len() as int) == Seq::new(
                ts.len(),
                |j: int| j,
            ),
            ignore_index matches Some(ig) ==> forall|x: int|
                #[trigger] kept_rows(ts, ignore_index, ts.len() as int).contains(x) <==> 0 <= x
                    < ts.len() && ts[x] != ig,
            logits.shape@.len() == 2,
            n == logits.shape@[0],
            c == logits.shape@[1],
            logits.data@.len() == n * c,
            n * c <= usize::MAX,
            ts == targets.data@,
            ts.len() == n,
            row <= n,
            forall|j: int|
                0 <= j < kept_rows(ts, ignore_index, row as int).len() ==> (ts[#[trigger] kept_rows(
                    ts,
                    ignore_index,
                    row as int,
                )[j]] as usize) < c,
            row_views(rows@) =~= Seq::new(
                kept_rows(ts, ignore_index, row as int).len(),
                |j: int|
                    logits.data@.subrange(
                        kept_rows(ts, ignore_index, row as int)[j] * c,
                        kept_rows(ts, ignore_index, row as int)[j] * c + c,
                    ),
            ),
            classes@ =~= Seq::new(
                kept_rows(ts, ignore_index, row as int).len(),
                |j: int| ts[kept_rows(ts, ignore_index, row as int)[j]] as usize,
            ),
        decreases n - row,
    {
        let target = targets.data[row];
        let ignored = match ignore_index {
            Some(ig) => ig == target,
            None => false,
        };
        assert(ignored == (ignore_index == Some(ts[row as int])));
        if !ignored {
            let target_class = target as usize;
            if target_class >= c {
                proof {
                    let kept = kept_rows(ts, ignore_index, row as int + 1);
                    let j = kept.len() - 1;
                    assert(kept[j] == row);
                    lemma_kept_rows_prefix(ts, ignore_index, row as int + 1, n as int);
                    let all = kept_rows(ts, ignore_index, n as int);
                    assert(all[j] == row);
                    assert(forall|i: int| 0 <= i < j ==> all[i] == kept[i]);
                    assert(forall|i: int| 0 <= i < j ==> kept[i] == kept_rows(ts, ignore_index, row as int)[i]);
                    assert(0 <= j < all.len() && (ts[all[j]] as usize) >= c && (forall|i: int|
                        0 <= i < j ==> (ts[#[trigger] all[i]] as usize) < c) && TensorError::TargetOutOfRange { target: target_class, classes: c }
                        == TensorError::TargetOutOfRange {
                        target: ts[all[j]] as usize,
                        classes: c,
                    });
                    assert(!(forall|i: int| 0 <= i < all.len() ==> (ts[#[trigger] all[i]] as usize) < c));
                    assert(exists|j: int|
                    0 <= j < all.len() && (ts[all[j]] as usize) >= c && (forall|i: int|
                        0 <= i < j ==> (ts[#[trigger] all[i]] as usize) < c) && TensorError::TargetOutOfRange { target: target_class, classes: c }
                        == TensorError::TargetOutOfRange {
                        target: ts[#[trigger] all[j]] as usize,
                        classes: c,
                    });
                }
                return Err(TensorError::TargetOutOfRange { target: target_class, classes: c });
            }
            proof {
                assert(row * c + c <= n * c) by (nonlinear_arith)
                    requires
                        row < n,
                ;
            }
            let start = row * c;
            let mut x: Vec<T> = Vec::new();
            let mut i: usize = 0;
            while i < c
                invariant
                    logits.data@.len() == n * c,
                    n * c <= usize::MAX,
                    start == row * c,
                    start + c <= n * c,
                    i <= c,
                    x@ =~= logits.data@.subrange(start as int, start + i),
                decreases c - i,
            {
                x.push(logits.data[start + i]);
                i += 1;
            }
            let ghost prev_rows = rows@;
            let ghost xv = x@;
            rows.push(x);
            classes.push(target_class);
            proof {
                let k0 = kept_rows(ts, ignore_index, row as int);
                let k1 = kept_rows(ts, ignore_index, row as int + 1);
                assert(k1 == k0.push(row as int));
                assert(row_views(rows@) =~= row_views(prev_rows).push(xv));
            }
        } else {
            proof {
                assert(kept_rows(ts, ignore_index, row as int + 1) == kept_rows(ts, ignore_index, row as int));
            }
        }
        row += 1;
    }
    proof {
        assert(ts.take(n as int) =~= ts);
    }
    if rows.len() == 0 {
        return Err(TensorError::NoValidTargets);
    }
    let ghost rv = rows@;
    let ghost cv = classes@;
    let loss = mean_loss(rows, classes);
    proof {
        assert(loss_result(
            mean_loss,
            logits.data@,
            c as int,
            ts,
            kept_rows(ts, ignore_index, n as int),
            loss,
        ));
    }
    let mut data: Vec<U> = Vec::new();
    data.push(loss);
    Ok(TensorCore::new(data, Vec::new()))
}

proof fn lemma_kept_rows_prefix(targets: Seq<i32>, ignore: Option<i32>, k: int, m: int)
    requires
        0 <= k <= m,
    ensures
        kept_rows(targets, ignore, k).len() <= kept_rows(targets, ignore, m).len(),
        forall|j: int|
            0 <= j < kept_rows(targets, ignore, k).len() ==> #[trigger] kept_rows(
                targets,
                ignore,
                m,
            )[j] == kept_rows(targets, ignore, k)[j],
    decreases m - k,
{
    if m > k {
        lemma_kept_rows_prefix(targets, ignore, k, m - 1);
    }
}

} // verus!
