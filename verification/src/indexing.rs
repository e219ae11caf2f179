use vstd::prelude::*;

use crate::error::TensorError;
use crate::shape::{
    in_bounds, lemma_product_1d, lemma_product_2d, lemma_product_concat, lemma_ravel_bound,
    lemma_ravel_unravel, lemma_unravel_ravel,
    numel, ravel_index, ravel_spec, shape_product, unravel_index, unravel_spec,
};
use crate::tensor::{shape_fits, TensorCore};

verus! {

// ---------------------------------------------------------------------------
// Single indices
// ---------------------------------------------------------------------------

/// Position addressed by index `idx` on an axis of size `dim`, counting
/// from the end when negative.
pub open spec fn normalized(idx: isize, dim: usize) -> int {
    if idx < 0 {
        idx + dim
    } else {
        idx as int
    }
}

/// Resolve a possibly negative index on an axis of size `dim`.
pub fn normalize_index(idx: isize, dim: usize) -> (r: Result<usize, TensorError>)
    requires
        dim <= isize::MAX,
    ensures
        r is Ok <==> 0 <= normalized(idx, dim) < dim,
        r matches Ok(i) ==> i == normalized(idx, dim),
        r matches Err(e) ==> e == (TensorError::IndexOutOfRange { index: idx, size: dim }),
{
    let d = dim as isize;
    let mut i = idx;
    if i < 0 {
        i += d;
    }
    if i < 0 || i >= d {
        return Err(TensorError::IndexOutOfRange { index: idx, size: dim });
    }
    Ok(i as usize)
}

// ---------------------------------------------------------------------------
// Slices
// ---------------------------------------------------------------------------

/// Distance still to travel from `i` towards `stop` with `step`.
pub open spec fn slice_remaining(i: int, stop: int, step: int) -> int {
    if step > 0 && i < stop {
        stop - i
    } else if step < 0 && i > stop {
        i - stop
    } else {
        0
    }
}

/// Positions visited from `i` towards `stop` (exclusive) by `step`,
/// keeping those inside `[0, dim)`.
pub open spec fn slice_seq(i: int, stop: int, step: int, dim: int) -> Seq<usize>
    decreases slice_remaining(i, stop, step),
{
    if slice_remaining(i, stop, step) > 0 {
        let here = if 0 <= i < dim {
            seq![i as usize]
        } else {
            Seq::<usize>::empty()
        };
        here + slice_seq(i + step, stop, step, dim)
    } else {
        Seq::empty()
    }
}

/// Every position of a slice is inside the axis, the positions move
/// strictly in the direction of the step, and so there are at most `dim`.
pub proof fn lemma_slice_seq_props(i: int, stop: int, step: int, dim: int)
    requires
        step != 0,
        0 <= dim <= usize::MAX,
    ensures
        ({
            let s = slice_seq(i, stop, step, dim);
            &&& forall|k: int| 0 <= k < s.len() ==> #[trigger] s[k] < dim
            &&& forall|k: int|
                0 <= k < s.len() ==> (if step > 0 {
                    i <= #[trigger] s[k]
                } else {
                    s[k] <= i
                })
            &&& forall|a: int, b: int|
                0 <= a < b < s.len() ==> (if step > 0 {
                    #[trigger] s[a] < #[trigger] s[b]
                } else {
                    s[a] > s[b]
                })
            &&& s.len() <= dim
        }),
    decreases slice_remaining(i, stop, step),
{
    let s = slice_seq(i, stop, step, dim);
    if slice_remaining(i, stop, step) > 0 {
        lemma_slice_seq_props(i + step, stop, step, dim);
        let rest = slice_seq(i + step, stop, step, dim);
        let here = if 0 <= i < dim {
            seq![i as usize]
        } else {
            Seq::<usize>::empty()
        };
        assert(s == here + rest);
        if 0 <= i < dim {
            assert(here[0] == i);
        }
        assert forall|k: int| 0 <= k < s.len() implies #[trigger] s[k] < dim by {
            if k >= here.len() {
                assert(s[k] == rest[k - here.len()]);
            }
        }
        assert forall|k: int|
            0 <= k < s.len() implies (if step > 0 {
                i <= #[trigger] s[k]
            } else {
                s[k] <= i
            }) by {
            if k >= here.len() {
                assert(s[k] == rest[k - here.len()]);
            }
        }
        assert forall|a: int, b: int|
            0 <= a < b < s.len() implies (if step > 0 {
                #[trigger] s[a] < #[trigger] s[b]
            } else {
                s[a] > s[b]
            }) by {
            assert(s[b] == rest[b - here.len()]);
            if a >= here.len() {
                assert(s[a] == rest[a - here.len()]);
            }
        }
        if s.len() > 0 {
            let last = s.len() - 1;
            if step > 0 {
                assert forall|k: int| 0 <= k < s.len() implies k <= #[trigger] s[k] - s[0] by {
                    lemma_increasing_gap(s, k);
                }
                assert(last <= s[last] - s[0]);
            } else {
                assert forall|k: int| 0 <= k < s.len() implies k <= s[0] - #[trigger] s[k] by {
                    lemma_decreasing_gap(s, k);
                }
                assert(last <= s[0] - s[last]);
            }
        }
    }
}

proof fn lemma_increasing_gap(s: Seq<usize>, k: int)
    requires
        0 <= k < s.len(),
        forall|a: int, b: int| 0 <= a < b < s.len() ==> #[trigger] s[a] < #[trigger] s[b],
    ensures
        k <= s[k] - s[0],
    decreases k,
{
    if k > 0 {
        lemma_increasing_gap(s, k - 1);
        assert(s[k - 1] < s[k]);
    }
}

proof fn lemma_decreasing_gap(s: Seq<usize>, k: int)
    requires
        0 <= k < s.len(),
        forall|a: int, b: int| 0 <= a < b < s.len() ==> #[trigger] s[a] > #[trigger] s[b],
    ensures
        k <= s[0] - s[k],
    decreases k,
{
    if k > 0 {
        lemma_decreasing_gap(s, k - 1);
        assert(s[k - 1] > s[k]);
    }
}

/// Positions of a slice resolved against an axis of size `dim` (start,
/// stop and step as Python's `slice.indices` gives them).
pub fn slice_coords(start: isize, stop: isize, step: isize, dim: usize) -> (r: Result<
    Vec<usize>,
    TensorError,
>)
    requires
        dim <= isize::MAX,
    ensures
        r is Ok <==> step != 0,
        r matches Ok(v) ==> v@ == slice_seq(start as int, stop as int, step as int, dim as int),
        r matches Err(e) ==> e == TensorError::ZeroStep,
{
    if step == 0 {
        return Err(TensorError::ZeroStep);
    }
    let len = dim as i128;
    let stop_w = stop as i128;
    let step_w = step as i128;
    let mut coords: Vec<usize> = Vec::new();
    let mut i = start as i128;
    while (step_w > 0 && i < stop_w) || (step_w < 0 && i > stop_w)
        invariant
            step_w == step,
            stop_w == stop,
            len == dim,
            dim <= isize::MAX,
            step != 0,
            isize::MIN - isize::MAX <= i <= isize::MAX - isize::MIN,
            coords@ + slice_seq(i as int, stop as int, step as int, dim as int) =~= slice_seq(
                start as int,
                stop as int,
                step as int,
                dim as int,
            ),
        decreases slice_remaining(i as int, stop as int, step as int),
    {
        let ghost old_coords = coords@;
        if i >= 0 && i < len {
            coords.push(i as usize);
        }
        proof {
            let rest = slice_seq(i + step, stop as int, step as int, dim as int);
            let here = if 0 <= i < dim {
                seq![i as usize]
            } else {
                Seq::<usize>::empty()
            };
            assert(slice_seq(i as int, stop as int, step as int, dim as int) == here + rest);
            assert(coords@ =~= old_coords + here);
            assert(old_coords + (here + rest) =~= (old_coords + here) + rest);
        }
        i = i + step_w;
    }
    Ok(coords)
}

// ---------------------------------------------------------------------------
// Selecting positions along every axis
// ---------------------------------------------------------------------------

/// The position lists held by a vector of vectors.
pub open spec fn vec_views(v: Seq<Vec<usize>>) -> Seq<Seq<usize>> {
    Seq::new(v.len(), |i: int| v[i]@)
}

/// Lengths of the position lists, one per axis.
pub open spec fn coord_lens(cs: Seq<Seq<usize>>) -> Seq<usize> {
    Seq::new(cs.len(), |d: int| cs[d].len() as usize)
}

/// Coordinates picked by output coordinates `u`: axis `d` takes the
/// `u[d]`-th position listed for it.
pub open spec fn pick(cs: Seq<Seq<usize>>, u: Seq<usize>) -> Seq<usize> {
    Seq::new(cs.len(), |d: int| cs[d][u[d] as int])
}

/// One list of positions per axis, each position inside its axis and no
/// list longer than its axis.
pub open spec fn valid_axis_coords(cs: Seq<Seq<usize>>, shape: Seq<usize>) -> bool {
    &&& cs.len() == shape.len()
    &&& forall|d: int| 0 <= d < shape.len() ==> #[trigger] cs[d].len() <= shape[d]
    &&& forall|d: int, x: int|
        0 <= d < shape.len() && 0 <= x < cs[d].len() ==> #[trigger] cs[d][x] < shape[d]
}

/// Elements of `data` (laid out with `shape`) at every combination of the
/// listed positions, in row-major order of the combinations.
pub open spec fn select_spec<T>(data: Seq<T>, shape: Seq<usize>, cs: Seq<Seq<usize>>) -> Seq<T> {
    let out_shape = coord_lens(cs);
    Seq::new(
        shape_product(out_shape),
        |q: int| data[ravel_spec(pick(cs, unravel_spec(q, out_shape)), shape)],
    )
}

/// Dimension-wise smaller shapes have smaller products.
pub proof fn lemma_product_monotone(a: Seq<usize>, b: Seq<usize>)
    requires
        a.len() == b.len(),
        forall|i: int| 0 <= i < a.len() ==> #[trigger] a[i] <= b[i],
    ensures
        shape_product(a) <= shape_product(b),
    decreases a.len(),
{
    if a.len() > 0 {
        assert forall|i: int| 0 <= i < a.drop_first().len() implies #[trigger] a.drop_first()[i]
            <= b.drop_first()[i] by {
            assert(a.drop_first()[i] == a[i + 1]);
            assert(b.drop_first()[i] == b[i + 1]);
        }
        lemma_product_monotone(a.drop_first(), b.drop_first());
        let x = a[0] as nat;
        let y = b[0] as nat;
        let p = shape_product(a.drop_first());
        let q = shape_product(b.drop_first());
        assert(x * p <= y * q) by (nonlinear_arith)
            requires
                x <= y,
                p <= q,
        ;
    }
}

/// Picked coordinates of valid output coordinates are valid coordinates.
pub proof fn lemma_pick_in_bounds(cs: Seq<Seq<usize>>, shape: Seq<usize>, u: Seq<usize>)
    requires
        valid_axis_coords(cs, shape),
        in_bounds(u, coord_lens(cs)),
    ensures
        in_bounds(pick(cs, u), shape),
{
    let p = pick(cs, u);
    assert forall|d: int| 0 <= d < shape.len() implies #[trigger] p[d] < shape[d] by {
        assert(u[d] < coord_lens(cs)[d]);
        assert(cs[d][u[d] as int] < shape[d]);
    }
}

/// The elements at every combination of the listed positions.
pub fn gather<T: Copy>(a: &TensorCore<T>, coords: &Vec<Vec<usize>>) -> (t: TensorCore<T>)
    requires
        a.well_formed(),
        valid_axis_coords(vec_views(coords@), a.shape@),
    ensures
        t.well_formed(),
        t.shape@ == coord_lens(vec_views(coords@)),
        t.data@ == select_spec(a.data@, a.shape@, vec_views(coords@)),
{
    let ghost cs = vec_views(coords@);
    let nd = coords.len();
    let mut out_shape: Vec<usize> = Vec::new();
    let mut d: usize = 0;
    while d < nd
        invariant
            nd == coords@.len(),
            cs == vec_views(coords@),
            d <= nd,
            out_shape@ =~= coord_lens(cs).take(d as int),
        decreases nd - d,
    {
        out_shape.push(coords[d].len());
        d += 1;
    }
    assert(out_shape@ =~= coord_lens(cs));
    proof {
        lemma_product_monotone(out_shape@, a.shape@);
    }
    let n = numel(out_shape.as_slice());
    let mut out: Vec<T> = Vec::new();
    let mut q: usize = 0;
    while q < n
        invariant
            a.well_formed(),
            cs == vec_views(coords@),
            nd == coords@.len(),
            valid_axis_coords(cs, a.shape@),
            shape_product(a.shape@) <= usize::MAX,
            out_shape@ == coord_lens(cs),
            n == shape_product(out_shape@),
            q <= n,
            out@ =~= select_spec(a.data@, a.shape@, cs).take(q as int),
        decreases n - q,
    {
        let u = unravel_index(q, out_shape.as_slice());
        let mut picked: Vec<usize> = Vec::new();
        let mut k: usize = 0;
        while k < nd
            invariant
                cs == vec_views(coords@),
                nd == coords@.len(),
                valid_axis_coords(cs, a.shape@),
                out_shape@ == coord_lens(cs),
                in_bounds(u@, out_shape@),
                k <= nd,
                picked@ =~= pick(cs, u@).take(k as int),
            decreases nd - k,
        {
            assert(u@[k as int] < coord_lens(cs)[k as int]);
            picked.push(coords[k][u[k]]);
            k += 1;
        }
        assert(picked@ =~= pick(cs, u@));
        proof {
            lemma_pick_in_bounds(cs, a.shape@, u@);
        }
        let src = ravel_index(picked.as_slice(), a.shape.as_slice());
        out.push(a.data[src]);
        q += 1;
    }
    assert(select_spec(a.data@, a.shape@, cs).take(n as int) =~= select_spec(
        a.data@,
        a.shape@,
        cs,
    ));
    TensorCore::new(out, out_shape)
}

// ---------------------------------------------------------------------------
// Indexing with a single index, a slice or a tuple of them
// ---------------------------------------------------------------------------

/// One entry of an index tuple: the whole axis, one position, or a slice
/// already resolved against the axis length.
#[derive(Clone, Copy, Debug)]
pub enum IndexItem {
    Full,
    At(isize),
    Range { start: isize, stop: isize, step: isize },
}

/// All positions of an axis of size `n`.
pub open spec fn range_seq(n: usize) -> Seq<usize> {
    Seq::new(n as nat, |x: int| x as usize)
}

/// Positions one index tuple entry selects on an axis of size `dim`.
pub open spec fn item_coords(item: IndexItem, dim: usize) -> Result<Seq<usize>, TensorError> {
    match item {
        IndexItem::Full => Ok(range_seq(dim)),
        IndexItem::At(idx) => if 0 <= normalized(idx, dim) < dim {
            Ok(seq![normalized(idx, dim) as usize])
        } else {
            Err(TensorError::IndexOutOfRange { index: idx, size: dim })
        },
        IndexItem::Range { start, stop, step } => if step == 0 {
            Err(TensorError::ZeroStep)
        } else {
            Ok(slice_seq(start as int, stop as int, step as int, dim as int))
        },
    }
}

/// The entry of an index tuple for axis `d`; axes past the tuple are whole.
pub open spec fn item_at(items: Seq<IndexItem>, d: int) -> IndexItem {
    if d < items.len() {
        items[d]
    } else {
        IndexItem::Full
    }
}

/// Positions selected on the first `k` axes, or the first error met.
pub open spec fn tuple_coords(items: Seq<IndexItem>, shape: Seq<usize>, k: int) -> Result<
    Seq<Seq<usize>>,
    TensorError,
>
    decreases k,
{
    if k <= 0 {
        Ok(Seq::empty())
    } else {
        match tuple_coords(items, shape, k - 1) {
            Err(e) => Err(e),
            Ok(cs) => match item_coords(item_at(items, k - 1), shape[k - 1]) {
                Err(e) => Err(e),
                Ok(c) => Ok(cs.push(c)),
            },
        }
    }
}

proof fn lemma_tuple_coords_err(items: Seq<IndexItem>, shape: Seq<usize>, k: int, m: int)
    requires
        0 <= k <= m,
        tuple_coords(items, shape, k) is Err,
    ensures
        tuple_coords(items, shape, m) == tuple_coords(items, shape, k),
    decreases m - k,
{
    if m > k {
        lemma_tuple_coords_err(items, shape, k, m - 1);
    }
}

proof fn lemma_item_coords_valid(item: IndexItem, dim: usize)
    requires
        item_coords(item, dim) is Ok,
    ensures
        item_coords(item, dim)->Ok_0.len() <= dim,
        forall|x: int|
            0 <= x < item_coords(item, dim)->Ok_0.len() ==> #[trigger] item_coords(
                item,
                dim,
            )->Ok_0[x] < dim,
{
    match item {
        IndexItem::Range { start, stop, step } => {
            lemma_slice_seq_props(start as int, stop as int, step as int, dim as int);
        },
        _ => {},
    }
}

proof fn lemma_tuple_coords_valid(items: Seq<IndexItem>, shape: Seq<usize>, k: int)
    requires
        0 <= k <= shape.len(),
        tuple_coords(items, shape, k) is Ok,
    ensures
        valid_axis_coords(tuple_coords(items, shape, k)->Ok_0, shape.take(k)),
    decreases k,
{
    if k > 0 {
        lemma_tuple_coords_valid(items, shape, k - 1);
        lemma_item_coords_valid(item_at(items, k - 1), shape[k - 1]);
        let cs = tuple_coords(items, shape, k)->Ok_0;
        let prev = tuple_coords(items, shape, k - 1)->Ok_0;
        assert(cs == prev.push(item_coords(item_at(items, k - 1), shape[k - 1])->Ok_0));
        assert forall|d: int| 0 <= d < k implies #[trigger] cs[d].len() <= shape.take(k)[d] by {
            if d < k - 1 {
                assert(cs[d] == prev[d]);
                assert(shape.take(k - 1)[d] == shape.take(k)[d]);
            }
        }
        assert forall|d: int, x: int|
            0 <= d < k && 0 <= x < cs[d].len() implies #[trigger] cs[d][x] < shape.take(k)[d] by {
            if d < k - 1 {
                assert(cs[d] == prev[d]);
                assert(shape.take(k - 1)[d] == shape.take(k)[d]);
            }
        }
    }
}

/// All positions of an axis.
fn full_range(n: usize) -> (v: Vec<usize>)
    ensures
        v@ == range_seq(n),
{
    let mut v: Vec<usize> = Vec::new();
    let mut i: usize = 0;
    while i < n
        invariant
            i <= n,
            v@ =~= range_seq(n).take(i as int),
        decreases n - i,
    {
        v.push(i);
        i += 1;
    }
    assert(range_seq(n).take(n as int) =~= range_seq(n));
    v
}

/// Positions one index tuple entry selects on an axis of size `dim`.
pub fn axis_coords(item: IndexItem, dim: usize) -> (r: Result<Vec<usize>, TensorError>)
    requires
        dim <= isize::MAX,
    ensures
        r is Ok <==> item_coords(item, dim) is Ok,
        r matches Ok(v) ==> item_coords(item, dim) == Ok::<Seq<usize>, TensorError>(v@),
        r matches Err(e) ==> item_coords(item, dim) == Err::<Seq<usize>, TensorError>(e),
{
    match item {
        IndexItem::Full => Ok(full_range(dim)),
        IndexItem::At(idx) => {
            let i = normalize_index(idx, dim)?;
            let mut v: Vec<usize> = Vec::new();
            v.push(i);
            assert(v@ =~= seq![normalized(idx, dim) as usize]);
            Ok(v)
        },
        IndexItem::Range { start, stop, step } => slice_coords(start, stop, step, dim),
    }
}

/// Every axis of `shape` can be addressed by an `isize`.
pub open spec fn axes_addressable(shape: Seq<usize>) -> bool {
    forall|d: int| 0 <= d < shape.len() ==> #[trigger] shape[d] <= isize::MAX
}

/// Element `idx` (possibly negative) of a 1-D tensor, as a 0-D tensor.
pub fn getitem_int<T: Copy>(a: &TensorCore<T>, idx: isize) -> (r: Result<
    TensorCore<T>,
    TensorError,
>)
    requires
        a.well_formed(),
        axes_addressable(a.shape@),
    ensures
        r is Ok <==> a.shape@.len() == 1 && 0 <= normalized(idx, a.shape@[0]) < a.shape@[0],
        r matches Ok(t) ==> t.well_formed() && t.shape@ == Seq::<usize>::empty() && t.data@
            == seq![a.data@[normalized(idx, a.shape@[0])]],
        r matches Err(e) ==> if a.shape@.len() != 1 {
            e == TensorError::NeedsTupleIndex { ndim: a.shape@.len() as usize }
        } else {
            e == TensorError::IndexOutOfRange { index: idx, size: a.shape@[0] }
        },
{
    if a.shape.len() != 1 {
        return Err(TensorError::NeedsTupleIndex { ndim: a.shape.len() });
    }
    let i = normalize_index(idx, a.shape[0])?;
    proof {
        lemma_product_1d(a.shape@);
    }
    let mut data: Vec<T> = Vec::new();
    data.push(a.data[i]);
    Ok(TensorCore::new(data, Vec::new()))
}

/// Elements of a 1-D tensor at the positions of a resolved slice.
pub fn getitem_slice_1d<T: Copy>(a: &TensorCore<T>, start: isize, stop: isize, step: isize) -> (r:
    Result<TensorCore<T>, TensorError>)
    requires
        a.well_formed(),
        axes_addressable(a.shape@),
    ensures
        r is Ok <==> a.shape@.len() == 1 && step != 0,
        r matches Ok(t) ==> {
            let c = slice_seq(start as int, stop as int, step as int, a.shape@[0] as int);
            &&& t.well_formed()
            &&& t.shape@ == seq![c.len() as usize]
            &&& t.data@ == Seq::new(c.len(), |x: int| a.data@[c[x] as int])
        },
        r matches Err(e) ==> if a.shape@.len() != 1 {
            e == TensorError::SliceNeedsTupleIndex { ndim: a.shape@.len() as usize }
        } else {
            e == TensorError::ZeroStep
        },
{
    if a.shape.len() != 1 {
        return Err(TensorError::SliceNeedsTupleIndex { ndim: a.shape.len() });
    }
    let dim = a.shape[0];
    let coords = slice_coords(start, stop, step, dim)?;
    let ghost c = coords@;
    proof {
        lemma_slice_seq_props(start as int, stop as int, step as int, dim as int);
        lemma_product_1d(a.shape@);
    }
    let mut data: Vec<T> = Vec::new();
    let mut i: usize = 0;
    while i < coords.len()
        invariant
            a.well_formed(),
            a.shape@.len() == 1,
            dim == a.shape@[0],
            a.data@.len() == dim,
            c == coords@,
            forall|k: int| 0 <= k < c.len() ==> #[trigger] c[k] < dim,
            i <= c.len(),
            data@ =~= Seq::new(c.len(), |x: int| a.data@[c[x] as int]).take(i as int),
        decreases c.len() - i,
    {
        data.push(a.data[coords[i]]);
        i += 1;
    }
    let mut shape: Vec<usize> = Vec::new();
    shape.push(coords.len());
    proof {
        lemma_product_1d(shape@);
    }
    let t = TensorCore::new(data, shape);
    assert(t.data@ =~= Seq::new(c.len(), |x: int| a.data@[c[x] as int]));
    Ok(t)
}

/// Elements at every combination of the positions an index tuple selects
/// (1-D and 2-D tensors).
pub fn getitem_tuple<T: Copy>(a: &TensorCore<T>, items: &Vec<IndexItem>) -> (r: Result<
    TensorCore<T>,
    TensorError,
>)
    requires
        a.well_formed(),
        axes_addressable(a.shape@),
    ensures
        r is Ok <==> items@.len() <= a.shape@.len() && tuple_coords(
            items@,
            a.shape@,
            a.shape@.len() as int,
        ) is Ok && (a.shape@.len() == 1 || a.shape@.len() == 2),
        r matches Ok(t) ==> {
            let cs = tuple_coords(items@, a.shape@, a.shape@.len() as int)->Ok_0;
            &&& t.well_formed()
            &&& t.shape@ == coord_lens(cs)
            &&& t.data@ == select_spec(a.data@, a.shape@, cs)
        },
        r matches Err(e) ==> if items@.len() > a.shape@.len() {
            e == TensorError::TooManyIndices {
                given: items@.len() as usize,
                ndim: a.shape@.len() as usize,
            }
        } else if tuple_coords(items@, a.shape@, a.shape@.len() as int) is Err {
            tuple_coords(items@, a.shape@, a.shape@.len() as int) == Err::<
                Seq<Seq<usize>>,
                TensorError,
            >(e)
        } else {
            e == TensorError::TupleIndexRank { ndim: a.shape@.len() as usize }
        },
{
    let ndim = a.shape.len();
    if items.len() > ndim {
        return Err(TensorError::TooManyIndices { given: items.len(), ndim });
    }
    let mut coords: Vec<Vec<usize>> = Vec::new();
    assert(vec_views(coords@) =~= Seq::<Seq<usize>>::empty());
    let mut d: usize = 0;
    while d < ndim
        invariant
            a.well_formed(),
            axes_addressable(a.shape@),
            ndim == a.shape@.len(),
            items@.len() <= ndim,
            d <= ndim,
            tuple_coords(items@, a.shape@, d as int) == Ok::<Seq<Seq<usize>>, TensorError>(
                vec_views(coords@),
            ),
        decreases ndim - d,
    {
        let item = if d < items.len() {
            items[d]
        } else {
            IndexItem::Full
        };
        assert(item == item_at(items@, d as int));
        let c = match axis_coords(item, a.shape[d]) {
            Ok(c) => c,
            Err(e) => {
                proof {
                    lemma_tuple_coords_err(items@, a.shape@, d + 1, ndim as int);
                }
                return Err(e);
            },
        };
        let ghost prev = vec_views(coords@);
        coords.push(c);
        assert(vec_views(coords@) =~= prev.push(c@));
        d += 1;
    }
    if ndim != 1 && ndim != 2 {
        return Err(TensorError::TupleIndexRank { ndim });
    }
    proof {
        lemma_tuple_coords_valid(items@, a.shape@, ndim as int);
        assert(a.shape@.take(ndim as int) =~= a.shape@);
    }
    Ok(gather(a, &coords))
}

// ---------------------------------------------------------------------------
// Assignment through an index tuple
// ---------------------------------------------------------------------------

/// Flat position written by element `q` of a block assignment.
pub open spec fn scatter_dst(shape: Seq<usize>, cs: Seq<Seq<usize>>, q: int) -> int {
    ravel_spec(pick(cs, unravel_spec(q, coord_lens(cs))), shape)
}

/// `data` after writing the first `k` elements of `vals` to the positions
/// selected by `cs`, in row-major order of the selection.
pub open spec fn scatter_spec<T>(
    data: Seq<T>,
    shape: Seq<usize>,
    cs: Seq<Seq<usize>>,
    vals: Seq<T>,
    k: int,
) -> Seq<T>
    decreases k,
{
    if k <= 0 {
        data
    } else {
        scatter_spec(data, shape, cs, vals, k - 1).update(scatter_dst(shape, cs, k - 1), vals[k - 1])
    }
}

/// Positions an assignment `t[rows, cols] = value` writes: the row key is
/// a slice or the whole axis, the column key a slice.
pub open spec fn setitem_coords(items: Seq<IndexItem>, shape: Seq<usize>) -> Result<
    Seq<Seq<usize>>,
    TensorError,
> {
    if shape.len() != 2 || items.len() != 2 {
        Err(TensorError::SetitemArity { ndim: shape.len() as usize, given: items.len() as usize })
    } else {
        let rows = match items[0] {
            IndexItem::At(_) => Err(TensorError::SetitemRowKey),
            _ => item_coords(items[0], shape[0]),
        };
        match rows {
            Err(e) => Err(e),
            Ok(r) => match items[1] {
                IndexItem::Range { .. } => match item_coords(items[1], shape[1]) {
                    Err(e) => Err(e),
                    Ok(c) => Ok(seq![r, c]),
                },
                _ => Err(TensorError::SetitemColKey),
            },
        }
    }
}

/// No position is listed twice.
pub open spec fn no_repeats(c: Seq<usize>) -> bool {
    forall|a: int, b: int| 0 <= a < c.len() && 0 <= b < c.len() && a != b ==> c[a] != c[b]
}

proof fn lemma_item_coords_no_repeats(item: IndexItem, dim: usize)
    requires
        item_coords(item, dim) is Ok,
    ensures
        no_repeats(item_coords(item, dim)->Ok_0),
{
    match item {
        IndexItem::Range { start, stop, step } => {
            lemma_slice_seq_props(start as int, stop as int, step as int, dim as int);
            let c = item_coords(item, dim)->Ok_0;
            assert forall|a: int, b: int|
                0 <= a < c.len() && 0 <= b < c.len() && a != b implies c[a] != c[b] by {
                if a < b {
                    assert(if step > 0 {
                        c[a] < c[b]
                    } else {
                        c[a] > c[b]
                    });
                } else {
                    assert(if step > 0 {
                        c[b] < c[a]
                    } else {
                        c[b] > c[a]
                    });
                }
            }
        },
        _ => {},
    }
}

proof fn lemma_setitem_coords_valid(items: Seq<IndexItem>, shape: Seq<usize>)
    requires
        setitem_coords(items, shape) is Ok,
    ensures
        valid_axis_coords(setitem_coords(items, shape)->Ok_0, shape),
        forall|d: int|
            0 <= d < shape.len() ==> no_repeats(#[trigger] setitem_coords(items, shape)->Ok_0[d]),
{
    let cs = setitem_coords(items, shape)->Ok_0;
    lemma_item_coords_valid(items[0], shape[0]);
    lemma_item_coords_valid(items[1], shape[1]);
    lemma_item_coords_no_repeats(items[0], shape[0]);
    lemma_item_coords_no_repeats(items[1], shape[1]);
    assert(cs[0] == item_coords(items[0], shape[0])->Ok_0);
    assert(cs[1] == item_coords(items[1], shape[1])->Ok_0);
}

proof fn lemma_scatter_dst_bound(shape: Seq<usize>, cs: Seq<Seq<usize>>, q: int)
    requires
        valid_axis_coords(cs, shape),
        0 <= q < shape_product(coord_lens(cs)),
    ensures
        0 <= scatter_dst(shape, cs, q) < shape_product(shape),
{
    let u = unravel_spec(q, coord_lens(cs));
    lemma_unravel_ravel(q, coord_lens(cs));
    lemma_pick_in_bounds(cs, shape, u);
    lemma_ravel_bound(pick(cs, u), shape);
}

/// Distinct elements of a selection without repeated positions are written
/// to distinct places.
proof fn lemma_scatter_dst_injective(shape: Seq<usize>, cs: Seq<Seq<usize>>, q1: int, q2: int)
    requires
        valid_axis_coords(cs, shape),
        forall|d: int| 0 <= d < shape.len() ==> no_repeats(#[trigger] cs[d]),
        0 <= q1 < shape_product(coord_lens(cs)),
        0 <= q2 < shape_product(coord_lens(cs)),
        q1 != q2,
    ensures
        scatter_dst(shape, cs, q1) != scatter_dst(shape, cs, q2),
{
    let lens = coord_lens(cs);
    let u1 = unravel_spec(q1, lens);
    let u2 = unravel_spec(q2, lens);
    lemma_unravel_ravel(q1, lens);
    lemma_unravel_ravel(q2, lens);
    lemma_pick_in_bounds(cs, shape, u1);
    lemma_pick_in_bounds(cs, shape, u2);
    if scatter_dst(shape, cs, q1) == scatter_dst(shape, cs, q2) {
        lemma_ravel_unravel(pick(cs, u1), shape);
        lemma_ravel_unravel(pick(cs, u2), shape);
        assert(pick(cs, u1) =~= pick(cs, u2));
        assert forall|d: int| 0 <= d < u1.len() implies u1[d] == u2[d] by {
            assert(pick(cs, u1)[d] == pick(cs, u2)[d]);
            assert(u1[d] < lens[d] && u2[d] < lens[d]);
            assert(no_repeats(cs[d]));
        }
        assert(u1 =~= u2);
    }
}

proof fn lemma_scatter_reads<T>(
    data: Seq<T>,
    shape: Seq<usize>,
    cs: Seq<Seq<usize>>,
    vals: Seq<T>,
    k: int,
)
    requires
        valid_axis_coords(cs, shape),
        forall|d: int| 0 <= d < shape.len() ==> no_repeats(#[trigger] cs[d]),
        0 <= k <= shape_product(coord_lens(cs)),
        data.len() == shape_product(shape),
    ensures
        forall|q: int|
            0 <= q < k ==> #[trigger] scatter_spec(data, shape, cs, vals, k)[scatter_dst(
                shape,
                cs,
                q,
            )] == vals[q],
    decreases k,
{
    if k > 0 {
        lemma_scatter_reads(data, shape, cs, vals, k - 1);
        lemma_scatter_len(data, shape, cs, vals, k - 1);
        lemma_scatter_dst_bound(shape, cs, k - 1);
        assert forall|q: int| 0 <= q < k implies #[trigger] scatter_spec(
            data,
            shape,
            cs,
            vals,
            k,
        )[scatter_dst(shape, cs, q)] == vals[q] by {
            if q < k - 1 {
                lemma_scatter_dst_injective(shape, cs, q, k - 1);
                lemma_scatter_dst_bound(shape, cs, q);
                assert(scatter_spec(data, shape, cs, vals, k - 1)[scatter_dst(shape, cs, q)]
                    == vals[q]);
            }
        }
    }
}

/// Length is kept by writes inside the tensor.
proof fn lemma_scatter_len<T>(
    data: Seq<T>,
    shape: Seq<usize>,
    cs: Seq<Seq<usize>>,
    vals: Seq<T>,
    k: int,
)
    requires
        valid_axis_coords(cs, shape),
        k <= shape_product(coord_lens(cs)),
        data.len() == shape_product(shape),
    ensures
        scatter_spec(data, shape, cs, vals, k).len() == data.len(),
    decreases k,
{
    if k > 0 {
        lemma_scatter_len(data, shape, cs, vals, k - 1);
        lemma_scatter_dst_bound(shape, cs, k - 1);
    }
}

/// Read after write: selecting the positions just assigned gives back the
/// assigned values (positions listed once per axis).
pub proof fn lemma_select_after_scatter<T>(
    data: Seq<T>,
    shape: Seq<usize>,
    cs: Seq<Seq<usize>>,
    vals: Seq<T>,
)
    requires
        valid_axis_coords(cs, shape),
        forall|d: int| 0 <= d < shape.len() ==> no_repeats(#[trigger] cs[d]),
        vals.len() == shape_product(coord_lens(cs)),
        data.len() == shape_product(shape),
    ensures
        select_spec(scatter_spec(data, shape, cs, vals, vals.len() as int), shape, cs) =~= vals,
{
    lemma_scatter_reads(data, shape, cs, vals, vals.len() as int);
    let w = scatter_spec(data, shape, cs, vals, vals.len() as int);
    assert forall|q: int| 0 <= q < vals.len() implies #[trigger] select_spec(w, shape, cs)[q]
        == vals[q] by {
        assert(select_spec(w, shape, cs)[q] == w[scatter_dst(shape, cs, q)]);
    }
}

/// Assign `value` to the block `a[rows, cols]` of a 2-D tensor; the row key
/// is a slice or the whole axis, the column key a slice.
pub fn setitem_tuple<T: Copy>(
    a: &mut TensorCore<T>,
    items: &Vec<IndexItem>,
    value: &TensorCore<T>,
) -> (r: Result<(), TensorError>)
    requires
        old(a).well_formed(),
        value.well_formed(),
        axes_addressable(old(a).shape@),
    ensures
        r is Ok <==> setitem_coords(items@, old(a).shape@) is Ok && value.shape@ == coord_lens(
            setitem_coords(items@, old(a).shape@)->Ok_0,
        ),
        r is Ok ==> {
            let cs = setitem_coords(items@, old(a).shape@)->Ok_0;
            &&& final(a).well_formed()
            &&& final(a).shape@ == old(a).shape@
            &&& final(a).data@ == scatter_spec(
                old(a).data@,
                old(a).shape@,
                cs,
                value.data@,
                value.data@.len() as int,
            )
        },
        r matches Err(e) ==> {
            &&& final(a).data@ == old(a).data@
            &&& final(a).shape@ == old(a).shape@
            &&& if setitem_coords(items@, old(a).shape@) is Err {
                setitem_coords(items@, old(a).shape@) == Err::<Seq<Seq<usize>>, TensorError>(e)
            } else {
                let cs = setitem_coords(items@, old(a).shape@)->Ok_0;
                e matches TensorError::SetitemValueShape { value: v, rows, cols } && v@
                    == value.shape@ && rows == cs[0].len() && cols == cs[1].len()
            }
        },
{
    let ndim = a.shape.len();
    if ndim != 2 || items.len() != 2 {
        return Err(TensorError::SetitemArity { ndim, given: items.len() });
    }
    let rows = match items[0] {
        IndexItem::At(_) => {
            return Err(TensorError::SetitemRowKey);
        },
        _ => axis_coords(items[0], a.shape[0])?,
    };
    let cols = match items[1] {
        IndexItem::Range { .. } => axis_coords(items[1], a.shape[1])?,
        _ => {
            return Err(TensorError::SetitemColKey);
        },
    };
    let ghost cs = seq![rows@, cols@];
    assert(setitem_coords(items@, a.shape@) == Ok::<Seq<Seq<usize>>, TensorError>(cs));
    let nr = rows.len();
    let nc = cols.len();
    if value.shape.len() != 2 || value.shape[0] != nr || value.shape[1] != nc {
        return Err(TensorError::SetitemValueShape { value: value.shape_vec(), rows: nr, cols: nc });
    }
    assert(value.shape@ =~= coord_lens(cs));
    let mut coords: Vec<Vec<usize>> = Vec::new();
    coords.push(rows);
    coords.push(cols);
    assert(vec_views(coords@) =~= cs);
    proof {
        lemma_setitem_coords_valid(items@, a.shape@);
    }
    let ghost data0 = a.data@;
    let ghost shape0 = a.shape@;
    let out_shape = value.shape_vec();
    let n = value.data.len();
    let mut q: usize = 0;
    while q < n
        invariant
            a.shape@.len() == 2,
            a.shape@ == shape0,
            shape0 == old(a).shape@,
            data0.len() == shape_product(shape0),
            a.well_formed(),
            value.well_formed(),
            cs == vec_views(coords@),
            coords@.len() == 2,
            valid_axis_coords(cs, a.shape@),
            shape_product(a.shape@) <= usize::MAX,
            out_shape@ == coord_lens(cs),
            n == value.data@.len(),
            n == shape_product(out_shape@),
            q <= n,
            a.data@ == scatter_spec(data0, a.shape@, cs, value.data@, q as int),
        decreases n - q,
    {
        let u = unravel_index(q, out_shape.as_slice());
        let mut picked: Vec<usize> = Vec::new();
        let mut k: usize = 0;
        while k < 2
            invariant
                cs == vec_views(coords@),
                coords@.len() == 2,
                valid_axis_coords(cs, a.shape@),
                a.shape@.len() == 2,
                out_shape@ == coord_lens(cs),
                in_bounds(u@, out_shape@),
                k <= 2,
                picked@ =~= pick(cs, u@).take(k as int),
            decreases 2 - k,
        {
            assert(u@[k as int] < coord_lens(cs)[k as int]);
            picked.push(coords[k][u[k]]);
            k += 1;
        }
        assert(picked@ =~= pick(cs, u@));
        proof {
            lemma_pick_in_bounds(cs, a.shape@, u@);
            lemma_scatter_len(data0, a.shape@, cs, value.data@, q as int);
        }
        let dst = ravel_index(picked.as_slice(), a.shape.as_slice());
        let v = value.data[q];
        a.data.set(dst, v);
        q += 1;
    }
    proof {
        lemma_scatter_len(data0, a.shape@, cs, value.data@, n as int);
    }
    Ok(())
}

/// Read after write at the tensor level: after `t[rows, cols] = value`
/// succeeds, indexing `t[rows, cols]` with the same keys selects the same
/// positions and yields exactly the elements of `value`.
pub proof fn lemma_getitem_after_setitem<T>(
    data: Seq<T>,
    shape: Seq<usize>,
    items: Seq<IndexItem>,
    vals: Seq<T>,
)
    requires
        data.len() == shape_product(shape),
        setitem_coords(items, shape) is Ok,
        vals.len() == shape_product(coord_lens(setitem_coords(items, shape)->Ok_0)),
    ensures
        ({
            let cs = setitem_coords(items, shape)->Ok_0;
            &&& tuple_coords(items, shape, shape.len() as int) is Ok
            &&& tuple_coords(items, shape, shape.len() as int)->Ok_0 =~= cs
            &&& select_spec(scatter_spec(data, shape, cs, vals, vals.len() as int), shape, cs)
                =~= vals
        }),
{
    let cs = setitem_coords(items, shape)->Ok_0;
    lemma_setitem_coords_valid(items, shape);
    assert(tuple_coords(items, shape, 0) == Ok::<Seq<Seq<usize>>, TensorError>(Seq::empty()));
    assert(item_at(items, 0) == items[0]);
    assert(item_at(items, 1) == items[1]);
    assert(tuple_coords(items, shape, 1)->Ok_0 =~= seq![cs[0]]);
    assert(tuple_coords(items, shape, 2)->Ok_0 =~= cs);
    lemma_select_after_scatter(data, shape, cs, vals);
}

/// Writes that miss position `p` leave it as it was.
proof fn lemma_scatter_frame<T>(
    data: Seq<T>,
    shape: Seq<usize>,
    cs: Seq<Seq<usize>>,
    vals: Seq<T>,
    k: int,
    p: int,
)
    requires
        valid_axis_coords(cs, shape),
        0 <= k <= shape_product(coord_lens(cs)),
        data.len() == shape_product(shape),
        0 <= p < data.len(),
        forall|q: int| 0 <= q < k ==> #[trigger] scatter_dst(shape, cs, q) != p,
    ensures
        scatter_spec(data, shape, cs, vals, k)[p] == data[p],
    decreases k,
{
    if k > 0 {
        lemma_scatter_frame(data, shape, cs, vals, k - 1, p);
        lemma_scatter_len(data, shape, cs, vals, k - 1);
        lemma_scatter_dst_bound(shape, cs, k - 1);
    }
}

/// A write lands on a position whose coordinates are all selected.
proof fn lemma_scatter_dst_selected(shape: Seq<usize>, cs: Seq<Seq<usize>>, q: int)
    requires
        valid_axis_coords(cs, shape),
        0 <= q < shape_product(coord_lens(cs)),
    ensures
        forall|d: int|
            0 <= d < shape.len() ==> #[trigger] cs[d].contains(
                unravel_spec(scatter_dst(shape, cs, q), shape)[d],
            ),
{
    let lens = coord_lens(cs);
    let u = unravel_spec(q, lens);
    lemma_unravel_ravel(q, lens);
    lemma_pick_in_bounds(cs, shape, u);
    lemma_ravel_unravel(pick(cs, u), shape);
    assert forall|d: int| 0 <= d < shape.len() implies #[trigger] cs[d].contains(
        unravel_spec(scatter_dst(shape, cs, q), shape)[d],
    ) by {
        assert(u[d] < lens[d]);
        assert(pick(cs, u)[d] == cs[d][u[d] as int]);
    }
}

/// Assigning a block leaves every element outside the block as it was: an
/// element whose row or column is not selected keeps its value.
pub proof fn lemma_setitem_frame<T>(
    data: Seq<T>,
    shape: Seq<usize>,
    items: Seq<IndexItem>,
    vals: Seq<T>,
    p: int,
)
    requires
        data.len() == shape_product(shape),
        setitem_coords(items, shape) is Ok,
        vals.len() == shape_product(coord_lens(setitem_coords(items, shape)->Ok_0)),
        0 <= p < data.len(),
        !(forall|d: int|
            0 <= d < shape.len() ==> #[trigger] setitem_coords(items, shape)->Ok_0[d].contains(
                unravel_spec(p, shape)[d],
            )),
    ensures
        scatter_spec(data, shape, setitem_coords(items, shape)->Ok_0, vals, vals.len() as int)[p]
            == data[p],
{
    let cs = setitem_coords(items, shape)->Ok_0;
    lemma_setitem_coords_valid(items, shape);
    assert forall|q: int| 0 <= q < vals.len() implies #[trigger] scatter_dst(shape, cs, q) != p by {
        lemma_scatter_dst_selected(shape, cs, q);
    }
    lemma_scatter_frame(data, shape, cs, vals, vals.len() as int, p);
}

// ---------------------------------------------------------------------------
// Row lookup (embedding tables)
// ---------------------------------------------------------------------------

/// The rows `rows` of a row-major table with rows of width `d`, one after
/// the other.
pub open spec fn embedding_rows<T>(table: Seq<T>, d: int, rows: Seq<usize>) -> Seq<T>
    decreases rows.len(),
{
    if rows.len() == 0 {
        Seq::empty()
    } else {
        let r = rows.last() as int;
        embedding_rows(table, d, rows.drop_last()) + table.subrange(r * d, r * d + d)
    }
}

proof fn lemma_embedding_rows_len<T>(table: Seq<T>, d: int, rows: Seq<usize>, vocab: int)
    requires
        d >= 0,
        table.len() == vocab * d,
        forall|f: int| 0 <= f < rows.len() ==> #[trigger] rows[f] < vocab,
    ensures
        embedding_rows(table, d, rows).len() == rows.len() * d,
    decreases rows.len(),
{
    if rows.len() > 0 {
        let r = rows.last() as int;
        assert(rows.drop_last().len() == rows.len() - 1);
        assert forall|f: int| 0 <= f < rows.drop_last().len() implies #[trigger] rows.drop_last()[f]
            < vocab by {
            assert(rows.drop_last()[f] == rows[f]);
        }
        lemma_embedding_rows_len(table, d, rows.drop_last(), vocab);
        assert(rows[rows.len() - 1] < vocab);
        assert(r * d + d <= vocab * d) by (nonlinear_arith)
            requires
                0 <= r < vocab,
                d >= 0,
        ;
        assert(0 <= r * d) by (nonlinear_arith)
            requires
                0 <= r,
                d >= 0,
        ;
        assert((rows.len() - 1) * d + d == rows.len() * d) by (nonlinear_arith);
    }
}

/// Look up rows of a 2-D table: every index selects one row, and the
/// result has the indices' shape followed by the row width.
pub fn advanced_index<T: Copy>(table: &TensorCore<T>, indices: &TensorCore<usize>) -> (r: Result<
    TensorCore<T>,
    TensorError,
>)
    requires
        table.well_formed(),
        indices.well_formed(),
        table.shape@.len() == 2 ==> shape_fits(indices.shape@.push(table.shape@[1])),
    ensures
        r is Ok <==> table.shape@.len() == 2 && forall|f: int|
            0 <= f < indices.data@.len() ==> #[trigger] indices.data@[f] < table.shape@[0],
        r matches Ok(t) ==> {
            &&& t.well_formed()
            &&& t.shape@ == indices.shape@.push(table.shape@[1])
            &&& t.data@ == embedding_rows(table.data@, table.shape@[1] as int, indices.data@)
        },
        r matches Err(e) ==> if table.shape@.len() != 2 {
            e == TensorError::EmbeddingRank { ndim: table.shape@.len() as usize }
        } else {
            exists|f: int|
                0 <= f < indices.data@.len() && indices.data@[f] >= table.shape@[0] && (forall|
                    g: int,
                | 0 <= g < f ==> #[trigger] indices.data@[g] < table.shape@[0]) && e
                    == TensorError::RowOutOfRange { row: #[trigger] indices.data@[f], vocab: table.shape@[0] }
        },
{
    if table.shape.len() != 2 {
        return Err(TensorError::EmbeddingRank { ndim: table.shape.len() });
    }
    let vocab = table.shape[0];
    let d_model = table.shape[1];
    let ghost rows = indices.data@;
    proof {
        lemma_product_2d(table.shape@);
        assert(shape_product(table.shape@) == vocab as nat * shape_product(
            table.shape@.drop_first(),
        ));
        assert(table.data@.len() == vocab * d_model);
    }
    let out_n = indices.data.len();
    let mut out: Vec<T> = Vec::new();
    let mut f: usize = 0;
    while f < out_n
        invariant
            table.well_formed(),
            table.shape@.len() == 2,
            vocab == table.shape@[0],
            d_model == table.shape@[1],
            table.data@.len() == vocab * d_model,
            vocab * d_model <= usize::MAX,
            rows == indices.data@,
            out_n == rows.len(),
            f <= out_n,
            forall|g: int| 0 <= g < f ==> #[trigger] rows[g] < vocab,
            out@ == embedding_rows(table.data@, d_model as int, rows.take(f as int)),
        decreases out_n - f,
    {
        let row = indices.data[f];
        if row >= vocab {
            return Err(TensorError::RowOutOfRange { row, vocab });
        }
        let ghost base = out@;
        proof {
            assert(row * d_model + d_model <= vocab * d_model) by (nonlinear_arith)
                requires
                    row < vocab,
            ;
        }
        let start = row * d_model;
        let mut x: usize = 0;
        while x < d_model
            invariant
                table.data@.len() == vocab * d_model,
                vocab * d_model <= usize::MAX,
                start == row * d_model,
                row < vocab,
                start + d_model <= vocab * d_model,
                x <= d_model,
                out@ =~= base + table.data@.subrange(start as int, start + x),
            decreases d_model - x,
        {
            out.push(table.data[start + x]);
            x += 1;
        }
        proof {
            let t1 = rows.take(f + 1);
            assert(t1.drop_last() =~= rows.take(f as int));
            assert(t1.last() == row);
        }
        f += 1;
    }
    let mut shape = indices.shape_vec();
    shape.push(d_model);
    proof {
        assert(rows.take(out_n as int) =~= rows);
        lemma_embedding_rows_len(table.data@, d_model as int, rows, vocab as int);
        lemma_product_concat(indices.shape@, seq![d_model]);
        assert(indices.shape@.push(d_model) =~= indices.shape@ + seq![d_model]);
        lemma_product_1d(seq![d_model]);
    }
    Ok(TensorCore::new(out, shape))
}

} // verus!
