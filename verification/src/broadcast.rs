use vstd::prelude::*;

use crate::error::TensorError;
use crate::shape::{
    broadcast_compatible, broadcast_coords, broadcast_shapes, broadcast_spec, copy_dims, in_bounds,
    lemma_broadcast_coords_in_bounds, lemma_unravel_ravel, numel, ravel_index, ravel_spec,
    shape_product, unravel_index, unravel_spec,
};
use crate::tensor::{shape_fits, TensorCore};

verus! {

/// Flat offset in operand shape `s` read by output element `i` of a
/// broadcast whose output shape is `out_shape`.
pub open spec fn broadcast_source(i: int, out_shape: Seq<usize>, s: Seq<usize>) -> int {
    ravel_spec(broadcast_coords(unravel_spec(i, out_shape), s), s)
}

/// An operand of the output's own shape is read element by element: output
/// element `i` reads its element `i`.
pub proof fn lemma_broadcast_source_same_shape(i: int, s: Seq<usize>)
    requires
        0 <= i < shape_product(s),
    ensures
        broadcast_source(i, s, s) == i,
{
    let c = unravel_spec(i, s);
    lemma_unravel_ravel(i, s);
    assert forall|k: int| 0 <= k < s.len() implies #[trigger] broadcast_coords(c, s)[k] == c[k] by {
        assert(c[k] < s[k]);
    }
    assert(broadcast_coords(c, s) =~= c);
}

/// A 0-D operand is read at its only element by every output element.
pub proof fn lemma_broadcast_source_scalar(i: int, out_shape: Seq<usize>)
    ensures
        broadcast_source(i, out_shape, Seq::<usize>::empty()) == 0,
{
}

/// Flat offset in an operand of shape `shape` read by the output element
/// at coordinates `out_coords`.
pub fn broadcast_index(out_coords: &[usize], shape: &[usize]) -> (idx: usize)
    requires
        out_coords@.len() >= shape@.len(),
        in_bounds(broadcast_coords(out_coords@, shape@), shape@),
        shape_product(shape@) <= usize::MAX,
    ensures
        idx == ravel_spec(broadcast_coords(out_coords@, shape@), shape@),
        idx < shape_product(shape@),
{
    let out_len = out_coords.len();
    let offset = out_len - shape.len();
    let mut coords: Vec<usize> = Vec::new();
    let mut si: usize = 0;
    while si < shape.len()
        invariant
            out_len == out_coords@.len(),
            offset == out_coords@.len() - shape@.len(),
            si <= shape@.len(),
            coords@ =~= broadcast_coords(out_coords@, shape@).take(si as int),
        decreases shape@.len() - si,
    {
        let c = if shape[si] == 1 {
            0
        } else {
            out_coords[si + offset]
        };
        coords.push(c);
        si += 1;
    }
    assert(broadcast_coords(out_coords@, shape@).take(shape@.len() as int) =~= broadcast_coords(
        out_coords@,
        shape@,
    ));
    ravel_index(coords.as_slice(), shape)
}

/// Operand shape `s` broadcasts to `out`: it has no more axes, and each of
/// its axes, aligned on the right, is 1 or equal to the output's.
pub open spec fn broadcasts_to(s: Seq<usize>, out: Seq<usize>) -> bool {
    &&& s.len() <= out.len()
    &&& forall|si: int|
        0 <= si < s.len() ==> #[trigger] s[si] == 1 || s[si] == out[si + out.len() - s.len()]
}

proof fn lemma_broadcasts_to_in_bounds(s: Seq<usize>, out: Seq<usize>, c: Seq<usize>)
    requires
        broadcasts_to(s, out),
        in_bounds(c, out),
    ensures
        in_bounds(broadcast_coords(c, s), s),
{
    let bc = broadcast_coords(c, s);
    assert forall|si: int| 0 <= si < s.len() implies #[trigger] bc[si] < s[si] by {
        if s[si] != 1 {
            assert(c[si + out.len() - s.len()] < out[si + out.len() - s.len()]);
        }
    }
}

/// For every element of a broadcast output of shape `out_shape`, the flat
/// offset it reads in an operand of shape `s`.
pub fn broadcast_source_map(out_shape: &[usize], s: &[usize]) -> (r: Result<
    Vec<usize>,
    TensorError,
>)
    requires
        shape_fits(out_shape@),
        shape_product(s@) <= usize::MAX,
    ensures
        r is Ok <==> broadcasts_to(s@, out_shape@),
        r matches Ok(map) ==> {
            &&& map@.len() == shape_product(out_shape@)
            &&& forall|i: int|
                0 <= i < map@.len() ==> #[trigger] map@[i] == broadcast_source(
                    i,
                    out_shape@,
                    s@,
                ) && map@[i] < shape_product(s@)
        },
        r matches Err(e) ==> (e matches TensorError::BroadcastMismatch { lhs, rhs } && lhs@
            == s@ && rhs@ == out_shape@),
{
    if s.len() > out_shape.len() {
        return Err(TensorError::BroadcastMismatch { lhs: copy_dims(s), rhs: copy_dims(out_shape) });
    }
    let out_len = out_shape.len();
    let off = out_len - s.len();
    let mut si: usize = 0;
    while si < s.len()
        invariant
            out_len == out_shape@.len(),
            s@.len() <= out_shape@.len(),
            off == out_shape@.len() - s@.len(),
            si <= s@.len(),
            forall|j: int|
                0 <= j < si ==> #[trigger] s@[j] == 1 || s@[j] == out_shape@[j + out_shape@.len()
                    - s@.len()],
        decreases s@.len() - si,
    {
        if s[si] != 1 && s[si] != out_shape[si + off] {
            return Err(
                TensorError::BroadcastMismatch { lhs: copy_dims(s), rhs: copy_dims(out_shape) },
            );
        }
        si += 1;
    }
    let n = numel(out_shape);
    let mut map: Vec<usize> = Vec::new();
    let mut flat: usize = 0;
    while flat < n
        invariant
            broadcasts_to(s@, out_shape@),
            shape_product(s@) <= usize::MAX,
            n == shape_product(out_shape@),
            flat <= n,
            map@.len() == flat,
            forall|i: int|
                0 <= i < flat ==> #[trigger] map@[i] == broadcast_source(i, out_shape@, s@)
                    && map@[i] < shape_product(s@),
        decreases n - flat,
    {
        let coords = unravel_index(flat, out_shape);
        proof {
            lemma_broadcasts_to_in_bounds(s@, out_shape@, coords@);
        }
        let idx = broadcast_index(coords.as_slice(), s);
        map.push(idx);
        flat += 1;
    }
    Ok(map)
}

/// Combine two tensors element by element under numpy broadcasting: output
/// element `i` is `f` of the operand elements its coordinates read.
pub fn broadcast_binary<T: Copy, U>(
    a: &TensorCore<T>,
    b: &TensorCore<T>,
    f: impl Fn(T, T) -> U,
) -> (r: Result<TensorCore<U>, TensorError>)
    requires
        a.well_formed(),
        b.well_formed(),
        forall|x: T, y: T| call_requires(f, (x, y)),
        broadcast_compatible(a.shape@, b.shape@) ==> shape_fits(
            broadcast_spec(a.shape@, b.shape@),
        ),
    ensures
        r is Ok <==> broadcast_compatible(a.shape@, b.shape@),
        r matches Ok(t) ==> {
            &&& t.well_formed()
            &&& t.shape@ == broadcast_spec(a.shape@, b.shape@)
            &&& forall|i: int|
                0 <= i < t.data@.len() ==> call_ensures(
                    f,
                    (
                        a.data@[broadcast_source(i, t.shape@, a.shape@)],
                        b.data@[broadcast_source(i, t.shape@, b.shape@)],
                    ),
                    #[trigger] t.data@[i],
                )
        },
        r matches Err(e) ==> (e matches TensorError::BroadcastMismatch { lhs, rhs } && lhs@
            == a.shape@ && rhs@ == b.shape@),
{
    let out_shape = broadcast_shapes(a.shape.as_slice(), b.shape.as_slice())?;
    let n = numel(out_shape.as_slice());
    let mut data: Vec<U> = Vec::new();
    let mut flat: usize = 0;
    while flat < n
        invariant
            a.well_formed(),
            b.well_formed(),
            forall|x: T, y: T| call_requires(f, (x, y)),
            broadcast_compatible(a.shape@, b.shape@),
            out_shape@ == broadcast_spec(a.shape@, b.shape@),
            n == shape_product(out_shape@),
            flat <= n,
            data@.len() == flat,
            forall|i: int|
                0 <= i < flat ==> call_ensures(
                    f,
                    (
                        a.data@[broadcast_source(i, out_shape@, a.shape@)],
                        b.data@[broadcast_source(i, out_shape@, b.shape@)],
                    ),
                    #[trigger] data@[i],
                ),
        decreases n - flat,
    {
        let coords = unravel_index(flat, out_shape.as_slice());
        proof {
            lemma_broadcast_coords_in_bounds(a.shape@, b.shape@, coords@);
        }
        let ia = broadcast_index(coords.as_slice(), a.shape.as_slice());
        let ib = broadcast_index(coords.as_slice(), b.shape.as_slice());
        let v = f(a.data[ia], b.data[ib]);
        data.push(v);
        flat += 1;
    }
    Ok(TensorCore::new(data, out_shape))
}

} // verus!
