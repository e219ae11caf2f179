use vstd::prelude::*;

use crate::error::TensorError;
use crate::shape::shape_product;
use crate::tensor::{shape_fits, strides_match, TensorCore};

verus! {

/// A tensor of the given (non-empty) shape filled with `zero`.
pub fn zeros<T: Copy>(dims: Vec<usize>, zero: T) -> (r: Result<TensorCore<T>, TensorError>)
    requires
        shape_fits(dims@),
    ensures
        r is Ok <==> dims@.len() > 0,
        r matches Ok(t) ==> t.well_formed() && t.shape@ == dims@ && t.data@ == Seq::new(
            shape_product(dims@),
            |i: int| zero,
        ),
        r matches Err(e) ==> e == TensorError::NoDimensions,
{
    if dims.len() == 0 {
        return Err(TensorError::NoDimensions);
    }
    Ok(TensorCore::zeros(dims, zero))
}


// ---------------------------------------------------------------------------
// Tensors from nested lists
// ---------------------------------------------------------------------------

/// Nested list data: a number, a list of nested entries, or an entry that
/// is neither.
pub enum Nested<T> {
    Item(T),
    List(Vec<Nested<T>>),
    Other,
}

/// The shape read off nested data: a list contributes its length, followed
/// by the shape of its first entry when that entry is itself a list. An
/// empty list has no shape to read.
pub open spec fn nested_shape<T>(n: Nested<T>) -> Result<Seq<usize>, TensorError>
    decreases n,
{
    match n {
        Nested::List(v) => if v@.len() == 0 {
            Err(TensorError::EmptyList)
        } else {
            match v@[0] {
                Nested::List(_) => match nested_shape(v@[0]) {
                    Ok(s) => Ok(seq![v.len()] + s),
                    Err(e) => Err(e),
                },
                _ => Ok(seq![v.len()]),
            }
        },
        _ => Ok(Seq::empty()),
    }
}

/// The numbers of nested data in reading order; an entry that is neither a
/// number nor a list is refused.
pub open spec fn flatten_nested<T>(n: Nested<T>) -> Result<Seq<T>, TensorError>
    decreases n, 1nat,
{
    match n {
        Nested::Item(x) => Ok(seq![x]),
        Nested::Other => Err(TensorError::NotNumeric),
        Nested::List(v) => flatten_entries(v@),
    }
}

/// The numbers of a sequence of nested entries, in order.
pub open spec fn flatten_entries<T>(s: Seq<Nested<T>>) -> Result<Seq<T>, TensorError>
    decreases s, 0nat,
{
    if s.len() == 0 {
        Ok(Seq::empty())
    } else {
        match flatten_entries(s.drop_last()) {
            Err(e) => Err(e),
            Ok(front) => match flatten_nested(s.last()) {
                Err(e) => Err(e),
                Ok(back) => Ok(front + back),
            },
        }
    }
}


/// Shape read off nested data (see `nested_shape`).
pub fn read_shape<T>(n: &Nested<T>) -> (r: Result<Vec<usize>, TensorError>)
    ensures
        r is Ok <==> nested_shape(*n) is Ok,
        r matches Ok(v) ==> nested_shape(*n) == Ok::<Seq<usize>, TensorError>(v@),
        r matches Err(e) ==> nested_shape(*n) == Err::<Seq<usize>, TensorError>(e),
    decreases n,
{
    match n {
        Nested::List(v) => {
            if v.len() == 0 {
                return Err(TensorError::EmptyList);
            }
            let mut s: Vec<usize> = Vec::new();
            s.push(v.len());
            match &v[0] {
                Nested::List(_) => {
                    let inner = read_shape(&v[0])?;
                    let mut i: usize = 0;
                    while i < inner.len()
                        invariant
                            i <= inner@.len(),
                            s@ == seq![v.len()] + inner@.take(i as int),
                        decreases inner@.len() - i,
                    {
                        assert(inner@.take(i + 1) =~= inner@.take(i as int).push(inner@[i as int]));
                        s.push(inner[i]);
                        i += 1;
                    }
                    assert(inner@.take(inner@.len() as int) =~= inner@);
                    Ok(s)
                },
                _ => Ok(s),
            }
        },
        _ => Ok(Vec::new()),
    }
}

proof fn lemma_flatten_error_persists<T>(s: Seq<Nested<T>>, k: int, e: TensorError)
    requires
        0 <= k <= s.len(),
        flatten_entries(s.take(k)) == Err::<Seq<T>, TensorError>(e),
    ensures
        flatten_entries(s) == Err::<Seq<T>, TensorError>(e),
    decreases s.len() - k,
{
    if k < s.len() {
        assert(s.take(k + 1).drop_last() =~= s.take(k));
        lemma_flatten_error_persists(s, k + 1, e);
    } else {
        assert(s.take(k) =~= s);
    }
}

/// Append the numbers of nested data to `out`, in reading order.
#[verifier::loop_isolation(false)]
pub fn flatten_into<T: Copy>(n: &Nested<T>, out: &mut Vec<T>) -> (r: Result<(), TensorError>)
    ensures
        r is Ok <==> flatten_nested(*n) is Ok,
        r is Ok ==> final(out)@ == old(out)@ + flatten_nested(*n)->Ok_0,
        r matches Err(e) ==> flatten_nested(*n) == Err::<Seq<T>, TensorError>(e),
    decreases n,
{
    match n {
        Nested::Item(x) => {
            out.push(*x);
            Ok(())
        },
        Nested::Other => Err(TensorError::NotNumeric),
        Nested::List(v) => {
            let ghost start = out@;
            let mut i: usize = 0;
            assert(v@.take(0) =~= Seq::<Nested<T>>::empty());
            while i < v.len()
                invariant
                    i <= v@.len(),
                    flatten_entries(v@.take(i as int)) is Ok,
                    out@ == start + flatten_entries(v@.take(i as int))->Ok_0,
                decreases v@.len() - i,
            {
                let ghost t1 = v@.take(i + 1);
                assert(t1.drop_last() =~= v@.take(i as int));
                assert(t1.last() == v@[i as int]);
                match flatten_into(&v[i], out) {
                    Ok(()) => {},
                    Err(e) => {
                        proof {
                            lemma_flatten_error_persists(v@, i + 1, e);
                        }
                        return Err(e);
                    },
                }
                i += 1;
            }
            assert(v@.take(v@.len() as int) =~= v@);
            Ok(())
        },
    }
}


/// The tensor nested data describes: the shape read off it (see
/// `nested_shape`) holding its numbers in reading order. The numbers are not
/// checked against the shape; where they do not fill it, the result is not
/// well formed (`TensorCore::fills_shape` tells).
pub fn tensor_from_nested<T: Copy>(n: &Nested<T>) -> (r: Result<TensorCore<T>, TensorError>)
    ensures
        r is Ok <==> nested_shape(*n) is Ok && flatten_nested(*n) is Ok,
        r matches Ok(t) ==> {
            &&& t.shape@ == nested_shape(*n)->Ok_0
            &&& t.data@ == flatten_nested(*n)->Ok_0
            &&& strides_match(t.strides@, t.shape@)
            &&& (t.data@.len() == shape_product(t.shape@) ==> t.well_formed())
        },
        r matches Err(e) ==> if nested_shape(*n) is Err {
            nested_shape(*n) == Err::<Seq<usize>, TensorError>(e)
        } else {
            flatten_nested(*n) == Err::<Seq<T>, TensorError>(e)
        },
{
    let shape = read_shape(n)?;
    let mut data: Vec<T> = Vec::new();
    flatten_into(n, &mut data)?;
    assert(data@ =~= flatten_nested(*n)->Ok_0);
    let len = data.len();
    assert(len == data@.len());
    Ok(TensorCore::new(data, shape))
}

/// The tensor nested data describes (as `tensor_from_nested`), when its
/// first axis has the stated batch size.
pub fn tensor_from_batch<T: Copy>(n: &Nested<T>, batch: usize) -> (r: Result<
    TensorCore<T>,
    TensorError,
>)
    ensures
        r is Ok <==> nested_shape(*n) is Ok && flatten_nested(*n) is Ok && nested_shape(
            *n,
        )->Ok_0.len() > 0 && nested_shape(*n)->Ok_0[0] == batch,
        r matches Ok(t) ==> {
            &&& t.shape@ == nested_shape(*n)->Ok_0
            &&& t.data@ == flatten_nested(*n)->Ok_0
            &&& strides_match(t.strides@, t.shape@)
            &&& (t.data@.len() == shape_product(t.shape@) ==> t.well_formed())
        },
        r matches Err(e) ==> if nested_shape(*n) is Err {
            nested_shape(*n) == Err::<Seq<usize>, TensorError>(e)
        } else if flatten_nested(*n) is Err {
            flatten_nested(*n) == Err::<Seq<T>, TensorError>(e)
        } else {
            e matches TensorError::BatchMismatch { batch: b, shape } && b == batch && shape@
                == nested_shape(*n)->Ok_0
        },
{
    let shape = read_shape(n)?;
    let mut data: Vec<T> = Vec::new();
    flatten_into(n, &mut data)?;
    assert(data@ =~= flatten_nested(*n)->Ok_0);
    if shape.len() == 0 || shape[0] != batch {
        return Err(TensorError::BatchMismatch { batch, shape });
    }
    let len = data.len();
    assert(len == data@.len());
    Ok(TensorCore::new(data, shape))
}

} // verus!
