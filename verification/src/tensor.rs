use vstd::prelude::*;

use crate::error::TensorError;
use crate::shape::{
    compute_strides, copy_dims, find_zero_axis, lemma_prefix_product_le, lemma_product_1d,
    lemma_product_take_step,
    lemma_product_zero, numel, shape_product, stride_value,
};

verus! {

/// The element count of a shape fits in a `usize`.
pub open spec fn shape_fits(s: Seq<usize>) -> bool {
    shape_product(s) <= usize::MAX
}

/// Whether the element count of `shape` fits in a `usize`: the condition
/// under which storage of that shape can be laid out.
pub fn shape_fits_checked(shape: &[usize]) -> (b: bool)
    ensures
        b == shape_fits(shape@),
{
    if let Some(z) = find_zero_axis(shape) {
        proof {
            lemma_product_zero(shape@, z as int);
        }
        return true;
    }
    let n = shape.len();
    let mut acc: usize = 1;
    let mut i: usize = 0;
    assert(shape@.take(0) =~= Seq::<usize>::empty());
    while i < n
        invariant
            n == shape@.len(),
            i <= n,
            acc == shape_product(shape@.take(i as int)),
            forall|j: int| 0 <= j < shape@.len() ==> #[trigger] shape@[j] > 0,
        decreases n - i,
    {
        proof {
            lemma_product_take_step(shape@, i as int);
        }
        match acc.checked_mul(shape[i]) {
            Some(v) => {
                acc = v;
                i += 1;
            },
            None => {
                proof {
                    lemma_prefix_product_le(shape@, i + 1);
                }
                return false;
            },
        }
    }
    assert(shape@.take(n as int) =~= shape@);
    true
}

/// `strides` are the row-major strides of `shape`.
pub open spec fn strides_match(strides: Seq<usize>, shape: Seq<usize>) -> bool {
    strides.len() == shape.len() && forall|i: int|
        0 <= i < shape.len() ==> #[trigger] strides[i] == stride_value(shape, i)
}

/// Dense row-major storage of a tensor: the elements, the shape and the
/// strides of the shape.
pub struct TensorCore<T> {
    pub data: Vec<T>,
    pub shape: Vec<usize>,
    pub strides: Vec<usize>,
}

/// Copy the elements of a vector.
pub fn copy_vec<T: Copy>(v: &Vec<T>) -> (r: Vec<T>)
    ensures
        r@ == v@,
{
    let mut r: Vec<T> = Vec::new();
    let mut i: usize = 0;
    while i < v.len()
        invariant
            i <= v@.len(),
            r@ =~= v@.take(i as int),
        decreases v@.len() - i,
    {
        r.push(v[i]);
        i += 1;
    }
    assert(v@.take(v@.len() as int) =~= v@);
    r
}

impl<T> TensorCore<T> {
    /// The storage is consistent: one element per coordinate (so that the
    /// element count fits in a `usize`) and the strides of the shape.
    pub open spec fn well_formed(&self) -> bool {
        &&& self.data@.len() == shape_product(self.shape@)
        &&& strides_match(self.strides@, self.shape@)
        &&& shape_fits(self.shape@)
    }

    /// Storage for `data` laid out with `shape`; the strides are computed.
    pub fn new(data: Vec<T>, shape: Vec<usize>) -> (t: Self)
        ensures
            t.data@ == data@,
            t.shape@ == shape@,
            strides_match(t.strides@, t.shape@),
    {
        let strides = compute_strides(shape.as_slice());
        TensorCore { data, shape, strides }
    }

    /// Number of elements described by the shape.
    pub fn numel(&self) -> (n: usize)
        requires
            shape_product(self.shape@) <= usize::MAX,
        ensures
            n == shape_product(self.shape@),
    {
        numel(self.shape.as_slice())
    }

    /// Whether the elements fill the shape exactly.
    pub fn fills_shape(&self) -> (b: bool)
        ensures
            b == (self.data@.len() == shape_product(self.shape@)),
    {
        let len = self.data.len();
        if !shape_fits_checked(self.shape.as_slice()) {
            return false;
        }
        numel(self.shape.as_slice()) == len
    }

        /// A copy of the shape.
    pub fn shape_vec(&self) -> (s: Vec<usize>)
        ensures
            s@ == self.shape@,
    {
        copy_dims(self.shape.as_slice())
    }

    /// A 0-D tensor holding one element.
    pub fn scalar(x: T) -> (t: Self)
        ensures
            t.well_formed(),
            t.shape@ == Seq::<usize>::empty(),
            t.data@ == seq![x],
    {
        let mut data: Vec<T> = Vec::new();
        data.push(x);
        TensorCore::new(data, Vec::new())
    }

    /// A 1-D tensor holding `data`.
    pub fn vector(data: Vec<T>) -> (t: Self)
        ensures
            t.well_formed(),
            t.shape@ == seq![data@.len() as usize],
            t.data@ == data@,
    {
        let mut shape: Vec<usize> = Vec::new();
        shape.push(data.len());
        proof {
            lemma_product_1d(shape@);
        }
        TensorCore::new(data, shape)
    }

    /// Length of the first axis; a 0-D tensor counts as one element.
    pub fn len(&self) -> (n: usize)
        ensures
            n == if self.shape@.len() == 0 {
                1
            } else {
                self.shape@[0]
            },
    {
        if self.shape.len() == 0 {
            1
        } else {
            self.shape[0]
        }
    }

    /// The elements in row-major order.
    pub fn data(&self) -> (d: &[T])
        ensures
            d@ == self.data@,
    {
        self.data.as_slice()
    }
}

impl<T: Copy> TensorCore<T> {
    /// A tensor of the given shape with every element equal to `zero`.
    pub fn zeros(shape: Vec<usize>, zero: T) -> (t: Self)
        requires
            shape_fits(shape@),
        ensures
            t.well_formed(),
            t.shape@ == shape@,
            t.data@ == Seq::new(shape_product(shape@), |i: int| zero),
    {
        let n = numel(shape.as_slice());
        let mut data: Vec<T> = Vec::new();
        let mut i: usize = 0;
        while i < n
            invariant
                i <= n,
                data@ =~= Seq::new(i as nat, |k: int| zero),
            decreases n - i,
        {
            data.push(zero);
            i += 1;
        }
        Self::new(data, shape)
    }

    /// The same elements under a new shape with the same element count.
    pub fn reshape(&self, new_shape: Vec<usize>) -> (r: Result<TensorCore<T>, TensorError>)
        requires
            self.well_formed(),
            shape_product(new_shape@) <= usize::MAX,
        ensures
            r is Ok <==> shape_product(new_shape@) == shape_product(self.shape@),
            r matches Ok(t) ==> t.well_formed() && t.data@ == self.data@ && t.shape@
                == new_shape@,
            r matches Err(e) ==> (e matches TensorError::ReshapeMismatch { from, to } && from@
                == self.shape@ && to@ == new_shape@),
    {
        if numel(new_shape.as_slice()) != self.numel() {
            return Err(
                TensorError::ReshapeMismatch { from: self.shape_vec(), to: new_shape },
            );
        }
        Ok(TensorCore::new(copy_vec(&self.data), new_shape))
    }
}

} // verus!
