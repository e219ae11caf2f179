use vstd::prelude::*;

use crate::tensor::TensorCore;

verus! {

/// Apply `f` to every element; the shape is kept.
pub fn map_unary<T: Copy, U>(a: &TensorCore<T>, f: impl Fn(T) -> U) -> (t: TensorCore<U>)
    requires
        a.well_formed(),
        forall|x: T| call_requires(f, (x,)),
    ensures
        t.well_formed(),
        t.shape@ == a.shape@,
        t.data@.len() == a.data@.len(),
        forall|i: int|
            0 <= i < a.data@.len() ==> call_ensures(f, (a.data@[i],), #[trigger] t.data@[i]),
{
    let mut data: Vec<U> = Vec::new();
    let mut i: usize = 0;
    while i < a.data.len()
        invariant
            i <= a.data@.len(),
            data@.len() == i,
            forall|x: T| call_requires(f, (x,)),
            forall|k: int| 0 <= k < i ==> call_ensures(f, (a.data@[k],), #[trigger] data@[k]),
        decreases a.data@.len() - i,
    {
        let v = f(a.data[i]);
        data.push(v);
        i += 1;
    }
    TensorCore::new(data, a.shape_vec())
}

} // verus!
