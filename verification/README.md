# clem

A small tensor library for Python, with its layout, indexing, broadcasting
and graph logic verified in Verus.

- `src/` is the verified library. A tensor is dense row-major storage
  (`tensor::TensorCore<T>`): its elements, its shape and the strides of the
  shape. The modules cover shapes and strides (`shape`), broadcasting
  (`broadcast`), elementwise maps (`ops`), transposes and matrix products
  (`linalg`), indexing, slicing, block assignment and row lookup
  (`indexing`), lane-wise and block-wise layers and the cross-entropy loss
  (`nn`), the traversal and the gradient schedule of the computation graph
  (`autograd`), and tensors from nested lists (`creation`). The element type
  is a parameter: where a result needs real arithmetic (a dot product, a
  softmax lane, a normalized block, a loss), the caller passes the kernel as
  a closure and the contract says which inputs it was applied to.
- `app/` is the Python extension module (pyo3): the Python tensor type with
  its gradient state, conversions from Python values, random tensors, and
  the `f32` kernels handed to the library.
- `tests/` runs the library on concrete values.

Behaviour worth knowing:

- Broadcasting follows NumPy: shapes are aligned on the right, a missing
  axis counts as 1, and an axis of size 1 stretches to the other size,
  0 included (`[0, 3]` with `[1, 3]` gives `[0, 3]`).
- The shape of nested list data is read off its first entries and its
  numbers are taken in reading order, without checking one against the
  other: `creation::tensor_from_nested` turns `[[1], [2, 3]]` into storage
  of shape `[2, 1]` holding three numbers (`fills_shape` is then false). The
  Python bindings refuse such data with a `ValueError`, since the library's
  operations take storage whose numbers fill its shape.
- Storage requires only that the element count fits in a `usize`; strides
  are computed with wrapping multiplication, so they are exact whenever the
  tensor has elements.
