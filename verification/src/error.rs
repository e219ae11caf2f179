use vstd::prelude::*;

verus! {

/// Errors reported by shape, indexing and layout operations.
#[derive(Debug)]
pub enum TensorError {
    /// Two shapes cannot be broadcast against each other.
    BroadcastMismatch { lhs: Vec<usize>, rhs: Vec<usize> },
    /// The element counts of the old and the new shape differ.
    ReshapeMismatch { from: Vec<usize>, to: Vec<usize> },
    /// An axis argument is not below the number of axes.
    AxisOutOfRange { dim0: usize, dim1: usize, ndim: usize },
    /// Matrix products take two 2-D or two 3-D operands.
    MatmulRank { lhs: Vec<usize>, rhs: Vec<usize> },
    /// Batched operands have different batch sizes.
    MatmulBatch { lhs: Vec<usize>, rhs: Vec<usize> },
    /// The contracted dimensions differ.
    MatmulInner { lhs: Vec<usize>, rhs: Vec<usize> },
    /// An index is outside `[-size, size)`.
    IndexOutOfRange { index: isize, size: usize },
    /// A slice has step zero.
    ZeroStep,
    /// A single index was applied to a tensor that is not 1-D.
    NeedsTupleIndex { ndim: usize },
    /// A single slice was applied to a tensor that is not 1-D.
    SliceNeedsTupleIndex { ndim: usize },
    /// More indices than axes.
    TooManyIndices { given: usize, ndim: usize },
    /// Tuple indexing is available for 1-D and 2-D tensors only.
    TupleIndexRank { ndim: usize },
    /// Row lookup into a table needs a 2-D table.
    EmbeddingRank { ndim: usize },
    /// A looked-up row is not below the number of rows.
    RowOutOfRange { row: usize, vocab: usize },
    /// A creation function was given no dimensions.
    NoDimensions,
    /// Nested data holds an empty list where a shape is read.
    EmptyList,
    /// Nested data holds an entry that is neither a number nor a list.
    NotNumeric,
    /// The first axis of nested data is not the stated batch size.
    BatchMismatch { batch: usize, shape: Vec<usize> },
    /// A matrix operation was given a tensor that is not 2-D.
    NotMatrix { ndim: usize },
    /// A softmax needs at least one axis.
    SoftmaxScalar,
    /// The softmax axis is outside the tensor's axes.
    SoftmaxAxis { dim: isize, ndim: usize },
    /// The normalized shape of a layer norm is empty-sized or longer than
    /// the tensor's shape.
    LayerNormShape { normalized: Vec<usize>, shape: Vec<usize> },
    /// Cross entropy takes 2-D logits `(N, C)`.
    CrossEntropyRank { ndim: usize },
    /// The targets do not hold one class per row of the logits.
    TargetCount { rows: usize, shape: Vec<usize> },
    /// A target class is not below the number of classes.
    TargetOutOfRange { target: usize, classes: usize },
    /// Every target is ignored.
    NoValidTargets,
    /// Assignment through an index tuple needs a 2-D tensor and two keys.
    SetitemArity { ndim: usize, given: usize },
    /// The row key of an assignment is neither a slice nor the whole axis.
    SetitemRowKey,
    /// The column key of an assignment is not a slice.
    SetitemColKey,
    /// The assigned value does not have the shape of the selected block.
    SetitemValueShape { value: Vec<usize>, rows: usize, cols: usize },
}

} // verus!
