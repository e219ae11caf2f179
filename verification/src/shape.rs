use vstd::prelude::*;

use crate::error::TensorError;

verus! {

// ---------------------------------------------------------------------------
// Mathematical model of shapes
// ---------------------------------------------------------------------------

/// Number of elements of a tensor of shape `s` (the empty shape has one).
pub open spec fn shape_product(s: Seq<usize>) -> nat
    decreases s.len(),
{
    if s.len() == 0 {
        1
    } else {
        s[0] as nat * shape_product(s.drop_first())
    }
}

/// Row-major stride of axis `i`: the product of the dimensions after it.
pub open spec fn stride_of(s: Seq<usize>, i: int) -> nat {
    shape_product(s.skip(i + 1))
}

// ---------------------------------------------------------------------------
// Lemmas on products
// ---------------------------------------------------------------------------

pub proof fn lemma_product_concat(a: Seq<usize>, b: Seq<usize>)
    ensures
        shape_product(a + b) == shape_product(a) * shape_product(b),
    decreases a.len(),
{
    if a.len() == 0 {
        assert(a + b =~= b);
        assert(shape_product(a) == 1);
    } else {
        lemma_product_concat(a.drop_first(), b);
        assert((a + b).drop_first() =~= a.drop_first() + b);
        assert((a + b)[0] == a[0]);
        assert(shape_product(a + b) == (a + b)[0] as nat * shape_product((a + b).drop_first()));
        let x = a[0] as nat;
        let p = shape_product(a.drop_first());
        let q = shape_product(b);
        assert(x * (p * q) == (x * p) * q) by (nonlinear_arith);
        assert(shape_product(a) == x * p);
        assert(shape_product(a + b) == x * (p * q));
    }
}

pub proof fn lemma_product_single(x: usize)
    ensures
        shape_product(seq![x]) == x,
{
    assert(seq![x].drop_first() =~= Seq::<usize>::empty());
    assert(shape_product(Seq::<usize>::empty()) == 1);
    assert(shape_product(seq![x]) == x as nat * shape_product(seq![x].drop_first()));
}

/// The element count of a 1-D shape is its length.
pub proof fn lemma_product_1d(s: Seq<usize>)
    requires
        s.len() == 1,
    ensures
        shape_product(s) == s[0],
{
    assert(s =~= seq![s[0]]);
    lemma_product_single(s[0]);
}

/// The element count of a 2-D shape is the product of its two dimensions.
pub proof fn lemma_product_2d(s: Seq<usize>)
    requires
        s.len() == 2,
    ensures
        shape_product(s) == s[0] * s[1],
{
    lemma_product_1d(s.drop_first());
}

/// Extending a prefix by one dimension multiplies its product by that dimension.
pub proof fn lemma_product_take_step(s: Seq<usize>, i: int)
    requires
        0 <= i < s.len(),
    ensures
        shape_product(s.take(i + 1)) == shape_product(s.take(i)) * s[i],
{
    assert(s.take(i + 1) =~= s.take(i) + seq![s[i]]);
    lemma_product_concat(s.take(i), seq![s[i]]);
    lemma_product_single(s[i]);
}

/// Dropping the first dimension of a suffix divides out that dimension.
pub proof fn lemma_product_skip_step(s: Seq<usize>, i: int)
    requires
        0 <= i < s.len(),
    ensures
        shape_product(s.skip(i)) == s[i] * shape_product(s.skip(i + 1)),
{
    assert(s.skip(i).drop_first() =~= s.skip(i + 1));
}

/// The product of a shape is the product of everything but the last
/// dimension, times the last dimension.
pub proof fn lemma_product_drop_last(s: Seq<usize>)
    requires
        s.len() > 0,
    ensures
        shape_product(s) == shape_product(s.drop_last()) * s.last(),
{
    assert(s =~= s.drop_last() + seq![s.last()]);
    lemma_product_concat(s.drop_last(), seq![s.last()]);
    lemma_product_single(s.last());
}

// ---------------------------------------------------------------------------
// Element count and strides
// ---------------------------------------------------------------------------

/// A shape with a zero-sized axis has no elements.
pub proof fn lemma_product_zero(s: Seq<usize>, i: int)
    requires
        0 <= i < s.len(),
        s[i] == 0,
    ensures
        shape_product(s) == 0,
{
    assert(s =~= s.take(i) + s.skip(i));
    lemma_product_concat(s.take(i), s.skip(i));
    lemma_product_skip_step(s, i);
    assert(shape_product(s.skip(i)) == 0);
    let a = shape_product(s.take(i));
    assert(a * 0 == 0) by (nonlinear_arith);
}

/// Index of a zero-sized axis, if there is one.
pub fn find_zero_axis(shape: &[usize]) -> (r: Option<usize>)
    ensures
        r matches Some(i) ==> i < shape@.len() && shape@[i as int] == 0,
        r is None ==> forall|i: int| 0 <= i < shape@.len() ==> #[trigger] shape@[i] > 0,
{
    let mut i: usize = 0;
    while i < shape.len()
        invariant
            i <= shape@.len(),
            forall|j: int| 0 <= j < i ==> #[trigger] shape@[j] > 0,
        decreases shape@.len() - i,
    {
        if shape[i] == 0 {
            return Some(i);
        }
        i += 1;
    }
    None
}

/// Number of elements of a tensor with the given shape.
pub fn numel(shape: &[usize]) -> (n: usize)
    requires
        shape_product(shape@) <= usize::MAX,
    ensures
        n == shape_product(shape@),
{
    if let Some(z) = find_zero_axis(shape) {
        proof {
            lemma_product_zero(shape@, z as int);
        }
        return 0;
    }
    let mut p: usize = 1;
    let mut i: usize = 0;
    assert(shape@.take(0) =~= Seq::<usize>::empty());
    while i < shape.len()
        invariant
            0 <= i <= shape@.len(),
            p == shape_product(shape@.take(i as int)),
            shape_product(shape@) <= usize::MAX,
            forall|j: int| 0 <= j < shape@.len() ==> #[trigger] shape@[j] > 0,
        decreases shape@.len() - i,
    {
        proof {
            lemma_product_take_step(shape@, i as int);
            lemma_prefix_product_le(shape@, i + 1);
        }
        p = p * shape[i];
        i += 1;
    }
    assert(shape@.take(shape@.len() as int) =~= shape@);
    p
}

/// Row-major stride of axis `i` as a `usize`: the product of the
/// dimensions after it, wrapped to the width of a `usize` (it is exact when
/// that product fits, in particular for every shape with elements).
pub open spec fn stride_value(s: Seq<usize>, i: int) -> usize {
    (stride_of(s, i) % (usize::MAX as nat + 1)) as usize
}

/// Row-major strides of a shape: each axis steps over the product of the
/// dimensions after it; the empty shape has no strides.
pub fn compute_strides(shape: &[usize]) -> (strides: Vec<usize>)
    ensures
        strides@.len() == shape@.len(),
        forall|i: int| 0 <= i < shape@.len() ==> #[trigger] strides@[i] == stride_value(shape@, i),
{
    let n = shape.len();
    if n == 0 {
        return Vec::new();
    }
    let mut strides: Vec<usize> = Vec::new();
    let mut k: usize = 0;
    while k < n
        invariant
            k <= n,
            strides@.len() == k,
        decreases n - k,
    {
        strides.push(0);
        k += 1;
    }
    let ghost m: nat = usize::MAX as nat + 1;
    let mut stride: usize = 1;
    let mut i: usize = n;
    assert(shape@.skip(n as int) =~= Seq::<usize>::empty());
    proof {
        vstd::arithmetic::div_mod::lemma_small_mod(1, m);
    }
    while i > 0
        invariant
            i <= n,
            n == shape@.len(),
            m == usize::MAX as nat + 1,
            strides@.len() == n,
            stride as nat == shape_product(shape@.skip(i as int)) % m,
            forall|j: int| i <= j < n ==> #[trigger] strides@[j] == stride_value(shape@, j),
        decreases i,
    {
        i -= 1;
        strides.set(i, stride);
        proof {
            lemma_product_skip_step(shape@, i as int);
            let p = shape_product(shape@.skip(i + 1)) as int;
            vstd::arithmetic::div_mod::lemma_mul_mod_noop_right(shape@[i as int] as int, p, m as int);
        }
        stride = shape[i].wrapping_mul(stride);
    }
    strides
}

// ---------------------------------------------------------------------------
// Broadcasting
// ---------------------------------------------------------------------------

/// Dimension `i` of `s` counted from the right; missing leading
/// dimensions count as 1.
pub open spec fn rdim(s: Seq<usize>, i: int) -> usize {
    if 0 <= i < s.len() {
        s[s.len() - 1 - i]
    } else {
        1
    }
}

pub open spec fn max_len(a: Seq<usize>, b: Seq<usize>) -> int {
    if a.len() >= b.len() {
        a.len() as int
    } else {
        b.len() as int
    }
}

/// Two aligned dimensions broadcast when they agree or one of them is 1.
pub open spec fn dims_compatible(x: usize, y: usize) -> bool {
    x == y || x == 1 || y == 1
}

/// `a` and `b` broadcast against each other (numpy rules, aligned on the right).
pub open spec fn broadcast_compatible(a: Seq<usize>, b: Seq<usize>) -> bool {
    forall|i: int| 0 <= i < max_len(a, b) ==> dims_compatible(#[trigger] rdim(a, i), rdim(b, i))
}

/// Broadcast of two aligned dimensions: an axis of size 1 stretches to the
/// other size (0 included); otherwise the dimension is kept.
pub open spec fn broadcast_dim(x: usize, y: usize) -> usize {
    if x == 1 {
        y
    } else {
        x
    }
}

/// The broadcast shape of `a` and `b`.
pub open spec fn broadcast_spec(a: Seq<usize>, b: Seq<usize>) -> Seq<usize> {
    let n = max_len(a, b);
    Seq::new(n as nat, |k: int| broadcast_dim(rdim(a, n - 1 - k), rdim(b, n - 1 - k)))
}

/// Broadcast two shapes by numpy rules: aligned on the right, each pair of
/// dimensions must agree or one of them must be 1, and an axis of size 1
/// takes the other size.
pub fn broadcast_shapes(a: &[usize], b: &[usize]) -> (r: Result<Vec<usize>, TensorError>)
    ensures
        r is Ok <==> broadcast_compatible(a@, b@),
        r matches Ok(v) ==> v@ == broadcast_spec(a@, b@),
        r matches Err(e) ==> (e matches TensorError::BroadcastMismatch { lhs, rhs } && lhs@
            == a@ && rhs@ == b@),
{
    let n = if a.len() >= b.len() {
        a.len()
    } else {
        b.len()
    };
    let mut result: Vec<usize> = Vec::new();
    let mut k: usize = 0;
    while k < n
        invariant
            k <= n,
            result@.len() == k,
        decreases n - k,
    {
        result.push(0);
        k += 1;
    }
    let mut i: usize = 0;
    while i < n
        invariant
            n == max_len(a@, b@),
            i <= n,
            result@.len() == n,
            forall|j: int| 0 <= j < i ==> dims_compatible(#[trigger] rdim(a@, j), rdim(b@, j)),
            forall|k: int|
                n - i <= k < n ==> #[trigger] result@[k] == broadcast_dim(
                    rdim(a@, n - 1 - k),
                    rdim(b@, n - 1 - k),
                ),
        decreases n - i,
    {
        let dim_a = if i < a.len() {
            a[a.len() - 1 - i]
        } else {
            1
        };
        let dim_b = if i < b.len() {
            b[b.len() - 1 - i]
        } else {
            1
        };
        assert(dim_a == rdim(a@, i as int));
        assert(dim_b == rdim(b@, i as int));
        if dim_a != dim_b && dim_a != 1 && dim_b != 1 {
            return Err(
                TensorError::BroadcastMismatch { lhs: copy_dims(a), rhs: copy_dims(b) },
            );
        }
        let m = if dim_a == 1 {
            dim_b
        } else {
            dim_a
        };
        result.set(n - 1 - i, m);
        i += 1;
    }
    assert(result@ =~= broadcast_spec(a@, b@));
    Ok(result)
}

/// Copy a list of dimensions into an owned vector.
pub fn copy_dims(s: &[usize]) -> (v: Vec<usize>)
    ensures
        v@ == s@,
{
    let mut v: Vec<usize> = Vec::new();
    let mut i: usize = 0;
    while i < s.len()
        invariant
            i <= s@.len(),
            v@ =~= s@.take(i as int),
        decreases s@.len() - i,
    {
        v.push(s[i]);
        i += 1;
    }
    assert(s@.take(s@.len() as int) =~= s@);
    v
}


/// Laws of broadcasting: it is symmetric in its two shapes.
pub proof fn lemma_broadcast_commutative(a: Seq<usize>, b: Seq<usize>)
    ensures
        broadcast_compatible(a, b) == broadcast_compatible(b, a),
        broadcast_compatible(a, b) ==> broadcast_spec(a, b) =~= broadcast_spec(b, a),
{
    if broadcast_compatible(a, b) {
        let n = max_len(a, b);
        assert forall|k: int| 0 <= k < n implies #[trigger] broadcast_spec(a, b)[k]
            == broadcast_spec(b, a)[k] by {
            assert(dims_compatible(rdim(a, n - 1 - k), rdim(b, n - 1 - k)));
        }
    }
}

/// Broadcasting against the empty (scalar) shape leaves every shape
/// unchanged.
pub proof fn lemma_broadcast_scalar_identity(a: Seq<usize>)
    ensures
        broadcast_compatible(a, Seq::empty()),
        broadcast_spec(a, Seq::empty()) =~= a,
{
    let e = Seq::<usize>::empty();
    assert forall|k: int| 0 <= k < a.len() implies #[trigger] broadcast_spec(a, e)[k] == a[k] by {
        let n = a.len() as int;
        assert(rdim(a, n - 1 - k) == a[k]);
        assert(rdim(e, n - 1 - k) == 1);
    }
}

/// Broadcasting a shape with itself leaves it unchanged.
pub proof fn lemma_broadcast_idempotent(a: Seq<usize>)
    ensures
        broadcast_compatible(a, a),
        broadcast_spec(a, a) =~= a,
{
    assert forall|k: int| 0 <= k < a.len() implies #[trigger] broadcast_spec(a, a)[k] == a[k] by {
        let n = a.len() as int;
        assert(rdim(a, n - 1 - k) == a[k]);
    }
}

/// Coordinates in a broadcast operand `s` that an output coordinate tuple
/// `out` reads: aligned on the right, axes of size 1 are pinned to 0.
pub open spec fn broadcast_coords(out: Seq<usize>, s: Seq<usize>) -> Seq<usize> {
    let off = out.len() - s.len();
    Seq::new(s.len(), |si: int| if s[si] == 1 { 0 } else { out[si + off] })
}

proof fn lemma_broadcast_coords_left(a: Seq<usize>, b: Seq<usize>, out: Seq<usize>)
    requires
        broadcast_compatible(a, b),
        in_bounds(out, broadcast_spec(a, b)),
    ensures
        in_bounds(broadcast_coords(out, a), a),
{
    let n = max_len(a, b);
    let c = broadcast_coords(out, a);
    assert forall|si: int| 0 <= si < a.len() implies #[trigger] c[si] < a[si] by {
        let off = n - a.len();
        let i = a.len() - 1 - si;
        let k = si + off;
        assert(rdim(a, i) == a[si]);
        assert(n - 1 - k == i);
        assert(dims_compatible(rdim(a, i), rdim(b, i)));
        assert(out[k] < broadcast_spec(a, b)[k]);
        if a[si] != 1 {
            assert(broadcast_spec(a, b)[k] == a[si]);
        }
    }
}

/// Every output coordinate of a broadcast reads valid coordinates of both
/// operands.
pub proof fn lemma_broadcast_coords_in_bounds(a: Seq<usize>, b: Seq<usize>, out: Seq<usize>)
    requires
        broadcast_compatible(a, b),
        in_bounds(out, broadcast_spec(a, b)),
    ensures
        in_bounds(broadcast_coords(out, a), a),
        in_bounds(broadcast_coords(out, b), b),
{
    lemma_broadcast_coords_left(a, b, out);
    lemma_broadcast_commutative(a, b);
    lemma_broadcast_coords_left(b, a, out);
}

// ---------------------------------------------------------------------------
// Row-major layout: coordinates <-> flat offsets
// ---------------------------------------------------------------------------

/// `c` is a valid coordinate tuple for shape `s`.
pub open spec fn in_bounds(c: Seq<usize>, s: Seq<usize>) -> bool {
    c.len() == s.len() && forall|i: int| 0 <= i < s.len() ==> #[trigger] c[i] < s[i]
}

/// Row-major flat offset of coordinates `c` in shape `s`.
pub open spec fn ravel_spec(c: Seq<usize>, s: Seq<usize>) -> int
    decreases s.len(),
{
    if s.len() == 0 {
        0
    } else {
        ravel_spec(c.drop_last(), s.drop_last()) * s.last() + c.last()
    }
}

/// Row-major offsets split over a split of the axes: the leading
/// coordinates count whole blocks of the trailing shape.
pub proof fn lemma_ravel_concat(c1: Seq<usize>, s1: Seq<usize>, c2: Seq<usize>, s2: Seq<usize>)
    requires
        c1.len() == s1.len(),
        c2.len() == s2.len(),
    ensures
        ravel_spec(c1 + c2, s1 + s2) == ravel_spec(c1, s1) * shape_product(s2) + ravel_spec(c2, s2),
    decreases s2.len(),
{
    if s2.len() == 0 {
        assert(c1 + c2 =~= c1);
        assert(s1 + s2 =~= s1);
        assert(shape_product(s2) == 1);
        assert(ravel_spec(c1, s1) * 1 == ravel_spec(c1, s1));
    } else {
        let c2d = c2.drop_last();
        let s2d = s2.drop_last();
        lemma_ravel_concat(c1, s1, c2d, s2d);
        assert((c1 + c2).drop_last() =~= c1 + c2d);
        assert((s1 + s2).drop_last() =~= s1 + s2d);
        assert((c1 + c2).last() == c2.last());
        assert((s1 + s2).last() == s2.last());
        lemma_product_drop_last(s2);
        let r1 = ravel_spec(c1, s1);
        let p = shape_product(s2d) as int;
        let r2 = ravel_spec(c2d, s2d);
        let l = s2.last() as int;
        let x = c2.last() as int;
        assert((r1 * p + r2) * l + x == r1 * (p * l) + (r2 * l + x)) by (nonlinear_arith);
    }
}

/// Row-major coordinates of flat offset `flat` in shape `s`.
pub open spec fn unravel_spec(flat: int, s: Seq<usize>) -> Seq<usize>
    decreases s.len(),
{
    if s.len() == 0 {
        Seq::empty()
    } else {
        unravel_spec(flat / (s.last() as int), s.drop_last()).push((flat % (s.last() as int)) as usize)
    }
}

/// Sum of `c[i] * stride_of(s, i)` over the first `k` axes.
pub open spec fn strided_offset(c: Seq<usize>, s: Seq<usize>, k: int) -> int
    decreases k,
{
    if k <= 0 {
        0
    } else {
        strided_offset(c, s, k - 1) + c[k - 1] * stride_of(s, k - 1)
    }
}

/// A shape whose product is positive has only positive dimensions.
pub proof fn lemma_product_positive(s: Seq<usize>)
    requires
        shape_product(s) > 0,
    ensures
        forall|i: int| 0 <= i < s.len() ==> #[trigger] s[i] > 0,
    decreases s.len(),
{
    if s.len() > 0 {
        let x = s[0] as nat;
        let p = shape_product(s.drop_first());
        assert(x > 0 && p > 0) by (nonlinear_arith)
            requires
                x * p > 0,
        ;
        lemma_product_positive(s.drop_first());
        assert forall|i: int| 0 <= i < s.len() implies #[trigger] s[i] > 0 by {
            if i > 0 {
                assert(s[i] == s.drop_first()[i - 1]);
            }
        }
    }
}

/// Valid coordinates have a flat offset inside the tensor.
pub proof fn lemma_ravel_bound(c: Seq<usize>, s: Seq<usize>)
    requires
        in_bounds(c, s),
    ensures
        0 <= ravel_spec(c, s) < shape_product(s),
    decreases s.len(),
{
    if s.len() == 0 {
    } else {
        let c2 = c.drop_last();
        let s2 = s.drop_last();
        assert(in_bounds(c2, s2)) by {
            assert forall|i: int| 0 <= i < s2.len() implies #[trigger] c2[i] < s2[i] by {
                assert(c2[i] == c[i] && s2[i] == s[i]);
            }
        }
        lemma_ravel_bound(c2, s2);
        lemma_product_drop_last(s);
        let r = ravel_spec(c2, s2);
        let p = shape_product(s2) as int;
        let l = s.last() as int;
        let x = c.last() as int;
        assert(c.last() < s.last()) by {
            assert(c[c.len() - 1] < s[s.len() - 1]);
        }
        assert(0 <= r * l + x < p * l) by (nonlinear_arith)
            requires
                0 <= r < p,
                0 <= x < l,
        ;
    }
}

/// Unravelling an in-range offset gives valid coordinates that ravel back
/// to the same offset.
pub proof fn lemma_unravel_ravel(flat: int, s: Seq<usize>)
    requires
        0 <= flat < shape_product(s),
    ensures
        in_bounds(unravel_spec(flat, s), s),
        ravel_spec(unravel_spec(flat, s), s) == flat,
    decreases s.len(),
{
    if s.len() == 0 {
        assert(shape_product(s) == 1);
    } else {
        let s2 = s.drop_last();
        let l = s.last() as int;
        let p = shape_product(s2) as int;
        lemma_product_drop_last(s);
        assert(l > 0 && p > 0) by (nonlinear_arith)
            requires
                0 <= flat < p * l,
                p >= 0,
                l >= 0,
        ;
        let q = flat / l;
        let r = flat % l;
        assert(0 <= r < l);
        assert(flat == q * l + r) by (nonlinear_arith)
            requires
                l > 0,
                q == flat / l,
                r == flat % l,
        ;
        assert(0 <= q < p) by (nonlinear_arith)
            requires
                flat == q * l + r,
                0 <= r < l,
                0 <= flat < p * l,
        ;
        lemma_unravel_ravel(q, s2);
        let u = unravel_spec(flat, s);
        let u2 = unravel_spec(q, s2);
        assert(u == u2.push(r as usize));
        assert(u.drop_last() =~= u2);
        assert(u.last() == r as usize);
        assert forall|i: int| 0 <= i < s.len() implies #[trigger] u[i] < s[i] by {
            if i < s.len() - 1 {
                assert(u[i] == u2[i]);
                assert(s[i] == s2[i]);
            }
        }
    }
}

/// Ravelling valid coordinates and unravelling the offset gives them back.
pub proof fn lemma_ravel_unravel(c: Seq<usize>, s: Seq<usize>)
    requires
        in_bounds(c, s),
    ensures
        unravel_spec(ravel_spec(c, s), s) =~= c,
    decreases s.len(),
{
    if s.len() == 0 {
    } else {
        let c2 = c.drop_last();
        let s2 = s.drop_last();
        assert(in_bounds(c2, s2)) by {
            assert forall|i: int| 0 <= i < s2.len() implies #[trigger] c2[i] < s2[i] by {
                assert(c2[i] == c[i] && s2[i] == s[i]);
            }
        }
        lemma_ravel_unravel(c2, s2);
        let r = ravel_spec(c2, s2);
        let l = s.last() as int;
        let x = c.last() as int;
        assert(c.last() < s.last()) by {
            assert(c[c.len() - 1] < s[s.len() - 1]);
        }
        vstd::arithmetic::div_mod::lemma_fundamental_div_mod_converse(r * l + x, l, r, x);
        assert(c =~= c2.push(c.last()));
    }
}

/// Horner step: extending the coordinates and the shape by one axis.
pub proof fn lemma_ravel_take_step(c: Seq<usize>, s: Seq<usize>, d: int)
    requires
        c.len() == s.len(),
        0 <= d < s.len(),
    ensures
        ravel_spec(c.take(d + 1), s.take(d + 1)) == ravel_spec(c.take(d), s.take(d)) * s[d] + c[d],
{
    assert(c.take(d + 1).drop_last() =~= c.take(d));
    assert(s.take(d + 1).drop_last() =~= s.take(d));
}

/// A positive-product prefix never exceeds the whole product.
pub proof fn lemma_prefix_product_le(s: Seq<usize>, d: int)
    requires
        0 <= d <= s.len(),
        forall|i: int| 0 <= i < s.len() ==> #[trigger] s[i] > 0,
    ensures
        shape_product(s.take(d)) <= shape_product(s),
        shape_product(s.take(d)) > 0,
{
    assert(s =~= s.take(d) + s.skip(d));
    lemma_product_concat(s.take(d), s.skip(d));
    lemma_product_ge_one(s.take(d));
    lemma_product_ge_one(s.skip(d));
    let a = shape_product(s.take(d));
    let b = shape_product(s.skip(d));
    assert(a <= a * b) by (nonlinear_arith)
        requires
            b >= 1,
    ;
}

/// A shape of positive dimensions has product at least one.
pub proof fn lemma_product_ge_one(s: Seq<usize>)
    requires
        forall|i: int| 0 <= i < s.len() ==> #[trigger] s[i] > 0,
    ensures
        shape_product(s) >= 1,
    decreases s.len(),
{
    if s.len() > 0 {
        assert forall|i: int| 0 <= i < s.drop_first().len() implies #[trigger] s.drop_first()[i]
            > 0 by {
            assert(s.drop_first()[i] == s[i + 1]);
        }
        lemma_product_ge_one(s.drop_first());
        let x = s[0] as nat;
        let p = shape_product(s.drop_first());
        assert(x * p >= 1) by (nonlinear_arith)
            requires
                x >= 1,
                p >= 1,
        ;
    }
}

proof fn lemma_stride_drop_last(s: Seq<usize>, i: int)
    requires
        0 <= i < s.len() - 1,
    ensures
        stride_of(s, i) == stride_of(s.drop_last(), i) * s.last(),
{
    let t = s.skip(i + 1);
    assert(t.drop_last() =~= s.drop_last().skip(i + 1));
    assert(t.last() == s.last());
    lemma_product_drop_last(t);
}

proof fn lemma_strided_offset_scaled(c: Seq<usize>, s: Seq<usize>, k: int)
    requires
        c.len() == s.len(),
        s.len() > 0,
        0 <= k <= s.len() - 1,
    ensures
        strided_offset(c, s, k) == strided_offset(c.drop_last(), s.drop_last(), k) * s.last(),
    decreases k,
{
    if k > 0 {
        lemma_strided_offset_scaled(c, s, k - 1);
        lemma_stride_drop_last(s, k - 1);
        let a = strided_offset(c.drop_last(), s.drop_last(), k - 1);
        let x = c[k - 1] as int;
        let st = stride_of(s.drop_last(), k - 1) as int;
        let l = s.last() as int;
        assert(c.drop_last()[k - 1] == c[k - 1]);
        assert(a * l + x * (st * l) == (a + x * st) * l) by (nonlinear_arith);
    }
}

/// Layout law: the row-major offset of coordinates is their dot product
/// with the strides of the shape.
pub proof fn lemma_strided_offset_is_ravel(c: Seq<usize>, s: Seq<usize>)
    requires
        c.len() == s.len(),
    ensures
        strided_offset(c, s, s.len() as int) == ravel_spec(c, s),
    decreases s.len(),
{
    if s.len() > 0 {
        let n = s.len() as int;
        lemma_strided_offset_is_ravel(c.drop_last(), s.drop_last());
        lemma_strided_offset_scaled(c, s, n - 1);
        assert(s.skip(n) =~= Seq::<usize>::empty());
        assert(stride_of(s, n - 1) == 1);
    }
}

/// Row-major coordinates of a flat offset.
pub fn unravel_index(flat: usize, shape: &[usize]) -> (coords: Vec<usize>)
    requires
        flat < shape_product(shape@),
    ensures
        coords@ == unravel_spec(flat as int, shape@),
        in_bounds(coords@, shape@),
    decreases shape@.len(),
{
    proof {
        lemma_unravel_ravel(flat as int, shape@);
    }
    let n = shape.len();
    if n == 0 {
        return Vec::new();
    }
    let last = shape[n - 1];
    let prefix = &shape[0..n - 1];
    assert(prefix@ =~= shape@.drop_last());
    proof {
        lemma_product_drop_last(shape@);
        let p = shape_product(shape@.drop_last()) as int;
        assert((flat as int) / (last as int) < p && last > 0) by (nonlinear_arith)
            requires
                0 <= flat < p * last,
                p >= 0,
        ;
    }
    let mut coords = unravel_index(flat / last, prefix);
    coords.push(flat % last);
    coords
}

/// Row-major flat offset of valid coordinates.
pub fn ravel_index(coords: &[usize], shape: &[usize]) -> (flat: usize)
    requires
        in_bounds(coords@, shape@),
        shape_product(shape@) <= usize::MAX,
    ensures
        flat == ravel_spec(coords@, shape@),
        flat < shape_product(shape@),
{
    let n = shape.len();
    let mut idx: usize = 0;
    let mut d: usize = 0;
    proof {
        lemma_ravel_bound(coords@, shape@);
        assert(coords@.take(0) =~= Seq::<usize>::empty());
        assert(shape@.take(0) =~= Seq::<usize>::empty());
    }
    while d < n
        invariant
            n == shape@.len(),
            d <= n,
            in_bounds(coords@, shape@),
            shape_product(shape@) <= usize::MAX,
            idx == ravel_spec(coords@.take(d as int), shape@.take(d as int)),
        decreases n - d,
    {
        proof {
            lemma_ravel_take_step(coords@, shape@, d as int);
            let ct = coords@.take(d + 1);
            let st = shape@.take(d + 1);
            assert(in_bounds(ct, st)) by {
                assert forall|i: int| 0 <= i < st.len() implies #[trigger] ct[i] < st[i] by {
                    assert(ct[i] == coords@[i] && st[i] == shape@[i]);
                }
            }
            lemma_ravel_bound(ct, st);
            assert forall|i: int| 0 <= i < shape@.len() implies #[trigger] shape@[i] > 0 by {
                assert(coords@[i] < shape@[i]);
            }
            lemma_prefix_product_le(shape@, d + 1);
            let r = ravel_spec(coords@.take(d as int), shape@.take(d as int));
            assert(r * shape@[d as int] + coords@[d as int] == ravel_spec(ct, st));
            assert(0 <= r * shape@[d as int]) by (nonlinear_arith)
                requires
                    0 <= r,
            ;
        }
        idx = idx * shape[d] + coords[d];
        d += 1;
    }
    assert(coords@.take(n as int) =~= coords@);
    assert(shape@.take(n as int) =~= shape@);
    proof {
        lemma_ravel_bound(coords@, shape@);
    }
    idx
}

} // verus!
