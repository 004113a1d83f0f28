//! Shapes and multi-indices.
//!
//! A shape is a sequence of dimensions, outermost first. Its elements are
//! numbered in row-major order: the last index runs fastest.

use vstd::arithmetic::div_mod::*;
use vstd::arithmetic::mul::*;
use vstd::prelude::*;

verus! {

/// The number of elements of a tensor of the given shape: the product of its dimensions.
pub open spec fn numel(shape: Seq<usize>) -> nat
    decreases shape.len(),
{
    if shape.len() == 0 {
        1
    } else {
        numel(shape.drop_last()) * (shape.last() as nat)
    }
}

/// Whether the element count of `shape`, and of every shape left when outer dimensions are
/// taken off, can be held in a `usize`.
pub open spec fn fits(shape: Seq<usize>) -> bool {
    forall|i: int| 0 <= i <= shape.len() ==> #[trigger] numel(shape.skip(i)) <= usize::MAX
}

/// Whether `index` names an element of a tensor of the given shape.
pub open spec fn in_bounds(index: Seq<int>, shape: Seq<usize>) -> bool {
    &&& index.len() == shape.len()
    &&& forall|i: int| 0 <= i < shape.len() ==> 0 <= #[trigger] index[i] < shape[i]
}

/// The multi-index of the element with row-major number `k`.
pub open spec fn unravel(shape: Seq<usize>, k: int) -> Seq<int>
    decreases shape.len(),
{
    if shape.len() == 0 {
        Seq::empty()
    } else {
        unravel(shape.drop_last(), k / (shape.last() as int)).push(k % (shape.last() as int))
    }
}

/// A sequence of machine integers as a multi-index.
pub open spec fn as_index(index: Seq<usize>) -> Seq<int> {
    Seq::new(index.len(), |i: int| index[i] as int)
}

/// The row-major number of the element with the given multi-index.
pub open spec fn flat(shape: Seq<usize>, index: Seq<int>) -> int
    decreases shape.len(),
{
    if shape.len() == 0 {
        0
    } else {
        flat(shape.drop_last(), index.drop_last()) * shape.last() + index.last()
    }
}

/// The sum of `index[i] * strides[i]`.
pub open spec fn dot(index: Seq<int>, strides: Seq<usize>) -> int
    decreases strides.len(),
{
    if strides.len() == 0 {
        0
    } else {
        dot(index.drop_last(), strides.drop_last()) + index.last() * strides.last()
    }
}

/// The dimensions of `shape` moved so that dimension `i` of the result is dimension
/// `permutation[i]` of `shape`.
pub open spec fn permuted<A>(items: Seq<A>, permutation: Seq<usize>) -> Seq<A> {
    Seq::new(permutation.len(), |i: int| items[permutation[i] as int])
}

/// Whether `permutation` lists every dimension below `ndims` exactly once.
pub open spec fn is_permutation(permutation: Seq<usize>, ndims: nat) -> bool {
    &&& permutation.len() == ndims
    &&& forall|i: int| 0 <= i < ndims ==> #[trigger] permutation[i] < ndims
    &&& permutation.no_duplicates()
}

pub proof fn lemma_numel_push(shape: Seq<usize>, n: usize)
    ensures
        numel(shape.push(n)) == numel(shape) * n,
{
    assert(shape.push(n).drop_last() =~= shape);
}

/// A shape without a zero dimension has an element; a shape with one has none.
pub proof fn lemma_numel_positive(shape: Seq<usize>)
    ensures
        numel(shape) > 0 <==> (forall|i: int| 0 <= i < shape.len() ==> #[trigger] shape[i] > 0),
    decreases shape.len(),
{
    if shape.len() > 0 {
        let rest = shape.drop_last();
        lemma_numel_positive(rest);
        let a = numel(rest);
        let b = shape.last() as nat;
        assert(a * b > 0 <==> a > 0 && b > 0) by (nonlinear_arith);
        assert(forall|i: int| 0 <= i < rest.len() ==> rest[i] == shape[i]);
        if a > 0 && b > 0 {
            assert forall|i: int| 0 <= i < shape.len() implies #[trigger] shape[i] > 0 by {
                if i < rest.len() {
                    assert(rest[i] > 0);
                }
            }
        }
        if forall|i: int| 0 <= i < shape.len() ==> #[trigger] shape[i] > 0 {
            assert forall|i: int| 0 <= i < rest.len() implies #[trigger] rest[i] > 0 by {
                assert(shape[i] > 0);
            }
            assert(shape[shape.len() - 1] > 0);
        }
    }
}

/// The outermost dimension of what is left after `i` dimensions multiplies the rest.
pub proof fn lemma_numel_skip(shape: Seq<usize>, i: int)
    requires
        0 <= i < shape.len(),
    ensures
        numel(shape.skip(i)) == shape[i] * numel(shape.skip(i + 1)),
{
    assert(shape.skip(i) =~= seq![shape[i]] + shape.skip(i + 1));
    lemma_numel_append(seq![shape[i]], shape.skip(i + 1));
    assert(seq![shape[i]] =~= Seq::<usize>::empty().push(shape[i]));
    lemma_numel_push(Seq::empty(), shape[i]);
    assert(numel(Seq::empty()) == 1);
    lemma_mul_basics_4(shape[i] as int);
}

pub proof fn lemma_numel_append(a: Seq<usize>, b: Seq<usize>)
    ensures
        numel(a + b) == numel(a) * numel(b),
    decreases b.len(),
{
    if b.len() == 0 {
        assert(a + b =~= a);
        lemma_mul_basics_3(numel(a) as int);
    } else {
        lemma_numel_append(a, b.drop_last());
        assert((a + b).drop_last() =~= a + b.drop_last());
        lemma_mul_is_associative(
            numel(a) as int,
            numel(b.drop_last()) as int,
            b.last() as int,
        );
    }
}

/// Taking dimensions off a shape that has elements leaves no more elements.
pub proof fn lemma_numel_part(shape: Seq<usize>, i: int)
    requires
        0 <= i <= shape.len(),
        numel(shape) > 0,
    ensures
        0 < numel(shape.take(i)) <= numel(shape),
        0 < numel(shape.skip(i)) <= numel(shape),
        numel(shape.take(i)) * numel(shape.skip(i)) == numel(shape),
{
    let a = numel(shape.take(i));
    let b = numel(shape.skip(i));
    assert(shape.take(i) + shape.skip(i) =~= shape);
    lemma_numel_append(shape.take(i), shape.skip(i));
    assert(a > 0 && b > 0 && a <= a * b && b <= a * b) by (nonlinear_arith)
        requires
            a * b > 0,
            a >= 0,
            b >= 0,
    ;
}

/// The elements of a shape that has any can be counted dimension by dimension, from the inside.
pub proof fn lemma_fits(shape: Seq<usize>)
    requires
        0 < numel(shape) <= usize::MAX,
    ensures
        fits(shape),
{
    assert forall|i: int| 0 <= i <= shape.len() implies #[trigger] numel(shape.skip(i))
        <= usize::MAX by {
        lemma_numel_part(shape, i);
    }
}

/// A dimension-wise product of two shapes has the product of their element counts.
pub proof fn lemma_numel_product(a: Seq<usize>, b: Seq<usize>, c: Seq<usize>)
    requires
        a.len() == b.len() == c.len(),
        forall|i: int| 0 <= i < c.len() ==> #[trigger] c[i] == a[i] * b[i],
    ensures
        numel(a) * numel(b) == numel(c),
    decreases c.len(),
{
    if c.len() > 0 {
        lemma_numel_product(a.drop_last(), b.drop_last(), c.drop_last());
        let x = numel(a.drop_last());
        let y = numel(b.drop_last());
        let p = a.last() as nat;
        let q = b.last() as nat;
        assert(c.last() == p * q);
        assert((x * p) * (y * q) == (x * y) * (p * q)) by (nonlinear_arith);
        assert(numel(a) == x * p && numel(b) == y * q);
        assert(numel(c) == numel(c.drop_last()) * (p * q));
    } else {
        assert(numel(a) == 1 && numel(b) == 1);
    }
}

/// Smaller dimensions give fewer elements.
pub proof fn lemma_numel_monotone(a: Seq<usize>, b: Seq<usize>)
    requires
        a.len() == b.len(),
        forall|i: int| 0 <= i < a.len() ==> #[trigger] a[i] <= b[i],
    ensures
        numel(a) <= numel(b),
    decreases a.len(),
{
    if a.len() > 0 {
        assert(a.last() == a[a.len() - 1] && b.last() == b[a.len() - 1]);
        lemma_numel_monotone(a.drop_last(), b.drop_last());
        lemma_mul_upper_bound(
            numel(a.drop_last()) as int,
            numel(b.drop_last()) as int,
            a.last() as int,
            b.last() as int,
        );
    }
}

/// Taking dimension `i` out of a shape divides its element count by that dimension.
pub proof fn lemma_numel_remove(shape: Seq<usize>, i: int)
    requires
        0 <= i < shape.len(),
    ensures
        numel(shape) == numel(shape.remove(i)) * shape[i],
    decreases shape.len(),
{
    if i == shape.len() - 1 {
        assert(shape.remove(i) =~= shape.drop_last());
    } else {
        let rest = shape.drop_last();
        lemma_numel_remove(rest, i);
        assert(shape.remove(i).drop_last() =~= rest.remove(i));
        let x = numel(rest.remove(i));
        let p = shape[i] as nat;
        let q = shape.last() as nat;
        assert((x * p) * q == (x * q) * p) by (nonlinear_arith);
    }
}

/// Moving dimensions keeps the element count.
pub proof fn lemma_numel_permuted(shape: Seq<usize>, permutation: Seq<usize>)
    requires
        is_permutation(permutation, shape.len()),
    ensures
        numel(permuted(shape, permutation)) == numel(shape),
    decreases shape.len(),
{
    if shape.len() > 0 {
        let q = permutation.last() as int;
        let rest = permutation_rest(permutation);
        lemma_permutation_rest(permutation);
        lemma_numel_permuted(shape.remove(q), rest);
        assert(permuted(shape, permutation).drop_last() =~= permuted(shape.remove(q), rest));
        lemma_numel_remove(shape, q);
    }
}

/// What is left of a permutation when its last entry is taken off and the entries above it
/// move down by one.
pub open spec fn permutation_rest(permutation: Seq<usize>) -> Seq<usize> {
    Seq::new(
        (permutation.len() - 1) as nat,
        |i: int|
            if permutation[i] > permutation.last() {
                (permutation[i] - 1) as usize
            } else {
                permutation[i]
            },
    )
}

pub proof fn lemma_permutation_rest(permutation: Seq<usize>)
    requires
        permutation.len() > 0,
        is_permutation(permutation, permutation.len()),
    ensures
        is_permutation(permutation_rest(permutation), (permutation.len() - 1) as nat),
        forall|i: int|
            0 <= i < permutation.len() - 1 ==> #[trigger] permutation[i] != permutation.last(),
{
    let rest = permutation_rest(permutation);
    let n = permutation.len() - 1;
    assert(permutation[n] == permutation.last());
    assert forall|i: int| 0 <= i < n implies #[trigger] rest[i] < n by {
        assert(permutation[i] < permutation.len());
        assert(permutation[i] != permutation[n]);
    }
    assert forall|i: int, j: int| 0 <= i < n && 0 <= j < n && i != j implies rest[i]
        != rest[j] by {
        assert(permutation[i] != permutation[n]);
        assert(permutation[j] != permutation[n]);
        assert(permutation[i] != permutation[j]);
    }
}

pub proof fn lemma_dot_push(index: Seq<int>, strides: Seq<usize>, x: int, s: usize)
    ensures
        dot(index.push(x), strides.push(s)) == dot(index, strides) + x * s,
{
    assert(index.push(x).drop_last() =~= index);
    assert(strides.push(s).drop_last() =~= strides);
}

/// The first terms of `dot` are no more than all of them.
pub proof fn lemma_dot_take(index: Seq<int>, strides: Seq<usize>, i: int)
    requires
        index.len() == strides.len(),
        0 <= i <= strides.len(),
        forall|j: int| 0 <= j < index.len() ==> 0 <= #[trigger] index[j],
    ensures
        0 <= dot(index.take(i), strides.take(i)) <= dot(index, strides),
    decreases strides.len(),
{
    if i == strides.len() {
        assert(index.take(i) =~= index);
        assert(strides.take(i) =~= strides);
        lemma_dot_monotone(index, index, strides);
    } else {
        lemma_dot_take(index.drop_last(), strides.drop_last(), i);
        assert(index.drop_last().take(i) =~= index.take(i));
        assert(strides.drop_last().take(i) =~= strides.take(i));
        assert(index.last() == index[index.len() - 1]);
        lemma_mul_nonnegative(index.last(), strides.last() as int);
    }
}

/// `dot` is additive in the index.
pub proof fn lemma_dot_sum(a: Seq<int>, b: Seq<int>, c: Seq<int>, strides: Seq<usize>)
    requires
        a.len() == b.len() == c.len() == strides.len(),
        forall|i: int| 0 <= i < c.len() ==> #[trigger] c[i] == a[i] + b[i],
    ensures
        dot(c, strides) == dot(a, strides) + dot(b, strides),
    decreases strides.len(),
{
    if strides.len() > 0 {
        lemma_dot_sum(a.drop_last(), b.drop_last(), c.drop_last(), strides.drop_last());
        assert(c.last() == a.last() + b.last());
        lemma_mul_is_distributive_add_other_way(strides.last() as int, a.last(), b.last());
    }
}

/// `dot` is monotone in the index.
pub proof fn lemma_dot_monotone(a: Seq<int>, b: Seq<int>, strides: Seq<usize>)
    requires
        a.len() == b.len() == strides.len(),
        forall|i: int| 0 <= i < a.len() ==> 0 <= #[trigger] a[i] <= b[i],
    ensures
        0 <= dot(a, strides) <= dot(b, strides),
    decreases strides.len(),
{
    if strides.len() > 0 {
        lemma_dot_monotone(a.drop_last(), b.drop_last(), strides.drop_last());
        let i = a.len() - 1;
        assert(a.last() == a[i] && b.last() == b[i]);
        lemma_mul_inequality(a.last(), b.last(), strides.last() as int);
        lemma_mul_nonnegative(a.last(), strides.last() as int);
    }
}

/// `dot` sees only the products: where they agree term by term, the sums agree.
pub proof fn lemma_dot_congruent(a: Seq<int>, s: Seq<usize>, b: Seq<int>, t: Seq<usize>)
    requires
        a.len() == s.len() == b.len() == t.len(),
        forall|i: int| 0 <= i < a.len() ==> #[trigger] a[i] * s[i] == b[i] * t[i],
    ensures
        dot(a, s) == dot(b, t),
    decreases s.len(),
{
    if s.len() > 0 {
        let i = a.len() - 1;
        assert(a[i] * s[i] == b[i] * t[i]);
        assert forall|i: int| 0 <= i < a.drop_last().len() implies #[trigger] a.drop_last()[i]
            * s.drop_last()[i] == b.drop_last()[i] * t.drop_last()[i] by {
            assert(a[i] * s[i] == b[i] * t[i]);
        }
        lemma_dot_congruent(a.drop_last(), s.drop_last(), b.drop_last(), t.drop_last());
    }
}

proof fn lemma_dot_remove(index: Seq<int>, strides: Seq<usize>, i: int)
    requires
        index.len() == strides.len(),
        0 <= i < strides.len(),
    ensures
        dot(index, strides) == dot(index.remove(i), strides.remove(i)) + index[i] * strides[i],
    decreases strides.len(),
{
    if i == strides.len() - 1 {
        assert(index.remove(i) =~= index.drop_last());
        assert(strides.remove(i) =~= strides.drop_last());
    } else {
        lemma_dot_remove(index.drop_last(), strides.drop_last(), i);
        assert(index.remove(i).drop_last() =~= index.drop_last().remove(i));
        assert(strides.remove(i).drop_last() =~= strides.drop_last().remove(i));
    }
}

/// Moving the entries of both sequences in the same way keeps `dot`.
pub proof fn lemma_dot_permuted(index: Seq<int>, strides: Seq<usize>, permutation: Seq<usize>)
    requires
        index.len() == strides.len(),
        is_permutation(permutation, strides.len()),
    ensures
        dot(permuted(index, permutation), permuted(strides, permutation)) == dot(index, strides),
    decreases strides.len(),
{
    if strides.len() > 0 {
        let q = permutation.last() as int;
        let rest = permutation_rest(permutation);
        lemma_permutation_rest(permutation);
        lemma_dot_permuted(index.remove(q), strides.remove(q), rest);
        assert(permuted(index, permutation).drop_last() =~= permuted(index.remove(q), rest));
        assert(permuted(strides, permutation).drop_last() =~= permuted(strides.remove(q), rest));
        lemma_dot_remove(index, strides, q);
    }
}

/// Row-major numbers name elements.
pub proof fn lemma_unravel_in_bounds(shape: Seq<usize>, k: int)
    requires
        0 <= k < numel(shape),
    ensures
        in_bounds(unravel(shape, k), shape),
    decreases shape.len(),
{
    if shape.len() > 0 {
        let n = shape.last() as int;
        lemma_step_in_bounds(shape, k);
        lemma_unravel_in_bounds(shape.drop_last(), k / n);
        let u = unravel(shape.drop_last(), k / n);
        assert forall|i: int| 0 <= i < shape.len() implies 0 <= #[trigger] unravel(shape, k)[i]
            < shape[i] by {
            if i < shape.len() - 1 {
                assert(0 <= u[i] < shape.drop_last()[i]);
            }
        }
    }
}

/// The row-major number of an element splits into one of the outer shape and an innermost index.
pub proof fn lemma_step_in_bounds(shape: Seq<usize>, k: int)
    requires
        shape.len() > 0,
        0 <= k < numel(shape),
    ensures
        shape.last() > 0,
        numel(shape.drop_last()) > 0,
        0 <= k / (shape.last() as int) < numel(shape.drop_last()),
        0 <= k % (shape.last() as int) < shape.last(),
{
    let n = shape.last() as int;
    let m = numel(shape.drop_last()) as int;
    assert(n > 0 && m > 0) by (nonlinear_arith)
        requires
            m * n > 0,
            n >= 0,
            m >= 0,
    ;
    lemma_mod_bound(k, n);
    lemma_div_pos_is_pos(k, n);
    assert(k / n < m) by (nonlinear_arith)
        requires
            k < m * n,
            n > 0,
    ;
}

/// Numbering and unravelling are inverse to each other.
pub proof fn lemma_flat_unravel(shape: Seq<usize>, k: int)
    requires
        0 <= k < numel(shape),
    ensures
        flat(shape, unravel(shape, k)) == k,
    decreases shape.len(),
{
    if shape.len() > 0 {
        let n = shape.last() as int;
        lemma_step_in_bounds(shape, k);
        lemma_flat_unravel(shape.drop_last(), k / n);
        let u = unravel(shape.drop_last(), k / n);
        assert(unravel(shape, k).drop_last() =~= u);
        lemma_fundamental_div_mod(k, n);
        lemma_mul_is_commutative(n, k / n);
    }
}

/// Unravelling and numbering are inverse to each other.
pub proof fn lemma_unravel_flat(shape: Seq<usize>, index: Seq<int>)
    requires
        in_bounds(index, shape),
    ensures
        0 <= flat(shape, index) < numel(shape),
        unravel(shape, flat(shape, index)) == index,
    decreases shape.len(),
{
    if shape.len() > 0 {
        let n = shape.last() as int;
        let rest = shape.drop_last();
        assert forall|i: int| 0 <= i < rest.len() implies 0 <= #[trigger] index.drop_last()[i]
            < rest[i] by {
            assert(0 <= index[i] < shape[i]);
        }
        lemma_unravel_flat(rest, index.drop_last());
        let f = flat(rest, index.drop_last());
        let x = index.last();
        let m = numel(rest) as int;
        assert(index[shape.len() - 1] == x);
        assert(0 <= f * n + x < m * n) by (nonlinear_arith)
            requires
                0 <= f < m,
                0 <= x < n,
        ;
        lemma_fundamental_div_mod_converse(f * n + x, n, f, x);
        assert(index.drop_last().push(x) =~= index);
    } else {
        assert(index =~= Seq::empty());
    }
}

} // verus!
