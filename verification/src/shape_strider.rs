//! The layout of a tensor, and the layouts that can be had from it without moving an element.

use vstd::arithmetic::div_mod::*;
use vstd::arithmetic::mul::*;
use vstd::prelude::*;

use crate::error::TensorError;
use crate::shape;
use crate::strided;
use crate::strided::Strided;

verus! {

/// A shape, a stride for each dimension, and an offset into a buffer, all counted in elements.
#[derive(Debug)]
pub struct ShapeStrider {
    shape: Vec<usize>,
    strides: Vec<usize>,
    offset: usize,
}

impl View for ShapeStrider {
    type V = Strided;

    closed spec fn view(&self) -> Strided {
        Strided { shape: self.shape@, strides: self.strides@, offset: self.offset }
    }
}

impl Clone for ShapeStrider {
    fn clone(&self) -> (copy: ShapeStrider)
        ensures
            copy@ == self@,
    {
        proof {
            use_type_invariant(self);
        }
        ShapeStrider {
            shape: copied(self.shape.as_slice()),
            strides: copied(self.strides.as_slice()),
            offset: self.offset,
        }
    }
}

/// The element count of a shape, if it can be held.
pub fn checked_size(shape: &[usize]) -> (size: Option<usize>)
    ensures
        size is Some <==> shape::numel(shape@) <= usize::MAX,
        size matches Some(n) ==> n == shape::numel(shape@),
{
    let ndims: usize = shape.len();
    let mut i: usize = 0;
    while i < ndims
        invariant
            i <= ndims == shape@.len(),
            forall|j: int| 0 <= j < i ==> #[trigger] shape@[j] > 0,
        decreases ndims - i,
    {
        if shape[i] == 0 {
            proof {
                shape::lemma_numel_positive(shape@);
            }
            return Some(0);
        }
        i += 1;
    }
    proof {
        shape::lemma_numel_positive(shape@);
        assert(shape@.take(0) =~= Seq::empty());
    }
    let mut size: usize = 1;
    let mut i: usize = 0;
    while i < ndims
        invariant
            i <= ndims == shape@.len(),
            shape::numel(shape@) > 0,
            size == shape::numel(shape@.take(i as int)),
        decreases ndims - i,
    {
        proof {
            shape::lemma_numel_part(shape@, i + 1);
            assert(shape@.take(i + 1) =~= shape@.take(i as int).push(shape@[i as int]));
            shape::lemma_numel_push(shape@.take(i as int), shape@[i as int]);
        }
        match size.checked_mul(shape[i]) {
            Some(product) => {
                size = product;
            },
            None => {
                return None;
            },
        }
        i += 1;
    }
    proof {
        assert(shape@.take(ndims as int) =~= shape@);
    }
    Some(size)
}

/// Whether two sequences are the same.
pub fn same_words(a: &[usize], b: &[usize]) -> (same: bool)
    ensures
        same == (a@ == b@),
{
    if a.len() != b.len() {
        return false;
    }
    let n: usize = a.len();
    let mut i: usize = 0;
    while i < n
        invariant
            i <= n == a@.len() == b@.len(),
            forall|j: int| 0 <= j < i ==> #[trigger] a@[j] == b@[j],
        decreases n - i,
    {
        if a[i] != b[i] {
            return false;
        }
        i += 1;
    }
    proof {
        assert(a@ =~= b@);
    }
    true
}

/// The same positions in lowest terms: without the dimensions of size one, and with neighbours
/// taken together where the outer stride is what the inner dimension spans.
fn lowest_terms(shape: &[usize], strides: &[usize]) -> (lowest: (Vec<usize>, Vec<usize>))
    requires
        shape@.len() == strides@.len(),
        0 < shape::numel(shape@) <= usize::MAX,
    ensures
        strided::lowest(lowest.0@, lowest.1@),
        shape::numel(lowest.0@) == shape::numel(shape@),
        forall|k: int|
            0 <= k < shape::numel(shape@) ==> #[trigger] strided::walk(lowest.0@, lowest.1@, k)
                == strided::walk(shape@, strides@, k),
{
    let mut dims: Vec<usize> = Vec::new();
    let mut steps: Vec<usize> = Vec::new();
    let ndims: usize = shape.len();
    let mut i: usize = 0;
    proof {
        assert(shape@.take(0) =~= dims@);
        assert(strides@.take(0) =~= steps@);
    }
    while i < ndims
        invariant
            i <= ndims == shape@.len() == strides@.len(),
            0 < shape::numel(shape@) <= usize::MAX,
            strided::lowest(dims@, steps@),
            shape::numel(dims@) == shape::numel(shape@.take(i as int)),
            forall|k: int|
                0 <= k < shape::numel(dims@) ==> #[trigger] strided::walk(dims@, steps@, k)
                    == strided::walk(shape@.take(i as int), strides@.take(i as int), k),
        decreases ndims - i,
    {
        let n: usize = shape[i];
        let s: usize = strides[i];
        let ghost head = shape@.take(i as int);
        let ghost head_strides = strides@.take(i as int);
        let ghost old_dims = dims@;
        let ghost old_steps = steps@;
        proof {
            shape::lemma_numel_part(shape@, i + 1);
            assert(shape@.take(i + 1) =~= head.push(n));
            assert(strides@.take(i + 1) =~= head_strides.push(s));
            shape::lemma_numel_push(head, n);
            shape::lemma_numel_push(old_dims, n);
            shape::lemma_numel_positive(shape@);
            assert(shape@[i as int] > 0);
            // An element of the longer shape has its outer part in the shorter one.
            assert forall|k: int| 0 <= k < shape::numel(head.push(n)) implies #[trigger]
                strided::walk(old_dims.push(n), old_steps.push(s), k) == strided::walk(
                head.push(n),
                head_strides.push(s),
                k,
            ) by {
                assert(old_dims.push(n).drop_last() =~= old_dims);
                assert(old_steps.push(s).drop_last() =~= old_steps);
                assert(head.push(n).drop_last() =~= head);
                assert(head_strides.push(s).drop_last() =~= head_strides);
                shape::lemma_step_in_bounds(head.push(n), k);
                strided::lemma_walk_step(old_dims.push(n), old_steps.push(s), k);
                strided::lemma_walk_step(head.push(n), head_strides.push(s), k);
                let q = k / (n as int);
                assert(strided::walk(old_dims, old_steps, q) == strided::walk(
                    head,
                    head_strides,
                    q,
                ));
            }
        }
        if n == 1 {
            proof {
                lemma_mul_basics_3(shape::numel(head) as int);
                assert forall|k: int| 0 <= k < shape::numel(dims@) implies #[trigger]
                    strided::walk(dims@, steps@, k) == strided::walk(
                    shape@.take(i + 1),
                    strides@.take(i + 1),
                    k,
                ) by {
                    strided::lemma_walk_skip_unit(dims@, steps@, s, k);
                    assert(strided::walk(old_dims.push(n), old_steps.push(s), k)
                        == strided::walk(head.push(n), head_strides.push(s), k));
                }
            }
        } else {
            let len: usize = dims.len();
            let mut mergeable: bool = false;
            if len > 0 {
                match n.checked_mul(s) {
                    Some(spanned) => {
                        mergeable = steps[len - 1] == spanned;
                    },
                    None => {},
                }
            }
            if mergeable {
                let outer: usize = dims[len - 1];
                let ghost rest = old_dims.drop_last();
                let ghost rest_steps = old_steps.drop_last();
                let ghost outer_step = old_steps.last();
                proof {
                    assert(old_dims =~= rest.push(outer));
                    assert(old_steps =~= rest_steps.push(outer_step));
                    shape::lemma_numel_push(rest, outer);
                    let a = shape::numel(rest) as int;
                    assert(old_dims[len - 1] >= 2);
                    assert(a * outer * n <= usize::MAX);
                    assert(a > 0 && outer * n <= usize::MAX && outer * n >= 2) by (nonlinear_arith)
                        requires
                            0 < a * outer * n <= usize::MAX,
                            a >= 0,
                            outer >= 2,
                            n >= 2,
                    ;
                }
                let merged: usize = outer * n;
                dims.pop();
                steps.pop();
                dims.push(merged);
                steps.push(s);
                proof {
                    assert(dims@ =~= rest.push(merged));
                    assert(steps@ =~= rest_steps.push(s));
                    shape::lemma_numel_push(rest, merged);
                    lemma_mul_is_associative(shape::numel(rest) as int, outer as int, n as int);
                    assert forall|k: int| 0 <= k < shape::numel(dims@) implies #[trigger]
                        strided::walk(dims@, steps@, k) == strided::walk(
                        shape@.take(i + 1),
                        strides@.take(i + 1),
                        k,
                    ) by {
                        strided::lemma_walk_merge(
                            rest,
                            rest_steps,
                            outer,
                            outer_step,
                            n,
                            s,
                            merged,
                            k,
                        );
                        assert(strided::walk(old_dims.push(n), old_steps.push(s), k)
                            == strided::walk(head.push(n), head_strides.push(s), k));
                    }
                    assert forall|j: int| 0 <= j < dims@.len() implies #[trigger] dims@[j]
                        >= 2 by {
                        if j < rest.len() {
                            assert(old_dims[j] >= 2);
                        }
                    }
                    assert forall|j: int| 0 <= j < dims@.len() - 1 implies #[trigger] steps@[j]
                        != dims@[j + 1] * steps@[j + 1] by {
                        assert(old_steps[j] != old_dims[j + 1] * old_steps[j + 1]);
                        if j == dims@.len() - 2 {
                            lemma_mul_is_associative(outer as int, n as int, s as int);
                        }
                    }
                }
            } else {
                dims.push(n);
                steps.push(s);
                proof {
                    assert forall|j: int| 0 <= j < dims@.len() implies #[trigger] dims@[j]
                        >= 2 by {
                        if j < old_dims.len() {
                            assert(old_dims[j] >= 2);
                        }
                    }
                    assert forall|j: int| 0 <= j < dims@.len() - 1 implies #[trigger] steps@[j]
                        != dims@[j + 1] * steps@[j + 1] by {
                        if j < old_dims.len() - 1 {
                            assert(old_steps[j] != old_dims[j + 1] * old_steps[j + 1]);
                        }
                    }
                }
            }
        }
        i += 1;
    }
    proof {
        assert(shape@.take(ndims as int) =~= shape@);
        assert(strides@.take(ndims as int) =~= strides@);
    }
    (dims, steps)
}

/// A copy of a sequence.
fn copied(words: &[usize]) -> (copy: Vec<usize>)
    ensures
        copy@ == words@,
{
    let mut copy: Vec<usize> = Vec::new();
    let n: usize = words.len();
    let mut i: usize = 0;
    while i < n
        invariant
            i <= n == words@.len(),
            copy@ =~= words@.take(i as int),
        decreases n - i,
    {
        copy.push(words[i]);
        i += 1;
    }
    proof {
        assert(words@.take(n as int) =~= words@);
    }
    copy
}

impl ShapeStrider {
    /// Every layout can be addressed.
    #[verifier::type_invariant]
    pub open spec fn wf(self) -> bool {
        self@.wf()
    }

    /// The row-major layout without gaps, at the start of a buffer.
    pub fn contiguous(shape: &[usize]) -> (result: Result<ShapeStrider, TensorError>)
        ensures
            match result {
                Ok(strider) => shape::fits(shape@) && strider@ == Strided::contiguous(shape@),
                Err(error) => !shape::fits(shape@) && error == TensorError::TooLarge,
            },
            result matches Ok(strider) ==> {
                &&& strider@.shape == shape@
                &&& strider@.offset == 0
                &&& strider@.strides.len() == shape@.len()
                &&& forall|i: int|
                    0 <= i < shape@.len() ==> #[trigger] strider@.strides[i] == shape::numel(
                        shape@.skip(i + 1),
                    )
            },
    {
        let ndims: usize = shape.len();
        let mut reversed: Vec<usize> = Vec::new();
        let mut inner: usize = 1;
        let mut i: usize = ndims;
        proof {
            assert(shape@.skip(ndims as int) =~= Seq::empty());
        }
        while i > 0
            invariant
                i <= ndims == shape@.len(),
                reversed@.len() == ndims - i,
                inner == shape::numel(shape@.skip(i as int)),
                forall|j: int|
                    i <= j <= ndims ==> #[trigger] shape::numel(shape@.skip(j)) <= usize::MAX,
                forall|j: int|
                    0 <= j < ndims - i ==> #[trigger] reversed@[j] == shape::numel(
                        shape@.skip(ndims - j),
                    ),
            decreases i,
        {
            i -= 1;
            reversed.push(inner);
            proof {
                shape::lemma_numel_skip(shape@, i as int);
                lemma_mul_is_commutative(inner as int, shape@[i as int] as int);
            }
            match inner.checked_mul(shape[i]) {
                Some(product) => {
                    inner = product;
                },
                None => {
                    return Err(TensorError::TooLarge);
                },
            }
        }
        let mut strides: Vec<usize> = Vec::new();
        while i < ndims
            invariant
                i <= ndims == shape@.len() == reversed@.len(),
                forall|j: int|
                    0 <= j <= ndims ==> #[trigger] shape::numel(shape@.skip(j)) <= usize::MAX,
                forall|j: int|
                    0 <= j < ndims ==> #[trigger] reversed@[j] == shape::numel(
                        shape@.skip(ndims - j),
                    ),
                strides@ =~= strided::contiguous_strides(shape@).take(i as int),
            decreases ndims - i,
        {
            proof {
                assert(reversed@[ndims - 1 - i] == shape::numel(shape@.skip(i + 1)));
            }
            strides.push(reversed[ndims - 1 - i]);
            i += 1;
        }
        proof {
            assert(shape::fits(shape@));
            assert(shape@.skip(0) =~= shape@);
            assert(strides@ =~= strided::contiguous_strides(shape@));
            strided::lemma_contiguous(Strided::contiguous(shape@));
        }
        Ok(ShapeStrider { shape: copied(shape), strides, offset: 0 })
    }

    /// The dimensions, outermost first.
    pub fn shape(&self) -> (shape: &[usize])
        ensures
            shape@ == self@.shape,
    {
        self.shape.as_slice()
    }

    /// The stride of each dimension.
    pub fn strides(&self) -> (strides: &[usize])
        ensures
            strides@ == self@.strides,
    {
        self.strides.as_slice()
    }

    /// Where the first element stands.
    pub fn offset(&self) -> (offset: usize)
        ensures
            offset == self@.offset,
    {
        self.offset
    }

    /// The number of dimensions.
    pub fn ndims(&self) -> (ndims: usize)
        ensures
            ndims == self@.shape.len(),
    {
        self.shape.len()
    }

    /// The number of elements.
    pub fn size(&self) -> (size: usize)
        ensures
            size == self@.numel(),
    {
        proof {
            use_type_invariant(self);
        }
        match checked_size(self.shape.as_slice()) {
            Some(size) => size,
            None => 0,
        }
    }

    /// Where the element with the given multi-index stands.
    pub fn buffer_index(&self, index: &[usize]) -> (position: usize)
        requires
            shape::in_bounds(shape::as_index(index@), self@.shape),
        ensures
            position == self@.index_of(shape::as_index(index@)),
            position == self@.offset + shape::dot(
                Seq::new(index@.len(), |i: int| index@[i] as int),
                self@.strides,
            ),
    {
        let ghost full = shape::as_index(index@);
        proof {
            use_type_invariant(self);
            strided::lemma_index_bound(self@, full);
            shape::lemma_unravel_flat(self@.shape, full);
            assert(full.take(0) =~= Seq::empty());
        }
        let mut position: usize = self.offset;
        let ndims: usize = self.shape.len();
        let mut i: usize = 0;
        while i < ndims
            invariant
                i <= ndims == self.shape@.len() == self.strides@.len() == index@.len(),
                full == shape::as_index(index@),
                self.offset + shape::dot(full, self.strides@) <= usize::MAX,
                position == self.offset + shape::dot(
                    full.take(i as int),
                    self.strides@.take(i as int),
                ),
            decreases ndims - i,
        {
            proof {
                shape::lemma_dot_take(full, self.strides@, i as int);
                shape::lemma_dot_take(full, self.strides@, i + 1);
                assert(full.take(i + 1) =~= full.take(i as int).push(full[i as int]));
                assert(self.strides@.take(i + 1) =~= self.strides@.take(i as int).push(
                    self.strides@[i as int],
                ));
                shape::lemma_dot_push(
                    full.take(i as int),
                    self.strides@.take(i as int),
                    full[i as int],
                    self.strides@[i as int],
                );
                lemma_mul_nonnegative(full[i as int], self.strides@[i as int] as int);
            }
            position = position + index[i] * self.strides[i];
            i += 1;
        }
        proof {
            assert(full.take(ndims as int) =~= full);
            assert(self.strides@.take(ndims as int) =~= self.strides@);
        }
        position
    }

    /// Where the element with row-major number `k` stands.
    pub fn position(&self, k: usize) -> (position: usize)
        requires
            k < self@.numel(),
        ensures
            position == self@.position(k as int),
            position == self@.offset + shape::dot(
                shape::unravel(self@.shape, k as int),
                self@.strides,
            ),
    {
        proof {
            use_type_invariant(self);
            strided::lemma_position_bound(self@, k as int);
            assert(self.shape@.take(self.shape@.len() as int) =~= self.shape@);
            assert(self.strides@.take(self.shape@.len() as int) =~= self.strides@);
        }
        let mut position: usize = self.offset;
        let mut rest: usize = k;
        let mut i: usize = self.shape.len();
        while i > 0
            invariant
                i <= self.shape@.len() == self.strides@.len(),
                rest < shape::numel(self.shape@.take(i as int)),
                position + strided::walk(
                    self.shape@.take(i as int),
                    self.strides@.take(i as int),
                    rest as int,
                ) == self@.position(k as int),
                self@.position(k as int) <= usize::MAX,
            decreases i,
        {
            let ghost head = self.shape@.take(i as int);
            let ghost steps = self.strides@.take(i as int);
            i -= 1;
            proof {
                assert(head.drop_last() =~= self.shape@.take(i as int));
                assert(steps.drop_last() =~= self.strides@.take(i as int));
                shape::lemma_step_in_bounds(head, rest as int);
                strided::lemma_walk_step(head, steps, rest as int);
                let inner = Strided {
                    shape: head.drop_last(),
                    strides: steps.drop_last(),
                    offset: 0,
                };
                strided::lemma_position_bound(inner, rest as int / (head.last() as int));
                lemma_mul_nonnegative(
                    rest as int % (head.last() as int),
                    steps.last() as int,
                );
            }
            let n: usize = self.shape[i];
            position = position + (rest % n) * self.strides[i];
            rest = rest / n;
        }
        proof {
            assert(self.strides@.take(0) =~= Seq::empty());
        }
        position
    }

    /// Whether the elements stand one after the other.
    pub fn is_contiguous(&self) -> (contiguous: bool)
        ensures
            contiguous == self@.is_contiguous(),
            contiguous == (forall|k: int|
                0 <= k < shape::numel(self@.shape) ==> shape::dot(
                    #[trigger] shape::unravel(self@.shape, k),
                    self@.strides,
                ) == k),
    {
        proof {
            use_type_invariant(self);
            self.lemma_one_after_the_other();
        }
        let size: usize = self.size();
        if size == 0 {
            return true;
        }
        let (dims, steps) = lowest_terms(self.shape.as_slice(), self.strides.as_slice());
        let contiguous: bool = dims.len() == 0 || (dims.len() == 1 && steps[0] == 1);
        proof {
            self.lemma_is_contiguous(dims@, steps@, contiguous);
        }
        contiguous
    }

    proof fn lemma_one_after_the_other(&self)
        ensures
            self@.is_contiguous() == (forall|k: int|
                0 <= k < shape::numel(self@.shape) ==> shape::dot(
                    #[trigger] shape::unravel(self@.shape, k),
                    self@.strides,
                ) == k),
    {
        let layout = self@;
        if layout.is_contiguous() {
            assert forall|k: int| 0 <= k < shape::numel(layout.shape) implies shape::dot(
                #[trigger] shape::unravel(layout.shape, k),
                layout.strides,
            ) == k by {
                assert(layout.position(k) == layout.offset + k);
            }
        } else {
            let k = choose|k: int|
                0 <= k < layout.numel() && #[trigger] layout.position(k) != layout.offset + k;
            assert(shape::dot(shape::unravel(layout.shape, k), layout.strides) != k);
        }
    }

    proof fn lemma_is_contiguous(&self, dims: Seq<usize>, steps: Seq<usize>, contiguous: bool)
        requires
            self@.wf(),
            self@.numel() > 0,
            strided::lowest(dims, steps),
            shape::numel(dims) == self@.numel(),
            forall|k: int|
                0 <= k < self@.numel() ==> #[trigger] strided::walk(dims, steps, k)
                    == strided::walk(self@.shape, self@.strides, k),
            contiguous == (dims.len() == 0 || (dims.len() == 1 && steps[0] == 1)),
        ensures
            contiguous == self@.is_contiguous(),
    {
        let layout = self@;
        let size = layout.numel();
        strided::lemma_lowest_count(dims, steps);
        if size == 1 {
            strided::lemma_ends(layout);
        } else {
            let line = seq![size as usize];
            let one = seq![1usize];
            assert(line =~= Seq::<usize>::empty().push(size as usize));
            shape::lemma_numel_push(Seq::empty(), size as usize);
            assert(shape::numel(Seq::empty()) == 1);
            lemma_mul_basics_4(size as int);
            assert(shape::numel(line) == size);
            assert forall|k: int| 0 <= k < size implies #[trigger] strided::walk(line, one, k)
                == k by {
                assert forall|i: int| 0 <= i < line.len() implies #[trigger] one[i] == 1
                    * shape::numel(line.skip(i + 1)) by {
                    assert(line.skip(i + 1) =~= Seq::empty());
                }
                strided::lemma_walk_contiguous(line, one, 1, k);
            }
            if contiguous {
                assert(dims.len() == 1);
                assert(dims =~= Seq::<usize>::empty().push(dims[0]));
                shape::lemma_numel_push(Seq::empty(), dims[0]);
                assert(dims =~= line);
                assert(steps =~= one);
                assert forall|k: int| 0 <= k < layout.numel() implies #[trigger] layout.position(k)
                    == layout.offset + k by {
                    assert(strided::walk(dims, steps, k) == strided::walk(
                        layout.shape,
                        layout.strides,
                        k,
                    ));
                    assert(strided::walk(line, one, k) == k);
                }
            }
            if layout.is_contiguous() {
                assert(strided::lowest(line, one));
                assert forall|k: int| 0 <= k < shape::numel(dims) implies #[trigger]
                    strided::walk(dims, steps, k) == strided::walk(line, one, k) by {
                    assert(strided::walk(dims, steps, k) == strided::walk(
                        layout.shape,
                        layout.strides,
                        k,
                    ));
                    assert(layout.position(k) == layout.offset + k);
                    assert(strided::walk(line, one, k) == k);
                }
                strided::lemma_lowest_unique(dims, steps, line, one);
            }
        }
    }
}

impl ShapeStrider {
    /// The layout of the given shape that lists the same elements, if there is one.
    pub fn reshape(&self, shape: &[usize]) -> (result: Result<ShapeStrider, TensorError>)
        requires
            self@.can_reshape(shape@),
        ensures
            match result {
                Ok(view) => {
                    &&& view@.shape == shape@
                    &&& view@.offset == self@.offset
                    &&& view@.strides == self@.reshape_strides(shape@)
                    &&& view@.same_elements(self@)
                },
                Err(error) => {
                    &&& error == TensorError::NeedsCopy
                    &&& !self@.has_view(shape@)
                },
            },
    {
        proof {
            use_type_invariant(self);
        }
        let size: usize = self.size();
        if size == 0 {
            let strides: Vec<usize> = match Self::contiguous(shape) {
                Ok(strider) => copied(strider.strides()),
                Err(_) => zeros(shape.len()),
            };
            return Ok(ShapeStrider { shape: copied(shape), strides, offset: self.offset });
        }
        let strides: Vec<usize> = self.forced_strides(shape);
        let (dims, steps) = lowest_terms(self.shape.as_slice(), self.strides.as_slice());
        let (new_dims, new_steps) = lowest_terms(shape, strides.as_slice());
        let ghost candidate = Strided { shape: shape@, strides: strides@, offset: self.offset };
        if same_words(dims.as_slice(), new_dims.as_slice()) && same_words(
            steps.as_slice(),
            new_steps.as_slice(),
        ) {
            proof {
                assert forall|k: int| 0 <= k < candidate.numel() implies #[trigger]
                    candidate.position(k) == self@.position(k) by {
                    assert(strided::walk(dims@, steps@, k) == strided::walk(
                        self.shape@,
                        self.strides@,
                        k,
                    ));
                    assert(strided::walk(new_dims@, new_steps@, k) == strided::walk(
                        shape@,
                        strides@,
                        k,
                    ));
                }
                strided::lemma_ends(candidate);
                strided::lemma_ends(self@);
                assert(candidate.position(size - 1) == self@.position(size - 1));
            }
            Ok(ShapeStrider { shape: copied(shape), strides, offset: self.offset })
        } else {
            proof {
                if self@.has_view(shape@) {
                    let view = choose|view: Strided|
                        view.shape == shape@ && view.strides.len() == shape@.len()
                            && #[trigger] view.same_elements(self@);
                    lemma_forced(self@, view);
                    assert forall|k: int| 0 <= k < shape::numel(dims@) implies #[trigger]
                        strided::walk(dims@, steps@, k) == strided::walk(
                        new_dims@,
                        new_steps@,
                        k,
                    ) by {
                        assert(strided::walk(dims@, steps@, k) == strided::walk(
                            self.shape@,
                            self.strides@,
                            k,
                        ));
                        assert(strided::walk(new_dims@, new_steps@, k) == strided::walk(
                            shape@,
                            strides@,
                            k,
                        ));
                        assert(view.position(k) == self@.position(k));
                        strided::lemma_walk_units(shape@, view.strides, strides@, k);
                    }
                    strided::lemma_lowest_unique(dims@, steps@, new_dims@, new_steps@);
                }
            }
            Err(TensorError::NeedsCopy)
        }
    }

    /// The strides that a layout of the given shape with the same elements would have.
    fn forced_strides(&self, shape: &[usize]) -> (strides: Vec<usize>)
        requires
            self@.can_reshape(shape@),
            self@.numel() > 0,
        ensures
            strides@ == self@.view_strides(shape@),
    {
        proof {
            use_type_invariant(self);
            assert(shape@.skip(shape@.len() as int) =~= Seq::empty());
        }
        let ndims: usize = shape.len();
        let mut reversed: Vec<usize> = Vec::new();
        let mut inner: usize = 1;
        let mut i: usize = ndims;
        while i > 0
            invariant
                i <= ndims == shape@.len(),
                self@.wf(),
                0 < self@.numel() == shape::numel(shape@),
                reversed@.len() == ndims - i,
                inner == shape::numel(shape@.skip(i as int)),
                forall|j: int|
                    0 <= j < ndims - i ==> #[trigger] reversed@[j] == self@.view_strides(
                        shape@,
                    )[ndims - 1 - j],
            decreases i,
        {
            i -= 1;
            proof {
                shape::lemma_numel_positive(shape@);
                assert(shape@[i as int] > 0);
                shape::lemma_numel_part(shape@, i as int);
                shape::lemma_numel_skip(shape@, i as int);
                lemma_mul_is_commutative(inner as int, shape@[i as int] as int);
                if shape@[i as int] >= 2 {
                    strided::lemma_walk_stride(
                        shape@,
                        strided::contiguous_strides(shape@),
                        i as int,
                    );
                    strided::lemma_position_bound(self@, inner as int);
                }
            }
            if shape[i] == 1 {
                reversed.push(inner);
            } else {
                let position: usize = self.position(inner);
                reversed.push(position - self.offset);
            }
            inner = inner * shape[i];
        }
        let mut strides: Vec<usize> = Vec::new();
        while i < ndims
            invariant
                i <= ndims == shape@.len() == reversed@.len(),
                forall|j: int|
                    0 <= j < ndims ==> #[trigger] reversed@[j] == self@.view_strides(
                        shape@,
                    )[ndims - 1 - j],
                strides@ =~= self@.view_strides(shape@).take(i as int),
            decreases ndims - i,
        {
            proof {
                assert(reversed@[ndims - 1 - i] == self@.view_strides(shape@)[i as int]);
            }
            strides.push(reversed[ndims - 1 - i]);
            i += 1;
        }
        proof {
            assert(strides@ =~= self@.view_strides(shape@));
        }
        strides
    }
}

/// A sequence of zeros.
fn zeros(len: usize) -> (words: Vec<usize>)
    ensures
        words@ == Seq::new(len as nat, |i: int| 0usize),
{
    let mut words: Vec<usize> = Vec::new();
    let mut i: usize = 0;
    while i < len
        invariant
            i <= len,
            words@.len() == i,
            forall|j: int| 0 <= j < i ==> #[trigger] words@[j] == 0,
        decreases len - i,
    {
        words.push(0);
        i += 1;
    }
    proof {
        assert(words@ =~= Seq::new(len as nat, |i: int| 0usize));
    }
    words
}

/// A layout that lists the elements of another one has its offset, and no choice of strides
/// but in the dimensions of size one.
pub proof fn lemma_forced(layout: Strided, view: Strided)
    requires
        layout.wf(),
        layout.numel() > 0,
        view.shape.len() == view.strides.len(),
        view.same_elements(layout),
    ensures
        view.offset == layout.offset,
        forall|j: int|
            0 <= j < view.shape.len() && view.shape[j] != 1 ==> #[trigger] view.strides[j]
                == layout.view_strides(view.shape)[j],
{
    strided::lemma_ends(layout);
    strided::lemma_ends(view);
    assert(view.position(0) == layout.position(0));
    assert forall|j: int| 0 <= j < view.shape.len() && view.shape[j] != 1 implies #[trigger]
        view.strides[j] == layout.view_strides(view.shape)[j] by {
        shape::lemma_numel_positive(view.shape);
        assert(view.shape[j] > 0);
        strided::lemma_walk_stride(view.shape, view.strides, j);
        let p = shape::numel(view.shape.skip(j + 1)) as int;
        assert(view.position(p) == layout.position(p));
    }
}

impl ShapeStrider {
    /// Whether two tensors can be combined element by element: they have to have one shape.
    pub fn validate_can_zip(&self, other: &ShapeStrider) -> (result: Result<(), TensorError>)
        ensures
            match result {
                Ok(()) => self@.shape == other@.shape,
                Err(error) => self@.shape != other@.shape && error == TensorError::ShapeMismatch,
            },
    {
        if same_words(self.shape.as_slice(), other.shape.as_slice()) {
            Ok(())
        } else {
            Err(TensorError::ShapeMismatch)
        }
    }

    /// Whether the tensor can be reduced over `axes`: each has to be a dimension.
    pub fn validate_can_reduce(&self, axes: &[usize]) -> (result: Result<(), TensorError>)
        ensures
            match result {
                Ok(()) => self@.can_reduce(axes@),
                Err(error) => !self@.can_reduce(axes@) && error == TensorError::AxisOutOfRange,
            },
    {
        let len: usize = axes.len();
        let mut i: usize = 0;
        while i < len
            invariant
                i <= len == axes@.len(),
                forall|j: int| 0 <= j < i ==> #[trigger] axes@[j] < self@.shape.len(),
            decreases len - i,
        {
            if axes[i] >= self.shape.len() {
                proof {
                    assert(axes@[i as int] >= self@.shape.len());
                }
                return Err(TensorError::AxisOutOfRange);
            }
            i += 1;
        }
        Ok(())
    }

    /// Whether the tensor can take the given shape: the element counts have to agree.
    pub fn validate_can_reshape(&self, shape: &[usize]) -> (result: Result<(), TensorError>)
        ensures
            match result {
                Ok(()) => self@.can_reshape(shape@),
                Err(error) => !self@.can_reshape(shape@) && error == TensorError::SizeMismatch,
            },
    {
        proof {
            use_type_invariant(self);
        }
        let own: usize = self.size();
        match checked_size(shape) {
            Some(size) => if size == own {
                Ok(())
            } else {
                Err(TensorError::SizeMismatch)
            },
            None => Err(TensorError::SizeMismatch),
        }
    }

    /// Whether the dimensions can be moved: `permutation` has to list each of them once.
    pub fn validate_can_permute(&self, permutation: &[usize]) -> (result: Result<(), TensorError>)
        ensures
            match result {
                Ok(()) => shape::is_permutation(permutation@, self@.shape.len()),
                Err(error) => {
                    &&& !shape::is_permutation(permutation@, self@.shape.len())
                    &&& error == if permutation@.len() != self@.shape.len() {
                        TensorError::RankMismatch
                    } else {
                        TensorError::NotAPermutation
                    }
                },
            },
    {
        let ndims: usize = self.shape.len();
        if permutation.len() != ndims {
            return Err(TensorError::RankMismatch);
        }
        let mut i: usize = 0;
        while i < ndims
            invariant
                i <= ndims == self@.shape.len() == permutation@.len(),
                forall|j: int| 0 <= j < i ==> #[trigger] permutation@[j] < ndims,
                forall|j: int, k: int|
                    0 <= j < k < i ==> #[trigger] permutation@[j] != #[trigger] permutation@[k],
            decreases ndims - i,
        {
            if permutation[i] >= ndims {
                proof {
                    assert(permutation@[i as int] >= ndims);
                }
                return Err(TensorError::NotAPermutation);
            }
            let mut j: usize = 0;
            while j < i
                invariant
                    j <= i < ndims == self@.shape.len() == permutation@.len(),
                    forall|k: int|
                        0 <= k < j ==> #[trigger] permutation@[k] != permutation@[i as int],
                decreases i - j,
            {
                if permutation[j] == permutation[i] {
                    proof {
                        assert(permutation@[j as int] == permutation@[i as int]);
                    }
                    return Err(TensorError::NotAPermutation);
                }
                j += 1;
            }
            i += 1;
        }
        proof {
            assert forall|j: int, k: int|
                0 <= j < permutation@.len() && 0 <= k < permutation@.len() && j
                    != k implies permutation@[j] != permutation@[k] by {
                if j < k {
                    assert(permutation@[j] != permutation@[k]);
                } else {
                    assert(permutation@[k] != permutation@[j]);
                }
            }
        }
        Ok(())
    }

    /// Whether the tensor can grow to the given shape by repeating dimensions of size one.
    pub fn validate_can_expand(&self, shape: &[usize]) -> (result: Result<(), TensorError>)
        ensures
            match result {
                Ok(()) => self@.can_expand(shape@),
                Err(error) => {
                    &&& !self@.can_expand(shape@)
                    &&& error == if shape@.len() != self@.shape.len() {
                        TensorError::RankMismatch
                    } else {
                        TensorError::CannotExpand
                    }
                },
            },
    {
        let ndims: usize = self.shape.len();
        if shape.len() != ndims {
            return Err(TensorError::RankMismatch);
        }
        let mut i: usize = 0;
        while i < ndims
            invariant
                i <= ndims == self@.shape.len() == shape@.len(),
                self@.shape == self.shape@,
                forall|j: int|
                    0 <= j < i ==> #[trigger] self@.shape[j] == shape@[j] || self@.shape[j] == 1,
            decreases ndims - i,
        {
            if self.shape[i] != shape[i] && self.shape[i] != 1 {
                proof {
                    assert(self@.shape[i as int] != shape@[i as int]);
                }
                return Err(TensorError::CannotExpand);
            }
            i += 1;
        }
        Ok(())
    }

    /// Whether the tensor can be padded: there has to be one pair for each dimension.
    pub fn validate_can_pad(&self, padding: &[(usize, usize)]) -> (result: Result<(), TensorError>)
        ensures
            match result {
                Ok(()) => padding@.len() == self@.shape.len(),
                Err(error) => padding@.len() != self@.shape.len() && error
                    == TensorError::RankMismatch,
            },
    {
        if padding.len() == self.shape.len() {
            Ok(())
        } else {
            Err(TensorError::RankMismatch)
        }
    }

    /// Whether the tensor can be cut to the given limits.
    pub fn validate_can_crop(&self, limits: &[(usize, usize)]) -> (result: Result<(), TensorError>)
        ensures
            match result {
                Ok(()) => self@.can_crop(limits@),
                Err(error) => {
                    &&& !self@.can_crop(limits@)
                    &&& error == if limits@.len() != self@.shape.len() {
                        TensorError::RankMismatch
                    } else {
                        TensorError::LimitsOutOfRange
                    }
                },
            },
    {
        let ndims: usize = self.shape.len();
        if limits.len() != ndims {
            return Err(TensorError::RankMismatch);
        }
        let mut i: usize = 0;
        while i < ndims
            invariant
                i <= ndims == self@.shape.len() == limits@.len(),
                self@.shape == self.shape@,
                forall|j: int|
                    0 <= j < i ==> (#[trigger] limits@[j]).0 <= limits@[j].1 <= self@.shape[j],
            decreases ndims - i,
        {
            let (start, end) = limits[i];
            if start > end || end > self.shape[i] {
                proof {
                    assert(!(limits@[i as int].0 <= limits@[i as int].1
                        <= self@.shape[i as int]));
                }
                return Err(TensorError::LimitsOutOfRange);
            }
            i += 1;
        }
        Ok(())
    }

    /// The layout with its dimensions moved.
    pub fn permute(&self, permutation: &[usize]) -> (moved: ShapeStrider)
        requires
            shape::is_permutation(permutation@, self@.shape.len()),
        ensures
            moved@ == self@.permute(permutation@),
            moved@.shape.len() == permutation@.len(),
            moved@.strides.len() == permutation@.len(),
            moved@.offset == self@.offset,
            forall|i: int|
                0 <= i < permutation@.len() ==> #[trigger] moved@.shape[i]
                    == self@.shape[permutation@[i] as int],
            forall|i: int|
                0 <= i < permutation@.len() ==> #[trigger] moved@.strides[i]
                    == self@.strides[permutation@[i] as int],
    {
        proof {
            use_type_invariant(self);
        }
        let ndims: usize = permutation.len();
        let mut shape: Vec<usize> = Vec::new();
        let mut strides: Vec<usize> = Vec::new();
        let mut i: usize = 0;
        while i < ndims
            invariant
                i <= ndims == permutation@.len() == self.shape@.len() == self.strides@.len(),
                shape::is_permutation(permutation@, ndims as nat),
                shape@ =~= shape::permuted(self.shape@, permutation@).take(i as int),
                strides@ =~= shape::permuted(self.strides@, permutation@).take(i as int),
            decreases ndims - i,
        {
            proof {
                assert(permutation@[i as int] < ndims);
            }
            shape.push(self.shape[permutation[i]]);
            strides.push(self.strides[permutation[i]]);
            i += 1;
        }
        proof {
            let moved = self@.permute(permutation@);
            assert(shape@ =~= moved.shape);
            assert(strides@ =~= moved.strides);
            strided::lemma_permute(self@, permutation@);
        }
        ShapeStrider { shape, strides, offset: self.offset }
    }

    /// The layout that repeats the element of each dimension of size one that grows.
    pub fn expand(&self, shape: &[usize]) -> (result: Result<ShapeStrider, TensorError>)
        requires
            self@.can_expand(shape@),
        ensures
            match result {
                Ok(expanded) => shape::numel(shape@) <= usize::MAX && expanded@ == self@.expand(
                    shape@,
                ),
                Err(error) => shape::numel(shape@) > usize::MAX && error == TensorError::TooLarge,
            },
            result matches Ok(expanded) ==> {
                &&& expanded@.shape == shape@
                &&& expanded@.offset == self@.offset
                &&& expanded@.strides.len() == shape@.len()
                &&& forall|i: int|
                    0 <= i < shape@.len() ==> #[trigger] expanded@.strides[i] == if self@.shape[i]
                        == shape@[i] {
                        self@.strides[i]
                    } else {
                        0
                    }
            },
    {
        proof {
            use_type_invariant(self);
        }
        if checked_size(shape).is_none() {
            return Err(TensorError::TooLarge);
        }
        let ndims: usize = shape.len();
        let mut strides: Vec<usize> = Vec::new();
        let mut i: usize = 0;
        while i < ndims
            invariant
                i <= ndims == shape@.len() == self.shape@.len() == self.strides@.len(),
                strides@ =~= self@.expand(shape@).strides.take(i as int),
            decreases ndims - i,
        {
            if self.shape[i] == shape[i] {
                strides.push(self.strides[i]);
            } else {
                strides.push(0);
            }
            i += 1;
        }
        proof {
            let expanded = self@.expand(shape@);
            assert(strides@ =~= expanded.strides);
            strided::lemma_expand(self@, shape@);
        }
        Ok(ShapeStrider { shape: copied(shape), strides, offset: self.offset })
    }

    /// The layout of the part between the given limits.
    pub fn crop(&self, limits: &[(usize, usize)]) -> (part: ShapeStrider)
        requires
            self@.can_crop(limits@),
        ensures
            part@ == self@.crop(limits@),
            part@.shape.len() == limits@.len(),
            forall|i: int|
                0 <= i < limits@.len() ==> #[trigger] part@.shape[i] == limits@[i].1 - limits@[i].0,
            part@.strides == self@.strides,
            (forall|i: int| 0 <= i < limits@.len() ==> (#[trigger] limits@[i]).0 < limits@[i].1)
                ==> part@.offset == self@.offset + shape::dot(
                Seq::new(limits@.len(), |i: int| limits@[i].0 as int),
                self@.strides,
            ),
    {
        proof {
            use_type_invariant(self);
            strided::lemma_crop(self@, limits@);
        }
        let ndims: usize = limits.len();
        let mut shape: Vec<usize> = Vec::new();
        let mut empty: bool = false;
        let mut i: usize = 0;
        while i < ndims
            invariant
                i <= ndims == limits@.len() == self.shape@.len(),
                self@.can_crop(limits@),
                shape@ =~= strided::cropped_shape(limits@).take(i as int),
                empty <==> exists|j: int| 0 <= j < i && #[trigger] shape@[j] == 0,
            decreases ndims - i,
        {
            let (start, end) = limits[i];
            proof {
                assert(limits@[i as int].0 <= limits@[i as int].1);
            }
            let ghost before = shape@;
            shape.push(end - start);
            if start == end {
                empty = true;
                proof {
                    assert(shape@[i as int] == 0);
                }
            } else {
                proof {
                    if exists|j: int| 0 <= j < i && #[trigger] before[j] == 0 {
                        let j = choose|j: int| 0 <= j < i && #[trigger] before[j] == 0;
                        assert(shape@[j] == 0);
                    }
                    if exists|j: int| 0 <= j < i + 1 && #[trigger] shape@[j] == 0 {
                        let j = choose|j: int| 0 <= j < i + 1 && #[trigger] shape@[j] == 0;
                        assert(before[j] == 0);
                    }
                }
            }
            i += 1;
        }
        proof {
            assert(shape@ =~= strided::cropped_shape(limits@));
            shape::lemma_numel_positive(shape@);
        }
        let mut offset: usize = self.offset;
        if !empty {
            let mut start: Vec<usize> = Vec::new();
            i = 0;
            while i < ndims
                invariant
                    i <= ndims == limits@.len(),
                    start@.len() == i,
                    forall|j: int| 0 <= j < i ==> #[trigger] start@[j] == limits@[j].0,
                decreases ndims - i,
            {
                start.push(limits[i].0);
                i += 1;
            }
            proof {
                assert(shape::as_index(start@) =~= strided::starts(limits@));
                assert forall|j: int| 0 <= j < self@.shape.len() implies 0 <= #[trigger]
                    shape::as_index(start@)[j] < self@.shape[j] by {
                    assert(shape@[j] > 0);
                    assert(limits@[j].0 <= limits@[j].1 <= self@.shape[j]);
                }
            }
            offset = self.buffer_index(start.as_slice());
        }
        proof {
            assert forall|j: int| 0 <= j < limits@.len() implies #[trigger] shape@[j]
                == limits@[j].1 - limits@[j].0 by {
                assert(limits@[j].0 <= limits@[j].1 <= self@.shape[j]);
            }
            if forall|j: int| 0 <= j < limits@.len() ==> (#[trigger] limits@[j]).0 < limits@[j].1 {
                assert forall|j: int| 0 <= j < shape@.len() implies #[trigger] shape@[j] > 0 by {
                    assert(limits@[j].0 < limits@[j].1);
                }
                assert(Seq::new(limits@.len(), |i: int| limits@[i].0 as int) =~= strided::starts(
                    limits@,
                ));
            }
        }
        ShapeStrider { shape, strides: copied(self.strides.as_slice()), offset }
    }

    /// The contiguous layout of the tensor with `padding[i].0` added before and `padding[i].1`
    /// after its elements along dimension `i`.
    pub fn pad(&self, padding: &[(usize, usize)]) -> (result: Result<ShapeStrider, TensorError>)
        requires
            padding@.len() == self@.shape.len(),
        ensures
            match result {
                Ok(padded) => strided::pad_fits(self@.shape, padding@) && padded@
                    == Strided::contiguous(strided::padded_shape(self@.shape, padding@)),
                Err(error) => !strided::pad_fits(self@.shape, padding@) && error
                    == TensorError::TooLarge,
            },
            result matches Ok(padded) ==> {
                &&& padded@.shape.len() == padding@.len()
                &&& padded@.offset == 0
                &&& forall|i: int|
                    0 <= i < padding@.len() ==> #[trigger] padded@.shape[i] == padding@[i].0
                        + self@.shape[i] + padding@[i].1
            },
    {
        let ndims: usize = padding.len();
        let mut shape: Vec<usize> = Vec::new();
        let mut i: usize = 0;
        while i < ndims
            invariant
                i <= ndims == padding@.len() == self.shape@.len(),
                self@.shape == self.shape@,
                forall|j: int|
                    0 <= j < i ==> #[trigger] padding@[j].0 + self@.shape[j] + padding@[j].1
                        <= usize::MAX,
                shape@ =~= strided::padded_shape(self.shape@, padding@).take(i as int),
            decreases ndims - i,
        {
            let (before, after) = padding[i];
            let dim: usize = self.shape[i];
            if before > usize::MAX - dim || after > usize::MAX - dim - before {
                proof {
                    assert(padding@[i as int].0 + self@.shape[i as int] + padding@[i as int].1
                        > usize::MAX);
                }
                return Err(TensorError::TooLarge);
            }
            shape.push(before + dim + after);
            i += 1;
        }
        proof {
            assert(shape@ =~= strided::padded_shape(self.shape@, padding@));
            assert forall|j: int| 0 <= j < padding@.len() implies #[trigger] shape@[j]
                == padding@[j].0 + self@.shape[j] + padding@[j].1 by {
                assert(padding@[j].0 + self@.shape[j] + padding@[j].1 <= usize::MAX);
            }
        }
        Self::contiguous(shape.as_slice())
    }

    /// The contiguous layout of what a reduction over `axes` leaves: size one along each of
    /// them, the other dimensions unchanged.
    pub fn reduce(&self, axes: &[usize]) -> (result: Result<ShapeStrider, TensorError>)
        requires
            self@.can_reduce(axes@),
        ensures
            match result {
                Ok(kept) => {
                    &&& shape::fits(strided::kept_shape(self@.shape, axes@))
                    &&& kept@ == Strided::contiguous(strided::kept_shape(self@.shape, axes@))
                },
                Err(error) => {
                    &&& !shape::fits(strided::kept_shape(self@.shape, axes@))
                    &&& error == TensorError::TooLarge
                },
            },
            result matches Ok(kept) ==> {
                &&& kept@.shape.len() == self@.shape.len()
                &&& forall|i: int|
                    0 <= i < self@.shape.len() ==> #[trigger] kept@.shape[i]
                        == if axes@.contains(i as usize) {
                        1
                    } else {
                        self@.shape[i]
                    }
            },
    {
        let ndims: usize = self.shape.len();
        let mut shape: Vec<usize> = copied(self.shape.as_slice());
        let len: usize = axes.len();
        let mut i: usize = 0;
        proof {
            assert(axes@.take(0) =~= Seq::empty());
            assert(shape@ =~= strided::kept_shape(self@.shape, axes@.take(0)));
        }
        while i < len
            invariant
                i <= len == axes@.len(),
                self@.can_reduce(axes@),
                self@.shape == self.shape@,
                ndims == self.shape@.len(),
                shape@ == strided::kept_shape(self@.shape, axes@.take(i as int)),
            decreases len - i,
        {
            let axis: usize = axes[i];
            proof {
                assert(axes@[i as int] < self@.shape.len());
            }
            shape.set(axis, 1);
            proof {
                assert(axes@.take(i + 1) =~= axes@.take(i as int).push(axis));
                lemma_contains_push(axes@.take(i as int), axis);
                assert(shape@ =~= strided::kept_shape(self@.shape, axes@.take(i + 1)));
            }
            i += 1;
        }
        proof {
            assert(axes@.take(len as int) =~= axes@);
        }
        Self::contiguous(shape.as_slice())
    }

    /// The contiguous layout of what a reduction over `axes` goes through for each element that
    /// it leaves: the dimensions along `axes`, and size one along the others.
    pub fn reduced(&self, axes: &[usize]) -> (result: Result<ShapeStrider, TensorError>)
        requires
            self@.can_reduce(axes@),
        ensures
            match result {
                Ok(reduced) => {
                    &&& shape::fits(strided::reduced_shape(self@.shape, axes@))
                    &&& reduced@ == Strided::contiguous(
                        strided::reduced_shape(self@.shape, axes@),
                    )
                },
                Err(error) => {
                    &&& !shape::fits(strided::reduced_shape(self@.shape, axes@))
                    &&& error == TensorError::TooLarge
                },
            },
            result matches Ok(reduced) ==> {
                &&& reduced@.shape.len() == self@.shape.len()
                &&& forall|i: int|
                    0 <= i < self@.shape.len() ==> #[trigger] reduced@.shape[i]
                        == if axes@.contains(i as usize) {
                        self@.shape[i]
                    } else {
                        1
                    }
            },
    {
        let mut shape: Vec<usize> = Vec::new();
        let ndims: usize = self.shape.len();
        let mut i: usize = 0;
        while i < ndims
            invariant
                i <= ndims == self.shape@.len(),
                shape@.len() == i,
                forall|j: int| 0 <= j < i ==> #[trigger] shape@[j] == 1,
            decreases ndims - i,
        {
            shape.push(1);
            i += 1;
        }
        let len: usize = axes.len();
        i = 0;
        proof {
            assert(axes@.take(0) =~= Seq::empty());
            assert(shape@ =~= strided::reduced_shape(self@.shape, axes@.take(0)));
        }
        while i < len
            invariant
                i <= len == axes@.len(),
                self@.can_reduce(axes@),
                self@.shape == self.shape@,
                ndims == self.shape@.len(),
                shape@ == strided::reduced_shape(self@.shape, axes@.take(i as int)),
            decreases len - i,
        {
            let axis: usize = axes[i];
            proof {
                assert(axes@[i as int] < self@.shape.len());
            }
            shape.set(axis, self.shape[axis]);
            proof {
                assert(axes@.take(i + 1) =~= axes@.take(i as int).push(axis));
                lemma_contains_push(axes@.take(i as int), axis);
                assert(shape@ =~= strided::reduced_shape(self@.shape, axes@.take(i + 1)));
            }
            i += 1;
        }
        proof {
            assert(axes@.take(len as int) =~= axes@);
        }
        Self::contiguous(shape.as_slice())
    }
}

proof fn lemma_contains_push(items: Seq<usize>, item: usize)
    ensures
        forall|x: usize|
            #[trigger] items.push(item).contains(x) <==> items.contains(x) || x == item,
{
    assert forall|x: usize| #[trigger] items.push(item).contains(x) <==> items.contains(x) || x
        == item by {
        if items.contains(x) {
            let i = choose|i: int| 0 <= i < items.len() && items[i] == x;
            assert(items.push(item)[i] == x);
        }
        assert(items.push(item)[items.len() as int] == item);
    }
}

} // verus!
