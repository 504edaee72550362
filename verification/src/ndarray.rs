//! A dense, row-major array container of fixed shape.

use vstd::prelude::*;

use crate::shape::{Shape, dims_product};
use crate::storage::Storage;

verus! {

/// Every prefix and suffix product of the dimension sizes fits in `usize`,
/// so sizes, strides and flat offsets can be computed without overflow.
pub open spec fn products_ok(dims: Seq<usize>) -> bool {
    &&& forall|i: int| 0 <= i <= dims.len() ==> dims_product(#[trigger] dims.take(i)) <= usize::MAX
    &&& forall|i: int| 0 <= i <= dims.len() ==> dims_product(#[trigger] dims.skip(i)) <= usize::MAX
}

/// The indices address one element: one index per axis, each within its
/// dimension.
pub open spec fn valid_index(idx: Seq<usize>, dims: Seq<usize>) -> bool {
    &&& idx.len() == dims.len()
    &&& forall|i: int| 0 <= i < idx.len() ==> idx[i] < dims[i]
}

/// Row-major flat offset of the first `i` axes of `idx`.
pub open spec fn offset_upto(idx: Seq<usize>, dims: Seq<usize>, i: int) -> int
    decreases i,
{
    if i <= 0 {
        0
    } else {
        offset_upto(idx, dims, i - 1) + idx[i - 1] * dims_product(dims.skip(i))
    }
}

/// Row-major flat offset of a full index tuple.
pub open spec fn offset_of(idx: Seq<usize>, dims: Seq<usize>) -> int {
    offset_upto(idx, dims, idx.len() as int)
}

/// A partial row-major offset stays below the total size, leaving room for
/// the remaining axes: `offset_upto(.., i) <= product(dims) - product(dims[i..])`.
pub proof fn lemma_offset_upto_bound(idx: Seq<usize>, dims: Seq<usize>, i: int)
    requires
        valid_index(idx, dims),
        0 <= i <= idx.len(),
    ensures
        0 <= offset_upto(idx, dims, i),
        offset_upto(idx, dims, i) + dims_product(dims.skip(i)) <= dims_product(dims),
    decreases i,
{
    if i == 0 {
        assert(dims.skip(0) =~= dims);
    } else {
        lemma_offset_upto_bound(idx, dims, i - 1);
        lemma_product_nonneg(dims.skip(i));
        assert(idx[i - 1] < dims[i - 1]);
        assert(dims.skip(i - 1)[0] == dims[i - 1]);
        assert(dims.skip(i - 1).skip(1) =~= dims.skip(i));
        assert(dims_product(dims.skip(i - 1)) == dims[i - 1] * dims_product(dims.skip(i)));
        assert(0 <= idx[i - 1] * dims_product(dims.skip(i))) by (nonlinear_arith)
            requires idx[i - 1] >= 0 && dims_product(dims.skip(i)) >= 0;
        assert((idx[i - 1] + 1) * dims_product(dims.skip(i)) <= dims[i - 1] * dims_product(dims.skip(i)))
            by (nonlinear_arith)
            requires idx[i - 1] + 1 <= dims[i - 1] && dims_product(dims.skip(i)) >= 0;
        assert((idx[i - 1] + 1) * dims_product(dims.skip(i))
            == idx[i - 1] * dims_product(dims.skip(i)) + dims_product(dims.skip(i))) by (nonlinear_arith);
    }
}

/// Products of dimension sizes are never negative.
pub proof fn lemma_product_nonneg(dims: Seq<usize>)
    ensures
        dims_product(dims) >= 0,
    decreases dims.len(),
{
    if dims.len() > 0 {
        lemma_product_nonneg(dims.skip(1));
        assert(dims[0] * dims_product(dims.skip(1)) >= 0) by (nonlinear_arith)
            requires dims[0] >= 0 && dims_product(dims.skip(1)) >= 0;
    }
}

/// A dense array: a shape, its row-major strides, and flat element storage.
#[derive(Debug, Clone)]
pub struct NdArray<T> {
    shape: Shape,
    strides: Vec<usize>,
    storage: Storage<T>,
}

impl<T> View for NdArray<T> {
    type V = Seq<T>;

    closed spec fn view(&self) -> Seq<T> {
        self.storage@
    }
}

impl<T> NdArray<T> {
    /// The dimension sizes, at the specification level.
    pub closed spec fn dims_spec(&self) -> Seq<usize> {
        self.shape@
    }

    /// Structural soundness: storage length matches the shape's size, the
    /// cached strides are the row-major strides, and all products fit.
    pub closed spec fn wf(&self) -> bool {
        &&& self.storage@.len() == dims_product(self.shape@)
        &&& self.strides@.len() == self.shape@.len()
        &&& forall|i: int| 0 <= i < self.shape@.len()
            ==> self.strides@[i] == dims_product(#[trigger] self.shape@.skip(i + 1))
        &&& products_ok(self.shape@)
    }

    /// What well-formedness guarantees about the visible views: the element
    /// count is the product of the dimension sizes, and all partial products
    /// fit in `usize`.
    pub proof fn lemma_wf_facts(&self)
        requires
            self.wf(),
        ensures
            products_ok(self.dims_spec()),
            self@.len() == dims_product(self.dims_spec()),
    {
    }

    /// Wraps storage in an array of the given shape. The storage must hold
    /// exactly one element per addressable position.
    pub fn new(shape: Shape, storage: Storage<T>) -> (a: Self)
        requires
            storage@.len() == dims_product(shape@),
            products_ok(shape@),
        ensures
            a.wf(),
            a@ == storage@,
            a.dims_spec() == shape@,
    {
        let strides = shape.strides_row_major();
        NdArray { shape, strides, storage }
    }

    /// Builds an array of the given shape from a flat element vector.
    pub fn from_vec(shape: Shape, data: Vec<T>) -> (a: Self)
        requires
            data@.len() == dims_product(shape@),
            products_ok(shape@),
        ensures
            a.wf(),
            a@ == data@,
            a.dims_spec() == shape@,
    {
        Self::new(shape, Storage::from_vec(data))
    }

    /// The array's shape.
    pub fn shape(&self) -> (s: &Shape)
        ensures
            s@ == self.dims_spec(),
    {
        &self.shape
    }

    /// The cached row-major strides.
    pub fn strides(&self) -> (r: &[usize])
        ensures
            self.wf() ==> r@.len() == self.dims_spec().len(),
            self.wf() ==> forall|i: int| 0 <= i < self.dims_spec().len()
                ==> r@[i] == dims_product(#[trigger] self.dims_spec().skip(i + 1)),
    {
        self.strides.as_slice()
    }

    /// Number of dimensions.
    pub fn ndim(&self) -> (n: usize)
        ensures
            n == self.dims_spec().len(),
    {
        self.shape.ndim()
    }

    /// Total number of elements.
    pub fn len(&self) -> (n: usize)
        ensures
            n == self@.len(),
            self.wf() ==> n == dims_product(self.dims_spec()),
    {
        self.storage.len()
    }

    /// Whether the array holds no elements at all.
    pub fn is_empty(&self) -> (r: bool)
        ensures
            r == (self@.len() == 0),
    {
        self.storage.len() == 0
    }

    /// The elements in row-major order.
    pub fn as_slice(&self) -> (r: &[T])
        ensures
            r@ == self@,
    {
        self.storage.as_slice()
    }

    /// The elements in row-major order, mutably.
    pub fn as_mut_slice(&mut self) -> (r: &mut [T])
        ensures
            r@ == old(self)@,
            final(self)@ == final(r)@,
            final(self).dims_spec() == old(self).dims_spec(),
            old(self).wf() && final(r)@.len() == old(self)@.len() ==> final(self).wf(),
    {
        self.storage.as_mut_slice()
    }

    /// The row-major flat offset of an index tuple, or `None` when the tuple
    /// has the wrong arity or a coordinate is out of range.
    fn flat_index(&self, indices: &[usize]) -> (r: Option<usize>)
        requires
            self.wf(),
        ensures
            match r {
                Some(o) => valid_index(indices@, self.dims_spec()) && o == offset_of(indices@, self.dims_spec())
                    && o < self@.len(),
                None => !valid_index(indices@, self.dims_spec()),
            },
    {
        if indices.len() != self.shape.ndim() {
            return None;
        }
        let n = indices.len();
        proof {
            assert(self.dims_spec().skip(0) =~= self.dims_spec());
            assert(dims_product(self.dims_spec().skip(0)) <= usize::MAX);
        }
        let mut offset: usize = 0;
        let mut i: usize = 0;
        while i < n
            invariant
                self.wf(),
                i <= n,
                n == indices@.len(),
                n == self.dims_spec().len(),
                forall|j: int| 0 <= j < i ==> indices@[j] < self.dims_spec()[j],
                offset == offset_upto(indices@, self.dims_spec(), i as int),
                offset + dims_product(self.dims_spec().skip(i as int)) <= dims_product(self.dims_spec()),
                dims_product(self.dims_spec()) <= usize::MAX,
            decreases n - i,
        {
            let dim_i = match self.shape.dim(i) {
                Some(d) => d,
                None => 0,
            };
            if indices[i] >= dim_i {
                return None;
            }
            proof {
                let dims = self.dims_spec();
                assert(dims.skip(i as int)[0] == dims[i as int]);
                assert(dims.skip(i as int).skip(1) =~= dims.skip(i + 1));
                assert(dims_product(dims.skip(i as int)) == dims[i as int] * dims_product(dims.skip(i + 1)));
                lemma_product_nonneg(dims.skip(i + 1));
                assert((indices@[i as int] + 1) * dims_product(dims.skip(i + 1))
                    <= dims[i as int] * dims_product(dims.skip(i + 1))) by (nonlinear_arith)
                    requires
                        indices@[i as int] + 1 <= dims[i as int],
                        dims_product(dims.skip(i + 1)) >= 0;
                assert((indices@[i as int] + 1) * dims_product(dims.skip(i + 1))
                    == indices@[i as int] * dims_product(dims.skip(i + 1)) + dims_product(dims.skip(i + 1)))
                    by (nonlinear_arith);
            }
            offset = offset + indices[i] * self.strides[i];
            i = i + 1;
        }
        proof {
            lemma_product_nonneg(self.dims_spec().skip(n as int));
            if dims_product(self.dims_spec().skip(n as int)) == 0 {
                // an empty tail product can only be zero if some dimension is
                // zero, which contradicts a valid full index
                assert(self.dims_spec().skip(n as int) =~= Seq::<usize>::empty());
            }
        }
        Some(offset)
    }

    /// The element at an index tuple, or `None` when the tuple is invalid.
    pub fn get(&self, indices: &[usize]) -> (r: Option<&T>)
        requires
            self.wf(),
        ensures
            match r {
                Some(v) => valid_index(indices@, self.dims_spec())
                    && *v == self@[offset_of(indices@, self.dims_spec())],
                None => !valid_index(indices@, self.dims_spec()),
            },
    {
        match self.flat_index(indices) {
            Some(i) => self.storage.get(i),
            None => None,
        }
    }

    /// A mutable reference to the element at an index tuple, or `None` when
    /// the tuple is invalid.
    pub fn get_mut(&mut self, indices: &[usize]) -> (r: Option<&mut T>)
        requires
            old(self).wf(),
        ensures
            final(self).wf(),
            final(self).dims_spec() == old(self).dims_spec(),
            !valid_index(indices@, old(self).dims_spec()) ==> r.is_none() && final(self)@ == old(self)@,
            valid_index(indices@, old(self).dims_spec()) ==> r.is_some()
                && *r.unwrap() == old(self)@[offset_of(indices@, old(self).dims_spec())]
                && final(self)@ == old(self)@.update(
                    offset_of(indices@, old(self).dims_spec()),
                    *final(r.unwrap()),
                ),
    {
        match self.flat_index(indices) {
            Some(i) => self.storage.get_mut(i),
            None => None,
        }
    }
}

impl<T: Copy> NdArray<T> {
    /// An array of the given shape with every element equal to `value`.
    pub fn filled(shape: Shape, value: T) -> (a: Self)
        requires
            products_ok(shape@),
        ensures
            a.wf(),
            a.dims_spec() == shape@,
            a@.len() == dims_product(shape@),
            forall|i: int| 0 <= i < a@.len() ==> a@[i] == value,
    {
        proof {
            assert(shape@.take(shape@.len() as int) =~= shape@);
        }
        let n = shape.size();
        let storage = Storage::filled(value, n);
        Self::new(shape, storage)
    }

    /// An array of the given shape with every element equal to `value`.
    pub fn full(shape: Shape, value: T) -> (a: Self)
        requires
            products_ok(shape@),
        ensures
            a.wf(),
            a.dims_spec() == shape@,
            a@.len() == dims_product(shape@),
            forall|i: int| 0 <= i < a@.len() ==> a@[i] == value,
    {
        Self::filled(shape, value)
    }

    /// A new array with `f` applied to every element, in the same shape.
    pub fn map<F: Fn(T) -> U, U: Copy>(&self, f: F) -> (a: NdArray<U>)
        requires
            self.wf(),
            forall|i: int| 0 <= i < self@.len() ==> call_requires(f, (self@[i],)),
        ensures
            a.wf(),
            a.dims_spec() == self.dims_spec(),
            a@.len() == self@.len(),
            forall|i: int| 0 <= i < self@.len() ==> call_ensures(f, (self@[i],), #[trigger] a@[i]),
    {
        let src = self.storage.as_slice();
        let mut data: Vec<U> = Vec::new();
        let mut i: usize = 0;
        while i < src.len()
            invariant
                src@ == self@,
                self.wf(),
                i <= src@.len(),
                data@.len() == i,
                forall|j: int| 0 <= j < self@.len() ==> call_requires(f, (self@[j],)),
                forall|j: int| 0 <= j < i ==> call_ensures(f, (self@[j],), #[trigger] data@[j]),
            decreases src@.len() - i,
        {
            let v = f(src[i]);
            data.push(v);
            i = i + 1;
        }
        let mut dims: Vec<usize> = Vec::new();
        let mut k: usize = 0;
        let nd = self.shape.ndim();
        while k < nd
            invariant
                k <= nd,
                nd == self.dims_spec().len(),
                dims@.len() == k,
                forall|j: int| 0 <= j < k ==> dims@[j] == self.dims_spec()[j],
            decreases nd - k,
        {
            let d = match self.shape.dim(k) {
                Some(d) => d,
                None => 0,
            };
            dims.push(d);
            k = k + 1;
        }
        proof {
            assert(dims@ =~= self.dims_spec());
        }
        NdArray::<U>::new(Shape::new(dims), Storage::from_vec(data))
    }
}

impl<T: Copy + Default> NdArray<T> {
    /// An array of the given shape with every element the type's default.
    pub fn zeros(shape: Shape) -> (a: Self)
        requires
            products_ok(shape@),
        ensures
            a.wf(),
            a.dims_spec() == shape@,
            a@.len() == dims_product(shape@),
            forall|i: int, j: int| 0 <= i < a@.len() && 0 <= j < a@.len() ==> a@[i] == a@[j],
    {
        Self::filled(shape, T::default())
    }
}

} // verus!
