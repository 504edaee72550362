//! Array shapes: a list of dimension sizes with row-major and column-major
//! stride computation.

use vstd::prelude::*;

verus! {

/// Product of a sequence of dimension sizes, as an unbounded integer.
pub open spec fn dims_product(dims: Seq<usize>) -> int
    decreases dims.len(),
{
    if dims.len() == 0 {
        1
    } else {
        dims[0] * dims_product(dims.skip(1))
    }
}

/// Splitting off the last element factors the product.
pub proof fn lemma_product_drop_last(dims: Seq<usize>)
    requires
        dims.len() > 0,
    ensures
        dims_product(dims) == dims_product(dims.drop_last()) * dims.last(),
    decreases dims.len(),
{
    if dims.len() == 1 {
        assert(dims.skip(1) =~= Seq::<usize>::empty());
        assert(dims.drop_last() =~= Seq::<usize>::empty());
    } else {
        lemma_product_drop_last(dims.skip(1));
        assert(dims.skip(1).drop_last() =~= dims.drop_last().skip(1));
        assert(dims.skip(1).last() == dims.last());
        assert(dims.drop_last()[0] == dims[0]);
        assert(dims_product(dims.drop_last()) == dims[0] * dims_product(dims.drop_last().skip(1)));
        assert(dims[0] * (dims_product(dims.skip(1).drop_last()) * dims.last())
            == (dims[0] * dims_product(dims.skip(1).drop_last())) * dims.last()) by (nonlinear_arith);
    }
}

/// A shape: the dimension sizes of a dense array, outermost first.
#[derive(Debug, Clone, PartialEq, Eq)]
pub struct Shape {
    dims: Vec<usize>,
}

impl View for Shape {
    type V = Seq<usize>;

    closed spec fn view(&self) -> Seq<usize> {
        self.dims@
    }
}

impl Shape {
    /// The shape of a scalar: no dimensions at all.
    pub fn scalar() -> (s: Self)
        ensures
            s@ =~= Seq::<usize>::empty(),
    {
        Shape { dims: Vec::new() }
    }

    /// A one-dimensional shape.
    pub fn d1(len: usize) -> (s: Self)
        ensures
            s@ =~= seq![len],
    {
        let mut dims: Vec<usize> = Vec::new();
        dims.push(len);
        Shape { dims }
    }

    /// A two-dimensional shape.
    pub fn d2(rows: usize, cols: usize) -> (s: Self)
        ensures
            s@ =~= seq![rows, cols],
    {
        let mut dims: Vec<usize> = Vec::new();
        dims.push(rows);
        dims.push(cols);
        Shape { dims }
    }

    /// A three-dimensional shape.
    pub fn d3(d0: usize, d1: usize, d2: usize) -> (s: Self)
        ensures
            s@ =~= seq![d0, d1, d2],
    {
        let mut dims: Vec<usize> = Vec::new();
        dims.push(d0);
        dims.push(d1);
        dims.push(d2);
        Shape { dims }
    }

    /// A shape with the given dimension sizes.
    pub fn new(dims: Vec<usize>) -> (s: Self)
        ensures
            s@ == dims@,
    {
        Shape { dims }
    }

    /// Number of dimensions.
    pub fn ndim(&self) -> (n: usize)
        ensures
            n == self@.len(),
    {
        self.dims.len()
    }

    /// Total number of elements: the product of all dimension sizes.
    ///
    /// Every prefix product must fit in `usize`, which is how the running
    /// product is accumulated.
    pub fn size(&self) -> (n: usize)
        requires
            forall|i: int| 0 <= i <= self@.len() ==> dims_product(#[trigger] self@.take(i)) <= usize::MAX,
        ensures
            n == dims_product(self@),
    {
        let mut acc: usize = 1;
        let mut i: usize = 0;
        while i < self.dims.len()
            invariant
                0 <= i <= self.dims.len(),
                acc == dims_product(self@.take(i as int)),
                forall|j: int| 0 <= j <= self@.len() ==> dims_product(#[trigger] self@.take(j)) <= usize::MAX,
            decreases self.dims.len() - i,
        {
            proof {
                assert(self@.take(i + 1).drop_last() =~= self@.take(i as int));
                lemma_product_drop_last(self@.take(i + 1));
            }
            acc = acc * self.dims[i];
            i = i + 1;
        }
        proof {
            assert(self@.take(self@.len() as int) =~= self@);
        }
        acc
    }

    /// The dimension sizes as a slice.
    pub fn dims(&self) -> (d: &[usize])
        ensures
            d@ == self@,
    {
        self.dims.as_slice()
    }

    /// The size of one dimension, or `None` when the axis is out of range.
    pub fn dim(&self, axis: usize) -> (d: Option<usize>)
        ensures
            match d {
                Some(v) => axis < self@.len() && v == self@[axis as int],
                None => axis >= self@.len(),
            },
    {
        if axis < self.dims.len() {
            Some(self.dims[axis])
        } else {
            None
        }
    }

    /// Row-major (C order) strides: the stride of an axis is the product of
    /// all dimension sizes after it.
    pub fn strides_row_major(&self) -> (r: Vec<usize>)
        requires
            forall|i: int| 0 <= i <= self@.len() ==> dims_product(#[trigger] self@.skip(i)) <= usize::MAX,
        ensures
            r@.len() == self@.len(),
            forall|i: int| 0 <= i < self@.len() ==> r@[i] == dims_product(#[trigger] self@.skip(i + 1)),
    {
        let n = self.dims.len();
        let mut strides: Vec<usize> = Vec::new();
        let mut j: usize = 0;
        while j < n
            invariant
                strides@.len() == j,
                j <= n,
            decreases n - j,
        {
            strides.push(1);
            j = j + 1;
        }
        proof {
            assert(self@.skip(n as int) =~= Seq::<usize>::empty());
        }
        let mut acc: usize = 1;
        let mut i: usize = n;
        while i > 0
            invariant
                0 <= i <= n,
                n == self@.len(),
                strides@.len() == n,
                acc == dims_product(self@.skip(i as int)),
                forall|t: int| i <= t < n ==> strides@[t] == dims_product(#[trigger] self@.skip(t + 1)),
                forall|t: int| 0 <= t <= self@.len() ==> dims_product(#[trigger] self@.skip(t)) <= usize::MAX,
            decreases i,
        {
            i = i - 1;
            strides.set(i, acc);
            proof {
                assert(self@.skip(i as int)[0] == self@[i as int]);
                assert(self@.skip(i as int).skip(1) =~= self@.skip(i + 1));
                assert(dims_product(self@.skip(i as int)) == self@[i as int] * dims_product(self@.skip(i + 1)));
            }
            acc = acc * self.dims[i];
        }
        strides
    }

    /// Column-major (Fortran order) strides: the stride of an axis is the
    /// product of all dimension sizes before it.
    pub fn strides_col_major(&self) -> (r: Vec<usize>)
        requires
            forall|i: int| 0 <= i <= self@.len() ==> dims_product(#[trigger] self@.take(i)) <= usize::MAX,
        ensures
            r@.len() == self@.len(),
            forall|i: int| 0 <= i < self@.len() ==> r@[i] == dims_product(#[trigger] self@.take(i)),
    {
        let n = self.dims.len();
        let mut strides: Vec<usize> = Vec::new();
        let mut acc: usize = 1;
        let mut i: usize = 0;
        while i < n
            invariant
                strides@.len() == i,
                i <= n,
                n == self@.len(),
                acc == dims_product(self@.take(i as int)),
                forall|t: int| 0 <= t < i ==> strides@[t] == dims_product(#[trigger] self@.take(t)),
                forall|t: int| 0 <= t <= self@.len() ==> dims_product(#[trigger] self@.take(t)) <= usize::MAX,
            decreases n - i,
        {
            strides.push(acc);
            proof {
                assert(self@.take(i + 1).drop_last() =~= self@.take(i as int));
                lemma_product_drop_last(self@.take(i + 1));
            }
            acc = acc * self.dims[i];
            i = i + 1;
        }
        strides
    }
}

} // verus!
