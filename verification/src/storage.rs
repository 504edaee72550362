//! Flat element storage backing the dense array container.

use vstd::prelude::*;

verus! {

/// Contiguous owned storage for array elements.
#[derive(Debug, Clone)]
pub struct Storage<T> {
    data: Vec<T>,
}

impl<T> View for Storage<T> {
    type V = Seq<T>;

    closed spec fn view(&self) -> Seq<T> {
        self.data@
    }
}

impl<T> Storage<T> {
    /// Takes ownership of the elements of a vector.
    pub fn from_vec(data: Vec<T>) -> (s: Self)
        ensures
            s@ == data@,
    {
        Storage { data }
    }

    /// Number of stored elements.
    pub fn len(&self) -> (n: usize)
        ensures
            n == self@.len(),
    {
        self.data.len()
    }

    /// The elements as a slice.
    pub fn as_slice(&self) -> (r: &[T])
        ensures
            r@ == self@,
    {
        self.data.as_slice()
    }

    /// The elements as a mutable slice.
    pub fn as_mut_slice(&mut self) -> (r: &mut [T])
        ensures
            r@ == old(self)@,
            final(self)@ == final(r)@,
    {
        self.data.as_mut_slice()
    }

    /// A reference to the element at `i`, or `None` past the end.
    pub fn get(&self, i: usize) -> (r: Option<&T>)
        ensures
            match r {
                Some(v) => i < self@.len() && *v == self@[i as int],
                None => i >= self@.len(),
            },
    {
        if i < self.data.len() {
            Some(&self.data[i])
        } else {
            None
        }
    }

    /// A mutable reference to the element at `i`, or `None` past the end.
    pub fn get_mut(&mut self, i: usize) -> (r: Option<&mut T>)
        ensures
            i >= old(self)@.len() ==> r.is_none() && final(self)@ == old(self)@,
            i < old(self)@.len() ==> r.is_some() && *r.unwrap() == old(self)@[i as int]
                && final(self)@ == old(self)@.update(i as int, *final(r.unwrap())),
    {
        if i < self.data.len() {
            Some(&mut self.data[i])
        } else {
            None
        }
    }
}

impl<T: Copy> Storage<T> {
    /// Storage holding `n` copies of one value.
    pub fn filled(value: T, n: usize) -> (s: Self)
        ensures
            s@.len() == n,
            forall|i: int| 0 <= i < n ==> s@[i] == value,
    {
        let mut data: Vec<T> = Vec::new();
        let mut i: usize = 0;
        while i < n
            invariant
                i <= n,
                data@.len() == i,
                forall|j: int| 0 <= j < i ==> data@[j] == value,
            decreases n - i,
        {
            data.push(value);
            i = i + 1;
        }
        Storage { data }
    }
}

impl<T: Copy + Default> Storage<T> {
    /// Storage holding `n` copies of the element type's default value.
    pub fn zeros(n: usize) -> (s: Self)
        ensures
            s@.len() == n,
            forall|i: int, j: int| 0 <= i < n && 0 <= j < n ==> s@[i] == s@[j],
    {
        Self::filled(T::default(), n)
    }
}

} // verus!
