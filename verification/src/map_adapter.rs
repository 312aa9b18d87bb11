//! A vector adapted to the shape of an integer-keyed map: keys are the
//! indices `0..len`, values are the elements.

use vstd::prelude::*;

verus! {

/// A mutable integer-keyed mapping backed by a vector.
pub struct MapAdapter<T> {
    lst: Vec<T>,
}

impl<T> MapAdapter<T> {
    /// The values, as a sequence indexed by key.
    pub closed spec fn view(&self) -> Seq<T> {
        self.lst@
    }

    /// Wraps a vector.
    pub fn new(lst: Vec<T>) -> (r: Self)
        ensures
            r@ == lst@,
    {
        Self { lst }
    }

    /// Returns the underlying vector.
    pub fn lst(&self) -> (r: &Vec<T>)
        ensures
            r@ == self@,
    {
        &self.lst
    }

    /// Returns the underlying vector for in-place mutation.
    pub fn lst_mut(&mut self) -> (r: &mut Vec<T>)
        ensures
            r@ == old(self)@,
            final(self)@ == final(r)@,
    {
        &mut self.lst
    }

    /// Returns the underlying vector for in-place mutation of the values.
    pub fn values_mut(&mut self) -> (r: &mut Vec<T>)
        ensures
            r@ == old(self)@,
            final(self)@ == final(r)@,
    {
        &mut self.lst
    }

    /// Returns the value under key `key`.
    pub fn get(&self, key: usize) -> (r: &T)
        requires
            key < self@.len(),
        ensures
            *r == self@[key as int],
    {
        &self.lst[key]
    }

    /// Replaces the value under key `key`.
    pub fn set(&mut self, key: usize, value: T)
        requires
            key < old(self)@.len(),
        ensures
            final(self)@ == old(self)@.update(key as int, value),
    {
        self.lst.set(key, value);
    }

    /// The number of keys.
    pub fn len(&self) -> (r: usize)
        ensures
            r == self@.len(),
    {
        self.lst.len()
    }

    /// The keys, in ascending order: `0..len`.
    pub fn keys(&self) -> (r: Vec<usize>)
        ensures
            r@.len() == self@.len(),
            forall|i: int| 0 <= i < r@.len() ==> r@[i] == i,
    {
        let mut out: Vec<usize> = Vec::new();
        let mut i: usize = 0;
        while i < self.lst.len()
            invariant
                i <= self@.len(),
                out@.len() == i,
                forall|j: int| 0 <= j < i ==> out@[j] == j,
            decreases self.lst.len() - i,
        {
            out.push(i);
            i = i + 1;
        }
        out
    }
}

impl<T: Copy> MapAdapter<T> {
    /// The values, in key order.
    pub fn values(&self) -> (r: Vec<T>)
        ensures
            r@ == self@,
    {
        let mut out: Vec<T> = Vec::new();
        let mut i: usize = 0;
        while i < self.lst.len()
            invariant
                i <= self@.len(),
                out@ == self@.take(i as int),
            decreases self.lst.len() - i,
        {
            out.push(self.lst[i]);
            i = i + 1;
            proof {
                assert(out@ =~= self@.take(i as int));
            }
        }
        proof {
            assert(self@.take(self@.len() as int) =~= self@);
        }
        out
    }

    /// The `(key, value)` pairs, in key order.
    pub fn items(&self) -> (r: Vec<(usize, T)>)
        ensures
            r@.len() == self@.len(),
            forall|i: int| 0 <= i < r@.len() ==> r@[i] == (i as usize, self@[i]),
    {
        let mut out: Vec<(usize, T)> = Vec::new();
        let mut i: usize = 0;
        while i < self.lst.len()
            invariant
                i <= self@.len(),
                out@.len() == i,
                forall|j: int| 0 <= j < i ==> out@[j] == (j as usize, self@[j]),
            decreases self.lst.len() - i,
        {
            out.push((i, self.lst[i]));
            i = i + 1;
        }
        out
    }
}

} // verus!
