//! Array-like views: a constant-value repeating sequence and a vector
//! indexed from an arbitrary starting offset.

use vstd::prelude::*;

verus! {

/// A read-only sequence view that yields the same value at every index.
pub struct RepeatArray<T> {
    /// The value reported at every index.
    pub value: T,
    /// The nominal number of repetitions.
    pub size: usize,
}

impl<T> RepeatArray<T> {
    /// Creates a view that repeats `value` `size` times.
    pub fn new(value: T, size: usize) -> (r: Self)
        ensures
            r.value == value,
            r.size == size,
    {
        Self { value, size }
    }

    /// Returns the value; the index is ignored.
    pub fn get(&self, _item: usize) -> (r: &T)
        ensures
            *r == self.value,
    {
        &self.value
    }
}

impl<T: Copy> RepeatArray<T> {
    /// Materializes the view: `size` copies of the value.
    pub fn to_vec(&self) -> (r: Vec<T>)
        ensures
            r@ == Seq::new(self.size as nat, |i: int| self.value),
    {
        let mut out: Vec<T> = Vec::new();
        let mut i: usize = 0;
        while i < self.size
            invariant
                i <= self.size,
                out@ == Seq::new(i as nat, |j: int| self.value),
            decreases self.size - i,
        {
            out.push(self.value);
            i = i + 1;
            proof {
                assert(out@ =~= Seq::new(i as nat, |j: int| self.value));
            }
        }
        out
    }
}

/// A vector whose first element sits at a caller-chosen index.
pub struct ShiftArray<T> {
    data: Vec<T>,
    start: usize,
}

impl<T> ShiftArray<T> {
    /// The elements, as a sequence starting at index `start()`.
    pub closed spec fn view(&self) -> Seq<T> {
        self.data@
    }

    /// The index of the first element.
    pub closed spec fn start_spec(&self) -> usize {
        self.start
    }

    /// Wraps a vector; the starting index is initially 0.
    pub fn from(data: Vec<T>) -> (r: Self)
        ensures
            r@ == data@,
            r.start_spec() == 0,
    {
        Self { data, start: 0 }
    }

    /// Moves the starting index.
    pub fn set_start(&mut self, start: usize)
        ensures
            final(self)@ == old(self)@,
            final(self).start_spec() == start,
    {
        self.start = start;
    }

    /// Returns the current starting index.
    pub fn start(&self) -> (r: usize)
        ensures
            r == self.start_spec(),
    {
        self.start
    }

    /// Returns the element at external index `index`.
    pub fn get(&self, index: usize) -> (r: &T)
        requires
            self.start_spec() <= index < self.start_spec() + self@.len(),
        ensures
            *r == self@[index - self.start_spec()],
    {
        &self.data[index - self.start]
    }

    /// Replaces the element at external index `index`.
    pub fn set(&mut self, index: usize, value: T)
        requires
            old(self).start_spec() <= index < old(self).start_spec() + old(self)@.len(),
        ensures
            final(self)@ == old(self)@.update(index - old(self).start_spec(), value),
            final(self).start_spec() == old(self).start_spec(),
    {
        let i = index - self.start;
        self.data.set(i, value);
    }

    /// The number of elements.
    pub fn len(&self) -> (r: usize)
        ensures
            r == self@.len(),
    {
        self.data.len()
    }
}

impl<T: Copy> ShiftArray<T> {
    /// The `(external index, element)` pairs, front to back.
    pub fn items(&self) -> (r: Vec<(usize, T)>)
        requires
            self.start_spec() + self@.len() <= usize::MAX,
        ensures
            r@.len() == self@.len(),
            forall|i: int|
                0 <= i < self@.len() ==> r@[i] == (
                    (self.start_spec() + i) as usize,
                    self@[i],
                ),
    {
        let mut out: Vec<(usize, T)> = Vec::new();
        let mut i: usize = 0;
        while i < self.data.len()
            invariant
                i <= self@.len(),
                self.start_spec() + self@.len() <= usize::MAX,
                out@.len() == i,
                forall|j: int|
                    0 <= j < i ==> out@[j] == (
                        (self.start_spec() + j) as usize,
                        self@[j],
                    ),
            decreases self.data.len() - i,
        {
            out.push((self.start + i, self.data[i]));
            i = i + 1;
        }
        out
    }

    /// Materializes the elements in order, without the index shift.
    pub fn to_vec(&self) -> (r: Vec<T>)
        ensures
            r@ == self@,
    {
        let mut out: Vec<T> = Vec::new();
        let mut i: usize = 0;
        while i < self.data.len()
            invariant
                i <= self@.len(),
                out@ == self@.take(i as int),
            decreases self.data.len() - i,
        {
            out.push(self.data[i]);
            i = i + 1;
            proof {
                assert(out@ =~= self@.take(i as int));
            }
        }
        proof {
            assert(self@.take(self@.len() as int) =~= self@);
        }
        out
    }
}

} // verus!
