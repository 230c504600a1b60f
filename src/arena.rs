use vstd::prelude::*;

verus! {

/// Append-only owner of allocated values.
///
/// A value is reached through the handle that `allocate` returned for it: the
/// position of the value in allocation order. Handles stay valid for the
/// whole life of the arena, since nothing is ever removed.
pub struct Arena<T> {
    data: Vec<T>,
}

impl<T> View for Arena<T> {
    type V = Seq<T>;

    closed spec fn view(&self) -> Seq<T> {
        self.data@
    }
}

impl<T> Arena<T> {
    /// Whether `h` designates a value of this arena.
    pub open spec fn live(&self, h: int) -> bool {
        0 <= h < self@.len()
    }

    pub fn new() -> (r: Self)
        ensures
            r@ == Seq::<T>::empty(),
    {
        Arena { data: Vec::new() }
    }

    /// Stores `value` and returns its handle.
    pub fn allocate(&mut self, value: T) -> (h: usize)
        requires
            old(self)@.len() < usize::MAX,
        ensures
            h == old(self)@.len(),
            final(self)@ == old(self)@.push(value),
    {
        let h = self.data.len();
        self.data.push(value);
        h
    }

    /// Number of values allocated so far.
    pub fn len(&self) -> (n: usize)
        ensures
            n == self@.len(),
    {
        self.data.len()
    }

    /// The value behind handle `h`.
    pub fn get(&self, h: usize) -> (r: &T)
        requires
            self.live(h as int),
        ensures
            *r == self@[h as int],
    {
        &self.data[h]
    }

    /// Puts `value` behind handle `h` and hands back the value that stood there.
    pub fn replace(&mut self, h: usize, value: T) -> (r: T)
        requires
            old(self).live(h as int),
        ensures
            r == old(self)@[h as int],
            final(self)@ == old(self)@.update(h as int, value),
    {
        let mut v = value;
        std::mem::swap(&mut v, &mut self.data[h]);
        v
    }
}

} // verus!
