use vstd::prelude::*;

verus! {

/// Allocates fresh node identifiers: each call to `generate` hands out the
/// current counter value and advances it by one, so no identifier is
/// repeated within a run.
#[derive(Clone, Copy, Debug)]
pub struct IdGenerator {
    next_id: usize,
}

impl IdGenerator {
    /// The next identifier this generator will hand out.
    pub closed spec fn next(self) -> int {
        self.next_id as int
    }

    pub fn new(initial: usize) -> (r: IdGenerator)
        ensures
            r.next() == initial,
    {
        IdGenerator { next_id: initial }
    }

    /// The identifier the next `generate` call will hand out, without
    /// advancing.
    pub fn peek(&self) -> (r: usize)
        ensures
            r == self.next(),
    {
        self.next_id
    }

    pub fn generate(&mut self) -> (r: usize)
        requires
            old(self).next() < usize::MAX,
        ensures
            r == old(self).next(),
            final(self).next() == old(self).next() + 1,
    {
        let current = self.next_id;
        self.next_id = current + 1;
        current
    }
}

} // verus!
