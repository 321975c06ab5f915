use vstd::prelude::*;

verus! {

/// A handle to one qubit of a quantum system: the position of its bit in the
/// index of a basis state.
#[derive(Clone, Copy)]
pub struct Qubit {
    index: usize,
}

impl Qubit {
    /// Every qubit is a bit position that a shift of a `usize` can reach,
    /// below the top bit.
    #[verifier::type_invariant]
    pub closed spec fn fits(self) -> bool {
        self.index < usize::BITS - 1
    }

    /// The bit position of this qubit in a basis-state index.
    pub closed spec fn pos(self) -> usize {
        self.index
    }

    pub(crate) fn from_position(index: usize) -> (q: Qubit)
        requires
            index < usize::BITS - 1,
        ensures
            q.pos() == index,
    {
        Qubit { index }
    }

    /// The bit position of this qubit in a basis-state index.
    pub fn position(&self) -> (i: usize)
        ensures
            i == self.pos(),
            i < usize::BITS - 1,
    {
        proof {
            use_type_invariant(self);
        }
        self.index
    }
}

} // verus!
