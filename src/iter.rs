//! A cursor that walks the bits of a [`Binvec`] in ascending index order.
use vstd::prelude::*;

use crate::Binvec;

verus! {

/// Walks the bits of a borrowed [`Binvec`] one by one, from index 0 up.
/// Once every bit has been yielded it stays exhausted.
#[derive(Debug, Clone, Copy)]
pub struct BinvecIter<'a> {
    binvec: &'a Binvec,
    index: usize,
}

impl<'a> BinvecIter<'a> {
    /// The bits being walked.
    pub closed spec fn bits(&self) -> Seq<bool> {
        self.binvec@
    }

    /// The index of the next bit to yield.
    pub closed spec fn position(&self) -> nat {
        self.index as nat
    }

    /// The bits still to be yielded, in order.
    pub open spec fn remaining(&self) -> Seq<bool> {
        self.bits().subrange(self.position() as int, self.bits().len() as int)
    }

    /// The container is well formed and the cursor is within it.
    pub closed spec fn wf(&self) -> bool {
        &&& self.binvec.wf()
        &&& self.index <= self.binvec@.len()
    }

    /// A cursor at the first bit of `binvec`.
    pub fn new(binvec: &'a Binvec) -> (r: Self)
        requires
            binvec.wf(),
        ensures
            r.wf(),
            r.bits() == binvec@,
            r.position() == 0,
    {
        BinvecIter { binvec, index: 0 }
    }

    /// The bit under the cursor, moving past it, or `None` once every bit
    /// has been yielded.
    pub fn next(&mut self) -> (r: Option<bool>)
        requires
            old(self).wf(),
        ensures
            final(self).wf(),
            final(self).bits() == old(self).bits(),
            old(self).position() < old(self).bits().len() ==> r == Some(
                old(self).bits()[old(self).position() as int],
            ) && final(self).position() == old(self).position() + 1,
            old(self).position() >= old(self).bits().len() ==> r == None::<bool>
                && final(self).position() == old(self).position(),
    {
        if self.index < self.binvec.len() {
            let bit: bool = self.binvec.get_unchecked(self.index);
            self.index = self.index + 1;
            Some(bit)
        } else {
            None
        }
    }
}

} // verus!
