//! The scratch space: transient storage of fixed capacity, used only
//! while nested values are serialized.

use vstd::prelude::*;

verus! {

/// Why the scratch space refused a request.
#[derive(Clone, Copy, Debug, PartialEq, Eq, Structural)]
pub enum ScratchError {
    /// The request does not fit in what is left of the capacity.
    OutOfSpace,
    /// More was handed back than is held.
    NotPoppedInReverseOrder,
}

/// A scratch space of fixed capacity: a stack of 64-bit words that holds
/// at most `N` bytes. It is used while nested values are serialized and
/// is never part of the output.
#[derive(Debug)]
pub struct StackScratch<const N: usize> {
    words: Vec<u64>,
}

impl<const N: usize> StackScratch<N> {
    /// What is held fits in the capacity.
    pub closed spec fn wf(&self) -> bool {
        self.words@.len() * 8 <= N
    }

    /// The words held, the oldest first.
    pub closed spec fn held(&self) -> Seq<u64> {
        self.words@
    }

    /// The number of words that fit.
    pub open spec fn capacity() -> nat {
        (N / 8) as nat
    }

    /// What is held never exceeds the capacity.
    pub proof fn lemma_within_capacity(&self)
        requires
            self.wf(),
        ensures
            self.held().len() <= Self::capacity(),
            Self::capacity() <= usize::MAX / 8,
    {
    }

    /// Creates a new, empty scratch space.
    pub fn new() -> (r: Self)
        ensures
            r.wf(),
            r.held() == Seq::<u64>::empty(),
    {
        StackScratch { words: Vec::new() }
    }

    /// The number of words held.
    pub fn len(&self) -> (r: usize)
        requires
            self.wf(),
        ensures
            r == self.held().len(),
            r <= Self::capacity(),
    {
        self.words.len()
    }

    /// Puts a word on top. Fails, and holds what it held, when the
    /// capacity is used up.
    pub fn push_scratch(&mut self, word: u64) -> (r: Result<(), ScratchError>)
        requires
            old(self).wf(),
        ensures
            final(self).wf(),
            match r {
                Ok(()) => final(self).held() == old(self).held().push(word),
                Err(e) => e == ScratchError::OutOfSpace && final(self).held() == old(self).held(),
            },
            r is Ok <==> old(self).held().len() < Self::capacity(),
    {
        if self.words.len() >= N / 8 {
            return Err(ScratchError::OutOfSpace);
        }
        self.words.push(word);
        Ok(())
    }

    /// Hands back all but the first `len` words. Fails, and holds what
    /// it held, when fewer than `len` words are held.
    pub fn pop_scratch(&mut self, len: usize) -> (r: Result<(), ScratchError>)
        requires
            old(self).wf(),
        ensures
            final(self).wf(),
            match r {
                Ok(()) => final(self).held() == old(self).held().take(len as int),
                Err(e) => {
                    &&& e == ScratchError::NotPoppedInReverseOrder
                    &&& final(self).held() == old(self).held()
                },
            },
            r is Ok <==> len <= old(self).held().len(),
    {
        if len > self.words.len() {
            return Err(ScratchError::NotPoppedInReverseOrder);
        }
        self.words.truncate(len);
        proof {
            assert(self.words@ =~= old(self).held().take(len as int));
        }
        Ok(())
    }

    /// The word at `index`, counted from the oldest.
    pub fn get(&self, index: usize) -> (r: Option<u64>)
        ensures
            r == if index < self.held().len() {
                Some(self.held()[index as int])
            } else {
                None
            },
    {
        if index < self.words.len() {
            Some(self.words[index])
        } else {
            None
        }
    }
}

impl<const N: usize> Default for StackScratch<N> {
    fn default() -> (r: Self)
        ensures
            r.wf(),
            r.held() == Seq::<u64>::empty(),
    {
        StackScratch::new()
    }
}

} // verus!
