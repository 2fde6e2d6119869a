//! Reading memory that others write: what is loaded, and in which order.
//!
//! The order of loads, and the fences between them, show in no result as long as nobody writes;
//! they are what a reader relies on when somebody does. A `Look` keeps account of them, so that
//! contracts can speak of them.

use vstd::prelude::*;

use crate::region;
use crate::region::Region;

verus! {

/// One thing that a reader did.
pub enum Act {
    /// Loaded the byte at this offset.
    Byte(int),
    /// Loaded the word at this offset.
    Word(int),
    /// Ordered the loads before this act before those after it.
    Acquire,
    /// Waited a moment.
    Pause,
}

/// The loads of `n` bytes from `at` on, one after the other.
pub open spec fn byte_loads(at: int, n: nat) -> Seq<Act> {
    Seq::new(n, |k: int| Act::Byte(at + k))
}

/// A look at a region of memory, with an account of what it took.
pub struct Look<'a, R: Region> {
    mem: &'a R,
    log: Ghost<Seq<Act>>,
}

impl<'a, R: Region> Look<'a, R> {
    /// What the memory holds.
    pub closed spec fn bytes(&self) -> Seq<u8> {
        self.mem.bytes()
    }

    /// What was done so far, in order.
    pub closed spec fn log(&self) -> Seq<Act> {
        self.log@
    }

    /// A look that has taken nothing yet.
    pub fn new(mem: &'a R) -> (look: Self)
        ensures
            look.bytes() == mem.bytes(),
            look.log() == Seq::<Act>::empty(),
    {
        Look { mem, log: Ghost(Seq::empty()) }
    }

    /// The number of bytes.
    pub fn size(&self) -> (n: usize)
        ensures
            n == self.bytes().len(),
    {
        self.mem.size()
    }

    /// Loads one byte.
    pub fn byte(&mut self, at: usize) -> (byte: u8)
        requires
            at < old(self).bytes().len(),
        ensures
            byte == old(self).bytes()[at as int],
            final(self).bytes() == old(self).bytes(),
            final(self).log() == old(self).log().push(Act::Byte(at as int)),
    {
        proof {
            self.log@ = self.log@.push(Act::Byte(at as int));
        }
        self.mem.load(at)
    }

    /// Loads a little-endian word.
    pub fn word(&mut self, at: usize) -> (word: u32)
        requires
            at + 4 <= old(self).bytes().len(),
        ensures
            word == region::le32(old(self).bytes(), at as int),
            final(self).bytes() == old(self).bytes(),
            final(self).log() == old(self).log().push(Act::Word(at as int)),
    {
        proof {
            self.log@ = self.log@.push(Act::Word(at as int));
        }
        self.mem.load_u32(at)
    }

    /// Loads 24 bytes.
    pub fn block(&mut self, at: usize) -> (block: [u8; 24])
        requires
            at + 24 <= old(self).bytes().len(),
        ensures
            block@ == old(self).bytes().subrange(at as int, at + 24),
            final(self).bytes() == old(self).bytes(),
            final(self).log() == old(self).log() + byte_loads(at as int, 24),
    {
        let size: usize = self.size();
        let mut block = [0u8; 24];
        let mut i: usize = 0;
        assert(old(self).log() + byte_loads(at as int, 0) =~= old(self).log());
        while i < 24
            invariant
                i <= 24,
                at + 24 <= size == self.bytes().len(),
                self.bytes() == old(self).bytes(),
                self.log() == old(self).log() + byte_loads(at as int, i as nat),
                forall|j: int| 0 <= j < i ==> block@[j] == self.bytes()[at + j],
            decreases 24 - i,
        {
            block[i] = self.byte(at + i);
            assert(self.log() =~= old(self).log() + byte_loads(at as int, (i + 1) as nat));
            i += 1;
        }
        assert(block@ =~= self.bytes().subrange(at as int, at + 24));
        block
    }

    /// Orders the loads before this call before those after it.
    pub fn acquire(&mut self)
        ensures
            final(self).bytes() == old(self).bytes(),
            final(self).log() == old(self).log().push(Act::Acquire),
    {
        proof {
            self.log@ = self.log@.push(Act::Acquire);
        }
        self.mem.acquire();
    }

    /// Waits a moment between two attempts.
    pub fn pause(&mut self)
        ensures
            final(self).bytes() == old(self).bytes(),
            final(self).log() == old(self).log().push(Act::Pause),
    {
        proof {
            self.log@ = self.log@.push(Act::Pause);
        }
        self.mem.pause();
    }
}

} // verus!
