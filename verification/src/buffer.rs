//! A growable array of words with a compact capacity policy.
//!
//! A `Buffer` owns its words exclusively.  Allocation reserves a little
//! headroom (`n + n/8 + 2` for an expected length `n`) so that small growth
//! does not reallocate; `shrink` reallocates only when the capacity has
//! drifted above the compact band of the current length, and
//! `resizing_clone_from` reuses the destination allocation whenever its
//! capacity lies inside the compact band of the source length.
//!
//! Since the underlying allocator is not part of the verified model, the
//! capacity that the policy prescribes is tracked explicitly in `cap`; every
//! method's contract pins how `cap` evolves.

use vstd::prelude::*;
use crate::primitive::Word;

verus! {

/// Lengths are kept at or below this bound so that every capacity
/// computation of the policy fits in a usize.
pub const BUF_MAX_LEN: usize = usize::MAX / 32;

/// Capacities never exceed this bound.
pub const BUF_MAX_CAP: usize = usize::MAX / 16;

/// Capacity chosen when allocating for an expected length n.
pub open spec fn default_cap(n: int) -> int {
    n + n / 8 + 2
}

/// Largest capacity considered compact for length n.
pub open spec fn max_compact_cap(n: int) -> int {
    n + n / 8 + 3
}

/// Growable word array.  `cap` is the capacity the allocation policy has
/// chosen; the words themselves are the prefix of length `len`.
#[derive(Debug)]
pub struct Buffer {
    /// The words, least significant first.
    pub words: Vec<Word>,
    /// Capacity in words chosen by the allocation policy.
    pub cap: usize,
}

impl View for Buffer {
    type V = Seq<Word>;

    open spec fn view(&self) -> Seq<Word> {
        self.words@
    }
}

impl Buffer {
    /// Length and capacity stay in bounds that keep the policy's
    /// arithmetic inside usize.
    pub open spec fn wf(&self) -> bool {
        &&& self@.len() <= self.cap
        &&& self@.len() <= BUF_MAX_LEN
        &&& self.cap <= BUF_MAX_CAP
    }

    /// Creates a buffer for an expected length of n words, with headroom
    /// so that a final length near n will not force a reallocation.
    pub fn allocate(n: usize) -> (r: Buffer)
        requires
            n <= BUF_MAX_LEN,
        ensures
            r.wf(),
            r@ =~= Seq::<Word>::empty(),
            r.cap == default_cap(n as int),
    {
        let cap = n + n / 8 + 2;
        let mut words: Vec<Word> = Vec::with_capacity(cap);
        Buffer { words, cap }
    }

    /// Current length in words.
    pub fn len(&self) -> (r: usize)
        ensures
            r == self@.len(),
    {
        self.words.len()
    }

    /// Current capacity in words, as chosen by the policy.
    pub fn capacity(&self) -> (r: usize)
        ensures
            r == self.cap,
    {
        self.cap
    }

    /// Indexed read.
    pub fn get(&self, i: usize) -> (r: Word)
        requires
            i < self@.len(),
        ensures
            r == self@[i as int],
    {
        self.words[i]
    }

    /// Indexed write.
    pub fn set(&mut self, i: usize, w: Word)
        requires
            i < old(self)@.len(),
        ensures
            final(self)@ =~= old(self)@.update(i as int, w),
            final(self).cap == old(self).cap,
    {
        self.words[i] = w;
    }

    /// Appends a word.  The caller must have allocated room: within the
    /// reserved capacity a push never reallocates.
    pub fn push(&mut self, w: Word)
        requires
            old(self).wf(),
            old(self)@.len() < old(self).cap,
            old(self)@.len() < BUF_MAX_LEN,
        ensures
            final(self).wf(),
            final(self)@ =~= old(self)@.push(w),
            final(self).cap == old(self).cap,
    {
        self.words.push(w);
    }

    /// Removes and returns the most significant word, if any.
    pub fn pop(&mut self) -> (r: Option<Word>)
        requires
            old(self).wf(),
        ensures
            final(self).wf(),
            final(self).cap == old(self).cap,
            old(self)@.len() == 0 ==> r is None && final(self)@ =~= old(self)@,
            old(self)@.len() > 0 ==> r == Some(old(self)@.last()) && final(self)@ =~= old(
                self,
            )@.drop_last(),
    {
        if self.words.len() == 0 {
            None
        } else {
            self.words.pop()
        }
    }

    /// The most significant word, if any.
    pub fn last(&self) -> (r: Option<Word>)
        ensures
            self@.len() == 0 ==> r is None,
            self@.len() > 0 ==> r == Some(self@.last()),
    {
        if self.words.len() == 0 {
            None
        } else {
            Some(self.words[self.words.len() - 1])
        }
    }

    /// Reallocates to the compact capacity if the current capacity has
    /// drifted above the compact band of the current length.
    pub fn shrink(&mut self)
        requires
            old(self).wf(),
        ensures
            final(self).wf(),
            final(self)@ =~= old(self)@,
            final(self).cap == if old(self).cap > max_compact_cap(old(self)@.len() as int) {
                default_cap(old(self)@.len() as int)
            } else {
                old(self).cap as int
            },
    {
        let len = self.words.len();
        if self.cap > len + len / 8 + 3 {
            self.cap = len + len / 8 + 2;
        }
    }

    /// Copies the source's words into this buffer.  The existing
    /// allocation is reused when its capacity lies within the compact band
    /// of the source length; otherwise the buffer is reallocated as
    /// `allocate(source.len())` would.
    pub fn resizing_clone_from(&mut self, source: &Buffer)
        requires
            old(self).wf(),
            source.wf(),
        ensures
            final(self).wf(),
            final(self)@ =~= source@,
            final(self).cap == if source@.len() <= old(self).cap <= max_compact_cap(
                source@.len() as int,
            ) {
                old(self).cap as int
            } else {
                default_cap(source@.len() as int)
            },
    {
        let n = source.words.len();
        if self.cap >= n && self.cap <= n + n / 8 + 3 {
            self.words.clear();
            copy_words(&mut self.words, &source.words);
        } else {
            self.words = Vec::with_capacity(n + n / 8 + 2);
            self.cap = n + n / 8 + 2;
            copy_words(&mut self.words, &source.words);
        }
    }
}

/// Appends all of src to dst.
fn copy_words(dst: &mut Vec<Word>, src: &Vec<Word>)
    ensures
        final(dst)@ =~= old(dst)@ + src@,
{
    let mut i: usize = 0;
    while i < src.len()
        invariant
            i <= src@.len(),
            dst@ =~= old(dst)@ + src@.subrange(0, i as int),
        decreases src@.len() - i,
    {
        dst.push(src[i]);
        i = i + 1;
        proof {
            assert(old(dst)@ + src@.subrange(0, i as int) =~= (old(dst)@ + src@.subrange(
                0,
                i - 1,
            )).push(src@[i - 1]));
        }
    }
    proof {
        assert(src@.subrange(0, src@.len() as int) =~= src@);
    }
}

impl Clone for Buffer {
    /// Deep copy with a freshly chosen compact capacity.
    fn clone(&self) -> (r: Buffer)
        ensures
            r@ =~= self@,
            self@.len() <= BUF_MAX_LEN ==> r.wf() && r.cap == default_cap(self@.len() as int),
    {
        let n = self.words.len();
        if n <= BUF_MAX_LEN {
            let mut r = Buffer::allocate(n);
            copy_words(&mut r.words, &self.words);
            r
        } else {
            let mut words: Vec<Word> = Vec::new();
            copy_words(&mut words, &self.words);
            let cap = words.len();
            Buffer { words, cap }
        }
    }
}

} // verus!
