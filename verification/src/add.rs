//! Multi-word addition and subtraction kernels.
//!
//! Every kernel traverses limbs low-to-high over an index range of a word
//! vector and returns the carry or borrow out of the top of that range; the
//! contracts state the exact value identity over the touched subrange and
//! that nothing outside it changes.

use vstd::prelude::*;
use crate::arith::{
    seq_value, pow_base, lemma_kernel_step, lemma_value_frame, lemma_pow_base_one,
    lemma_seq_value_push, lemma_mul_pow0,
};
use crate::primitive::{Word, SignedWord, add_with_carry, sub_with_borrow};

verus! {

/// words[lo..hi] += rhs, propagating the carry upward and stopping at the
/// first limb that absorbs it.  Returns the carry out of position hi: at
/// most 1 once a limb was available, and rhs itself on an empty range.
#[verifier::loop_isolation(false)]
pub fn add_word_in_place(words: &mut Vec<Word>, lo: usize, hi: usize, rhs: Word) -> (carry: Word)
    requires
        lo <= hi <= old(words)@.len(),
    ensures
        final(words)@.len() == old(words)@.len(),
        seq_value(final(words)@.subrange(lo as int, hi as int)) + carry * pow_base(
            (hi - lo) as nat,
        ) == seq_value(old(words)@.subrange(lo as int, hi as int)) + rhs,
        forall|j: int|
            0 <= j < old(words)@.len() && !(lo <= j < hi) ==> final(words)@[j] == old(words)@[j],
        hi > lo ==> carry <= 1,
        hi == lo ==> carry == rhs,
{
    let ghost orig = words@;
    proof {
        lemma_pow_base_one();
    }
    let mut i: usize = lo;
    let mut w: Word = rhs;
    proof {
        lemma_mul_pow0(rhs as int);
    }
    while i < hi && w != 0
        invariant
            lo <= i <= hi <= words@.len(),
            words@.len() == orig.len(),
            seq_value(words@.subrange(lo as int, i as int)) + w * pow_base((i - lo) as nat)
                == seq_value(orig.subrange(lo as int, i as int)) + rhs,
            forall|j: int| 0 <= j < orig.len() && !(lo <= j < i) ==> words@[j] == orig[j],
            i > lo ==> w <= 1,
            i == lo ==> w == rhs,
        decreases hi - i,
    {
        let ghost prev = words@;
        let (s, c) = add_with_carry(words[i], w, false);
        words[i] = s;
        proof {
            lemma_kernel_step(
                orig,
                prev,
                words@,
                lo as int,
                i as int,
                w as int,
                if c {
                    1int
                } else {
                    0int
                },
                0,
                rhs as int,
            );
        }
        w = if c {
            1
        } else {
            0
        };
        i = i + 1;
    }
    proof {
        if w == 0 {
            lemma_value_frame(orig, words@, lo as int, i as int, hi as int, rhs as int);
        }
    }
    w
}

/// words[lo..hi] -= rhs, propagating the borrow upward and stopping at the
/// first limb that absorbs it.  Returns the borrow out of position hi.
#[verifier::loop_isolation(false)]
pub fn sub_word_in_place(words: &mut Vec<Word>, lo: usize, hi: usize, rhs: Word) -> (borrow: Word)
    requires
        lo <= hi <= old(words)@.len(),
    ensures
        final(words)@.len() == old(words)@.len(),
        seq_value(final(words)@.subrange(lo as int, hi as int)) == seq_value(
            old(words)@.subrange(lo as int, hi as int),
        ) - rhs + borrow * pow_base((hi - lo) as nat),
        forall|j: int|
            0 <= j < old(words)@.len() && !(lo <= j < hi) ==> final(words)@[j] == old(words)@[j],
        hi > lo ==> borrow <= 1,
        hi == lo ==> borrow == rhs,
{
    let ghost orig = words@;
    proof {
        lemma_pow_base_one();
    }
    let mut i: usize = lo;
    let mut w: Word = rhs;
    proof {
        lemma_mul_pow0(rhs as int);
    }
    while i < hi && w != 0
        invariant
            lo <= i <= hi <= words@.len(),
            words@.len() == orig.len(),
            seq_value(words@.subrange(lo as int, i as int)) == seq_value(
                orig.subrange(lo as int, i as int),
            ) - rhs + w * pow_base((i - lo) as nat),
            forall|j: int| 0 <= j < orig.len() && !(lo <= j < i) ==> words@[j] == orig[j],
            i > lo ==> w <= 1,
            i == lo ==> w == rhs,
        decreases hi - i,
    {
        let ghost prev = words@;
        let (d, b) = sub_with_borrow(words[i], w, false);
        let ghost wby: int = w as int;
        words[i] = d;
        proof {
            assert(seq_value(prev.subrange(lo as int, i as int)) + (-wby) * pow_base(
                (i - lo) as nat) == seq_value(orig.subrange(lo as int, i as int)) + (-(rhs as int)))
                by (nonlinear_arith)
                requires
                    seq_value(prev.subrange(lo as int, i as int)) == seq_value(
                        orig.subrange(lo as int, i as int)) - rhs + wby * pow_base((i - lo) as nat),
            ;
            lemma_kernel_step(
                orig,
                prev,
                words@,
                lo as int,
                i as int,
                -(w as int),
                if b {
                    -1int
                } else {
                    0int
                },
                0,
                -(rhs as int),
            );
        }
        w = if b {
            1
        } else {
            0
        };
        i = i + 1;
    }
    proof {
        if w == 0 {
            lemma_value_frame(orig, words@, lo as int, i as int, hi as int, -(rhs as int));
        }
    }
    w
}

/// words[lo..hi] += rhs for a signed rhs, propagating the signed carry and
/// stopping at the first limb that absorbs it (no wrap).  Returns the final
/// propagated signed word: 0 unless the range was too short.
pub fn add_signed_word_in_place(words: &mut Vec<Word>, lo: usize, hi: usize, rhs: SignedWord) -> (r:
    SignedWord)
    requires
        lo <= hi <= old(words)@.len(),
    ensures
        final(words)@.len() == old(words)@.len(),
        seq_value(final(words)@.subrange(lo as int, hi as int)) + r * pow_base((hi - lo) as nat)
            == seq_value(old(words)@.subrange(lo as int, hi as int)) + rhs,
        forall|j: int|
            0 <= j < old(words)@.len() && !(lo <= j < hi) ==> final(words)@[j] == old(words)@[j],
        hi > lo ==> -1 <= r <= 1,
        hi == lo ==> r == rhs,
{
    proof {
        lemma_pow_base_one();
    }
    if lo == hi || rhs == 0 {
        proof {
            lemma_mul_pow0(rhs as int);
            if rhs == 0 {
                let p = pow_base((hi - lo) as nat);
                assert((rhs as int) * p == 0) by (nonlinear_arith)
                    requires
                        rhs as int == 0,
                ;
            }
        }
        return rhs;
    }
    if rhs > 0 {
        let c = add_word_in_place(words, lo, hi, rhs as Word);
        c as SignedWord
    } else {
        let mag: Word = ((-(rhs as i128)) as u128) as Word;
        let b = sub_word_in_place(words, lo, hi, mag);
        let r = -(b as SignedWord);
        proof {
            let p = pow_base((hi - lo) as nat);
            assert((r as int) * p == -((b as int) * p)) by (nonlinear_arith)
                requires
                    r as int == -(b as int),
            ;
        }
        r
    }
}

/// c[..a.len] += a; returns the carry out of position a.len.  The tail
/// c[a.len..] is left unchanged: the caller propagates the carry.
#[verifier::loop_isolation(false)]
pub fn add_in_place(c: &mut Vec<Word>, a: &Vec<Word>) -> (carry: bool)
    requires
        a@.len() <= old(c)@.len(),
    ensures
        final(c)@.len() == old(c)@.len(),
        seq_value(final(c)@.subrange(0, a@.len() as int)) + (if carry {
            pow_base(a@.len())
        } else {
            0nat
        }) == seq_value(old(c)@.subrange(0, a@.len() as int)) + seq_value(a@),
        forall|j: int| a@.len() <= j < old(c)@.len() ==> final(c)@[j] == old(c)@[j],
{
    let ghost orig = c@;
    proof {
        lemma_pow_base_one();
    }
    let mut i: usize = 0;
    let mut carry: bool = false;
    while i < a.len()
        invariant
            i <= a@.len() <= c@.len(),
            c@.len() == orig.len(),
            seq_value(c@.subrange(0, i as int)) + (if carry {
                1int
            } else {
                0int
            }) * pow_base(i as nat) == seq_value(orig.subrange(0, i as int)) + seq_value(
                a@.subrange(0, i as int),
            ),
            forall|j: int| i <= j < orig.len() ==> c@[j] == orig[j],
        decreases a@.len() - i,
    {
        let ghost prev = c@;
        let (s, c2) = add_with_carry(c[i], a[i], carry);
        c[i] = s;
        proof {
            lemma_kernel_step(
                orig,
                prev,
                c@,
                0,
                i as int,
                if carry {
                    1int
                } else {
                    0int
                },
                if c2 {
                    1int
                } else {
                    0int
                },
                a@[i as int] as int,
                seq_value(a@.subrange(0, i as int)) as int,
            );
            assert(a@.subrange(0, i + 1) =~= a@.subrange(0, i as int).push(a@[i as int]));
            lemma_seq_value_push(a@.subrange(0, i as int), a@[i as int]);
        }
        carry = c2;
        i = i + 1;
    }
    proof {
        assert(a@.subrange(0, a@.len() as int) =~= a@);
    }
    carry
}

/// c[..a.len] -= a; returns the borrow out of position a.len.  The tail
/// c[a.len..] is left unchanged: the caller propagates the borrow.
#[verifier::loop_isolation(false)]
pub fn sub_in_place(c: &mut Vec<Word>, a: &Vec<Word>) -> (borrow: bool)
    requires
        a@.len() <= old(c)@.len(),
    ensures
        final(c)@.len() == old(c)@.len(),
        seq_value(final(c)@.subrange(0, a@.len() as int)) == seq_value(
            old(c)@.subrange(0, a@.len() as int),
        ) - seq_value(a@) + (if borrow {
            pow_base(a@.len())
        } else {
            0nat
        }),
        forall|j: int| a@.len() <= j < old(c)@.len() ==> final(c)@[j] == old(c)@[j],
{
    let ghost orig = c@;
    proof {
        lemma_pow_base_one();
    }
    let mut i: usize = 0;
    let mut borrow: bool = false;
    while i < a.len()
        invariant
            i <= a@.len() <= c@.len(),
            c@.len() == orig.len(),
            seq_value(c@.subrange(0, i as int)) + (if borrow {
                -1int
            } else {
                0int
            }) * pow_base(i as nat) == seq_value(orig.subrange(0, i as int)) - seq_value(
                a@.subrange(0, i as int),
            ),
            forall|j: int| i <= j < orig.len() ==> c@[j] == orig[j],
        decreases a@.len() - i,
    {
        let ghost prev = c@;
        let (d, b2) = sub_with_borrow(c[i], a[i], borrow);
        c[i] = d;
        proof {
            lemma_kernel_step(
                orig,
                prev,
                c@,
                0,
                i as int,
                if borrow {
                    -1int
                } else {
                    0int
                },
                if b2 {
                    -1int
                } else {
                    0int
                },
                -(a@[i as int] as int),
                -(seq_value(a@.subrange(0, i as int)) as int),
            );
            assert(a@.subrange(0, i + 1) =~= a@.subrange(0, i as int).push(a@[i as int]));
            lemma_seq_value_push(a@.subrange(0, i as int), a@[i as int]);
            let p = pow_base(i as nat);
            let ai = a@[i as int] as int;
            assert((-ai) * p == -(ai * p)) by (nonlinear_arith);
        }
        borrow = b2;
        i = i + 1;
    }
    proof {
        assert(a@.subrange(0, a@.len() as int) =~= a@);
    }
    borrow
}

} // verus!
