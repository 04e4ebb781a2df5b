//! Multiply-word kernels: adding or subtracting a word multiple of a slice
//! into a destination range, and multiplying a whole buffer by one word.

use vstd::prelude::*;
use crate::arith::{
    seq_value, pow_base, word_base, lemma_kernel_step, lemma_pow_base_one, lemma_seq_value_push,
};
use crate::primitive::{Word, sub_with_borrow, mul_add_carry};
use vstd::arithmetic::mul::lemma_mul_basics;

verus! {

/// c[lo..lo+n] += m * a[a_lo..a_hi] where n = a_hi - a_lo; returns the
/// final carry at position lo + n.  Limbs beyond the range are never
/// touched: the caller propagates the carry.
#[verifier::loop_isolation(false)]
pub fn add_mul_word_in_place(
    c: &mut Vec<Word>,
    lo: usize,
    m: Word,
    a: &Vec<Word>,
    a_lo: usize,
    a_hi: usize,
) -> (carry: Word)
    requires
        a_lo <= a_hi <= a@.len(),
        lo + (a_hi - a_lo) <= old(c)@.len(),
    ensures
        final(c)@.len() == old(c)@.len(),
        seq_value(final(c)@.subrange(lo as int, lo + (a_hi - a_lo))) + carry * pow_base(
            (a_hi - a_lo) as nat,
        ) == seq_value(old(c)@.subrange(lo as int, lo + (a_hi - a_lo))) + m * seq_value(
            a@.subrange(a_lo as int, a_hi as int),
        ),
        forall|j: int|
            0 <= j < old(c)@.len() && !(lo <= j < lo + (a_hi - a_lo)) ==> final(c)@[j] == old(
                c,
            )@[j],
{
    let ghost orig = c@;
    let c_len = c.len();
    proof {
        lemma_pow_base_one();
        lemma_mul_basics(m as int);
        lemma_mul_basics(pow_base(0) as int);
        assert(seq_value(a@.subrange(a_lo as int, a_lo as int)) == 0);
    }
    let n = a_hi - a_lo;
    let mut i: usize = 0;
    let mut carry: Word = 0;
    while i < n
        invariant
            i <= n,
            lo + n <= c_len == c@.len() == orig.len(),
            seq_value(c@.subrange(lo as int, lo + i)) + carry * pow_base(i as nat) == seq_value(
                orig.subrange(lo as int, lo + i),
            ) + m * seq_value(a@.subrange(a_lo as int, a_lo + i)),
            forall|j: int| 0 <= j < orig.len() && !(lo <= j < lo + i) ==> c@[j] == orig[j],
        decreases n - i,
    {
        let ghost prev = c@;
        let ghost w_in = carry as int;
        let (s, c2) = mul_add_carry(m, a[a_lo + i], c[lo + i], carry);
        c[lo + i] = s;
        proof {
            let ai = a@[a_lo + i] as int;
            let av = seq_value(a@.subrange(a_lo as int, a_lo + i)) as int;
            lemma_kernel_step(
                orig,
                prev,
                c@,
                lo as int,
                lo + i,
                w_in,
                c2 as int,
                (m as int) * ai,
                (m as int) * av,
            );
            assert(a@.subrange(a_lo as int, a_lo + i + 1) =~= a@.subrange(
                a_lo as int,
                a_lo + i,
            ).push(a@[a_lo + i]));
            lemma_seq_value_push(a@.subrange(a_lo as int, a_lo + i), a@[a_lo + i]);
            let p = pow_base(i as nat);
            assert((m as int) * (av + ai * p) == (m as int) * av + ((m as int) * ai) * p)
                by (nonlinear_arith);
        }
        carry = c2;
        i = i + 1;
    }
    carry
}

/// c[lo..lo+n] -= m * a[a_lo..a_hi] where n = a_hi - a_lo; returns the
/// final borrow at position lo + n.  Limbs beyond the range are never
/// touched: the caller propagates the borrow.
#[verifier::loop_isolation(false)]
pub fn sub_mul_word_in_place(
    c: &mut Vec<Word>,
    lo: usize,
    m: Word,
    a: &Vec<Word>,
    a_lo: usize,
    a_hi: usize,
) -> (borrow: Word)
    requires
        a_lo <= a_hi <= a@.len(),
        lo + (a_hi - a_lo) <= old(c)@.len(),
    ensures
        final(c)@.len() == old(c)@.len(),
        seq_value(final(c)@.subrange(lo as int, lo + (a_hi - a_lo))) == seq_value(
            old(c)@.subrange(lo as int, lo + (a_hi - a_lo)),
        ) - m * seq_value(a@.subrange(a_lo as int, a_hi as int)) + borrow * pow_base(
            (a_hi - a_lo) as nat,
        ),
        forall|j: int|
            0 <= j < old(c)@.len() && !(lo <= j < lo + (a_hi - a_lo)) ==> final(c)@[j] == old(
                c,
            )@[j],
{
    let ghost orig = c@;
    let c_len = c.len();
    proof {
        lemma_pow_base_one();
        lemma_mul_basics(m as int);
        lemma_mul_basics(pow_base(0) as int);
        assert(seq_value(a@.subrange(a_lo as int, a_lo as int)) == 0);
    }
    let n = a_hi - a_lo;
    let mut i: usize = 0;
    let mut borrow: Word = 0;
    while i < n
        invariant
            i <= n,
            lo + n <= c_len == c@.len() == orig.len(),
            seq_value(c@.subrange(lo as int, lo + i)) + (-(borrow as int)) * pow_base(i as nat)
                == seq_value(orig.subrange(lo as int, lo + i)) - m * seq_value(
                a@.subrange(a_lo as int, a_lo + i),
            ),
            forall|j: int| 0 <= j < orig.len() && !(lo <= j < lo + i) ==> c@[j] == orig[j],
        decreases n - i,
    {
        let ghost prev = c@;
        let ghost w_in = -(borrow as int);
        let (p_lo, p_hi) = mul_add_carry(m, a[a_lo + i], borrow, 0);
        let (d, b2) = sub_with_borrow(c[lo + i], p_lo, false);
        c[lo + i] = d;
        // The combined borrow fits in a word: when the product's high word
        // is at its maximum, its low word is zero and no borrow occurs.
        proof {
            let ai = a@[a_lo + i] as int;
            let b = word_base() as int;
            assert((m as int) * ai <= (b - 1) * (b - 1)) by (nonlinear_arith)
                requires
                    0 <= m as int <= b - 1,
                    0 <= ai <= b - 1,
            ;
            assert(p_hi as int <= b - 1);
            if p_hi as int == b - 1 {
                assert(p_lo as int == (m as int) * ai + borrow - (b - 1) * b);
                assert((m as int) * ai + borrow <= (b - 1) * (b - 1) + (b - 1));
                assert((b - 1) * (b - 1) + (b - 1) == (b - 1) * b) by (nonlinear_arith);
                assert(p_lo == 0);
            }
        }
        let b3: Word = p_hi + (if b2 {
            1
        } else {
            0
        });
        proof {
            let ai = a@[a_lo + i] as int;
            let av = seq_value(a@.subrange(a_lo as int, a_lo + i)) as int;
            lemma_kernel_step(
                orig,
                prev,
                c@,
                lo as int,
                lo + i,
                w_in,
                -(b3 as int),
                -((m as int) * ai),
                -((m as int) * av),
            );
            assert(a@.subrange(a_lo as int, a_lo + i + 1) =~= a@.subrange(
                a_lo as int,
                a_lo + i,
            ).push(a@[a_lo + i]));
            lemma_seq_value_push(a@.subrange(a_lo as int, a_lo + i), a@[a_lo + i]);
            let p = pow_base(i as nat);
            assert(-((m as int) * (av + ai * p)) == -((m as int) * av) + (-((m as int) * ai))
                * p) by (nonlinear_arith);
        }
        borrow = b3;
        i = i + 1;
    }
    proof {
        let p = pow_base(n as nat);
        assert((-(borrow as int)) * p == -((borrow as int) * p)) by (nonlinear_arith);
    }
    borrow
}

/// words *= m: walks limbs low-to-high replacing each with the low word of
/// limb * m + carry and propagating the high word; returns the final carry.
#[verifier::loop_isolation(false)]
pub fn mul_word_in_place(words: &mut Vec<Word>, m: Word) -> (carry: Word)
    ensures
        final(words)@.len() == old(words)@.len(),
        seq_value(final(words)@) + carry * pow_base(old(words)@.len()) == m * seq_value(
            old(words)@,
        ),
{
    let ghost orig = words@;
    proof {
        lemma_pow_base_one();
        lemma_mul_basics(m as int);
        lemma_mul_basics(pow_base(0) as int);
    }
    let n = words.len();
    let mut i: usize = 0;
    let mut carry: Word = 0;
    while i < n
        invariant
            i <= n == words@.len() == orig.len(),
            seq_value(words@.subrange(0, i as int)) + carry * pow_base(i as nat) == m * seq_value(
                orig.subrange(0, i as int),
            ),
            forall|j: int| i <= j < orig.len() ==> words@[j] == orig[j],
        decreases n - i,
    {
        let ghost prev = words@;
        let ghost w_in = carry as int;
        let (s, c2) = mul_add_carry(m, words[i], carry, 0);
        words[i] = s;
        proof {
            let wi = orig[i as int] as int;
            let ov = seq_value(orig.subrange(0, i as int)) as int;
            assert((m as int) * wi == wi + ((m as int) - 1) * wi) by (nonlinear_arith);
            assert(ov + ((m as int) - 1) * ov == (m as int) * ov) by (nonlinear_arith);
            lemma_kernel_step(
                orig,
                prev,
                words@,
                0,
                i as int,
                w_in,
                c2 as int,
                ((m as int) - 1) * wi,
                ((m as int) - 1) * ov,
            );
            assert(orig.subrange(0, i + 1) =~= orig.subrange(0, i as int).push(orig[i as int]));
            lemma_seq_value_push(orig.subrange(0, i as int), orig[i as int]);
            let p = pow_base(i as nat);
            // Regroup: acc + delta * p keeps the (m - 1) * value shape, and
            // value + (m - 1) * value == m * value.
            assert(((m as int) - 1) * (ov + wi * p) == ((m as int) - 1) * ov + (((m as int) - 1)
                * wi) * p) by (nonlinear_arith);
            assert(seq_value(orig.subrange(0, i + 1)) + ((m as int) - 1) * seq_value(
                orig.subrange(0, i + 1),
            ) == m * seq_value(orig.subrange(0, i + 1))) by (nonlinear_arith);
            assert(seq_value(orig.subrange(0, i as int)) + ((m as int) - 1) * seq_value(
                orig.subrange(0, i as int),
            ) == m * seq_value(orig.subrange(0, i as int))) by (nonlinear_arith);
        }
        carry = c2;
        i = i + 1;
    }
    proof {
        assert(orig.subrange(0, n as int) =~= orig);
        assert(words@.subrange(0, n as int) =~= words@);
    }
    carry
}

} // verus!
