//! Word primitives: single-word add/sub with carry and the widening
//! multiply-add used as the inner step of the multiply kernels.

use vstd::prelude::*;
use vstd::arithmetic::div_mod::lemma_fundamental_div_mod;
use vstd::arithmetic::mul::lemma_mul_upper_bound;
use crate::arith::word_base;

verus! {

/// The fundamental limb: a 64-bit unsigned machine integer.
pub type Word = u64;

/// Signed integer of the same width as Word, used to propagate signed
/// carries in the signed multiply kernels.
pub type SignedWord = i64;

/// Width of a Word in bits.
pub const WORD_BITS: u32 = 64;

/// word_base() as an executable 128-bit constant.
pub const WORD_BASE_U128: u128 = 0x1_0000_0000_0000_0000;

/// Splitting a non-negative integer by word_base(): the defining identity
/// of quotient and remainder, with the bounds the primitives need.
pub proof fn lemma_word_split(x: int)
    requires
        x >= 0,
    ensures
        x == word_base() * (x / (word_base() as int)) + x % (word_base() as int),
        0 <= x % (word_base() as int) < word_base(),
        0 <= x / (word_base() as int),
        x < word_base() * word_base() ==> x / (word_base() as int) < word_base(),
        x < 2 * word_base() ==> x / (word_base() as int) <= 1,
{
    lemma_fundamental_div_mod(x, word_base() as int);
    let q = x / (word_base() as int);
    if x < word_base() * word_base() && q >= word_base() {
        assert(word_base() * q >= word_base() * word_base()) by (nonlinear_arith)
            requires
                q >= word_base() as int,
        ;
    }
    if x < 2 * word_base() && q >= 2 {
        assert(word_base() * q >= word_base() * 2) by (nonlinear_arith)
            requires
                q >= 2,
        ;
    }
}

/// a + b + carry_in as (sum mod word_base, carry_out).
pub fn add_with_carry(a: Word, b: Word, carry: bool) -> (r: (Word, bool))
    ensures
        r.0 + (if r.1 {
            word_base()
        } else {
            0nat
        }) == a + b + (if carry {
            1nat
        } else {
            0nat
        }),
{
    let sum: u128 = a as u128 + b as u128 + (if carry {
        1u128
    } else {
        0u128
    });
    proof {
        lemma_word_split(sum as int);
    }
    let lo = (sum % WORD_BASE_U128) as u64;
    let hi = sum / WORD_BASE_U128;
    (lo, hi != 0)
}

/// a - b - borrow_in as (difference mod word_base, borrow_out).
pub fn sub_with_borrow(a: Word, b: Word, borrow: bool) -> (r: (Word, bool))
    ensures
        r.0 == a - b - (if borrow {
            1int
        } else {
            0int
        }) + (if r.1 {
            word_base() as int
        } else {
            0int
        }),
        r.1 <==> (a as int) < b + (if borrow {
            1int
        } else {
            0int
        }),
{
    let rhs: u128 = b as u128 + (if borrow {
        1u128
    } else {
        0u128
    });
    if a as u128 >= rhs {
        (((a as u128 - rhs) as u64), false)
    } else {
        (((a as u128 + WORD_BASE_U128 - rhs) as u64), true)
    }
}

/// a * b + c + d as a two-word product (low, high); the full value is
/// low + high * word_base().
pub fn mul_add_carry(a: Word, b: Word, c: Word, d: Word) -> (r: (Word, Word))
    ensures
        r.0 + r.1 * word_base() == a * b + c + d,
{
    proof {
        lemma_mul_upper_bound(a as int, 0xffff_ffff_ffff_ffff, b as int, 0xffff_ffff_ffff_ffff);
    }
    let p: u128 = a as u128 * b as u128 + c as u128 + d as u128;
    proof {
        lemma_word_split(p as int);
    }
    let lo = (p % WORD_BASE_U128) as u64;
    let hi = (p / WORD_BASE_U128) as u64;
    (lo, hi)
}

} // verus!
