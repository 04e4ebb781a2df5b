//! Simple (schoolbook) multiplication: c += sign * a * b, chunking the
//! larger factor for memory locality.

use vstd::prelude::*;
use crate::arith::{
    seq_value, pow_base, lemma_value_concat, lemma_pow_base_adds, lemma_pow_base_one,
    lemma_seq_value_push, lemma_seq_value_bound, lemma_carry_bound, lemma_seq_value_mul_bound,
};
use crate::primitive::{Word, SignedWord};
use crate::sign::Sign;
use crate::add::{add_word_in_place, sub_word_in_place, add_signed_word_in_place};
use crate::mul::{add_mul_word_in_place, sub_mul_word_in_place};

verus! {

/// The larger factor is processed in chunks of CHUNK_LEN..2*CHUNK_LEN limbs
/// for memory locality.
pub const CHUNK_LEN: usize = 1024;

/// Max supported smaller factor length.
pub const MAX_SMALLER_LEN: usize = CHUNK_LEN;

/// Stitches one limb of the smaller factor into the chunk invariant: the
/// multiply-word kernel rewrote c[lo+i .. lo+i+ar] leaving carry ci, and the
/// propagation rewrote c[lo+i+ar .. lo+ar+bl] leaving carry cc.
proof fn lemma_chunk_step(
    orig: Seq<u64>,
    c0: Seq<u64>,
    c1: Seq<u64>,
    c2: Seq<u64>,
    lo: int,
    i: int,
    ar: int,
    bl: int,
    av: int,
    bi: int,
    bv: int,
    k: int,
    ci: int,
    cc: int,
    s: int,
)
    requires
        0 <= lo,
        0 <= i < bl,
        0 <= ar,
        c0.len() == orig.len(),
        c1.len() == orig.len(),
        c2.len() == orig.len(),
        lo + ar + bl <= c0.len(),
        forall|j: int| 0 <= j < c0.len() && !(lo + i <= j < lo + i + ar) ==> c1[j] == c0[j],
        forall|j: int|
            0 <= j < c0.len() && !(lo + i + ar <= j < lo + ar + bl) ==> c2[j] == c1[j],
        seq_value(c0.subrange(lo, lo + ar + bl)) + k * pow_base((ar + bl) as nat) == seq_value(
            orig.subrange(lo, lo + ar + bl),
        ) + s * (av * bv),
        seq_value(c1.subrange(lo + i, lo + i + ar)) + ci * pow_base(ar as nat) == seq_value(
            c0.subrange(lo + i, lo + i + ar),
        ) + s * (bi * av),
        seq_value(c2.subrange(lo + i + ar, lo + ar + bl)) + cc * pow_base((bl - i) as nat)
            == seq_value(c1.subrange(lo + i + ar, lo + ar + bl)) + ci,
    ensures
        seq_value(c2.subrange(lo, lo + ar + bl)) + (k + cc) * pow_base((ar + bl) as nat)
            == seq_value(orig.subrange(lo, lo + ar + bl)) + s * (av * (bv + bi * pow_base(
            i as nat,
        ))),
{
    let hi = lo + ar + bl;
    let pi = pow_base(i as nat) as int;
    let par = pow_base(ar as nat) as int;
    let piar = pow_base((i + ar) as nat) as int;
    let prest = pow_base((bl - i) as nat) as int;
    let pl = pow_base((ar + bl) as nat) as int;
    lemma_pow_base_adds(i as nat, ar as nat);
    lemma_pow_base_adds((i + ar) as nat, (bl - i) as nat);
    assert(piar == pi * par);
    assert(pl == piar * prest);
    // Values of the three zones of c1 and c0.
    lemma_value_concat(c1, lo, lo + i, hi);
    lemma_value_concat(c1, lo + i, lo + i + ar, hi);
    lemma_value_concat(c0, lo, lo + i, hi);
    lemma_value_concat(c0, lo + i, lo + i + ar, hi);
    assert(c1.subrange(lo, lo + i) =~= c0.subrange(lo, lo + i));
    assert(c1.subrange(lo + i + ar, hi) =~= c0.subrange(lo + i + ar, hi));
    let p0 = seq_value(c0.subrange(lo, lo + i)) as int;
    let m0 = seq_value(c0.subrange(lo + i, lo + i + ar)) as int;
    let t0 = seq_value(c0.subrange(lo + i + ar, hi)) as int;
    let m1 = seq_value(c1.subrange(lo + i, lo + i + ar)) as int;
    let v0 = seq_value(c0.subrange(lo, hi)) as int;
    let v1 = seq_value(c1.subrange(lo, hi)) as int;
    assert(v1 == p0 + pi * (m1 + par * t0));
    assert(v0 == p0 + pi * (m0 + par * t0));
    assert(m1 == m0 + s * (bi * av) - ci * par);
    // v1 == v0 + s*(bi*av)*pi - ci*piar
    assert(v1 == v0 + (s * (bi * av)) * pi - ci * piar) by (nonlinear_arith)
        requires
            v1 == p0 + pi * (m1 + par * t0),
            v0 == p0 + pi * (m0 + par * t0),
            m1 == m0 + s * (bi * av) - ci * par,
            piar == pi * par,
    ;
    // Now fold in the propagation zone of c2.
    lemma_value_concat(c2, lo, lo + i + ar, hi);
    lemma_value_concat(c1, lo, lo + i + ar, hi);
    assert(c2.subrange(lo, lo + i + ar) =~= c1.subrange(lo, lo + i + ar));
    let q1 = seq_value(c1.subrange(lo, lo + i + ar)) as int;
    let t1 = seq_value(c1.subrange(lo + i + ar, hi)) as int;
    let t2 = seq_value(c2.subrange(lo + i + ar, hi)) as int;
    let v2 = seq_value(c2.subrange(lo, hi)) as int;
    assert(v2 == q1 + piar * t2);
    assert(v1 == q1 + piar * t1);
    assert(t2 == t1 + ci - cc * prest);
    assert(v2 == v1 + ci * piar - cc * pl) by (nonlinear_arith)
        requires
            v2 == q1 + piar * t2,
            v1 == q1 + piar * t1,
            t2 == t1 + ci - cc * prest,
            pl == piar * prest,
    ;
    // Combine with the invariant and regroup the product.
    assert(v2 == v0 + (s * (bi * av)) * pi - cc * pl);
    assert((k + cc) * pl == k * pl + cc * pl) by (nonlinear_arith);
    assert(s * (av * (bv + bi * pi)) == s * (av * bv) + (s * (bi * av)) * pi)
        by (nonlinear_arith);
}

/// c[lo..lo+L] += a[a_lo..a_hi] * b, where L = (a_hi - a_lo) + b.len().
/// Returns the final carry at position lo + L (at most 1).
#[verifier::loop_isolation(false)]
pub fn add_mul_chunk(
    c: &mut Vec<Word>,
    lo: usize,
    a: &Vec<Word>,
    a_lo: usize,
    a_hi: usize,
    b: &Vec<Word>,
) -> (carry: bool)
    requires
        a_lo <= a_hi <= a@.len(),
        b@.len() <= a_hi - a_lo,
        a_hi - a_lo < 2 * CHUNK_LEN,
        lo + (a_hi - a_lo) + b@.len() <= old(c)@.len(),
    ensures
        final(c)@.len() == old(c)@.len(),
        seq_value(final(c)@.subrange(lo as int, lo + (a_hi - a_lo) + b@.len())) + (if carry {
            pow_base(((a_hi - a_lo) + b@.len()) as nat)
        } else {
            0nat
        }) == seq_value(old(c)@.subrange(lo as int, lo + (a_hi - a_lo) + b@.len())) + seq_value(
            a@.subrange(a_lo as int, a_hi as int),
        ) * seq_value(b@),
        forall|j: int|
            0 <= j < old(c)@.len() && !(lo <= j < lo + (a_hi - a_lo) + b@.len()) ==> (final(c)@[j]
                == old(c)@[j]),
{
    let ghost orig = c@;
    let ar = a_hi - a_lo;
    let bl = b.len();
    let c_len = c.len();
    let ghost av = seq_value(a@.subrange(a_lo as int, a_hi as int)) as int;
    proof {
        lemma_pow_base_one();
        vstd::arithmetic::mul::lemma_mul_basics(av);
        assert(seq_value(b@.subrange(0, 0)) == 0);
    }
    let mut i: usize = 0;
    let mut carry: Word = 0;
    while i < bl
        invariant
            i <= bl,
            lo + ar + bl <= c_len == c@.len() == orig.len(),
            carry <= 1,
            seq_value(c@.subrange(lo as int, lo + ar + bl)) + carry * pow_base((ar + bl) as nat)
                == seq_value(orig.subrange(lo as int, lo + ar + bl)) + av * seq_value(
                b@.subrange(0, i as int),
            ),
            forall|j: int| 0 <= j < orig.len() && !(lo <= j < lo + ar + bl) ==> c@[j] == orig[j],
        decreases bl - i,
    {
        let ghost c0 = c@;
        let ghost k = carry as int;
        let ghost bv = seq_value(b@.subrange(0, i as int)) as int;
        let ci = add_mul_word_in_place(c, lo + i, b[i], a, a_lo, a_hi);
        let ghost c1 = c@;
        let cc = add_word_in_place(c, lo + i + ar, lo + ar + bl, ci);
        proof {
            lemma_chunk_step(
                orig,
                c0,
                c1,
                c@,
                lo as int,
                i as int,
                ar as int,
                bl as int,
                av,
                b@[i as int] as int,
                bv,
                k,
                ci as int,
                cc as int,
                1,
            );
            assert(b@.subrange(0, i + 1) =~= b@.subrange(0, i as int).push(b@[i as int]));
            lemma_seq_value_push(b@.subrange(0, i as int), b@[i as int]);
            // The accumulated carry stays at most 1: both sides of the
            // value identity lie below pow_base(ar + bl).
            lemma_seq_value_bound(c@.subrange(lo as int, lo + ar + bl));
            lemma_seq_value_bound(orig.subrange(lo as int, lo + ar + bl));
            lemma_seq_value_mul_bound(
                a@.subrange(a_lo as int, a_hi as int),
                b@.subrange(0, i + 1),
            );
            lemma_value_concat(b@, 0, i + 1, bl as int);
            crate::arith::lemma_pow_base_increases((i + 1) as nat, bl as nat);
            lemma_seq_value_bound(b@.subrange(0, i + 1));
            assert(av * seq_value(b@.subrange(0, i + 1)) < pow_base((ar + bl) as nat)) by {
                lemma_pow_base_adds(ar as nat, (i + 1) as nat);
                lemma_pow_base_adds(ar as nat, bl as nat);
                crate::arith::lemma_pow_base_increases((ar + i + 1) as nat, (ar + bl) as nat);
            }
            lemma_carry_bound(
                seq_value(c@.subrange(lo as int, lo + ar + bl)) as int,
                seq_value(orig.subrange(lo as int, lo + ar + bl)) as int,
                av * seq_value(b@.subrange(0, i + 1)) as int,
                k + cc,
                (ar + bl) as nat,
            );
        }
        carry = carry + cc;
        i = i + 1;
    }
    proof {
        assert(b@.subrange(0, bl as int) =~= b@);
        let p = pow_base((ar + bl) as nat) as int;
        assert((carry as int) * p == if carry == 1 {
            p
        } else {
            0int
        }) by (nonlinear_arith)
            requires
                carry == 0 || carry == 1,
        ;
    }
    carry != 0
}

/// c[lo..lo+L] -= a[a_lo..a_hi] * b, where L = (a_hi - a_lo) + b.len().
/// Returns the final borrow at position lo + L (at most 1).
#[verifier::loop_isolation(false)]
pub fn sub_mul_chunk(
    c: &mut Vec<Word>,
    lo: usize,
    a: &Vec<Word>,
    a_lo: usize,
    a_hi: usize,
    b: &Vec<Word>,
) -> (borrow: bool)
    requires
        a_lo <= a_hi <= a@.len(),
        b@.len() <= a_hi - a_lo,
        a_hi - a_lo < 2 * CHUNK_LEN,
        lo + (a_hi - a_lo) + b@.len() <= old(c)@.len(),
    ensures
        final(c)@.len() == old(c)@.len(),
        seq_value(final(c)@.subrange(lo as int, lo + (a_hi - a_lo) + b@.len())) == seq_value(
            old(c)@.subrange(lo as int, lo + (a_hi - a_lo) + b@.len()),
        ) - seq_value(a@.subrange(a_lo as int, a_hi as int)) * seq_value(b@) + (if borrow {
            pow_base(((a_hi - a_lo) + b@.len()) as nat)
        } else {
            0nat
        }),
        forall|j: int|
            0 <= j < old(c)@.len() && !(lo <= j < lo + (a_hi - a_lo) + b@.len()) ==> (final(c)@[j]
                == old(c)@[j]),
{
    let ghost orig = c@;
    let ar = a_hi - a_lo;
    let bl = b.len();
    let c_len = c.len();
    let ghost av = seq_value(a@.subrange(a_lo as int, a_hi as int)) as int;
    proof {
        lemma_pow_base_one();
        vstd::arithmetic::mul::lemma_mul_basics(av);
        assert(seq_value(b@.subrange(0, 0)) == 0);
    }
    let mut i: usize = 0;
    let mut borrow: Word = 0;
    while i < bl
        invariant
            i <= bl,
            lo + ar + bl <= c_len == c@.len() == orig.len(),
            borrow <= 1,
            seq_value(c@.subrange(lo as int, lo + ar + bl)) + (-(borrow as int)) * pow_base(
                (ar + bl) as nat,
            ) == seq_value(orig.subrange(lo as int, lo + ar + bl)) + (-1) * (av * seq_value(
                b@.subrange(0, i as int),
            )),
            forall|j: int| 0 <= j < orig.len() && !(lo <= j < lo + ar + bl) ==> c@[j] == orig[j],
        decreases bl - i,
    {
        let ghost c0 = c@;
        let ghost k = -(borrow as int);
        let ghost bv = seq_value(b@.subrange(0, i as int)) as int;
        let ci = sub_mul_word_in_place(c, lo + i, b[i], a, a_lo, a_hi);
        let ghost c1 = c@;
        let cc = sub_word_in_place(c, lo + i + ar, lo + ar + bl, ci);
        proof {
            let par = pow_base(ar as nat) as int;
            let prest = pow_base((bl - i) as nat) as int;
            let bi = b@[i as int] as int;
            assert((-(ci as int)) * par == -((ci as int) * par)) by (nonlinear_arith);
            assert((-(cc as int)) * prest == -((cc as int) * prest)) by (nonlinear_arith);
            assert((-1) * (bi * av) == -(bi * av)) by (nonlinear_arith);
            lemma_chunk_step(
                orig,
                c0,
                c1,
                c@,
                lo as int,
                i as int,
                ar as int,
                bl as int,
                av,
                b@[i as int] as int,
                bv,
                k,
                -(ci as int),
                -(cc as int),
                -1,
            );
            assert(b@.subrange(0, i + 1) =~= b@.subrange(0, i as int).push(b@[i as int]));
            lemma_seq_value_push(b@.subrange(0, i as int), b@[i as int]);
            lemma_seq_value_bound(c@.subrange(lo as int, lo + ar + bl));
            lemma_seq_value_bound(orig.subrange(lo as int, lo + ar + bl));
            lemma_seq_value_mul_bound(
                a@.subrange(a_lo as int, a_hi as int),
                b@.subrange(0, i + 1),
            );
            assert(av * seq_value(b@.subrange(0, i + 1)) < pow_base((ar + bl) as nat)) by {
                lemma_pow_base_adds(ar as nat, (i + 1) as nat);
                lemma_pow_base_adds(ar as nat, bl as nat);
                crate::arith::lemma_pow_base_increases((ar + i + 1) as nat, (ar + bl) as nat);
            }
            assert((-1) * (av * seq_value(b@.subrange(0, i + 1)) as int) == -(av * seq_value(
                b@.subrange(0, i + 1),
            ) as int)) by (nonlinear_arith);
            lemma_carry_bound(
                seq_value(c@.subrange(lo as int, lo + ar + bl)) as int,
                seq_value(orig.subrange(lo as int, lo + ar + bl)) as int,
                (-1) * (av * seq_value(b@.subrange(0, i + 1)) as int),
                k - cc,
                (ar + bl) as nat,
            );
        }
        borrow = borrow + cc;
        i = i + 1;
    }
    proof {
        assert(b@.subrange(0, bl as int) =~= b@);
        let p = pow_base((ar + bl) as nat) as int;
        assert((-(borrow as int)) * p == if borrow == 1 {
            -p
        } else {
            0int
        }) by (nonlinear_arith)
            requires
                borrow == 0 || borrow == 1,
        ;
        assert((-1) * (av * seq_value(b@) as int) == -(av * seq_value(b@) as int))
            by (nonlinear_arith);
    }
    borrow != 0
}

/// Stitches one outer chunk into the running invariant of add_signed_mul:
/// the propagation rewrote c[base+n .. hi] absorbing the pending carry k,
/// and the chunk rewrote c[base .. hi] adding sign * a[base..a_hi] * b.
proof fn lemma_outer_step(
    orig: Seq<u64>,
    c0: Seq<u64>,
    c1: Seq<u64>,
    c2: Seq<u64>,
    a: Seq<u64>,
    base: int,
    a_hi: int,
    n: int,
    s: int,
    k: int,
    r1: int,
    r2: int,
    bv: int,
)
    requires
        0 <= base <= a_hi <= a.len(),
        0 <= n,
        c0.len() == orig.len(),
        c1.len() == orig.len(),
        c2.len() == orig.len(),
        a_hi + n <= c0.len(),
        forall|j: int| base + n <= j < c0.len() ==> c0[j] == orig[j],
        forall|j: int| 0 <= j < c0.len() && !(base + n <= j < a_hi + n) ==> c1[j] == c0[j],
        forall|j: int| 0 <= j < c0.len() && !(base <= j < a_hi + n) ==> c2[j] == c1[j],
        seq_value(c0.subrange(0, base + n)) + k * pow_base((base + n) as nat) == seq_value(
            orig.subrange(0, base + n),
        ) + s * (seq_value(a.subrange(0, base)) * bv),
        seq_value(c1.subrange(base + n, a_hi + n)) + r1 * pow_base((a_hi - base) as nat)
            == seq_value(c0.subrange(base + n, a_hi + n)) + k,
        seq_value(c2.subrange(base, a_hi + n)) + r2 * pow_base((a_hi - base + n) as nat)
            == seq_value(c1.subrange(base, a_hi + n)) + s * (seq_value(
            a.subrange(base, a_hi),
        ) * bv),
    ensures
        seq_value(c2.subrange(0, a_hi + n)) + (r1 + r2) * pow_base((a_hi + n) as nat)
            == seq_value(orig.subrange(0, a_hi + n)) + s * (seq_value(a.subrange(0, a_hi)) * bv),
        forall|j: int| a_hi + n <= j < c0.len() ==> c2[j] == orig[j],
{
    let hi = a_hi + n;
    let pbn = pow_base((base + n) as nat) as int;
    let pb = pow_base(base as nat) as int;
    let prest1 = pow_base((a_hi - base) as nat) as int;
    let prest2 = pow_base((a_hi - base + n) as nat) as int;
    let ph = pow_base(hi as nat) as int;
    lemma_pow_base_adds((base + n) as nat, (a_hi - base) as nat);
    lemma_pow_base_adds(base as nat, (a_hi - base + n) as nat);
    assert(ph == pbn * prest1);
    assert(ph == pb * prest2);
    // Fold the propagation zone.
    lemma_value_concat(c1, 0, base + n, hi);
    lemma_value_concat(c0, 0, base + n, hi);
    assert(c1.subrange(0, base + n) =~= c0.subrange(0, base + n));
    let x0 = seq_value(c0.subrange(0, base + n)) as int;
    let t0 = seq_value(c0.subrange(base + n, hi)) as int;
    let t1 = seq_value(c1.subrange(base + n, hi)) as int;
    let v0 = seq_value(c0.subrange(0, hi)) as int;
    let v1 = seq_value(c1.subrange(0, hi)) as int;
    assert(v1 == v0 + k * pbn - r1 * ph) by (nonlinear_arith)
        requires
            v1 == x0 + pbn * t1,
            v0 == x0 + pbn * t0,
            t1 == t0 + k - r1 * prest1,
            ph == pbn * prest1,
    ;
    // Fold the chunk zone.
    lemma_value_concat(c2, 0, base, hi);
    lemma_value_concat(c1, 0, base, hi);
    assert(c2.subrange(0, base) =~= c1.subrange(0, base));
    let y1 = seq_value(c1.subrange(0, base)) as int;
    let m1 = seq_value(c1.subrange(base, hi)) as int;
    let m2 = seq_value(c2.subrange(base, hi)) as int;
    let v2 = seq_value(c2.subrange(0, hi)) as int;
    let dav = seq_value(a.subrange(base, a_hi)) as int;
    assert(v2 == v1 + (s * (dav * bv)) * pb - r2 * ph) by (nonlinear_arith)
        requires
            v2 == y1 + pb * m2,
            v1 == y1 + pb * m1,
            m2 == m1 + s * (dav * bv) - r2 * prest2,
            ph == pb * prest2,
    ;
    // Rewrite c0's value over [0, hi) through the invariant.
    lemma_value_concat(orig, 0, base + n, hi);
    assert(c0.subrange(base + n, hi) =~= orig.subrange(base + n, hi));
    let og = seq_value(orig.subrange(0, hi)) as int;
    let av0 = seq_value(a.subrange(0, base)) as int;
    assert(v0 == og + s * (av0 * bv) - k * pbn);
    // Regroup the product over a's split.
    lemma_value_concat(a, 0, base, a_hi);
    let avh = seq_value(a.subrange(0, a_hi)) as int;
    assert(avh == av0 + pb * dav);
    assert((r1 + r2) * ph == r1 * ph + r2 * ph) by (nonlinear_arith);
    assert(s * (avh * bv) == s * (av0 * bv) + (s * (dav * bv)) * pb) by (nonlinear_arith)
        requires
            avh == av0 + pb * dav,
    ;
}

/// c += sign * a * b by the simple method: O(a.len * b.len) word
/// operations, chunking the larger factor a.  Requires a.len >= b.len and
/// c.len == a.len + b.len; returns the signed carry out of the top of c.
#[verifier::loop_isolation(false)]
pub fn add_signed_mul(c: &mut Vec<Word>, sign: Sign, a: &Vec<Word>, b: &Vec<Word>) -> (r:
    SignedWord)
    requires
        a@.len() >= b@.len(),
        old(c)@.len() == a@.len() + b@.len(),
        b@.len() <= MAX_SMALLER_LEN,
    ensures
        final(c)@.len() == old(c)@.len(),
        seq_value(final(c)@) + r * pow_base(old(c)@.len()) == seq_value(old(c)@) + sign.to_int()
            * (seq_value(a@) * seq_value(b@)),
        -1 <= r <= 1,
{
    let ghost orig = c@;
    let ghost s = sign.to_int();
    let ghost bv = seq_value(b@) as int;
    let n = b.len();
    let a_len = a.len();
    let c_len = c.len();
    let mut base: usize = 0;
    let mut carry_n: SignedWord = 0;
    proof {
        lemma_pow_base_one();
        assert(seq_value(a@.subrange(0, 0)) == 0);
        assert(s * (0 * bv) == 0) by (nonlinear_arith);
    }
    while a_len - base >= 2 * CHUNK_LEN
        invariant
            base <= a_len,
            a_len - base >= n,
            -2 <= carry_n <= 2,
            c@.len() == c_len == orig.len(),
            seq_value(c@.subrange(0, base + n)) + carry_n * pow_base((base + n) as nat)
                == seq_value(orig.subrange(0, base + n)) + s * (seq_value(a@.subrange(0, base as int))
                * bv),
            forall|j: int| base + n <= j < orig.len() ==> c@[j] == orig[j],
        decreases a_len - base,
    {
        let ghost c0 = c@;
        let ghost k = carry_n as int;
        let r1 = add_signed_word_in_place(c, base + n, base + n + CHUNK_LEN, carry_n);
        let ghost c1 = c@;
        let r2 = add_signed_mul_chunk(c, base, sign, a, base, base + CHUNK_LEN, b);
        proof {
            lemma_outer_step(
                orig,
                c0,
                c1,
                c@,
                a@,
                base as int,
                base + CHUNK_LEN,
                n as int,
                s,
                k,
                r1 as int,
                r2 as int,
                bv,
            );
        }
        carry_n = r1 + r2;
        base = base + CHUNK_LEN;
    }
    let ghost c0 = c@;
    let ghost k = carry_n as int;
    let r1 = add_signed_word_in_place(c, base + n, c_len, carry_n);
    let ghost c1 = c@;
    let r2 = add_signed_mul_chunk(c, base, sign, a, base, a_len, b);
    proof {
        lemma_outer_step(
            orig,
            c0,
            c1,
            c@,
            a@,
            base as int,
            a_len as int,
            n as int,
            s,
            k,
            r1 as int,
            r2 as int,
            bv,
        );
        assert(a@.subrange(0, a_len as int) =~= a@);
        assert(c@.subrange(0, c_len as int) =~= c@);
        assert(orig.subrange(0, c_len as int) =~= orig);
        // The final signed carry can only be -1, 0 or 1: both sides of the
        // value identity lie strictly below pow_base(c.len()).
        lemma_seq_value_bound(c@);
        lemma_seq_value_bound(orig);
        lemma_seq_value_mul_bound(a@, b@);
        let prod = (seq_value(a@) * seq_value(b@)) as int;
        assert(s * prod == prod || s * prod == -prod) by (nonlinear_arith)
            requires
                s == 1 || s == -1,
        ;
        lemma_carry_bound(
            seq_value(c@) as int,
            seq_value(orig) as int,
            s * prod,
            r1 + r2,
            orig.len(),
        );
    }
    r1 + r2
}

/// c[lo..lo+L] += sign * a[a_lo..a_hi] * b.  Returns the signed carry.
pub fn add_signed_mul_chunk(
    c: &mut Vec<Word>,
    lo: usize,
    sign: Sign,
    a: &Vec<Word>,
    a_lo: usize,
    a_hi: usize,
    b: &Vec<Word>,
) -> (r: SignedWord)
    requires
        a_lo <= a_hi <= a@.len(),
        b@.len() <= a_hi - a_lo,
        a_hi - a_lo < 2 * CHUNK_LEN,
        lo + (a_hi - a_lo) + b@.len() <= old(c)@.len(),
    ensures
        final(c)@.len() == old(c)@.len(),
        seq_value(final(c)@.subrange(lo as int, lo + (a_hi - a_lo) + b@.len())) + r * pow_base(
            ((a_hi - a_lo) + b@.len()) as nat,
        ) == seq_value(old(c)@.subrange(lo as int, lo + (a_hi - a_lo) + b@.len()))
            + sign.to_int() * (seq_value(a@.subrange(a_lo as int, a_hi as int)) * seq_value(b@)),
        forall|j: int|
            0 <= j < old(c)@.len() && !(lo <= j < lo + (a_hi - a_lo) + b@.len()) ==> (final(c)@[j]
                == old(c)@[j]),
        -1 <= r <= 1,
{
    let ghost l = ((a_hi - a_lo) + b@.len()) as nat;
    match sign {
        Sign::Positive => {
            let carry = add_mul_chunk(c, lo, a, a_lo, a_hi, b);
            let r: SignedWord = if carry {
                1
            } else {
                0
            };
            proof {
                let prod = seq_value(a@.subrange(a_lo as int, a_hi as int)) * seq_value(b@);
                assert(1 * (prod as int) == prod as int) by (nonlinear_arith);
                let p = pow_base(l) as int;
                assert((r as int) * p == if r == 1 {
                    p
                } else {
                    0int
                }) by (nonlinear_arith)
                    requires
                        r == 0 || r == 1,
                ;
            }
            r
        },
        Sign::Negative => {
            let borrow = sub_mul_chunk(c, lo, a, a_lo, a_hi, b);
            let r: SignedWord = if borrow {
                -1
            } else {
                0
            };
            proof {
                let prod = seq_value(a@.subrange(a_lo as int, a_hi as int)) * seq_value(b@);
                assert((-1) * (prod as int) == -(prod as int)) by (nonlinear_arith);
                let p = pow_base(l) as int;
                assert((r as int) * p == if r == -1 {
                    -p
                } else {
                    0int
                }) by (nonlinear_arith)
                    requires
                        r == 0 || r == -1,
                ;
            }
            r
        },
    }
}

} // verus!
