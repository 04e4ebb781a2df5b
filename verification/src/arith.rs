//! The mathematical model of multi-word integers: the value of a word
//! sequence interpreted in base 2^64, and the lemmas the kernels need.

use vstd::prelude::*;
use vstd::arithmetic::power2::*;

verus! {

/// The base in which word sequences are read: 2^64.
pub open spec fn word_base() -> nat {
    0x1_0000_0000_0000_0000
}

/// word_base() raised to the n-th power.
pub open spec fn pow_base(n: nat) -> nat {
    pow2(64 * n)
}

/// Value of a word sequence, least significant word first:
/// sum of s[i] * word_base()^i.
pub open spec fn seq_value(s: Seq<u64>) -> nat
    decreases s.len(),
{
    if s.len() == 0 {
        0
    } else {
        (s[0] + word_base() * seq_value(s.drop_first())) as nat
    }
}

pub proof fn lemma_pow_base_pos(n: nat)
    ensures
        pow_base(n) >= 1,
{
    lemma_pow2_pos(64 * n);
}

pub proof fn lemma_pow_base_adds(a: nat, b: nat)
    ensures
        pow_base(a + b) == pow_base(a) * pow_base(b),
{
    lemma_pow2_adds(64 * a, 64 * b);
}

pub proof fn lemma_pow_base_one()
    ensures
        pow_base(1) == word_base(),
        pow_base(0) == 1,
{
    lemma2_to64();
    lemma_pow2_adds(32, 32);
    assert(pow2(32) == 0x100000000) by {
        lemma2_to64();
    }
}

/// Multiplying by pow_base(0) is the identity.
pub proof fn lemma_mul_pow0(w: int)
    ensures
        w * pow_base(0) == w,
{
    lemma_pow_base_one();
    assert(w * 1 == w) by (nonlinear_arith);
}

/// Appending a word on the most significant end adds its scaled value.
pub proof fn lemma_seq_value_push(s: Seq<u64>, x: u64)
    ensures
        seq_value(s.push(x)) == seq_value(s) + x * pow_base(s.len()),
    decreases s.len(),
{
    lemma_pow_base_one();
    if s.len() == 0 {
        assert(s.push(x)[0] == x);
        assert(s.push(x).drop_first() =~= Seq::<u64>::empty());
        assert(seq_value(s.push(x).drop_first()) == 0);
    } else {
        assert(s.push(x).drop_first() =~= s.drop_first().push(x));
        lemma_seq_value_push(s.drop_first(), x);
        lemma_pow_base_adds(1, (s.len() - 1) as nat);
        assert(seq_value(s.push(x)) == s[0] + word_base() * (seq_value(s.drop_first()) + x
            * pow_base((s.len() - 1) as nat)));
        assert(word_base() * (seq_value(s.drop_first()) + x * pow_base((s.len() - 1) as nat))
            == word_base() * seq_value(s.drop_first()) + word_base() * (x * pow_base(
            (s.len() - 1) as nat))) by (nonlinear_arith);
        assert(word_base() * (x * pow_base((s.len() - 1) as nat)) == x * (word_base() * pow_base(
            (s.len() - 1) as nat))) by (nonlinear_arith);
        assert(word_base() * pow_base((s.len() - 1) as nat) == pow_base(1) * pow_base(
            (s.len() - 1) as nat));
    }
}

/// A word sequence's value is below pow_base of its length.
pub proof fn lemma_seq_value_bound(s: Seq<u64>)
    ensures
        seq_value(s) < pow_base(s.len()),
    decreases s.len(),
{
    lemma_pow_base_one();
    if s.len() == 0 {
    } else {
        lemma_seq_value_bound(s.drop_first());
        lemma_pow_base_adds(1, (s.len() - 1) as nat);
        assert(word_base() * seq_value(s.drop_first()) <= word_base() * (pow_base(
            (s.len() - 1) as nat) - 1)) by (nonlinear_arith)
            requires
                seq_value(s.drop_first()) <= pow_base((s.len() - 1) as nat) - 1,
        ;
    }
}

/// Splitting a sequence splits its value: the suffix is scaled by pow_base
/// of the split point.
pub proof fn lemma_seq_value_split(s: Seq<u64>, i: int)
    requires
        0 <= i <= s.len(),
    ensures
        seq_value(s) == seq_value(s.subrange(0, i)) + pow_base(i as nat) * seq_value(
            s.subrange(i, s.len() as int),
        ),
    decreases i,
{
    lemma_pow_base_one();
    if i == 0 {
        assert(s.subrange(0, 0) =~= Seq::<u64>::empty());
        assert(s.subrange(0, s.len() as int) =~= s);
    } else {
        let t = s.drop_first();
        assert(s.subrange(0, i).drop_first() =~= t.subrange(0, i - 1));
        assert(s.subrange(i, s.len() as int) =~= t.subrange(i - 1, t.len() as int));
        lemma_seq_value_split(t, i - 1);
        lemma_pow_base_adds(1, (i - 1) as nat);
        let hi = seq_value(t.subrange(i - 1, t.len() as int));
        let lo = seq_value(t.subrange(0, i - 1));
        assert(seq_value(s) == s[0] + word_base() * (lo + pow_base((i - 1) as nat) * hi));
        assert(word_base() * (lo + pow_base((i - 1) as nat) * hi) == word_base() * lo
            + word_base() * (pow_base((i - 1) as nat) * hi)) by (nonlinear_arith);
        assert(word_base() * (pow_base((i - 1) as nat) * hi) == (word_base() * pow_base(
            (i - 1) as nat)) * hi) by (nonlinear_arith);
        assert(seq_value(s.subrange(0, i)) == s[0] + word_base() * lo);
    }
}

/// Two sequences equal on a subrange contribute the same value there.
pub proof fn lemma_seq_value_eq(s: Seq<u64>, t: Seq<u64>)
    requires
        s =~= t,
    ensures
        seq_value(s) == seq_value(t),
{
}

/// pow_base is monotone.
pub proof fn lemma_pow_base_increases(a: nat, b: nat)
    requires
        a <= b,
    ensures
        pow_base(a) <= pow_base(b),
{
    if a < b {
        lemma_pow2_strictly_increases(64 * a, 64 * b);
    }
}

/// Concatenation of adjacent subranges splits the value at the midpoint.
pub proof fn lemma_value_concat(s: Seq<u64>, lo: int, mid: int, hi: int)
    requires
        0 <= lo <= mid <= hi <= s.len(),
    ensures
        seq_value(s.subrange(lo, hi)) == seq_value(s.subrange(lo, mid)) + pow_base(
            (mid - lo) as nat,
        ) * seq_value(s.subrange(mid, hi)),
{
    let t = s.subrange(lo, hi);
    lemma_seq_value_split(t, mid - lo);
    assert(t.subrange(0, mid - lo) =~= s.subrange(lo, mid));
    assert(t.subrange(mid - lo, t.len() as int) =~= s.subrange(mid, hi));
}

/// The invariant step shared by the carry-propagating kernels.
///
/// A kernel walks positions lo..hi of a word vector, holding a running
/// (possibly negative) carry `w` scaled at the current position, while the
/// processed prefix has absorbed `acc`.  One step rewrites position i via a
/// word primitive that splits `prev[i] + w_in + delta` into the new limb
/// and an outgoing carry; the prefix identity then extends to i + 1 with
/// `acc + delta * pow_base(i - lo)` absorbed.
pub proof fn lemma_kernel_step(
    old_s: Seq<u64>,
    prev: Seq<u64>,
    cur: Seq<u64>,
    lo: int,
    i: int,
    w_in: int,
    w_out: int,
    delta: int,
    acc: int,
)
    requires
        0 <= lo <= i < cur.len(),
        prev.len() == cur.len(),
        old_s.len() == cur.len(),
        cur =~= prev.update(i, cur[i]),
        prev[i] == old_s[i],
        seq_value(prev.subrange(lo, i)) + w_in * pow_base((i - lo) as nat) == seq_value(
            old_s.subrange(lo, i),
        ) + acc,
        cur[i] + w_out * word_base() == prev[i] + w_in + delta,
    ensures
        seq_value(cur.subrange(lo, i + 1)) + w_out * pow_base((i + 1 - lo) as nat) == seq_value(
            old_s.subrange(lo, i + 1),
        ) + acc + delta * pow_base((i - lo) as nat),
{
    lemma_pow_base_one();
    let p = pow_base((i - lo) as nat);
    let b = word_base() as int;
    assert(cur.subrange(lo, i) =~= prev.subrange(lo, i));
    assert(cur.subrange(lo, i + 1) =~= cur.subrange(lo, i).push(cur[i]));
    lemma_seq_value_push(cur.subrange(lo, i), cur[i]);
    assert(old_s.subrange(lo, i + 1) =~= old_s.subrange(lo, i).push(old_s[i]));
    lemma_seq_value_push(old_s.subrange(lo, i), old_s[i]);
    lemma_pow_base_adds(1, (i - lo) as nat);
    assert(pow_base((i + 1 - lo) as nat) == b * p);
    // Scale the word-level split to position i and regroup.
    let f = cur[i] + w_out * b - w_in - old_s[i] - delta;
    assert(f == 0);
    assert(cur[i] * p + w_out * (b * p) - w_in * p - old_s[i] * p - delta * p == f * p)
        by (nonlinear_arith)
        requires
            f == cur[i] + w_out * b - w_in - old_s[i] - delta,
    ;
    assert(f * p == 0) by (nonlinear_arith)
        requires
            f == 0,
    ;
}

/// A carry of zero lets the prefix identity extend across an untouched
/// suffix.
pub proof fn lemma_value_frame(old_s: Seq<u64>, cur: Seq<u64>, lo: int, i: int, hi: int, acc: int)
    requires
        0 <= lo <= i <= hi <= cur.len(),
        cur.len() == old_s.len(),
        seq_value(cur.subrange(lo, i)) == seq_value(old_s.subrange(lo, i)) + acc,
        forall|j: int| i <= j < hi ==> cur[j] == old_s[j],
    ensures
        seq_value(cur.subrange(lo, hi)) == seq_value(old_s.subrange(lo, hi)) + acc,
{
    lemma_value_concat(cur, lo, i, hi);
    lemma_value_concat(old_s, lo, i, hi);
    assert(cur.subrange(i, hi) =~= old_s.subrange(i, hi));
}

/// A carry that balances an equation whose sides both lie below pow_base(n)
/// can only be -1, 0 or 1.
pub proof fn lemma_carry_bound(final_v: int, old_v: int, prod: int, r: int, n: nat)
    requires
        0 <= final_v < pow_base(n),
        0 <= old_v < pow_base(n),
        -pow_base(n) < prod < pow_base(n),
        final_v + r * pow_base(n) == old_v + prod,
    ensures
        -1 <= r <= 1,
{
    let p = pow_base(n) as int;
    lemma_pow_base_pos(n);
    if r >= 2 {
        assert(r * p >= 2 * p) by (nonlinear_arith)
            requires
                r >= 2,
                p > 0,
        ;
    }
    if r <= -2 {
        assert(r * p <= -2 * p) by (nonlinear_arith)
            requires
                r <= -2,
                p > 0,
        ;
    }
}

/// The product of two sequence values stays below pow_base of the summed
/// lengths.
pub proof fn lemma_seq_value_mul_bound(a: Seq<u64>, b: Seq<u64>)
    ensures
        seq_value(a) * seq_value(b) < pow_base(a.len() + b.len()),
        seq_value(a) * seq_value(b) >= 0,
{
    lemma_seq_value_bound(a);
    lemma_seq_value_bound(b);
    lemma_pow_base_adds(a.len(), b.len());
    let av = seq_value(a) as int;
    let bv = seq_value(b) as int;
    let pa = pow_base(a.len()) as int;
    let pb = pow_base(b.len()) as int;
    lemma_pow_base_pos(a.len());
    lemma_pow_base_pos(b.len());
    assert(av * bv < pa * pb) by (nonlinear_arith)
        requires
            0 <= av < pa,
            0 <= bv < pb,
            pa >= 1,
            pb >= 1,
    ;
    assert(av * bv >= 0) by (nonlinear_arith)
        requires
            av >= 0,
            bv >= 0,
    ;
}

/// The word sequence with its trailing zeros removed.
pub open spec fn trim(s: Seq<u64>) -> Seq<u64>
    decreases s.len(),
{
    if s.len() == 0 {
        s
    } else if s.last() == 0 {
        trim(s.drop_last())
    } else {
        s
    }
}

/// Trailing zeros carry no value: trimming preserves it, shortens the
/// sequence, and leaves a non-zero most significant word (if any).
pub proof fn lemma_trim(s: Seq<u64>)
    ensures
        seq_value(trim(s)) == seq_value(s),
        trim(s).len() <= s.len(),
        trim(s).len() > 0 ==> trim(s).last() != 0,
        s.len() > 0 && s.last() != 0 ==> trim(s) == s,
        trim(s).len() <= 1 ==> seq_value(s) < word_base(),
        trim(s) =~= s.subrange(0, trim(s).len() as int),
    decreases s.len(),
{
    lemma_pow_base_one();
    if s.len() == 0 {
        assert(trim(s).len() == 0);
    } else if s.last() == 0 {
        let d = s.drop_last();
        lemma_trim(d);
        assert(d.push(s.last()) =~= s);
        lemma_seq_value_push(d, s.last());
        assert(seq_value(s) == seq_value(d) + 0 * pow_base(d.len()));
        assert(trim(s) =~= s.subrange(0, trim(s).len() as int)) by {
            assert(trim(s) =~= d.subrange(0, trim(d).len() as int));
        }
    } else {
        if trim(s).len() <= 1 {
            assert(s.len() == 1);
            lemma_seq_value_bound(s);
        }
    }
}

/// A sequence whose most significant word is non-zero is worth at least
/// pow_base of its length less one.
pub proof fn lemma_seq_value_lower(s: Seq<u64>)
    requires
        s.len() > 0,
        s.last() != 0,
    ensures
        seq_value(s) >= pow_base((s.len() - 1) as nat),
{
    let d = s.drop_last();
    assert(d.push(s.last()) =~= s);
    lemma_seq_value_push(d, s.last());
    assert(s.last() * pow_base(d.len()) >= 1 * pow_base(d.len())) by (nonlinear_arith)
        requires
            s.last() >= 1,
            pow_base(d.len()) >= 0,
    ;
}

} // verus!
