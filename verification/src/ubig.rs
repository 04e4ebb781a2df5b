//! Unsigned big integer.

use vstd::prelude::*;
use vstd::std_specs::cmp::PartialEqSpec;
use crate::arith::{
    seq_value, trim, word_base, pow_base, lemma_trim, lemma_seq_value_lower, lemma_pow_base_one,
    lemma_pow_base_increases,
};
use crate::buffer::{Buffer, BUF_MAX_LEN, default_cap, max_compact_cap};
use crate::primitive::Word;

verus! {

/// Internal representation of UBig.
#[derive(Debug)]
pub enum Repr {
    /// A number that fits in a single Word.
    Small(Word),
    /// A number that does not fit in a single Word.  The buffer has length
    /// at least 2, no most significant zero word, and compact capacity.
    Large(Buffer),
}

/// Unsigned big integer: an arbitrarily large unsigned integer, stored
/// inline when it fits in one word.
#[derive(Debug)]
pub struct UBig(pub Repr);

impl View for UBig {
    type V = nat;

    /// The numeric value.
    open spec fn view(&self) -> nat {
        match self.0 {
            Repr::Small(w) => w as nat,
            Repr::Large(ref b) => seq_value(b@),
        }
    }
}

impl UBig {
    /// Normalization invariant: a Large representation has at least two
    /// words, a non-zero most significant word, and compact capacity.
    pub open spec fn wf(&self) -> bool {
        match self.0 {
            Repr::Small(_) => true,
            Repr::Large(ref b) => {
                &&& b.wf()
                &&& b@.len() >= 2
                &&& b@.last() != 0
                &&& b.cap <= max_compact_cap(b@.len() as int)
            },
        }
    }

    /// A normalized value is Small exactly when it is below word_base;
    /// a Large one has at least two words and a non-zero top word.
    pub proof fn lemma_normalized(&self)
        requires
            self.wf(),
        ensures
            (self.0 is Small) <==> self@ < word_base(),
            self.0 is Large ==> self@ >= word_base() && self.0->Large_0@.len() >= 2
                && self.0->Large_0@.last() != 0,
    {
        lemma_pow_base_one();
        match self.0 {
            Repr::Small(_) => {},
            Repr::Large(ref b) => {
                lemma_seq_value_lower(b@);
                lemma_pow_base_increases(1, (b@.len() - 1) as nat);
            },
        }
    }

    /// Construct from one word.
    pub fn from_word(word: Word) -> (r: UBig)
        ensures
            r.wf(),
            r@ == word,
            r.0 == Repr::Small(word),
    {
        UBig(Repr::Small(word))
    }

    /// Get the representation of UBig.
    pub fn repr(&self) -> (r: &Repr)
        ensures
            r == &self.0,
    {
        &self.0
    }

    /// Current capacity in Words.
    pub fn capacity(&self) -> (r: usize)
        ensures
            r == self.capacity_spec(),
    {
        match self.0 {
            Repr::Small(_) => 1,
            Repr::Large(ref large) => large.capacity(),
        }
    }

    /// Capacity in words: 1 inline word when Small, the buffer's capacity
    /// when Large.
    pub open spec fn capacity_spec(&self) -> int {
        match self.0 {
            Repr::Small(_) => 1,
            Repr::Large(ref b) => b.cap as int,
        }
    }

    /// Is it zero?
    pub fn is_zero(&self) -> (r: bool)
        requires
            self.wf(),
        ensures
            r <==> self@ == 0,
    {
        proof {
            self.lemma_normalized();
        }
        match self.0 {
            Repr::Small(0) => true,
            _ => false,
        }
    }

    /// Normalizing constructor: pops trailing zero words, returns a Small
    /// value when at most one word remains, and otherwise shrink-fits the
    /// buffer.  A buffer made by `Buffer::allocate(n)` whose normalized
    /// length stays within the compact band of n keeps its allocation.
    pub fn from_buffer(buffer: Buffer) -> (r: UBig)
        requires
            buffer.wf(),
        ensures
            r.wf(),
            r@ == seq_value(buffer@),
            trim(buffer@).len() <= 1 ==> r.0 is Small,
            trim(buffer@).len() >= 2 ==> r.0 is Large && r.capacity_spec() == (
            if buffer.cap > max_compact_cap(trim(buffer@).len() as int) {
                default_cap(trim(buffer@).len() as int)
            } else {
                buffer.cap as int
            }),
    {
        let mut buffer = buffer;
        let ghost orig: Seq<Word> = buffer@;
        let ghost orig_cap: usize = buffer.cap;
        proof {
            lemma_trim(buffer@);
        }
        loop
            invariant_except_break
                trim(buffer@) =~= trim(orig),
            invariant
                buffer.wf(),
                buffer.cap == orig_cap,
            ensures
                buffer.wf(),
                buffer.cap == orig_cap,
                buffer@ =~= trim(orig),
            decreases buffer@.len(),
        {
            proof {
                lemma_trim(buffer@);
            }
            let n = buffer.len();
            if n == 0 {
                break ;
            }
            if buffer.get(n - 1) != 0 {
                break ;
            }
            proof {
                assert(buffer@.last() == 0);
                assert(trim(buffer@) == trim(buffer@.drop_last()));
            }
            buffer.pop();
        }
        proof {
            lemma_trim(orig);
        }
        match buffer.len() {
            0 => UBig::from_word(0),
            1 => UBig::from_word(buffer.get(0)),
            _ => {
                buffer.shrink();
                UBig(Repr::Large(buffer))
            },
        }
    }
}

impl Clone for UBig {
    /// Deep copy; a Large value gets a fresh buffer of compact capacity.
    fn clone(&self) -> (r: UBig)
        ensures
            self.wf() ==> {
                &&& r.wf()
                &&& r@ == self@
                &&& (self.0 is Small ==> r.0 == self.0)
                &&& (self.0 is Large ==> r.0 is Large && r.capacity_spec() == default_cap(
                    self.0->Large_0@.len() as int,
                ))
            },
    {
        match self.0 {
            Repr::Small(x) => UBig(Repr::Small(x)),
            Repr::Large(ref buffer) => UBig(Repr::Large(buffer.clone())),
        }
    }
}

impl UBig {
    /// Deep copy from source; when both values are Large and the
    /// destination's capacity lies within the compact band of the source
    /// length, the destination's allocation is reused.
    pub fn clone_from(&mut self, source: &UBig)
        requires
            old(self).wf(),
            source.wf(),
        ensures
            final(self).wf(),
            final(self)@ == source@,
            (old(self).0 is Large && source.0 is Large) ==> final(self).0 is Large && (final(
                self).capacity_spec() == (if source.0->Large_0@.len() <= old(self).capacity_spec()
                <= max_compact_cap(source.0->Large_0@.len() as int) {
                old(self).capacity_spec()
            } else {
                default_cap(source.0->Large_0@.len() as int)
            })),
            (source.0 is Small) ==> final(self).0 == source.0,
    {
        if let Repr::Large(ref mut buffer) = self.0 {
            if let Repr::Large(ref source_buffer) = source.0 {
                buffer.resizing_clone_from(source_buffer);
                return ;
            }
        }
        *self = source.clone();
    }
}

/// Word-by-word equality of two vectors.
fn eq_words(a: &Vec<Word>, b: &Vec<Word>) -> (r: bool)
    ensures
        r <==> a@ =~= b@,
{
    if a.len() != b.len() {
        return false;
    }
    let mut i: usize = 0;
    while i < a.len()
        invariant
            a@.len() == b@.len(),
            i <= a@.len(),
            forall|j: int| 0 <= j < i ==> a@[j] == b@[j],
        decreases a@.len() - i,
    {
        if a[i] != b[i] {
            return false;
        }
        i = i + 1;
    }
    true
}

impl PartialEq for UBig {
    /// Structural equality of the representation; for normalized values
    /// this coincides with equality of the numeric values.
    fn eq(&self, other: &UBig) -> (r: bool) {
        match (&self.0, &other.0) {
            (Repr::Small(a), Repr::Small(b)) => *a == *b,
            (Repr::Large(a), Repr::Large(b)) => eq_words(&a.words, &b.words),
            _ => false,
        }
    }
}

impl vstd::std_specs::cmp::PartialEqSpecImpl for UBig {
    open spec fn obeys_eq_spec() -> bool {
        true
    }

    open spec fn eq_spec(&self, other: &UBig) -> bool {
        match (self.0, other.0) {
            (Repr::Small(a), Repr::Small(b)) => a == b,
            (Repr::Large(a), Repr::Large(b)) => a@ =~= b@,
            _ => false,
        }
    }
}

/// Normalization makes the representation canonical: two normalized values
/// are structurally equal exactly when their numeric values are equal.
pub proof fn lemma_eq_is_value_eq(a: &UBig, b: &UBig)
    requires
        a.wf(),
        b.wf(),
    ensures
        a.eq_spec(b) <==> a@ == b@,
{
    lemma_pow_base_one();
    a.lemma_normalized();
    b.lemma_normalized();
    match (a.0, b.0) {
        (Repr::Small(x), Repr::Small(y)) => {},
        (Repr::Large(ba), Repr::Large(bb)) => {
            if a@ == b@ {
                lemma_seq_values_eq_implies_eq(ba@, bb@);
            }
        },
        _ => {},
    }
}

/// Two sequences with non-zero most significant words and equal values are
/// equal.
proof fn lemma_seq_values_eq_implies_eq(s: Seq<u64>, t: Seq<u64>)
    requires
        s.len() > 0 ==> s.last() != 0,
        t.len() > 0 ==> t.last() != 0,
        seq_value(s) == seq_value(t),
    ensures
        s =~= t,
    decreases s.len(),
{
    lemma_pow_base_one();
    if s.len() == 0 || t.len() == 0 {
        if s.len() > 0 {
            lemma_seq_value_lower(s);
            crate::arith::lemma_pow_base_pos((s.len() - 1) as nat);
        }
        if t.len() > 0 {
            lemma_seq_value_lower(t);
            crate::arith::lemma_pow_base_pos((t.len() - 1) as nat);
        }
        assert(s.len() == 0 && t.len() == 0);
        assert(s =~= t);
    } else {
        // Equal values have equal low words and equal high parts.
        let sd = s.drop_first();
        let td = t.drop_first();
        assert(seq_value(s) == s[0] + word_base() * seq_value(sd));
        assert(seq_value(t) == t[0] + word_base() * seq_value(td));
        let q = seq_value(sd);
        let r = seq_value(td);
        assert(s[0] == t[0] && q == r) by (nonlinear_arith)
            requires
                s[0] + word_base() * q == t[0] + word_base() * r,
                0 <= s[0] < word_base(),
                0 <= t[0] < word_base(),
                q >= 0,
                r >= 0,
        ;
        if s.len() == 1 {
            assert(sd.len() == 0);
            if td.len() > 0 {
                assert(td.last() == t.last());
                lemma_seq_value_lower(td);
                crate::arith::lemma_pow_base_pos((td.len() - 1) as nat);
            }
            assert(td.len() == 0);
            assert(s =~= t);
        } else if t.len() == 1 {
            assert(sd.last() == s.last());
            lemma_seq_value_lower(sd);
            crate::arith::lemma_pow_base_pos((sd.len() - 1) as nat);
        } else {
            assert(sd.last() == s.last());
            assert(td.last() == t.last());
            lemma_seq_values_eq_implies_eq(sd, td);
            assert(s.len() == t.len());
            assert forall|j: int| 0 <= j < s.len() implies s[j] == t[j] by {
                if j > 0 {
                    assert(s[j] == sd[j - 1]);
                    assert(t[j] == td[j - 1]);
                }
            }
            assert(s =~= t);
        }
    }
}

} // verus!
