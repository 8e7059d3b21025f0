//! The virtual machine's native 256-bit word, split into two 128-bit halves.
//!
//! Words serve as block identifiers and as jump targets.  The mathematical
//! value of a word, and of any big-endian byte string, is given by `be_val`.

use vstd::prelude::*;

verus! {

/// The value of a byte sequence read as a big-endian integer.
pub open spec fn be_val(s: Seq<u8>) -> nat
    decreases s.len(),
{
    if s.len() == 0 {
        0
    } else {
        (be_val(s.drop_last()) * 256 + s.last()) as nat
    }
}

/// 256 to the power `n`: the number of byte strings of length `n`.
pub open spec fn pow256(n: nat) -> nat
    decreases n,
{
    if n == 0 {
        1nat
    } else {
        256 * pow256((n - 1) as nat)
    }
}

/// A big-endian byte string of length `n` is below `256^n`.
pub proof fn lemma_be_val_bound(s: Seq<u8>)
    ensures
        be_val(s) < pow256(s.len()),
    decreases s.len(),
{
    if s.len() > 0 {
        lemma_be_val_bound(s.drop_last());
        assert(be_val(s.drop_last()) <= pow256((s.len() - 1) as nat) - 1);
        assert(be_val(s.drop_last()) * 256 <= (pow256((s.len() - 1) as nat) - 1) * 256)
            by (nonlinear_arith)
            requires
                be_val(s.drop_last()) <= pow256((s.len() - 1) as nat) - 1,
        ;
    }
}

pub proof fn lemma_pow256_monotone(a: nat, b: nat)
    ensures
        a <= b ==> pow256(a) <= pow256(b),
    decreases b,
{
    if b > 0 && a <= b - 1 {
        lemma_pow256_monotone(a, (b - 1) as nat);
        assert(pow256((b - 1) as nat) <= 256 * pow256((b - 1) as nat)) by (nonlinear_arith)
            requires
                pow256((b - 1) as nat) >= 0,
        ;
    }
}

/// A run of zero bytes in front of a byte string does not change its value.
pub proof fn lemma_be_val_zero_prefix(z: Seq<u8>, s: Seq<u8>)
    requires
        forall|i: int| 0 <= i < z.len() ==> z[i] == 0u8,
    ensures
        be_val(z + s) == be_val(s),
    decreases s.len(),
{
    if s.len() == 0 {
        assert(z + s =~= z);
        lemma_be_val_zeros(z);
    } else {
        assert((z + s).drop_last() =~= z + s.drop_last());
        lemma_be_val_zero_prefix(z, s.drop_last());
        assert((z + s).last() == s.last());
    }
}

/// A byte string of zero bytes has value zero.
pub proof fn lemma_be_val_zeros(z: Seq<u8>)
    requires
        forall|i: int| 0 <= i < z.len() ==> z[i] == 0u8,
    ensures
        be_val(z) == 0,
    decreases z.len(),
{
    if z.len() > 0 {
        lemma_be_val_zeros(z.drop_last());
    }
}

/// An unsigned 256-bit integer, most significant half first.
#[derive(Clone, Copy, Debug, PartialEq, Eq, Hash, Structural)]
pub struct Word {
    pub hi: u128,
    pub lo: u128,
}

impl Word {
    /// The mathematical value this word stands for.
    pub open spec fn value(self) -> nat {
        (self.hi * 0x100000000000000000000000000000000 + self.lo) as nat
    }

    /// Two words are equal exactly when their values are.
    pub proof fn lemma_eq_value(a: Word, b: Word)
        ensures
            (a == b) <==> (a.value() == b.value()),
    {
        if a.value() == b.value() {
            assert(a.hi == b.hi && a.lo == b.lo) by (nonlinear_arith)
                requires
                    a.lo < 0x100000000000000000000000000000000,
                    b.lo < 0x100000000000000000000000000000000,
                    a.hi * 0x100000000000000000000000000000000 + a.lo == b.hi
                        * 0x100000000000000000000000000000000 + b.lo,
            ;
        }
    }

    pub fn from_u64(v: u64) -> (w: Word)
        ensures
            w.value() == v,
    {
        Word { hi: 0, lo: v as u128 }
    }

    pub fn to_u64(self) -> (r: u64)
        requires
            self.value() < 0x10000000000000000,
        ensures
            r == self.value(),
    {
        proof {
            if self.hi > 0 {
                assert(self.hi * 0x100000000000000000000000000000000
                    >= 0x100000000000000000000000000000000) by (nonlinear_arith)
                    requires
                        self.hi >= 1,
                ;
            }
        }
        self.lo as u64
    }

    /// Whether two words are equal, decided half by half.
    pub fn eq_word(&self, other: &Word) -> (r: bool)
        ensures
            r <==> self.value() == other.value(),
    {
        proof {
            Word::lemma_eq_value(*self, *other);
        }
        self.hi == other.hi && self.lo == other.lo
    }

    /// Read `len` bytes of `code` starting at `start` as one big-endian word.
    pub fn from_be_bytes(code: &Vec<u8>, start: usize, len: usize) -> (w: Word)
        requires
            start + len <= code.len(),
            len <= 32,
        ensures
            w.value() == be_val(code@.subrange(start as int, (start + len) as int)),
    {
        let mut hi: u128 = 0;
        let mut lo: u128 = 0;
        let mut i: usize = 0;
        proof {
            assert(code@.subrange(start as int, start as int) =~= Seq::<u8>::empty());
        }
        while i < len
            invariant
                i <= len,
                len <= 32,
                start + len <= code.len(),
                hi * 0x100000000000000000000000000000000 + lo == be_val(
                    code@.subrange(start as int, (start + i) as int),
                ),
                be_val(code@.subrange(start as int, (start + i) as int)) < pow256(i as nat),
            decreases len - i,
        {
            let b = code[start + i];
            let ghost prefix = code@.subrange(start as int, (start + i) as int);
            let ghost next = code@.subrange(start as int, (start + i + 1) as int);
            proof {
                assert(next.drop_last() =~= prefix);
                assert(next.last() == code@[start + i]);
                // the running value stays under 256^31, so `hi` is under 2^120
                lemma_pow256_monotone(i as nat, 31);
                assert(pow256(31) == 0x100000000000000000000000000000000
                    * 0x1000000000000000000000000000000) by {
                    reveal_with_fuel(pow256, 32);
                }
                assert(hi < 0x1000000000000000000000000000000) by (nonlinear_arith)
                    requires
                        hi * 0x100000000000000000000000000000000 + lo < 0x100000000000000000000000000000000
                            * 0x1000000000000000000000000000000,
                        lo >= 0,
                ;
            }
            let carry: u128 = lo / 0x1000000000000000000000000000000u128;
            let rem: u128 = lo % 0x1000000000000000000000000000000u128;
            proof {
                assert(lo == carry * 0x1000000000000000000000000000000 + rem);
                assert(carry < 256) by (nonlinear_arith)
                    requires
                        lo < 0x100000000000000000000000000000000,
                        carry == lo / 0x1000000000000000000000000000000u128,
                ;
            }
            let new_hi: u128 = hi * 256 + carry;
            let new_lo: u128 = rem * 256 + b as u128;
            proof {
                assert(new_hi * 0x100000000000000000000000000000000 + new_lo == (hi
                    * 0x100000000000000000000000000000000 + lo) * 256 + b) by (nonlinear_arith)
                    requires
                        new_hi == hi * 256 + carry,
                        new_lo == rem * 256 + b,
                        lo == carry * 0x1000000000000000000000000000000 + rem,
                ;
                lemma_be_val_bound(next);
            }
            hi = new_hi;
            lo = new_lo;
            i = i + 1;
        }
        proof {
            assert(code@.subrange(start as int, (start + len) as int) =~= code@.subrange(
                start as int,
                (start + i) as int,
            ));
        }
        Word { hi, lo }
    }
}

} // verus!
