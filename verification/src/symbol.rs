//! One prefix code: a bit pattern and its length.

use crate::bits::{low_part, value_bits};
use vstd::prelude::*;

verus! {

/// A prefix code of 1 to 64 bits, held right-justified: the bits of
/// `pattern` from `bit_len` upwards are zero.
#[derive(Clone, Copy, Debug, PartialEq, Eq, Hash, Structural)]
pub struct SymbolCode {
    pattern: u64,
    bit_len: u8,
}

impl SymbolCode {
    /// The bit pattern.
    pub closed spec fn spec_pattern(&self) -> u64 {
        self.pattern
    }

    /// The number of bits of the pattern that belong to the code.
    pub closed spec fn spec_bit_len(&self) -> u8 {
        self.bit_len
    }

    /// The length is between 1 and 64 and the pattern has no bit beyond it.
    pub open spec fn wf(&self) -> bool {
        &&& 1 <= self.spec_bit_len() <= 64
        &&& low_part(self.spec_pattern(), self.spec_bit_len() as nat) == self.spec_pattern()
    }

    #[verifier::type_invariant]
    spec fn inv(self) -> bool {
        self.wf()
    }

    /// The bits of the code in the order they are written: least
    /// significant first.
    pub open spec fn bits(&self) -> Seq<bool> {
        value_bits(self.spec_pattern(), self.spec_bit_len() as nat)
    }

    /// The code of length `bit_len` with the low `bit_len` bits of
    /// `pattern`; none where the length is not between 1 and 64.
    pub fn new(pattern: u64, bit_len: u8) -> (code: Option<SymbolCode>)
        ensures
            code is Some <==> 1 <= bit_len <= 64,
            code matches Some(c) ==> c.wf() && c.spec_bit_len() == bit_len && c.spec_pattern()
                == low_part(pattern, bit_len as nat),
    {
        if bit_len == 0 || bit_len > 64 {
            return None;
        }
        let kept: u64 = if bit_len == 64 {
            pattern
        } else {
            pattern & !(0xffff_ffff_ffff_ffffu64 << bit_len)
        };
        proof {
            let n: u64 = bit_len as u64;
            if bit_len < 64 {
                assert(kept == pattern & !(0xffff_ffff_ffff_ffffu64 << n)) by (bit_vector)
                    requires
                        n == bit_len,
                        kept == pattern & !(0xffff_ffff_ffff_ffffu64 << bit_len),
                ;
                assert(kept & !(0xffff_ffff_ffff_ffffu64 << n) == kept) by (bit_vector)
                    requires
                        kept == pattern & !(0xffff_ffff_ffff_ffffu64 << n),
                ;
            }
        }
        Some(SymbolCode { pattern: kept, bit_len })
    }

    /// The code of length `bit_len` with the pattern `pattern`, which has
    /// no bit beyond that length.
    pub(crate) fn from_canonical(pattern: u64, bit_len: u8) -> (code: SymbolCode)
        requires
            1 <= bit_len <= 64,
            low_part(pattern, bit_len as nat) == pattern,
        ensures
            code.wf(),
            code.spec_pattern() == pattern,
            code.spec_bit_len() == bit_len,
    {
        SymbolCode { pattern, bit_len }
    }

    /// The bit pattern.
    #[verifier::when_used_as_spec(spec_pattern)]
    pub fn pattern(&self) -> (pattern: u64)
        ensures
            pattern == self.spec_pattern(),
            low_part(pattern, self.spec_bit_len() as nat) == pattern,
    {
        proof {
            use_type_invariant(self);
        }
        self.pattern
    }

    /// The number of bits of the pattern that belong to the code.
    #[verifier::when_used_as_spec(spec_bit_len)]
    pub fn bit_len(&self) -> (bit_len: u8)
        ensures
            bit_len == self.spec_bit_len(),
            1 <= bit_len <= 64,
    {
        proof {
            use_type_invariant(self);
        }
        self.bit_len
    }
}

} // verus!
