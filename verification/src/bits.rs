//! Symbols that are smaller than a byte.

use vstd::prelude::*;

verus! {

/// Six bits of data, the symbol that the Reed-Solomon codes work on.
#[derive(Clone, Copy, Debug, PartialEq, Eq, Structural)]
pub struct Hexbit(u8);

impl Hexbit {
    /// Only the low six bits of a hexbit are ever set.
    #[verifier::type_invariant]
    spec fn in_range(self) -> bool {
        self.0 < 64
    }

    /// The bit pattern of the hexbit, as a number below 64.
    pub closed spec fn view(&self) -> u8 {
        self.0 % 64
    }

    /// Wrap the given bits, which must fit in six bits.
    pub fn new(bits: u8) -> (h: Hexbit)
        requires
            bits < 64,
        ensures
            h@ == bits,
    {
        Hexbit(bits)
    }

    /// The wrapped bits.
    pub fn bits(&self) -> (b: u8)
        ensures
            b == self@,
            b < 64,
    {
        proof {
            use_type_invariant(self);
        }
        self.0
    }

    /// The bit pattern of a hexbit fits in six bits.
    pub proof fn lemma_view_range(h: Hexbit)
        ensures
            h@ < 64,
    {
    }
}

impl Default for Hexbit {
    /// The all-zero hexbit.
    fn default() -> (h: Hexbit)
        ensures
            h@ == 0,
    {
        Hexbit(0)
    }
}

/// The bit patterns of a run of hexbits.
pub open spec fn hexbit_values(s: Seq<Hexbit>) -> Seq<u8> {
    Seq::new(s.len(), |i: int| s[i]@)
}

/// The bit patterns of a run of hexbits fit in six bits each.
pub proof fn lemma_hexbit_values(s: Seq<Hexbit>)
    ensures
        hexbit_values(s).len() == s.len(),
        forall|i: int| 0 <= i < s.len() ==> #[trigger] hexbit_values(s)[i] < 64,
{
    assert forall|i: int| 0 <= i < s.len() implies #[trigger] hexbit_values(s)[i] < 64 by {
        Hexbit::lemma_view_range(s[i]);
    }
}

} // verus!
