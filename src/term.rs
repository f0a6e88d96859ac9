use vstd::prelude::*;

verus! {

/// The binary operators of the expression language.
#[derive(Clone, Copy, Debug, PartialEq, Eq, Structural, Hash)]
pub enum Op {
    Add,
    Sub,
    Mul,
    Div,
}

/// Bit pattern of a double whose exponent field is all ones and whose fraction is non-zero.
pub open spec fn is_nan_bits(bits: u64) -> bool {
    bits & 0x7ff0_0000_0000_0000u64 == 0x7ff0_0000_0000_0000u64
        && bits & 0x000f_ffff_ffff_ffffu64 != 0
}

/// The bit pattern of negative zero.
pub const NEG_ZERO_BITS: u64 = 0x8000_0000_0000_0000u64;

/// Why a numeral could not become a constant.
#[derive(Clone, Copy, Debug, PartialEq, Eq, Structural)]
pub enum InvalidNumberError {
    NotANumber,
}

/// A finite, non-NaN floating-point constant, held as the bits of an IEEE-754 double.
/// Negative zero is stored as positive zero, so that two constants are equal exactly when
/// their values compare equal.
#[derive(Clone, Copy, Debug, PartialEq, Eq, Structural, Hash)]
pub struct Constant {
    pub bits: u64,
}

impl Constant {
    /// A constant is well formed when it is not NaN and not negative zero.
    pub open spec fn wf(self) -> bool {
        !is_nan_bits(self.bits) && self.bits != NEG_ZERO_BITS
    }

    /// Builds a constant from the bits of a double; NaN is refused.
    pub fn from_bits(bits: u64) -> (r: Result<Constant, InvalidNumberError>)
        ensures
            is_nan_bits(bits) <==> r is Err,
            r is Err ==> r == Err::<Constant, InvalidNumberError>(InvalidNumberError::NotANumber),
            r is Ok ==> r->Ok_0.wf() && r->Ok_0.bits == (if bits == NEG_ZERO_BITS { 0 } else { bits }),
    {
        if bits & 0x7ff0_0000_0000_0000u64 == 0x7ff0_0000_0000_0000u64
            && bits & 0x000f_ffff_ffff_ffffu64 != 0 {
            Err(InvalidNumberError::NotANumber)
        } else if bits == NEG_ZERO_BITS {
            proof {
                assert(!is_nan_bits(0u64)) by (bit_vector);
            }
            Ok(Constant { bits: 0 })
        } else {
            proof {
                assert(NEG_ZERO_BITS == 0x8000_0000_0000_0000u64);
                assert(!is_nan_bits(0x8000_0000_0000_0000u64)) by (bit_vector);
            }
            Ok(Constant { bits })
        }
    }

    /// The bits of the double that this constant holds.
    pub fn bits(&self) -> (r: u64)
        ensures
            r == self.bits,
    {
        self.bits
    }
}

/// An interned name. Equality of symbols is equality of names.
#[derive(Clone, Copy, Debug, PartialEq, Eq, Structural, Hash)]
pub struct Symbol {
    pub id: u32,
}

/// The identifier reserved for the anonymous wildcard of target patterns.
pub const WILDCARD_ID: u32 = 0;

impl Symbol {
    /// The anonymous wildcard, which a target pattern uses to accept any symbol.
    pub fn wildcard() -> (r: Symbol)
        ensures
            r.id == WILDCARD_ID,
    {
        Symbol { id: WILDCARD_ID }
    }

    pub open spec fn spec_is_wildcard(self) -> bool {
        self.id == WILDCARD_ID
    }

    pub fn is_wildcard(&self) -> (r: bool)
        ensures
            r == self.spec_is_wildcard(),
    {
        self.id == WILDCARD_ID
    }
}

/// A node of the graph or of an expression: an operator over two class identifiers, a
/// constant or a symbol.
#[derive(Clone, Copy, Debug, PartialEq, Eq, Structural, Hash)]
pub enum Node {
    Bin(Op, usize, usize),
    Constant(Constant),
    Symbol(Symbol),
}

impl Node {
    /// Every child of the node is below `n`.
    pub open spec fn children_below(self, n: int) -> bool {
        match self {
            Node::Bin(_, a, b) => a < n && b < n,
            _ => true,
        }
    }
}

/// An expression: nodes whose children refer to earlier positions; the last node is the root.
pub open spec fn expr_wf(e: Seq<Node>) -> bool {
    e.len() > 0 && forall|k: int| 0 <= k < e.len() ==> (#[trigger] e[k]).children_below(k)
}

} // verus!
