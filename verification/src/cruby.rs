//! The interpreter's words: object references, symbols and code addresses.
//!
//! All of them are plain 64-bit words here. An address is never followed by the
//! library; whoever owns the memory does that.

use vstd::prelude::*;

verus! {

/// Address of an instruction sequence. 0 is the null pointer.
pub type IseqPtr = u64;

/// Address of a callable method entry.
pub type CmePtr = u64;

/// Class flags of a basic operator redefinition.
pub type RedefinitionFlag = u32;

/// Number of a basic operator.
pub type BasicOperator = u32;

/// A Ruby object reference: either a heap address or an immediate.
#[derive(Clone, Copy, Debug, PartialEq, Eq, Structural, Hash)]
pub struct VALUE(pub u64);

/// An interned symbol number.
#[derive(Clone, Copy, Debug, PartialEq, Eq, Structural, Hash)]
pub struct ID(pub u64);

/// The word that stands for `nil`.
pub const QNIL: u64 = 4;

/// Whether `word` is a Ruby object reference that does not point to the heap: a tagged
/// immediate (one of the three low bits set), or `false`. `nil` is tagged.
pub open spec fn is_special_const(word: u64) -> bool {
    word % 8 != 0 || word == 0
}

impl VALUE {
    /// Whether the low tag bits say that this is an immediate.
    pub fn immediate_p(self) -> (r: bool)
        ensures
            r == (self.0 % 8 != 0),
    {
        self.0 % 8 != 0
    }

    /// Whether Ruby treats this as true, that is, it is neither `false` nor `nil`.
    pub fn test(self) -> (r: bool)
        ensures
            r == (self.0 != 0 && self.0 != QNIL),
    {
        self.0 != 0 && self.0 != QNIL
    }

    /// Whether this is not a heap object.
    pub fn special_const_p(self) -> (r: bool)
        ensures
            r == is_special_const(self.0),
    {
        self.immediate_p() || !self.test()
    }

    /// Whether this is `nil`.
    pub fn nil_p(self) -> (r: bool)
        ensures
            r == (self.0 == QNIL),
    {
        self.0 == QNIL
    }
}

} // verus!
