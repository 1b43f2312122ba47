//! The p-code operations.

use vstd::prelude::*;

verus! {

/// A p-code operation code.
#[derive(Clone, Copy, PartialEq, Eq, Structural, Debug, Hash)]
pub enum OpCode {
    Copy,
    Load,
    Store,
    Branch,
    Cbranch,
    Branchind,
    Call,
    Callind,
    Callother,
    Return,
    IntEqual,
    IntNotequal,
    IntSless,
    IntSlessequal,
    IntLess,
    IntLessequal,
    IntZext,
    IntSext,
    IntAdd,
    IntSub,
    IntCarry,
    IntScarry,
    IntSborrow,
    Int2comp,
    IntNegate,
    IntXor,
    IntAnd,
    IntOr,
    IntLeft,
    IntRight,
    IntSright,
    IntMult,
    IntDiv,
    IntSdiv,
    IntRem,
    IntSrem,
    BoolNegate,
    BoolXor,
    BoolAnd,
    BoolOr,
    FloatEqual,
    FloatNotequal,
    FloatLess,
    FloatLessequal,
    FloatNan,
    FloatAdd,
    FloatDiv,
    FloatMult,
    FloatSub,
    FloatNeg,
    FloatAbs,
    FloatSqrt,
    FloatInt2float,
    FloatFloat2float,
    FloatTrunc,
    FloatCeil,
    FloatFloor,
    FloatRound,
    Multiequal,
    Indirect,
    Piece,
    Subpiece,
    Cast,
    Ptradd,
    Ptrsub,
    Segmentop,
    Cpoolref,
    New,
    Insert,
    Extract,
    Popcount,
    Lzcount,
}

} // verus!
