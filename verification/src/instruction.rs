//! Register-machine instructions: an opcode and three byte operands.

use vstd::prelude::*;

verus! {

/// The operations of the virtual machine.
#[derive(Debug, Clone, Copy, PartialEq, Eq, Structural)]
pub enum OpCode {
    Move,
    LoadK,
    LoadNil,
    Jmp,
    Test,
    Add,
    Sub,
    Div,
    Mod,
    Mul,
    Pow,
    Lt,
    Gt,
    Lte,
    Gte,
    Eq,
    Neq,
    Not,
    Neg,
    Call,
    Return,
    SetUpval,
    GetUpval,
    Closure,
    List,
    PushList,
    Dict,
    PushDict,
    Slice,
    Access,
    SetElem,
    Class,
    ClassMeth,
    ClassStMeth,
    GetObj,
    SetObj,
    Addi,
    Subi,
    GetIter,
    GetIterk,
    GetIteri,
    Length,
    Super,
    This,
    GetGlobal,
    SetGlobal,
    GetCurrentFunc,
    GetBuiltin,
    RegisterTryCatch,
    DeregisterTryCatch,
    GetExcept,
}

/// Value of the unused `a` operand of a `Jmp` that marks a `continue`.
pub const JMP_CONTINUE: u8 = 1;

/// Value of the unused `a` operand of a `Jmp` that marks a `break`.
pub const JMP_BREAK: u8 = 2;

/// One instruction: `opcode` with operands `a`, `b` and `c`.
#[derive(Debug, Clone, Copy, PartialEq, Eq, Structural)]
pub struct Instruction {
    pub opcode: OpCode,
    pub a: u8,
    pub b: u8,
    pub c: u8,
}

/// The unsigned 16-bit operand made of `b` (high byte) and `c` (low byte).
pub open spec fn spec_bx(b: u8, c: u8) -> int {
    b * 256 + c
}

/// The signed 16-bit operand made of `b` and `c`, read in two's complement.
pub open spec fn spec_sbx(b: u8, c: u8) -> int {
    if spec_bx(b, c) < 32768 {
        spec_bx(b, c)
    } else {
        spec_bx(b, c) - 65536
    }
}

/// High byte of `x` written on 16 bits (two's complement for negative `x`,
/// truncated beyond 16 bits).
pub open spec fn hi_byte(x: int) -> u8 {
    ((x % 65536) / 256) as u8
}

/// Low byte of `x` written on 16 bits.
pub open spec fn lo_byte(x: int) -> u8 {
    (x % 256) as u8
}

/// A signed offset written into `b` and `c` is read back by `sbx`.
pub proof fn lemma_sbx_roundtrip(x: int)
    requires
        -32768 <= x < 32768,
    ensures
        spec_sbx(hi_byte(x), lo_byte(x)) == x,
{
    if x >= 0 {
        assert(x % 65536 == x);
        assert((x % 65536) / 256 * 256 + x % 256 == x);
    } else {
        assert(x % 65536 == x + 65536);
        assert((x + 65536) % 256 == x % 256);
        assert((x % 65536) / 256 * 256 + x % 256 == x + 65536);
    }
}

/// An unsigned 16-bit operand written into `b` and `c` is read back by `bx`.
pub proof fn lemma_bx_roundtrip(x: int)
    requires
        0 <= x < 65536,
    ensures
        spec_bx(hi_byte(x), lo_byte(x)) == x,
{
    assert(x % 65536 == x);
    assert(x / 256 * 256 + x % 256 == x);
}

/// The operands `b` and `c` holding `x` on 16 bits (see `hi_byte`, `lo_byte`).
pub fn split_operand(x: i64) -> (r: (u8, u8))
    ensures
        r.0 == hi_byte(x as int),
        r.1 == lo_byte(x as int),
{
    let u: u16 = x as u16;
    assert(u == x % 65536) by (bit_vector)
        requires
            u == x as u16,
    ;
    let hi: u8 = (u >> 8u16) as u8;
    let lo: u8 = u as u8;
    assert(hi == u / 256) by (bit_vector)
        requires
            hi == (u >> 8u16) as u8,
    ;
    assert(lo == u % 256) by (bit_vector)
        requires
            lo == u as u8,
    ;
    assert(u % 256 == x % 256) by (nonlinear_arith)
        requires
            u == x % 65536,
    ;
    (hi, lo)
}

impl Instruction {
    /// The unsigned operand `b << 8 | c`.
    pub fn bx(&self) -> (r: u16)
        ensures
            r == spec_bx(self.b, self.c),
    {
        let b = self.b as u16;
        let c = self.c as u16;
        assert((b << 8u16) | c == b * 256 + c) by (bit_vector)
            requires
                b < 256,
                c < 256,
        ;
        b << 8 | c
    }

    /// The signed operand `(b << 8 | c) as i16`.
    pub fn sbx(&self) -> (r: i16)
        ensures
            r == spec_sbx(self.b, self.c),
    {
        let b = self.b as u16;
        let c = self.c as u16;
        let u = b << 8 | c;
        assert(u == b * 256 + c) by (bit_vector)
            requires
                b < 256,
                c < 256,
                u == (b << 8u16) | c,
        ;
        assert((u as i16) == (if u < 32768 { u as int } else { u - 65536 })) by (bit_vector);
        u as i16
    }

    /// Whether this is an unpatched `continue` jump.
    pub fn is_continue(&mut self) -> (r: bool)
        ensures
            *final(self) == *old(self),
            r == (old(self).opcode == OpCode::Jmp && old(self).a == JMP_CONTINUE),
    {
        self.opcode == OpCode::Jmp && self.a == JMP_CONTINUE
    }

    /// Whether this is an unpatched `break` jump.
    pub fn is_break(&self) -> (r: bool)
        ensures
            r == (self.opcode == OpCode::Jmp && self.a == JMP_BREAK),
    {
        self.opcode == OpCode::Jmp && self.a == JMP_BREAK
    }
}

} // verus!
