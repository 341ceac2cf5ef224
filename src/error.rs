use vstd::prelude::*;

verus! {

/// Every way a parse or a lift can fail; each one aborts the current call.
#[derive(Debug, Clone, Copy, PartialEq, Eq, Structural)]
pub enum ParseError {
    /// A read went past the end of the input.
    UnexpectedEof,
    /// The class file does not start with `CA FE BA BE`.
    BadMagic,
    /// A constant-pool entry carries an unknown tag byte.
    UnknownConstantTag,
    /// An access-flag word holds bits that the format does not define.
    UnknownAccessFlags,
    /// A constant-pool index is zero or past the end of the pool.
    InvalidPoolIndex,
    /// The bytes of a UTF8 entry are not well-formed UTF-8.
    UtfDecodeError,
    /// An opcode byte that the instruction set does not define.
    UnknownOpcode,
    /// An opcode that is defined but not handled (`wide`, the switches, ...).
    UnsupportedOpcode,
    /// A `Code` attribute ends in the middle of an instruction.
    TruncatedCode,
    /// The expression lifter popped an empty stack.
    StackUnderflow,
    /// A block that returns, throws or switches leaves values on the
    /// symbolic stack.
    StackNotEmpty,
    /// A branch leads outside the method's code.
    JumpOutOfRange,
    /// A type descriptor does not follow the descriptor grammar.
    InvalidDescriptor,
}

} // verus!
