//! The error kinds of the codec and of control-flow-graph recovery.

use vstd::prelude::*;

verus! {

/// Rejection of a whole chunk during decode: the header does not match, a
/// declared size would read past the buffer end, an opcode or a constant
/// tag falls outside the defined set, or a field that the format fixes
/// holds another value. Each variant past the header carries the byte
/// offset at which the violation was found.
#[derive(Clone, Copy, PartialEq, Eq, Structural, Debug)]
pub enum FormatError {
    BadSignature,
    BadVersion,
    BadFormat,
    Truncated(usize),
    UnknownOpcode(usize),
    BadValueTag(usize),
    NonCanonical(usize),
}

/// Rejection during control-flow-graph recovery: a control transfer whose
/// target does not land exactly on a discovered block start, a block that
/// does not end in a terminator, a conditional without its paired jump
/// word, a control word holding a value in an operand field the format
/// fixes at zero, or a code array too long for the wire's address width.
/// Each variant but the last carries the word address at which the
/// violation was found.
#[derive(Clone, Copy, PartialEq, Eq, Structural, Debug)]
pub enum StructuralError {
    TargetNotBlockStart(u32),
    NoTerminator(u32),
    BrokenTerminator(u32),
    NonCanonical(u32),
    CodeTooLong,
}

/// Rejection during encode: a label with no matching block, a transfer
/// with no concrete target, or a value that does not fit its wire width.
/// The first two variants carry the offending label.
#[derive(Clone, Copy, PartialEq, Eq, Structural, Debug)]
pub enum EncodeError {
    DanglingLabel(u32),
    NoConcreteTarget(u32),
    Oversize,
}

} // verus!
