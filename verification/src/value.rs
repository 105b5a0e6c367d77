//! Constant-pool entries and upvalue descriptors.

use vstd::prelude::*;

verus! {

/// A typed constant-pool entry. A float constant is carried as its raw
/// IEEE 754 bit pattern, which keeps the pool byte-exact across a decode
/// and re-encode; a string is an immutable byte string.
#[derive(PartialEq, Eq, Debug)]
pub enum Value {
    Nil,
    Bool(bool),
    Int(i64),
    Float(u64),
    Str(Vec<u8>),
}

/// An upvalue descriptor: whether the upvalue lives on the enclosing
/// function's stack, its slot index, and its kind byte.
#[derive(Clone, Copy, PartialEq, Eq, Structural, Debug)]
pub struct Upvalue {
    pub in_stack: bool,
    pub index: u8,
    pub kind: u8,
}

} // verus!
