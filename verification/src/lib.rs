//! A bytecode toolkit for a scripting-language virtual machine's compiled
//! module format: a binary decoder and encoder, a control-flow-block
//! intermediate representation, a mutation engine that reorders the IR's
//! positional containers, and a devirtualizer that collapses jump-trampoline
//! chains.

pub mod cfg;
pub mod devirt;
pub mod dumper;
pub mod errors;
pub mod function;
pub mod ir;
pub mod loader;
pub mod mutate;
pub mod lower;
pub mod proto;
pub mod value;
pub mod wire;
