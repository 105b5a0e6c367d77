//! The control-flow intermediate representation: raw instructions, jump
//! targets, block terminators, and basic blocks.

use vstd::prelude::*;
use vstd::string::StringExecFns;

verus! {

/// A raw fixed-width instruction: an opcode and four operand fields. The
/// operands are opaque except for control-transfer opcodes, where `d` holds
/// a relative jump offset in two's complement.
#[derive(Clone, Copy, PartialEq, Eq, Structural, Debug)]
pub struct Inst {
    pub op: u8,
    pub a: u8,
    pub b: u8,
    pub c: u8,
    pub d: u32,
}

/// Opcodes `1..=47` are plain (non-control) instructions.
pub const OP_BODY_MAX: u8 = 47;
/// Unconditional jump; `d` is the offset to the target.
pub const OP_JMP: u8 = 48;
/// Conditional jump: `a` is the condition operand, `d` the true-edge offset;
/// the following `OP_JMP` word carries the false edge.
pub const OP_CJMP: u8 = 49;
/// Loop test, with the wire's reversed operand order: `d` is the back-edge
/// (continue) offset; the following `OP_JMP` word carries the exit edge.
pub const OP_LOOP: u8 = 50;
/// Single-successor conditional skip: `a` is the condition, `d` the offset.
pub const OP_LFS: u8 = 51;
/// Return with no operands.
pub const OP_RET0: u8 = 52;
/// Return of a single operand, held in `a`.
pub const OP_RET1: u8 = 53;
/// General return; all four operand fields are meaningful.
pub const OP_RET: u8 = 54;

pub open spec fn is_body_op(op: u8) -> bool {
    1 <= op <= OP_BODY_MAX
}

pub open spec fn is_control_op(op: u8) -> bool {
    OP_JMP <= op <= OP_RET
}

pub open spec fn is_known_op(op: u8) -> bool {
    is_body_op(op) || is_control_op(op)
}

/// Where a control transfer goes: a logical block label, or no concrete
/// target at all.
#[derive(Clone, Copy, PartialEq, Eq, Structural, Debug)]
pub enum Target {
    Label(u32),
    Exit,
}

/// Terminator of a basic block: how execution leaves it. The successor
/// count is fully determined by the variant: two for `Condition` and
/// `Loop`, one for `Unconditional` and `LFalseSkip`, zero for the returns.
/// `Loop` keeps the wire's operand order `(cond, on_false, on_true)`, where
/// `on_false` is the back edge; consumers see the canonical (true, false)
/// order through `Block::get_target_labels`.
#[derive(Clone, Copy, PartialEq, Eq, Structural, Debug)]
pub enum Control {
    Unconditional(Target),
    Condition(u8, Target, Target),
    Loop(u8, Target, Target),
    LFalseSkip(u8, Target),
    Return0,
    Return1(u8),
    Return(u8, u8, u8, u32),
}

/// The label sequence one target contributes: one label, or none.
pub open spec fn target_labels_of(t: Target) -> Seq<u32> {
    match t {
        Target::Label(l) => seq![l],
        Target::Exit => Seq::empty(),
    }
}

/// The successor labels of a terminator, in canonical (true, false) order.
pub open spec fn edge_label_seq(c: Control) -> Seq<u32> {
    match c {
        Control::Unconditional(t) => target_labels_of(t),
        Control::Condition(_, on_true, on_false) => target_labels_of(on_true)
            + target_labels_of(on_false),
        Control::Loop(_, on_false, on_true) => target_labels_of(on_true)
            + target_labels_of(on_false),
        Control::LFalseSkip(_, t) => target_labels_of(t),
        Control::Return0 => Seq::empty(),
        Control::Return1(_) => Seq::empty(),
        Control::Return(_, _, _, _) => Seq::empty(),
    }
}

/// The number of control-flow-graph edges a terminator variant implies.
pub open spec fn successor_count(c: Control) -> int {
    match c {
        Control::Unconditional(_) => 1,
        Control::Condition(_, _, _) => 2,
        Control::Loop(_, _, _) => 2,
        Control::LFalseSkip(_, _) => 1,
        Control::Return0 => 0,
        Control::Return1(_) => 0,
        Control::Return(_, _, _, _) => 0,
    }
}

/// Every target of the terminator is a concrete label.
pub open spec fn all_targets_concrete(c: Control) -> bool {
    match c {
        Control::Unconditional(t) => t is Label,
        Control::Condition(_, on_true, on_false) => on_true is Label && on_false is Label,
        Control::Loop(_, on_false, on_true) => on_false is Label && on_true is Label,
        Control::LFalseSkip(_, t) => t is Label,
        Control::Return0 => true,
        Control::Return1(_) => true,
        Control::Return(_, _, _, _) => true,
    }
}

/// For every block whose targets are all concrete labels, the number of
/// successor labels it exposes equals the count implied by its terminator
/// variant: zero for the returns, one for `Unconditional` and `LFalseSkip`,
/// two for `Condition` and `Loop`.
pub proof fn lemma_edge_count(c: Control)
    requires
        all_targets_concrete(c),
    ensures
        edge_label_seq(c).len() == successor_count(c),
{
}

/// A basic block: a label unique within its function, an ordered body of
/// non-terminator instructions, and exactly one terminator.
#[derive(PartialEq, Eq, Debug)]
pub struct Block {
    pub label: u32,
    pub body: Vec<Inst>,
    pub edge: Control,
}

/// The decimal digits of `n`, most significant first.
pub open spec fn dec_digits(n: u32) -> Seq<char>
    decreases n,
{
    if n < 10 {
        seq![digit_char(n as int)]
    } else {
        dec_digits(n / 10).push(digit_char((n % 10) as int))
    }
}

pub open spec fn digit_char(d: int) -> char {
    if d == 0 {
        '0'
    } else if d == 1 {
        '1'
    } else if d == 2 {
        '2'
    } else if d == 3 {
        '3'
    } else if d == 4 {
        '4'
    } else if d == 5 {
        '5'
    } else if d == 6 {
        '6'
    } else if d == 7 {
        '7'
    } else if d == 8 {
        '8'
    } else {
        '9'
    }
}

/// The display name of a block with label `l`.
pub open spec fn spec_block_name(l: u32) -> Seq<char> {
    "Block "@ + dec_digits(l)
}

fn digit_str(d: u32) -> (r: &'static str)
    requires
        d < 10,
    ensures
        r@ == seq![digit_char(d as int)],
{
    proof {
        reveal_strlit("0");
        reveal_strlit("1");
        reveal_strlit("2");
        reveal_strlit("3");
        reveal_strlit("4");
        reveal_strlit("5");
        reveal_strlit("6");
        reveal_strlit("7");
        reveal_strlit("8");
        reveal_strlit("9");
    }
    match d {
        0 => "0",
        1 => "1",
        2 => "2",
        3 => "3",
        4 => "4",
        5 => "5",
        6 => "6",
        7 => "7",
        8 => "8",
        _ => "9",
    }
}

/// `n` written in decimal.
pub fn dec_string(n: u32) -> (r: String)
    ensures
        r@ == dec_digits(n),
    decreases n,
{
    if n < 10 {
        digit_str(n).to_owned()
    } else {
        let mut s = dec_string(n / 10);
        s.append(digit_str(n % 10));
        assert(s@ == dec_digits(n / 10).push(digit_char((n % 10) as int)));
        s
    }
}

impl Block {
    pub fn new(label: u32, body: Vec<Inst>, edge: Control) -> (r: Block)
        ensures
            r.label == label,
            r.body == body,
            r.edge == edge,
    {
        Block { label, body, edge }
    }

    /// The block's display name: `Block` followed by its label in decimal.
    pub fn name(&self) -> (r: String)
        ensures
            r@ == spec_block_name(self.label),
    {
        proof {
            reveal_strlit("Block ");
        }
        let mut s = <String as StringExecFns>::from_str("Block ");
        let digits = dec_string(self.label);
        s.append(digits.as_str());
        s
    }

    /// Whether the block's terminator is an unconditional transfer.
    pub fn is_unconditionnal(&self) -> (r: bool)
        ensures
            r == (self.edge is Unconditional),
    {
        match &self.edge {
            Control::Unconditional(_) => true,
            _ => false,
        }
    }

    /// The labels of the block's successors, in canonical (true, false)
    /// order; targets without a concrete label contribute nothing.
    pub fn get_target_labels(&self) -> (r: Vec<u32>)
        ensures
            r@ == edge_label_seq(self.edge),
    {
        let mut ret: Vec<u32> = Vec::new();
        match &self.edge {
            Control::Condition(_, on_true, on_false) => {
                match on_true {
                    Target::Label(to_label) => {
                        ret.push(*to_label);
                    },
                    _ => {},
                }
                match on_false {
                    Target::Label(to_label) => {
                        ret.push(*to_label);
                    },
                    _ => {},
                }
            },
            Control::Unconditional(target) => {
                match target {
                    Target::Label(to_label) => {
                        ret.push(*to_label);
                    },
                    _ => {},
                }
            },
            Control::Loop(_, on_false, on_true) => {
                match on_true {
                    Target::Label(to_label) => {
                        ret.push(*to_label);
                    },
                    _ => {},
                }
                match on_false {
                    Target::Label(to_label) => {
                        ret.push(*to_label);
                    },
                    _ => {},
                }
            },
            Control::LFalseSkip(_, target) => {
                match target {
                    Target::Label(to_label) => {
                        ret.push(*to_label);
                    },
                    _ => {},
                }
            },
            _ => {},
        }
        proof {
            assert(ret@ =~= edge_label_seq(self.edge));
        }
        ret
    }
}

} // verus!
