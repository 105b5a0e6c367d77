//! Linearization: turning a block-structured function back into the
//! wire-shaped record. Blocks are laid out in their stored order — a
//! mutation pass may have reordered them, and that order is honored — each
//! block gets the word address that order gives it, and every terminator is
//! lowered to control words whose offset field is recomputed relative to
//! the jumping word's own successor address.

use vstd::prelude::*;
use vstd::arithmetic::div_mod::lemma_mod_multiples_vanish;
use crate::errors::EncodeError;
use crate::function::{
    function_view, functions_view, labels_unique, lemma_functions_view_index, Function, FunctionV,
};
use crate::ir::{Block, Control, Inst, Target, OP_CJMP, OP_JMP, OP_LFS, OP_LOOP, OP_RET, OP_RET0,
    OP_RET1};
use crate::proto::{protos_view, Proto, ProtoV};
use crate::value::{Upvalue, Value};

verus! {

/// Words a terminator occupies on the wire: the two-successor forms carry
/// a paired jump word.
pub open spec fn term_size(c: Control) -> int {
    match c {
        Control::Condition(_, _, _) => 2,
        Control::Loop(_, _, _) => 2,
        _ => 1,
    }
}

/// Words one block occupies: its body and its terminator.
pub open spec fn block_size(b: Block) -> int {
    b.body@.len() + term_size(b.edge)
}

/// Word address of block `i` in the stored order: the running sum of the
/// sizes of the blocks before it.
pub open spec fn block_addr(blocks: Seq<Block>, i: int) -> int
    decreases i,
{
    if i <= 0 {
        0
    } else {
        block_addr(blocks, i - 1) + block_size(blocks[i - 1])
    }
}

/// Addresses grow with the index.
pub proof fn lemma_block_addr_mono(blocks: Seq<Block>, i: int, j: int)
    requires
        0 <= i <= j,
    ensures
        block_addr(blocks, i) <= block_addr(blocks, j),
    decreases j - i,
{
    if i < j {
        lemma_block_addr_mono(blocks, i, j - 1);
    }
}

/// The index of the block carrying label `l`; meaningful when labels are
/// unique and some block carries `l`.
pub open spec fn index_of_label(blocks: Seq<Block>, l: u32) -> int {
    choose|i: int| 0 <= i < blocks.len() && (#[trigger] blocks[i]).label == l
}

/// The word address the stored order assigns to label `l`.
pub open spec fn label_addr(blocks: Seq<Block>, l: u32) -> int {
    block_addr(blocks, index_of_label(blocks, l))
}

/// The offset field of a jump word at `pc` whose target sits at `target`:
/// the difference to the word after the jump, in 32-bit two's complement.
pub open spec fn rel_offset(target: int, pc: int) -> u32 {
    (((target - (pc + 1)) % 0x1_0000_0000) as u32)
}

/// An unconditional jump word with offset `d`.
pub open spec fn jmp_inst(d: u32) -> Inst {
    Inst { op: OP_JMP, a: 0, b: 0, c: 0, d }
}

/// The control words of a terminator at word address `pc`, or nothing when
/// a target is not a concrete label of the list. `Loop` goes back out in
/// the wire's operand order: its own word carries the back edge, the
/// paired jump the exit edge.
pub open spec fn lower_edge(blocks: Seq<Block>, c: Control, pc: int) -> Option<Seq<Inst>> {
    match c {
        Control::Unconditional(Target::Label(l)) => if has_label_s(blocks, l) {
            Some(seq![jmp_inst(rel_offset(label_addr(blocks, l), pc))])
        } else {
            Option::<Seq<Inst>>::None
        },
        Control::Unconditional(Target::Exit) => Option::<Seq<Inst>>::None,
        Control::Condition(cond, Target::Label(t), Target::Label(f)) => if has_label_s(blocks, t)
            && has_label_s(blocks, f) {
            Some(
                seq![
                    Inst { op: OP_CJMP, a: cond, b: 0, c: 0, d: rel_offset(label_addr(blocks, t), pc) },
                    jmp_inst(rel_offset(label_addr(blocks, f), pc + 1)),
                ],
            )
        } else {
            Option::<Seq<Inst>>::None
        },
        Control::Condition(_, _, _) => Option::<Seq<Inst>>::None,
        Control::Loop(cond, Target::Label(f), Target::Label(t)) => if has_label_s(blocks, f)
            && has_label_s(blocks, t) {
            Some(
                seq![
                    Inst { op: OP_LOOP, a: cond, b: 0, c: 0, d: rel_offset(label_addr(blocks, f), pc) },
                    jmp_inst(rel_offset(label_addr(blocks, t), pc + 1)),
                ],
            )
        } else {
            Option::<Seq<Inst>>::None
        },
        Control::Loop(_, _, _) => Option::<Seq<Inst>>::None,
        Control::LFalseSkip(cond, Target::Label(t)) => if has_label_s(blocks, t) {
            Some(
                seq![Inst { op: OP_LFS, a: cond, b: 0, c: 0, d: rel_offset(label_addr(blocks, t), pc) }],
            )
        } else {
            Option::<Seq<Inst>>::None
        },
        Control::LFalseSkip(_, Target::Exit) => Option::<Seq<Inst>>::None,
        Control::Return0 => Some(seq![Inst { op: OP_RET0, a: 0, b: 0, c: 0, d: 0 }]),
        Control::Return1(x) => Some(seq![Inst { op: OP_RET1, a: x, b: 0, c: 0, d: 0 }]),
        Control::Return(a, b, c, d) => Some(seq![Inst { op: OP_RET, a, b, c, d }]),
    }
}

/// Some block of the list carries label `l` (the same statement as
/// `crate::function::has_label`, repeated here as the guard the lowering
/// spec branches on).
pub open spec fn has_label_s(blocks: Seq<Block>, l: u32) -> bool {
    exists|i: int| 0 <= i < blocks.len() && (#[trigger] blocks[i]).label == l
}

/// The instruction words of the first `i` blocks, or nothing once any
/// terminator fails to lower.
pub open spec fn lower_prefix(blocks: Seq<Block>, i: int) -> Option<Seq<Inst>>
    decreases i,
{
    if i <= 0 {
        Some(Seq::empty())
    } else {
        match (
            lower_prefix(blocks, i - 1),
            lower_edge(blocks, blocks[i - 1].edge, block_addr(blocks, i - 1) + blocks[i - 1].body@.len()),
        ) {
            (Some(pre), Some(term)) => Some(pre + blocks[i - 1].body@ + term),
            _ => Option::<Seq<Inst>>::None,
        }
    }
}

/// Once a block fails to lower, every longer prefix fails too.
pub proof fn lemma_lower_prefix_none(blocks: Seq<Block>, i: int, j: int)
    requires
        0 <= i <= j,
        lower_prefix(blocks, i) is None,
    ensures
        lower_prefix(blocks, j) is None,
    decreases j - i,
{
    if i < j {
        lemma_lower_prefix_none(blocks, i, j - 1);
    }
}

/// The constant a keyed pool entry carries.
pub open spec fn value_of_kv() -> spec_fn((u64, Value)) -> Value {
    |kv: (u64, Value)| kv.1
}

/// The descriptor a keyed upvalue entry carries.
pub open spec fn upval_of_kv() -> spec_fn((u64, Upvalue)) -> Upvalue {
    |kv: (u64, Upvalue)| kv.1
}

/// Linearization of one function: blocks in stored order become the code
/// array, pools drop their keys but keep their stored order, children are
/// linearized recursively. Nothing when a terminator target dangles, a
/// target is not concrete, or the code would outgrow the 32-bit address
/// space.
pub open spec fn spec_lower_function(f: FunctionV) -> Option<ProtoV>
    decreases f,
{
    if block_addr(f.block_list, f.block_list.len() as int) > 0xFFFF_FFFF {
        Option::<ProtoV>::None
    } else {
        match (
            lower_prefix(f.block_list, f.block_list.len() as int),
            spec_lower_children(f.child_list),
        ) {
            (Some(code), Some(kids)) => Some(
                ProtoV {
                    param_count: f.param_count,
                    flags: f.flags,
                    code,
                    value_list: f.value_list.map_values(value_of_kv()),
                    upval_list: f.upval_list.map_values(upval_of_kv()),
                    child_list: kids,
                    line_info: f.line_info,
                },
            ),
            _ => Option::<ProtoV>::None,
        }
    }
}

/// Linearization of a keyed child list, in order.
pub open spec fn spec_lower_children(s: Seq<(u64, FunctionV)>) -> Option<Seq<ProtoV>>
    decreases s,
{
    if s.len() == 0 {
        Some(Seq::empty())
    } else {
        match (spec_lower_function(s[0].1), spec_lower_children(s.drop_first())) {
            (Some(p), Some(rest)) => Some(seq![p] + rest),
            _ => Option::<Seq<ProtoV>>::None,
        }
    }
}

/// Lowering one more child appends its record, and fails exactly when the
/// child or the rest fails.
pub proof fn lemma_lower_children_push(s: Seq<(u64, FunctionV)>, x: (u64, FunctionV))
    ensures
        spec_lower_children(s.push(x)) == match (spec_lower_children(s), spec_lower_function(x.1)) {
            (Some(a), Some(p)) => Some(a.push(p)),
            _ => Option::<Seq<ProtoV>>::None,
        },
    decreases s.len(),
{
    if s.len() == 0 {
        assert(s.push(x)[0] == x);
        assert(s.push(x).drop_first() =~= Seq::<(u64, FunctionV)>::empty());
        assert(spec_lower_children(Seq::<(u64, FunctionV)>::empty()) == Some(
            Seq::<ProtoV>::empty(),
        ));
        assert(spec_lower_children(s) == Some(Seq::<ProtoV>::empty()));
        match spec_lower_function(x.1) {
            Some(p) => {
                assert(seq![p] + Seq::<ProtoV>::empty() =~= Seq::<ProtoV>::empty().push(p));
                assert(spec_lower_children(s.push(x)) == Some(Seq::<ProtoV>::empty().push(p)));
            },
            None => {
                assert(spec_lower_children(s.push(x)) is None);
            },
        }
    } else {
        assert(s.push(x)[0] == s[0]);
        assert(s.push(x).drop_first() =~= s.drop_first().push(x));
        lemma_lower_children_push(s.drop_first(), x);
        match (spec_lower_function(s[0].1), spec_lower_children(s.drop_first()), spec_lower_function(
            x.1,
        )) {
            (Some(p0), Some(rest), Some(p)) => {
                assert(spec_lower_children(s.drop_first().push(x)) == Some(rest.push(p)));
                assert(spec_lower_children(s) == Some(seq![p0] + rest));
                assert(seq![p0] + rest.push(p) =~= (seq![p0] + rest).push(p));
                assert(spec_lower_children(s.push(x)) == Some((seq![p0] + rest).push(p)));
            },
            _ => {
                assert(spec_lower_children(s.push(x)) is None);
            },
        }
    }
}

/// A fresh copy of an instruction array.
fn copy_insts(v: &Vec<Inst>) -> (r: Vec<Inst>)
    ensures
        r@ == v@,
{
    let mut r: Vec<Inst> = Vec::new();
    let mut i: usize = 0;
    while i < v.len()
        invariant
            i <= v@.len(),
            r@ == v@.take(i as int),
        decreases v@.len() - i,
    {
        r.push(v[i]);
        proof {
            assert(v@.take(i + 1) =~= v@.take(i as int).push(v@[i as int]));
        }
        i = i + 1;
    }
    proof {
        assert(v@.take(v@.len() as int) =~= v@);
    }
    r
}

/// The index of the block carrying label `l`, if any.
fn find_label_idx(blocks: &Vec<Block>, l: u32) -> (r: Option<usize>)
    ensures
        match r {
            Some(i) => i < blocks@.len() && blocks@[i as int].label == l,
            None => !has_label_s(blocks@, l),
        },
{
    let mut i: usize = 0;
    while i < blocks.len()
        invariant
            i <= blocks@.len(),
            forall|j: int| 0 <= j < i ==> (#[trigger] blocks@[j]).label != l,
        decreases blocks@.len() - i,
    {
        if blocks[i].label == l {
            return Some(i);
        }
        i = i + 1;
    }
    None
}

/// The word addresses the stored order assigns, or the refusal when the
/// code would outgrow the 32-bit address space.
fn compute_addrs(blocks: &Vec<Block>) -> (r: Result<Vec<u32>, EncodeError>)
    ensures
        match r {
            Ok(addrs) => addrs@.len() == blocks@.len() && (forall|j: int|
                0 <= j < blocks@.len() ==> addrs@[j] == block_addr(blocks@, j)) && block_addr(
                blocks@,
                blocks@.len() as int,
            ) <= 0xFFFF_FFFF,
            Err(e) => e == EncodeError::Oversize && block_addr(
                blocks@,
                blocks@.len() as int,
            ) > 0xFFFF_FFFF,
        },
{
    let mut addrs: Vec<u32> = Vec::new();
    let mut total: u64 = 0;
    let mut i: usize = 0;
    while i < blocks.len()
        invariant
            i <= blocks@.len(),
            addrs@.len() == i as int,
            forall|j: int| 0 <= j < i ==> addrs@[j] == block_addr(blocks@, j),
            total == block_addr(blocks@, i as int),
            total <= 0xFFFF_FFFF,
        decreases blocks@.len() - i,
    {
        addrs.push(total as u32);
        let b = &blocks[i];
        let ts: u64 = match &b.edge {
            Control::Condition(_, _, _) => 2,
            Control::Loop(_, _, _) => 2,
            _ => 1,
        };
        let size: u64 = b.body.len() as u64;
        if size > 0xFFFF_FFFFu64 || total + ts + size > 0xFFFF_FFFFu64 {
            proof {
                lemma_block_addr_mono(blocks@, i + 1, blocks@.len() as int);
            }
            return Err(EncodeError::Oversize);
        }
        total = total + size + ts;
        i = i + 1;
    }
    Ok(addrs)
}

/// The offset field for a jump word at `pc` targeting address `t`.
fn rel_off(t: u32, pc: u64) -> (r: u32)
    requires
        pc + 1 <= 0x1_0000_0000,
    ensures
        r == rel_offset(t as int, pc as int),
{
    let d64 = (t as u64 + 0x1_0000_0000 - (pc + 1)) % 0x1_0000_0000;
    proof {
        lemma_mod_multiples_vanish(1, t as int - (pc as int + 1), 0x1_0000_0000);
    }
    d64 as u32
}

/// Emits the code array of one function: every block's body in stored
/// order, each followed by its lowered terminator.
#[verifier::rlimit(100)]
fn emit_code(block_list: &Vec<Block>, addrs: &Vec<u32>) -> (r: Result<Vec<Inst>, EncodeError>)
    requires
        labels_unique(block_list@),
        addrs@.len() == block_list@.len(),
        forall|j: int| 0 <= j < block_list@.len() ==> addrs@[j] == block_addr(block_list@, j),
        block_addr(block_list@, block_list@.len() as int) <= 0xFFFF_FFFF,
    ensures
        match r {
            Ok(code) => lower_prefix(block_list@, block_list@.len() as int) == Some(code@),
            Err(e) => lower_prefix(block_list@, block_list@.len() as int) is None && match e {
                EncodeError::DanglingLabel(l) => !has_label_s(block_list@, l),
                EncodeError::NoConcreteTarget(l) => exists|i: int|
                    0 <= i < block_list@.len() && (#[trigger] block_list@[i]).label == l
                        && !crate::ir::all_targets_concrete(block_list@[i].edge),
                EncodeError::Oversize => false,
            },
        },
{
    let ghost blocks: Seq<Block> = block_list@;
    let mut code: Vec<Inst> = Vec::new();
    let mut i: usize = 0;
    while i < block_list.len()
        invariant
            i <= blocks.len(),
            blocks == block_list@,
            labels_unique(blocks),
            addrs@.len() == blocks.len(),
            forall|j: int| 0 <= j < blocks.len() ==> addrs@[j] == block_addr(blocks, j),
            block_addr(blocks, blocks.len() as int) <= 0xFFFF_FFFF,
            lower_prefix(blocks, i as int) == Some(code@),
        decreases blocks.len() - i,
    {
        let b = &block_list[i];
        let ghost pre: Seq<Inst> = code@;
        let mut body_copy = copy_insts(&b.body);
        code.append(&mut body_copy);
        proof {
            lemma_block_addr_mono(blocks, i + 1, blocks.len() as int);
        }
        let pc: u64 = addrs[i] as u64 + b.body.len() as u64;
        proof {
            assert(pc as int == block_addr(blocks, i as int) + b.body@.len());
            assert(pc as int + term_size(b.edge) <= 0xFFFF_FFFF);
        }
        match &b.edge {
            Control::Unconditional(t) => {
                match t {
                    Target::Label(l) => {
                        let ti = match find_label_idx(block_list, *l) {
                            Some(ti) => ti,
                            None => {
                                proof {
                                    lemma_lower_prefix_none(blocks, i + 1, blocks.len() as int);
                                }
                                return Err(EncodeError::DanglingLabel(*l));
                            },
                        };
                        proof {
                            assert(index_of_label(blocks, *l) == ti as int);
                        }
                        let d = rel_off(addrs[ti], pc);
                        code.push(Inst { op: OP_JMP, a: 0, b: 0, c: 0, d });
                        proof {
                            assert(code@ =~= pre + b.body@ + seq![jmp_inst(d)]);
                        }
                    },
                    Target::Exit => {
                        proof {
                            lemma_lower_prefix_none(blocks, i + 1, blocks.len() as int);
                            assert(blocks[i as int].label == b.label);
                            assert(!crate::ir::all_targets_concrete(b.edge));
                        }
                        return Err(EncodeError::NoConcreteTarget(b.label));
                    },
                }
            },
            Control::Condition(cond, t1, t2) => {
                match (t1, t2) {
                    (Target::Label(lt), Target::Label(lf)) => {
                        let ti = match find_label_idx(block_list, *lt) {
                            Some(ti) => ti,
                            None => {
                                proof {
                                    lemma_lower_prefix_none(blocks, i + 1, blocks.len() as int);
                                }
                                return Err(EncodeError::DanglingLabel(*lt));
                            },
                        };
                        let fi = match find_label_idx(block_list, *lf) {
                            Some(fi) => fi,
                            None => {
                                proof {
                                    lemma_lower_prefix_none(blocks, i + 1, blocks.len() as int);
                                }
                                return Err(EncodeError::DanglingLabel(*lf));
                            },
                        };
                        proof {
                            assert(index_of_label(blocks, *lt) == ti as int);
                            assert(index_of_label(blocks, *lf) == fi as int);
                        }
                        let d1 = rel_off(addrs[ti], pc);
                        let d2 = rel_off(addrs[fi], pc + 1);
                        code.push(Inst { op: OP_CJMP, a: *cond, b: 0, c: 0, d: d1 });
                        code.push(Inst { op: OP_JMP, a: 0, b: 0, c: 0, d: d2 });
                        proof {
                            assert(code@ =~= pre + b.body@ + seq![
                                Inst { op: OP_CJMP, a: *cond, b: 0, c: 0, d: d1 },
                                jmp_inst(d2),
                            ]);
                        }
                    },
                    _ => {
                        proof {
                            lemma_lower_prefix_none(blocks, i + 1, blocks.len() as int);
                            assert(blocks[i as int].label == b.label);
                            assert(!crate::ir::all_targets_concrete(b.edge));
                        }
                        return Err(EncodeError::NoConcreteTarget(b.label));
                    },
                }
            },
            Control::Loop(cond, t1, t2) => {
                match (t1, t2) {
                    (Target::Label(lf), Target::Label(lt)) => {
                        let fi = match find_label_idx(block_list, *lf) {
                            Some(fi) => fi,
                            None => {
                                proof {
                                    lemma_lower_prefix_none(blocks, i + 1, blocks.len() as int);
                                }
                                return Err(EncodeError::DanglingLabel(*lf));
                            },
                        };
                        let ti = match find_label_idx(block_list, *lt) {
                            Some(ti) => ti,
                            None => {
                                proof {
                                    lemma_lower_prefix_none(blocks, i + 1, blocks.len() as int);
                                }
                                return Err(EncodeError::DanglingLabel(*lt));
                            },
                        };
                        proof {
                            assert(index_of_label(blocks, *lf) == fi as int);
                            assert(index_of_label(blocks, *lt) == ti as int);
                        }
                        let d1 = rel_off(addrs[fi], pc);
                        let d2 = rel_off(addrs[ti], pc + 1);
                        code.push(Inst { op: OP_LOOP, a: *cond, b: 0, c: 0, d: d1 });
                        code.push(Inst { op: OP_JMP, a: 0, b: 0, c: 0, d: d2 });
                        proof {
                            assert(code@ =~= pre + b.body@ + seq![
                                Inst { op: OP_LOOP, a: *cond, b: 0, c: 0, d: d1 },
                                jmp_inst(d2),
                            ]);
                        }
                    },
                    _ => {
                        proof {
                            lemma_lower_prefix_none(blocks, i + 1, blocks.len() as int);
                            assert(blocks[i as int].label == b.label);
                            assert(!crate::ir::all_targets_concrete(b.edge));
                        }
                        return Err(EncodeError::NoConcreteTarget(b.label));
                    },
                }
            },
            Control::LFalseSkip(cond, t) => {
                match t {
                    Target::Label(l) => {
                        let ti = match find_label_idx(block_list, *l) {
                            Some(ti) => ti,
                            None => {
                                proof {
                                    lemma_lower_prefix_none(blocks, i + 1, blocks.len() as int);
                                }
                                return Err(EncodeError::DanglingLabel(*l));
                            },
                        };
                        proof {
                            assert(index_of_label(blocks, *l) == ti as int);
                        }
                        let d = rel_off(addrs[ti], pc);
                        code.push(Inst { op: OP_LFS, a: *cond, b: 0, c: 0, d });
                        proof {
                            assert(code@ =~= pre + b.body@ + seq![
                                Inst { op: OP_LFS, a: *cond, b: 0, c: 0, d },
                            ]);
                        }
                    },
                    Target::Exit => {
                        proof {
                            lemma_lower_prefix_none(blocks, i + 1, blocks.len() as int);
                            assert(blocks[i as int].label == b.label);
                            assert(!crate::ir::all_targets_concrete(b.edge));
                        }
                        return Err(EncodeError::NoConcreteTarget(b.label));
                    },
                }
            },
            Control::Return0 => {
                code.push(Inst { op: OP_RET0, a: 0, b: 0, c: 0, d: 0 });
                proof {
                    assert(code@ =~= pre + b.body@ + seq![
                        Inst { op: OP_RET0, a: 0, b: 0, c: 0, d: 0 },
                    ]);
                }
            },
            Control::Return1(x) => {
                code.push(Inst { op: OP_RET1, a: *x, b: 0, c: 0, d: 0 });
                proof {
                    assert(code@ =~= pre + b.body@ + seq![
                        Inst { op: OP_RET1, a: *x, b: 0, c: 0, d: 0 },
                    ]);
                }
            },
            Control::Return(x, y, z, w) => {
                code.push(Inst { op: OP_RET, a: *x, b: *y, c: *z, d: *w });
                proof {
                    assert(code@ =~= pre + b.body@ + seq![
                        Inst { op: OP_RET, a: *x, b: *y, c: *z, d: *w },
                    ]);
                }
            },
        }
        i = i + 1;
    }
    Ok(code)
}

impl Proto {
    /// Linearizes a block-structured function into the wire shape it will
    /// be written in: blocks in their stored order, addresses assigned by
    /// that order, jump offsets recomputed against those addresses, pools
    /// and children in their stored order with keys dropped. Fails exactly
    /// when an edge target has no matching block or is not concrete, or
    /// the code outgrows the wire's address width, here or in a child; the
    /// error names the dangling target label or the label of the offending
    /// block.
    pub fn from_function(f: Function) -> (r: Result<Proto, EncodeError>)
        requires
            labels_unique_rec(f@),
        ensures
            match r {
                Ok(p) => spec_lower_function(f@) == Some(p@),
                Err(e) => spec_lower_function(f@) is None && match e {
                    EncodeError::Oversize => block_addr(
                        f@.block_list,
                        f@.block_list.len() as int,
                    ) > 0xFFFF_FFFF || spec_lower_children(f@.child_list) is None,
                    EncodeError::DanglingLabel(l) => !has_label_s(f@.block_list, l)
                        || spec_lower_children(f@.child_list) is None,
                    EncodeError::NoConcreteTarget(l) => (exists|i: int|
                        0 <= i < f@.block_list.len() && (#[trigger] f@.block_list[i]).label == l
                            && !crate::ir::all_targets_concrete(f@.block_list[i].edge))
                        || spec_lower_children(f@.child_list) is None,
                },
            },
        decreases f,
    {
        let ghost forig: Function = f;
        let ghost fv: FunctionV = f@;
        let param_count = f.param_count;
        let flags = f.flags;
        let block_list = f.block_list;
        let mut child_list = f.child_list;
        let upval_list = f.upval_list;
        let mut value_list = f.value_list;
        let line_info = f.line_info;
        proof {
            assert(fv.block_list == block_list@);
            assert(fv.child_list == functions_view(child_list@));
            assert(fv.upval_list == upval_list@);
            assert(fv.value_list == value_list@);
            assert(fv.line_info == line_info@);
        }
        let addrs = match compute_addrs(&block_list) {
            Ok(a) => a,
            Err(e) => {
                return Err(e);
            },
        };
        let code = match emit_code(&block_list, &addrs) {
            Ok(c) => c,
            Err(e) => {
                return Err(e);
            },
        };
        // constant pool, keys dropped, order kept
        let ghost vorig: Seq<(u64, Value)> = value_list@;
        let mut values: Vec<Value> = Vec::new();
        while value_list.len() > 0
            invariant
                values@.len() + value_list@.len() == vorig.len(),
                value_list@ == vorig.skip(values@.len() as int),
                values@ == vorig.take(values@.len() as int).map_values(value_of_kv()),
            decreases value_list@.len(),
        {
            let ghost k: int = values@.len() as int;
            let kv = value_list.remove(0);
            proof {
                assert(kv == vorig[k]);
                assert(vorig.skip(k).remove(0) =~= vorig.skip(k + 1));
            }
            values.push(kv.1);
            proof {
                assert(vorig.take(k + 1) =~= vorig.take(k).push(vorig[k]));
                assert(values@ =~= vorig.take(k + 1).map_values(value_of_kv()));
            }
        }
        proof {
            assert(vorig.take(vorig.len() as int) =~= vorig);
        }
        // upvalue descriptors, keys dropped, order kept
        let mut upvals: Vec<Upvalue> = Vec::new();
        let mut ui: usize = 0;
        while ui < upval_list.len()
            invariant
                ui <= upval_list@.len(),
                upvals@ == upval_list@.take(ui as int).map_values(upval_of_kv()),
            decreases upval_list@.len() - ui,
        {
            upvals.push(upval_list[ui].1);
            proof {
                assert(upval_list@.take(ui + 1) =~= upval_list@.take(ui as int).push(
                    upval_list@[ui as int],
                ));
                assert(upvals@ =~= upval_list@.take(ui + 1).map_values(upval_of_kv()));
            }
            ui = ui + 1;
        }
        proof {
            assert(upval_list@.take(upval_list@.len() as int) =~= upval_list@);
        }
        // children, recursively, order kept
        let ghost corig: Seq<(u64, Function)> = child_list@;
        proof {
            lemma_functions_view_index(corig);
        }
        let mut children: Vec<Proto> = Vec::new();
        while child_list.len() > 0
            invariant
                corig == f.child_list@,
                children@.len() + child_list@.len() == corig.len(),
                child_list@ == corig.skip(children@.len() as int),
                fv.child_list == functions_view(corig),
                fv.child_list.len() == corig.len(),
                forall|j: int|
                    0 <= j < corig.len() ==> fv.child_list[j] == (
                        (#[trigger] corig[j]).0,
                        function_view(corig[j].1),
                    ),
                labels_unique_rec(fv),
                spec_lower_children(fv.child_list.take(children@.len() as int)) == Some(
                    protos_view(children@),
                ),
            decreases child_list@.len(),
        {
            let ghost k: int = children@.len() as int;
            let kv = child_list.remove(0);
            proof {
                assert(kv == corig[k]);
                assert(corig.skip(k).remove(0) =~= corig.skip(k + 1));
                assert(kv.1 == f.child_list@[k].1);
                assert(decreases_to!(f => f.child_list@[k].1));
            }
            let child = match Proto::from_function(kv.1) {
                Ok(c) => c,
                Err(e) => {
                    proof {
                        assert(fv.child_list[k].1 == function_view(corig[k].1));
                        lemma_lower_children_none(fv.child_list, k);
                    }
                    return Err(e);
                },
            };
            proof {
                crate::proto::lemma_protos_view_push(children@, child);
                assert(fv.child_list.take(k + 1) =~= fv.child_list.take(k).push(fv.child_list[k]));
                lemma_lower_children_push(fv.child_list.take(k), fv.child_list[k]);
            }
            children.push(child);
        }
        proof {
            assert(fv.child_list.take(fv.child_list.len() as int) =~= fv.child_list);
        }
        let p = Proto {
            param_count,
            flags,
            code,
            value_list: values,
            upval_list: upvals,
            child_list: children,
            line_info,
        };
        proof {
            assert(spec_lower_function(fv) == Some(p@));
        }
        Ok(p)
    }
}

/// Once one child fails to lower, the whole list fails.
pub proof fn lemma_lower_children_none(s: Seq<(u64, FunctionV)>, i: int)
    requires
        0 <= i < s.len(),
        spec_lower_function(s[i].1) is None,
    ensures
        spec_lower_children(s) is None,
    decreases s.len(),
{
    if i == 0 {
    } else {
        assert(s.drop_first()[i - 1] == s[i]);
        lemma_lower_children_none(s.drop_first(), i - 1);
    }
}

/// Block labels are unique in this function and in every child.
pub open spec fn labels_unique_rec(f: FunctionV) -> bool
    decreases f,
{
    &&& labels_unique(f.block_list)
    &&& (forall|i: int|
        0 <= i < f.child_list.len() ==> labels_unique_rec((#[trigger] f.child_list[i]).1))
}


} // verus!

