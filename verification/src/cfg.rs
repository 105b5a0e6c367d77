//! Control-flow-graph recovery: turning the flat instruction stream of a
//! wire-shaped record into labeled basic blocks. A block starts at address
//! zero, at every jump target, and right after every terminator; each
//! block's span must end in exactly one terminator, and every computed
//! target must land exactly on a discovered block start. Recovery inverts
//! linearization: lowering the recovered function reproduces the record.

use vstd::prelude::*;
use vstd::arithmetic::div_mod::{lemma_small_mod, lemma_sub_mod_noop, lemma_sub_mod_noop_right};
use crate::errors::StructuralError;
use crate::function::{
    function_view, functions_view, has_label, labels_unique, lemma_functions_view_index,
    lemma_functions_view_push, wf_function, Function,
};
use crate::ir::{Block, Control, Inst, Target, OP_BODY_MAX, OP_CJMP, OP_JMP, OP_LFS, OP_LOOP,
    OP_RET, OP_RET0, OP_RET1};
use crate::lower::{
    block_addr, block_size, has_label_s, index_of_label, jmp_inst, label_addr,
    lemma_lower_children_push, lower_edge, lower_prefix, rel_offset, spec_lower_children,
    spec_lower_function, term_size, upval_of_kv, value_of_kv,
};
use crate::proto::{lemma_protos_view_index, lemma_protos_view_push, proto_view, protos_view,
    Proto};
use crate::value::{Upvalue, Value};

verus! {

/// The address a jump word at `pc` with offset field `d` transfers to.
pub open spec fn target_of(pc: int, d: u32) -> int {
    (pc + 1 + d) % 0x1_0000_0000
}

/// Recomputing the offset of a decoded target gives the original field
/// back: the wire's offsets round-trip through labels.
pub proof fn lemma_offset_roundtrip(pc: int, d: u32)
    requires
        0 <= pc,
        pc + 1 < 0x1_0000_0000,
    ensures
        rel_offset(target_of(pc, d), pc) == d,
{
    let m = 0x1_0000_0000int;
    let t = (pc + 1 + d) % m;
    lemma_sub_mod_noop(pc + 1 + d, pc + 1, m);
    lemma_sub_mod_noop_right(t, pc + 1, m);
    lemma_small_mod((pc + 1) as nat, m as nat);
    lemma_small_mod(d as nat, m as nat);
    assert((t - (pc + 1)) % m == d);
}

/// Block labels strictly ascend with position; recovery produces blocks in
/// address order, so this holds of every recovered function.
pub open spec fn labels_ascending(blocks: Seq<Block>) -> bool {
    forall|i: int, j: int|
        0 <= i < j < blocks.len() ==> (#[trigger] blocks[i]).label < (#[trigger] blocks[j]).label
}

/// The exact control words a terminator at word address `pc` came from:
/// what lowering writes back for it.
pub open spec fn edge_words(code: Seq<Inst>, e: Control, pc: int) -> bool {
    match e {
        Control::Unconditional(Target::Label(t)) => code[pc] == jmp_inst(
            rel_offset(t as int, pc),
        ),
        Control::Condition(cnd, Target::Label(t), Target::Label(f)) => code[pc] == (Inst {
            op: OP_CJMP,
            a: cnd,
            b: 0,
            c: 0,
            d: rel_offset(t as int, pc),
        }) && code[pc + 1] == jmp_inst(rel_offset(f as int, pc + 1)),
        Control::Loop(cnd, Target::Label(fl), Target::Label(tr)) => code[pc] == (Inst {
            op: OP_LOOP,
            a: cnd,
            b: 0,
            c: 0,
            d: rel_offset(fl as int, pc),
        }) && code[pc + 1] == jmp_inst(rel_offset(tr as int, pc + 1)),
        Control::LFalseSkip(cnd, Target::Label(t)) => code[pc] == (Inst {
            op: OP_LFS,
            a: cnd,
            b: 0,
            c: 0,
            d: rel_offset(t as int, pc),
        }),
        Control::Return0 => code[pc] == (Inst { op: OP_RET0, a: 0, b: 0, c: 0, d: 0 }),
        Control::Return1(x) => code[pc] == (Inst { op: OP_RET1, a: x, b: 0, c: 0, d: 0 }),
        Control::Return(x, y, z, w) => code[pc] == (Inst { op: OP_RET, a: x, b: y, c: z, d: w }),
        _ => false,
    }
}

/// A recovered block sits at the span its label names: its body is that
/// slice of the code, and its terminator came from the words right after.
pub open spec fn block_matches(code: Seq<Inst>, b: Block) -> bool {
    let s = b.label as int;
    let pcterm = s + b.body@.len();
    &&& pcterm + term_size(b.edge) <= code.len()
    &&& b.body@ == code.subrange(s, pcterm)
    &&& edge_words(code, b.edge, pcterm)
}

/// Block addresses depend only on the blocks before them.
pub proof fn lemma_block_addr_push(s: Seq<Block>, b: Block, i: int)
    requires
        0 <= i <= s.len(),
    ensures
        block_addr(s.push(b), i) == block_addr(s, i),
    decreases i,
{
    if i > 0 {
        lemma_block_addr_push(s, b, i - 1);
        assert(s.push(b)[i - 1] == s[i - 1]);
    }
}

/// The terminator of one matching block lowers to exactly the words it
/// was read from.
#[verifier::rlimit(100)]
#[verifier::spinoff_prover]
proof fn lemma_block_step(code: Seq<Inst>, blocks: Seq<Block>, bi: int)
    requires
        0 <= bi < blocks.len(),
        block_matches(code, blocks[bi]),
        forall|j: int|
            #![trigger block_addr(blocks, j)]
            0 <= j < blocks.len() ==> blocks[j].label as int == block_addr(blocks, j),
        crate::function::edges_resolve(blocks),
    ensures
        ({
            let b = blocks[bi];
            let pcterm = b.label as int + b.body@.len();
            lower_edge(blocks, b.edge, pcterm) == Some(
                code.subrange(pcterm, pcterm + term_size(b.edge)),
            )
        }),
{
    let b = blocks[bi];
    let pcterm = b.label as int + b.body@.len();
    match b.edge {
        Control::Unconditional(Target::Label(t)) => {
            assert(crate::ir::edge_label_seq(b.edge) =~= seq![t]);
            assert(crate::ir::edge_label_seq(blocks[bi].edge)[0] == t);
            assert(has_label(blocks, t));
            lemma_label_is_addr(blocks, t);
            assert(seq![jmp_inst(rel_offset(t as int, pcterm))] =~= code.subrange(
                pcterm,
                pcterm + 1,
            ));
        },
        Control::Condition(cnd, Target::Label(t), Target::Label(f)) => {
            assert(crate::ir::edge_label_seq(b.edge) =~= seq![t, f]);
            assert(crate::ir::edge_label_seq(blocks[bi].edge)[0] == t);
            assert(crate::ir::edge_label_seq(blocks[bi].edge)[1] == f);
            assert(has_label(blocks, t));
            assert(has_label(blocks, f));
            lemma_label_is_addr(blocks, t);
            lemma_label_is_addr(blocks, f);
            assert(seq![
                Inst { op: OP_CJMP, a: cnd, b: 0, c: 0, d: rel_offset(t as int, pcterm) },
                jmp_inst(rel_offset(f as int, pcterm + 1)),
            ] =~= code.subrange(pcterm, pcterm + 2));
        },
        Control::Loop(cnd, Target::Label(fl), Target::Label(tr)) => {
            assert(crate::ir::edge_label_seq(b.edge) =~= seq![tr, fl]);
            assert(crate::ir::edge_label_seq(blocks[bi].edge)[0] == tr);
            assert(crate::ir::edge_label_seq(blocks[bi].edge)[1] == fl);
            assert(has_label(blocks, fl));
            assert(has_label(blocks, tr));
            lemma_label_is_addr(blocks, fl);
            lemma_label_is_addr(blocks, tr);
            assert(seq![
                Inst { op: OP_LOOP, a: cnd, b: 0, c: 0, d: rel_offset(fl as int, pcterm) },
                jmp_inst(rel_offset(tr as int, pcterm + 1)),
            ] =~= code.subrange(pcterm, pcterm + 2));
        },
        Control::LFalseSkip(cnd, Target::Label(t)) => {
            assert(crate::ir::edge_label_seq(b.edge) =~= seq![t]);
            assert(crate::ir::edge_label_seq(blocks[bi].edge)[0] == t);
            assert(has_label(blocks, t));
            lemma_label_is_addr(blocks, t);
            assert(seq![Inst { op: OP_LFS, a: cnd, b: 0, c: 0, d: rel_offset(t as int, pcterm) }]
                =~= code.subrange(pcterm, pcterm + 1));
        },
        Control::Return0 => {
            assert(seq![Inst { op: OP_RET0, a: 0, b: 0, c: 0, d: 0 }] =~= code.subrange(
                pcterm,
                pcterm + 1,
            ));
        },
        Control::Return1(x) => {
            assert(seq![Inst { op: OP_RET1, a: x, b: 0, c: 0, d: 0 }] =~= code.subrange(
                pcterm,
                pcterm + 1,
            ));
        },
        Control::Return(x, y, z, w) => {
            assert(seq![Inst { op: OP_RET, a: x, b: y, c: z, d: w }] =~= code.subrange(
                pcterm,
                pcterm + 1,
            ));
        },
        _ => {
            assert(false);
        },
    }
}

/// Blocks whose labels are their addresses and whose contents match the
/// code relinearize, in order, to exactly the code they were read from.
#[verifier::rlimit(100)]
pub proof fn lemma_blocks_lower(code: Seq<Inst>, blocks: Seq<Block>, i: int)
    requires
        0 <= i <= blocks.len(),
        forall|j: int|
            #![trigger block_addr(blocks, j)]
            0 <= j < blocks.len() ==> blocks[j].label as int == block_addr(blocks, j),
        forall|j: int| 0 <= j < blocks.len() ==> block_matches(code, #[trigger] blocks[j]),
        crate::function::edges_resolve(blocks),
    ensures
        lower_prefix(blocks, i) == Some(code.subrange(0, block_addr(blocks, i))),
        0 <= block_addr(blocks, i),
    decreases i,
{
    if i == 0 {
        assert(code.subrange(0, 0) =~= Seq::<Inst>::empty());
    } else {
        lemma_blocks_lower(code, blocks, i - 1);
        lemma_block_step(code, blocks, i - 1);
        let b = blocks[i - 1];
        let s = block_addr(blocks, i - 1);
        let pcterm = s + b.body@.len();
        assert(b.label as int == s);
        assert(block_matches(code, b));
        assert(block_addr(blocks, i) == pcterm + term_size(b.edge));
        assert(code.subrange(0, block_addr(blocks, i)) =~= code.subrange(0, s) + b.body@
            + code.subrange(pcterm, pcterm + term_size(b.edge)));
        assert(lower_prefix(blocks, i) == Some(code.subrange(0, block_addr(blocks, i))));
    }
}

/// The label a block carries is the address the stored order assigns to
/// the block, so looking a present label up yields that label as address.
proof fn lemma_label_is_addr(blocks: Seq<Block>, t: u32)
    requires
        has_label(blocks, t),
        forall|j: int|
            #![trigger block_addr(blocks, j)]
            0 <= j < blocks.len() ==> blocks[j].label as int == block_addr(blocks, j),
    ensures
        has_label_s(blocks, t),
        label_addr(blocks, t) == t as int,
{
    let w = choose|w: int| 0 <= w < blocks.len() && (#[trigger] blocks[w]).label == t;
    assert(has_label_s(blocks, t));
    let idx = index_of_label(blocks, t);
    assert(0 <= idx < blocks.len() && blocks[idx].label == t);
    assert(block_addr(blocks, idx) == t as int);
}

/// The jump target of the word at `pc`, if it lands inside the code array.
fn jump_target(pc: usize, d: u32, n: usize) -> (r: Option<u32>)
    requires
        pc < n,
        n <= 0xFFFF_FFFF,
    ensures
        match r {
            Some(t) => t == target_of(pc as int, d) && (t as int) < n,
            None => target_of(pc as int, d) >= n,
        },
{
    let t64 = (pc as u64 + 1 + d as u64) % 0x1_0000_0000;
    if t64 < n as u64 {
        Some(t64 as u32)
    } else {
        None
    }
}

/// Marks every discovered block start: address zero, every jump target,
/// and the address after every terminator group.
fn mark_starts(code: &Vec<Inst>) -> (r: Result<Vec<bool>, StructuralError>)
    requires
        code@.len() <= 0xFFFF_FFFF,
    ensures
        match r {
            Ok(m) => m@.len() == code@.len(),
            Err(_) => true,
        },
{
    let n = code.len();
    let mut is_start: Vec<bool> = Vec::new();
    let mut i: usize = 0;
    while i < n
        invariant
            is_start@.len() == i as int,
            i <= n,
        decreases n - i,
    {
        is_start.push(false);
        i = i + 1;
    }
    if n > 0 {
        is_start.set(0, true);
    }
    let mut pc: usize = 0;
    while pc < n
        invariant
            n == code@.len(),
            n <= 0xFFFF_FFFF,
            is_start@.len() == n as int,
        decreases n - pc,
    {
        let op = code[pc].op;
        if op >= 1 && op <= OP_BODY_MAX {
            pc = pc + 1;
        } else if op == OP_JMP || op == OP_LFS {
            let t = match jump_target(pc, code[pc].d, n) {
                Some(t) => t,
                None => {
                    return Err(StructuralError::TargetNotBlockStart(pc as u32));
                },
            };
            is_start.set(t as usize, true);
            pc = pc + 1;
            if pc < n {
                is_start.set(pc, true);
            }
        } else if op == OP_CJMP || op == OP_LOOP {
            if pc + 1 >= n || code[pc + 1].op != OP_JMP {
                return Err(StructuralError::BrokenTerminator(pc as u32));
            }
            let t1 = match jump_target(pc, code[pc].d, n) {
                Some(t) => t,
                None => {
                    return Err(StructuralError::TargetNotBlockStart(pc as u32));
                },
            };
            let t2 = match jump_target(pc + 1, code[pc + 1].d, n) {
                Some(t) => t,
                None => {
                    return Err(StructuralError::TargetNotBlockStart((pc + 1) as u32));
                },
            };
            is_start.set(t1 as usize, true);
            is_start.set(t2 as usize, true);
            pc = pc + 2;
            if pc < n {
                is_start.set(pc, true);
            }
        } else if op == OP_RET0 || op == OP_RET1 || op == OP_RET {
            pc = pc + 1;
            if pc < n {
                is_start.set(pc, true);
            }
        } else {
            return Err(StructuralError::BrokenTerminator(pc as u32));
        }
    }
    Ok(is_start)
}

/// Walks the code array segment by segment and builds one block per
/// discovered start: the plain instructions become the body, the
/// terminator becomes the typed edge, and the starting address becomes the
/// label. Fails when a block does not end in a terminator, a two-word
/// terminator misses its paired jump, a target does not land exactly on a
/// discovered start, or a fixed operand field of a control word is not
/// zero. The blocks it returns match the code exactly: labels are the
/// block addresses, and relinearization reproduces the array.
#[verifier::rlimit(100)]
fn build_blocks(code: &Vec<Inst>, is_start: &Vec<bool>) -> (r: Result<
    Vec<Block>,
    StructuralError,
>)
    requires
        code@.len() <= 0xFFFF_FFFF,
        is_start@.len() == code@.len(),
    ensures
        match r {
            Ok(blocks) => labels_ascending(blocks@) && labels_unique(blocks@) && (forall|i: int|
                0 <= i < blocks@.len() ==> crate::function::body_wf(#[trigger] blocks@[i]))
                && crate::function::edges_resolve(blocks@) && (forall|i: int|
                #![trigger block_addr(blocks@, i)]
                0 <= i < blocks@.len() ==> blocks@[i].label as int == block_addr(blocks@, i)) && (forall|i: int|
                0 <= i < blocks@.len() ==> block_matches(code@, #[trigger] blocks@[i]))
                && block_addr(blocks@, blocks@.len() as int) == code@.len(),
            Err(_) => true,
        },
{
    let n = code.len();
    let mut blocks: Vec<Block> = Vec::new();
    let mut pc: usize = 0;
    while pc < n
        invariant
            n == code@.len(),
            n <= 0xFFFF_FFFF,
            is_start@.len() == n as int,
            pc <= n,
            forall|i: int| 0 <= i < blocks@.len() ==> (#[trigger] blocks@[i]).label < pc as int,
            labels_ascending(blocks@),
            forall|i: int| 0 <= i < blocks@.len() ==> crate::function::body_wf(
                #[trigger] blocks@[i],
            ),
            forall|j: int| 0 <= j < pc ==> is_start@[j] ==> has_label(blocks@, j as u32),
            forall|i: int, k: int|
                0 <= i < blocks@.len() && 0 <= k < crate::ir::edge_label_seq(
                    (#[trigger] blocks@[i]).edge,
                ).len() ==> {
                    let t = #[trigger] crate::ir::edge_label_seq(blocks@[i].edge)[k];
                    (t as int) < n && is_start@[t as int]
                },
            forall|i: int|
                #![trigger block_addr(blocks@, i)]
                0 <= i < blocks@.len() ==> blocks@[i].label as int == block_addr(blocks@, i),
            forall|i: int| 0 <= i < blocks@.len() ==> block_matches(code@, #[trigger] blocks@[i]),
            block_addr(blocks@, blocks@.len() as int) == pc as int,
        decreases n - pc,
    {
        let start = pc;
        let mut body: Vec<Inst> = Vec::new();
        proof {
            assert(code@.subrange(start as int, start as int) =~= Seq::<Inst>::empty());
        }
        // scan the plain instructions of the segment
        loop
            invariant_except_break
                n == code@.len(),
                n <= 0xFFFF_FFFF,
                is_start@.len() == n as int,
                start <= pc <= n,
                start < n,
                forall|j: int| start < j < pc ==> !is_start@[j],
                forall|j: int| 0 <= j < body@.len() ==> crate::ir::is_body_op(
                    (#[trigger] body@[j]).op,
                ),
                body@ == code@.subrange(start as int, pc as int),
            ensures
                n == code@.len(),
                n <= 0xFFFF_FFFF,
                is_start@.len() == n as int,
                start <= pc < n,
                forall|j: int| start < j <= pc ==> !is_start@[j],
                forall|j: int| 0 <= j < body@.len() ==> crate::ir::is_body_op(
                    (#[trigger] body@[j]).op,
                ),
                body@ == code@.subrange(start as int, pc as int),
                !crate::ir::is_body_op(code@[pc as int].op),
            decreases n - pc,
        {
            if pc >= n {
                return Err(StructuralError::NoTerminator(pc as u32));
            }
            if pc > start && is_start[pc] {
                let op0 = code[pc].op;
                if op0 >= 1 && op0 <= OP_BODY_MAX {
                    return Err(StructuralError::NoTerminator(pc as u32));
                } else {
                    return Err(StructuralError::TargetNotBlockStart(pc as u32));
                }
            }
            let op = code[pc].op;
            if op >= 1 && op <= OP_BODY_MAX {
                body.push(code[pc]);
                proof {
                    assert(code@.subrange(start as int, pc as int + 1) =~= code@.subrange(
                        start as int,
                        pc as int,
                    ).push(code@[pc as int]));
                }
                pc = pc + 1;
            } else {
                break;
            }
        }
        // the terminator of the segment
        let inst = code[pc];
        let op = inst.op;
        let edge: Control;
        let pc_end: usize;
        if op == OP_JMP || op == OP_LFS {
            if op == OP_JMP && !(inst.a == 0 && inst.b == 0 && inst.c == 0) {
                return Err(StructuralError::NonCanonical(pc as u32));
            }
            if op == OP_LFS && !(inst.b == 0 && inst.c == 0) {
                return Err(StructuralError::NonCanonical(pc as u32));
            }
            let t = match jump_target(pc, inst.d, n) {
                Some(t) => t,
                None => {
                    return Err(StructuralError::TargetNotBlockStart(pc as u32));
                },
            };
            if !is_start[t as usize] {
                return Err(StructuralError::TargetNotBlockStart(pc as u32));
            }
            edge = if op == OP_JMP {
                Control::Unconditional(Target::Label(t))
            } else {
                Control::LFalseSkip(inst.a, Target::Label(t))
            };
            pc_end = pc + 1;
            proof {
                lemma_offset_roundtrip(pc as int, inst.d);
                assert(crate::ir::edge_label_seq(edge) =~= seq![t]);
                assert(edge_words(code@, edge, pc as int));
            }
        } else if op == OP_CJMP || op == OP_LOOP {
            if !(inst.b == 0 && inst.c == 0) {
                return Err(StructuralError::NonCanonical(pc as u32));
            }
            if pc + 1 >= n || code[pc + 1].op != OP_JMP {
                return Err(StructuralError::BrokenTerminator(pc as u32));
            }
            let pair = code[pc + 1];
            if !(pair.a == 0 && pair.b == 0 && pair.c == 0) {
                return Err(StructuralError::NonCanonical(pc as u32));
            }
            if is_start[pc + 1] {
                return Err(StructuralError::TargetNotBlockStart((pc + 1) as u32));
            }
            let t1 = match jump_target(pc, inst.d, n) {
                Some(t) => t,
                None => {
                    return Err(StructuralError::TargetNotBlockStart(pc as u32));
                },
            };
            let t2 = match jump_target(pc + 1, pair.d, n) {
                Some(t) => t,
                None => {
                    return Err(StructuralError::TargetNotBlockStart((pc + 1) as u32));
                },
            };
            if !is_start[t1 as usize] || !is_start[t2 as usize] {
                return Err(StructuralError::TargetNotBlockStart(pc as u32));
            }
            edge = if op == OP_CJMP {
                // the conditional's own word carries the true edge
                Control::Condition(inst.a, Target::Label(t1), Target::Label(t2))
            } else {
                // the loop's own word carries the back edge (on-false)
                Control::Loop(inst.a, Target::Label(t1), Target::Label(t2))
            };
            pc_end = pc + 2;
            proof {
                lemma_offset_roundtrip(pc as int, inst.d);
                lemma_offset_roundtrip(pc as int + 1, pair.d);
                match edge {
                    Control::Condition(_, _, _) => {
                        assert(crate::ir::edge_label_seq(edge) =~= seq![t1, t2]);
                    },
                    Control::Loop(_, _, _) => {
                        assert(crate::ir::edge_label_seq(edge) =~= seq![t2, t1]);
                    },
                    _ => {},
                }
                assert(edge_words(code@, edge, pc as int));
            }
        } else if op == OP_RET0 || op == OP_RET1 || op == OP_RET {
            if op == OP_RET0 && !(inst.a == 0 && inst.b == 0 && inst.c == 0 && inst.d == 0) {
                return Err(StructuralError::NonCanonical(pc as u32));
            }
            if op == OP_RET1 && !(inst.b == 0 && inst.c == 0 && inst.d == 0) {
                return Err(StructuralError::NonCanonical(pc as u32));
            }
            edge = if op == OP_RET0 {
                Control::Return0
            } else if op == OP_RET1 {
                Control::Return1(inst.a)
            } else {
                Control::Return(inst.a, inst.b, inst.c, inst.d)
            };
            pc_end = pc + 1;
            proof {
                assert(crate::ir::edge_label_seq(edge) =~= Seq::<u32>::empty());
                assert(edge_words(code@, edge, pc as int));
            }
        } else {
            return Err(StructuralError::BrokenTerminator(pc as u32));
        }
        let ghost prev_blocks: Seq<Block> = blocks@;
        let b = Block { label: start as u32, body, edge };
        blocks.push(b);
        pc = pc_end;
        proof {
            assert(blocks@ == prev_blocks.push(b));
            assert forall|j: int| 0 <= j < pc implies is_start@[j] ==> has_label(
                blocks@,
                j as u32,
            ) by {
                if is_start@[j] {
                    if j < start {
                        assert(has_label(prev_blocks, j as u32));
                        let witness = choose|i: int|
                            0 <= i < prev_blocks.len() && (#[trigger] prev_blocks[i]).label
                                == j as u32;
                        assert(blocks@[witness].label == j as u32);
                    } else if j == start {
                        assert(blocks@[blocks@.len() - 1].label == j as u32);
                    }
                }
            }
            assert forall|i: int|
                0 <= i <= prev_blocks.len() implies block_addr(blocks@, i) == block_addr(
                prev_blocks,
                i,
            ) by {
                lemma_block_addr_push(prev_blocks, b, i);
            }
            assert forall|i: int|
                #![trigger block_addr(blocks@, i)]
                0 <= i < blocks@.len() implies blocks@[i].label as int == block_addr(blocks@, i)
                by {
                lemma_block_addr_push(prev_blocks, b, i);
                if i < prev_blocks.len() {
                    assert(blocks@[i] == prev_blocks[i]);
                    assert(prev_blocks[i].label as int == block_addr(prev_blocks, i));
                } else {
                    assert(blocks@[i] == b);
                }
            }
            assert(block_addr(blocks@, blocks@.len() as int) == block_addr(
                blocks@,
                prev_blocks.len() as int,
            ) + block_size(b));
            assert(block_matches(code@, b));
        }
    }
    proof {
        assert forall|i: int, k: int|
            0 <= i < blocks@.len() && 0 <= k < crate::ir::edge_label_seq(
                (#[trigger] blocks@[i]).edge,
            ).len() implies has_label(
            blocks@,
            #[trigger] crate::ir::edge_label_seq(blocks@[i].edge)[k],
        ) by {
            let t = crate::ir::edge_label_seq(blocks@[i].edge)[k];
            assert((t as int) < n && is_start@[t as int]);
        }
    }
    Ok(blocks)
}

impl Function {
    /// Recovers the control-flow structure of a wire-shaped record: one
    /// labeled block per discovered block start, each child recursively,
    /// and every keyed list carrying its original position as its key.
    /// The result is well-formed — unique, ascending labels, resolving
    /// edges, terminator-free bodies — keeps the record's metadata, pools,
    /// and debug info exactly, and inverts linearization: lowering the
    /// recovered function yields the record back, which is what makes a
    /// decode, recovery, lowering, encode chain reproduce its input. Each
    /// block's label is exactly the word address its span starts at, the
    /// spans tile the whole code array, and each block's body and
    /// terminator are exactly the words of its span — so the labels are
    /// exactly the discovered block starts. A code array too long for the
    /// wire's address space is always refused as such.
    pub fn from_proto(p: Proto) -> (r: Result<Function, StructuralError>)
        ensures
            match r {
                Ok(f) => {
                    &&& wf_function(f@)
                    &&& labels_ascending(f@.block_list)
                    &&& spec_lower_function(f@) == Some(p@)
                    &&& (forall|i: int|
                        #![trigger block_addr(f@.block_list, i)]
                        0 <= i < f@.block_list.len() ==> f@.block_list[i].label as int
                            == block_addr(f@.block_list, i))
                    &&& block_addr(f@.block_list, f@.block_list.len() as int) == p@.code.len()
                    &&& (forall|i: int|
                        0 <= i < f@.block_list.len() ==> block_matches(
                            p@.code,
                            #[trigger] f@.block_list[i],
                        ))
                    &&& f@.param_count == p@.param_count
                    &&& f@.flags == p@.flags
                    &&& f@.line_info == p@.line_info
                    &&& f@.value_list.len() == p@.value_list.len()
                    &&& (forall|i: int|
                        0 <= i < p@.value_list.len() ==> #[trigger] f@.value_list[i] == (
                            i as u64,
                            p@.value_list[i],
                        ))
                    &&& f@.upval_list.len() == p@.upval_list.len()
                    &&& (forall|i: int|
                        0 <= i < p@.upval_list.len() ==> #[trigger] f@.upval_list[i] == (
                            i as u64,
                            p@.upval_list[i],
                        ))
                    &&& f@.child_list.len() == p@.child_list.len()
                    &&& (forall|i: int|
                        0 <= i < p@.child_list.len() ==> (#[trigger] f@.child_list[i]).0 == i as u64)
                },
                Err(_) => true,
            },
            p@.code.len() > 0xFFFF_FFFF ==> r == Result::<Function, StructuralError>::Err(
                StructuralError::CodeTooLong,
            ),
        decreases p,
    {
        let ghost pv = p@;
        let code = p.code;
        let mut value_list = p.value_list;
        let mut upval_list = p.upval_list;
        let mut child_list = p.child_list;
        let line_info = p.line_info;
        let param_count = p.param_count;
        let flags = p.flags;
        if code.len() > 0xFFFF_FFFF {
            return Err(StructuralError::CodeTooLong);
        }
        let is_start = match mark_starts(&code) {
            Ok(m) => m,
            Err(e) => {
                return Err(e);
            },
        };
        let block_list = match build_blocks(&code, &is_start) {
            Ok(b) => b,
            Err(e) => {
                return Err(e);
            },
        };
        // constant pool: key each entry by its position
        let ghost vorig = value_list@;
        let mut values: Vec<(u64, Value)> = Vec::new();
        while value_list.len() > 0
            invariant
                vorig == p.value_list@,
                values@.len() + value_list@.len() == vorig.len(),
                value_list@ == vorig.skip(values@.len() as int),
                forall|i: int|
                    0 <= i < values@.len() ==> #[trigger] values@[i] == (i as u64, vorig[i]),
            decreases value_list@.len(),
        {
            let ghost k: int = values@.len() as int;
            let v = value_list.remove(0);
            proof {
                assert(v == vorig[k]);
                assert(vorig.skip(k).remove(0) =~= vorig.skip(k + 1));
            }
            let key = values.len() as u64;
            values.push((key, v));
        }
        // upvalue descriptors: key each entry by its position
        let ghost uorig = upval_list@;
        let mut upvals: Vec<(u64, Upvalue)> = Vec::new();
        while upval_list.len() > 0
            invariant
                uorig == p.upval_list@,
                upvals@.len() + upval_list@.len() == uorig.len(),
                upval_list@ == uorig.skip(upvals@.len() as int),
                forall|i: int|
                    0 <= i < upvals@.len() ==> #[trigger] upvals@[i] == (i as u64, uorig[i]),
            decreases upval_list@.len(),
        {
            let ghost k: int = upvals@.len() as int;
            let u = upval_list.remove(0);
            proof {
                assert(u == uorig[k]);
                assert(uorig.skip(k).remove(0) =~= uorig.skip(k + 1));
            }
            let key = upvals.len() as u64;
            upvals.push((key, u));
        }
        // children: recover each recursively, keyed by position
        let ghost corig = child_list@;
        let mut children: Vec<(u64, Function)> = Vec::new();
        while child_list.len() > 0
            invariant
                pv == p@,
                pv.code.len() <= 0xFFFF_FFFF,
                corig == p.child_list@,
                children@.len() + child_list@.len() == corig.len(),
                child_list@ == corig.skip(children@.len() as int),
                forall|i: int|
                    0 <= i < children@.len() ==> (#[trigger] children@[i]).0 == i as u64,
                forall|i: int|
                    0 <= i < children@.len() ==> wf_function(
                        function_view((#[trigger] children@[i]).1),
                    ),
                spec_lower_children(functions_view(children@)) == Some(
                    protos_view(corig.take(children@.len() as int)),
                ),
            decreases child_list@.len(),
        {
            let ghost k: int = children@.len() as int;
            let c = child_list.remove(0);
            proof {
                assert(c == corig[k]);
                assert(corig.skip(k).remove(0) =~= corig.skip(k + 1));
                assert(c == p.child_list@[k]);
                assert(decreases_to!(p => p.child_list@[k]));
            }
            let sub = match Function::from_proto(c) {
                Ok(f) => f,
                Err(e) => {
                    return Err(e);
                },
            };
            let key = children.len() as u64;
            proof {
                lemma_functions_view_push(children@, key, sub);
                assert(corig.take(k + 1) =~= corig.take(k).push(corig[k]));
                lemma_protos_view_push(corig.take(k), corig[k]);
                lemma_lower_children_push(functions_view(children@), (key, sub@));
                assert(spec_lower_function(sub@) == Some(proto_view(corig[k])));
            }
            children.push((key, sub));
        }
        let f = Function {
            param_count,
            flags,
            block_list,
            child_list: children,
            upval_list: upvals,
            value_list: values,
            line_info,
        };
        proof {
            lemma_functions_view_index(f.child_list@);
            lemma_protos_view_index(corig);
            assert(wf_function(f@));
            // relinearization reproduces the record
            lemma_blocks_lower(code@, block_list@, block_list@.len() as int);
            assert(code@.subrange(0, code@.len() as int) =~= code@);
            assert(lower_prefix(f@.block_list, f@.block_list.len() as int) == Some(pv.code));
            assert(corig.take(corig.len() as int) =~= corig);
            assert(spec_lower_children(f@.child_list) == Some(pv.child_list));
            assert(f@.value_list.map_values(value_of_kv()) =~= pv.value_list);
            assert(f@.upval_list.map_values(upval_of_kv()) =~= pv.upval_list);
            assert(block_addr(f@.block_list, f@.block_list.len() as int) == code@.len());
            assert(spec_lower_function(f@) == Some(pv));
        }
        Ok(f)
    }
}

} // verus!
