use lau::errors::{EncodeError, FormatError, StructuralError};
use lau::dumper::dump_lua_module;
use lau::function::Function;
use lau::ir::{Block, Control, Inst, Target};
use lau::loader::load_lua_module;
use lau::proto::Proto;
use lau::value::Value;

fn le4(x: u32) -> Vec<u8> {
    vec![
        (x & 0xFF) as u8,
        ((x >> 8) & 0xFF) as u8,
        ((x >> 16) & 0xFF) as u8,
        ((x >> 24) & 0xFF) as u8,
    ]
}

fn le8(x: u64) -> Vec<u8> {
    let mut v = Vec::new();
    let mut y = x;
    for _ in 0..8 {
        v.push((y & 0xFF) as u8);
        y >>= 8;
    }
    v
}

fn inst(op: u8, a: u8, b: u8, c: u8, d: u32) -> Vec<u8> {
    let mut v = vec![op, a, b, c];
    v.extend(le4(d));
    v
}

const HEADER: [u8; 6] = [0x1B, 0x4C, 0x75, 0x61, 0x54, 0x00];

const OP_JMP: u8 = 48;
const OP_CJMP: u8 = 49;
const OP_LOOP: u8 = 50;
const OP_LFS: u8 = 51;
const OP_RET0: u8 = 52;
const OP_RET1: u8 = 53;
const OP_RET: u8 = 54;

/// A minimal chunk: two blocks, block 0 jumping to block 1, block 1 a
/// plain return, no constants, upvalues, children, or line info.
fn minimal_chunk() -> Vec<u8> {
    let mut c = HEADER.to_vec();
    c.push(0); // param_count
    c.push(0); // flags
    c.extend(le4(2)); // code count
    c.extend(inst(OP_JMP, 0, 0, 0, 0)); // pc 0: target 0 + 1 + 0 = 1
    c.extend(inst(OP_RET0, 0, 0, 0, 0)); // pc 1
    c.extend(le4(0)); // constants
    c.extend(le4(0)); // upvalues
    c.extend(le4(0)); // children
    c.extend(le4(0)); // line info
    c
}

/// A richer chunk: every constant kind, an upvalue, a child record, line
/// info, and conditional, loop, and skip terminators.
fn rich_chunk() -> Vec<u8> {
    let mut child = Vec::new();
    child.push(1); // param_count
    child.push(2); // flags
    child.extend(le4(1));
    child.extend(inst(OP_RET1, 7, 0, 0, 0));
    child.extend(le4(0));
    child.extend(le4(0));
    child.extend(le4(0));
    child.extend(le4(0));

    let mut c = HEADER.to_vec();
    c.push(3); // param_count
    c.push(1); // flags
    c.extend(le4(8)); // code count
    // block 0: pc 0..=2, body [op 5], CJMP true->pc 3 (d = 3-1-1 = 1), JMP false->pc 5 (d = 5-2-1 = 2)
    c.extend(inst(5, 1, 2, 3, 0xDEAD));
    c.extend(inst(OP_CJMP, 9, 0, 0, 1));
    c.extend(inst(OP_JMP, 0, 0, 0, 2));
    // block 3: pc 3..=4, LOOP back edge -> pc 3 (d at pc 3: 3-3-1 = -1), exit -> pc 5 (d at pc 4: 5-4-1 = 0)
    c.extend(inst(OP_LOOP, 4, 0, 0, 0xFFFF_FFFF));
    c.extend(inst(OP_JMP, 0, 0, 0, 0));
    // block 5: pc 5, LFS -> pc 6 (d = 6-5-1 = 0)
    c.extend(inst(OP_LFS, 2, 0, 0, 0));
    // block 6: pc 6, general return
    c.extend(inst(OP_RET, 1, 2, 3, 9));
    // block 7: pc 7, RET0 (jump target of nothing, boundary start)
    c.extend(inst(OP_RET0, 0, 0, 0, 0));
    // constants: nil, true, false, int -5, float bits, string "hey"
    c.extend(le4(6));
    c.push(0);
    c.extend([1, 1]);
    c.extend([1, 0]);
    c.push(2);
    c.extend(le8((-5i64) as u64));
    c.push(3);
    c.extend(le8(0x400921FB54442D18));
    c.push(4);
    c.extend(le4(3));
    c.extend(b"hey");
    // one child
    c.extend(le4(1));
    c.extend(child);
    // one upvalue
    c.extend(le4(1));
    c.extend([1, 4, 2]);
    // line info
    c.extend(le4(3));
    c.extend(le4(10));
    c.extend(le4(11));
    c.extend(le4(12));
    c
}

#[test]
fn round_trip_minimal() {
    let c = minimal_chunk();
    let (proto, consumed) = load_lua_module(&c).expect("valid chunk");
    assert_eq!(consumed, c.len());
    let out = dump_lua_module(&proto).expect("encodable");
    assert_eq!(out, c);
}

#[test]
fn round_trip_rich() {
    let c = rich_chunk();
    let (proto, consumed) = load_lua_module(&c).expect("valid chunk");
    assert_eq!(consumed, c.len());
    assert_eq!(proto.param_count, 3);
    assert_eq!(proto.value_list.len(), 6);
    assert_eq!(proto.value_list[3], Value::Int(-5));
    assert_eq!(proto.value_list[5], Value::Str(b"hey".to_vec()));
    assert_eq!(proto.child_list.len(), 1);
    assert_eq!(proto.line_info, vec![10, 11, 12]);
    let out = dump_lua_module(&proto).expect("encodable");
    assert_eq!(out, c);
}

#[test]
fn round_trip_through_blocks_minimal() {
    // the scenario: decode, recover two blocks with labels {0, 1} and the
    // stated edges, and re-encode to the identical byte sequence
    let c = minimal_chunk();
    let (proto, consumed) = load_lua_module(&c).expect("valid chunk");
    assert_eq!(consumed, c.len());
    let f = Function::from_proto(proto).expect("structured");
    assert_eq!(f.block_list.len(), 2);
    assert_eq!(f.block_list[0].label, 0);
    assert_eq!(f.block_list[0].body.len(), 0);
    assert_eq!(f.block_list[0].edge, Control::Unconditional(Target::Label(1)));
    assert_eq!(f.block_list[1].label, 1);
    assert_eq!(f.block_list[1].body.len(), 0);
    assert_eq!(f.block_list[1].edge, Control::Return0);
    let proto2 = Proto::from_function(f).expect("lowerable");
    let out = dump_lua_module(&proto2).expect("encodable");
    assert_eq!(out, c);
}

#[test]
fn round_trip_through_blocks_rich() {
    let c = rich_chunk();
    let (proto, _) = load_lua_module(&c).expect("valid chunk");
    let f = Function::from_proto(proto).expect("structured");
    assert_eq!(f.block_list.len(), 5);
    let labels: Vec<u32> = f.block_list.iter().map(|b| b.label).collect();
    assert_eq!(labels, vec![0, 3, 5, 6, 7]);
    assert_eq!(f.block_list[0].body.len(), 1);
    assert_eq!(
        f.block_list[0].edge,
        Control::Condition(9, Target::Label(3), Target::Label(5))
    );
    // the loop keeps the wire's reversed order: back edge first, exit second
    assert_eq!(
        f.block_list[1].edge,
        Control::Loop(4, Target::Label(3), Target::Label(5))
    );
    assert_eq!(f.block_list[2].edge, Control::LFalseSkip(2, Target::Label(6)));
    assert_eq!(f.block_list[3].edge, Control::Return(1, 2, 3, 9));
    assert_eq!(f.block_list[4].edge, Control::Return0);
    let proto2 = Proto::from_function(f).expect("lowerable");
    let out = dump_lua_module(&proto2).expect("encodable");
    assert_eq!(out, c);
}

#[test]
fn trailing_bytes_reported() {
    let mut c = minimal_chunk();
    c.extend([0xAA, 0xBB, 0xCC]);
    let (_, consumed) = load_lua_module(&c).expect("valid chunk");
    assert_eq!(consumed, c.len() - 3);
}

#[test]
fn wrong_signature_rejected() {
    let mut c = minimal_chunk();
    c[0] = 0x2B;
    assert_eq!(load_lua_module(&c).unwrap_err(), FormatError::BadSignature);
    let mut c2 = minimal_chunk();
    c2[2] = 0x00;
    assert_eq!(load_lua_module(&c2).unwrap_err(), FormatError::BadSignature);
}

#[test]
fn wrong_version_and_format_rejected() {
    let mut c = minimal_chunk();
    c[4] = 0x53;
    assert_eq!(load_lua_module(&c).unwrap_err(), FormatError::BadVersion);
    let mut c2 = minimal_chunk();
    c2[5] = 1;
    assert_eq!(load_lua_module(&c2).unwrap_err(), FormatError::BadFormat);
}

#[test]
fn truncated_rejected() {
    let c = minimal_chunk();
    for cut in [0, 3, 6, 8, 12, c.len() - 1] {
        assert!(
            matches!(load_lua_module(&c[..cut]).unwrap_err(), FormatError::Truncated(_)),
            "cut at {cut}"
        );
    }
}

#[test]
fn unknown_opcode_rejected() {
    let mut c = minimal_chunk();
    c[12] = 0; // first instruction's opcode
    assert_eq!(load_lua_module(&c).unwrap_err(), FormatError::UnknownOpcode(12));
    let mut c2 = minimal_chunk();
    c2[12] = 200;
    assert_eq!(load_lua_module(&c2).unwrap_err(), FormatError::UnknownOpcode(12));
}

#[test]
fn non_canonical_jump_rejected() {
    let mut c = minimal_chunk();
    c[13] = 1; // the jump's `a` operand must be zero on the wire
    assert_eq!(load_lua_module(&c).unwrap_err(), FormatError::NonCanonical(12));
}

#[test]
fn bad_value_tag_rejected() {
    let mut c = HEADER.to_vec();
    c.push(0);
    c.push(0);
    c.extend(le4(1));
    c.extend(inst(OP_RET0, 0, 0, 0, 0));
    c.extend(le4(1));
    c.push(9); // no such constant tag
    assert!(matches!(load_lua_module(&c).unwrap_err(), FormatError::BadValueTag(_)));
}

#[test]
fn bad_bool_byte_rejected() {
    let mut c = HEADER.to_vec();
    c.push(0);
    c.push(0);
    c.extend(le4(1));
    c.extend(inst(OP_RET0, 0, 0, 0, 0));
    c.extend(le4(1));
    c.extend([1, 2]); // a boolean byte must be 0 or 1
    assert!(matches!(load_lua_module(&c).unwrap_err(), FormatError::NonCanonical(_)));
}

fn one_block_module(code: Vec<Vec<u8>>) -> Vec<u8> {
    let mut c = HEADER.to_vec();
    c.push(0);
    c.push(0);
    c.extend(le4(code.len() as u32));
    for w in code {
        c.extend(w);
    }
    c.extend(le4(0));
    c.extend(le4(0));
    c.extend(le4(0));
    c.extend(le4(0));
    c
}

#[test]
fn block_without_terminator_rejected() {
    let c = one_block_module(vec![inst(5, 0, 0, 0, 0)]);
    let (p, _) = load_lua_module(&c).expect("valid bytes");
    assert!(matches!(
        Function::from_proto(p).unwrap_err(),
        StructuralError::NoTerminator(_)
    ));
}

#[test]
fn conditional_without_paired_jump_rejected() {
    let c = one_block_module(vec![inst(OP_CJMP, 0, 0, 0, 0), inst(OP_RET0, 0, 0, 0, 0)]);
    let (p, _) = load_lua_module(&c).expect("valid bytes");
    assert_eq!(
        Function::from_proto(p).unwrap_err(),
        StructuralError::BrokenTerminator(0)
    );
}

#[test]
fn out_of_range_target_rejected() {
    let c = one_block_module(vec![inst(OP_JMP, 0, 0, 0, 5), inst(OP_RET0, 0, 0, 0, 0)]);
    let (p, _) = load_lua_module(&c).expect("valid bytes");
    assert_eq!(
        Function::from_proto(p).unwrap_err(),
        StructuralError::TargetNotBlockStart(0)
    );
}

#[test]
fn mid_block_target_rejected() {
    // a jump into the middle of a straight-line body
    let c = one_block_module(vec![
        inst(5, 0, 0, 0, 0),
        inst(5, 0, 0, 0, 0),
        inst(OP_JMP, 0, 0, 0, (-2i32) as u32), // target pc 1, inside the body
    ]);
    let (p, _) = load_lua_module(&c).expect("valid bytes");
    assert!(Function::from_proto(p).is_err());
}

#[test]
fn dangling_label_rejected_at_encode() {
    let f = Function {
        param_count: 0,
        flags: 0,
        block_list: vec![Block {
            label: 0,
            body: vec![],
            edge: Control::Unconditional(Target::Label(42)),
        }],
        child_list: vec![],
        upval_list: vec![],
        value_list: vec![],
        line_info: vec![],
    };
    assert_eq!(
        Proto::from_function(f).unwrap_err(),
        EncodeError::DanglingLabel(42)
    );
}

#[test]
fn exit_target_rejected_at_encode() {
    let f = Function {
        param_count: 0,
        flags: 0,
        block_list: vec![Block {
            label: 0,
            body: vec![],
            edge: Control::Unconditional(Target::Exit),
        }],
        child_list: vec![],
        upval_list: vec![],
        value_list: vec![],
        line_info: vec![],
    };
    assert_eq!(
        Proto::from_function(f).unwrap_err(),
        EncodeError::NoConcreteTarget(0)
    );
}

#[test]
fn oversized_string_rejected_at_dump() {
    // lengths themselves cannot exceed the wire width on a 64-bit host
    // without allocating past memory, so check the Ok path instead: a
    // short string dumps with its exact length field
    let p = Proto {
        param_count: 0,
        flags: 0,
        code: vec![Inst { op: OP_RET0, a: 0, b: 0, c: 0, d: 0 }],
        value_list: vec![Value::Str(vec![1, 2, 3, 4])],
        upval_list: vec![],
        child_list: vec![],
        line_info: vec![],
    };
    let out = dump_lua_module(&p).expect("encodable");
    let tail = &out[out.len() - 25..];
    assert_eq!(&tail[0..9], &[1, 0, 0, 0, 4, 4, 0, 0, 0]);
    assert_eq!(&tail[9..13], &[1, 2, 3, 4]);
}

#[test]
fn reencode_reproduces_consumed_prefix() {
    let mut c = rich_chunk();
    let orig = c.clone();
    c.extend([9, 9]);
    let (out, consumed) = lau::loader::reencode_chunk(&c).expect("valid chunk");
    assert_eq!(consumed, orig.len());
    assert_eq!(out, orig);
}

#[test]
fn non_canonical_terminator_rejected_at_recovery() {
    // a hand-built record whose jump word carries junk in a fixed field
    let p = Proto {
        param_count: 0,
        flags: 0,
        code: vec![
            Inst { op: OP_JMP, a: 9, b: 0, c: 0, d: 0 },
            Inst { op: OP_RET0, a: 0, b: 0, c: 0, d: 0 },
        ],
        value_list: vec![],
        upval_list: vec![],
        child_list: vec![],
        line_info: vec![],
    };
    assert_eq!(
        Function::from_proto(p).unwrap_err(),
        StructuralError::NonCanonical(0)
    );
}
