//! The binary chunk format, as a mathematical function from records to
//! bytes. The decoder and the encoder are both specified against
//! `dump_module_v`: the encoder produces exactly these bytes, and the
//! decoder accepts exactly a prefix of this shape, which is what makes the
//! decode-then-encode round trip an identity.

use vstd::prelude::*;
use vstd::arithmetic::div_mod::lemma_fundamental_div_mod_converse;
use crate::ir::{is_known_op, Inst, OP_CJMP, OP_JMP, OP_LFS, OP_LOOP, OP_RET0, OP_RET1};
use crate::proto::ProtoV;
use crate::value::{Upvalue, Value};

verus! {

/// First signature byte of a chunk header.
pub const SIG0: u8 = 0x1B;
/// Second signature byte.
pub const SIG1: u8 = 0x4C;
/// Third signature byte.
pub const SIG2: u8 = 0x75;
/// Fourth signature byte.
pub const SIG3: u8 = 0x61;
/// Version byte the format fixes.
pub const VERSION: u8 = 0x54;
/// Format byte the format fixes.
pub const FORMAT: u8 = 0;

/// Every list length and every address must fit the wire's 32-bit widths.
pub const MAX_LEN: usize = 0xFFFF_FFFF;

/// The fixed chunk header: signature, version, format.
pub open spec fn header_bytes() -> Seq<u8> {
    seq![SIG0, SIG1, SIG2, SIG3, VERSION, FORMAT]
}

/// `x` written as `n` little-endian bytes.
pub open spec fn le_bytes(x: int, n: nat) -> Seq<u8>
    decreases n,
{
    if n == 0 {
        Seq::empty()
    } else {
        seq![(x % 256) as u8] + le_bytes(x / 256, (n - 1) as nat)
    }
}

/// The four little-endian bytes of a 32-bit value, written out.
pub proof fn lemma_le4_bytes(x: u32)
    ensures
        le_bytes(x as int, 4) == seq![
            (x % 256) as u8,
            ((x / 256) % 256) as u8,
            ((x / 256 / 256) % 256) as u8,
            ((x / 256 / 256 / 256) % 256) as u8,
        ],
{
    reveal_with_fuel(le_bytes, 6);
    assert(le_bytes(x as int, 4) =~= seq![
        (x % 256) as u8,
        ((x / 256) % 256) as u8,
        ((x / 256 / 256) % 256) as u8,
        ((x / 256 / 256 / 256) % 256) as u8,
    ]);
}

/// The eight little-endian bytes of a 64-bit value, written out.
pub proof fn lemma_le8_bytes(x: u64)
    ensures
        le_bytes(x as int, 8) == seq![
            (x % 256) as u8,
            ((x / 256) % 256) as u8,
            ((x / 256 / 256) % 256) as u8,
            ((x / 256 / 256 / 256) % 256) as u8,
            ((x / 256 / 256 / 256 / 256) % 256) as u8,
            ((x / 256 / 256 / 256 / 256 / 256) % 256) as u8,
            ((x / 256 / 256 / 256 / 256 / 256 / 256) % 256) as u8,
            ((x / 256 / 256 / 256 / 256 / 256 / 256 / 256) % 256) as u8,
        ],
{
    reveal_with_fuel(le_bytes, 10);
    assert(le_bytes(x as int, 8) =~= seq![
        (x % 256) as u8,
        ((x / 256) % 256) as u8,
        ((x / 256 / 256) % 256) as u8,
        ((x / 256 / 256 / 256) % 256) as u8,
        ((x / 256 / 256 / 256 / 256) % 256) as u8,
        ((x / 256 / 256 / 256 / 256 / 256) % 256) as u8,
        ((x / 256 / 256 / 256 / 256 / 256 / 256) % 256) as u8,
        ((x / 256 / 256 / 256 / 256 / 256 / 256 / 256) % 256) as u8,
    ]);
}

/// Four bytes read little-endian make the value whose wire form they are.
pub proof fn lemma_le_bytes_compose4(b0: u8, b1: u8, b2: u8, b3: u8)
    ensures
        le_bytes(
            b0 as int + 256 * (b1 as int) + 65536 * (b2 as int) + 16777216 * (b3 as int),
            4,
        ) == seq![b0, b1, b2, b3],
{
    let q2 = b2 as int + 256 * (b3 as int);
    let q1 = b1 as int + 256 * q2;
    let x = b0 as int + 256 * q1;
    lemma_fundamental_div_mod_converse(x, 256, q1, b0 as int);
    lemma_fundamental_div_mod_converse(q1, 256, q2, b1 as int);
    lemma_fundamental_div_mod_converse(q2, 256, b3 as int, b2 as int);
    lemma_fundamental_div_mod_converse(b3 as int, 256, 0, b3 as int);
    reveal_with_fuel(le_bytes, 6);
    assert(le_bytes(x, 4) =~= seq![b0, b1, b2, b3]);
}

/// Eight bytes read little-endian make the value whose wire form they are.
pub proof fn lemma_le_bytes_compose8(b0: u8, b1: u8, b2: u8, b3: u8, b4: u8, b5: u8, b6: u8, b7: u8)
    ensures
        le_bytes(
            b0 as int + 256 * (b1 as int) + 65536 * (b2 as int) + 16777216 * (b3 as int)
                + 0x1_0000_0000 * (b4 as int) + 0x100_0000_0000 * (b5 as int) + 0x1_0000_0000_0000
                * (b6 as int) + 0x100_0000_0000_0000 * (b7 as int),
            8,
        ) == seq![b0, b1, b2, b3, b4, b5, b6, b7],
{
    let q6 = b6 as int + 256 * (b7 as int);
    let q5 = b5 as int + 256 * q6;
    let q4 = b4 as int + 256 * q5;
    let q3 = b3 as int + 256 * q4;
    let q2 = b2 as int + 256 * q3;
    let q1 = b1 as int + 256 * q2;
    let x = b0 as int + 256 * q1;
    lemma_fundamental_div_mod_converse(x, 256, q1, b0 as int);
    lemma_fundamental_div_mod_converse(q1, 256, q2, b1 as int);
    lemma_fundamental_div_mod_converse(q2, 256, q3, b2 as int);
    lemma_fundamental_div_mod_converse(q3, 256, q4, b3 as int);
    lemma_fundamental_div_mod_converse(q4, 256, q5, b4 as int);
    lemma_fundamental_div_mod_converse(q5, 256, q6, b5 as int);
    lemma_fundamental_div_mod_converse(q6, 256, b7 as int, b6 as int);
    lemma_fundamental_div_mod_converse(b7 as int, 256, 0, b7 as int);
    reveal_with_fuel(le_bytes, 10);
    assert(le_bytes(
        b0 as int + 256 * (b1 as int) + 65536 * (b2 as int) + 16777216 * (b3 as int)
            + 0x1_0000_0000 * (b4 as int) + 0x100_0000_0000 * (b5 as int) + 0x1_0000_0000_0000 * (
        b6 as int) + 0x100_0000_0000_0000 * (b7 as int),
        8,
    ) =~= seq![b0, b1, b2, b3, b4, b5, b6, b7]);
}

/// The unsigned value a signed 64-bit integer carries on the wire: its
/// two's-complement bit pattern.
pub open spec fn i64_bits(v: i64) -> int {
    if v >= 0 {
        v as int
    } else {
        v + 0x1_0000_0000_0000_0000
    }
}

/// One instruction: opcode, three byte operands, and the 32-bit operand.
pub open spec fn dump_inst(i: Inst) -> Seq<u8> {
    seq![i.op, i.a, i.b, i.c] + le_bytes(i.d as int, 4)
}

/// One constant-pool entry: a tag byte, then the payload of its kind.
pub open spec fn dump_value(v: Value) -> Seq<u8> {
    match v {
        Value::Nil => seq![0u8],
        Value::Bool(b) => seq![1u8, if b { 1u8 } else { 0u8 }],
        Value::Int(i) => seq![2u8] + le_bytes(i64_bits(i), 8),
        Value::Float(bits) => seq![3u8] + le_bytes(bits as int, 8),
        Value::Str(s) => seq![4u8] + le_bytes(s@.len() as int, 4) + s@,
    }
}

/// One upvalue descriptor: in-stack flag, slot index, kind byte.
pub open spec fn dump_upvalue(u: Upvalue) -> Seq<u8> {
    seq![if u.in_stack { 1u8 } else { 0u8 }, u.index, u.kind]
}

/// One line-info entry.
pub open spec fn dump_line(x: u32) -> Seq<u8> {
    le_bytes(x as int, 4)
}

/// The items of `s`, each written by `f`, in order.
pub open spec fn dump_seq<T>(s: Seq<T>, f: spec_fn(T) -> Seq<u8>) -> Seq<u8>
    decreases s.len(),
{
    if s.len() == 0 {
        Seq::empty()
    } else {
        f(s[0]) + dump_seq(s.drop_first(), f)
    }
}

/// Writing one more item appends its bytes.
pub proof fn lemma_dump_seq_push<T>(s: Seq<T>, f: spec_fn(T) -> Seq<u8>, x: T)
    ensures
        dump_seq(s.push(x), f) == dump_seq(s, f) + f(x),
    decreases s.len(),
{
    if s.len() == 0 {
        assert(s.push(x)[0] == x);
        assert(s.push(x).drop_first() =~= Seq::<T>::empty());
        assert(dump_seq(Seq::<T>::empty(), f) == Seq::<u8>::empty());
        assert(dump_seq(s.push(x), f) =~= dump_seq(s, f) + f(x));
    } else {
        assert(s.push(x)[0] == s[0]);
        assert(s.push(x).drop_first() =~= s.drop_first().push(x));
        lemma_dump_seq_push(s.drop_first(), f, x);
        assert(dump_seq(s.push(x), f) =~= dump_seq(s, f) + f(x));
    }
}

/// The instruction writer, as a function value for `dump_seq`.
pub open spec fn dump_inst_fn() -> spec_fn(Inst) -> Seq<u8> {
    |i: Inst| dump_inst(i)
}

/// The constant writer, as a function value for `dump_seq`.
pub open spec fn dump_value_fn() -> spec_fn(Value) -> Seq<u8> {
    |v: Value| dump_value(v)
}

/// The upvalue writer, as a function value for `dump_seq`.
pub open spec fn dump_upvalue_fn() -> spec_fn(Upvalue) -> Seq<u8> {
    |u: Upvalue| dump_upvalue(u)
}

/// The line-info writer, as a function value for `dump_seq`.
pub open spec fn dump_line_fn() -> spec_fn(u32) -> Seq<u8> {
    |x: u32| dump_line(x)
}

/// One function record: parameter byte, flag byte, then the counted
/// instruction array, constant pool, child records, upvalue list, and
/// line-info table, each behind its 32-bit length.
pub open spec fn dump_proto_v(p: ProtoV) -> Seq<u8>
    decreases p,
{
    seq![p.param_count, p.flags] + le_bytes(p.code.len() as int, 4) + dump_seq(
        p.code,
        dump_inst_fn(),
    ) + le_bytes(p.value_list.len() as int, 4) + dump_seq(p.value_list, dump_value_fn())
        + le_bytes(p.child_list.len() as int, 4) + dump_protos_v(p.child_list) + le_bytes(
        p.upval_list.len() as int,
        4,
    ) + dump_seq(p.upval_list, dump_upvalue_fn()) + le_bytes(p.line_info.len() as int, 4)
        + dump_seq(p.line_info, dump_line_fn())
}

/// The child records, in order.
pub open spec fn dump_protos_v(s: Seq<ProtoV>) -> Seq<u8>
    decreases s,
{
    if s.len() == 0 {
        Seq::empty()
    } else {
        dump_proto_v(s[0]) + dump_protos_v(s.drop_first())
    }
}

/// Writing one more child record appends its bytes.
pub proof fn lemma_dump_protos_push(s: Seq<ProtoV>, p: ProtoV)
    ensures
        dump_protos_v(s.push(p)) == dump_protos_v(s) + dump_proto_v(p),
    decreases s.len(),
{
    if s.len() == 0 {
        assert(s.push(p)[0] == p);
        assert(s.push(p).drop_first() =~= Seq::<ProtoV>::empty());
        assert(dump_protos_v(Seq::<ProtoV>::empty()) == Seq::<u8>::empty());
        assert(dump_protos_v(s.push(p)) =~= dump_protos_v(s) + dump_proto_v(p));
    } else {
        assert(s.push(p)[0] == s[0]);
        assert(s.push(p).drop_first() =~= s.drop_first().push(p));
        lemma_dump_protos_push(s.drop_first(), p);
        assert(dump_protos_v(s.push(p)) =~= dump_protos_v(s) + dump_proto_v(p));
    }
}

/// A whole chunk: the fixed header, then the top-level function record.
pub open spec fn dump_module_v(p: ProtoV) -> Seq<u8> {
    header_bytes() + dump_proto_v(p)
}

/// The operand fields the wire fixes for each control opcode are zero, so
/// every instruction has exactly one encoding and a decoded chunk
/// re-encodes byte-identically.
pub open spec fn inst_canonical(i: Inst) -> bool {
    if i.op == OP_JMP {
        i.a == 0 && i.b == 0 && i.c == 0
    } else if i.op == OP_CJMP || i.op == OP_LOOP || i.op == OP_LFS {
        i.b == 0 && i.c == 0
    } else if i.op == OP_RET0 {
        i.a == 0 && i.b == 0 && i.c == 0 && i.d == 0
    } else if i.op == OP_RET1 {
        i.b == 0 && i.c == 0 && i.d == 0
    } else {
        true
    }
}

/// Every opcode is in the defined set and canonically encoded.
pub open spec fn code_wf(code: Seq<Inst>) -> bool {
    forall|i: int|
        0 <= i < code.len() ==> is_known_op(#[trigger] code[i].op) && inst_canonical(code[i])
}

/// The well-formedness the decoder guarantees of every record it returns:
/// well-formed code, recursively in every child.
pub open spec fn proto_wf(p: ProtoV) -> bool
    decreases p,
{
    &&& code_wf(p.code)
    &&& (forall|i: int| 0 <= i < p.child_list.len() ==> proto_wf(#[trigger] p.child_list[i]))
}

/// Round-trip identity: when the decoder consumed a whole buffer, the
/// record it produced writes back, through `dump_module_v`, to exactly
/// that buffer. Together with the decoder's contract (the consumed prefix
/// is `dump_module_v` of the record) and the encoder's (its output is
/// `dump_module_v` of its input), encoding a decoded chunk with no
/// mutation applied reproduces the chunk byte for byte.
pub proof fn lemma_round_trip(c: Seq<u8>, p: ProtoV, consumed: int)
    requires
        0 <= consumed <= c.len(),
        c.subrange(0, consumed) == dump_module_v(p),
        consumed == c.len(),
    ensures
        dump_module_v(p) == c,
{
    assert(c.subrange(0, c.len() as int) =~= c);
}

/// A string constant fits its 32-bit length field.
pub open spec fn value_encodable(v: Value) -> bool {
    match v {
        Value::Str(s) => s@.len() <= MAX_LEN,
        _ => true,
    }
}

/// Every list fits its 32-bit length field, recursively.
pub open spec fn proto_encodable(p: ProtoV) -> bool
    decreases p,
{
    &&& p.code.len() <= MAX_LEN
    &&& p.value_list.len() <= MAX_LEN
    &&& p.upval_list.len() <= MAX_LEN
    &&& p.child_list.len() <= MAX_LEN
    &&& p.line_info.len() <= MAX_LEN
    &&& (forall|i: int| 0 <= i < p.value_list.len() ==> value_encodable(#[trigger] p.value_list[i]))
    &&& (forall|i: int|
        0 <= i < p.child_list.len() ==> proto_encodable(#[trigger] p.child_list[i]))
}

} // verus!
