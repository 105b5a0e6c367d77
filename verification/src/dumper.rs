//! The encoder: linearizes a wire-shaped function record into the binary
//! chunk format. Its output is exactly `dump_module_v` of the record's
//! view, which is the half of the round-trip identity the encoder owes.

use vstd::prelude::*;
use crate::errors::EncodeError;
use crate::ir::Inst;
use crate::proto::{lemma_protos_view_index, proto_view, Proto};
use crate::value::{Upvalue, Value};
use crate::wire::{
    dump_inst, dump_inst_fn, dump_line_fn, dump_module_v, dump_proto_v, dump_protos_v, dump_seq,
    dump_upvalue, dump_upvalue_fn, dump_value, dump_value_fn, header_bytes, i64_bits, le_bytes,
    lemma_dump_protos_push, lemma_dump_seq_push, proto_encodable, value_encodable, FORMAT, MAX_LEN,
    SIG0, SIG1, SIG2, SIG3, VERSION,
};

verus! {

/// Appends `x` as four little-endian bytes.
fn write_le4(out: &mut Vec<u8>, x: u32)
    ensures
        final(out)@ == old(out)@ + le_bytes(x as int, 4),
{
    let b0 = (x % 256) as u8;
    let x1 = x / 256;
    let b1 = (x1 % 256) as u8;
    let x2 = x1 / 256;
    let b2 = (x2 % 256) as u8;
    let x3 = x2 / 256;
    let b3 = (x3 % 256) as u8;
    out.push(b0);
    out.push(b1);
    out.push(b2);
    out.push(b3);
    proof {
        crate::wire::lemma_le4_bytes(x);
        assert(out@ =~= old(out)@ + le_bytes(x as int, 4));
    }
}

/// Appends `x` as eight little-endian bytes.
fn write_le8(out: &mut Vec<u8>, x: u64)
    ensures
        final(out)@ == old(out)@ + le_bytes(x as int, 8),
{
    let b0 = (x % 256) as u8;
    let x1 = x / 256;
    let b1 = (x1 % 256) as u8;
    let x2 = x1 / 256;
    let b2 = (x2 % 256) as u8;
    let x3 = x2 / 256;
    let b3 = (x3 % 256) as u8;
    let x4 = x3 / 256;
    let b4 = (x4 % 256) as u8;
    let x5 = x4 / 256;
    let b5 = (x5 % 256) as u8;
    let x6 = x5 / 256;
    let b6 = (x6 % 256) as u8;
    let x7 = x6 / 256;
    let b7 = (x7 % 256) as u8;
    out.push(b0);
    out.push(b1);
    out.push(b2);
    out.push(b3);
    out.push(b4);
    out.push(b5);
    out.push(b6);
    out.push(b7);
    proof {
        crate::wire::lemma_le8_bytes(x);
        assert(out@ =~= old(out)@ + le_bytes(x as int, 8));
    }
}

/// The wire bit pattern of a signed 64-bit integer.
fn i64_to_bits(v: i64) -> (r: u64)
    ensures
        r as int == i64_bits(v),
{
    if v >= 0 {
        v as u64
    } else {
        ((v as i128) + 0x1_0000_0000_0000_0000_i128) as u64
    }
}

/// Appends one instruction.
fn write_inst(out: &mut Vec<u8>, i: &Inst)
    ensures
        final(out)@ == old(out)@ + dump_inst(*i),
{
    out.push(i.op);
    out.push(i.a);
    out.push(i.b);
    out.push(i.c);
    write_le4(out, i.d);
    proof {
        assert(out@ =~= old(out)@ + dump_inst(*i));
    }
}

/// Appends one constant-pool entry.
fn write_value(out: &mut Vec<u8>, v: &Value) -> (r: Result<(), EncodeError>)
    ensures
        r is Ok ==> final(out)@ == old(out)@ + dump_value(*v) && value_encodable(*v),
        r is Err ==> !value_encodable(*v) && r == Result::<(), EncodeError>::Err(
            EncodeError::Oversize,
        ),
{
    match v {
        Value::Nil => {
            out.push(0);
            proof {
                assert(out@ =~= old(out)@ + dump_value(*v));
            }
        },
        Value::Bool(b) => {
            out.push(1);
            out.push(if *b {
                1
            } else {
                0
            });
            proof {
                assert(out@ =~= old(out)@ + dump_value(*v));
            }
        },
        Value::Int(i) => {
            out.push(2);
            let bits = i64_to_bits(*i);
            write_le8(out, bits);
            proof {
                assert(out@ =~= old(out)@ + dump_value(*v));
            }
        },
        Value::Float(bits) => {
            out.push(3);
            write_le8(out, *bits);
            proof {
                assert(out@ =~= old(out)@ + dump_value(*v));
            }
        },
        Value::Str(s) => {
            if s.len() > MAX_LEN {
                return Err(EncodeError::Oversize);
            }
            out.push(4);
            write_le4(out, s.len() as u32);
            out.extend_from_slice(s.as_slice());
            proof {
                assert(out@ =~= old(out)@ + dump_value(*v));
            }
        },
    }
    Ok(())
}

/// Appends one upvalue descriptor.
fn write_upvalue(out: &mut Vec<u8>, u: &Upvalue)
    ensures
        final(out)@ == old(out)@ + dump_upvalue(*u),
{
    out.push(if u.in_stack {
        1
    } else {
        0
    });
    out.push(u.index);
    out.push(u.kind);
    proof {
        assert(out@ =~= old(out)@ + dump_upvalue(*u));
    }
}

/// Appends a 32-bit count followed by the instruction array.
fn write_code(out: &mut Vec<u8>, v: &Vec<Inst>) -> (r: Result<(), EncodeError>)
    ensures
        r is Ok ==> final(out)@ == old(out)@ + le_bytes(v@.len() as int, 4) + dump_seq(
            v@,
            dump_inst_fn(),
        ) && v@.len() <= MAX_LEN,
        r is Err ==> v@.len() > MAX_LEN,
{
    if v.len() > MAX_LEN {
        return Err(EncodeError::Oversize);
    }
    write_le4(out, v.len() as u32);
    let ghost mark: Seq<u8> = out@;
    let mut i: usize = 0;
    while i < v.len()
        invariant
            i <= v@.len(),
            out@ == mark + dump_seq(v@.take(i as int), dump_inst_fn()),
        decreases v@.len() - i,
    {
        write_inst(out, &v[i]);
        proof {
            assert(v@.take(i + 1) =~= v@.take(i as int).push(v@[i as int]));
            lemma_dump_seq_push(v@.take(i as int), dump_inst_fn(), v@[i as int]);
        }
        i = i + 1;
    }
    proof {
        assert(v@.take(v@.len() as int) =~= v@);
        assert(out@ =~= old(out)@ + le_bytes(v@.len() as int, 4) + dump_seq(v@, dump_inst_fn()));
    }
    Ok(())
}

/// Appends a 32-bit count followed by the constant pool.
fn write_values(out: &mut Vec<u8>, v: &Vec<Value>) -> (r: Result<(), EncodeError>)
    ensures
        r is Ok ==> final(out)@ == old(out)@ + le_bytes(v@.len() as int, 4) + dump_seq(
            v@,
            dump_value_fn(),
        ) && v@.len() <= MAX_LEN && (forall|j: int|
            0 <= j < v@.len() ==> value_encodable(#[trigger] v@[j])),
        r is Err ==> v@.len() > MAX_LEN || exists|j: int|
            0 <= j < v@.len() && !value_encodable(#[trigger] v@[j]),
{
    if v.len() > MAX_LEN {
        return Err(EncodeError::Oversize);
    }
    write_le4(out, v.len() as u32);
    let ghost mark: Seq<u8> = out@;
    let mut i: usize = 0;
    while i < v.len()
        invariant
            i <= v@.len(),
            out@ == mark + dump_seq(v@.take(i as int), dump_value_fn()),
            forall|j: int| 0 <= j < i ==> value_encodable(#[trigger] v@[j]),
        decreases v@.len() - i,
    {
        match write_value(out, &v[i]) {
            Ok(()) => {},
            Err(e) => {
                return Err(e);
            },
        }
        proof {
            assert(v@.take(i + 1) =~= v@.take(i as int).push(v@[i as int]));
            lemma_dump_seq_push(v@.take(i as int), dump_value_fn(), v@[i as int]);
        }
        i = i + 1;
    }
    proof {
        assert(v@.take(v@.len() as int) =~= v@);
        assert(out@ =~= old(out)@ + le_bytes(v@.len() as int, 4) + dump_seq(v@, dump_value_fn()));
    }
    Ok(())
}

/// Appends a 32-bit count followed by the upvalue descriptors.
fn write_upvalues(out: &mut Vec<u8>, v: &Vec<Upvalue>) -> (r: Result<(), EncodeError>)
    ensures
        r is Ok ==> final(out)@ == old(out)@ + le_bytes(v@.len() as int, 4) + dump_seq(
            v@,
            dump_upvalue_fn(),
        ) && v@.len() <= MAX_LEN,
        r is Err ==> v@.len() > MAX_LEN,
{
    if v.len() > MAX_LEN {
        return Err(EncodeError::Oversize);
    }
    write_le4(out, v.len() as u32);
    let ghost mark: Seq<u8> = out@;
    let mut i: usize = 0;
    while i < v.len()
        invariant
            i <= v@.len(),
            out@ == mark + dump_seq(v@.take(i as int), dump_upvalue_fn()),
        decreases v@.len() - i,
    {
        write_upvalue(out, &v[i]);
        proof {
            assert(v@.take(i + 1) =~= v@.take(i as int).push(v@[i as int]));
            lemma_dump_seq_push(v@.take(i as int), dump_upvalue_fn(), v@[i as int]);
        }
        i = i + 1;
    }
    proof {
        assert(v@.take(v@.len() as int) =~= v@);
        assert(out@ =~= old(out)@ + le_bytes(v@.len() as int, 4) + dump_seq(v@, dump_upvalue_fn()));
    }
    Ok(())
}

/// Appends a 32-bit count followed by the line-info table.
fn write_lines(out: &mut Vec<u8>, v: &Vec<u32>) -> (r: Result<(), EncodeError>)
    ensures
        r is Ok ==> final(out)@ == old(out)@ + le_bytes(v@.len() as int, 4) + dump_seq(
            v@,
            dump_line_fn(),
        ) && v@.len() <= MAX_LEN,
        r is Err ==> v@.len() > MAX_LEN,
{
    if v.len() > MAX_LEN {
        return Err(EncodeError::Oversize);
    }
    write_le4(out, v.len() as u32);
    let ghost mark: Seq<u8> = out@;
    let mut i: usize = 0;
    while i < v.len()
        invariant
            i <= v@.len(),
            out@ == mark + dump_seq(v@.take(i as int), dump_line_fn()),
        decreases v@.len() - i,
    {
        write_le4(out, v[i]);
        proof {
            assert(v@.take(i + 1) =~= v@.take(i as int).push(v@[i as int]));
            lemma_dump_seq_push(v@.take(i as int), dump_line_fn(), v@[i as int]);
        }
        i = i + 1;
    }
    proof {
        assert(v@.take(v@.len() as int) =~= v@);
        assert(out@ =~= old(out)@ + le_bytes(v@.len() as int, 4) + dump_seq(v@, dump_line_fn()));
    }
    Ok(())
}

/// Appends one whole function record, recursively.
#[verifier::rlimit(100)]
fn write_proto(out: &mut Vec<u8>, p: &Proto) -> (r: Result<(), EncodeError>)
    ensures
        r is Ok ==> final(out)@ == old(out)@ + dump_proto_v(p@) && proto_encodable(p@),
        r is Err ==> !proto_encodable(p@),
    decreases *p,
{
    out.push(p.param_count);
    out.push(p.flags);
    let ghost m0: Seq<u8> = out@;
    match write_code(out, &p.code) {
        Ok(()) => {},
        Err(e) => {
            return Err(e);
        },
    }
    match write_values(out, &p.value_list) {
        Ok(()) => {},
        Err(e) => {
            return Err(e);
        },
    }
    proof {
        lemma_protos_view_index(p.child_list@);
    }
    if p.child_list.len() > MAX_LEN {
        return Err(EncodeError::Oversize);
    }
    write_le4(out, p.child_list.len() as u32);
    let ghost mark: Seq<u8> = out@;
    let ghost kids: Seq<crate::proto::ProtoV> = p@.child_list;
    let mut i: usize = 0;
    while i < p.child_list.len()
        invariant
            i <= p.child_list@.len(),
            kids == crate::proto::protos_view(p.child_list@),
            kids.len() == p.child_list@.len(),
            forall|j: int| 0 <= j < p.child_list@.len() ==> kids[j] == proto_view(
                #[trigger] p.child_list@[j],
            ),
            out@ == mark + dump_protos_v(kids.take(i as int)),
            forall|j: int| 0 <= j < i ==> proto_encodable(#[trigger] kids[j]),
        decreases p.child_list@.len() - i,
    {
        match write_proto(out, &p.child_list[i]) {
            Ok(()) => {},
            Err(e) => {
                proof {
                    assert(!proto_encodable(kids[i as int]));
                    assert(!proto_encodable(p@));
                }
                return Err(e);
            },
        }
        proof {
            assert(kids.take(i + 1) =~= kids.take(i as int).push(kids[i as int]));
            lemma_dump_protos_push(kids.take(i as int), kids[i as int]);
        }
        i = i + 1;
    }
    proof {
        assert(kids.take(kids.len() as int) =~= kids);
    }
    match write_upvalues(out, &p.upval_list) {
        Ok(()) => {},
        Err(e) => {
            return Err(e);
        },
    }
    match write_lines(out, &p.line_info) {
        Ok(()) => {},
        Err(e) => {
            return Err(e);
        },
    }
    proof {
        assert(out@ =~= old(out)@ + dump_proto_v(p@));
    }
    Ok(())
}

/// Encodes one compiled module: the fixed header followed by the top-level
/// function record. Returns the bytes exactly when every list and string in
/// the record fits its 32-bit wire width; the bytes are exactly
/// `dump_module_v` of the record, so re-encoding a decoded chunk reproduces
/// the chunk.
pub fn dump_lua_module(p: &Proto) -> (r: Result<Vec<u8>, EncodeError>)
    ensures
        match r {
            Ok(bytes) => bytes@ == dump_module_v(p@) && proto_encodable(p@),
            Err(_) => !proto_encodable(p@),
        },
{
    let mut out: Vec<u8> = Vec::new();
    out.push(SIG0);
    out.push(SIG1);
    out.push(SIG2);
    out.push(SIG3);
    out.push(VERSION);
    out.push(FORMAT);
    proof {
        assert(out@ =~= header_bytes());
    }
    match write_proto(&mut out, p) {
        Ok(()) => {
            proof {
                assert(out@ =~= dump_module_v(p@));
            }
            Ok(out)
        },
        Err(e) => Err(e),
    }
}

} // verus!
