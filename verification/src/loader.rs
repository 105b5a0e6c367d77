//! The decoder: parses a binary chunk into a wire-shaped function record.
//! Every record it returns re-encodes, through `dump_module_v`, to exactly
//! the bytes it consumed, which is the other half of the round-trip
//! identity; trailing bytes are reported back to the caller as a count.

use vstd::prelude::*;
use crate::errors::FormatError;
use crate::ir::{is_known_op, Inst, OP_CJMP, OP_JMP, OP_LFS, OP_LOOP, OP_RET, OP_RET0, OP_RET1};
use crate::proto::{lemma_protos_view_index, lemma_protos_view_push, proto_view, protos_view, Proto};
use crate::value::{Upvalue, Value};
use crate::wire::{
    dump_inst, dump_inst_fn, dump_line_fn, dump_module_v, dump_proto_v, dump_protos_v, dump_seq,
    dump_upvalue, dump_upvalue_fn, dump_value, dump_value_fn, header_bytes, i64_bits,
    inst_canonical, le_bytes, lemma_dump_protos_push, lemma_dump_seq_push, lemma_le_bytes_compose4,
    lemma_le_bytes_compose8, proto_encodable, proto_wf, value_encodable, FORMAT, SIG0, SIG1, SIG2,
    SIG3, VERSION,
};

verus! {

/// Reads one byte.
fn read_u8(data: &[u8], pos: usize) -> (r: Result<u8, FormatError>)
    requires
        pos <= data@.len(),
    ensures
        match r {
            Ok(b) => pos < data@.len() && b == data@[pos as int],
            Err(e) => pos >= data@.len() && e == FormatError::Truncated(pos),
        },
{
    if pos < data.len() {
        Ok(data[pos])
    } else {
        Err(FormatError::Truncated(pos))
    }
}

/// Reads a 32-bit little-endian value.
fn read_le4(data: &[u8], pos: usize) -> (r: Result<(u32, usize), FormatError>)
    requires
        pos <= data@.len(),
    ensures
        match r {
            Ok((x, end)) => end == pos + 4 && end <= data@.len() && data@.subrange(
                pos as int,
                end as int,
            ) == le_bytes(x as int, 4),
            Err(e) => e == FormatError::Truncated(pos) && pos + 4 > data@.len(),
        },
{
    if data.len() - pos < 4 {
        return Err(FormatError::Truncated(pos));
    }
    let b0 = data[pos];
    let b1 = data[pos + 1];
    let b2 = data[pos + 2];
    let b3 = data[pos + 3];
    let x: u32 = b0 as u32 + 256 * (b1 as u32) + 65536 * (b2 as u32) + 16777216 * (b3 as u32);
    proof {
        lemma_le_bytes_compose4(b0, b1, b2, b3);
        assert(data@.subrange(pos as int, pos as int + 4) =~= seq![b0, b1, b2, b3]);
    }
    Ok((x, pos + 4))
}

/// Reads a 64-bit little-endian value.
fn read_le8(data: &[u8], pos: usize) -> (r: Result<(u64, usize), FormatError>)
    requires
        pos <= data@.len(),
    ensures
        match r {
            Ok((x, end)) => end == pos + 8 && end <= data@.len() && data@.subrange(
                pos as int,
                end as int,
            ) == le_bytes(x as int, 8),
            Err(e) => e == FormatError::Truncated(pos) && pos + 8 > data@.len(),
        },
{
    if data.len() - pos < 8 {
        return Err(FormatError::Truncated(pos));
    }
    let b0 = data[pos];
    let b1 = data[pos + 1];
    let b2 = data[pos + 2];
    let b3 = data[pos + 3];
    let b4 = data[pos + 4];
    let b5 = data[pos + 5];
    let b6 = data[pos + 6];
    let b7 = data[pos + 7];
    let x: u64 = b0 as u64 + 256 * (b1 as u64) + 65536 * (b2 as u64) + 16777216 * (b3 as u64)
        + 0x1_0000_0000 * (b4 as u64) + 0x100_0000_0000 * (b5 as u64) + 0x1_0000_0000_0000 * (
    b6 as u64) + 0x100_0000_0000_0000 * (b7 as u64);
    proof {
        lemma_le_bytes_compose8(b0, b1, b2, b3, b4, b5, b6, b7);
        assert(data@.subrange(pos as int, pos as int + 8) =~= seq![b0, b1, b2, b3, b4, b5, b6, b7]);
    }
    Ok((x, pos + 8))
}

/// The signed value whose wire bit pattern is `bits`.
fn bits_to_i64(bits: u64) -> (r: i64)
    ensures
        i64_bits(r) == bits as int,
{
    if bits < 0x8000_0000_0000_0000 {
        bits as i64
    } else {
        ((bits as i128) - 0x1_0000_0000_0000_0000_i128) as i64
    }
}

/// Reads one instruction; rejects opcodes outside the defined set and
/// operand fields the format fixes at zero.
fn read_inst(data: &[u8], pos: usize) -> (r: Result<(Inst, usize), FormatError>)
    requires
        pos <= data@.len(),
    ensures
        match r {
            Ok((inst, end)) => end == pos + 8 && end <= data@.len() && data@.subrange(
                pos as int,
                end as int,
            ) == dump_inst(inst) && is_known_op(inst.op) && inst_canonical(inst),
            Err(e) => e == FormatError::Truncated(pos) && pos + 8 > data@.len() || e
                == FormatError::UnknownOpcode(pos) || e == FormatError::NonCanonical(pos),
        },
{
    if data.len() - pos < 8 {
        return Err(FormatError::Truncated(pos));
    }
    let op = data[pos];
    if op == 0 || op > OP_RET {
        return Err(FormatError::UnknownOpcode(pos));
    }
    let a = data[pos + 1];
    let b = data[pos + 2];
    let c = data[pos + 3];
    let (d, end) = match read_le4(data, pos + 4) {
        Ok(v) => v,
        Err(e) => {
            return Err(e);
        },
    };
    let inst = Inst { op, a, b, c, d };
    if op == OP_JMP && !(a == 0 && b == 0 && c == 0) {
        return Err(FormatError::NonCanonical(pos));
    }
    if (op == OP_CJMP || op == OP_LOOP || op == OP_LFS) && !(b == 0 && c == 0) {
        return Err(FormatError::NonCanonical(pos));
    }
    if op == OP_RET0 && !(a == 0 && b == 0 && c == 0 && d == 0) {
        return Err(FormatError::NonCanonical(pos));
    }
    if op == OP_RET1 && !(b == 0 && c == 0 && d == 0) {
        return Err(FormatError::NonCanonical(pos));
    }
    proof {
        assert(data@.subrange(pos as int, pos as int + 8) =~= seq![op, a, b, c] + data@.subrange(
            pos as int + 4,
            pos as int + 8,
        ));
    }
    Ok((inst, end))
}

/// Reads one constant-pool entry: a tag byte then the payload of its kind.
fn read_value(data: &[u8], pos: usize) -> (r: Result<(Value, usize), FormatError>)
    requires
        pos <= data@.len(),
    ensures
        match r {
            Ok((v, end)) => pos < end <= data@.len() && data@.subrange(pos as int, end as int)
                == dump_value(v) && value_encodable(v),
            Err(e) => e is Truncated || e is BadValueTag || e is NonCanonical,
        },
{
    let dlen = data.len();
    assert(data@.len() == dlen as int);
    let tag = match read_u8(data, pos) {
        Ok(b) => b,
        Err(e) => {
            return Err(e);
        },
    };
    if tag == 0 {
        proof {
            assert(data@.subrange(pos as int, pos as int + 1) =~= seq![0u8]);
        }
        Ok((Value::Nil, pos + 1))
    } else if tag == 1 {
        let byte = match read_u8(data, pos + 1) {
            Ok(b) => b,
            Err(e) => {
                return Err(e);
            },
        };
        if byte > 1 {
            return Err(FormatError::NonCanonical(pos + 1));
        }
        let v = Value::Bool(byte == 1);
        proof {
            assert(data@.subrange(pos as int, pos as int + 2) =~= seq![1u8, byte]);
        }
        Ok((v, pos + 2))
    } else if tag == 2 {
        let (bits, end) = match read_le8(data, pos + 1) {
            Ok(v) => v,
            Err(e) => {
                return Err(e);
            },
        };
        let v = Value::Int(bits_to_i64(bits));
        proof {
            assert(data@.subrange(pos as int, end as int) =~= seq![2u8] + data@.subrange(
                pos as int + 1,
                end as int,
            ));
        }
        Ok((v, end))
    } else if tag == 3 {
        let (bits, end) = match read_le8(data, pos + 1) {
            Ok(v) => v,
            Err(e) => {
                return Err(e);
            },
        };
        proof {
            assert(data@.subrange(pos as int, end as int) =~= seq![3u8] + data@.subrange(
                pos as int + 1,
                end as int,
            ));
        }
        Ok((Value::Float(bits), end))
    } else if tag == 4 {
        let (n, mut cur) = match read_le4(data, pos + 1) {
            Ok(v) => v,
            Err(e) => {
                return Err(e);
            },
        };
        if data.len() - cur < n as usize {
            return Err(FormatError::Truncated(cur));
        }
        let ghost str_start = cur;
        let mut s: Vec<u8> = Vec::new();
        let mut k: u32 = 0;
        while k < n
            invariant
                cur == str_start + k,
                k <= n,
                str_start + n <= data@.len(),
                s@ == data@.subrange(str_start as int, cur as int),
                s@.len() == k as int,
            decreases n - k,
        {
            s.push(data[cur]);
            proof {
                assert(data@.subrange(str_start as int, cur as int + 1) =~= data@.subrange(
                    str_start as int,
                    cur as int,
                ).push(data@[cur as int]));
            }
            cur = cur + 1;
            k = k + 1;
        }
        let v = Value::Str(s);
        proof {
            assert(data@.subrange(pos as int, cur as int) =~= seq![4u8] + data@.subrange(
                pos as int + 1,
                pos as int + 5,
            ) + data@.subrange(str_start as int, cur as int));
        }
        Ok((v, cur))
    } else {
        Err(FormatError::BadValueTag(pos))
    }
}

/// Reads one upvalue descriptor; the in-stack byte must be zero or one.
fn read_upvalue(data: &[u8], pos: usize) -> (r: Result<(Upvalue, usize), FormatError>)
    requires
        pos <= data@.len(),
    ensures
        match r {
            Ok((u, end)) => end == pos + 3 && end <= data@.len() && data@.subrange(
                pos as int,
                end as int,
            ) == dump_upvalue(u),
            Err(e) => e is Truncated || e is NonCanonical,
        },
{
    if data.len() - pos < 3 {
        return Err(FormatError::Truncated(pos));
    }
    let b0 = data[pos];
    if b0 > 1 {
        return Err(FormatError::NonCanonical(pos));
    }
    let b1 = data[pos + 1];
    let b2 = data[pos + 2];
    let u = Upvalue { in_stack: b0 == 1, index: b1, kind: b2 };
    proof {
        assert(data@.subrange(pos as int, pos as int + 3) =~= seq![b0, b1, b2]);
    }
    Ok((u, pos + 3))
}

/// Reads one whole function record, recursively.
#[verifier::rlimit(100)]
fn read_proto(data: &[u8], pos: usize) -> (r: Result<(Proto, usize), FormatError>)
    requires
        pos <= data@.len(),
    ensures
        match r {
            Ok((p, end)) => pos < end <= data@.len() && data@.subrange(pos as int, end as int)
                == dump_proto_v(p@) && proto_encodable(p@) && proto_wf(p@),
            Err(_) => true,
        },
    decreases data@.len() - pos,
{
    let dlen = data.len();
    assert(data@.len() == dlen as int);
    let param_count = match read_u8(data, pos) {
        Ok(b) => b,
        Err(e) => {
            return Err(e);
        },
    };
    let flags = match read_u8(data, pos + 1) {
        Ok(b) => b,
        Err(e) => {
            return Err(e);
        },
    };
    // instruction array
    let (n_code, mut cur) = match read_le4(data, pos + 2) {
        Ok(v) => v,
        Err(e) => {
            return Err(e);
        },
    };
    let ghost code_start = cur;
    let mut code: Vec<Inst> = Vec::new();
    let mut k: u32 = 0;
    while k < n_code
        invariant
            pos + 6 <= code_start <= cur <= data@.len(),
            code@.len() == k as int,
            k <= n_code,
            data@.subrange(code_start as int, cur as int) == dump_seq(code@, dump_inst_fn()),
            forall|j: int|
                0 <= j < code@.len() ==> is_known_op(#[trigger] code@[j].op) && inst_canonical(
                    code@[j],
                ),
        decreases n_code - k,
    {
        let (inst, nxt) = match read_inst(data, cur) {
            Ok(v) => v,
            Err(e) => {
                return Err(e);
            },
        };
        proof {
            lemma_dump_seq_push(code@, dump_inst_fn(), inst);
            assert(data@.subrange(code_start as int, nxt as int) =~= data@.subrange(
                code_start as int,
                cur as int,
            ) + data@.subrange(cur as int, nxt as int));
        }
        code.push(inst);
        cur = nxt;
        k = k + 1;
    }
    let ghost code_end = cur;
    // constant pool
    let (n_vals, mut cur2) = match read_le4(data, cur) {
        Ok(v) => v,
        Err(e) => {
            return Err(e);
        },
    };
    let ghost vals_start = cur2;
    let mut values: Vec<Value> = Vec::new();
    let mut k2: u32 = 0;
    while k2 < n_vals
        invariant
            code_end + 4 <= vals_start <= cur2 <= data@.len(),
            values@.len() == k2 as int,
            k2 <= n_vals,
            data@.subrange(vals_start as int, cur2 as int) == dump_seq(values@, dump_value_fn()),
            forall|j: int| 0 <= j < values@.len() ==> value_encodable(#[trigger] values@[j]),
        decreases n_vals - k2,
    {
        let (v, nxt) = match read_value(data, cur2) {
            Ok(v) => v,
            Err(e) => {
                return Err(e);
            },
        };
        proof {
            lemma_dump_seq_push(values@, dump_value_fn(), v);
            assert(data@.subrange(vals_start as int, nxt as int) =~= data@.subrange(
                vals_start as int,
                cur2 as int,
            ) + data@.subrange(cur2 as int, nxt as int));
        }
        values.push(v);
        cur2 = nxt;
        k2 = k2 + 1;
    }
    let ghost vals_end = cur2;
    // child records
    let (n_kids, mut cur3) = match read_le4(data, cur2) {
        Ok(v) => v,
        Err(e) => {
            return Err(e);
        },
    };
    let ghost kids_start = cur3;
    let mut children: Vec<Proto> = Vec::new();
    let mut k3: u32 = 0;
    while k3 < n_kids
        invariant
            vals_end + 4 <= kids_start <= cur3 <= data@.len(),
            pos < kids_start,
            children@.len() == k3 as int,
            k3 <= n_kids,
            data@.subrange(kids_start as int, cur3 as int) == dump_protos_v(
                protos_view(children@),
            ),
            forall|j: int|
                0 <= j < protos_view(children@).len() ==> proto_encodable(
                    #[trigger] protos_view(children@)[j],
                ) && proto_wf(protos_view(children@)[j]),
        decreases n_kids - k3,
    {
        let (child, nxt) = match read_proto(data, cur3) {
            Ok(v) => v,
            Err(e) => {
                return Err(e);
            },
        };
        proof {
            lemma_protos_view_index(children@);
            lemma_protos_view_push(children@, child);
            lemma_protos_view_index(children@.push(child));
            lemma_dump_protos_push(protos_view(children@), proto_view(child));
            assert(data@.subrange(kids_start as int, nxt as int) =~= data@.subrange(
                kids_start as int,
                cur3 as int,
            ) + data@.subrange(cur3 as int, nxt as int));
        }
        children.push(child);
        cur3 = nxt;
        k3 = k3 + 1;
    }
    let ghost kids_end = cur3;
    // upvalue descriptors
    let (n_ups, mut cur4) = match read_le4(data, cur3) {
        Ok(v) => v,
        Err(e) => {
            return Err(e);
        },
    };
    let ghost ups_start = cur4;
    let mut upvals: Vec<Upvalue> = Vec::new();
    let mut k4: u32 = 0;
    while k4 < n_ups
        invariant
            kids_end + 4 <= ups_start <= cur4 <= data@.len(),
            upvals@.len() == k4 as int,
            k4 <= n_ups,
            data@.subrange(ups_start as int, cur4 as int) == dump_seq(upvals@, dump_upvalue_fn()),
        decreases n_ups - k4,
    {
        let (u, nxt) = match read_upvalue(data, cur4) {
            Ok(v) => v,
            Err(e) => {
                return Err(e);
            },
        };
        proof {
            lemma_dump_seq_push(upvals@, dump_upvalue_fn(), u);
            assert(data@.subrange(ups_start as int, nxt as int) =~= data@.subrange(
                ups_start as int,
                cur4 as int,
            ) + data@.subrange(cur4 as int, nxt as int));
        }
        upvals.push(u);
        cur4 = nxt;
        k4 = k4 + 1;
    }
    let ghost ups_end = cur4;
    // line-info table
    let (n_lines, mut cur5) = match read_le4(data, cur4) {
        Ok(v) => v,
        Err(e) => {
            return Err(e);
        },
    };
    let ghost lines_start = cur5;
    let mut lines: Vec<u32> = Vec::new();
    let mut k5: u32 = 0;
    while k5 < n_lines
        invariant
            ups_end + 4 <= lines_start <= cur5 <= data@.len(),
            lines@.len() == k5 as int,
            k5 <= n_lines,
            data@.subrange(lines_start as int, cur5 as int) == dump_seq(lines@, dump_line_fn()),
        decreases n_lines - k5,
    {
        let (x, nxt) = match read_le4(data, cur5) {
            Ok(v) => v,
            Err(e) => {
                return Err(e);
            },
        };
        proof {
            lemma_dump_seq_push(lines@, dump_line_fn(), x);
            assert(data@.subrange(lines_start as int, nxt as int) =~= data@.subrange(
                lines_start as int,
                cur5 as int,
            ) + data@.subrange(cur5 as int, nxt as int));
        }
        lines.push(x);
        cur5 = nxt;
        k5 = k5 + 1;
    }
    let end = cur5;
    let p = Proto {
        param_count,
        flags,
        code,
        value_list: values,
        upval_list: upvals,
        child_list: children,
        line_info: lines,
    };
    proof {
        lemma_protos_view_index(p.child_list@);
        assert(data@.subrange(pos as int, pos as int + 2) =~= seq![param_count, flags]);
        assert(data@.subrange(pos as int, code_start as int) =~= data@.subrange(
            pos as int,
            pos as int + 2,
        ) + data@.subrange(pos as int + 2, code_start as int));
        assert(data@.subrange(pos as int, code_end as int) =~= data@.subrange(
            pos as int,
            code_start as int,
        ) + data@.subrange(code_start as int, code_end as int));
        assert(data@.subrange(pos as int, vals_start as int) =~= data@.subrange(
            pos as int,
            code_end as int,
        ) + data@.subrange(code_end as int, vals_start as int));
        assert(data@.subrange(pos as int, vals_end as int) =~= data@.subrange(
            pos as int,
            vals_start as int,
        ) + data@.subrange(vals_start as int, vals_end as int));
        assert(data@.subrange(pos as int, kids_start as int) =~= data@.subrange(
            pos as int,
            vals_end as int,
        ) + data@.subrange(vals_end as int, kids_start as int));
        assert(data@.subrange(pos as int, kids_end as int) =~= data@.subrange(
            pos as int,
            kids_start as int,
        ) + data@.subrange(kids_start as int, kids_end as int));
        assert(data@.subrange(pos as int, ups_start as int) =~= data@.subrange(
            pos as int,
            kids_end as int,
        ) + data@.subrange(kids_end as int, ups_start as int));
        assert(data@.subrange(pos as int, ups_end as int) =~= data@.subrange(
            pos as int,
            ups_start as int,
        ) + data@.subrange(ups_start as int, ups_end as int));
        assert(data@.subrange(pos as int, lines_start as int) =~= data@.subrange(
            pos as int,
            ups_end as int,
        ) + data@.subrange(ups_end as int, lines_start as int));
        assert(data@.subrange(pos as int, end as int) =~= data@.subrange(
            pos as int,
            lines_start as int,
        ) + data@.subrange(lines_start as int, end as int));
        assert(data@.subrange(pos as int, end as int) =~= dump_proto_v(p@));
    }
    Ok((p, end))
}

/// Decodes one compiled module. On success the returned count says how many
/// bytes of `data` the chunk occupied: the consumed prefix is exactly
/// `dump_module_v` of the returned record, and the caller may treat the
/// remaining `data.len() - consumed` trailing bytes as it sees fit. A chunk
/// whose signature, version, or format byte does not match is rejected with
/// the named error and no record. The contract states full soundness —
/// whatever is accepted re-encodes to the consumed bytes — and pins the
/// header rejections exactly; that every well-formed chunk is accepted is
/// exercised by tests but not stated as a clause here.
pub fn load_lua_module(data: &[u8]) -> (r: Result<(Proto, usize), FormatError>)
    ensures
        match r {
            Ok((p, consumed)) => 6 < consumed <= data@.len() && data@.subrange(0, consumed as int)
                == dump_module_v(p@) && proto_encodable(p@) && proto_wf(p@),
            Err(_) => true,
        },
        data@.len() >= 1 && data@[0] != SIG0 ==> r == Result::<(Proto, usize), FormatError>::Err(
            FormatError::BadSignature,
        ),
        data@.len() >= 4 && (data@[0] != SIG0 || data@[1] != SIG1 || data@[2] != SIG2 || data@[3]
            != SIG3) ==> r == Result::<(Proto, usize), FormatError>::Err(FormatError::BadSignature),
        data@.len() >= 5 && data@[0] == SIG0 && data@[1] == SIG1 && data@[2] == SIG2 && data@[3]
            == SIG3 && data@[4] != VERSION ==> r == Result::<(Proto, usize), FormatError>::Err(
            FormatError::BadVersion,
        ),
        data@.len() >= 6 && data@[0] == SIG0 && data@[1] == SIG1 && data@[2] == SIG2 && data@[3]
            == SIG3 && data@[4] == VERSION && data@[5] != FORMAT ==> r == Result::<
            (Proto, usize),
            FormatError,
        >::Err(FormatError::BadFormat),
        data@.len() < 6 ==> r is Err,
{
    if data.len() < 1 || data[0] != SIG0 {
        return Err(if data.len() < 1 {
            FormatError::Truncated(data.len())
        } else {
            FormatError::BadSignature
        });
    }
    if data.len() < 4 || data[1] != SIG1 || data[2] != SIG2 || data[3] != SIG3 {
        return Err(if data.len() < 4 {
            FormatError::Truncated(data.len())
        } else {
            FormatError::BadSignature
        });
    }
    if data.len() < 5 || data[4] != VERSION {
        return Err(if data.len() < 5 {
            FormatError::Truncated(data.len())
        } else {
            FormatError::BadVersion
        });
    }
    if data.len() < 6 || data[5] != FORMAT {
        return Err(if data.len() < 6 {
            FormatError::Truncated(data.len())
        } else {
            FormatError::BadFormat
        });
    }
    let (p, end) = match read_proto(data, 6) {
        Ok(v) => v,
        Err(e) => {
            return Err(e);
        },
    };
    proof {
        assert(data@.subrange(0, 6) =~= header_bytes());
        assert(data@.subrange(0, end as int) =~= data@.subrange(0, 6) + data@.subrange(
            6,
            end as int,
        ));
    }
    Ok((p, end))
}

/// Decodes a chunk and immediately re-encodes the record, with nothing
/// mutated in between: the output is byte-identical to the consumed prefix
/// of the input — the round-trip identity, end to end.
pub fn reencode_chunk(data: &[u8]) -> (r: Result<(Vec<u8>, usize), FormatError>)
    ensures
        match r {
            Ok((out, consumed)) => consumed <= data@.len() && out@ == data@.subrange(
                0,
                consumed as int,
            ),
            Err(_) => true,
        },
{
    let (p, consumed) = match load_lua_module(data) {
        Ok(v) => v,
        Err(e) => {
            return Err(e);
        },
    };
    match crate::dumper::dump_lua_module(&p) {
        Ok(out) => Ok((out, consumed)),
        Err(_) => {
            // the decoder only returns encodable records, so the encoder
            // cannot refuse one
            proof {
                assert(false);
            }
            Err(FormatError::Truncated(0))
        },
    }
}

} // verus!
