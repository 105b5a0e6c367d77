//! The wire-shaped compiled function record: a raw instruction stream with
//! byte-oriented addressing, as it stands in a binary chunk.

use vstd::prelude::*;
use crate::ir::Inst;
use crate::value::{Upvalue, Value};

verus! {

/// One compiled function as the binary format carries it: parameter
/// metadata, the flat instruction array, the constant pool, upvalue
/// descriptors, nested child records, and the optional line-info table.
#[derive(PartialEq, Eq, Debug)]
pub struct Proto {
    pub param_count: u8,
    pub flags: u8,
    pub code: Vec<Inst>,
    pub value_list: Vec<Value>,
    pub upval_list: Vec<Upvalue>,
    pub child_list: Vec<Proto>,
    pub line_info: Vec<u32>,
}

/// The mathematical shape of a `Proto`: the same record over sequences.
pub struct ProtoV {
    pub param_count: u8,
    pub flags: u8,
    pub code: Seq<Inst>,
    pub value_list: Seq<Value>,
    pub upval_list: Seq<Upvalue>,
    pub child_list: Seq<ProtoV>,
    pub line_info: Seq<u32>,
}

pub open spec fn proto_view(p: Proto) -> ProtoV
    decreases p,
{
    ProtoV {
        param_count: p.param_count,
        flags: p.flags,
        code: p.code@,
        value_list: p.value_list@,
        upval_list: p.upval_list@,
        child_list: protos_view(p.child_list@),
        line_info: p.line_info@,
    }
}

pub open spec fn protos_view(s: Seq<Proto>) -> Seq<ProtoV>
    decreases s,
{
    if s.len() == 0 {
        Seq::empty()
    } else {
        seq![proto_view(s[0])] + protos_view(s.drop_first())
    }
}

impl View for Proto {
    type V = ProtoV;

    open spec fn view(&self) -> ProtoV {
        proto_view(*self)
    }
}

/// `protos_view` maps `proto_view` over the sequence, element by element.
pub proof fn lemma_protos_view_index(s: Seq<Proto>)
    ensures
        protos_view(s).len() == s.len(),
        forall|i: int| 0 <= i < s.len() ==> protos_view(s)[i] == proto_view(s[i]),
    decreases s.len(),
{
    if s.len() > 0 {
        lemma_protos_view_index(s.drop_first());
        assert forall|i: int| 0 <= i < s.len() implies protos_view(s)[i] == proto_view(s[i]) by {
            if i > 0 {
                assert(s.drop_first()[i - 1] == s[i]);
            }
        }
    }
}

/// Appending one record on the right extends the view on the right.
pub proof fn lemma_protos_view_push(s: Seq<Proto>, p: Proto)
    ensures
        protos_view(s.push(p)) == protos_view(s).push(proto_view(p)),
    decreases s.len(),
{
    if s.len() == 0 {
        assert(s.push(p)[0] == p);
        assert(s.push(p).drop_first() =~= Seq::<Proto>::empty());
        assert(protos_view(Seq::<Proto>::empty()) == Seq::<ProtoV>::empty());
        assert(protos_view(s.push(p)) =~= protos_view(s).push(proto_view(p)));
    } else {
        assert(s.push(p)[0] == s[0]);
        assert(s.push(p).drop_first() =~= s.drop_first().push(p));
        lemma_protos_view_push(s.drop_first(), p);
        assert(protos_view(s.push(p)) =~= protos_view(s).push(proto_view(p)));
    }
}

} // verus!
