//! The control-flow-structured compiled function record: labeled basic
//! blocks instead of a flat instruction stream, and keyed positional
//! containers for children, upvalues, and constants.

use vstd::prelude::*;
use crate::ir::{edge_label_seq, is_body_op, Block};
use crate::value::{Upvalue, Value};

verus! {

/// One compiled function after control-flow-graph recovery: its basic
/// blocks, its nested child functions, upvalues, and constants, each list
/// keyed so that a reordering pass can still say which entry is which, and
/// its metadata. A `Function` exclusively owns its children; the tree
/// mirrors the lexical nesting of closures.
#[derive(PartialEq, Eq, Debug)]
pub struct Function {
    pub param_count: u8,
    pub flags: u8,
    pub block_list: Vec<Block>,
    pub child_list: Vec<(u64, Function)>,
    pub upval_list: Vec<(u64, Upvalue)>,
    pub value_list: Vec<(u64, Value)>,
    pub line_info: Vec<u32>,
}

/// The mathematical shape of a `Function`: the same record over sequences.
pub struct FunctionV {
    pub param_count: u8,
    pub flags: u8,
    pub block_list: Seq<Block>,
    pub child_list: Seq<(u64, FunctionV)>,
    pub upval_list: Seq<(u64, Upvalue)>,
    pub value_list: Seq<(u64, Value)>,
    pub line_info: Seq<u32>,
}

pub open spec fn function_view(f: Function) -> FunctionV
    decreases f,
{
    FunctionV {
        param_count: f.param_count,
        flags: f.flags,
        block_list: f.block_list@,
        child_list: functions_view(f.child_list@),
        upval_list: f.upval_list@,
        value_list: f.value_list@,
        line_info: f.line_info@,
    }
}

pub open spec fn functions_view(s: Seq<(u64, Function)>) -> Seq<(u64, FunctionV)>
    decreases s,
{
    if s.len() == 0 {
        Seq::empty()
    } else {
        seq![(s[0].0, function_view(s[0].1))] + functions_view(s.drop_first())
    }
}

impl View for Function {
    type V = FunctionV;

    open spec fn view(&self) -> FunctionV {
        function_view(*self)
    }
}

/// `functions_view` maps the view over the sequence, element by element,
/// keeping each key.
pub proof fn lemma_functions_view_index(s: Seq<(u64, Function)>)
    ensures
        functions_view(s).len() == s.len(),
        forall|i: int|
            0 <= i < s.len() ==> functions_view(s)[i] == (s[i].0, function_view(s[i].1)),
    decreases s.len(),
{
    if s.len() > 0 {
        lemma_functions_view_index(s.drop_first());
        assert forall|i: int|
            0 <= i < s.len() implies functions_view(s)[i] == (s[i].0, function_view(s[i].1)) by {
            if i > 0 {
                assert(s.drop_first()[i - 1] == s[i]);
            }
        }
    }
}

/// Appending one child on the right extends the view on the right.
pub proof fn lemma_functions_view_push(s: Seq<(u64, Function)>, k: u64, f: Function)
    ensures
        functions_view(s.push((k, f))) == functions_view(s).push((k, function_view(f))),
    decreases s.len(),
{
    if s.len() == 0 {
        assert(s.push((k, f))[0] == (k, f));
        assert(s.push((k, f)).drop_first() =~= Seq::<(u64, Function)>::empty());
        assert(functions_view(Seq::<(u64, Function)>::empty()) == Seq::<(u64, FunctionV)>::empty());
        assert(functions_view(s.push((k, f))) =~= functions_view(s).push((k, function_view(f))));
    } else {
        assert(s.push((k, f))[0] == s[0]);
        assert(s.push((k, f)).drop_first() =~= s.drop_first().push((k, f)));
        lemma_functions_view_push(s.drop_first(), k, f);
        assert(functions_view(s.push((k, f))) =~= functions_view(s).push((k, function_view(f))));
    }
}

/// Some block in `blocks` carries label `l`.
pub open spec fn has_label(blocks: Seq<Block>, l: u32) -> bool {
    exists|i: int| 0 <= i < blocks.len() && (#[trigger] blocks[i]).label == l
}

/// No two blocks share a label.
pub open spec fn labels_unique(blocks: Seq<Block>) -> bool {
    forall|i: int, j: int|
        0 <= i < j < blocks.len() ==> (#[trigger] blocks[i]).label != (#[trigger] blocks[j]).label
}

/// Every successor label of every block resolves to a block of the list.
pub open spec fn edges_resolve(blocks: Seq<Block>) -> bool {
    forall|i: int, k: int|
        0 <= i < blocks.len() && 0 <= k < edge_label_seq(blocks[i].edge).len() ==> has_label(
            blocks,
            #[trigger] edge_label_seq((#[trigger] blocks[i]).edge)[k],
        )
}

/// A block body holds plain instructions only: the terminator lives in the
/// block's `edge`, never in its body.
pub open spec fn body_wf(b: Block) -> bool {
    forall|j: int| 0 <= j < b.body@.len() ==> is_body_op((#[trigger] b.body@[j]).op)
}

/// The invariant of a recovered function: block labels are unique, every
/// edge resolves within the function, bodies are terminator-free, and the
/// same holds of every child.
pub open spec fn wf_function(f: FunctionV) -> bool
    decreases f,
{
    &&& labels_unique(f.block_list)
    &&& edges_resolve(f.block_list)
    &&& (forall|i: int| 0 <= i < f.block_list.len() ==> body_wf(#[trigger] f.block_list[i]))
    &&& (forall|i: int|
        0 <= i < f.child_list.len() ==> wf_function((#[trigger] f.child_list[i]).1))
}

} // verus!
