use lau::devirt::{build_block_map, optimize_jmp, BlockMap};
use lau::function::Function;
use lau::ir::{Block, Control, Inst, Target};
use lau::mutate::Mutation;
use lau::value::{Upvalue, Value};

fn block(label: u32, body: Vec<Inst>, edge: Control) -> Block {
    Block { label, body, edge }
}

fn ret0(label: u32) -> Block {
    block(label, vec![], Control::Return0)
}

fn jump(label: u32, to: u32) -> Block {
    block(label, vec![], Control::Unconditional(Target::Label(to)))
}

fn body_inst(op: u8) -> Inst {
    Inst { op, a: 0, b: 0, c: 0, d: 0 }
}

fn sample_function() -> Function {
    Function {
        param_count: 2,
        flags: 1,
        block_list: vec![jump(7, 2), ret0(2), jump(0, 7)],
        child_list: vec![
            (
                3,
                Function {
                    param_count: 0,
                    flags: 0,
                    block_list: vec![ret0(5), jump(1, 5)],
                    child_list: vec![],
                    upval_list: vec![],
                    value_list: vec![(9, Value::Nil), (4, Value::Bool(true))],
                    line_info: vec![],
                },
            ),
            (
                1,
                Function {
                    param_count: 1,
                    flags: 0,
                    block_list: vec![ret0(0)],
                    child_list: vec![],
                    upval_list: vec![],
                    value_list: vec![],
                    line_info: vec![],
                },
            ),
        ],
        upval_list: vec![
            (5, Upvalue { in_stack: true, index: 1, kind: 0 }),
            (2, Upvalue { in_stack: false, index: 0, kind: 1 }),
        ],
        value_list: vec![
            (8, Value::Int(10)),
            (1, Value::Str(b"abc".to_vec())),
            (8, Value::Bool(false)),
            (0, Value::Nil),
        ],
        line_info: vec![1, 2, 3],
    }
}

fn labels(f: &Function) -> Vec<u32> {
    f.block_list.iter().map(|b| b.label).collect()
}

fn value_keys(f: &Function) -> Vec<u64> {
    f.value_list.iter().map(|kv| kv.0).collect()
}

// the number of successor labels each terminator kind implies:
// returns none, unconditional one, skip one, conditional two, loop two
#[test]
fn edge_count_per_variant() {
    let cases: Vec<(Control, usize)> = vec![
        (Control::Return0, 0),
        (Control::Return1(3), 0),
        (Control::Return(1, 2, 3, 4), 0),
        (Control::Unconditional(Target::Label(9)), 1),
        (Control::LFalseSkip(2, Target::Label(9)), 1),
        (Control::Condition(1, Target::Label(4), Target::Label(5)), 2),
        (Control::Loop(1, Target::Label(4), Target::Label(5)), 2),
    ];
    for (edge, want) in cases {
        let b = block(0, vec![], edge);
        assert_eq!(b.get_target_labels().len(), want, "edge {:?}", b.edge);
    }
}

#[test]
fn target_labels_canonical_order() {
    // conditional: true target first, then false
    let b = block(0, vec![], Control::Condition(1, Target::Label(4), Target::Label(5)));
    assert_eq!(b.get_target_labels(), vec![4, 5]);
    // loop: the variant stores (back edge, exit) but exposes exit (the
    // true edge) first
    let b2 = block(0, vec![], Control::Loop(1, Target::Label(4), Target::Label(5)));
    assert_eq!(b2.get_target_labels(), vec![5, 4]);
}

#[test]
fn is_unconditionnal_discriminates() {
    assert!(jump(0, 1).is_unconditionnal());
    assert!(!ret0(0).is_unconditionnal());
    let b = block(0, vec![], Control::Condition(1, Target::Label(1), Target::Label(2)));
    assert!(!b.is_unconditionnal());
}

#[test]
fn block_name_decimal() {
    assert_eq!(jump(0, 1).name(), "Block 0".to_string());
    assert_eq!(jump(57, 1).name(), "Block 57".to_string());
    assert_eq!(jump(4294967295, 1).name(), "Block 4294967295".to_string());
}

#[test]
fn sorted_orders_every_container() {
    let mut f = sample_function();
    Function::try_mutate(&mut f, &vec![Mutation::Sorted]);
    assert_eq!(labels(&f), vec![0, 2, 7]);
    assert_eq!(value_keys(&f), vec![0, 1, 8, 8]);
    // equal keys keep their relative order
    assert_eq!(f.value_list[2].1, Value::Int(10));
    assert_eq!(f.value_list[3].1, Value::Bool(false));
    let upval_keys: Vec<u64> = f.upval_list.iter().map(|kv| kv.0).collect();
    assert_eq!(upval_keys, vec![2, 5]);
    let child_keys: Vec<u64> = f.child_list.iter().map(|kv| kv.0).collect();
    assert_eq!(child_keys, vec![1, 3]);
    // children are mutated too, before the parent
    let child = &f.child_list[1].1;
    assert_eq!(labels(child), vec![1, 5]);
    assert_eq!(child.value_list[0].0, 4);
}

#[test]
fn sorted_twice_equals_sorted_once() {
    let mut once = sample_function();
    Function::try_mutate(&mut once, &vec![Mutation::Sorted]);
    let mut twice = sample_function();
    Function::try_mutate(&mut twice, &vec![Mutation::Sorted]);
    Function::try_mutate(&mut twice, &vec![Mutation::Sorted]);
    assert_eq!(once, twice);
}

#[test]
fn random_keeps_content() {
    let mut f = sample_function();
    Function::try_mutate(&mut f, &vec![Mutation::Random]);
    let orig = sample_function();
    assert_eq!(f.param_count, orig.param_count);
    assert_eq!(f.line_info, orig.line_info);
    let mut got = labels(&f);
    let mut want = labels(&orig);
    got.sort();
    want.sort();
    assert_eq!(got, want);
    let mut gotk = value_keys(&f);
    let mut wantk = value_keys(&orig);
    gotk.sort();
    wantk.sort();
    assert_eq!(gotk, wantk);
    assert_eq!(f.child_list.len(), orig.child_list.len());
    assert_eq!(f.upval_list.len(), orig.upval_list.len());
    // content below the top level is preserved too: the child keyed 3
    // still holds exactly its own two values, wherever it moved
    let child = f.child_list.iter().find(|kv| kv.0 == 3).expect("child kept");
    let mut child_value_keys: Vec<u64> = child.1.value_list.iter().map(|kv| kv.0).collect();
    child_value_keys.sort();
    assert_eq!(child_value_keys, vec![4, 9]);
    assert_eq!(child.1.block_list.len(), 2);
}

#[test]
fn random_then_sorted_restores_order() {
    let mut f = sample_function();
    Function::try_mutate(&mut f, &vec![Mutation::Random, Mutation::Sorted]);
    assert_eq!(labels(&f), vec![0, 2, 7]);
    let child_keys: Vec<u64> = f.child_list.iter().map(|kv| kv.0).collect();
    assert_eq!(child_keys, vec![1, 3]);
}

#[test]
fn trampoline_chain_flattened() {
    // Entry -> T1 -> T2 -> Target, where T1 and T2 are empty trampolines:
    // after the pass, Entry jumps straight to Target
    let mut map = BlockMap::new();
    map.insert(0, jump(0, 1)); // entry
    map.insert(1, jump(1, 2)); // T1
    map.insert(2, jump(2, 3)); // T2
    map.insert(3, ret0(3)); // target
    let report = optimize_jmp(&mut map, 0);
    assert_eq!(map.get(0).unwrap().edge, Control::Unconditional(Target::Label(3)));
    assert!(report.contains(&(1, 3)));
}

#[test]
fn non_trampoline_block_not_skipped() {
    // a block with a body is no trampoline, even with a single jump out
    let mut map = BlockMap::new();
    map.insert(0, jump(0, 1));
    map.insert(1, block(1, vec![body_inst(5)], Control::Unconditional(Target::Label(2))));
    map.insert(2, ret0(2));
    optimize_jmp(&mut map, 0);
    assert_eq!(map.get(0).unwrap().edge, Control::Unconditional(Target::Label(1)));
}

#[test]
fn trampoline_cycle_left_unresolved() {
    // block 1 jumps unconditionally to 2, block 2 back to 1, both empty:
    // the pass must terminate and resolve no final destination
    let mut map = BlockMap::new();
    map.insert(0, jump(0, 1));
    map.insert(1, jump(1, 2));
    map.insert(2, jump(2, 1));
    optimize_jmp(&mut map, 0);
    assert_eq!(map.get(0).unwrap().edge, Control::Unconditional(Target::Label(1)));
    assert_eq!(map.get(1).unwrap().edge, Control::Unconditional(Target::Label(2)));
    assert_eq!(map.get(2).unwrap().edge, Control::Unconditional(Target::Label(1)));
}

#[test]
fn conditional_targets_flattened() {
    let mut map = BlockMap::new();
    map.insert(
        0,
        block(0, vec![body_inst(7)], Control::Condition(3, Target::Label(1), Target::Label(4))),
    );
    map.insert(1, jump(1, 2));
    map.insert(2, ret0(2));
    map.insert(4, ret0(4));
    optimize_jmp(&mut map, 0);
    assert_eq!(
        map.get(0).unwrap().edge,
        Control::Condition(3, Target::Label(2), Target::Label(4))
    );
    // the trampoline's own edge is untouched
    assert_eq!(map.get(1).unwrap().edge, Control::Unconditional(Target::Label(2)));
}

#[test]
fn unreachable_blocks_untouched() {
    let mut map = BlockMap::new();
    map.insert(0, ret0(0));
    map.insert(5, jump(5, 6)); // unreachable from entry
    map.insert(6, jump(6, 7));
    map.insert(7, ret0(7));
    optimize_jmp(&mut map, 0);
    assert_eq!(map.get(5).unwrap().edge, Control::Unconditional(Target::Label(6)));
}

#[test]
fn build_map_indexes_blocks_by_label() {
    let f = sample_function();
    let map = build_block_map(&f);
    assert_eq!(map.get(7).unwrap().edge, Control::Unconditional(Target::Label(2)));
    assert_eq!(map.get(2).unwrap().edge, Control::Return0);
    assert!(map.get(42).is_none());
}

#[test]
fn empty_step_list_is_identity() {
    let mut f = sample_function();
    Function::try_mutate(&mut f, &vec![]);
    assert_eq!(f, sample_function());
}
