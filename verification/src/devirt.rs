//! The devirtualizer: collapses jump-trampoline chains. A trampoline is a
//! block with an empty body whose only edge is an unconditional jump to a
//! label; an obfuscator threads control flow through chains of them. The
//! pass walks the blocks reachable from an entry label, depth first with a
//! visited set, and rewrites every edge target of a visited block to the
//! final destination of its trampoline chain; a trampoline cycle is left
//! unresolved rather than followed forever, and unreachable blocks are not
//! touched.

use vstd::prelude::*;
use vstd::set_lib::lemma_len_subset;
use crate::function::Function;
use crate::ir::{edge_label_seq, Block, Control, Inst, Target};

verus! {

/// A mapping from label to block, the representation every cross-block
/// reference resolves through; entries can be reordered or replaced
/// without invalidating references.
pub struct BlockMap {
    entries: Vec<(u32, Block)>,
}

/// The mapping a list of keyed entries builds up, later entries winning.
pub open spec fn entries_map(s: Seq<(u32, Block)>) -> Map<u32, Block>
    decreases s.len(),
{
    if s.len() == 0 {
        Map::empty()
    } else {
        entries_map(s.drop_last()).insert(s.last().0, s.last().1)
    }
}

/// The built map holds exactly the keys of the list, and for each key the
/// value of its last entry; its domain is finite and no larger than the
/// list.
pub proof fn lemma_entries_map(s: Seq<(u32, Block)>)
    ensures
        entries_map(s).dom().finite(),
        entries_map(s).dom().len() <= s.len(),
        forall|l: u32| entries_map(s).dom().contains(l) <==> exists|j: int|
            0 <= j < s.len() && (#[trigger] s[j]).0 == l,
        forall|i: int|
            0 <= i < s.len() && (forall|j: int| i < j < s.len() ==> (#[trigger] s[j]).0 != s[i].0)
                ==> entries_map(s)[(#[trigger] s[i]).0] == s[i].1,
    decreases s.len(),
{
    broadcast use vstd::set::group_set_axioms;

    if s.len() > 0 {
        lemma_entries_map(s.drop_last());
        assert forall|l: u32| entries_map(s).dom().contains(l) implies exists|j: int|
            0 <= j < s.len() && (#[trigger] s[j]).0 == l by {
            if l == s.last().0 {
                assert(s[s.len() - 1].0 == l);
            } else {
                let j = choose|j: int|
                    0 <= j < s.drop_last().len() && (#[trigger] s.drop_last()[j]).0 == l;
                assert(s[j].0 == l);
            }
        }
        assert forall|l: u32|
            (exists|j: int| 0 <= j < s.len() && (#[trigger] s[j]).0 == l) implies entries_map(
            s,
        ).dom().contains(l) by {
            let j = choose|j: int| 0 <= j < s.len() && (#[trigger] s[j]).0 == l;
            if j < s.len() - 1 {
                assert(s.drop_last()[j].0 == l);
            }
        }
        assert forall|i: int|
            0 <= i < s.len() && (forall|j: int| i < j < s.len() ==> (#[trigger] s[j]).0 != s[i].0)
                implies entries_map(s)[(#[trigger] s[i]).0] == s[i].1 by {
            if i == s.len() - 1 {
            } else {
                assert(s[s.len() - 1].0 != s[i].0);
                assert(s.drop_last()[i] == s[i]);
                assert forall|j: int|
                    i < j < s.drop_last().len() implies (#[trigger] s.drop_last()[j]).0 != s[i].0
                    by {
                    assert(s.drop_last()[j] == s[j]);
                }
            }
        }
    }
}

impl View for BlockMap {
    type V = Map<u32, Block>;

    closed spec fn view(&self) -> Map<u32, Block> {
        entries_map(self.entries@)
    }
}

impl BlockMap {
    /// An empty mapping.
    pub fn new() -> (r: BlockMap)
        ensures
            r@ == Map::<u32, Block>::empty(),
    {
        BlockMap { entries: Vec::new() }
    }

    /// Binds `l` to `b`, replacing any earlier binding.
    pub fn insert(&mut self, l: u32, b: Block)
        ensures
            final(self)@ == old(self)@.insert(l, b),
    {
        let ghost pre = self.entries@;
        self.entries.push((l, b));
        proof {
            assert(self.entries@.drop_last() =~= pre);
        }
    }

    /// Looks the label up.
    pub fn get(&self, l: u32) -> (r: Option<&Block>)
        ensures
            match r {
                Some(b) => self@.dom().contains(l) && *b == self@[l],
                None => !self@.dom().contains(l),
            },
    {
        let mut i: usize = self.entries.len();
        while i > 0
            invariant
                i <= self.entries@.len(),
                forall|j: int| i <= j < self.entries@.len() ==> (#[trigger] self.entries@[j]).0
                    != l,
        decreases i,
        {
            i = i - 1;
            if self.entries[i].0 == l {
                proof {
                    lemma_entries_map(self.entries@);
                }
                return Some(&self.entries[i].1);
            }
        }
        proof {
            lemma_entries_map(self.entries@);
        }
        None
    }
}

/// Whether the map binds `t` to a trampoline, and if so where that
/// trampoline jumps: an empty body and a single unconditional labeled
/// edge.
pub open spec fn tramp_next(m: Map<u32, Block>, t: u32) -> Option<u32> {
    if m.dom().contains(t) && m[t].body@.len() == 0 {
        match m[t].edge {
            Control::Unconditional(Target::Label(u)) => Some(u),
            _ => Option::<u32>::None,
        }
    } else {
        Option::<u32>::None
    }
}

/// The label reached from `t` after `n` trampoline hops (fewer when the
/// chain ends earlier).
pub open spec fn hops(m: Map<u32, Block>, t: u32, n: nat) -> u32
    decreases n,
{
    if n == 0 {
        t
    } else {
        match tramp_next(m, hops(m, t, (n - 1) as nat)) {
            Some(u) => u,
            None => hops(m, t, (n - 1) as nat),
        }
    }
}

/// `u` lies on the trampoline chain that starts at `t`.
pub open spec fn resolves_to(m: Map<u32, Block>, t: u32, u: u32) -> bool {
    exists|n: nat| u == hops(m, t, n)
}

/// The chain from `u` revisits a trampoline: it is locked in a cycle and
/// has no final destination.
pub open spec fn chain_cyclic(m: Map<u32, Block>, u: u32) -> bool {
    exists|i: nat, j: nat|
        i < j && #[trigger] hops(m, u, i) == #[trigger] hops(m, u, j) && tramp_next(
            m,
            hops(m, u, i),
        ) is Some
}

/// A finished resolution: the target is no trampoline — or its chain is
/// cyclic, in which case it is deliberately left where it was.
pub open spec fn target_final(m: Map<u32, Block>, u: u32) -> bool {
    tramp_next(m, u) is None || chain_cyclic(m, u)
}

/// Every target reaches itself along the chain, in zero hops.
pub proof fn lemma_resolves_refl(m: Map<u32, Block>, t: u32)
    ensures
        resolves_to(m, t, t),
{
    assert(t == hops(m, t, 0));
}

/// The one label the pass resolves `t` to: it lies on `t`'s chain, it is
/// final, and a cyclic chain resolves to `t` itself.
pub open spec fn is_resolution(m: Map<u32, Block>, t: u32, b: u32) -> bool {
    &&& resolves_to(m, t, b)
    &&& target_final(m, b)
    &&& (chain_cyclic(m, t) ==> b == t)
}

/// Hops compose: walking `k` hops from the chain point `i` hops in is the
/// same as walking `i + k` hops.
proof fn lemma_hops_compose(m: Map<u32, Block>, t: u32, i: nat, k: nat)
    ensures
        hops(m, hops(m, t, i), k) == hops(m, t, i + k),
    decreases k,
{
    if k > 0 {
        lemma_hops_compose(m, t, i, (k - 1) as nat);
    }
}

/// A point on an acyclic chain has an acyclic chain of its own.
proof fn lemma_chain_point_acyclic(m: Map<u32, Block>, t: u32, i: nat)
    requires
        !chain_cyclic(m, t),
    ensures
        !chain_cyclic(m, hops(m, t, i)),
{
    let b = hops(m, t, i);
    if chain_cyclic(m, b) {
        let (p, q): (nat, nat) = choose|p: nat, q: nat|
            p < q && #[trigger] hops(m, b, p) == #[trigger] hops(m, b, q) && tramp_next(
                m,
                hops(m, b, p),
            ) is Some;
        lemma_hops_compose(m, t, i, p);
        lemma_hops_compose(m, t, i, q);
        assert(hops(m, t, i + p) == hops(m, t, i + q));
        assert(false);
    }
}

/// There is exactly one resolution of each target: the rewrite the pass
/// owes for a target is uniquely determined by the map, so two conforming
/// runs rewrite every edge identically.
pub proof fn lemma_resolution_unique(m: Map<u32, Block>, t: u32, b1: u32, b2: u32)
    requires
        is_resolution(m, t, b1),
        is_resolution(m, t, b2),
    ensures
        b1 == b2,
{
    if chain_cyclic(m, t) {
    } else {
        let i = choose|i: nat| b1 == hops(m, t, i);
        let j = choose|j: nat| b2 == hops(m, t, j);
        lemma_chain_point_acyclic(m, t, i);
        lemma_chain_point_acyclic(m, t, j);
        assert(tramp_next(m, b1) is None);
        assert(tramp_next(m, b2) is None);
        if i <= j {
            lemma_hops_stable(m, t, i, j);
        } else {
            lemma_hops_stable(m, t, j, i);
        }
    }
}

/// How one rewritten target relates to the one it replaces: a label moves
/// along its own trampoline chain of the original map; the sentinel stays.
pub open spec fn target_rewritten(m: Map<u32, Block>, a: Target, b: Target) -> bool {
    match (a, b) {
        (Target::Label(t), Target::Label(u)) => resolves_to(m, t, u),
        (Target::Exit, Target::Exit) => true,
        _ => false,
    }
}

/// A fully carried-out target rewrite: moved along its chain, final, and
/// left in place when the chain is cyclic.
pub open spec fn target_resolved(m: Map<u32, Block>, a: Target, b: Target) -> bool {
    &&& target_rewritten(m, a, b)
    &&& (b is Label ==> target_final(m, b->Label_0))
    &&& tgt_cyclic_kept(m, a, b)
}

/// How a rewritten terminator relates to the one it replaces: the same
/// variant and condition, with each target moved along its own trampoline
/// chain of the original map.
pub open spec fn edge_rewritten(m0: Map<u32, Block>, a: Control, b: Control) -> bool {
    match (a, b) {
        (Control::Unconditional(t1), Control::Unconditional(t2)) => target_rewritten(m0, t1, t2),
        (Control::Condition(c1, t1, f1), Control::Condition(c2, t2, f2)) => c2 == c1
            && target_rewritten(m0, t1, t2) && target_rewritten(m0, f1, f2),
        (Control::Loop(c1, f1, t1), Control::Loop(c2, f2, t2)) => c2 == c1 && target_rewritten(
            m0,
            f1,
            f2,
        ) && target_rewritten(m0, t1, t2),
        (Control::LFalseSkip(c1, t1), Control::LFalseSkip(c2, t2)) => c2 == c1 && target_rewritten(
            m0,
            t1,
            t2,
        ),
        _ => b == a,
    }
}

/// A labeled target whose chain is cyclic is left exactly where it was.
pub open spec fn tgt_cyclic_kept(m: Map<u32, Block>, a: Target, b: Target) -> bool {
    match a {
        Target::Label(l) => chain_cyclic(m, l) ==> b == a,
        Target::Exit => true,
    }
}

/// Every target of the rewritten terminator whose old chain is cyclic is
/// left unchanged.
pub open spec fn cyclic_targets_kept(m0: Map<u32, Block>, a: Control, b: Control) -> bool {
    match (a, b) {
        (Control::Unconditional(t1), Control::Unconditional(t2)) => tgt_cyclic_kept(m0, t1, t2),
        (Control::Condition(_, t1, f1), Control::Condition(_, t2, f2)) => tgt_cyclic_kept(
            m0,
            t1,
            t2,
        ) && tgt_cyclic_kept(m0, f1, f2),
        (Control::Loop(_, f1, t1), Control::Loop(_, f2, t2)) => tgt_cyclic_kept(m0, f1, f2)
            && tgt_cyclic_kept(m0, t1, t2),
        (Control::LFalseSkip(_, t1), Control::LFalseSkip(_, t2)) => tgt_cyclic_kept(m0, t1, t2),
        _ => true,
    }
}

/// A rewrite the pass has carried through: the same shape with every
/// target moved along its chain, every new labeled target final, and
/// every target locked in a cycle left as it was.
pub open spec fn edge_resolved(m0: Map<u32, Block>, a: Control, b: Control) -> bool {
    &&& edge_rewritten(m0, a, b)
    &&& (forall|k: int|
        0 <= k < edge_label_seq(b).len() ==> target_final(m0, #[trigger] edge_label_seq(b)[k]))
    &&& cyclic_targets_kept(m0, a, b)
}

/// An untouched terminator counts as rewritten along zero hops.
pub proof fn lemma_edge_rewritten_refl(m0: Map<u32, Block>, c: Control)
    ensures
        edge_rewritten(m0, c, c),
{
    match c {
        Control::Unconditional(t) => {
            lemma_target_rewritten_refl(m0, t);
        },
        Control::Condition(_, t1, f1) => {
            lemma_target_rewritten_refl(m0, t1);
            lemma_target_rewritten_refl(m0, f1);
        },
        Control::Loop(_, f1, t1) => {
            lemma_target_rewritten_refl(m0, f1);
            lemma_target_rewritten_refl(m0, t1);
        },
        Control::LFalseSkip(_, t1) => {
            lemma_target_rewritten_refl(m0, t1);
        },
        _ => {},
    }
}

/// An untouched target counts as rewritten along zero hops.
pub proof fn lemma_target_rewritten_refl(m0: Map<u32, Block>, t: Target)
    ensures
        target_rewritten(m0, t, t),
{
    match t {
        Target::Label(l) => {
            lemma_resolves_refl(m0, l);
        },
        Target::Exit => {},
    }
}

/// One traversal step: some successor label of `a`'s terminator resolves
/// along its trampoline chain to `b`.
pub open spec fn reach_step(m: Map<u32, Block>, a: u32, b: u32) -> bool {
    m.dom().contains(a) && exists|k: int|
        0 <= k < edge_label_seq(m[a].edge).len() && resolves_to(
            m,
            #[trigger] edge_label_seq(m[a].edge)[k],
            b,
        )
}

/// Consecutive entries of `p` are traversal steps.
pub open spec fn reach_path(m: Map<u32, Block>, p: Seq<u32>) -> bool {
    p.len() >= 1 && (forall|i: int| 0 <= i < p.len() - 1 ==> reach_step(m, #[trigger] p[i], p[i + 1]))
}

/// `l` is reachable from `entry` through resolved successor labels: what
/// the devirtualizer's walk can visit.
pub open spec fn reachable(m: Map<u32, Block>, entry: u32, l: u32) -> bool {
    exists|p: Seq<u32>| reach_path(m, p) && p[0] == entry && p.last() == l
}

/// The entry reaches itself.
pub proof fn lemma_reachable_self(m: Map<u32, Block>, entry: u32)
    ensures
        reachable(m, entry, entry),
{
    let p = seq![entry];
    assert(reach_path(m, p));
    assert(p[0] == entry && p.last() == entry);
}

/// Reachability extends along one traversal step.
pub proof fn lemma_reachable_step(m: Map<u32, Block>, entry: u32, a: u32, b: u32)
    requires
        reachable(m, entry, a),
        reach_step(m, a, b),
    ensures
        reachable(m, entry, b),
{
    let p = choose|p: Seq<u32>| reach_path(m, p) && p[0] == entry && p.last() == a;
    let q = p.push(b);
    assert(reach_path(m, q)) by {
        assert forall|i: int| 0 <= i < q.len() - 1 implies reach_step(m, #[trigger] q[i], q[i + 1])
            by {
            if i < p.len() - 1 {
                assert(q[i] == p[i]);
                assert(q[i + 1] == p[i + 1]);
            } else {
                assert(q[i] == p[p.len() - 1]);
                assert(q[i + 1] == b);
            }
        }
    }
    assert(q[0] == entry && q.last() == b);
}

/// The labels of two targets of matching shape, resolving pointwise: each
/// new label is the resolution of the old label at its position.
pub proof fn lemma_pointwise_one(m: Map<u32, Block>, a: Target, b: Target)
    requires
        target_resolved(m, a, b),
    ensures
        crate::ir::target_labels_of(b).len() == crate::ir::target_labels_of(a).len(),
        forall|k: int|
            0 <= k < crate::ir::target_labels_of(a).len() ==> is_resolution(
                m,
                crate::ir::target_labels_of(a)[k],
                #[trigger] crate::ir::target_labels_of(b)[k],
            ),
{
    match (a, b) {
        (Target::Label(x), Target::Label(y)) => {
            assert(crate::ir::target_labels_of(a) =~= seq![x]);
            assert(crate::ir::target_labels_of(b) =~= seq![y]);
        },
        (Target::Exit, Target::Exit) => {
            assert(crate::ir::target_labels_of(a) =~= Seq::<u32>::empty());
            assert(crate::ir::target_labels_of(b) =~= Seq::<u32>::empty());
        },
        _ => {},
    }
}

/// The same, for the two targets of a two-successor terminator taken
/// together in order.
pub proof fn lemma_pointwise_two(m: Map<u32, Block>, a1: Target, a2: Target, b1: Target, b2: Target)
    requires
        target_resolved(m, a1, b1),
        target_resolved(m, a2, b2),
    ensures
        (crate::ir::target_labels_of(b1) + crate::ir::target_labels_of(b2)).len() == (
        crate::ir::target_labels_of(a1) + crate::ir::target_labels_of(a2)).len(),
        forall|k: int|
            0 <= k < (crate::ir::target_labels_of(a1) + crate::ir::target_labels_of(a2)).len()
                ==> is_resolution(
                m,
                (crate::ir::target_labels_of(a1) + crate::ir::target_labels_of(a2))[k],
                #[trigger] (crate::ir::target_labels_of(b1) + crate::ir::target_labels_of(b2))[k],
            ),
{
    lemma_pointwise_one(m, a1, b1);
    lemma_pointwise_one(m, a2, b2);
    let la1 = crate::ir::target_labels_of(a1);
    let la2 = crate::ir::target_labels_of(a2);
    let lb1 = crate::ir::target_labels_of(b1);
    let lb2 = crate::ir::target_labels_of(b2);
    assert forall|k: int| 0 <= k < (la1 + la2).len() implies is_resolution(
        m,
        (la1 + la2)[k],
        #[trigger] (lb1 + lb2)[k],
    ) by {
        if k < la1.len() {
            assert((la1 + la2)[k] == la1[k]);
            assert((lb1 + lb2)[k] == lb1[k]);
        } else {
            assert((la1 + la2)[k] == la2[k - la1.len()]);
            assert((lb1 + lb2)[k] == lb2[k - la1.len()]);
        }
    }
}

/// Whether the list holds the label.
fn seen_contains(seen: &Vec<u32>, l: u32) -> (r: bool)
    ensures
        r == seen@.contains(l),
{
    let mut i: usize = 0;
    while i < seen.len()
        invariant
            i <= seen@.len(),
            forall|j: int| 0 <= j < i ==> seen@[j] != l,
        decreases seen@.len() - i,
    {
        if seen[i] == l {
            return true;
        }
        i = i + 1;
    }
    false
}

/// Once the chain reaches a label that is no trampoline, it stays there.
proof fn lemma_hops_stable(m: Map<u32, Block>, t: u32, n: nat, k: nat)
    requires
        tramp_next(m, hops(m, t, n)) is None,
        n <= k,
    ensures
        hops(m, t, k) == hops(m, t, n),
    decreases k - n,
{
    if k > n {
        lemma_hops_stable(m, t, n, (k - 1) as nat);
    }
}

/// A chain that walked through distinct trampolines and then reached a
/// label that is no trampoline never revisits anything: it is acyclic.
proof fn lemma_chain_acyclic(m: Map<u32, Block>, t0: u32, seen: Seq<u32>, n: nat, cur: u32)
    requires
        cur == hops(m, t0, n),
        tramp_next(m, cur) is None,
        seen.len() == n,
        seen.no_duplicates(),
        forall|i: int|
            0 <= i < n ==> #[trigger] seen[i] == hops(m, t0, i as nat) && tramp_next(m, seen[i])
                is Some,
    ensures
        !chain_cyclic(m, t0),
{
    assert forall|i: nat, j: nat|
        i < j && #[trigger] hops(m, t0, i) == #[trigger] hops(m, t0, j) implies !(tramp_next(
        m,
        hops(m, t0, i),
    ) is Some) by {
        if i < n {
            if j < n {
                assert(seen[i as int] == hops(m, t0, i));
                assert(seen[j as int] == hops(m, t0, j));
                assert(seen[i as int] != seen[j as int]);
            } else {
                lemma_hops_stable(m, t0, n, j);
            }
        } else {
            lemma_hops_stable(m, t0, n, i);
        }
    }
}

/// Follows the trampoline chain from `t0` to its final destination: a
/// label that is no trampoline. A cyclic chain gives the original target
/// back, unresolved and unchanged.
fn resolve_target(map: &BlockMap, t0: u32) -> (r: u32)
    ensures
        is_resolution(map@, t0, r),
{
    let ghost m = map@;
    proof {
        lemma_entries_map(map.entries@);
    }
    let mut seen: Vec<u32> = Vec::new();
    let mut cur: u32 = t0;
    let ghost mut n: nat = 0;
    loop
        invariant
            m == map@,
            m.dom().finite(),
            cur == hops(m, t0, n),
            seen@.len() == n,
            seen@.no_duplicates(),
            forall|i: int| 0 <= i < seen@.len() ==> m.dom().contains(#[trigger] seen@[i]),
            seen@.len() <= m.dom().len(),
            forall|i: int|
                0 <= i < seen@.len() ==> #[trigger] seen@[i] == hops(m, t0, i as nat)
                    && tramp_next(m, seen@[i]) is Some,
        decreases m.dom().len() - seen@.len(),
    {
        let tramp_to: u32;
        match map.get(cur) {
            None => {
                proof {
                    lemma_chain_acyclic(m, t0, seen@, n, cur);
                }
                return cur;
            },
            Some(b) => {
                if b.body.len() == 0 {
                    match &b.edge {
                        Control::Unconditional(t) => {
                            match t {
                                Target::Label(u) => {
                                    tramp_to = *u;
                                },
                                Target::Exit => {
                                    proof {
                                        lemma_chain_acyclic(m, t0, seen@, n, cur);
                                    }
                                    return cur;
                                },
                            }
                        },
                        _ => {
                            proof {
                                lemma_chain_acyclic(m, t0, seen@, n, cur);
                            }
                            return cur;
                        },
                    }
                } else {
                    proof {
                        lemma_chain_acyclic(m, t0, seen@, n, cur);
                    }
                    return cur;
                }
            },
        }
        // `cur` is a trampoline jumping to `tramp_to`
        proof {
            assert(tramp_next(m, cur) == Some(tramp_to));
        }
        if seen_contains(&seen, cur) {
            proof {
                lemma_resolves_refl(m, t0);
                let k = choose|k: int| 0 <= k < seen@.len() && seen@[k] == cur;
                assert(hops(m, t0, k as nat) == cur);
                assert(hops(m, t0, n) == cur);
                assert(chain_cyclic(m, t0));
            }
            return t0;
        }
        seen.push(cur);
        proof {
            broadcast use vstd::seq_lib::seq_to_set_is_finite;

            assert(tramp_to == hops(m, t0, n + 1));
            n = n + 1;
            seen@.unique_seq_to_set();
            assert(seen@.to_set().subset_of(m.dom()));
            lemma_len_subset(seen@.to_set(), m.dom());
        }
        cur = tramp_to;
    }
}

/// Rewrites one target: a label moves to the final destination of its
/// trampoline chain; the sentinel stays. A change is appended to the
/// report as (from, to).
fn resolve_tgt(map: &BlockMap, t: &Target, report: &mut Vec<(u32, u32)>) -> (r: Target)
    ensures
        target_rewritten(map@, *t, r),
        r is Label ==> target_final(map@, r->Label_0),
        tgt_cyclic_kept(map@, *t, r),
        final(report)@.len() >= old(report)@.len(),
        forall|k: int| 0 <= k < old(report)@.len() ==> final(report)@[k] == old(report)@[k],
        forall|k: int|
            old(report)@.len() <= k < final(report)@.len() ==> is_resolution(
                map@,
                (#[trigger] final(report)@[k]).0,
                final(report)@[k].1,
            ) && final(report)@[k].1 != final(report)@[k].0,
{
    match t {
        Target::Label(l) => {
            let u = resolve_target(map, *l);
            if u != *l {
                report.push((*l, u));
            }
            Target::Label(u)
        },
        Target::Exit => Target::Exit,
    }
}

/// Rewrites one terminator: each labeled target moves to the final
/// destination of its trampoline chain, and any change lands in the
/// report.
fn rewrite_edge(map: &BlockMap, c: &Control, report: &mut Vec<(u32, u32)>) -> (r: Control)
    ensures
        edge_resolved(map@, *c, r),
        edge_label_seq(r).len() == edge_label_seq(*c).len(),
        forall|k: int|
            0 <= k < edge_label_seq(*c).len() ==> is_resolution(
                map@,
                edge_label_seq(*c)[k],
                #[trigger] edge_label_seq(r)[k],
            ),
        final(report)@.len() >= old(report)@.len(),
        forall|k: int| 0 <= k < old(report)@.len() ==> final(report)@[k] == old(report)@[k],
        forall|k: int|
            old(report)@.len() <= k < final(report)@.len() ==> is_resolution(
                map@,
                (#[trigger] final(report)@[k]).0,
                final(report)@[k].1,
            ) && final(report)@[k].1 != final(report)@[k].0,
{
    match c {
        Control::Unconditional(t) => {
            let nt = resolve_tgt(map, t, report);
            let r = Control::Unconditional(nt);
            proof {
                assert(edge_label_seq(r) =~= crate::ir::target_labels_of(nt));
                assert(edge_label_seq(*c) =~= crate::ir::target_labels_of(*t));
                lemma_pointwise_one(map@, *t, nt);
            }
            r
        },
        Control::Condition(cond, t1, t2) => {
            let n1 = resolve_tgt(map, t1, report);
            let n2 = resolve_tgt(map, t2, report);
            let r = Control::Condition(*cond, n1, n2);
            proof {
                assert(edge_label_seq(r) =~= crate::ir::target_labels_of(n1)
                    + crate::ir::target_labels_of(n2));
                assert(edge_label_seq(*c) =~= crate::ir::target_labels_of(*t1)
                    + crate::ir::target_labels_of(*t2));
                lemma_pointwise_two(map@, *t1, *t2, n1, n2);
            }
            r
        },
        Control::Loop(cond, f1, t1) => {
            let nf = resolve_tgt(map, f1, report);
            let nt = resolve_tgt(map, t1, report);
            let r = Control::Loop(*cond, nf, nt);
            proof {
                assert(edge_label_seq(r) =~= crate::ir::target_labels_of(nt)
                    + crate::ir::target_labels_of(nf));
                assert(edge_label_seq(*c) =~= crate::ir::target_labels_of(*t1)
                    + crate::ir::target_labels_of(*f1));
                lemma_pointwise_two(map@, *t1, *f1, nt, nf);
            }
            r
        },
        Control::LFalseSkip(cond, t) => {
            let nt = resolve_tgt(map, t, report);
            let r = Control::LFalseSkip(*cond, nt);
            proof {
                assert(edge_label_seq(r) =~= crate::ir::target_labels_of(nt));
                assert(edge_label_seq(*c) =~= crate::ir::target_labels_of(*t));
                lemma_pointwise_one(map@, *t, nt);
            }
            r
        },
        Control::Return0 => Control::Return0,
        Control::Return1(x) => Control::Return1(*x),
        Control::Return(x, y, z, w) => Control::Return(*x, *y, *z, *w),
    }
}

/// A fresh copy of a block's body.
fn copy_body(v: &Vec<Inst>) -> (r: Vec<Inst>)
    ensures
        r@ == v@,
{
    let mut r: Vec<Inst> = Vec::new();
    let mut i: usize = 0;
    while i < v.len()
        invariant
            i <= v@.len(),
            r@ == v@.take(i as int),
        decreases v@.len() - i,
    {
        r.push(v[i]);
        proof {
            assert(v@.take(i + 1) =~= v@.take(i as int).push(v@[i as int]));
        }
        i = i + 1;
    }
    proof {
        assert(v@.take(v@.len() as int) =~= v@);
    }
    r
}

/// Rewrites every block the walk from `entry` visits: each edge target is
/// replaced by the final destination of its trampoline chain against the
/// map as it stood on entry, so a chain of any length is collapsed in one
/// pass and a cycle is left unresolved. Labels, bodies, and the domain
/// are untouched; a block the walk cannot reach is left exactly as it
/// was; the entry's own block is always rewritten in full, and so is
/// every block whose edge changed at all. The report lists each rewritten
/// target as (from, to).
#[verifier::rlimit(100)]
pub fn optimize_jmp(map: &mut BlockMap, entry: u32) -> (report: Vec<(u32, u32)>)
    ensures
        final(map)@.dom() == old(map)@.dom(),
        forall|l: u32| old(map)@.dom().contains(l) ==> {
            &&& (#[trigger] final(map)@[l]).label == old(map)@[l].label
            &&& final(map)@[l].body@ == old(map)@[l].body@
            &&& edge_rewritten(old(map)@, old(map)@[l].edge, final(map)@[l].edge)
        },
        forall|l: u32|
            old(map)@.dom().contains(l) && (#[trigger] final(map)@[l]).edge != old(map)@[l].edge
                ==> edge_resolved(old(map)@, old(map)@[l].edge, final(map)@[l].edge),
        old(map)@.dom().contains(entry) ==> edge_resolved(
            old(map)@,
            old(map)@[entry].edge,
            final(map)@[entry].edge,
        ),
        forall|l: u32|
            old(map)@.dom().contains(l) && !reachable(old(map)@, entry, l) ==> final(map)@[l]
                == #[trigger] old(map)@[l],
        forall|k: int|
            0 <= k < report@.len() ==> is_resolution(
                old(map)@,
                (#[trigger] report@[k]).0,
                report@[k].1,
            ) && report@[k].1 != report@[k].0,
{
    let ghost m0: Map<u32, Block> = map@;
    proof {
        lemma_entries_map(map.entries@);
    }
    let mut report: Vec<(u32, u32)> = Vec::new();
    // phase one: walk the reachable blocks and plan each rewrite
    let mut rewrites: Vec<(u32, Control)> = Vec::new();
    let mut visited: Vec<u32> = Vec::new();
    let mut work: Vec<u32> = Vec::new();
    work.push(entry);
    proof {
        lemma_reachable_self(m0, entry);
    }
    while work.len() > 0
        invariant
            m0 == map@,
            m0.dom().finite(),
            visited@.no_duplicates(),
            forall|i: int| 0 <= i < visited@.len() ==> m0.dom().contains(#[trigger] visited@[i]),
            visited@.len() <= m0.dom().len(),
            forall|i: int| 0 <= i < visited@.len() ==> reachable(m0, entry, #[trigger] visited@[i]),
            forall|i: int| 0 <= i < work@.len() ==> reachable(m0, entry, #[trigger] work@[i]),
            forall|i: int| 0 <= i < rewrites@.len() ==> {
                &&& m0.dom().contains((#[trigger] rewrites@[i]).0)
                &&& edge_resolved(m0, m0[rewrites@[i].0].edge, rewrites@[i].1)
                &&& visited@.contains(rewrites@[i].0)
            },
            forall|i: int, j: int|
                0 <= i < j < rewrites@.len() ==> (#[trigger] rewrites@[i]).0 != (
                #[trigger] rewrites@[j]).0,
            m0.dom().contains(entry) ==> (rewrites@.len() == 0 && work@ == seq![entry] && visited@
                == Seq::<u32>::empty()) || (rewrites@.len() > 0 && rewrites@[0].0 == entry),
            forall|k: int|
                0 <= k < report@.len() ==> is_resolution(m0, (#[trigger] report@[k]).0, report@[k].1)
                    && report@[k].1 != report@[k].0,
        decreases m0.dom().len() - visited@.len(), work@.len(),
    {
        let l = match work.pop() {
            Some(l) => l,
            None => {
                continue;
            },
        };
        if seen_contains(&visited, l) {
            continue;
        }
        let edge: Control = match map.get(l) {
            Some(b) => b.edge,
            None => {
                continue;
            },
        };
        let ghost pre_visited = visited@;
        visited.push(l);
        proof {
            broadcast use vstd::seq_lib::seq_to_set_is_finite;

            visited@.unique_seq_to_set();
            assert(visited@.to_set().subset_of(m0.dom()));
            lemma_len_subset(visited@.to_set(), m0.dom());
            assert forall|x: u32| pre_visited.contains(x) implies visited@.contains(x) by {
                let idx = choose|idx: int| 0 <= idx < pre_visited.len() && pre_visited[idx] == x;
                assert(visited@[idx] == x);
            }
            assert(visited@[visited@.len() - 1] == l);
            assert(visited@.contains(l));
        }
        let new_edge = rewrite_edge(map, &edge, &mut report);
        rewrites.push((l, new_edge));
        // continue the walk at each resolved destination
        let succs = Block { label: l, body: Vec::new(), edge: new_edge }.get_target_labels();
        let mut si: usize = 0;
        while si < succs.len()
            invariant
                m0 == map@,
                succs@ == edge_label_seq(new_edge),
                reachable(m0, entry, l),
                m0.dom().contains(l),
                edge == m0[l].edge,
                edge_resolved(m0, m0[l].edge, new_edge),
                edge_label_seq(new_edge).len() == edge_label_seq(edge).len(),
                forall|k: int|
                    0 <= k < edge_label_seq(edge).len() ==> is_resolution(
                        m0,
                        edge_label_seq(edge)[k],
                        #[trigger] edge_label_seq(new_edge)[k],
                    ),
                si <= succs@.len(),
                forall|i: int| 0 <= i < work@.len() ==> reachable(m0, entry, #[trigger] work@[i]),
            decreases succs@.len() - si,
        {
            let u = succs[si];
            proof {
                assert(resolves_to(m0, edge_label_seq(m0[l].edge)[si as int], u));
                assert(reach_step(m0, l, u));
                lemma_reachable_step(m0, entry, l, u);
            }
            work.push(u);
            si = si + 1;
        }
    }
    // phase two: apply the planned rewrites
    let ghost plan: Seq<(u32, Control)> = rewrites@;
    let mut ri: usize = 0;
    while ri < rewrites.len()
        invariant
            ri <= rewrites@.len(),
            rewrites@ == plan,
            map@.dom() == m0.dom(),
            forall|i: int| 0 <= i < plan.len() ==> {
                &&& m0.dom().contains((#[trigger] plan[i]).0)
                &&& edge_resolved(m0, m0[plan[i].0].edge, plan[i].1)
                &&& reachable(m0, entry, plan[i].0)
            },
            forall|i: int, j: int|
                0 <= i < j < plan.len() ==> (#[trigger] plan[i]).0 != (#[trigger] plan[j]).0,
            forall|i: int|
                0 <= i < ri ==> {
                    &&& (#[trigger] map@[plan[i].0]).label == m0[plan[i].0].label
                    &&& map@[plan[i].0].body@ == m0[plan[i].0].body@
                    &&& map@[plan[i].0].edge == plan[i].1
                },
            forall|l: u32|
                m0.dom().contains(l) && (forall|i: int|
                    0 <= i < ri ==> (#[trigger] plan[i]).0 != l) ==> #[trigger] map@[l] == m0[l],
        decreases rewrites@.len() - ri,
    {
        let l = rewrites[ri].0;
        let new_edge = rewrites[ri].1;
        let new_block: Block;
        match map.get(l) {
            Some(b) => {
                new_block = Block { label: b.label, body: copy_body(&b.body), edge: new_edge };
            },
            None => {
                proof {
                    assert(map@.dom() =~= m0.dom());
                    assert(false);
                }
                ri = ri + 1;
                continue;
            },
        }
        map.insert(l, new_block);
        proof {
            assert(map@.dom() =~= m0.dom());
        }
        ri = ri + 1;
    }
    proof {
        assert forall|l: u32| m0.dom().contains(l) implies {
            &&& (#[trigger] map@[l]).label == m0[l].label
            &&& map@[l].body@ == m0[l].body@
            &&& edge_rewritten(m0, m0[l].edge, map@[l].edge)
        } by {
            if exists|i: int| 0 <= i < plan.len() && (#[trigger] plan[i]).0 == l {
            } else {
                assert(map@[l] == m0[l]);
                lemma_edge_rewritten_refl(m0, m0[l].edge);
            }
        }
        assert forall|l: u32|
            m0.dom().contains(l) && (#[trigger] map@[l]).edge != m0[l].edge implies edge_resolved(
            m0,
            m0[l].edge,
            map@[l].edge,
        ) by {
            if exists|i: int| 0 <= i < plan.len() && (#[trigger] plan[i]).0 == l {
            } else {
                assert(map@[l] == m0[l]);
            }
        }
        assert forall|l: u32|
            m0.dom().contains(l) && !reachable(m0, entry, l) implies map@[l] == #[trigger] m0[l]
            by {
            if exists|i: int| 0 <= i < plan.len() && (#[trigger] plan[i]).0 == l {
                let i = choose|i: int| 0 <= i < plan.len() && (#[trigger] plan[i]).0 == l;
                assert(reachable(m0, entry, l));
            } else {
                assert(map@[l] == m0[l]);
            }
        }
        if m0.dom().contains(entry) {
            assert(plan.len() > 0 && plan[0].0 == entry);
            assert(map@[entry].edge == plan[0].1);
        }
    }
    report
}

/// Builds the label-to-block mapping of a function's block list, in list
/// order, later blocks winning a shared label; the domain holds exactly
/// the labels of the list.
pub fn build_block_map(f: &Function) -> (r: BlockMap)
    ensures
        forall|i: int|
            0 <= i < f.block_list@.len() && (forall|j: int|
                i < j < f.block_list@.len() ==> (#[trigger] f.block_list@[j]).label
                    != f.block_list@[i].label) ==> {
                &&& r@.dom().contains((#[trigger] f.block_list@[i]).label)
                &&& r@[f.block_list@[i].label].label == f.block_list@[i].label
                &&& r@[f.block_list@[i].label].body@ == f.block_list@[i].body@
                &&& r@[f.block_list@[i].label].edge == f.block_list@[i].edge
            },
        forall|l: u32| r@.dom().contains(l) ==> exists|i: int|
            0 <= i < f.block_list@.len() && (#[trigger] f.block_list@[i]).label == l,
{
    let mut map = BlockMap::new();
    let mut i: usize = 0;
    while i < f.block_list.len()
        invariant
            i <= f.block_list@.len(),
            forall|k: int|
                0 <= k < i && (forall|j: int| k < j < i ==> (#[trigger] f.block_list@[j]).label
                    != f.block_list@[k].label) ==> {
                    &&& map@.dom().contains((#[trigger] f.block_list@[k]).label)
                    &&& map@[f.block_list@[k].label].label == f.block_list@[k].label
                    &&& map@[f.block_list@[k].label].body@ == f.block_list@[k].body@
                    &&& map@[f.block_list@[k].label].edge == f.block_list@[k].edge
                },
            forall|l: u32| map@.dom().contains(l) ==> exists|k: int|
                0 <= k < i && (#[trigger] f.block_list@[k]).label == l,
        decreases f.block_list@.len() - i,
    {
        let b = &f.block_list[i];
        let copy = Block { label: b.label, body: copy_body(&b.body), edge: b.edge };
        map.insert(b.label, copy);
        i = i + 1;
    }
    map
}

} // verus!
