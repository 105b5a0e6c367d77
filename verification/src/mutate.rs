//! The mutation engine: reorders a function tree's four positional
//! containers, depth first — every child is fully mutated before the steps
//! run on the parent. `Random` shuffles each container; `Sorted` orders
//! blocks by label and the keyed lists by key. Per-element content is
//! never altered: only order changes.

use vstd::prelude::*;
use rand::seq::SliceRandom;
use crate::function::{Function, FunctionV};
use crate::ir::Block;

verus! {

/// One reordering step.
#[derive(Clone, Copy, PartialEq, Eq, Structural, Debug)]
pub enum Mutation {
    Random,
    Sorted,
}

/// The label of a block, as a function value.
pub open spec fn label_of_block() -> spec_fn(Block) -> u32 {
    |b: Block| b.label
}

/// The key of a keyed entry, as a function value.
pub open spec fn key_of_pair<T>() -> spec_fn((u64, T)) -> u64 {
    |kv: (u64, T)| kv.0
}

/// Blocks ordered by label, non-strictly.
pub open spec fn blocks_sorted(s: Seq<Block>) -> bool {
    forall|i: int, j: int|
        0 <= i <= j < s.len() ==> (#[trigger] s[i]).label <= (#[trigger] s[j]).label
}

/// Keyed entries ordered by key, non-strictly.
pub open spec fn pairs_sorted<T>(s: Seq<(u64, T)>) -> bool {
    forall|i: int, j: int| 0 <= i <= j < s.len() ==> (#[trigger] s[i]).0 <= (#[trigger] s[j]).0
}

/// All four containers sorted, recursively in every child.
pub open spec fn fully_sorted(f: FunctionV) -> bool
    decreases f,
{
    &&& blocks_sorted(f.block_list)
    &&& pairs_sorted(f.child_list)
    &&& pairs_sorted(f.upval_list)
    &&& pairs_sorted(f.value_list)
    &&& (forall|i: int|
        0 <= i < f.child_list.len() ==> fully_sorted((#[trigger] f.child_list[i]).1))
}

/// What every mutation pass preserves of one function: its metadata, the
/// multiset of its blocks, constants and upvalues (content untouched,
/// order free), and the number and key multiset of its children (the
/// children themselves are mutated recursively).
pub open spec fn level_preserved(a: FunctionV, b: FunctionV) -> bool {
    &&& b.param_count == a.param_count
    &&& b.flags == a.flags
    &&& b.line_info == a.line_info
    &&& b.block_list.to_multiset() == a.block_list.to_multiset()
    &&& b.value_list.to_multiset() == a.value_list.to_multiset()
    &&& b.upval_list.to_multiset() == a.upval_list.to_multiset()
    &&& b.child_list.len() == a.child_list.len()
    &&& b.child_list.map_values(key_of_pair()).to_multiset() == a.child_list.map_values(
        key_of_pair(),
    ).to_multiset()
}

/// Sequences with equal multisets keep equal multisets under any map.
pub proof fn lemma_map_values_multiset<A, B>(s: Seq<A>, t: Seq<A>, f: spec_fn(A) -> B)
    requires
        s.to_multiset() == t.to_multiset(),
    ensures
        s.map_values(f).to_multiset() == t.map_values(f).to_multiset(),
    decreases s.len(),
{
    broadcast use vstd::seq_lib::group_to_multiset_ensures;

    if s.len() == 0 {
        assert(t.to_multiset().len() == 0);
        assert(t.len() == 0);
        assert(s.map_values(f) =~= Seq::<B>::empty());
        assert(t.map_values(f) =~= Seq::<B>::empty());
    } else {
        let x = s.last();
        assert(s.take(s.len() - 1).push(x) =~= s);
        assert(s.to_multiset().contains(x)) by {
            assert(s[s.len() - 1] == x);
            assert(s.contains(x));
        }
        assert(t.to_multiset().contains(x));
        assert(t.contains(x));
        let i = choose|i: int| 0 <= i < t.len() && t[i] == x;
        let s1 = s.take(s.len() - 1);
        let t1 = t.remove(i);
        assert(s1.to_multiset() == s.to_multiset().remove(x)) by {
            assert(s1.push(x).to_multiset() =~= s1.to_multiset().insert(x));
            assert(s.to_multiset() == s1.to_multiset().insert(x));
            assert(s.to_multiset().remove(x) =~= s1.to_multiset());
        }
        assert(t1.to_multiset() == t.to_multiset().remove(x));
        lemma_map_values_multiset(s1, t1, f);
        assert(s1.map_values(f).push(f(x)) =~= s.map_values(f));
        assert(s.map_values(f).to_multiset() =~= s1.map_values(f).to_multiset().insert(f(x)));
        assert(t1.map_values(f) =~= t.map_values(f).remove(i));
        assert(t.map_values(f).remove(i).to_multiset() == t.map_values(f).to_multiset().remove(
            t.map_values(f)[i],
        ));
        assert(t.map_values(f)[i] == f(x));
        assert(t.map_values(f).to_multiset().contains(f(x))) by {
            assert(t.map_values(f)[i] == f(x));
            assert(t.map_values(f).contains(f(x)));
        }
        assert(s.map_values(f).to_multiset() =~= t.map_values(f).to_multiset());
    }
}

/// `perm` maps the positions `0..n` onto themselves, one to one.
pub open spec fn is_position_perm(perm: Seq<int>, n: int) -> bool {
    &&& perm.len() == n
    &&& (forall|i: int| 0 <= i < n ==> 0 <= #[trigger] perm[i] < n)
    &&& (forall|i: int, j: int| 0 <= i < j < n ==> #[trigger] perm[i] != #[trigger] perm[j])
}

/// What a mutation pass preserves at every node of the tree: the metadata,
/// the multiset of each positional container — content moves, it is never
/// altered — and a pairing of old and new children under which every child
/// keeps its key and is itself preserved, recursively.
pub open spec fn content_preserved(a: FunctionV, b: FunctionV) -> bool
    decreases a,
{
    &&& b.param_count == a.param_count
    &&& b.flags == a.flags
    &&& b.line_info == a.line_info
    &&& b.block_list.to_multiset() == a.block_list.to_multiset()
    &&& b.value_list.to_multiset() == a.value_list.to_multiset()
    &&& b.upval_list.to_multiset() == a.upval_list.to_multiset()
    &&& b.child_list.len() == a.child_list.len()
    &&& (exists|perm: Seq<int>|
        is_position_perm(perm, a.child_list.len() as int) && (forall|i: int|
            0 <= i < a.child_list.len() ==> 0 <= #[trigger] perm[i] < a.child_list.len()
                && b.child_list[i].0 == a.child_list[perm[i]].0 && content_preserved(
                a.child_list[perm[i]].1,
                b.child_list[i].1,
            )))
}

/// Sequences with equal multisets are position permutations of each other.
pub proof fn lemma_multiset_to_perm<A>(s: Seq<A>, t: Seq<A>)
    requires
        s.to_multiset() == t.to_multiset(),
    ensures
        t.len() == s.len(),
        exists|perm: Seq<int>|
            is_position_perm(perm, s.len() as int) && (forall|i: int|
                0 <= i < s.len() ==> 0 <= #[trigger] perm[i] < s.len() && t[i] == s[perm[i]]),
    decreases s.len(),
{
    broadcast use vstd::seq_lib::group_to_multiset_ensures;

    if s.len() == 0 {
        assert(t.to_multiset().len() == 0);
        assert(t.len() == 0);
        let perm = Seq::<int>::empty();
        assert(is_position_perm(perm, 0));
    } else {
        assert(s.len() == s.to_multiset().len());
        assert(t.len() == t.to_multiset().len());
        assert(t.len() == s.len());
        let n = s.len() as int;
        let x = t.last();
        assert(t[n - 1] == x);
        assert(t.contains(x));
        assert(t.to_multiset().contains(x));
        assert(s.to_multiset().contains(x));
        assert(s.contains(x));
        let k = choose|k: int| 0 <= k < s.len() && s[k] == x;
        let s1 = s.remove(k);
        let t1 = t.drop_last();
        assert(t1.push(x) =~= t);
        assert(t1.push(x).to_multiset() == t1.to_multiset().insert(x));
        assert(s1.to_multiset() == s.to_multiset().remove(x));
        assert(t1.to_multiset() =~= t.to_multiset().remove(x));
        lemma_multiset_to_perm(s1, t1);
        let p1 = choose|p1: Seq<int>|
            is_position_perm(p1, s1.len() as int) && (forall|i: int|
                0 <= i < s1.len() ==> 0 <= #[trigger] p1[i] < s1.len() && t1[i] == s1[p1[i]]);
        let perm = Seq::<int>::new(n as nat, |i: int| if i == n - 1 { k } else if p1[i] < k { p1[i] } else { p1[i] + 1 });
        assert forall|i: int| 0 <= i < n implies 0 <= #[trigger] perm[i] < n && t[i] == s[perm[i]]
            by {
            if i == n - 1 {
                assert(perm[i] == k);
                assert(t[i] == x);
            } else {
                assert(0 <= p1[i] < s1.len());
                assert(t1[i] == s1[p1[i]]);
                assert(t[i] == t1[i]);
                if p1[i] < k {
                    assert(s1[p1[i]] == s[p1[i]]);
                } else {
                    assert(s1[p1[i]] == s[p1[i] + 1]);
                }
            }
        }
        assert forall|i: int, j: int| 0 <= i < j < n implies #[trigger] perm[i] != #[trigger] perm[j] by {
            if j == n - 1 {
                assert(perm[j] == k);
                assert(perm[i] != k);
            } else {
                assert(p1[i] != p1[j]);
            }
        }
        assert(is_position_perm(perm, n));
    }
}

/// Relies on rand's `SliceRandom::shuffle`: an in-place Fisher-Yates pass
/// that permutes the slice, and on `rand::rng` for the generator. The
/// multiset of elements is unchanged; nothing is promised of the order,
/// which is random.
#[verifier::external_body]
fn shuffle_vec<T>(v: &mut Vec<T>)
    ensures
        final(v)@.to_multiset() == old(v)@.to_multiset(),
{
    let mut rng = rand::rng();
    v.shuffle(&mut rng);
}

/// `perm` carries `news` out of `olds` stably with respect to the pair
/// keys: entries with equal keys keep their old relative order.
pub open spec fn stable_perm_by_key<T>(olds: Seq<(u64, T)>, news: Seq<(u64, T)>, perm: Seq<int>) -> bool {
    &&& is_position_perm(perm, olds.len() as int)
    &&& news.len() == olds.len()
    &&& (forall|i: int|
        0 <= i < olds.len() ==> 0 <= #[trigger] perm[i] < olds.len() && news[i] == olds[perm[i]])
    &&& (forall|i: int, j: int|
        0 <= i < j < olds.len() && olds[#[trigger] perm[i]].0 == olds[#[trigger] perm[j]].0
            ==> perm[i] < perm[j])
}

/// `news` is `olds` stably sorted ascending by key.
pub open spec fn pairs_stably_sorted_of<T>(olds: Seq<(u64, T)>, news: Seq<(u64, T)>) -> bool {
    &&& pairs_sorted(news)
    &&& (exists|perm: Seq<int>| stable_perm_by_key(olds, news, perm))
}

/// `perm` carries `news` out of `olds` stably with respect to the block
/// labels: blocks with equal labels keep their old relative order.
pub open spec fn stable_perm_by_label(olds: Seq<Block>, news: Seq<Block>, perm: Seq<int>) -> bool {
    &&& is_position_perm(perm, olds.len() as int)
    &&& news.len() == olds.len()
    &&& (forall|i: int|
        0 <= i < olds.len() ==> 0 <= #[trigger] perm[i] < olds.len() && news[i] == olds[perm[i]])
    &&& (forall|i: int, j: int|
        0 <= i < j < olds.len() && olds[#[trigger] perm[i]].label == olds[
            #[trigger] perm[j]].label ==> perm[i] < perm[j])
}

/// `news` is `olds` stably sorted ascending by label.
pub open spec fn blocks_stably_sorted_of(olds: Seq<Block>, news: Seq<Block>) -> bool {
    &&& blocks_sorted(news)
    &&& (exists|perm: Seq<int>| stable_perm_by_label(olds, news, perm))
}

/// Sorts blocks by label, ascending, by repeatedly taking the first
/// minimal element: a stable sort, and an input already in order comes
/// back unchanged.
#[verifier::rlimit(100)]
fn sort_blocks(v: &mut Vec<Block>)
    ensures
        blocks_sorted(final(v)@),
        final(v)@.to_multiset() == old(v)@.to_multiset(),
        blocks_sorted(old(v)@) ==> final(v)@ == old(v)@,
        blocks_stably_sorted_of(old(v)@, final(v)@),
{
    broadcast use vstd::seq_lib::group_to_multiset_ensures;

    let ghost orig: Seq<Block> = v@;
    let ghost n: int = orig.len() as int;
    let mut out: Vec<Block> = Vec::new();
    let ghost mut rem: Seq<int> = Seq::new(orig.len(), |i: int| i);
    let ghost mut sel: Seq<int> = Seq::empty();
    while v.len() > 0
        invariant
            n == orig.len(),
            out@.len() + v@.len() == orig.len(),
            out@.to_multiset().add(v@.to_multiset()) == orig.to_multiset(),
            blocks_sorted(out@),
            forall|i: int, j: int|
                0 <= i < out@.len() && 0 <= j < v@.len() ==> (#[trigger] out@[i]).label <= (
                #[trigger] v@[j]).label,
            blocks_sorted(orig) ==> out@ == orig.take(out@.len() as int) && v@ == orig.skip(
                out@.len() as int,
            ),
            rem.len() == v@.len(),
            sel.len() == out@.len(),
            forall|i: int| 0 <= i < rem.len() ==> 0 <= #[trigger] rem[i] < n && v@[i] == orig[rem[i]],
            forall|i: int| 0 <= i < sel.len() ==> 0 <= #[trigger] sel[i] < n && out@[i]
                == orig[sel[i]],
            forall|i: int, j: int| 0 <= i < j < rem.len() ==> #[trigger] rem[i] < #[trigger] rem[j],
            forall|i: int, j: int| 0 <= i < j < sel.len() ==> #[trigger] sel[i] != #[trigger] sel[j],
            forall|i: int, j: int|
                0 <= i < sel.len() && 0 <= j < rem.len() ==> #[trigger] sel[i] != #[trigger] rem[j],
            forall|i: int, j: int|
                0 <= i < sel.len() && 0 <= j < rem.len() && orig[#[trigger] sel[i]].label == orig[
                    #[trigger] rem[j]].label ==> sel[i] < rem[j],
            forall|i: int, j: int|
                0 <= i < j < sel.len() && orig[#[trigger] sel[i]].label == orig[
                    #[trigger] sel[j]].label ==> sel[i] < sel[j],
        decreases v@.len(),
    {
        let mut m: usize = 0;
        let mut j: usize = 1;
        while j < v.len()
            invariant
                v@.len() > 0,
                m < j,
                j <= v@.len(),
                forall|k: int| 0 <= k < j ==> (#[trigger] v@[m as int]).label <= v@[k].label,
                forall|k: int| 0 <= k < m ==> (#[trigger] v@[k]).label > v@[m as int].label,
            decreases v@.len() - j,
        {
            if v[j].label < v[m].label {
                m = j;
            }
            j = j + 1;
        }
        let ghost done: int = out@.len() as int;
        let ghost pre: Seq<Block> = v@;
        let ghost prem: Seq<int> = rem;
        let x = v.remove(m);
        out.push(x);
        proof {
            broadcast use vstd::seq_lib::group_to_multiset_ensures;

            assert(pre.remove(m as int).to_multiset() == pre.to_multiset().remove(pre[m as int]));
            assert(out@.to_multiset().add(v@.to_multiset()) =~= orig.to_multiset());
            if blocks_sorted(orig) {
                assert(m == 0);
                assert(x == orig[done]);
                assert(out@ =~= orig.take(done + 1));
                assert(pre.remove(0) =~= pre.skip(1));
                assert(v@ =~= orig.skip(done + 1));
            }
            sel = sel.push(prem[m as int]);
            rem = prem.remove(m as int);
            assert forall|i: int|
                0 <= i < rem.len() implies 0 <= #[trigger] rem[i] < n && v@[i] == orig[rem[i]] by {
                if i < m {
                    assert(rem[i] == prem[i]);
                    assert(v@[i] == pre[i]);
                } else {
                    assert(rem[i] == prem[i + 1]);
                    assert(v@[i] == pre[i + 1]);
                }
            }
            assert(sel[sel.len() - 1] == prem[m as int]);
            assert forall|i: int, j2: int|
                0 <= i < sel.len() && 0 <= j2 < rem.len() && orig[#[trigger] sel[i]].label == orig[
                    #[trigger] rem[j2]].label implies sel[i] < rem[j2] by {
                let jj: int = if j2 < m { j2 } else { j2 + 1 };
                assert(rem[j2] == prem[jj]);
                if i < sel.len() - 1 {
                } else {
                    // the new selection is the first minimum: an equal
                    // label among the rest sits strictly after it
                    assert(pre[jj].label == orig[prem[jj]].label);
                    assert(pre[m as int].label == orig[prem[m as int]].label);
                    if jj < m {
                        assert(pre[jj].label > pre[m as int].label);
                    }
                }
            }
        }
    }
    proof {
        broadcast use vstd::seq_lib::group_to_multiset_ensures;

        assert(v@.to_multiset().len() == 0);
        assert(out@.to_multiset() =~= orig.to_multiset());
        if blocks_sorted(orig) {
            assert(out@ =~= orig);
        }
        assert(stable_perm_by_label(orig, out@, sel));
    }
    *v = out;
}

/// Sorts keyed entries by key, ascending, taking the first minimal key
/// each round: a stable sort — entries with equal keys keep their relative
/// order — and an input already in order comes back unchanged.
#[verifier::rlimit(100)]
fn sort_pairs<T>(v: &mut Vec<(u64, T)>)
    ensures
        pairs_sorted(final(v)@),
        final(v)@.to_multiset() == old(v)@.to_multiset(),
        pairs_sorted(old(v)@) ==> final(v)@ == old(v)@,
        pairs_stably_sorted_of(old(v)@, final(v)@),
{
    broadcast use vstd::seq_lib::group_to_multiset_ensures;

    let ghost orig: Seq<(u64, T)> = v@;
    let ghost n: int = orig.len() as int;
    let mut out: Vec<(u64, T)> = Vec::new();
    let ghost mut rem: Seq<int> = Seq::new(orig.len(), |i: int| i);
    let ghost mut sel: Seq<int> = Seq::empty();
    while v.len() > 0
        invariant
            n == orig.len(),
            out@.len() + v@.len() == orig.len(),
            out@.to_multiset().add(v@.to_multiset()) == orig.to_multiset(),
            pairs_sorted(out@),
            forall|i: int, j: int|
                0 <= i < out@.len() && 0 <= j < v@.len() ==> (#[trigger] out@[i]).0 <= (
                #[trigger] v@[j]).0,
            pairs_sorted(orig) ==> out@ == orig.take(out@.len() as int) && v@ == orig.skip(
                out@.len() as int,
            ),
            rem.len() == v@.len(),
            sel.len() == out@.len(),
            forall|i: int| 0 <= i < rem.len() ==> 0 <= #[trigger] rem[i] < n && v@[i] == orig[rem[i]],
            forall|i: int| 0 <= i < sel.len() ==> 0 <= #[trigger] sel[i] < n && out@[i]
                == orig[sel[i]],
            forall|i: int, j: int| 0 <= i < j < rem.len() ==> #[trigger] rem[i] < #[trigger] rem[j],
            forall|i: int, j: int| 0 <= i < j < sel.len() ==> #[trigger] sel[i] != #[trigger] sel[j],
            forall|i: int, j: int|
                0 <= i < sel.len() && 0 <= j < rem.len() ==> #[trigger] sel[i] != #[trigger] rem[j],
            forall|i: int, j: int|
                0 <= i < sel.len() && 0 <= j < rem.len() && orig[#[trigger] sel[i]].0 == orig[
                    #[trigger] rem[j]].0 ==> sel[i] < rem[j],
            forall|i: int, j: int|
                0 <= i < j < sel.len() && orig[#[trigger] sel[i]].0 == orig[#[trigger] sel[j]].0
                    ==> sel[i] < sel[j],
        decreases v@.len(),
    {
        let mut m: usize = 0;
        let mut j: usize = 1;
        while j < v.len()
            invariant
                v@.len() > 0,
                m < j,
                j <= v@.len(),
                forall|k: int| 0 <= k < j ==> (#[trigger] v@[m as int]).0 <= v@[k].0,
                forall|k: int| 0 <= k < m ==> (#[trigger] v@[k]).0 > v@[m as int].0,
            decreases v@.len() - j,
        {
            if v[j].0 < v[m].0 {
                m = j;
            }
            j = j + 1;
        }
        let ghost done: int = out@.len() as int;
        let ghost pre: Seq<(u64, T)> = v@;
        let ghost prem: Seq<int> = rem;
        let x = v.remove(m);
        out.push(x);
        proof {
            broadcast use vstd::seq_lib::group_to_multiset_ensures;

            assert(pre.remove(m as int).to_multiset() == pre.to_multiset().remove(pre[m as int]));
            assert(out@.to_multiset().add(v@.to_multiset()) =~= orig.to_multiset());
            if pairs_sorted(orig) {
                assert(pre[0] == orig[done]);
                assert(pre[m as int] == orig[done + m]);
                assert(pre[0].0 <= pre[m as int].0);
                assert(m == 0);
                assert(x == orig[done]);
                assert(out@ =~= orig.take(done + 1));
                assert(pre.remove(0) =~= pre.skip(1));
                assert(v@ =~= orig.skip(done + 1));
            }
            sel = sel.push(prem[m as int]);
            rem = prem.remove(m as int);
            assert forall|i: int|
                0 <= i < rem.len() implies 0 <= #[trigger] rem[i] < n && v@[i] == orig[rem[i]] by {
                if i < m {
                    assert(rem[i] == prem[i]);
                    assert(v@[i] == pre[i]);
                } else {
                    assert(rem[i] == prem[i + 1]);
                    assert(v@[i] == pre[i + 1]);
                }
            }
            assert(sel[sel.len() - 1] == prem[m as int]);
            assert forall|i: int, j2: int|
                0 <= i < sel.len() && 0 <= j2 < rem.len() && orig[#[trigger] sel[i]].0 == orig[
                    #[trigger] rem[j2]].0 implies sel[i] < rem[j2] by {
                let jj: int = if j2 < m { j2 } else { j2 + 1 };
                assert(rem[j2] == prem[jj]);
                if i < sel.len() - 1 {
                } else {
                    // the new selection is the first minimum: an equal key
                    // among the rest sits strictly after it
                    assert(pre[jj].0 == orig[prem[jj]].0);
                    assert(pre[m as int].0 == orig[prem[m as int]].0);
                    if jj < m {
                        assert(pre[jj].0 > pre[m as int].0);
                    }
                }
            }
        }
    }
    proof {
        broadcast use vstd::seq_lib::group_to_multiset_ensures;

        assert(v@.to_multiset().len() == 0);
        assert(out@.to_multiset() =~= orig.to_multiset());
        if pairs_sorted(orig) {
            assert(out@ =~= orig);
        }
        assert(stable_perm_by_key(orig, out@, sel));
    }
    *v = out;
}

/// One Sorted pass: at every node, each container is its old self stably
/// sorted — blocks by label, keyed lists by key, entries with equal keys
/// keeping their old relative order — the children are paired one to one,
/// key kept, each child a Sorted pass of its old self; and an already
/// fully sorted tree comes back unchanged.
pub open spec fn sorted_pass(pre: FunctionV, post: FunctionV) -> bool
    decreases pre,
{
    &&& fully_sorted(post)
    &&& blocks_stably_sorted_of(pre.block_list, post.block_list)
    &&& pairs_stably_sorted_of(pre.upval_list, post.upval_list)
    &&& pairs_stably_sorted_of(pre.value_list, post.value_list)
    &&& post.child_list.len() == pre.child_list.len()
    &&& (exists|perm: Seq<int>|
        is_position_perm(perm, pre.child_list.len() as int) && (forall|i: int|
            0 <= i < pre.child_list.len() ==> 0 <= #[trigger] perm[i] < pre.child_list.len()
                && post.child_list[i].0 == pre.child_list[perm[i]].0 && sorted_pass(
                pre.child_list[perm[i]].1,
                post.child_list[i].1,
            )) && (forall|i: int, j: int|
            0 <= i < j < pre.child_list.len() && pre.child_list[#[trigger] perm[i]].0
                == pre.child_list[#[trigger] perm[j]].0 ==> perm[i] < perm[j]))
    &&& (fully_sorted(pre) ==> post == pre)
}

/// Sort idempotence: a Sorted pass after a Sorted pass yields exactly the
/// container order the first pass produced.
pub proof fn lemma_sorted_idempotent(f0: FunctionV, f1: FunctionV, f2: FunctionV)
    requires
        sorted_pass(f0, f1),
        sorted_pass(f1, f2),
    ensures
        f2 == f1,
{
}

/// Reordering changes order, never content: any pass keeps the multiset
/// of blocks by label and the multiset of constants by key.
pub proof fn lemma_reorder_keeps_content(a: FunctionV, b: FunctionV)
    requires
        level_preserved(a, b),
    ensures
        b.block_list.map_values(label_of_block()).to_multiset() == a.block_list.map_values(
            label_of_block(),
        ).to_multiset(),
        b.value_list.map_values(key_of_pair()).to_multiset() == a.value_list.map_values(
            key_of_pair(),
        ).to_multiset(),
{
    lemma_map_values_multiset(b.block_list, a.block_list, label_of_block());
    lemma_map_values_multiset(b.value_list, a.value_list, key_of_pair());
}

fn empty_function() -> (r: Function) {
    Function {
        param_count: 0,
        flags: 0,
        block_list: Vec::new(),
        child_list: Vec::new(),
        upval_list: Vec::new(),
        value_list: Vec::new(),
        line_info: Vec::new(),
    }
}

/// Applies the requested steps to one function tree, children first.
#[verifier::rlimit(100)]
fn mutate_owned(f: Function, opt: &Vec<Mutation>) -> (r: Function)
    ensures
        level_preserved(f@, r@),
        content_preserved(f@, r@),
        opt@ == seq![Mutation::Sorted] ==> sorted_pass(f@, r@),
        opt@.len() == 0 ==> r@ == f@,
        opt@.len() > 0 && opt@[opt@.len() - 1] == Mutation::Sorted ==> fully_sorted(r@),
    decreases f,
{
    broadcast use vstd::seq_lib::group_to_multiset_ensures;

    let ghost fv: FunctionV = f@;
    let param_count = f.param_count;
    let flags = f.flags;
    let mut blocks = f.block_list;
    let mut child_list = f.child_list;
    let mut upvals = f.upval_list;
    let mut values = f.value_list;
    let line_info = f.line_info;
    proof {
        crate::function::lemma_functions_view_index(child_list@);
    }
    // children are fully mutated first
    let ghost corig: Seq<(u64, Function)> = child_list@;
    let mut kids: Vec<(u64, Function)> = Vec::new();
    while child_list.len() > 0
        invariant
            corig == f.child_list@,
            fv == f@,
            fv.child_list == crate::function::functions_view(corig),
            fv.child_list.len() == corig.len(),
            forall|j: int|
                0 <= j < corig.len() ==> fv.child_list[j] == (
                    (#[trigger] corig[j]).0,
                    crate::function::function_view(corig[j].1),
                ),
            kids@.len() + child_list@.len() == corig.len(),
            child_list@ == corig.skip(kids@.len() as int),
            forall|i: int|
                0 <= i < kids@.len() ==> (#[trigger] kids@[i]).0 == corig[i].0 && level_preserved(
                    crate::function::function_view(corig[i].1),
                    crate::function::function_view(kids@[i].1),
                ) && content_preserved(
                    crate::function::function_view(corig[i].1),
                    crate::function::function_view(kids@[i].1),
                ),
            opt@ == seq![Mutation::Sorted] ==> forall|i: int|
                0 <= i < kids@.len() ==> sorted_pass(
                    crate::function::function_view(corig[i].1),
                    crate::function::function_view((#[trigger] kids@[i]).1),
                ),
            opt@.len() == 0 ==> forall|i: int|
                0 <= i < kids@.len() ==> crate::function::function_view(
                    (#[trigger] kids@[i]).1,
                ) == crate::function::function_view(corig[i].1),
            opt@.len() > 0 && opt@[opt@.len() - 1] == Mutation::Sorted ==> forall|i: int|
                0 <= i < kids@.len() ==> fully_sorted(
                    crate::function::function_view((#[trigger] kids@[i]).1),
                ),
        decreases child_list@.len(),
    {
        let ghost k: int = kids@.len() as int;
        let kv = child_list.remove(0);
        proof {
            assert(kv == corig[k]);
            assert(corig.skip(k).remove(0) =~= corig.skip(k + 1));
            assert(kv.1 == f.child_list@[k].1);
            assert(decreases_to!(f => f.child_list@[k].1));
        }
        let sub = mutate_owned(kv.1, opt);
        kids.push((kv.0, sub));
    }
    proof {
        assert(kids@.map_values(key_of_pair()) =~= corig.map_values(key_of_pair()));
    }
    proof {
        if opt@.len() > 0 && opt@[opt@.len() - 1] == Mutation::Sorted {
            assert forall|kv: (u64, Function)| #[trigger] kids@.to_multiset().contains(kv) implies
                fully_sorted(crate::function::function_view(kv.1)) by {
                assert(kids@.contains(kv));
                let w = choose|w: int| 0 <= w < kids@.len() && kids@[w] == kv;
                assert(fully_sorted(crate::function::function_view(kids@[w].1)));
            }
        }
    }
    let ghost b0: Seq<Block> = blocks@;
    let ghost c0: Seq<(u64, Function)> = kids@;
    let ghost u0: Seq<(u64, crate::value::Upvalue)> = upvals@;
    let ghost v0: Seq<(u64, crate::value::Value)> = values@;
    let mut kids = kids;
    let mut si: usize = 0;
    while si < opt.len()
        invariant
            si <= opt@.len(),
            blocks@.to_multiset() == b0.to_multiset(),
            kids@.to_multiset() == c0.to_multiset(),
            upvals@.to_multiset() == u0.to_multiset(),
            values@.to_multiset() == v0.to_multiset(),
            opt@ == seq![Mutation::Sorted] && si == 0 ==> blocks@ == b0 && kids@ == c0 && upvals@
                == u0 && values@ == v0,
            opt@ == seq![Mutation::Sorted] && si == 1 ==> blocks_sorted(blocks@) && pairs_sorted(
                kids@,
            ) && pairs_sorted(upvals@) && pairs_sorted(values@) && (blocks_sorted(b0) ==> blocks@
                == b0) && (pairs_sorted(c0) ==> kids@ == c0) && (pairs_sorted(u0) ==> upvals@ == u0)
                && (pairs_sorted(v0) ==> values@ == v0) && blocks_stably_sorted_of(b0, blocks@)
                && pairs_stably_sorted_of(c0, kids@) && pairs_stably_sorted_of(u0, upvals@)
                && pairs_stably_sorted_of(v0, values@),
            opt@.len() == 0 ==> blocks@ == b0 && kids@ == c0 && upvals@ == u0 && values@ == v0,
            si > 0 && opt@[si - 1] == Mutation::Sorted ==> blocks_sorted(blocks@) && pairs_sorted(
                kids@,
            ) && pairs_sorted(upvals@) && pairs_sorted(values@),
            opt@.len() > 0 && opt@[opt@.len() - 1] == Mutation::Sorted ==> forall|kv: (u64, Function)|
                #[trigger] kids@.to_multiset().contains(kv) ==> fully_sorted(
                    crate::function::function_view(kv.1),
                ),
        decreases opt@.len() - si,
    {
        match opt[si] {
            Mutation::Random => {
                shuffle_vec(&mut blocks);
                shuffle_vec(&mut kids);
                shuffle_vec(&mut upvals);
                shuffle_vec(&mut values);
            },
            Mutation::Sorted => {
                sort_blocks(&mut blocks);
                sort_pairs(&mut kids);
                sort_pairs(&mut upvals);
                sort_pairs(&mut values);
            },
        }
        si = si + 1;
    }
    let r = Function {
        param_count,
        flags,
        block_list: blocks,
        child_list: kids,
        upval_list: upvals,
        value_list: values,
        line_info,
    };
    proof {
        broadcast use vstd::seq_lib::group_to_multiset_ensures;

        crate::function::lemma_functions_view_index(r.child_list@);
        lemma_map_values_multiset(r.child_list@, c0, key_of_pair::<Function>());
        assert(c0.map_values(key_of_pair()) =~= corig.map_values(key_of_pair()));
        assert(r@.child_list.map_values(key_of_pair()) =~= r.child_list@.map_values(
            key_of_pair::<Function>(),
        ));
        assert(fv.child_list.map_values(key_of_pair()) =~= corig.map_values(
            key_of_pair::<Function>(),
        ));
        assert(r.child_list@.len() == c0.len()) by {
            assert(r.child_list@.to_multiset().len() == c0.to_multiset().len());
        }
        assert(level_preserved(fv, r@));
        // the pairing of old and new children: the steps permuted the
        // mutated children, each of which is recursively preserved
        lemma_multiset_to_perm::<(u64, Function)>(c0, r.child_list@);
        let perm = choose|perm: Seq<int>|
            is_position_perm(perm, c0.len() as int) && (forall|i: int|
                0 <= i < c0.len() ==> 0 <= #[trigger] perm[i] < c0.len() && r.child_list@[i]
                    == c0[perm[i]]);
        assert(is_position_perm(perm, fv.child_list.len() as int));
        assert forall|i: int|
            0 <= i < fv.child_list.len() implies 0 <= #[trigger] perm[i] < fv.child_list.len()
            && r@.child_list[i].0 == fv.child_list[perm[i]].0 && content_preserved(
            fv.child_list[perm[i]].1,
            r@.child_list[i].1,
        ) by {
            assert(r.child_list@[i] == c0[perm[i]]);
            assert(r@.child_list[i] == (r.child_list@[i].0,
                crate::function::function_view(r.child_list@[i].1)));
            assert(c0[perm[i]].0 == corig[perm[i]].0);
            assert(content_preserved(
                crate::function::function_view(corig[perm[i]].1),
                crate::function::function_view(c0[perm[i]].1),
            ));
            assert(fv.child_list[perm[i]] == (corig[perm[i]].0,
                crate::function::function_view(corig[perm[i]].1)));
        }
        assert(content_preserved(fv, r@));
        if opt@.len() == 0 {
            assert(r@ == fv) by {
                assert(blocks@ == f.block_list@);
                assert(upvals@ == f.upval_list@);
                assert(values@ == f.value_list@);
                assert forall|i: int| 0 <= i < corig.len() implies r@.child_list[i]
                    == fv.child_list[i] by {
                    assert(r@.child_list[i] == (r.child_list@[i].0,
                        crate::function::function_view(r.child_list@[i].1)));
                    assert(r.child_list@[i] == c0[i]);
                    assert(c0[i].0 == corig[i].0);
                    assert(crate::function::function_view(c0[i].1)
                        == crate::function::function_view(corig[i].1));
                }
                assert(r@.child_list =~= fv.child_list);
            }
        }
        if opt@.len() > 0 && opt@[opt@.len() - 1] == Mutation::Sorted {
            assert(fully_sorted(r@)) by {
                assert(blocks_sorted(r@.block_list));
                assert forall|i: int| 0 <= i < r@.child_list.len() implies fully_sorted(
                    (#[trigger] r@.child_list[i]).1,
                ) by {
                    assert(r.child_list@.to_multiset().contains(r.child_list@[i]));
                    assert(r@.child_list[i] == (r.child_list@[i].0,
                        crate::function::function_view(r.child_list@[i].1)));
                }
                assert(pairs_sorted(r@.child_list)) by {
                    assert forall|i: int, j: int|
                        0 <= i <= j < r@.child_list.len() implies (#[trigger] r@.child_list[i]).0
                        <= (#[trigger] r@.child_list[j]).0 by {
                        assert(r@.child_list[i].0 == r.child_list@[i].0);
                        assert(r@.child_list[j].0 == r.child_list@[j].0);
                    }
                }
            }
        }
        if opt@ == seq![Mutation::Sorted] {
            assert(opt@.len() == 1);
            assert(fully_sorted(r@)) by {
                assert(blocks_sorted(r@.block_list));
                assert forall|i: int| 0 <= i < r@.child_list.len() implies fully_sorted(
                    (#[trigger] r@.child_list[i]).1,
                ) by {
                    assert(r.child_list@.to_multiset().contains(r.child_list@[i]));
                    assert(c0.to_multiset().contains(r.child_list@[i]));
                    assert(c0.contains(r.child_list@[i]));
                    let w = choose|w: int| 0 <= w < c0.len() && c0[w] == r.child_list@[i];
                    assert(sorted_pass(
                        crate::function::function_view(corig[w].1),
                        crate::function::function_view(c0[w].1),
                    ));
                    assert(r@.child_list[i] == (r.child_list@[i].0,
                        crate::function::function_view(r.child_list@[i].1)));
                }
                assert(pairs_sorted(r@.child_list)) by {
                    assert forall|i: int, j: int|
                        0 <= i <= j < r@.child_list.len() implies (#[trigger] r@.child_list[i]).0
                        <= (#[trigger] r@.child_list[j]).0 by {
                        assert(r@.child_list[i].0 == r.child_list@[i].0);
                        assert(r@.child_list[j].0 == r.child_list@[j].0);
                    }
                }
            }
            assert(blocks_stably_sorted_of(fv.block_list, r@.block_list));
            assert(pairs_stably_sorted_of(fv.upval_list, r@.upval_list));
            assert(pairs_stably_sorted_of(fv.value_list, r@.value_list));
            let cp = choose|cp: Seq<int>| stable_perm_by_key(c0, r.child_list@, cp);
            assert(is_position_perm(cp, fv.child_list.len() as int));
            assert forall|i: int|
                0 <= i < fv.child_list.len() implies 0 <= #[trigger] cp[i] < fv.child_list.len()
                && r@.child_list[i].0 == fv.child_list[cp[i]].0 && sorted_pass(
                fv.child_list[cp[i]].1,
                r@.child_list[i].1,
            ) by {
                assert(r.child_list@[i] == c0[cp[i]]);
                assert(r@.child_list[i] == (r.child_list@[i].0,
                    crate::function::function_view(r.child_list@[i].1)));
                assert(c0[cp[i]].0 == corig[cp[i]].0);
                assert(sorted_pass(
                    crate::function::function_view(corig[cp[i]].1),
                    crate::function::function_view(c0[cp[i]].1),
                ));
                assert(fv.child_list[cp[i]] == (corig[cp[i]].0,
                    crate::function::function_view(corig[cp[i]].1)));
            }
            assert forall|i: int, j: int|
                0 <= i < j < fv.child_list.len() && fv.child_list[#[trigger] cp[i]].0
                == fv.child_list[#[trigger] cp[j]].0 implies cp[i] < cp[j] by {
                assert(fv.child_list[cp[i]].0 == corig[cp[i]].0 == c0[cp[i]].0);
                assert(fv.child_list[cp[j]].0 == corig[cp[j]].0 == c0[cp[j]].0);
            }
            if fully_sorted(fv) {
                assert(blocks_sorted(b0));
                assert forall|i: int| 0 <= i < corig.len() implies c0[i].0 == corig[i].0
                    && crate::function::function_view(#[trigger] c0[i].1)
                    == crate::function::function_view(corig[i].1) by {
                    assert(fully_sorted(fv.child_list[i].1));
                    assert(sorted_pass(
                        crate::function::function_view(corig[i].1),
                        crate::function::function_view(c0[i].1),
                    ));
                }
                assert(pairs_sorted(c0)) by {
                    assert forall|i: int, j: int|
                        0 <= i <= j < c0.len() implies (#[trigger] c0[i]).0 <= (
                        #[trigger] c0[j]).0 by {
                        assert(fv.child_list[i].0 == corig[i].0);
                        assert(fv.child_list[j].0 == corig[j].0);
                    }
                }
                assert(r@ == fv) by {
                    assert(r@.block_list == fv.block_list);
                    assert(kids@ == c0);
                    assert forall|i: int| 0 <= i < corig.len() implies r@.child_list[i]
                        == fv.child_list[i] by {
                        assert(r@.child_list[i] == (r.child_list@[i].0,
                            crate::function::function_view(r.child_list@[i].1)));
                        assert(r.child_list@[i] == c0[i]);
                    }
                    assert(r@.child_list =~= fv.child_list);
                }
            }
            assert(sorted_pass(fv, r@));
        }
    }
    r
}

impl Function {
    /// Applies the requested reordering steps, depth first: every child is
    /// fully mutated before the steps run, in order, on this function's
    /// own four positional containers. Content is never altered at any
    /// node: metadata and the multiset of each container's entries are
    /// preserved, old and new children pair up one to one with their keys
    /// kept, and a single Sorted step stably sorts every container of
    /// every node, idempotently.
    pub fn try_mutate(func: &mut Function, opt: &Vec<Mutation>)
        ensures
            level_preserved(old(func)@, final(func)@),
            content_preserved(old(func)@, final(func)@),
            opt@ == seq![Mutation::Sorted] ==> sorted_pass(old(func)@, final(func)@),
            opt@.len() == 0 ==> final(func)@ == old(func)@,
            opt@.len() > 0 && opt@[opt@.len() - 1] == Mutation::Sorted ==> fully_sorted(
                final(func)@,
            ),
    {
        let mut tmp = empty_function();
        core::mem::swap(func, &mut tmp);
        let out = mutate_owned(tmp, opt);
        *func = out;
    }
}

} // verus!
