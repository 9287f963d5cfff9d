//! The treemap's integer side: the sizes a view shows once system entries
//! are hidden. The squarified layout itself works in floating point and
//! runs in the application.

use vstd::prelude::*;

use crate::entry::EntryFlags;
use crate::export::levels_below;
use crate::tree::{NodeId, Tree};

verus! {

pub open spec fn sat_add(a: u64, b: u64) -> u64 {
    if a + b > u64::MAX { u64::MAX } else { (a + b) as u64 }
}

pub open spec fn is_system(t: Tree, id: int) -> bool {
    t.node_view(id).flags.has(EntryFlags::spec_system())
}

/// What filling the subtree at `id` does to `v`: a system entry is
/// skipped with everything below it; a file writes its size; a directory
/// fills its children last to first, adding each non-system child's total
/// into its own slot (saturating). `fuel` counts the levels left below
/// `id`; no tree is deeper than its slot count.
pub open spec fn fill(t: Tree, id: int, v: Seq<u64>, fuel: nat) -> Seq<u64>
    decreases fuel, 0nat,
{
    if is_system(t, id) {
        v
    } else if !t.is_dir_at(id) {
        v.update(id, t.node_view(id).size)
    } else if fuel == 0 {
        v
    } else {
        fill_kids(t, t.children_of(id), id, v, (fuel - 1) as nat)
    }
}

/// Fills the subtrees at `ks`, last first, each adding its total into `p`.
pub open spec fn fill_kids(t: Tree, ks: Seq<u32>, p: int, v: Seq<u64>, fuel: nat) -> Seq<u64>
    decreases fuel, ks.len(),
{
    if ks.len() == 0 {
        v
    } else {
        let c = ks.last() as int;
        let v1 = fill(t, c, v, fuel);
        let v2 = if is_system(t, c) { v1 } else { v1.update(p, sat_add(v1[p], v1[c])) };
        fill_kids(t, ks.drop_last(), p, v2, fuel)
    }
}

/// Adding a finished node's total into its parent, for every node but the
/// traversal root (whose parent lies outside the subtree).
spec fn after(t: Tree, root: int, id: int, v: Seq<u64>) -> Seq<u64> {
    let par = t.node_view(id).parent;
    if id != root && !is_system(t, id) && par != crate::tree::NONE {
        v.update(par as int, sat_add(v[par as int], v[id]))
    } else {
        v
    }
}

/// A stack frame: (node, leaving it, fuel).
type FillFrame = (int, bool, nat);

spec fn frame(t: Tree, root: int, f: FillFrame, v: Seq<u64>) -> Seq<u64> {
    if f.1 {
        after(t, root, f.0, v)
    } else {
        after(t, root, f.0, fill(t, f.0, v, f.2))
    }
}

/// The effect of working off a stack of frames, top (last) first.
spec fn apply(t: Tree, root: int, g: Seq<FillFrame>, v: Seq<u64>) -> Seq<u64>
    decreases g.len(),
{
    if g.len() == 0 {
        v
    } else {
        apply(t, root, g.drop_last(), frame(t, root, g.last(), v))
    }
}

spec fn cost(t: Tree, id: int, fuel: nat) -> nat
    decreases fuel, 0nat,
{
    if !is_system(t, id) && t.is_dir_at(id) && fuel > 0 {
        2 + cost_kids(t, t.children_of(id), (fuel - 1) as nat)
    } else {
        1
    }
}

spec fn cost_kids(t: Tree, ks: Seq<u32>, fuel: nat) -> nat
    decreases fuel, ks.len(),
{
    if ks.len() == 0 {
        0
    } else {
        cost(t, ks.last() as int, fuel) + cost_kids(t, ks.drop_last(), fuel)
    }
}

spec fn stack_cost(t: Tree, g: Seq<FillFrame>) -> nat
    decreases g.len(),
{
    if g.len() == 0 {
        0
    } else {
        (if g.last().1 { 1 } else { cost(t, g.last().0, g.last().2) }) + stack_cost(t, g.drop_last())
    }
}

spec fn kid_frames(ks: Seq<u32>, fuel: nat) -> Seq<FillFrame> {
    Seq::new(ks.len(), |i: int| (ks[i] as int, false, fuel))
}

proof fn lemma_push_kids(t: Tree, root: int, g: Seq<FillFrame>, ks: Seq<u32>, p: int, v: Seq<u64>, fuel: nat)
    requires
        forall|i: int| 0 <= i < ks.len() ==> (#[trigger] ks[i]) as int != root && t.node_view(ks[i] as int).parent as int == p
            && t.node_view(ks[i] as int).parent != crate::tree::NONE,
    ensures
        apply(t, root, g + kid_frames(ks, fuel), v) == apply(t, root, g, fill_kids(t, ks, p, v, fuel)),
        stack_cost(t, g + kid_frames(ks, fuel)) == stack_cost(t, g) + cost_kids(t, ks, fuel),
    decreases ks.len(),
{
    if ks.len() == 0 {
        assert(g + kid_frames(ks, fuel) =~= g);
    } else {
        let rest = ks.drop_last();
        let whole = g + kid_frames(ks, fuel);
        let c = ks.last() as int;
        assert(whole.drop_last() =~= g + kid_frames(rest, fuel));
        assert(whole.last() == (c, false, fuel));
        assert(ks[ks.len() - 1] == ks.last());
        let v1 = fill(t, c, v, fuel);
        assert(frame(t, root, whole.last(), v) == if is_system(t, c) { v1 } else { v1.update(p, sat_add(v1[p], v1[c])) });
        let v2 = if is_system(t, c) { v1 } else { v1.update(p, sat_add(v1[p], v1[c])) };
        assert forall|i: int| 0 <= i < rest.len() implies (#[trigger] rest[i]) as int != root && t.node_view(rest[i] as int).parent as int == p
            && t.node_view(rest[i] as int).parent != crate::tree::NONE by {
            assert(rest[i] == ks[i]);
        }
        lemma_push_kids(t, root, g, rest, p, v2, fuel);
    }
}

/// The frames on the stack name slots of the tree, nodes below the root
/// but for the root itself, with fuel to reach every directory's children;
/// only non-system directories are ever left.
spec fn frames_ok(t: Tree, root: int, g: Seq<FillFrame>) -> bool {
    forall|k: int| 0 <= k < g.len() ==> {
        let f = #[trigger] g[k];
        &&& 0 <= f.0 < t.slots()
        &&& f.0 == root || (t.live(f.0) && t.depth_of(f.0) > t.depth_of(root) && (t.node_view(f.0).parent as int) < t.slots())
        &&& (!f.1 && t.is_dir_at(f.0) ==> f.2 == t.slots() - t.depth_of(f.0))
        &&& (f.1 ==> !is_system(t, f.0))
    }
}

/// Fills `visible` with the sizes the subtree at `root` shows with system
/// entries hidden: a file its size, a directory the sum of what its
/// non-system children show, added onto the slot's prior value
/// (saturating). Slots outside the subtree, and under system entries, are
/// left as they were.
pub fn fill_visible(tree: &Tree, root: NodeId, visible: &mut Vec<u64>)
    requires
        tree.wf(),
        root < tree.slots(),
        tree.slots() <= old(visible)@.len(),
    ensures
        final(visible)@ == fill(*tree, root as int, old(visible)@, levels_below(*tree, root as int)),
{
    let ghost t = *tree;
    let ghost r = root as int;
    let ghost target = fill(t, r, visible@, levels_below(t, r));
    let ghost f0 = levels_below(t, r);
    proof {
        if t.is_dir_at(r) {
            t.lemma_dir_depth(r);
        }
    }
    let mut stack: Vec<(u32, bool)> = Vec::new();
    stack.push((root, false));
    let ghost mut g: Seq<FillFrame> = seq![(r, false, f0)];
    proof {
        t.lemma_slots_bound();
        assert(g.drop_last() =~= Seq::<FillFrame>::empty());
        assert(after(t, r, r, fill(t, r, visible@, f0)) == fill(t, r, visible@, f0));
        assert(apply(t, r, Seq::<FillFrame>::empty(), fill(t, r, visible@, f0)) == fill(t, r, visible@, f0));
        assert(apply(t, r, g, visible@) == target);
    }
    while stack.len() > 0
        invariant
            tree.wf(),
            t == *tree,
            r == root as int,
            0 <= r < t.slots(),
            t.slots() <= visible@.len(),
            t.slots() <= crate::tree::NONE,
            stack@.len() == g.len(),
            forall|k: int| 0 <= k < g.len() ==> (#[trigger] stack@[k]).0 as int == g[k].0 && stack@[k].1 == g[k].1,
            frames_ok(t, r, g),
            apply(t, r, g, visible@) == target,
        decreases stack_cost(t, g),
    {
        let ghost gb = g;
        let ghost vb = visible@;
        let (id, exiting) = stack.pop().unwrap();
        let ghost f = gb.last();
        let ghost g1 = gb.drop_last();
        proof {
            assert(gb[gb.len() - 1] == f);
            assert(frames_ok(t, r, gb));
            assert(0 <= f.0 < t.slots());
            assert(f.0 == r || (t.live(f.0) && t.depth_of(f.0) > t.depth_of(r) && (t.node_view(f.0).parent as int) < t.slots()));
            assert(!f.1 && t.is_dir_at(f.0) ==> f.2 == t.slots() - t.depth_of(f.0));
            assert(f.1 ==> !is_system(t, f.0));
            assert(stack@.len() == gb.len() - 1);
            assert(forall|k: int| 0 <= k < g1.len() ==> #[trigger] g1[k] == gb[k]);
            assert(apply(t, r, gb, vb) == apply(t, r, g1, frame(t, r, f, vb)));
            g = g1;
        }
        let node = tree.node(id);
        let mut expanded = false;
        if !exiting {
            if node.flags.contains(EntryFlags::system()) {
                proof {
                    assert(frame(t, r, f, vb) == vb);
                }
                continue;
            }
            if node.is_dir() {
                proof {
                    t.lemma_dir_depth(id as int);
                }
                let ghost ks = t.children_of(id as int);
                let ghost stack0 = stack@;
                stack.push((id, true));
                let mut it = tree.children(id);
                let ghost mut seen: int = 0;
                loop
                    invariant
                        tree.wf(),
                        it.wf(),
                        it.tree_view() == *tree,
                        0 <= seen <= ks.len(),
                        it.remaining() == ks.subrange(seen, ks.len() as int),
                        ks == t.children_of(id as int),
                        stack@.len() == stack0.len() + 1 + seen,
                        forall|k: int| 0 <= k < stack0.len() ==> stack@[k] == stack0[k],
                        stack@[stack0.len() as int] == (id, true),
                        forall|i: int| 0 <= i < seen ==> #[trigger] stack@[stack0.len() + 1 + i] == (ks[i], false),
                    ensures
                        seen == ks.len(),
                        stack@.len() == stack0.len() + 1 + seen,
                        forall|k: int| 0 <= k < stack0.len() ==> stack@[k] == stack0[k],
                        stack@[stack0.len() as int] == (id, true),
                        forall|i: int| 0 <= i < seen ==> #[trigger] stack@[stack0.len() + 1 + i] == (ks[i], false),
                    decreases ks.len() - seen,
                {
                    match it.next() {
                        None => {
                            break;
                        },
                        Some(c) => {
                            proof {
                                assert(ks[seen] == c);
                            }
                            stack.push((c, false));
                            proof {
                                seen = seen + 1;
                            }
                        },
                    }
                }
                proof {
                    let fk = (f.2 - 1) as nat;
                    assert(f.2 == t.slots() - t.depth_of(f.0));
                    assert(f.2 > 0);
                    let gx = g1.push((f.0, true, f.2));
                    assert forall|i: int| 0 <= i < ks.len() implies (#[trigger] ks[i]) as int != r && t.node_view(ks[i] as int).parent as int
                        == f.0 && t.node_view(ks[i] as int).parent != crate::tree::NONE by {
                        assert(t.depth_of(ks[i] as int) == t.depth_of(f.0) + 1);
                    }
                    lemma_push_kids(t, r, gx, ks, f.0, vb, fk);
                    g = gx + kid_frames(ks, fk);
                    assert(gx.drop_last() =~= g1);
                    assert(frame(t, r, f, vb) == after(t, r, f.0, fill_kids(t, ks, f.0, vb, fk)));
                    assert forall|k: int| 0 <= k < g.len() implies (#[trigger] stack@[k]).0 as int == g[k].0 && stack@[k].1 == g[k].1 by {
                        if k < g1.len() {
                            assert(stack@[k] == stack0[k]);
                        } else if k > g1.len() {
                            let i = k - g1.len() - 1;
                            assert(stack@[stack0.len() + 1 + i] == (ks[i], false));
                        }
                    }
                    assert forall|k: int| 0 <= k < g.len() implies {
                        let fr = #[trigger] g[k];
                        &&& 0 <= fr.0 < t.slots()
                        &&& fr.0 == r || (t.live(fr.0) && t.depth_of(fr.0) > t.depth_of(r) && (t.node_view(fr.0).parent as int) < t.slots())
                        &&& (!fr.1 && t.is_dir_at(fr.0) ==> fr.2 == t.slots() - t.depth_of(fr.0))
                        &&& (fr.1 ==> !is_system(t, fr.0))
                    } by {
                        if k < g1.len() {
                            assert(g[k] == gb[k]);
                        } else if k > g1.len() {
                            let i = k - g1.len() - 1;
                            assert(g[k] == (ks[i] as int, false, fk));
                            let c = ks[i] as int;
                            if t.is_dir_at(c) {
                                t.lemma_dir_depth(c);
                            }
                        }
                    }
                    assert(stack_cost(t, gx) == 1 + stack_cost(t, g1));
                }
                continue;
            }
            visible.set(id as usize, node.size);
        }
        if id != root {
            match node.parent() {
                Some(parent) => {
                    let sum = visible[parent as usize].saturating_add(visible[id as usize]);
                    visible.set(parent as usize, sum);
                },
                None => {},
            }
        }
        proof {
            assert(visible@ == frame(t, r, f, vb));
        }
    }
    proof {
        assert(g.len() == 0);
    }
}

/// The size a view gives node `id`: the filled slot when sizes were filled
/// (0 past its end), else the node's own size.
pub fn effective_size(tree: &Tree, id: NodeId, visible: Option<&[u64]>) -> (r: u64)
    requires
        visible is None ==> id < tree.slots(),
    ensures
        r == match visible {
            Some(v) => if (id as int) < v@.len() { v@[id as int] } else { 0 },
            None => tree.node_view(id as int).size,
        },
{
    match visible {
        Some(v) => {
            if (id as usize) < v.len() {
                v[id as usize]
            } else {
                0
            }
        },
        None => tree.node(id).size,
    }
}


/// Filling the subtree at `id` keeps the vector's length and leaves every
/// slot it does not reach as it was.
pub proof fn lemma_fill_stays_inside(t: Tree, id: int, v: Seq<u64>, fuel: nat, x: int)
    requires
        t.wf(),
        0 <= id < t.slots(),
        t.slots() <= v.len(),
        0 <= x < v.len(),
        !t.reaches(id, x, false),
    ensures
        fill(t, id, v, fuel).len() == v.len(),
        fill(t, id, v, fuel)[x] == v[x],
    decreases fuel, 0nat,
{
    if !is_system(t, id) && t.is_dir_at(id) && fuel > 0 {
        t.lemma_dir_depth(id);
        assert(t.children_of(id).is_prefix_of(t.children_of(id)));
        lemma_fill_kids_stay_inside(t, t.children_of(id), id, v, (fuel - 1) as nat, x);
    }
}

proof fn lemma_fill_kids_stay_inside(t: Tree, ks: Seq<u32>, p: int, v: Seq<u64>, fuel: nat, x: int)
    requires
        t.wf(),
        0 <= p < t.slots(),
        t.is_dir_at(p),
        t.slots() <= v.len(),
        0 <= x < v.len(),
        ks.is_prefix_of(t.children_of(p)),
        !t.reaches(p, x, false),
    ensures
        fill_kids(t, ks, p, v, fuel).len() == v.len(),
        fill_kids(t, ks, p, v, fuel)[x] == v[x],
    decreases fuel, ks.len(),
{
    if ks.len() > 0 {
        t.lemma_dir_depth(p);
        let c = ks.last() as int;
        let i = ks.len() - 1;
        assert(t.children_of(p)[i] == ks[i]);
        if t.reaches(c, x, false) {
            t.lemma_reaches_through_child(p, i, x);
        }
        lemma_fill_stays_inside(t, c, v, fuel, x);
        let v1 = fill(t, c, v, fuel);
        let v2 = if is_system(t, c) { v1 } else { v1.update(p, sat_add(v1[p], v1[c])) };
        assert(x != p);
        assert(v2[x] == v[x]);
        assert(ks.drop_last().is_prefix_of(t.children_of(p)));
        lemma_fill_kids_stay_inside(t, ks.drop_last(), p, v2, fuel, x);
    }
}
} // verus!
