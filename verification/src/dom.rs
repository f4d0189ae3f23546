//! Dominator analysis over the basic blocks of a function: a depth-first
//! post-order of the blocks reachable from the entry block, and the
//! dominator sets computed along its reverse.
use crate::ast::BasicBlock;
use std::collections::HashSet;
use vstd::prelude::*;
use vstd::std_specs::iter::IteratorSpec;

verus! {

/// The elements of a set of indices, each once, in the set's iteration order.
pub fn set_elements(s: &HashSet<usize>) -> (r: Vec<usize>)
    ensures
        r@.no_duplicates(),
        forall|x: usize| #[trigger] r@.contains(x) <==> s@.contains(x),
{
    broadcast use vstd::std_specs::hash::group_hash_axioms;

    let mut r: Vec<usize> = Vec::new();
    let ghost keys = vstd::std_specs::hash::spec_hash_keys_iter(s).remaining().unref();
    assert(keys.to_set() == s@ && keys.no_duplicates() && keys.len() == s@.len());
    for x in it: s.iter()
        invariant
            r@ =~= it.seq().take(it.index()).map_values(|p: &usize| *p),
            it.seq().unref() == keys,
            keys.to_set() == s@,
            keys.no_duplicates(),
            r@ == keys.take(it.index()),
    {
        r.push(*x);
        assert(it.seq().take(it.index() + 1).map_values(|p: &usize| *p) =~= it.seq().take(it.index()).map_values(|p: &usize| *p).push(*x));
    }
    assert(r@ =~= keys);
    r
}

/// The elements common to every set of the list; empty for an empty list.
pub fn get_set_intersection(sets: &Vec<HashSet<usize>>) -> (r: HashSet<usize>)
    ensures
        forall|x: usize| #[trigger] r@.contains(x) <==> sets@.len() > 0 && forall|i: int|
            0 <= i < sets@.len() ==> (#[trigger] sets@[i])@.contains(x),
{
    broadcast use vstd::std_specs::hash::group_hash_axioms;

    if sets.is_empty() {
        return HashSet::new();
    }
    // the first of the smallest sets
    let mut smallest: usize = 0;
    let mut i: usize = 1;
    while i < sets.len()
        invariant
            0 < sets@.len(),
            smallest < sets@.len(),
            i <= sets@.len(),
        decreases sets@.len() - i,
    {
        if sets[i].len() < sets[smallest].len() {
            smallest = i;
        }
        i += 1;
    }
    let candidates = set_elements(&sets[smallest]);
    let mut intersection_set: HashSet<usize> = HashSet::new();
    let mut c: usize = 0;
    while c < candidates.len()
        invariant
            0 < sets@.len(),
            smallest < sets@.len(),
            c <= candidates@.len(),
            forall|x: usize| #[trigger] candidates@.contains(x) <==> sets@[smallest as int]@.contains(x),
            forall|x: usize| #[trigger] intersection_set@.contains(x) <==> (exists|d: int| 0 <= d < c && candidates@[d] == x)
                && forall|i: int| 0 <= i < sets@.len() ==> (#[trigger] sets@[i])@.contains(x),
        decreases candidates@.len() - c,
    {
        let elem = candidates[c];
        let mut in_all = true;
        let mut j: usize = 0;
        while j < sets.len()
            invariant
                j <= sets@.len(),
                in_all == forall|i: int| 0 <= i < j ==> (#[trigger] sets@[i])@.contains(elem),
            decreases sets@.len() - j,
        {
            if !sets[j].contains(&elem) {
                in_all = false;
            }
            j += 1;
        }
        if in_all {
            intersection_set.insert(elem);
        }
        assert forall|x: usize| #[trigger] intersection_set@.contains(x) <==> (exists|d: int| 0 <= d < c + 1 && candidates@[d] == x)
            && forall|i: int| 0 <= i < sets@.len() ==> (#[trigger] sets@[i])@.contains(x) by {
            if exists|d: int| 0 <= d < c + 1 && candidates@[d] == x {
                let d = choose|d: int| 0 <= d < c + 1 && candidates@[d] == x;
                if d == c {
                } else {
                }
            }
        }
        c += 1;
    }
    assert forall|x: usize| #[trigger] intersection_set@.contains(x) <==> sets@.len() > 0 && forall|i: int|
        0 <= i < sets@.len() ==> (#[trigger] sets@[i])@.contains(x) by {
        if forall|i: int| 0 <= i < sets@.len() ==> (#[trigger] sets@[i])@.contains(x) {
            assert(sets@[smallest as int]@.contains(x));
            assert(candidates@.contains(x));
            let d = choose|d: int| 0 <= d < candidates@.len() && candidates@[d] == x;
        }
    }
    intersection_set
}

/// Every successor and predecessor index of every block names a block.
/// Every successor index names a block.
pub open spec fn succ_wf(bbs: Seq<BasicBlock>) -> bool {
    forall|u: int, v: usize| 0 <= u < bbs.len() && #[trigger] bbs[u].out_bb_indices@.contains(v) ==> v < bbs.len()
}

pub open spec fn cfg_wf(bbs: Seq<BasicBlock>) -> bool {
    &&& forall|u: int, v: usize| 0 <= u < bbs.len() && #[trigger] bbs[u].out_bb_indices@.contains(v) ==> v < bbs.len()
    &&& forall|u: int, v: usize| 0 <= u < bbs.len() && #[trigger] bbs[u].in_bb_indices@.contains(v) ==> v < bbs.len()
}

/// Step `i` of `p` follows a successor link.
pub open spec fn walk_step(bbs: Seq<BasicBlock>, p: Seq<usize>, i: int) -> bool {
    bbs[p[i] as int].out_bb_indices@.contains(p[i + 1])
}

/// `p` follows successor links from block to block.
pub open spec fn is_walk(bbs: Seq<BasicBlock>, p: Seq<usize>) -> bool {
    &&& p.len() > 0
    &&& forall|i: int| 0 <= i < p.len() ==> (#[trigger] p[i] as int) < bbs.len()
    &&& forall|i: int| 0 <= i < p.len() - 1 ==> #[trigger] walk_step(bbs, p, i)
}

/// Block `b` can be reached from block `a` by following successor links.
pub open spec fn reaches(bbs: Seq<BasicBlock>, a: usize, b: usize) -> bool {
    exists|p: Seq<usize>| #[trigger] is_walk(bbs, p) && p[0] == a && p.last() == b
}

pub proof fn lemma_reaches_refl(bbs: Seq<BasicBlock>, a: usize)
    requires
        a < bbs.len(),
    ensures
        reaches(bbs, a, a),
{
    let p = seq![a];
    assert(is_walk(bbs, p));
}

pub proof fn lemma_reaches_step(bbs: Seq<BasicBlock>, a: usize, b: usize, c: usize)
    requires
        succ_wf(bbs),
        reaches(bbs, a, b),
        b < bbs.len(),
        bbs[b as int].out_bb_indices@.contains(c),
    ensures
        reaches(bbs, a, c),
{
    let p = choose|p: Seq<usize>| #[trigger] is_walk(bbs, p) && p[0] == a && p.last() == b;
    let q = p.push(c);
    assert forall|i: int| 0 <= i < q.len() - 1 implies #[trigger] walk_step(bbs, q, i) by {
        if i < p.len() - 1 {
            assert(walk_step(bbs, p, i));
            assert(q[i] == p[i] && q[i + 1] == p[i + 1]);
        }
    }
    assert forall|i: int| 0 <= i < q.len() implies (#[trigger] q[i] as int) < bbs.len() by {
        if i < p.len() {
            assert(q[i] == p[i]);
        }
    }
    assert(is_walk(bbs, q));
}

pub proof fn lemma_reaches_prepend(bbs: Seq<BasicBlock>, a: usize, b: usize, c: usize)
    requires
        succ_wf(bbs),
        a < bbs.len(),
        bbs[a as int].out_bb_indices@.contains(b),
        reaches(bbs, b, c),
    ensures
        reaches(bbs, a, c),
{
    let p = choose|p: Seq<usize>| #[trigger] is_walk(bbs, p) && p[0] == b && p.last() == c;
    let q = seq![a] + p;
    assert forall|i: int| 0 <= i < q.len() - 1 implies #[trigger] walk_step(bbs, q, i) by {
        if i > 0 {
            assert(walk_step(bbs, p, i - 1));
            assert(q[i] == p[i - 1] && q[i + 1] == p[i]);
        }
    }
    assert forall|i: int| 0 <= i < q.len() implies (#[trigger] q[i] as int) < bbs.len() by {
        if i > 0 {
            assert(q[i] == p[i - 1]);
        }
    }
    assert(is_walk(bbs, q));
}

/// A set of blocks that holds block `a` and every successor of its
/// members holds every block reachable from `a`.
pub proof fn lemma_closed_holds_reachable(bbs: Seq<BasicBlock>, s: Set<usize>, a: usize, b: usize)
    requires
        s.contains(a),
        forall|u: usize, v: usize| s.contains(u) && (u as int) < bbs.len() && #[trigger] bbs[u as int].out_bb_indices@.contains(v) ==> #[trigger] s.contains(v),
        reaches(bbs, a, b),
    ensures
        s.contains(b),
{
    let p = choose|p: Seq<usize>| #[trigger] is_walk(bbs, p) && p[0] == a && p.last() == b;
    lemma_closed_walk(bbs, s, p, p.len() - 1);
}

proof fn lemma_closed_walk(bbs: Seq<BasicBlock>, s: Set<usize>, p: Seq<usize>, i: int)
    requires
        is_walk(bbs, p),
        0 <= i < p.len(),
        s.contains(p[0]),
        forall|u: usize, v: usize| s.contains(u) && (u as int) < bbs.len() && #[trigger] bbs[u as int].out_bb_indices@.contains(v) ==> #[trigger] s.contains(v),
    ensures
        s.contains(p[i]),
    decreases i,
{
    if i > 0 {
        lemma_closed_walk(bbs, s, p, i - 1);
        assert(walk_step(bbs, p, i - 1));
        assert((p[i - 1] as int) < bbs.len());
    }
}

/// The number of blocks not yet visited.
pub(crate) open spec fn count_unvisited(v: Seq<bool>) -> nat
    decreases v.len(),
{
    if v.len() == 0 {
        0
    } else {
        count_unvisited(v.drop_last()) + if v.last() { 0nat } else { 1nat }
    }
}

proof fn lemma_count_monotone(a: Seq<bool>, b: Seq<bool>)
    requires
        a.len() == b.len(),
        forall|i: int| 0 <= i < a.len() && a[i] ==> b[i],
    ensures
        count_unvisited(b) <= count_unvisited(a),
    decreases a.len(),
{
    if a.len() > 0 {
        lemma_count_monotone(a.drop_last(), b.drop_last());
    }
}

pub(crate) proof fn lemma_count_mark(a: Seq<bool>, k: int)
    requires
        0 <= k < a.len(),
        !a[k],
    ensures
        count_unvisited(a.update(k, true)) + 1 == count_unvisited(a),
    decreases a.len(),
{
    if k < a.len() - 1 {
        lemma_count_mark(a.drop_last(), k);
        assert(a.update(k, true).drop_last() =~= a.drop_last().update(k, true));
    } else {
        assert(a.update(k, true).drop_last() =~= a.drop_last());
    }
}

/// The state of the depth-first search: `ord` lists the finished blocks in
/// the order they finished, `visited` marks the blocks entered, `stack`
/// holds the blocks entered and not finished. A finished block has all its
/// successors entered, and each of its successors either finished earlier
/// or reaches it.
spec fn dfs_inv(bbs: Seq<BasicBlock>, ord: Seq<usize>, visited: Seq<bool>, stack: Seq<usize>) -> bool {
    &&& visited.len() == bbs.len()
    &&& ord.no_duplicates()
    &&& forall|i: int| 0 <= i < ord.len() ==> (#[trigger] ord[i] as int) < bbs.len() && visited[ord[i] as int]
    &&& forall|x: usize| (x as int) < bbs.len() ==> (#[trigger] visited[x as int] <==> ord.contains(x) || stack.contains(x))
    &&& forall|x: usize| #[trigger] stack.contains(x) ==> !ord.contains(x) && (x as int) < bbs.len()
    &&& forall|i: int, v: usize| 0 <= i < ord.len() && #[trigger] bbs[ord[i] as int].out_bb_indices@.contains(v)
        ==> (v as int) < bbs.len() && visited[v as int]
    &&& forall|i: int, v: usize| 0 <= i < ord.len() && #[trigger] bbs[ord[i] as int].out_bb_indices@.contains(v)
        ==> (exists|j: int| 0 <= j < i && ord[j] == v) || reaches(bbs, v, ord[i])
}

/// Enters block `u`, visits its unvisited successors depth first, then
/// finishes `u`.
fn visit(
    bb_idx: usize,
    bbs: &Vec<BasicBlock>,
    ordering: &mut Vec<usize>,
    visited: &mut Vec<bool>,
    Ghost(stack): Ghost<Seq<usize>>,
)
    requires
        succ_wf(bbs@),
        dfs_inv(bbs@, old(ordering)@, old(visited)@, stack),
        bb_idx < bbs@.len(),
        !old(visited)@[bb_idx as int],
        forall|x: usize| #[trigger] stack.contains(x) ==> reaches(bbs@, x, bb_idx),
    ensures
        dfs_inv(bbs@, final(ordering)@, final(visited)@, stack),
        final(ordering)@.len() > old(ordering)@.len(),
        final(ordering)@.last() == bb_idx,
        forall|i: int| 0 <= i < old(ordering)@.len() ==> #[trigger] final(ordering)@[i] == old(ordering)@[i],
        forall|i: int| old(ordering)@.len() <= i < final(ordering)@.len() ==> reaches(bbs@, bb_idx, #[trigger] final(ordering)@[i])
            && !old(visited)@[final(ordering)@[i] as int],
        forall|x: int| 0 <= x < bbs@.len() && old(visited)@[x] ==> #[trigger] final(visited)@[x],
    decreases count_unvisited(old(visited)@),
{
    let ghost ord0 = ordering@;
    let ghost vis0 = visited@;
    visited.set(bb_idx, true);
    proof {
        lemma_count_mark(vis0, bb_idx as int);
        lemma_reaches_refl(bbs@, bb_idx);
    }
    let ghost vis1 = visited@;
    let ghost stack2 = stack.push(bb_idx);
    assert(dfs_inv(bbs@, ordering@, visited@, stack2)) by {
        assert forall|x: usize| (x as int) < bbs@.len() implies (#[trigger] visited@[x as int] <==> ordering@.contains(x) || stack2.contains(x)) by {
            if x == bb_idx {
                assert(stack2[stack2.len() - 1] == x);
            } else {
                if stack2.contains(x) {
                    let q = choose|q: int| 0 <= q < stack2.len() && stack2[q] == x;
                    assert(stack[q] == x);
                }
                if stack.contains(x) {
                    let q = choose|q: int| 0 <= q < stack.len() && stack[q] == x;
                    assert(stack2[q] == x);
                }
            }
        }
        assert forall|x: usize| #[trigger] stack2.contains(x) implies !ordering@.contains(x) && (x as int) < bbs@.len() by {
            if x != bb_idx {
                let q = choose|q: int| 0 <= q < stack2.len() && stack2[q] == x;
                assert(stack[q] == x);
                assert(stack.contains(x));
            } else {
                if ordering@.contains(x) {
                    let q = choose|q: int| 0 <= q < ordering@.len() && ordering@[q] == x;
                    assert(ordering@[q] == bb_idx);
                    assert((ordering@[q] as int) < bbs@.len() && vis0[ordering@[q] as int]);
                    assert(false);
                }
            }
        }
    }
    let children = set_elements(&bbs[bb_idx].out_bb_indices);
    assert forall|d: int| 0 <= d < children@.len() implies (#[trigger] children@[d] as int) < bbs@.len() by {
        assert(children@.contains(children@[d]));
    }
    let mut c: usize = 0;
    while c < children.len()
        invariant
            succ_wf(bbs@),
            bb_idx < bbs@.len(),
            stack2 == stack.push(bb_idx),
            dfs_inv(bbs@, ordering@, visited@, stack2),
            forall|x: usize| #[trigger] children@.contains(x) <==> bbs@[bb_idx as int].out_bb_indices@.contains(x),
            c <= children@.len(),
            forall|d: int| 0 <= d < children@.len() ==> (#[trigger] children@[d] as int) < bbs@.len(),
            forall|d: int| 0 <= d < c ==> visited@[#[trigger] children@[d] as int],
            vis0.len() == bbs@.len(),
            vis0 == old(visited)@,
            visited@.len() == bbs@.len(),
            ordering@.len() >= ord0.len(),
            forall|i: int| 0 <= i < ord0.len() ==> #[trigger] ordering@[i] == ord0[i],
            forall|i: int| ord0.len() <= i < ordering@.len() ==> reaches(bbs@, bb_idx, #[trigger] ordering@[i])
                && !vis0[ordering@[i] as int],
            forall|x: int| 0 <= x < bbs@.len() && vis1[x] ==> #[trigger] visited@[x],
            vis1 == vis0.update(bb_idx as int, true),
            count_unvisited(vis1) < count_unvisited(vis0),
            forall|x: usize| #[trigger] stack.contains(x) ==> reaches(bbs@, x, bb_idx),
        decreases children@.len() - c,
    {
        let child = children[c];
        assert(children@.contains(child));
        assert(bbs@[bb_idx as int].out_bb_indices@.contains(child));
        if !visited[child] {
            proof {
                lemma_count_monotone(vis1, visited@);
                assert forall|x: usize| #[trigger] stack2.contains(x) implies reaches(bbs@, x, child) by {
                    if x == bb_idx {
                        lemma_reaches_refl(bbs@, bb_idx);
                    } else {
                        let q = choose|q: int| 0 <= q < stack2.len() && stack2[q] == x;
                        assert(stack[q] == x);
                        assert(stack.contains(x));
                    }
                    assert(reaches(bbs@, x, bb_idx));
                    lemma_reaches_step(bbs@, x, bb_idx, child);
                }
            }
            assert(count_unvisited(visited@) < count_unvisited(vis0));
            let ghost ord1 = ordering@;
            let ghost vis2 = visited@;
            visit(child, bbs, ordering, visited, Ghost(stack2));
            assert forall|i: int| ord0.len() <= i < ordering@.len() implies reaches(bbs@, bb_idx, #[trigger] ordering@[i])
                && !vis0[ordering@[i] as int] by {
                if i < ord1.len() {
                    assert(ordering@[i] == ord1[i]);
                } else {
                    lemma_reaches_prepend(bbs@, bb_idx, child, ordering@[i]);
                    assert(!vis2[ordering@[i] as int]);
                    assert(!vis1[ordering@[i] as int]);
                }
            }
        }
        c += 1;
    }
    let ghost ord2 = ordering@;
    ordering.push(bb_idx);
    assert(dfs_inv(bbs@, ordering@, visited@, stack)) by {
        let ord3 = ordering@;
        assert forall|i: int| 0 <= i < ord3.len() implies (#[trigger] ord3[i] as int) < bbs@.len() && visited@[ord3[i] as int] by {
            if i < ord2.len() {
                assert(ord3[i] == ord2[i]);
            }
        }
        assert(ord3.no_duplicates()) by {
            assert(!ord2.contains(bb_idx)) by {
                assert(stack2[stack2.len() - 1] == bb_idx);
                assert(stack2.contains(bb_idx));
                assert(dfs_inv(bbs@, ord2, visited@, stack2));
            }
            assert forall|i: int, j: int| 0 <= i < ord3.len() && 0 <= j < ord3.len() && i != j implies ord3[i] != ord3[j] by {
                if i < ord2.len() && j < ord2.len() {
                    assert(ord3[i] == ord2[i] && ord3[j] == ord2[j]);
                } else if i < ord2.len() {
                    assert(ord3[i] == ord2[i]);
                    assert(ord2.contains(ord2[i]));
                } else {
                    assert(ord3[j] == ord2[j]);
                    assert(ord2.contains(ord2[j]));
                }
            }
        }
        assert forall|x: usize| (x as int) < bbs@.len() implies (#[trigger] visited@[x as int] <==> ord3.contains(x) || stack.contains(x)) by {
            if visited@[x as int] {
                if x == bb_idx {
                    assert(ord3[ord3.len() - 1] == x);
                } else if ord2.contains(x) {
                    let q = choose|q: int| 0 <= q < ord2.len() && ord2[q] == x;
                    assert(ord3[q] == x);
                } else {
                    assert(stack2.contains(x));
                    let q = choose|q: int| 0 <= q < stack2.len() && stack2[q] == x;
                    assert(stack[q] == x);
                }
            }
            if ord3.contains(x) {
                let q = choose|q: int| 0 <= q < ord3.len() && ord3[q] == x;
                if q < ord2.len() {
                    assert(ord2[q] == x);
                }
            }
            if stack.contains(x) {
                let q = choose|q: int| 0 <= q < stack.len() && stack[q] == x;
                assert(stack2[q] == x);
            }
        }
        assert forall|x: usize| #[trigger] stack.contains(x) implies !ord3.contains(x) && (x as int) < bbs@.len() by {
            let q = choose|q: int| 0 <= q < stack.len() && stack[q] == x;
            assert(stack2[q] == x);
            assert(stack2.contains(x));
            if ord3.contains(x) {
                let r = choose|r: int| 0 <= r < ord3.len() && ord3[r] == x;
                if r < ord2.len() {
                    assert(ord2[r] == x);
                } else {
                    // x == bb_idx, which was not visited when entered
                    assert(vis0[stack[q] as int]);
                }
            }
        }
        assert forall|i: int, v: usize| 0 <= i < ord3.len() && #[trigger] bbs@[ord3[i] as int].out_bb_indices@.contains(v)
            implies (v as int) < bbs@.len() && visited@[v as int] by {
            if i < ord2.len() {
                assert(ord3[i] == ord2[i]);
            } else {
                assert(children@.contains(v));
                let d = choose|d: int| 0 <= d < children@.len() && children@[d] == v;
            }
        }
        assert forall|i: int, v: usize| 0 <= i < ord3.len() && #[trigger] bbs@[ord3[i] as int].out_bb_indices@.contains(v)
            implies (exists|j: int| 0 <= j < i && ord3[j] == v) || reaches(bbs@, v, ord3[i]) by {
            if i < ord2.len() {
                assert(ord3[i] == ord2[i]);
                if exists|j: int| 0 <= j < i && ord2[j] == v {
                    let j = choose|j: int| 0 <= j < i && ord2[j] == v;
                    assert(ord3[j] == v);
                }
            } else {
                assert(children@.contains(v));
                let d = choose|d: int| 0 <= d < children@.len() && children@[d] == v;
                assert(visited@[v as int]);
                if ord2.contains(v) {
                    let j = choose|j: int| 0 <= j < ord2.len() && ord2[j] == v;
                    assert(ord3[j] == v);
                } else {
                    assert(stack2.contains(v));
                    if v == bb_idx {
                        lemma_reaches_refl(bbs@, bb_idx);
                    } else {
                        let q = choose|q: int| 0 <= q < stack2.len() && stack2[q] == v;
                        assert(stack[q] == v);
                    }
                }
            }
        }
    }
}

/// `ord` lists each block reachable from the entry block once, in the order
/// a depth-first search from the entry block finishes them: the entry block
/// last, and every successor of a block either earlier than the block or
/// reaching it.
pub open spec fn is_dfs_post_order(bbs: Seq<BasicBlock>, ord: Seq<usize>) -> bool {
    &&& ord.no_duplicates()
    &&& forall|v: usize| #[trigger] ord.contains(v) <==> bbs.len() > 0 && reaches(bbs, 0, v)
    &&& bbs.len() > 0 ==> ord.len() > 0 && ord.last() == 0
    &&& forall|i: int, v: usize| 0 <= i < ord.len() && #[trigger] bbs[ord[i] as int].out_bb_indices@.contains(v)
        ==> (exists|j: int| 0 <= j < i && ord[j] == v) || reaches(bbs, v, ord[i])
}

/// The blocks reachable from the entry block, in depth-first post-order.
pub fn get_post_order_traversal_ordering(bbs: &Vec<BasicBlock>) -> (r: Vec<usize>)
    requires
        succ_wf(bbs@),
    ensures
        is_dfs_post_order(bbs@, r@),
{
    let mut ordering: Vec<usize> = Vec::new();
    let n = bbs.len();
    if n == 0 {
        return ordering;
    }
    let mut visited: Vec<bool> = Vec::new();
    let mut i: usize = 0;
    while i < n
        invariant
            i <= n,
            visited@.len() == i,
            forall|k: int| 0 <= k < i ==> !visited@[k],
        decreases n - i,
    {
        visited.push(false);
        i += 1;
    }
    let ghost empty = Seq::<usize>::empty();
    assert(dfs_inv(bbs@, ordering@, visited@, empty));
    visit(0, bbs, &mut ordering, &mut visited, Ghost(empty));
    let ghost ord = ordering@;
    assert forall|v: usize| #[trigger] ord.contains(v) <==> reaches(bbs@, 0, v) by {
        if ord.contains(v) {
            let q = choose|q: int| 0 <= q < ord.len() && ord[q] == v;
        }
        if reaches(bbs@, 0, v) {
            let s = ord.to_set();
            assert(s.contains(0usize)) by {
                assert(ord[ord.len() - 1] == 0usize);
            }
            assert forall|u: usize, w: usize| s.contains(u) && (u as int) < bbs@.len() && #[trigger] bbs@[u as int].out_bb_indices@.contains(w)
                implies #[trigger] s.contains(w) by {
                let q = choose|q: int| 0 <= q < ord.len() && ord[q] == u;
                assert(bbs@[ord[q] as int].out_bb_indices@.contains(w));
                assert(visited@[w as int]);
            }
            lemma_closed_holds_reachable(bbs@, s, 0, v);
        }
    }
    ordering
}

/// The blocks reachable from the entry block, in reverse depth-first
/// post-order: the entry block first.
pub fn get_reverse_post_order_traversal_ordering(bbs: &Vec<BasicBlock>) -> (r: Vec<usize>)
    requires
        succ_wf(bbs@),
    ensures
        is_dfs_post_order(bbs@, r@.reverse()),
{
    let post = get_post_order_traversal_ordering(bbs);
    let mut ret: Vec<usize> = Vec::new();
    let mut i: usize = post.len();
    while i > 0
        invariant
            i <= post@.len(),
            ret@ == post@.subrange(i as int, post@.len() as int).reverse(),
        decreases i,
    {
        i -= 1;
        ret.push(post[i]);
        assert(ret@ =~= post@.subrange(i as int, post@.len() as int).reverse());
    }
    assert(ret@.reverse() =~= post@);
    ret
}

/// The dominance information of one basic block.
pub struct BBDomContext {
    /// The blocks that dominate this block.
    pub dominators: HashSet<usize>,
}

/// The dominance information of a function's basic blocks, one entry per
/// block.
pub struct DomContext {
    pub bbs: Vec<BBDomContext>,
}

/// Block `v` can be reached from the entry block.
pub open spec fn is_reachable(bbs: Seq<BasicBlock>, v: usize) -> bool {
    bbs.len() > 0 && reaches(bbs, 0, v)
}

/// Each block lists as predecessors exactly the blocks that list it as a
/// successor.
pub open spec fn cfg_sym(bbs: Seq<BasicBlock>) -> bool {
    forall|u: usize, v: usize|
        (u as int) < bbs.len() && (v as int) < bbs.len() ==> (#[trigger] bbs[u as int].out_bb_indices@.contains(v)
            <==> #[trigger] bbs[v as int].in_bb_indices@.contains(u))
}

/// Every index of a function with `n` blocks.
pub open spec fn all_blocks(n: nat) -> Set<usize> {
    Set::new(|x: usize| (x as int) < n)
}

/// The dominator equation of block `v` over the sets `d`: `v` itself, and
/// the blocks in the sets of all its reachable predecessors.
pub open spec fn dom_eq(bbs: Seq<BasicBlock>, d: Seq<Set<usize>>, v: usize) -> Set<usize> {
    Set::new(
        |x: usize|
            (x as int) < bbs.len() && forall|p: usize|
                #[trigger] bbs[v as int].in_bb_indices@.contains(p) && is_reachable(bbs, p) ==> d[p as int].contains(x),
    ).insert(v)
}

/// `d` solves the dominator equations: the entry block is dominated by
/// itself alone, and every other reachable block by itself and by what
/// dominates all its reachable predecessors.
pub open spec fn is_dom_solution(bbs: Seq<BasicBlock>, d: Seq<Set<usize>>) -> bool {
    &&& d.len() == bbs.len()
    &&& bbs.len() > 0 ==> d[0] == set![0usize]
    &&& forall|v: usize| 0 < v < bbs.len() && is_reachable(bbs, v) ==> #[trigger] d[v as int] == dom_eq(bbs, d, v)
}

/// The dominators of block `v`: for a reachable block, the greatest solution
/// of the dominator equations, which holds every solution; for an
/// unreachable block, none.
pub open spec fn dominators_of(bbs: Seq<BasicBlock>, v: usize) -> Set<usize> {
    if is_reachable(bbs, v) {
        Set::new(|x: usize| exists|d: Seq<Set<usize>>| #[trigger] is_dom_solution(bbs, d) && d[v as int].contains(x))
    } else {
        Set::empty()
    }
}

/// The sizes of the sets, added up.
pub open spec fn size_sum(d: Seq<Set<usize>>) -> nat
    decreases d.len(),
{
    if d.len() == 0 {
        0
    } else {
        size_sum(d.drop_last()) + d.last().len()
    }
}

proof fn lemma_size_sum_update(d: Seq<Set<usize>>, j: int, s: Set<usize>)
    requires
        0 <= j < d.len(),
    ensures
        size_sum(d.update(j, s)) + d[j].len() == size_sum(d) + s.len(),
    decreases d.len(),
{
    let w = d.update(j, s);
    if j == d.len() - 1 {
        assert(w.drop_last() =~= d.drop_last());
    } else {
        assert(w.drop_last() =~= d.drop_last().update(j, s));
        lemma_size_sum_update(d.drop_last(), j, s);
    }
}

proof fn lemma_all_blocks_finite(n: nat)
    ensures
        all_blocks(n).finite(),
    decreases n,
{
    if n == 0 {
        assert(all_blocks(n) =~= Set::empty());
    } else {
        lemma_all_blocks_finite((n - 1) as nat);
        if n - 1 <= usize::MAX {
            assert(all_blocks(n) =~= all_blocks((n - 1) as nat).insert((n - 1) as usize));
        } else {
            assert(all_blocks(n) =~= all_blocks((n - 1) as nat));
        }
    }
}

/// Smaller sets of the predecessors give a smaller equation.
proof fn lemma_dom_eq_monotone(bbs: Seq<BasicBlock>, d1: Seq<Set<usize>>, d2: Seq<Set<usize>>, v: usize)
    requires
        forall|p: usize| is_reachable(bbs, p) && (p as int) < bbs.len() ==> (#[trigger] d1[p as int]).subset_of(d2[p as int]),
        forall|p: usize| #[trigger] bbs[v as int].in_bb_indices@.contains(p) && is_reachable(bbs, p) ==> (p as int) < bbs.len(),
    ensures
        dom_eq(bbs, d1, v).subset_of(dom_eq(bbs, d2, v)),
{
    assert forall|x: usize| dom_eq(bbs, d1, v).contains(x) implies dom_eq(bbs, d2, v).contains(x) by {
        if x != v {
            assert forall|p: usize| #[trigger] bbs[v as int].in_bb_indices@.contains(p) && is_reachable(bbs, p) implies d2[p as int].contains(x) by {
                assert(d1[p as int].contains(x));
            }
        }
    }
}

/// What the iteration keeps: unreachable blocks have empty sets, the entry
/// block `{0}`, every other reachable block a set of blocks holding itself
/// and the right side of its equation; and every solution lies below.
spec fn dom_iter_inv(bbs: Seq<BasicBlock>, d: Seq<Set<usize>>) -> bool {
    &&& d.len() == bbs.len()
    &&& forall|v: usize| (v as int) < bbs.len() && !is_reachable(bbs, v) ==> #[trigger] d[v as int] == Set::<usize>::empty()
    &&& bbs.len() > 0 ==> d[0] == set![0usize]
    &&& forall|v: usize| 0 < v < bbs.len() && is_reachable(bbs, v) ==> (#[trigger] d[v as int]).subset_of(all_blocks(bbs.len()))
        && dom_eq(bbs, d, v).subset_of(d[v as int])
    &&& forall|s: Seq<Set<usize>>| #[trigger] is_dom_solution(bbs, s) ==> forall|v: usize|
        0 <= v < bbs.len() && is_reachable(bbs, v) ==> (#[trigger] s[v as int]).subset_of(d[v as int])
}

/// An exact copy of a set of indices.
pub fn copy_set(s: &HashSet<usize>) -> (r: HashSet<usize>)
    ensures
        r@ == s@,
{
    broadcast use vstd::std_specs::hash::group_hash_axioms;

    let elems = set_elements(s);
    let mut r: HashSet<usize> = HashSet::new();
    let mut i: usize = 0;
    while i < elems.len()
        invariant
            i <= elems@.len(),
            forall|x: usize| #[trigger] r@.contains(x) <==> exists|k: int| 0 <= k < i && elems@[k] == x,
        decreases elems@.len() - i,
    {
        r.insert(elems[i]);
        assert forall|x: usize| #[trigger] r@.contains(x) <==> exists|k: int| 0 <= k < i + 1 && elems@[k] == x by {
            if exists|k: int| 0 <= k < i + 1 && elems@[k] == x {
                let k = choose|k: int| 0 <= k < i + 1 && elems@[k] == x;
                if k < i {
                }
            }
        }
        i += 1;
    }
    assert forall|x: usize| #[trigger] r@.contains(x) <==> s@.contains(x) by {
        if s@.contains(x) {
            assert(elems@.contains(x));
            let k = choose|k: int| 0 <= k < elems@.len() && elems@[k] == x;
        }
        if r@.contains(x) {
            let k = choose|k: int| 0 <= k < elems@.len() && elems@[k] == x;
            assert(elems@.contains(x));
        }
    }
    assert(r@ =~= s@);
    r
}

proof fn lemma_rpo_facts(g: Seq<BasicBlock>, o: Seq<usize>)
    requires
        g.len() > 0,
        is_dfs_post_order(g, o.reverse()),
    ensures
        forall|k: int| 0 <= k < o.len() ==> (#[trigger] o[k] as int) < g.len(),
        forall|v: usize| #[trigger] o.contains(v) <==> is_reachable(g, v),
{
    let r = o.reverse();
    assert forall|v: usize| #[trigger] o.contains(v) <==> is_reachable(g, v) by {
        if o.contains(v) {
            let q = choose|q: int| 0 <= q < o.len() && o[q] == v;
            assert(r[o.len() - 1 - q] == v);
            assert(r.contains(v));
        }
        if is_reachable(g, v) {
            assert(r.contains(v));
            let q = choose|q: int| 0 <= q < r.len() && r[q] == v;
            assert(o[o.len() - 1 - q] == v);
        }
    }
    assert forall|k: int| 0 <= k < o.len() implies (#[trigger] o[k] as int) < g.len() by {
        assert(o.contains(o[k]));
        let p = choose|p: Seq<usize>| #[trigger] is_walk(g, p) && p[0] == 0 && p.last() == o[k];
        assert(p[p.len() - 1] == o[k]);
    }
}

/// Updating one block with the right side of its equation keeps the
/// iteration's facts.
proof fn lemma_dom_step(g: Seq<BasicBlock>, d: Seq<Set<usize>>, v: usize, s: Set<usize>)
    requires
        cfg_wf(g),
        g.len() > 0,
        0 < v < g.len(),
        is_reachable(g, v),
        dom_iter_inv(g, d),
        s == dom_eq(g, d, v),
    ensures
        dom_iter_inv(g, d.update(v as int, s)),
        s.subset_of(d[v as int]),
{
    let d2 = d.update(v as int, s);
    assert forall|p: usize| is_reachable(g, p) && (p as int) < g.len() implies (#[trigger] d2[p as int]).subset_of(d[p as int]) by {
        if p != v {
            assert(d2[p as int] == d[p as int]);
        }
    }
    assert forall|u: usize| 0 < u < g.len() && is_reachable(g, u) implies (#[trigger] d2[u as int]).subset_of(all_blocks(g.len()))
        && dom_eq(g, d2, u).subset_of(d2[u as int]) by {
        lemma_dom_eq_monotone(g, d2, d, u);
        if u == v {
            assert forall|x: usize| s.contains(x) implies all_blocks(g.len()).contains(x) by {}
        } else {
            assert(d2[u as int] == d[u as int]);
        }
    }
    assert forall|t: Seq<Set<usize>>| #[trigger] is_dom_solution(g, t) implies forall|u: usize|
        0 <= u < g.len() && is_reachable(g, u) ==> (#[trigger] t[u as int]).subset_of(d2[u as int]) by {
        assert forall|u: usize| 0 <= u < g.len() && is_reachable(g, u) implies (#[trigger] t[u as int]).subset_of(d2[u as int]) by {
            if u == v {
                assert forall|p: usize| is_reachable(g, p) && (p as int) < g.len() implies (#[trigger] t[p as int]).subset_of(d[p as int]) by {}
                lemma_dom_eq_monotone(g, t, d, v);
                assert(t[v as int] == dom_eq(g, t, v));
            } else {
                assert(d2[u as int] == d[u as int]);
            }
        }
    }
    assert forall|u: usize| (u as int) < g.len() && !is_reachable(g, u) implies #[trigger] d2[u as int] == Set::<usize>::empty() by {
        assert(u != v);
    }
}

proof fn lemma_reachable_in_range(g: Seq<BasicBlock>, v: usize)
    requires
        is_reachable(g, v),
    ensures
        (v as int) < g.len(),
{
    let p = choose|p: Seq<usize>| #[trigger] is_walk(g, p) && p[0] == 0 && p.last() == v;
    assert(p[p.len() - 1] == v);
}

/// In a solution that holds every other solution, each reachable block's
/// set holds the block itself and the entry block: adding the entry block
/// to every reachable set gives another solution.
proof fn lemma_greatest_has_entry(g: Seq<BasicBlock>, d: Seq<Set<usize>>)
    requires
        g.len() > 0,
        is_dom_solution(g, d),
        forall|s: Seq<Set<usize>>| #[trigger] is_dom_solution(g, s) ==> forall|v: usize|
            0 <= v < g.len() && is_reachable(g, v) ==> (#[trigger] s[v as int]).subset_of(d[v as int]),
    ensures
        forall|v: usize| #[trigger] is_reachable(g, v) ==> d[v as int].contains(v) && d[v as int].contains(0usize),
{
    let e = Seq::new(
        d.len(),
        |i: int| if i != 0 && is_reachable(g, i as usize) { d[i].insert(0usize) } else { d[i] },
    );
    assert forall|v: usize| 0 < v < g.len() && is_reachable(g, v) implies #[trigger] e[v as int] == dom_eq(g, e, v) by {
        assert(d[v as int] == dom_eq(g, d, v));
        assert forall|x: usize| e[v as int].contains(x) <==> dom_eq(g, e, v).contains(x) by {
            if x != v {
                if x == 0 {
                    assert forall|p: usize| #[trigger] g[v as int].in_bb_indices@.contains(p) && is_reachable(g, p) implies e[p as int].contains(x) by {
                        lemma_reachable_in_range(g, p);
                        if p == 0 {
                            assert(d[0] == set![0usize]);
                        }
                    }
                } else {
                    if dom_eq(g, e, v).contains(x) {
                        assert forall|p: usize| #[trigger] g[v as int].in_bb_indices@.contains(p) && is_reachable(g, p) implies d[p as int].contains(x) by {
                            lemma_reachable_in_range(g, p);
                            assert(e[p as int].contains(x));
                        }
                        assert(dom_eq(g, d, v).contains(x));
                    }
                    if e[v as int].contains(x) {
                        assert(dom_eq(g, d, v).contains(x));
                        assert forall|p: usize| #[trigger] g[v as int].in_bb_indices@.contains(p) && is_reachable(g, p) implies e[p as int].contains(x) by {
                            lemma_reachable_in_range(g, p);
                            assert(d[p as int].contains(x));
                        }
                    }
                }
            }
        }
        assert(e[v as int] =~= dom_eq(g, e, v));
    }
    assert(e[0] =~= set![0usize]);
    assert(is_dom_solution(g, e));
    assert forall|v: usize| #[trigger] is_reachable(g, v) implies d[v as int].contains(v) && d[v as int].contains(0usize) by {
        lemma_reachable_in_range(g, v);
        assert(e[v as int].subset_of(d[v as int]));
        if v != 0 {
            assert(d[v as int] == dom_eq(g, d, v));
            assert(e[v as int].contains(0usize));
        } else {
            assert(d[0] == set![0usize]);
        }
    }
}

/// The right side of the equation of block `v` for the current sets.
fn dom_of_preds(bbs: &Vec<BasicBlock>, ctx: &DomContext, reachable: &Vec<bool>, top: &HashSet<usize>, v: usize) -> (r: HashSet<usize>)
    requires
        cfg_wf(bbs@),
        (v as int) < bbs@.len(),
        ctx.bbs@.len() == bbs@.len(),
        reachable@.len() == bbs@.len(),
        forall|u: usize| (u as int) < bbs@.len() ==> (#[trigger] reachable@[u as int] <==> is_reachable(bbs@, u)),
        top@ == all_blocks(bbs@.len()),
        forall|u: usize| (u as int) < bbs@.len() && is_reachable(bbs@, u) ==> (#[trigger] ctx.bbs@[u as int]).dominators@.subset_of(all_blocks(bbs@.len())),
    ensures
        r@ == dom_eq(bbs@, ctx.bbs@.map_values(|c: BBDomContext| c.dominators@), v),
{
    broadcast use vstd::std_specs::hash::group_hash_axioms;

    let ghost g = bbs@;
    let ghost d = ctx.bbs@.map_values(|c: BBDomContext| c.dominators@);
    let parents = set_elements(&bbs[v].in_bb_indices);
    let mut sets: Vec<HashSet<usize>> = Vec::new();
    let ghost mut idx: Seq<usize> = seq![];
    let mut k: usize = 0;
    while k < parents.len()
        invariant
            cfg_wf(g),
            g == bbs@,
            (v as int) < g.len(),
            ctx.bbs@.len() == g.len(),
            reachable@.len() == g.len(),
            forall|u: usize| (u as int) < g.len() ==> (#[trigger] reachable@[u as int] <==> is_reachable(g, u)),
            forall|x: usize| #[trigger] parents@.contains(x) <==> g[v as int].in_bb_indices@.contains(x),
            k <= parents@.len(),
            sets@.len() == idx.len(),
            forall|m: int| 0 <= m < idx.len() ==> (#[trigger] sets@[m])@ == d[idx[m] as int],
            forall|x: usize| #[trigger] idx.contains(x) <==> (exists|q: int| 0 <= q < k && parents@[q] == x) && is_reachable(g, x),
            d == ctx.bbs@.map_values(|c: BBDomContext| c.dominators@),
        decreases parents@.len() - k,
    {
        let p = parents[k];
        assert(parents@.contains(p));
        assert((p as int) < g.len());
        let ghost idx0 = idx;
        if reachable[p] {
            sets.push(copy_set(&ctx.bbs[p].dominators));
            proof {
                idx = idx.push(p);
            }
        }
        assert forall|x: usize| #[trigger] idx.contains(x) <==> (exists|q: int| 0 <= q < k + 1 && parents@[q] == x) && is_reachable(g, x) by {
            if idx.contains(x) {
                let m = choose|m: int| 0 <= m < idx.len() && idx[m] == x;
                if m < idx0.len() {
                    assert(idx0[m] == x);
                    assert(idx0.contains(x));
                }
            }
            if (exists|q: int| 0 <= q < k + 1 && parents@[q] == x) && is_reachable(g, x) {
                if x == p {
                    assert(idx[idx.len() - 1] == x);
                } else {
                    let q = choose|q: int| 0 <= q < k + 1 && parents@[q] == x;
                    assert(q != k);
                    assert(idx0.contains(x));
                    let m = choose|m: int| 0 <= m < idx0.len() && idx0[m] == x;
                    assert(idx[m] == x);
                }
            }
        }
        k += 1;
    }
    let mut r = if sets.len() == 0 { copy_set(top) } else { get_set_intersection(&sets) };
    r.insert(v);
    proof {
        assert forall|x: usize| r@.contains(x) <==> dom_eq(g, d, v).contains(x) by {
            if x != v {
                if sets@.len() == 0 {
                    assert forall|p: usize| #[trigger] g[v as int].in_bb_indices@.contains(p) && is_reachable(g, p) implies d[p as int].contains(x) by {
                        assert(parents@.contains(p));
                        let q = choose|q: int| 0 <= q < parents@.len() && parents@[q] == p;
                        assert(idx.contains(p));
                    }
                } else {
                    if r@.contains(x) {
                        assert(sets@[0]@.contains(x));
                        assert(idx.contains(idx[0]));
                        assert((idx[0] as int) < g.len());
                        assert(d[idx[0] as int].subset_of(all_blocks(g.len())));
                        assert forall|p: usize| #[trigger] g[v as int].in_bb_indices@.contains(p) && is_reachable(g, p) implies d[p as int].contains(x) by {
                            assert(parents@.contains(p));
                            let q = choose|q: int| 0 <= q < parents@.len() && parents@[q] == p;
                            assert(idx.contains(p));
                            let m = choose|m: int| 0 <= m < idx.len() && idx[m] == p;
                            assert(sets@[m]@.contains(x));
                        }
                    }
                    if dom_eq(g, d, v).contains(x) {
                        assert forall|m: int| 0 <= m < sets@.len() implies (#[trigger] sets@[m])@.contains(x) by {
                            assert(idx.contains(idx[m]));
                            let q = choose|q: int| 0 <= q < parents@.len() && parents@[q] == idx[m];
                            assert(parents@.contains(idx[m]));
                        }
                    }
                }
            }
        }
        assert(r@ =~= dom_eq(g, d, v));
    }
    r
}

/// The dominators of every block: for each block reachable from the entry
/// block, the greatest solution of the dominator equations (a block is
/// dominated by itself and by what dominates all its reachable
/// predecessors; the entry block by itself alone), found by going over the
/// reachable blocks in reverse depth-first post-order until nothing
/// changes. Unreachable blocks get empty sets.
pub fn get_dom_context(bbs: &Vec<BasicBlock>) -> (ctx: DomContext)
    requires
        cfg_wf(bbs@),
    ensures
        ctx.bbs@.len() == bbs@.len(),
        forall|v: int| 0 <= v < bbs@.len() ==> (#[trigger] ctx.bbs@[v]).dominators@ == dominators_of(bbs@, v as usize),
        is_dom_solution(bbs@, ctx.bbs@.map_values(|c: BBDomContext| c.dominators@)),
        forall|v: usize|
            (v as int) < bbs@.len() && is_reachable(bbs@, v) ==> #[trigger] dominators_of(bbs@, v).contains(v)
                && dominators_of(bbs@, v).contains(0usize),
        bbs@.len() > 0 ==> dominators_of(bbs@, 0) == set![0usize],
{
    broadcast use vstd::std_specs::hash::group_hash_axioms;

    let ghost g = bbs@;
    let n = bbs.len();
    let mut ctx: DomContext = DomContext { bbs: Vec::new() };
    if n == 0 {
        proof {
            assert forall|v: int| 0 <= v < g.len() implies (#[trigger] ctx.bbs@[v]).dominators@ == dominators_of(g, v as usize) by {}
            assert(ctx.bbs@.map_values(|c: BBDomContext| c.dominators@) =~= Seq::<Set<usize>>::empty());
        }
        return ctx;
    }
    let reverse_post_ordering = get_reverse_post_order_traversal_ordering(bbs);
    let ghost o = reverse_post_ordering@;
    proof {
        lemma_rpo_facts(g, o);
        lemma_all_blocks_finite(n as nat);
    }
    // which blocks are reachable
    let mut reachable: Vec<bool> = Vec::new();
    let mut i: usize = 0;
    while i < n
        invariant
            i <= n,
            reachable@.len() == i,
            forall|k: int| 0 <= k < i ==> !reachable@[k],
        decreases n - i,
    {
        reachable.push(false);
        i += 1;
    }
    let mut i: usize = 0;
    while i < reverse_post_ordering.len()
        invariant
            n == g.len(),
            o == reverse_post_ordering@,
            forall|k: int| 0 <= k < o.len() ==> (#[trigger] o[k] as int) < n,
            i <= o.len(),
            reachable@.len() == n,
            forall|v: usize| (v as int) < n ==> (#[trigger] reachable@[v as int] <==> exists|k: int| 0 <= k < i && o[k] == v),
        decreases o.len() - i,
    {
        let v = reverse_post_ordering[i];
        reachable.set(v, true);
        assert forall|x: usize| (x as int) < n implies (#[trigger] reachable@[x as int] <==> exists|k: int| 0 <= k < i + 1 && o[k] == x) by {
            if x == v {
                assert(o[i as int] == x);
            }
        }
        i += 1;
    }
    assert forall|v: usize| (v as int) < n implies (#[trigger] reachable@[v as int] <==> is_reachable(g, v)) by {
        if reachable@[v as int] {
            let k = choose|k: int| 0 <= k < o.len() && o[k] == v;
            assert(o.contains(v));
        }
        if is_reachable(g, v) {
            assert(o.contains(v));
            let k = choose|k: int| 0 <= k < o.len() && o[k] == v;
        }
    }
    // start from every block for the reachable ones
    let mut top: HashSet<usize> = HashSet::new();
    let mut i: usize = 0;
    while i < n
        invariant
            i <= n,
            top@ == all_blocks(i as nat),
        decreases n - i,
    {
        top.insert(i);
        assert(top@ =~= all_blocks((i + 1) as nat));
        i += 1;
    }
    let mut i: usize = 0;
    while i < n
        invariant
            n == g.len(),
            i <= n,
            top@ == all_blocks(n as nat),
            reachable@.len() == n,
            forall|v: usize| (v as int) < n ==> (#[trigger] reachable@[v as int] <==> is_reachable(g, v)),
            ctx.bbs@.len() == i,
            forall|v: usize|
                (v as int) < i ==> (#[trigger] ctx.bbs@[v as int]).dominators@ == (if !is_reachable(g, v) {
                    Set::<usize>::empty()
                } else if v == 0 {
                    set![0usize]
                } else {
                    all_blocks(n as nat)
                }),
        decreases n - i,
    {
        let mut d: HashSet<usize> = HashSet::new();
        if reachable[i] {
            if i == 0 {
                d.insert(0);
                assert(d@ =~= set![0usize]);
            } else {
                d = copy_set(&top);
            }
        } else {
            assert(d@ =~= Set::<usize>::empty());
        }
        ctx.bbs.push(BBDomContext { dominators: d });
        i += 1;
    }
    let ghost d0 = ctx.bbs@.map_values(|c: BBDomContext| c.dominators@);
    proof {
        assert forall|v: usize| 0 < v < g.len() && is_reachable(g, v) implies (#[trigger] d0[v as int]).subset_of(all_blocks(g.len()))
            && dom_eq(g, d0, v).subset_of(d0[v as int]) by {
            assert(d0[v as int] == all_blocks(n as nat));
        }
        assert forall|s: Seq<Set<usize>>| #[trigger] is_dom_solution(g, s) implies forall|v: usize|
            0 <= v < g.len() && is_reachable(g, v) ==> (#[trigger] s[v as int]).subset_of(d0[v as int]) by {
            assert forall|v: usize| 0 <= v < g.len() && is_reachable(g, v) implies (#[trigger] s[v as int]).subset_of(d0[v as int]) by {
                if v != 0 {
                    assert(s[v as int] == dom_eq(g, s, v));
                }
            }
        }
        assert(d0.len() == g.len());
        assert forall|v: usize| (v as int) < g.len() && !is_reachable(g, v) implies #[trigger] d0[v as int] == Set::<usize>::empty() by {
            assert(d0[v as int] == ctx.bbs@[v as int].dominators@);
        }
        lemma_reaches_refl(g, 0);
        assert(d0[0] == ctx.bbs@[0].dominators@);
        assert(dom_iter_inv(g, d0));
    }

    // go over the reachable blocks until nothing changes
    let mut changed = true;
    while changed
        invariant
            n == g.len(),
            n > 0,
            cfg_wf(g),
            g == bbs@,
            o == reverse_post_ordering@,
            forall|k: int| 0 <= k < o.len() ==> (#[trigger] o[k] as int) < n,
            forall|v: usize| #[trigger] o.contains(v) <==> is_reachable(g, v),
            top@ == all_blocks(n as nat),
            all_blocks(n as nat).finite(),
            reachable@.len() == n,
            forall|v: usize| (v as int) < n ==> (#[trigger] reachable@[v as int] <==> is_reachable(g, v)),
            ctx.bbs@.len() == n,
            dom_iter_inv(g, ctx.bbs@.map_values(|c: BBDomContext| c.dominators@)),
            !changed ==> is_dom_solution(g, ctx.bbs@.map_values(|c: BBDomContext| c.dominators@)),
        decreases size_sum(ctx.bbs@.map_values(|c: BBDomContext| c.dominators@)) + if changed { 1nat } else { 0nat },
    {
        changed = false;
        let ghost start = ctx.bbs@.map_values(|c: BBDomContext| c.dominators@);
        let mut i: usize = 0;
        while i < reverse_post_ordering.len()
            invariant
                n == g.len(),
                n > 0,
                cfg_wf(g),
                g == bbs@,
                o == reverse_post_ordering@,
                forall|k: int| 0 <= k < o.len() ==> (#[trigger] o[k] as int) < n,
                forall|v: usize| #[trigger] o.contains(v) <==> is_reachable(g, v),
                top@ == all_blocks(n as nat),
                all_blocks(n as nat).finite(),
                reachable@.len() == n,
                forall|v: usize| (v as int) < n ==> (#[trigger] reachable@[v as int] <==> is_reachable(g, v)),
                ctx.bbs@.len() == n,
                i <= o.len(),
                dom_iter_inv(g, ctx.bbs@.map_values(|c: BBDomContext| c.dominators@)),
                size_sum(ctx.bbs@.map_values(|c: BBDomContext| c.dominators@)) <= size_sum(start),
                changed ==> size_sum(ctx.bbs@.map_values(|c: BBDomContext| c.dominators@)) < size_sum(start),
                !changed ==> ctx.bbs@.map_values(|c: BBDomContext| c.dominators@) == start,
                !changed ==> forall|k: int|
                    0 <= k < i && o[k] != 0 ==> #[trigger] start[o[k] as int] == dom_eq(g, start, o[k]),
            decreases o.len() - i,
        {
            let v = reverse_post_ordering[i];
            let ghost d = ctx.bbs@.map_values(|c: BBDomContext| c.dominators@);
            assert(o.contains(v));
            if v != 0 {
                proof {
                    assert forall|u: usize| (u as int) < n && is_reachable(g, u) implies (#[trigger] ctx.bbs@[u as int]).dominators@.subset_of(all_blocks(n as nat)) by {
                        assert(d[u as int] == ctx.bbs@[u as int].dominators@);
                        if u == 0 {
                            assert(d[0] == set![0usize]);
                        }
                    }
                }
                let new_set = dom_of_preds(bbs, &ctx, &reachable, &top, v);
                assert(new_set@ == dom_eq(g, d, v));
                assert(new_set@.subset_of(d[v as int]));
                let old_len = ctx.bbs[v].dominators.len();
                let new_len = new_set.len();
                proof {
                    vstd::set_lib::lemma_len_subset(d[v as int], all_blocks(n as nat));
                    vstd::set_lib::lemma_len_subset(new_set@, d[v as int]);
                    lemma_size_sum_update(d, v as int, new_set@);
                    lemma_dom_step(g, d, v, new_set@);
                }
                if new_len != old_len {
                    changed = true;
                }
                if !changed {
                    proof {
                        vstd::set_lib::lemma_subset_equality(new_set@, d[v as int]);
                    }
                }
                ctx.bbs.set(v, BBDomContext { dominators: new_set });
                assert(ctx.bbs@.map_values(|c: BBDomContext| c.dominators@) =~= d.update(v as int, new_set@));
            }
            i += 1;
        }
        proof {
            let d = ctx.bbs@.map_values(|c: BBDomContext| c.dominators@);
            if !changed {
                assert forall|v: usize| 0 < v < g.len() && is_reachable(g, v) implies #[trigger] d[v as int] == dom_eq(g, d, v) by {
                    assert(o.contains(v));
                    let k = choose|k: int| 0 <= k < o.len() && o[k] == v;
                    assert(start[o[k] as int] == dom_eq(g, start, o[k]));
                }
            }
        }
    }
    let ghost d = ctx.bbs@.map_values(|c: BBDomContext| c.dominators@);
    proof {
        assert forall|v: int| 0 <= v < g.len() implies (#[trigger] ctx.bbs@[v]).dominators@ == dominators_of(g, v as usize) by {
            let u = v as usize;
            assert(d[v] == ctx.bbs@[v].dominators@);
            if is_reachable(g, u) {
                assert forall|x: usize| d[v].contains(x) <==> #[trigger] dominators_of(g, u).contains(x) by {
                    if d[v].contains(x) {
                        assert(is_dom_solution(g, d) && d[u as int].contains(x));
                    }
                    if dominators_of(g, u).contains(x) {
                        let s = choose|s: Seq<Set<usize>>| #[trigger] is_dom_solution(g, s) && s[u as int].contains(x);
                        assert(s[u as int].subset_of(d[u as int]));
                    }
                }
                assert(d[v] =~= dominators_of(g, u));
            }
        }
        lemma_greatest_has_entry(g, d);
        assert forall|v: usize| (v as int) < g.len() && is_reachable(g, v) implies #[trigger] dominators_of(g, v).contains(v)
            && dominators_of(g, v).contains(0usize) by {
            assert(ctx.bbs@[v as int].dominators@ == dominators_of(g, v));
            assert(d[v as int] == ctx.bbs@[v as int].dominators@);
        }
        if g.len() > 0 {
            assert(ctx.bbs@[0].dominators@ == dominators_of(g, 0));
        }
    }
    ctx
}

} // verus!
