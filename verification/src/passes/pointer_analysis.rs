//! Intra-procedural alias analysis: a points-to graph from variable names to
//! allocation sites (instruction positions in the function), and the
//! dead-store elimination it allows.
use crate::ast::{
    block_offset, block_partition, block_views, lemma_flatten_index, names, views, Argument, BasicBlock, Function,
    InstrView, Instruction, OpKind, OpcodeInstruction, Program,
};
use crate::dom::set_elements;
use crate::passes::dce::{drop_indices, index_set, lemma_index_set_push, lemma_without_nothing, without_indices};
use crate::passes::name_map::{pending_get, pending_insert, pending_remove, pmap};
use std::collections::HashSet;
use vstd::prelude::*;

verus! {

/// The map held by a list of (name, set) pairs: a later pair for a name
/// overrides an earlier one.
pub open spec fn gmap(v: Seq<(String, HashSet<usize>)>) -> Map<Seq<char>, Set<usize>>
    decreases v.len(),
{
    if v.len() == 0 {
        Map::empty()
    } else {
        gmap(v.drop_last()).insert(v.last().0@, v.last().1@)
    }
}

/// The points-to graph of a function: for each variable, the positions in
/// the function of the allocations it may point to.
pub struct PointToGraph {
    pub entries: Vec<(String, HashSet<usize>)>,
}

impl View for PointToGraph {
    type V = Map<Seq<char>, Set<usize>>;

    open spec fn view(&self) -> Map<Seq<char>, Set<usize>> {
        gmap(self.entries@)
    }
}

/// `i` is the last entry of `v` for its name.
pub open spec fn is_last_entry(v: Seq<(String, HashSet<usize>)>, i: int) -> bool {
    0 <= i < v.len() && forall|j: int| i < j < v.len() ==> (#[trigger] v[j]).0@ != v[i].0@
}

proof fn lemma_gmap_dom(v: Seq<(String, HashSet<usize>)>, k: Seq<char>)
    ensures
        gmap(v).dom().contains(k) <==> exists|i: int| 0 <= i < v.len() && #[trigger] v[i].0@ == k,
    decreases v.len(),
{
    if v.len() > 0 {
        lemma_gmap_dom(v.drop_last(), k);
        if exists|i: int| 0 <= i < v.len() && #[trigger] v[i].0@ == k {
            let i = choose|i: int| 0 <= i < v.len() && #[trigger] v[i].0@ == k;
            if i < v.len() - 1 {
                assert(v.drop_last()[i].0@ == k);
            }
        }
        if exists|i: int| 0 <= i < v.drop_last().len() && #[trigger] v.drop_last()[i].0@ == k {
            let i = choose|i: int| 0 <= i < v.drop_last().len() && #[trigger] v.drop_last()[i].0@ == k;
            assert(v[i].0@ == k);
        }
    }
}

proof fn lemma_gmap_last(v: Seq<(String, HashSet<usize>)>, i: int)
    requires
        is_last_entry(v, i),
    ensures
        gmap(v).dom().contains(v[i].0@),
        gmap(v)[v[i].0@] == v[i].1@,
    decreases v.len(),
{
    if i < v.len() - 1 {
        assert(is_last_entry(v.drop_last(), i)) by {
            assert forall|j: int| i < j < v.drop_last().len() implies (#[trigger] v.drop_last()[j]).0@ != v.drop_last()[i].0@ by {
                assert(v.drop_last()[j] == v[j]);
            }
        }
        lemma_gmap_last(v.drop_last(), i);
        assert(v.last() == v[v.len() - 1]);
    }
}

proof fn lemma_gmap_update_last(v: Seq<(String, HashSet<usize>)>, i: int, s: HashSet<usize>)
    requires
        is_last_entry(v, i),
    ensures
        gmap(v.update(i, (v[i].0, s))) == gmap(v).insert(v[i].0@, s@),
    decreases v.len(),
{
    let w = v.update(i, (v[i].0, s));
    if i == v.len() - 1 {
        assert(w.drop_last() =~= v.drop_last());
        assert(gmap(w) =~= gmap(v).insert(v[i].0@, s@));
    } else {
        assert(is_last_entry(v.drop_last(), i)) by {
            assert forall|j: int| i < j < v.drop_last().len() implies (#[trigger] v.drop_last()[j]).0@ != v.drop_last()[i].0@ by {
                assert(v.drop_last()[j] == v[j]);
            }
        }
        lemma_gmap_update_last(v.drop_last(), i, s);
        assert(w.drop_last() =~= v.drop_last().update(i, (v[i].0, s)));
        assert(v.last().0@ != v[i].0@);
        assert(gmap(w) =~= gmap(v).insert(v[i].0@, s@));
    }
}

/// The allocation sites variable `k` may point to (none when it is absent).
pub open spec fn pts(g: Map<Seq<char>, Set<usize>>, k: Seq<char>) -> Set<usize> {
    if g.dom().contains(k) {
        g[k]
    } else {
        Set::empty()
    }
}

/// Every position of a function with `total` instructions.
pub open spec fn all_locations(total: nat) -> Set<usize> {
    Set::new(|i: usize| i < total)
}

impl PointToGraph {
    pub fn new() -> (g: PointToGraph)
        ensures
            g@ == Map::<Seq<char>, Set<usize>>::empty(),
    {
        PointToGraph { entries: Vec::new() }
    }

    /// The last entry for `name`, if there is one.
    fn find(&self, name: &String) -> (r: Option<usize>)
        ensures
            r is Some <==> self@.dom().contains(name@),
            r matches Some(i) ==> is_last_entry(self.entries@, i as int) && self.entries@[i as int].0@ == name@
                && self@[name@] == self.entries@[i as int].1@,
    {
        let mut i: usize = self.entries.len();
        while i > 0
            invariant
                i <= self.entries@.len(),
                forall|b: int| i <= b < self.entries@.len() ==> (#[trigger] self.entries@[b]).0@ != name@,
            decreases i,
        {
            i -= 1;
            if self.entries[i].0 == *name {
                proof {
                    lemma_gmap_last(self.entries@, i as int);
                }
                return Some(i);
            }
        }
        proof {
            lemma_gmap_dom(self.entries@, name@);
        }
        None
    }

    /// The entry for `name`, made empty first when there is none.
    fn entry_for(&mut self, name: &String) -> (i: usize)
        ensures
            is_last_entry(final(self).entries@, i as int),
            final(self).entries@[i as int].0@ == name@,
            final(self)@ == old(self)@.insert(name@, pts(old(self)@, name@)),
            final(self)@[name@] == final(self).entries@[i as int].1@,
    {
        match self.find(name) {
            Some(i) => {
                assert(old(self)@.insert(name@, pts(old(self)@, name@)) =~= old(self)@);
                i
            },
            None => {
                let ghost before = self.entries@;
                self.entries.push((name.clone(), HashSet::new()));
                assert(self.entries@.drop_last() =~= before);
                let i = self.entries.len() - 1;
                proof {
                    lemma_gmap_last(self.entries@, i as int);
                }
                i
            },
        }
    }

    /// Adds location `x` to the set of the entry at `i`.
    fn add_location(&mut self, i: usize, x: usize)
        requires
            is_last_entry(old(self).entries@, i as int),
        ensures
            is_last_entry(final(self).entries@, i as int),
            final(self).entries@[i as int].0@ == old(self).entries@[i as int].0@,
            final(self)@ == old(self)@.insert(old(self).entries@[i as int].0@, old(self).entries@[i as int].1@.insert(x)),
    {
        broadcast use vstd::std_specs::hash::group_hash_axioms;

        let ghost v = self.entries@;
        let mut s = HashSet::new();
        std::mem::swap(&mut s, &mut self.entries[i].1);
        s.insert(x);
        let ghost s2 = s;
        let mut s3 = s;
        std::mem::swap(&mut s3, &mut self.entries[i].1);
        proof {
            assert(self.entries@ =~= v.update(i as int, (v[i as int].0, s2)));
            lemma_gmap_update_last(v, i as int, s2);
            assert forall|j: int| i < j < self.entries@.len() implies (#[trigger] self.entries@[j]).0@ != self.entries@[i as int].0@ by {
                assert(self.entries@[j] == v[j]);
            }
        }
    }
}

impl PointToGraph {
    /// Adds every position below `total` to the set of the entry at `i`.
    fn add_all_locations(&mut self, i: usize, total: usize)
        requires
            is_last_entry(old(self).entries@, i as int),
        ensures
            is_last_entry(final(self).entries@, i as int),
            final(self).entries@[i as int].0@ == old(self).entries@[i as int].0@,
            final(self)@ == old(self)@.insert(
                old(self).entries@[i as int].0@,
                old(self).entries@[i as int].1@.union(all_locations(total as nat)),
            ),
    {
        let ghost name = self.entries@[i as int].0@;
        let ghost s0 = self.entries@[i as int].1@;
        let ghost g0 = self@;
        proof {
            lemma_gmap_last(self.entries@, i as int);
        }
        assert(self@ =~= g0.insert(name, s0.union(all_locations(0)))) by {
            assert(s0.union(all_locations(0)) =~= s0);
        }
        let mut k: usize = 0;
        while k < total
            invariant
                is_last_entry(self.entries@, i as int),
                self.entries@[i as int].0@ == name,
                k <= total,
                self@ == g0.insert(name, s0.union(all_locations(k as nat))),
            decreases total - k,
        {
            proof {
                lemma_gmap_last(self.entries@, i as int);
            }
            self.add_location(i, k);
            assert(s0.union(all_locations(k as nat)).insert(k) =~= s0.union(all_locations((k + 1) as nat)));
            assert(self@ =~= g0.insert(name, s0.union(all_locations((k + 1) as nat))));
            k += 1;
        }
    }
}

/// The operation of an instruction, if it has one.
pub open spec fn op_kind_is(x: InstrView, k: OpKind) -> bool {
    x matches InstrView::Opcode(op) && op.kind == k
}

/// The instructions that build the points-to graph: `alloc`, `id`,
/// `ptradd` and `load`.
pub open spec fn tracks_pointer(x: InstrView) -> bool {
    op_kind_is(x, OpKind::Alloc) || op_kind_is(x, OpKind::Id) || op_kind_is(x, OpKind::Ptradd) || op_kind_is(
        x,
        OpKind::Load,
    )
}

/// The first argument of an operation.
pub open spec fn first_arg(x: InstrView) -> Seq<char> {
    x->Opcode_0.args.unwrap()[0]
}

/// The destination of an operation.
pub open spec fn dest_of(x: InstrView) -> Seq<char> {
    x->Opcode_0.dest.unwrap()
}

/// How one instruction at position `at` of a function with `total`
/// instructions updates the points-to graph: after `x = alloc n`, `x` may
/// point to this allocation; after `x = id p` and `x = ptradd p off`, to
/// whatever `p` may point to; after `x = load p`, to anything.
pub open spec fn pt_step(g: Map<Seq<char>, Set<usize>>, x: InstrView, at: usize, total: nat) -> Map<Seq<char>, Set<usize>> {
    if op_kind_is(x, OpKind::Alloc) {
        g.insert(dest_of(x), pts(g, dest_of(x)).insert(at))
    } else if op_kind_is(x, OpKind::Id) || op_kind_is(x, OpKind::Ptradd) {
        g.insert(dest_of(x), pts(g, dest_of(x)).union(pts(g, first_arg(x))))
    } else if op_kind_is(x, OpKind::Load) {
        g.insert(dest_of(x), pts(g, dest_of(x)).union(all_locations(total)))
    } else {
        g
    }
}

/// The points-to graph after the first `n` instructions of `b`, whose first
/// instruction sits at position `offset` of the function.
pub open spec fn pt_scan(g: Map<Seq<char>, Set<usize>>, b: Seq<InstrView>, offset: nat, total: nat, n: nat) -> Map<
    Seq<char>,
    Set<usize>,
>
    decreases n,
{
    if n == 0 || n > b.len() {
        g
    } else {
        pt_step(pt_scan(g, b, offset, total, (n - 1) as nat), b[n - 1], (offset + n - 1) as usize, total)
    }
}

/// The shape the points-to graph relies on: `id` and `ptradd` take a
/// pointer, then possibly a second argument.
pub open spec fn alias_ops_ok(x: InstrView) -> bool {
    &&& op_kind_is(x, OpKind::Id) ==> (x->Opcode_0.args matches Some(a) && 1 <= a.len() <= 2)
    &&& op_kind_is(x, OpKind::Ptradd) ==> (x->Opcode_0.args matches Some(a) && 1 <= a.len() <= 2)
}

/// The shape dead-store elimination relies on: `store` takes a location
/// and a value, `load` a location.
pub open spec fn store_ops_ok(x: InstrView) -> bool {
    &&& op_kind_is(x, OpKind::Store) ==> (x->Opcode_0.args matches Some(a) && a.len() == 2)
    &&& op_kind_is(x, OpKind::Load) ==> (x->Opcode_0.args matches Some(a) && a.len() == 1)
}

/// Adds the information of one basic block to the points-to graph. The
/// block's first instruction sits at position `bb_inst_offset` of its
/// function, which has `num_fn_insts` instructions. Returns whether the
/// block has an instruction that bears on pointers.
pub fn build_point_to_graph(
    bb: &BasicBlock,
    bb_inst_offset: usize,
    point_to_graph: &mut PointToGraph,
    num_fn_insts: usize,
) -> (changed: bool)
    requires
        bb_inst_offset + bb.instrs@.len() <= usize::MAX,
        forall|i: int| 0 <= i < bb.instrs@.len() ==> alias_ops_ok(#[trigger] bb.ins()[i]),
    ensures
        final(point_to_graph)@ == pt_scan(old(point_to_graph)@, bb.ins(), bb_inst_offset as nat, num_fn_insts as nat, bb.ins().len()),
        changed == exists|i: int| 0 <= i < bb.instrs@.len() && tracks_pointer(#[trigger] bb.ins()[i]),
{
    broadcast use vstd::std_specs::hash::group_hash_axioms;

    let ghost b = bb.ins();
    let ghost total = num_fn_insts as nat;
    let ghost off = bb_inst_offset as nat;
    let mut changed: bool = false;
    let n = bb.instrs.len();
    let mut l: usize = 0;
    while l < n
        invariant
            b == bb.ins(),
            total == num_fn_insts as nat,
            off == bb_inst_offset as nat,
            n == bb.instrs@.len(),
            l <= n,
            bb_inst_offset + n <= usize::MAX,
            forall|i: int| 0 <= i < n ==> alias_ops_ok(#[trigger] b[i]),
            point_to_graph@ == pt_scan(old(point_to_graph)@, b, off, total, l as nat),
            changed == exists|i: int| 0 <= i < l && tracks_pointer(#[trigger] b[i]),
        decreases n - l,
    {
        let inst_id_global: usize = l + bb_inst_offset;
        let ghost g0 = point_to_graph@;
        let inst = &bb.instrs[l];
        assert(inst@ == b[l as int]);
        assert(alias_ops_ok(b[l as int]));
        match inst {
            Instruction::Opcode(op) => match op {
                OpcodeInstruction::Alloc { dest, .. } => {
                    let i = point_to_graph.entry_for(dest);
                    point_to_graph.add_location(i, inst_id_global);
                    assert(point_to_graph@ =~= pt_step(g0, b[l as int], inst_id_global, total));
                    changed = true;
                },
                OpcodeInstruction::Ptradd { args, dest, .. } | OpcodeInstruction::Id { args, dest, .. } => {
                    let src_var_name = &args[0];
                    assert(names(*args)[0] == src_var_name@);
                    let src_pointed_to: Vec<usize> = match point_to_graph.find(src_var_name) {
                        Some(j) => set_elements(&point_to_graph.entries[j].1),
                        None => Vec::new(),
                    };
                    assert forall|x: usize| #[trigger] src_pointed_to@.contains(x) <==> pts(g0, src_var_name@).contains(x) by {}
                    let i = point_to_graph.entry_for(dest);
                    let ghost mut acc: Set<usize> = Set::empty();
                    assert(point_to_graph@ =~= g0.insert(dest@, pts(g0, dest@).union(acc))) by {
                        assert(pts(g0, dest@).union(acc) =~= pts(g0, dest@));
                    }
                    let mut k: usize = 0;
                    while k < src_pointed_to.len()
                        invariant
                            is_last_entry(point_to_graph.entries@, i as int),
                            point_to_graph.entries@[i as int].0@ == dest@,
                            k <= src_pointed_to@.len(),
                            point_to_graph@ == g0.insert(dest@, pts(g0, dest@).union(acc)),
                            forall|x: usize| #[trigger] acc.contains(x) <==> exists|q: int| 0 <= q < k && src_pointed_to@[q] == x,
                        decreases src_pointed_to@.len() - k,
                    {
                        proof {
                            lemma_gmap_last(point_to_graph.entries@, i as int);
                        }
                        let ghost acc0 = acc;
                        point_to_graph.add_location(i, src_pointed_to[k]);
                        proof {
                            acc = acc.insert(src_pointed_to@[k as int]);
                            assert(pts(g0, dest@).union(acc0).insert(src_pointed_to@[k as int]) =~= pts(g0, dest@).union(acc));
                            assert forall|x: usize| #[trigger] acc.contains(x) <==> exists|q: int| 0 <= q < k + 1 && src_pointed_to@[q] == x by {
                                if x == src_pointed_to@[k as int] {
                                    assert(src_pointed_to@[k as int] == x);
                                }
                            }
                        }
                        assert(point_to_graph@ =~= g0.insert(dest@, pts(g0, dest@).union(acc)));
                        k += 1;
                    }
                    assert(acc =~= pts(g0, src_var_name@)) by {
                        assert forall|x: usize| acc.contains(x) <==> #[trigger] pts(g0, src_var_name@).contains(x) by {
                            if pts(g0, src_var_name@).contains(x) {
                                assert(src_pointed_to@.contains(x));
                                let q = choose|q: int| 0 <= q < src_pointed_to@.len() && src_pointed_to@[q] == x;
                                assert(0 <= q < k && src_pointed_to@[q] == x);
                            }
                            if acc.contains(x) {
                                let q = choose|q: int| 0 <= q < k && src_pointed_to@[q] == x;
                                assert(src_pointed_to@[q] == x);
                                assert(src_pointed_to@.contains(x));
                            }
                        }
                    }
                    assert(point_to_graph@ =~= pt_step(g0, b[l as int], inst_id_global, total));
                    changed = true;
                },
                OpcodeInstruction::Load { dest, .. } => {
                    let i = point_to_graph.entry_for(dest);
                    point_to_graph.add_all_locations(i, num_fn_insts);
                    assert(point_to_graph@ =~= pt_step(g0, b[l as int], inst_id_global, total));
                    changed = true;
                },
                _ => {
                    assert(pt_step(g0, b[l as int], inst_id_global, total) == g0);
                },
            },
            _ => {},
        }
        l += 1;
    }
    changed
}

/// Variables `a` and `b` may point to a common allocation: both are in the
/// graph and their sets meet.
pub open spec fn may_alias(g: Map<Seq<char>, Set<usize>>, a: Seq<char>, b: Seq<char>) -> bool {
    &&& g.dom().contains(a)
    &&& g.dom().contains(b)
    &&& exists|x: usize| #[trigger] g[a].contains(x) && g[b].contains(x)
}

/// Whether the two variables may point to a common allocation.
pub fn var_alias(var1: &String, var2: &String, point_to_graph: &PointToGraph) -> (r: bool)
    ensures
        r == may_alias(point_to_graph@, var1@, var2@),
{
    broadcast use vstd::std_specs::hash::group_hash_axioms;

    match (point_to_graph.find(var1), point_to_graph.find(var2)) {
        (Some(i1), Some(i2)) => {
            let var1_pointed_to = set_elements(&point_to_graph.entries[i1].1);
            let var2_pointed_to = &point_to_graph.entries[i2].1;
            let mut k: usize = 0;
            while k < var1_pointed_to.len()
                invariant
                    k <= var1_pointed_to@.len(),
                    point_to_graph@.dom().contains(var1@),
                    point_to_graph@.dom().contains(var2@),
                    forall|x: usize| #[trigger] var1_pointed_to@.contains(x) <==> point_to_graph@[var1@].contains(x),
                    var2_pointed_to@ == point_to_graph@[var2@],
                    forall|q: int| 0 <= q < k ==> !var2_pointed_to@.contains(#[trigger] var1_pointed_to@[q]),
                decreases var1_pointed_to@.len() - k,
            {
                if var2_pointed_to.contains(&var1_pointed_to[k]) {
                    assert(var1_pointed_to@.contains(var1_pointed_to@[k as int]));
                    assert(point_to_graph@[var1@].contains(var1_pointed_to@[k as int]));
                    return true;
                }
                k += 1;
            }
            assert forall|x: usize| !(#[trigger] point_to_graph@[var1@].contains(x) && point_to_graph@[var2@].contains(x)) by {
                if point_to_graph@[var1@].contains(x) {
                    assert(var1_pointed_to@.contains(x));
                    let q = choose|q: int| 0 <= q < var1_pointed_to@.len() && var1_pointed_to@[q] == x;
                    assert(!var2_pointed_to@.contains(var1_pointed_to@[q]));
                }
            }
            false
        },
        _ => false,
    }
}

/// The dead-store scan over the first `n` instructions of a block, given a
/// points-to graph: the pending stores (location variable to instruction
/// index) that nothing has read yet, and the indices found dead so far. A
/// store is dead when its location variable is stored to again before any
/// `load` through a variable that may alias it; redefining the location
/// variable drops its pending store.
pub open spec fn ptr_dse_scan(b: Seq<InstrView>, g: Map<Seq<char>, Set<usize>>, n: nat) -> (Map<Seq<char>, int>, Set<int>)
    decreases n,
{
    if n == 0 || n > b.len() {
        (Map::empty(), Set::empty())
    } else {
        let (pending, dead) = ptr_dse_scan(b, g, (n - 1) as nat);
        let x = b[n - 1];
        let p1 = match x.result() {
            Some(r) => pending.remove(r),
            None => pending,
        };
        if op_kind_is(x, OpKind::Store) {
            let dst = first_arg(x);
            let dead2 = if p1.dom().contains(dst) {
                dead.insert(p1[dst])
            } else {
                dead
            };
            (p1.insert(dst, n - 1), dead2)
        } else if op_kind_is(x, OpKind::Load) {
            (p1.remove_keys(Set::new(|k: Seq<char>| may_alias(g, k, first_arg(x)))), dead)
        } else {
            (p1, dead)
        }
    }
}

/// The indices of the dead stores of a block.
pub open spec fn ptr_dead_stores(b: Seq<InstrView>, g: Map<Seq<char>, Set<usize>>) -> Set<int> {
    ptr_dse_scan(b, g, b.len()).1
}

proof fn lemma_ptr_dse_scan_facts(b: Seq<InstrView>, g: Map<Seq<char>, Set<usize>>, n: nat)
    requires
        n <= b.len(),
    ensures
        forall|k: Seq<char>| #[trigger] ptr_dse_scan(b, g, n).0.dom().contains(k) ==> 0 <= ptr_dse_scan(b, g, n).0[k] < n
            && op_kind_is(b[ptr_dse_scan(b, g, n).0[k]], OpKind::Store),
        forall|i: int| #[trigger] ptr_dse_scan(b, g, n).1.contains(i) ==> 0 <= i < n && op_kind_is(b[i], OpKind::Store),
    decreases n,
{
    if n > 0 {
        lemma_ptr_dse_scan_facts(b, g, (n - 1) as nat);
        let (pending, dead) = ptr_dse_scan(b, g, (n - 1) as nat);
        let x = b[n - 1];
        let p1 = match x.result() {
            Some(r) => pending.remove(r),
            None => pending,
        };
        assert forall|k: Seq<char>| #[trigger] p1.dom().contains(k) implies 0 <= p1[k] < n - 1 && op_kind_is(
            b[p1[k]],
            OpKind::Store,
        ) by {
            assert(pending.dom().contains(k));
        }
        if op_kind_is(x, OpKind::Store) {
            let dst = first_arg(x);
            let p2 = p1.insert(dst, n - 1);
            assert forall|k: Seq<char>| #[trigger] p2.dom().contains(k) implies 0 <= p2[k] < n && op_kind_is(
                b[p2[k]],
                OpKind::Store,
            ) by {
                if k != dst {
                    assert(p1.dom().contains(k));
                }
            }
            if p1.dom().contains(dst) {
                assert(p1.dom().contains(dst));
            }
        } else if op_kind_is(x, OpKind::Load) {
            let p2 = p1.remove_keys(Set::new(|k: Seq<char>| may_alias(g, k, first_arg(x))));
            assert forall|k: Seq<char>| #[trigger] p2.dom().contains(k) implies 0 <= p2[k] < n && op_kind_is(
                b[p2[k]],
                OpKind::Store,
            ) by {
                assert(p1.dom().contains(k));
            }
        }
    }
}

/// Dead-store elimination removes only `store` instructions of the block.
pub proof fn lemma_ptr_dead_stores_are_stores(b: Seq<InstrView>, g: Map<Seq<char>, Set<usize>>)
    ensures
        forall|i: int| #[trigger] ptr_dead_stores(b, g).contains(i) ==> 0 <= i < b.len() && op_kind_is(b[i], OpKind::Store),
{
    lemma_ptr_dse_scan_facts(b, g, b.len());
}

/// Removes the dead stores of a basic block, judged with the points-to
/// graph: a store whose location variable is stored to again before any
/// `load` through a variable that may alias it. Returns whether a store was
/// removed.
pub fn dead_store_elimination_bb(bb: &mut BasicBlock, point_to_graph: &PointToGraph) -> (changed: bool)
    requires
        forall|i: int| 0 <= i < old(bb).instrs@.len() ==> store_ops_ok(#[trigger] old(bb).ins()[i]),
    ensures
        final(bb).ins() == without_indices(old(bb).ins(), ptr_dead_stores(old(bb).ins(), point_to_graph@)),
        changed == !ptr_dead_stores(old(bb).ins(), point_to_graph@).is_empty(),
        final(bb).label == old(bb).label,
        final(bb).out_labels == old(bb).out_labels,
        final(bb).in_bb_indices == old(bb).in_bb_indices,
        final(bb).out_bb_indices == old(bb).out_bb_indices,
        final(bb).immediate_dominator_index == old(bb).immediate_dominator_index,
{
    let ghost b = bb.ins();
    let ghost gm = point_to_graph@;
    let n = bb.instrs.len();
    let mut pending: Vec<(String, usize)> = Vec::new();
    let mut dead: Vec<usize> = Vec::new();
    let mut i: usize = 0;
    while i < n
        invariant
            b == bb.ins(),
            gm == point_to_graph@,
            n == bb.instrs@.len(),
            i <= n,
            forall|q: int| 0 <= q < n ==> store_ops_ok(#[trigger] b[q]),
            pmap(pending@) == ptr_dse_scan(b, gm, i as nat).0,
            index_set(dead@) == ptr_dse_scan(b, gm, i as nat).1,
        decreases n - i,
    {
        let inst = &bb.instrs[i];
        assert(inst@ == b[i as int]);
        assert(store_ops_ok(b[i as int]));
        let ghost scan0 = ptr_dse_scan(b, gm, i as nat);
        match inst.get_result() {
            Some(result) => {
                pending_remove(&mut pending, &result);
            },
            None => {},
        }
        let ghost p1 = pmap(pending@);
        match inst {
            Instruction::Opcode(OpcodeInstruction::Store { args }) => {
                let store_dst = &args[0];
                assert(names(*args)[0] == store_dst@);
                match pending_get(&pending, store_dst) {
                    Some(idx) => {
                        proof {
                            lemma_index_set_push(dead@, idx);
                        }
                        dead.push(idx);
                    },
                    None => {},
                }
                pending_insert(&mut pending, store_dst.clone(), i);
            },
            Instruction::Opcode(OpcodeInstruction::Load { args, .. }) => {
                let load_src = &args[0];
                assert(names(*args)[0] == load_src@);
                let ghost aliased = Set::new(|k: Seq<char>| may_alias(gm, k, load_src@));
                let mut kept: Vec<(String, usize)> = Vec::new();
                let mut j: usize = 0;
                while j < pending.len()
                    invariant
                        gm == point_to_graph@,
                        aliased == Set::new(|k: Seq<char>| may_alias(gm, k, load_src@)),
                        j <= pending@.len(),
                        pmap(kept@) == pmap(pending@.take(j as int)).remove_keys(aliased),
                    decreases pending@.len() - j,
                {
                    let ghost before = kept@;
                    assert(pending@.take(j + 1).drop_last() =~= pending@.take(j as int));
                    assert(pending@.take(j + 1).last() == pending@[j as int]);
                    if !var_alias(&pending[j].0, load_src, point_to_graph) {
                        let k = pending[j].0.clone();
                        let idx = pending[j].1;
                        kept.push((k, idx));
                        assert(kept@.drop_last() =~= before);
                        assert(pmap(kept@) =~= pmap(pending@.take(j + 1)).remove_keys(aliased));
                    } else {
                        assert(aliased.contains(pending@[j as int].0@));
                        assert(pmap(kept@) =~= pmap(pending@.take(j + 1)).remove_keys(aliased));
                    }
                    j += 1;
                }
                assert(pending@.take(pending@.len() as int) =~= pending@);
                pending = kept;
            },
            _ => {},
        }
        i += 1;
    }
    let ghost d = ptr_dse_scan(b, gm, n as nat).1;
    let kept = drop_indices(&bb.instrs, &dead);
    let changed = !dead.is_empty();
    assert(changed == !d.is_empty()) by {
        if dead@.len() > 0 {
            assert(d.contains(dead@[0] as int));
        }
        if !d.is_empty() {
            let x = d.choose();
            assert(d.contains(x));
        }
    }
    bb.instrs = kept;
    changed
}

/// The body of a function after dead-store elimination with the graph `g`:
/// each basic block loses its dead stores.
pub open spec fn ptr_dse(fi: Seq<InstrView>, g: Map<Seq<char>, Set<usize>>) -> Seq<InstrView> {
    block_partition(fi).map_values(|b: Seq<InstrView>| without_indices(b, ptr_dead_stores(b, g))).flatten()
}

/// Whether some basic block of the body has a dead store under `g`.
pub open spec fn has_ptr_dead_store(fi: Seq<InstrView>, g: Map<Seq<char>, Set<usize>>) -> bool {
    exists|k: int| 0 <= k < block_partition(fi).len() && !ptr_dead_stores(#[trigger] block_partition(fi)[k], g).is_empty()
}

/// Dead-store elimination on every basic block of a function; the body is
/// rebuilt from the blocks only when a store was removed.
pub fn dead_store_elimination(function: &mut Function, point_to_graph: &PointToGraph) -> (changed: bool)
    requires
        forall|i: int| 0 <= i < old(function).instrs@.len() ==> store_ops_ok(#[trigger] views(old(function).instrs@)[i]),
    ensures
        changed == has_ptr_dead_store(views(old(function).instrs@), point_to_graph@),
        views(final(function).instrs@) == ptr_dse(views(old(function).instrs@), point_to_graph@),
        !changed ==> final(function).instrs == old(function).instrs,
        final(function).name == old(function).name,
        final(function).args == old(function).args,
        final(function).return_type == old(function).return_type,
{
    broadcast use Seq::lemma_flatten_push;

    let ghost gm = point_to_graph@;
    let ghost fi = views(function.instrs@);
    let mut changed: bool = false;
    let mut bbs = function.get_basic_blocks();
    let ghost bs = block_views(bbs@);
    let ghost cleaned = bs.map_values(|b: Seq<InstrView>| without_indices(b, ptr_dead_stores(b, gm)));
    let nb = bbs.len();
    let mut k: usize = 0;
    while k < nb
        invariant
            gm == point_to_graph@,
            fi == views(old(function).instrs@),
            bs == block_partition(fi),
            bs.flatten() == fi,
            forall|i: int| 0 <= i < fi.len() ==> store_ops_ok(#[trigger] fi[i]),
            nb == bbs@.len(),
            bs.len() == nb,
            cleaned == bs.map_values(|b: Seq<InstrView>| without_indices(b, ptr_dead_stores(b, gm))),
            k <= nb,
            forall|m: int| 0 <= m < k ==> (#[trigger] bbs@[m]).ins() == cleaned[m],
            forall|m: int| k <= m < nb ==> (#[trigger] bbs@[m]).ins() == bs[m],
            changed == exists|m: int| 0 <= m < k && !ptr_dead_stores(#[trigger] bs[m], gm).is_empty(),
            function.name == old(function).name,
            function.args == old(function).args,
            function.return_type == old(function).return_type,
            function.instrs == old(function).instrs,
        decreases nb - k,
    {
        assert forall|i: int| 0 <= i < bbs@[k as int].instrs@.len() implies store_ops_ok(#[trigger] bbs@[k as int].ins()[i]) by {
            lemma_flatten_index(bs, k as int, i);
            assert(bs[k as int] == bbs@[k as int].ins());
            assert(fi[block_offset(bs, k as int) + i] == bs[k as int][i]);
        }
        let c = dead_store_elimination_bb(&mut bbs[k], point_to_graph);
        changed = changed || c;
        k += 1;
    }
    if changed {
        function.instrs.clear();
        let mut k: usize = 0;
        while k < nb
            invariant
                nb == bbs@.len(),
                cleaned.len() == nb,
                k <= nb,
                forall|m: int| k <= m < nb ==> (#[trigger] bbs@[m]).ins() == cleaned[m],
                views(function.instrs@) == cleaned.take(k as int).flatten(),
                function.name == old(function).name,
                function.args == old(function).args,
                function.return_type == old(function).return_type,
            decreases nb - k,
        {
            let ghost before = function.instrs@;
            let ghost added = bbs@[k as int].instrs@;
            assert(views(added) == cleaned[k as int]);
            function.instrs.append(&mut bbs[k].instrs);
            assert(cleaned.take(k + 1) =~= cleaned.take(k as int).push(cleaned[k as int]));
            proof {
                cleaned.take(k as int).lemma_flatten_push(cleaned[k as int]);
            }
            assert(function.instrs@ == before + added);
            assert(views(function.instrs@) =~= views(before) + views(added));
            k += 1;
        }
        assert(cleaned.take(nb as int) =~= cleaned);
    } else {
        assert(cleaned =~= bs) by {
            assert forall|m: int| 0 <= m < nb implies cleaned[m] == bs[m] by {
                assert(ptr_dead_stores(bs[m], gm).is_empty());
                lemma_without_nothing(bs[m], ptr_dead_stores(bs[m], gm));
            }
        }
    }
    changed
}

/// The names of a function's parameters.
pub open spec fn fn_arg_names(args: Option<Vec<Argument>>) -> Seq<Seq<char>> {
    match args {
        Some(v) => v@.map_values(|a: Argument| a.name@),
        None => seq![],
    }
}

/// The graph before any block is read: nothing is known of where the
/// parameters point, so each may point to every position of the function.
pub open spec fn arg_graph(arg_names: Seq<Seq<char>>, total: nat) -> Map<Seq<char>, Set<usize>> {
    Map::new(|k: Seq<char>| arg_names.contains(k), |k: Seq<char>| all_locations(total))
}

/// The graph after reading the first `k` blocks, in order, starting from `g`.
pub open spec fn blocks_graph(g: Map<Seq<char>, Set<usize>>, bs: Seq<Seq<InstrView>>, total: nat, k: nat) -> Map<
    Seq<char>,
    Set<usize>,
>
    decreases k,
{
    if k == 0 || k > bs.len() {
        g
    } else {
        let prev = blocks_graph(g, bs, total, (k - 1) as nat);
        pt_scan(prev, bs[k - 1], block_offset(bs, k - 1), total, bs[k - 1].len())
    }
}

/// The points-to graph of a function body with the given parameters.
pub open spec fn function_points_to(fi: Seq<InstrView>, arg_names: Seq<Seq<char>>) -> Map<Seq<char>, Set<usize>> {
    let bs = block_partition(fi);
    blocks_graph(arg_graph(arg_names, fi.len()), bs, fi.len(), bs.len())
}

/// Builds the points-to graph of a function, then removes its dead stores.
pub fn pointer_analysis_pass_fn(function: &mut Function) -> (changed: bool)
    requires
        forall|i: int|
            0 <= i < old(function).instrs@.len() ==> alias_ops_ok(#[trigger] views(old(function).instrs@)[i])
                && store_ops_ok(views(old(function).instrs@)[i]),
    ensures
        ({
            let fi = views(old(function).instrs@);
            let g = function_points_to(fi, fn_arg_names(old(function).args));
            &&& changed == has_ptr_dead_store(fi, g)
            &&& views(final(function).instrs@) == ptr_dse(fi, g)
        }),
        !changed ==> final(function).instrs == old(function).instrs,
        final(function).name == old(function).name,
        final(function).args == old(function).args,
        final(function).return_type == old(function).return_type,
{
    let ghost fi = views(function.instrs@);
    let bbs = function.get_basic_blocks();
    let ghost bs = block_views(bbs@);
    let nb = bbs.len();
    let body_len = function.instrs.len();

    // the position of each block's first instruction in the function
    let mut bb_inst_offsets: Vec<usize> = Vec::new();
    let mut offset: usize = 0;
    let mut k: usize = 0;
    while k < nb
        invariant
            nb == bbs@.len(),
            bs == block_views(bbs@),
            bs.flatten() == fi,
            fi.len() == body_len,
            k <= nb,
            bb_inst_offsets@.len() == k,
            forall|m: int| 0 <= m < k ==> #[trigger] bb_inst_offsets@[m] == block_offset(bs, m),
            offset == block_offset(bs, k as int),
        decreases nb - k,
    {
        proof {
            lemma_flatten_index(bs, k as int, 0);
        }
        bb_inst_offsets.push(offset);
        assert(bbs@[k as int].instrs@.len() == bs[k as int].len());
        assert(offset + bbs@[k as int].instrs@.len() <= body_len);
        offset = offset + bbs[k].instrs.len();
        k += 1;
    }
    assert(bs.take(nb as int) =~= bs);
    let num_total_insts = offset;
    assert(num_total_insts == fi.len());
    let ghost total = fi.len();

    // nothing is known of where the parameters point
    let mut point_to_graph = PointToGraph::new();
    let ghost arg_names = fn_arg_names(function.args);
    if let Some(fn_args) = &function.args {
        let mut j: usize = 0;
        while j < fn_args.len()
            invariant
                arg_names == fn_args@.map_values(|a: Argument| a.name@),
                total == num_total_insts as nat,
                j <= fn_args@.len(),
                point_to_graph@ == arg_graph(arg_names.take(j as int), total),
            decreases fn_args@.len() - j,
        {
            let ghost g0 = point_to_graph@;
            let i = point_to_graph.entry_for(&fn_args[j].name);
            point_to_graph.add_all_locations(i, num_total_insts);
            proof {
                let name = fn_args@[j as int].name@;
                assert(arg_names[j as int] == name);
                assert(pts(g0, name).union(all_locations(total)) =~= all_locations(total));
                assert forall|x: Seq<char>| #[trigger] arg_names.take(j + 1).contains(x) <==> arg_names.take(j as int).contains(x) || x == name by {
                    if arg_names.take(j + 1).contains(x) {
                        let q = choose|q: int| 0 <= q < j + 1 && #[trigger] arg_names.take(j + 1)[q] == x;
                        if q < j {
                            assert(arg_names.take(j as int)[q] == x);
                        }
                    }
                    if arg_names.take(j as int).contains(x) {
                        let q = choose|q: int| 0 <= q < j && #[trigger] arg_names.take(j as int)[q] == x;
                        assert(arg_names.take(j + 1)[q] == x);
                    }
                    if x == name {
                        assert(arg_names.take(j + 1)[j as int] == x);
                    }
                }
                assert(point_to_graph@ =~= arg_graph(arg_names.take(j + 1), total));
            }
            j += 1;
        }
        assert(arg_names.take(fn_args@.len() as int) =~= arg_names);
    } else {
        assert(point_to_graph@ =~= arg_graph(arg_names, total));
    }

    // Every block enters the work list once, in order, and a block already
    // admitted is never queued again: so the blocks are read once each, in
    // order.
    let ghost g_args = arg_graph(arg_names, total);
    let mut k: usize = 0;
    while k < nb
        invariant
            nb == bbs@.len(),
            bs == block_views(bbs@),
            bs.flatten() == fi,
            total == fi.len(),
            total == num_total_insts as nat,
            bb_inst_offsets@.len() == nb,
            forall|m: int| 0 <= m < nb ==> #[trigger] bb_inst_offsets@[m] == block_offset(bs, m),
            forall|i: int| 0 <= i < fi.len() ==> alias_ops_ok(#[trigger] fi[i]),
            k <= nb,
            point_to_graph@ == blocks_graph(g_args, bs, total, k as nat),
        decreases nb - k,
    {
        proof {
            lemma_flatten_index(bs, k as int, 0);
        }
        assert forall|i: int| 0 <= i < bbs@[k as int].instrs@.len() implies alias_ops_ok(#[trigger] bbs@[k as int].ins()[i]) by {
            lemma_flatten_index(bs, k as int, i);
            assert(bs[k as int] == bbs@[k as int].ins());
        }
        let inst_offset = bb_inst_offsets[k];
        build_point_to_graph(&bbs[k], inst_offset, &mut point_to_graph, num_total_insts);
        k += 1;
    }
    assert(bs == block_partition(fi));
    dead_store_elimination(function, &point_to_graph)
}

/// Alias analysis and dead-store elimination on every function; returns
/// whether any function changed.
pub fn pointer_analysis_pass(program: &mut Program) -> (changed: bool)
    requires
        forall|k: int, i: int|
            0 <= k < old(program).functions@.len() && 0 <= i < old(program).functions@[k].instrs@.len() ==> {
                let x = #[trigger] views(old(program).functions@[k].instrs@)[i];
                alias_ops_ok(x) && store_ops_ok(x)
            },
    ensures
        final(program).functions@.len() == old(program).functions@.len(),
        forall|k: int|
            0 <= k < old(program).functions@.len() ==> {
                let f0 = #[trigger] old(program).functions@[k];
                let f1 = final(program).functions@[k];
                let fi = views(f0.instrs@);
                let g = function_points_to(fi, fn_arg_names(f0.args));
                &&& views(f1.instrs@) == ptr_dse(fi, g)
                &&& !has_ptr_dead_store(fi, g) ==> f1.instrs == f0.instrs
                &&& f1.name == f0.name
                &&& f1.args == f0.args
                &&& f1.return_type == f0.return_type
            },
        changed == exists|k: int|
            0 <= k < old(program).functions@.len() && {
                let f0 = #[trigger] old(program).functions@[k];
                has_ptr_dead_store(views(f0.instrs@), function_points_to(views(f0.instrs@), fn_arg_names(f0.args)))
            },
{
    let mut changed: bool = false;
    let n = program.functions.len();
    let mut k: usize = 0;
    while k < n
        invariant
            n == old(program).functions@.len(),
            program.functions@.len() == n,
            k <= n,
            forall|m: int, i: int|
                0 <= m < n && 0 <= i < old(program).functions@[m].instrs@.len() ==> {
                    let x = #[trigger] views(old(program).functions@[m].instrs@)[i];
                    alias_ops_ok(x) && store_ops_ok(x)
                },
            forall|m: int|
                0 <= m < k ==> {
                    let f0 = #[trigger] old(program).functions@[m];
                    let f1 = program.functions@[m];
                    let fi = views(f0.instrs@);
                    let g = function_points_to(fi, fn_arg_names(f0.args));
                    &&& views(f1.instrs@) == ptr_dse(fi, g)
                    &&& !has_ptr_dead_store(fi, g) ==> f1.instrs == f0.instrs
                    &&& f1.name == f0.name
                    &&& f1.args == f0.args
                    &&& f1.return_type == f0.return_type
                },
            forall|m: int| k <= m < n ==> #[trigger] program.functions@[m] == old(program).functions@[m],
            changed == exists|m: int|
                0 <= m < k && {
                    let f0 = #[trigger] old(program).functions@[m];
                    has_ptr_dead_store(views(f0.instrs@), function_points_to(views(f0.instrs@), fn_arg_names(f0.args)))
                },
        decreases n - k,
    {
        assert(program.functions@[k as int] == old(program).functions@[k as int]);
        let c = pointer_analysis_pass_fn(&mut program.functions[k]);
        changed = changed || c;
        k += 1;
    }
    changed
}

/// Aliasing is symmetric: `a` may alias `b` exactly when `b` may alias `a`.
pub proof fn lemma_may_alias_symmetric(g: Map<Seq<char>, Set<usize>>, a: Seq<char>, b: Seq<char>)
    ensures
        may_alias(g, a, b) == may_alias(g, b, a),
{
    if may_alias(g, a, b) {
        let x = choose|x: usize| #[trigger] g[a].contains(x) && g[b].contains(x);
        assert(g[b].contains(x) && g[a].contains(x));
    }
    if may_alias(g, b, a) {
        let x = choose|x: usize| #[trigger] g[b].contains(x) && g[a].contains(x);
        assert(g[a].contains(x) && g[b].contains(x));
    }
}

/// Reading instructions only adds to what a variable may point to.
proof fn lemma_pt_scan_grows(
    g: Map<Seq<char>, Set<usize>>,
    b: Seq<InstrView>,
    offset: nat,
    total: nat,
    n: nat,
    a: Seq<char>,
    s: Set<usize>,
)
    requires
        g.dom().contains(a),
        s.subset_of(g[a]),
    ensures
        pt_scan(g, b, offset, total, n).dom().contains(a),
        s.subset_of(pt_scan(g, b, offset, total, n)[a]),
    decreases n,
{
    if n > 0 && n <= b.len() {
        lemma_pt_scan_grows(g, b, offset, total, (n - 1) as nat, a, s);
    }
}

proof fn lemma_blocks_graph_grows(
    g: Map<Seq<char>, Set<usize>>,
    bs: Seq<Seq<InstrView>>,
    total: nat,
    k: nat,
    a: Seq<char>,
    s: Set<usize>,
)
    requires
        g.dom().contains(a),
        s.subset_of(g[a]),
    ensures
        blocks_graph(g, bs, total, k).dom().contains(a),
        s.subset_of(blocks_graph(g, bs, total, k)[a]),
    decreases k,
{
    if k > 0 && k <= bs.len() {
        lemma_blocks_graph_grows(g, bs, total, (k - 1) as nat, a, s);
        let prev = blocks_graph(g, bs, total, (k - 1) as nat);
        lemma_pt_scan_grows(prev, bs[k - 1], block_offset(bs, k - 1), total, bs[k - 1].len(), a, s);
    }
}

/// A parameter of a function may point anywhere: in the function's
/// points-to graph it may point to every position of the function.
pub proof fn lemma_params_point_everywhere(fi: Seq<InstrView>, arg_names: Seq<Seq<char>>, a: Seq<char>)
    requires
        arg_names.contains(a),
    ensures
        function_points_to(fi, arg_names).dom().contains(a),
        forall|x: usize| (x as int) < fi.len() ==> #[trigger] function_points_to(fi, arg_names)[a].contains(x),
{
    let bs = block_partition(fi);
    let g0 = arg_graph(arg_names, fi.len());
    assert(g0.dom().contains(a));
    lemma_blocks_graph_grows(g0, bs, fi.len(), bs.len(), a, all_locations(fi.len()));
}

proof fn lemma_store_pending_till_load(b: Seq<InstrView>, g: Map<Seq<char>, Set<usize>>, i: int, j: int, n: nat)
    requires
        0 <= i < j < b.len(),
        i < n <= b.len(),
        op_kind_is(b[i], OpKind::Store),
        op_kind_is(b[j], OpKind::Load),
        first_arg(b[j]) == first_arg(b[i]),
        may_alias(g, first_arg(b[i]), first_arg(b[i])),
        forall|m: int| i < m < j ==> !(op_kind_is(#[trigger] b[m], OpKind::Store) && first_arg(b[m]) == first_arg(b[i])),
    ensures
        !ptr_dse_scan(b, g, n).1.contains(i),
        n <= j ==> forall|k: Seq<char>|
            #[trigger] ptr_dse_scan(b, g, n).0.dom().contains(k) && ptr_dse_scan(b, g, n).0[k] == i ==> k == first_arg(b[i]),
        n > j ==> forall|k: Seq<char>| #[trigger] ptr_dse_scan(b, g, n).0.dom().contains(k) ==> ptr_dse_scan(b, g, n).0[k] != i,
    decreases n,
{
    let v = first_arg(b[i]);
    let (pending, dead) = ptr_dse_scan(b, g, (n - 1) as nat);
    let x = b[n - 1];
    let p1 = match x.result() {
        Some(r) => pending.remove(r),
        None => pending,
    };
    if n == i + 1 {
        lemma_ptr_dse_scan_facts(b, g, i as nat);
        if p1.dom().contains(v) {
            assert(pending.dom().contains(v));
        }
        assert(!dead.contains(i));
    } else {
        lemma_store_pending_till_load(b, g, i, j, (n - 1) as nat);
        assert forall|k: Seq<char>| #[trigger] p1.dom().contains(k) implies pending.dom().contains(k) && p1[k] == pending[k] by {}
        if n - 1 < j {
            if op_kind_is(x, OpKind::Store) {
                let dst = first_arg(x);
                assert(dst != v);
                if p1.dom().contains(dst) {
                    assert(p1[dst] != i);
                }
            }
        } else if n - 1 == j {
            let gone = Set::new(|k: Seq<char>| may_alias(g, k, first_arg(x)));
            assert(gone.contains(v));
        } else {
            if op_kind_is(x, OpKind::Store) {
                let dst = first_arg(x);
                if p1.dom().contains(dst) {
                    assert(p1[dst] != i);
                }
            }
        }
    }
}

/// A store read by a later `load` through the same variable, with no store
/// through that variable in between, is never removed, when the variable
/// may point somewhere.
pub proof fn lemma_store_then_load_kept(b: Seq<InstrView>, g: Map<Seq<char>, Set<usize>>, i: int, j: int)
    requires
        0 <= i < j < b.len(),
        op_kind_is(b[i], OpKind::Store),
        op_kind_is(b[j], OpKind::Load),
        first_arg(b[j]) == first_arg(b[i]),
        may_alias(g, first_arg(b[i]), first_arg(b[i])),
        forall|m: int| i < m < j ==> !(op_kind_is(#[trigger] b[m], OpKind::Store) && first_arg(b[m]) == first_arg(b[i])),
    ensures
        !ptr_dead_stores(b, g).contains(i),
{
    lemma_store_pending_till_load(b, g, i, j, b.len());
}

/// Dead-store elimination never removes a store through a parameter that a
/// later `load` through that parameter reads, with no store through it in
/// between: a parameter may point anywhere, so it aliases itself.
pub proof fn lemma_param_store_then_load_kept(fi: Seq<InstrView>, arg_names: Seq<Seq<char>>, k: int, i: int, j: int)
    requires
        fi.len() > 0,
        0 <= k < block_partition(fi).len(),
        0 <= i < j < block_partition(fi)[k].len(),
        op_kind_is(block_partition(fi)[k][i], OpKind::Store),
        op_kind_is(block_partition(fi)[k][j], OpKind::Load),
        first_arg(block_partition(fi)[k][j]) == first_arg(block_partition(fi)[k][i]),
        arg_names.contains(first_arg(block_partition(fi)[k][i])),
        forall|m: int|
            i < m < j ==> !(op_kind_is(#[trigger] block_partition(fi)[k][m], OpKind::Store) && first_arg(block_partition(fi)[k][m])
                == first_arg(block_partition(fi)[k][i])),
    ensures
        !ptr_dead_stores(block_partition(fi)[k], function_points_to(fi, arg_names)).contains(i),
{
    let b = block_partition(fi)[k];
    let g = function_points_to(fi, arg_names);
    let v = first_arg(b[i]);
    lemma_params_point_everywhere(fi, arg_names, v);
    assert(g[v].contains(0usize));
    assert(may_alias(g, v, v));
    lemma_store_then_load_kept(b, g, i, j);
}

} // verus!
