//! Strong liveness analysis over the basic blocks of a function, and the
//! global dead-code elimination it drives.
use crate::ast::{
    block_offset, block_partition, block_views, cfg_edge, lemma_flatten_index, names, views, BasicBlock, Function,
    InstrView, Instruction, Program,
};
use crate::passes::dce::{
    collect_uses, contains_name, drop_indices, index_set, is_used, lemma_index_set_push, lemma_without_nothing, without_indices,
};
use std::collections::{HashSet, VecDeque};
use vstd::prelude::*;

verus! {

/// The names held by a list, as a set.
pub open spec fn name_set(v: Vec<String>) -> Set<Seq<char>> {
    names(v).to_set()
}

/// The liveness facts of one basic block.
pub struct LivenessState {
    /// The variables live at the entry of the block.
    pub live_in: Vec<String>,
    /// The variables live at the exit of the block.
    pub live_out: Vec<String>,
    /// The names the block defines.
    pub defs: Vec<String>,
    /// The names the block's effectful instructions read.
    pub uses: Vec<String>,
}

impl LivenessState {
    pub fn new() -> (s: LivenessState)
        ensures
            s.live_in@.len() == 0,
            s.live_out@.len() == 0,
            s.defs@.len() == 0,
            s.uses@.len() == 0,
    {
        LivenessState { live_in: Vec::new(), live_out: Vec::new(), defs: Vec::new(), uses: Vec::new() }
    }
}

proof fn lemma_name_set_push(v: Vec<String>, w: Vec<String>, x: Seq<char>)
    requires
        names(w) == names(v).push(x),
    ensures
        name_set(w) == name_set(v).insert(x),
{
    names(v).lemma_push_to_set_commute(x);
}

/// Adds `x` to the set held by `v`.
fn add_name(v: &mut Vec<String>, x: &String)
    ensures
        name_set(*final(v)) == name_set(*old(v)).insert(x@),
        names(*old(v)).no_duplicates() ==> names(*final(v)).no_duplicates(),
{
    if contains_name(v, x) {
        assert(name_set(*v) =~= name_set(*v).insert(x@));
    } else {
        let ghost before = *v;
        v.push(x.clone());
        assert(names(*v) =~= names(before).push(x@));
        proof {
            lemma_name_set_push(before, *v, x@);
            if names(before).no_duplicates() {
                lemma_push_no_dup(names(before), x@);
            }
        }
    }
}

/// A list without repeats stays so when a new element is added at its end.
proof fn lemma_push_no_dup(s: Seq<Seq<char>>, x: Seq<char>)
    requires
        s.no_duplicates(),
        !s.contains(x),
    ensures
        s.push(x).no_duplicates(),
{
    assert forall|i: int, j: int| 0 <= i < s.push(x).len() && 0 <= j < s.push(x).len() && i != j implies s.push(x)[i] != s.push(x)[j] by {
        if i == s.len() {
            assert(s.contains(s[j]));
        } else if j == s.len() {
            assert(s.contains(s[i]));
        }
    }
}

/// Two lists without repeats, the first naming a part of what the second
/// names: they name the same set exactly when they are equally long.
proof fn lemma_grown_same_len(a: Seq<Seq<char>>, b: Seq<Seq<char>>)
    requires
        a.no_duplicates(),
        b.no_duplicates(),
        a.to_set().subset_of(b.to_set()),
    ensures
        (a.to_set() == b.to_set()) == (a.len() == b.len()),
{
    a.unique_seq_to_set();
    b.unique_seq_to_set();
    vstd::seq_lib::seq_to_set_is_finite(a);
    vstd::seq_lib::seq_to_set_is_finite(b);
    if a.len() == b.len() {
        vstd::set_lib::lemma_subset_equality(a.to_set(), b.to_set());
    }
}

/// Adds every name of `xs` to the set held by `v`.
fn add_names(v: &mut Vec<String>, xs: &Vec<String>)
    ensures
        name_set(*final(v)) == name_set(*old(v)).union(name_set(*xs)),
        names(*old(v)).no_duplicates() ==> names(*final(v)).no_duplicates(),
{
    let ghost v0 = name_set(*v);
    let ghost nd = names(*v).no_duplicates();
    let mut i: usize = 0;
    while i < xs.len()
        invariant
            i <= xs@.len(),
            name_set(*v) == v0.union(names(*xs).take(i as int).to_set()),
            nd ==> names(*v).no_duplicates(),
        decreases xs@.len() - i,
    {
        add_name(v, &xs[i]);
        proof {
            assert(names(*xs).take(i + 1) =~= names(*xs).take(i as int).push(xs@[i as int]@));
            names(*xs).take(i as int).lemma_push_to_set_commute(xs@[i as int]@);
        }
        assert(name_set(*v) =~= v0.union(names(*xs).take(i + 1).to_set()));
        i += 1;
    }
    assert(names(*xs).take(xs@.len() as int) =~= names(*xs));
}

/// Removes `x` from the set held by `v`.
fn remove_name(v: &mut Vec<String>, x: &String)
    ensures
        name_set(*final(v)) == name_set(*old(v)).remove(x@),
        names(*old(v)).no_duplicates() ==> names(*final(v)).no_duplicates(),
{
    let ghost s0 = names(*v);
    let mut kept: Vec<String> = Vec::new();
    let mut i: usize = 0;
    assert(names(kept).no_duplicates());
    while i < v.len()
        invariant
            s0 == names(*v),
            i <= v@.len(),
            name_set(kept) == s0.take(i as int).to_set().remove(x@),
            s0.no_duplicates() ==> names(kept).no_duplicates(),
        decreases v@.len() - i,
    {
        let ghost before = kept;
        assert(s0.take(i + 1) =~= s0.take(i as int).push(v@[i as int]@));
        proof {
            s0.take(i as int).lemma_push_to_set_commute(v@[i as int]@);
        }
        if v[i] != *x {
            kept.push(v[i].clone());
            assert(names(kept) =~= names(before).push(v@[i as int]@));
            proof {
                lemma_name_set_push(before, kept, v@[i as int]@);
                if s0.no_duplicates() {
                    if names(before).contains(v@[i as int]@) {
                        assert(name_set(before).contains(v@[i as int]@));
                        assert(s0.take(i as int).to_set().contains(s0[i as int]));
                        let q = choose|q: int| 0 <= q < i && s0.take(i as int)[q] == s0[i as int];
                        assert(s0[q] == s0[i as int]);
                    }
                    lemma_push_no_dup(names(before), v@[i as int]@);
                }
            }
            assert(name_set(kept) =~= s0.take(i + 1).to_set().remove(x@));
        } else {
            assert(name_set(kept) =~= s0.take(i + 1).to_set().remove(x@));
        }
        i += 1;
    }
    assert(s0.take(v@.len() as int) =~= s0);
    *v = kept;
}

/// Every name the instructions of a block read, in order.
pub open spec fn bb_uses(b: Seq<InstrView>) -> Seq<Seq<char>>
    decreases b.len(),
{
    if b.len() == 0 {
        seq![]
    } else {
        bb_uses(b.drop_last()) + b.last().uses()
    }
}

/// Every name the effectful instructions of a block read, in order.
pub open spec fn bb_meaningful_uses(b: Seq<InstrView>) -> Seq<Seq<char>>
    decreases b.len(),
{
    if b.len() == 0 {
        seq![]
    } else {
        bb_meaningful_uses(b.drop_last()) + if b.last().is_pure() {
            Seq::<Seq<char>>::empty()
        } else {
            b.last().uses()
        }
    }
}

/// Every name the instructions of a block define, in order.
pub open spec fn bb_defs(b: Seq<InstrView>) -> Seq<Seq<char>>
    decreases b.len(),
{
    if b.len() == 0 {
        seq![]
    } else {
        match b.last().result() {
            Some(r) => bb_defs(b.drop_last()).push(r),
            None => bb_defs(b.drop_last()),
        }
    }
}

/// The names the block reads.
pub fn get_bb_use_list(bb: &BasicBlock) -> (r: Vec<String>)
    ensures
        names(r) == bb_uses(bb.ins()),
{
    let ghost b = bb.ins();
    let mut use_list: Vec<String> = Vec::new();
    let mut i: usize = 0;
    while i < bb.instrs.len()
        invariant
            b == bb.ins(),
            i <= bb.instrs@.len(),
            names(use_list) == bb_uses(b.take(i as int)),
        decreases bb.instrs@.len() - i,
    {
        let mut inst_use_list = bb.instrs[i].get_use_list();
        let ghost before = names(use_list);
        let ghost added = names(inst_use_list);
        use_list.append(&mut inst_use_list);
        assert(b.take(i + 1).drop_last() =~= b.take(i as int));
        assert(names(use_list) =~= before + added);
        i += 1;
    }
    assert(b.take(bb.instrs@.len() as int) =~= b);
    use_list
}

/// The names the block's effectful instructions read.
pub fn get_bb_meaningful_use_list(bb: &BasicBlock) -> (r: Vec<String>)
    ensures
        names(r) == bb_meaningful_uses(bb.ins()),
{
    let ghost b = bb.ins();
    let mut use_list: Vec<String> = Vec::new();
    let mut i: usize = 0;
    while i < bb.instrs.len()
        invariant
            b == bb.ins(),
            i <= bb.instrs@.len(),
            names(use_list) == bb_meaningful_uses(b.take(i as int)),
        decreases bb.instrs@.len() - i,
    {
        assert(b.take(i + 1).drop_last() =~= b.take(i as int));
        if !bb.instrs[i].is_meaningful() {
            assert(names(use_list) =~= bb_meaningful_uses(b.take(i as int)) + Seq::<Seq<char>>::empty());
            i += 1;
            continue;
        }
        let mut inst_use_list = bb.instrs[i].get_use_list();
        let ghost before = names(use_list);
        let ghost added = names(inst_use_list);
        use_list.append(&mut inst_use_list);
        assert(names(use_list) =~= before + added);
        i += 1;
    }
    assert(b.take(bb.instrs@.len() as int) =~= b);
    use_list
}

/// The names the block defines.
pub fn get_bb_def_list(bb: &BasicBlock) -> (r: Vec<String>)
    ensures
        names(r) == bb_defs(bb.ins()),
{
    let ghost b = bb.ins();
    let mut def_list: Vec<String> = Vec::new();
    let mut i: usize = 0;
    while i < bb.instrs.len()
        invariant
            b == bb.ins(),
            i <= bb.instrs@.len(),
            names(def_list) == bb_defs(b.take(i as int)),
        decreases bb.instrs@.len() - i,
    {
        assert(b.take(i + 1).drop_last() =~= b.take(i as int));
        if let Some(result) = bb.instrs[i].get_result() {
            let ghost before = names(def_list);
            def_list.push(result);
            assert(names(def_list) =~= before.push(b[i as int].result().unwrap()));
        }
        i += 1;
    }
    assert(b.take(bb.instrs@.len() as int) =~= b);
    def_list
}

/// The variables live just before `x`, given those live just after it:
/// when `x` defines a live variable, that variable is replaced by what `x`
/// reads; an effectful `x` also makes what it reads live.
pub open spec fn live_before(x: InstrView, live: Set<Seq<char>>) -> Set<Seq<char>> {
    let l1 = match x.result() {
        Some(d) => if live.contains(d) {
            live.remove(d).union(x.uses().to_set())
        } else {
            live
        },
        None => live,
    };
    if x.is_pure() {
        l1
    } else {
        l1.union(x.uses().to_set())
    }
}

/// The variables live at the start of `b`, given those live at its end.
pub open spec fn live_through(b: Seq<InstrView>, live: Set<Seq<char>>) -> Set<Seq<char>>
    decreases b.len(),
{
    if b.len() == 0 {
        live
    } else {
        live_before(b[0], live_through(b.drop_first(), live))
    }
}

/// The variables live just after instruction `i` of `b`.
pub open spec fn live_after(b: Seq<InstrView>, out: Set<Seq<char>>, i: int) -> Set<Seq<char>> {
    live_through(b.subrange(i + 1, b.len() as int), out)
}

/// Instruction `i` of `b` stays: it defines a variable that is live after
/// it, or it has an effect.
pub open spec fn is_live_kept(b: Seq<InstrView>, out: Set<Seq<char>>, i: int) -> bool {
    ||| (b[i].result() matches Some(d) && live_after(b, out, i).contains(d))
    ||| !b[i].is_pure()
}

/// The indices of the dead instructions of `b`, given the variables live at
/// its end.
pub open spec fn dead_code(b: Seq<InstrView>, out: Set<Seq<char>>) -> Set<int> {
    Set::new(|i: int| 0 <= i < b.len() && !is_live_kept(b, out, i))
}

proof fn lemma_live_through_step(b: Seq<InstrView>, out: Set<Seq<char>>, i: int)
    requires
        0 <= i < b.len(),
    ensures
        live_through(b.subrange(i, b.len() as int), out) == live_before(b[i], live_after(b, out, i)),
{
    let s = b.subrange(i, b.len() as int);
    assert(s.drop_first() =~= b.subrange(i + 1, b.len() as int));
    assert(s[0] == b[i]);
}

/// A variable live at position `k` of a block stays live back to position
/// `m`, when nothing from `m` to `k` defines it.
proof fn lemma_live_back(b: Seq<InstrView>, out: Set<Seq<char>>, d: Seq<char>, m: int, k: int)
    requires
        0 <= m <= k <= b.len(),
        live_through(b.subrange(k, b.len() as int), out).contains(d),
        forall|q: int| m <= q < k ==> #[trigger] b[q].result() != Some(d),
    ensures
        live_through(b.subrange(m, b.len() as int), out).contains(d),
    decreases k - m,
{
    if m < k {
        lemma_live_through_step(b, out, k - 1);
        assert(b[k - 1].result() != Some(d));
        assert(b.subrange(k - 1 + 1, b.len() as int) == b.subrange(k, b.len() as int));
        lemma_live_back(b, out, d, m, k - 1);
    }
}

/// An instruction that stays reads only variables live just before it.
proof fn lemma_kept_reads_live(b: Seq<InstrView>, out: Set<Seq<char>>, j: int, d: Seq<char>)
    requires
        0 <= j < b.len(),
        !dead_code(b, out).contains(j),
        b[j].uses().contains(d),
    ensures
        live_through(b.subrange(j, b.len() as int), out).contains(d),
{
    lemma_live_through_step(b, out, j);
    assert(b[j].uses().to_set().contains(d));
}

/// Global dead-code elimination removes only definitions that nothing
/// reads: a removed instruction is pure; when it defines a variable, no kept
/// instruction after it reads that variable before it is defined again
/// (the kept instruction that defines it again included); and when the
/// block does not define it again, the variable is not live at the block's
/// end.
pub proof fn lemma_dead_code_never_read(b: Seq<InstrView>, out: Set<Seq<char>>, i: int)
    requires
        dead_code(b, out).contains(i),
    ensures
        b[i].is_pure(),
        forall|j: int|
            i < j < b.len() && b[i].result() is Some && !dead_code(b, out).contains(j) && (forall|q: int|
                i < q < j ==> #[trigger] b[q].result() != b[i].result()) ==> !(#[trigger] b[j].uses()).contains(b[i].result().unwrap()),
        b[i].result() is Some && (forall|q: int| i < q < b.len() ==> #[trigger] b[q].result() != b[i].result()) ==> !out.contains(
            b[i].result().unwrap(),
        ),
{
    let d = b[i].result().unwrap();
    assert forall|j: int|
        i < j < b.len() && b[i].result() is Some && !dead_code(b, out).contains(j) && (forall|q: int|
            i < q < j ==> #[trigger] b[q].result() != b[i].result()) implies !(#[trigger] b[j].uses()).contains(d) by {
        if b[j].uses().contains(d) {
            lemma_kept_reads_live(b, out, j, d);
            lemma_live_back(b, out, d, i + 1, j);
            assert(live_after(b, out, i).contains(d));
            assert(is_live_kept(b, out, i));
        }
    }
    if b[i].result() is Some && (forall|q: int| i < q < b.len() ==> #[trigger] b[q].result() != b[i].result()) && out.contains(d) {
        assert(b.subrange(b.len() as int, b.len() as int) =~= Seq::<InstrView>::empty());
        lemma_live_back(b, out, d, i + 1, b.len() as int);
        assert(live_after(b, out, i).contains(d));
        assert(is_live_kept(b, out, i));
    }
}

/// Walks a block backward from the variables live at its end: returns the
/// variables live at its start and the indices of its dead instructions.
fn live_scan(instrs: &Vec<Instruction>, live_out: &Vec<String>) -> (r: (Vec<String>, Vec<usize>))
    ensures
        name_set(r.0) == live_through(views(instrs@), name_set(*live_out)),
        names(r.0).no_duplicates(),
        index_set(r.1@) == dead_code(views(instrs@), name_set(*live_out)),
{
    let ghost b = views(instrs@);
    let ghost out = name_set(*live_out);
    let n = instrs.len();
    let mut live: Vec<String> = Vec::new();
    assert(names(live).no_duplicates());
    add_names(&mut live, live_out);
    assert(name_set(live) =~= out);
    assert(b.subrange(n as int, n as int) =~= Seq::<InstrView>::empty());
    let mut dead: Vec<usize> = Vec::new();
    let mut i: usize = n;
    while i > 0
        invariant
            b == views(instrs@),
            n == instrs@.len(),
            i <= n,
            out == name_set(*live_out),
            name_set(live) == live_through(b.subrange(i as int, n as int), out),
            names(live).no_duplicates(),
            index_set(dead@) == Set::new(|k: int| i <= k < n && !is_live_kept(b, out, k)),
        decreases i,
    {
        i -= 1;
        let ghost after = name_set(live);
        assert(after == live_after(b, out, i as int));
        let inst = &instrs[i];
        assert(inst@ == b[i as int]);
        let mut inst_is_dead = true;
        let uses = inst.get_use_list();
        assert(name_set(uses) == b[i as int].uses().to_set());
        if let Some(dest) = inst.get_result() {
            if contains_name(&live, &dest) {
                inst_is_dead = false;
                remove_name(&mut live, &dest);
                add_names(&mut live, &uses);
            }
        }
        if inst.is_meaningful() {
            inst_is_dead = false;
            add_names(&mut live, &uses);
        }
        proof {
            lemma_live_through_step(b, out, i as int);
        }
        assert(name_set(live) =~= live_before(b[i as int], after));
        assert(inst_is_dead == !is_live_kept(b, out, i as int));
        let ghost dead0 = dead@;
        if inst_is_dead {
            proof {
                lemma_index_set_push(dead@, i);
            }
            dead.push(i);
        }
        assert(index_set(dead@) =~= Set::new(|k: int| i <= k < n && !is_live_kept(b, out, k)));
    }
    assert(b.subrange(0, n as int) =~= b);
    assert(index_set(dead@) =~= dead_code(b, out));
    (live, dead)
}

/// More live variables after a block give more live variables before it.
pub proof fn lemma_live_through_monotone(b: Seq<InstrView>, l1: Set<Seq<char>>, l2: Set<Seq<char>>)
    requires
        l1.subset_of(l2),
    ensures
        live_through(b, l1).subset_of(live_through(b, l2)),
    decreases b.len(),
{
    if b.len() > 0 {
        lemma_live_through_monotone(b.drop_first(), l1, l2);
        let a1 = live_through(b.drop_first(), l1);
        let a2 = live_through(b.drop_first(), l2);
        assert(live_before(b[0], a1).subset_of(live_before(b[0], a2)));
    }
}

/// A block adds to the live variables only names its instructions read.
proof fn lemma_live_through_bounded(b: Seq<InstrView>, l: Set<Seq<char>>, u: Set<Seq<char>>)
    requires
        l.subset_of(u),
        forall|i: int, j: int| 0 <= i < b.len() && 0 <= j < b[i].uses().len() ==> u.contains(#[trigger] b[i].uses()[j]),
    ensures
        live_through(b, l).subset_of(u),
    decreases b.len(),
{
    if b.len() > 0 {
        assert forall|i: int, j: int| 0 <= i < b.drop_first().len() && 0 <= j < b.drop_first()[i].uses().len() implies u.contains(
            #[trigger] b.drop_first()[i].uses()[j],
        ) by {
            assert(b.drop_first()[i] == b[i + 1]);
        }
        lemma_live_through_bounded(b.drop_first(), l, u);
        assert forall|v: Seq<char>| b[0].uses().to_set().contains(v) implies u.contains(v) by {
            let j = choose|j: int| 0 <= j < b[0].uses().len() && b[0].uses()[j] == v;
            assert(u.contains(b[0].uses()[j]));
        }
    }
}

/// The variables live at the entry of some successor of block `b`.
pub open spec fn succ_union(bs: Seq<Seq<InstrView>>, ins: Seq<Set<Seq<char>>>, b: int) -> Set<Seq<char>> {
    Set::new(|v: Seq<char>| exists|s: int| 0 <= s < bs.len() && cfg_edge(bs, b, s) && #[trigger] ins[s].contains(v))
}

/// `ins` and `outs` solve the liveness equations of the blocks `bs`: a
/// block's exit holds what the entries of its successors hold, and its
/// entry is its exit carried backward through its instructions.
pub open spec fn is_liveness_solution(bs: Seq<Seq<InstrView>>, ins: Seq<Set<Seq<char>>>, outs: Seq<Set<Seq<char>>>) -> bool {
    &&& ins.len() == bs.len()
    &&& outs.len() == bs.len()
    &&& forall|b: int| 0 <= b < bs.len() ==> #[trigger] outs[b] == succ_union(bs, ins, b) && ins[b] == live_through(bs[b], outs[b])
}

/// The variables live at the exit of block `b` in the least solution of the
/// liveness equations: those live there in every solution.
pub open spec fn least_live_out(bs: Seq<Seq<InstrView>>, b: int) -> Set<Seq<char>> {
    Set::new(
        |v: Seq<char>|
            forall|ins: Seq<Set<Seq<char>>>, outs: Seq<Set<Seq<char>>>|
                #![trigger is_liveness_solution(bs, ins, outs)]
                is_liveness_solution(bs, ins, outs) ==> outs[b].contains(v),
    )
}

/// The entry sets of a list of states.
pub open spec fn ins_of(v: Seq<LivenessState>) -> Seq<Set<Seq<char>>> {
    v.map_values(|s: LivenessState| name_set(s.live_in))
}

/// The exit sets of a list of states.
pub open spec fn outs_of(v: Seq<LivenessState>) -> Seq<Set<Seq<char>>> {
    v.map_values(|s: LivenessState| name_set(s.live_out))
}

/// How far the sets of a list of states are from holding all of `u`.
pub open spec fn slack(u: Set<Seq<char>>, v: Seq<LivenessState>) -> int
    decreases v.len(),
{
    if v.len() == 0 {
        0
    } else {
        slack(u, v.drop_last()) + (u.len() - name_set(v.last().live_in).len()) + (u.len() - name_set(
            v.last().live_out,
        ).len())
    }
}

proof fn lemma_slack_update(u: Set<Seq<char>>, v: Seq<LivenessState>, j: int, s: LivenessState)
    requires
        0 <= j < v.len(),
    ensures
        slack(u, v.update(j, s)) + name_set(s.live_in).len() + name_set(s.live_out).len() == slack(u, v) + name_set(
            v[j].live_in,
        ).len() + name_set(v[j].live_out).len(),
    decreases v.len(),
{
    let w = v.update(j, s);
    if j == v.len() - 1 {
        assert(w.drop_last() =~= v.drop_last());
    } else {
        assert(w.drop_last() =~= v.drop_last().update(j, s));
        lemma_slack_update(u, v.drop_last(), j, s);
    }
}

proof fn lemma_slack_nonneg(u: Set<Seq<char>>, v: Seq<LivenessState>)
    requires
        u.finite(),
        live_bounded(u, v),
    ensures
        slack(u, v) >= 0,
    decreases v.len(),
{
    if v.len() > 0 {
        let w = v.drop_last();
        assert forall|b: int| 0 <= b < w.len() implies (#[trigger] ins_of(w)[b]).subset_of(u) && outs_of(w)[b].subset_of(u) by {
            assert(ins_of(w)[b] == ins_of(v)[b]);
            assert(outs_of(w)[b] == outs_of(v)[b]);
        }
        lemma_slack_nonneg(u, w);
        assert(ins_of(v)[v.len() - 1] == name_set(v.last().live_in));
        assert(outs_of(v)[v.len() - 1] == name_set(v.last().live_out));
        vstd::set_lib::lemma_len_subset(name_set(v.last().live_in), u);
        vstd::set_lib::lemma_len_subset(name_set(v.last().live_out), u);
    }
}

proof fn lemma_strict_subset_len(a: Set<Seq<char>>, b: Set<Seq<char>>)
    requires
        a.subset_of(b),
        b.finite(),
    ensures
        a.len() <= b.len(),
        a != b ==> a.len() < b.len(),
{
    vstd::set_lib::lemma_len_subset(a, b);
    if a.len() == b.len() {
        vstd::set_lib::lemma_subset_equality(a, b);
    }
}

/// The variables in the entry set of some state of the list.
pub open spec fn union_of_ins(states: Seq<&LivenessState>) -> Set<Seq<char>> {
    Set::new(|v: Seq<char>| exists|k: int| 0 <= k < states.len() && #[trigger] name_set(states[k].live_in).contains(v))
}

/// Recomputes the liveness of a block from the entry sets of its
/// successors: its exit set is their union and its entry set follows
/// backward through its instructions, each list naming every variable once.
/// Also reports whether either list has a length other than in the block's
/// previous state.
pub fn bb_update_liveness(
    bb: &BasicBlock,
    state: &LivenessState,
    _predecessors: &Vec<&LivenessState>,
    successors: &Vec<&LivenessState>,
) -> (r: (LivenessState, bool))
    ensures
        name_set(r.0.live_out) == union_of_ins(successors@),
        name_set(r.0.live_in) == live_through(bb.ins(), name_set(r.0.live_out)),
        names(r.0.defs) == bb_defs(bb.ins()),
        names(r.0.uses) == bb_meaningful_uses(bb.ins()),
        names(r.0.live_out).no_duplicates(),
        names(r.0.live_in).no_duplicates(),
        r.1 == (r.0.live_out@.len() != state.live_out@.len() || r.0.live_in@.len() != state.live_in@.len()),
{
    let mut new_state = LivenessState::new();
    assert(names(new_state.live_out).no_duplicates());
    new_state.defs = get_bb_def_list(bb);
    new_state.uses = get_bb_meaningful_use_list(bb);

    // the exit set is the union of the successors' entry sets
    assert(name_set(new_state.live_out) =~= Set::<Seq<char>>::empty());
    let mut k: usize = 0;
    while k < successors.len()
        invariant
            k <= successors@.len(),
            name_set(new_state.live_out) == union_of_ins(successors@.take(k as int)),
            names(new_state.live_out).no_duplicates(),
            names(new_state.defs) == bb_defs(bb.ins()),
            names(new_state.uses) == bb_meaningful_uses(bb.ins()),
        decreases successors@.len() - k,
    {
        add_names(&mut new_state.live_out, &successors[k].live_in);
        assert(name_set(new_state.live_out) =~= union_of_ins(successors@.take(k + 1))) by {
            assert forall|v: Seq<char>| #[trigger] union_of_ins(successors@.take(k + 1)).contains(v) implies name_set(
                new_state.live_out,
            ).contains(v) by {
                let q = choose|q: int| 0 <= q < k + 1 && #[trigger] name_set(successors@.take(k + 1)[q].live_in).contains(v);
                if q < k {
                    assert(successors@.take(k + 1)[q] == successors@.take(k as int)[q]);
                    assert(union_of_ins(successors@.take(k as int)).contains(v));
                }
            }
            assert forall|v: Seq<char>| name_set(new_state.live_out).contains(v) implies #[trigger] union_of_ins(
                successors@.take(k + 1),
            ).contains(v) by {
                if union_of_ins(successors@.take(k as int)).contains(v) {
                    let q = choose|q: int| 0 <= q < k && #[trigger] name_set(successors@.take(k as int)[q].live_in).contains(v);
                    assert(successors@.take(k + 1)[q] == successors@.take(k as int)[q]);
                } else {
                    assert(successors@.take(k + 1)[k as int] == successors@[k as int]);
                }
            }
        }
        k += 1;
    }
    assert(successors@.take(successors@.len() as int) =~= successors@);
    let (live_in, _dead) = live_scan(&bb.instrs, &new_state.live_out);
    new_state.live_in = live_in;
    let changed: bool = new_state.live_out.len() != state.live_out.len() || new_state.live_in.len() != state.live_in.len();
    (new_state, changed)
}

/// Every set of the states lies within `u`.
spec fn live_bounded(u: Set<Seq<char>>, st: Seq<LivenessState>) -> bool {
    forall|b: int| 0 <= b < st.len() ==> (#[trigger] ins_of(st)[b]).subset_of(u) && outs_of(st)[b].subset_of(u)
}

/// The states lie below one more round of the equations.
spec fn live_below_step(bs: Seq<Seq<InstrView>>, st: Seq<LivenessState>) -> bool {
    forall|b: int|
        0 <= b < st.len() ==> (#[trigger] outs_of(st)[b]).subset_of(succ_union(bs, ins_of(st), b)) && ins_of(st)[b].subset_of(
            live_through(bs[b], outs_of(st)[b]),
        )
}

/// The states lie below every solution.
spec fn live_below_all(bs: Seq<Seq<InstrView>>, st: Seq<LivenessState>) -> bool {
    forall|ins2: Seq<Set<Seq<char>>>, outs2: Seq<Set<Seq<char>>>|
        #![trigger is_liveness_solution(bs, ins2, outs2)]
        is_liveness_solution(bs, ins2, outs2) ==> forall|b: int|
            0 <= b < st.len() ==> (#[trigger] ins_of(st)[b]).subset_of(ins2[b]) && outs_of(st)[b].subset_of(outs2[b])
}

/// Every block outside `queued` satisfies its equations.
spec fn live_stable(bs: Seq<Seq<InstrView>>, st: Seq<LivenessState>, queued: Set<usize>) -> bool {
    forall|b: int|
        0 <= b < st.len() && !queued.contains(b as usize) ==> #[trigger] outs_of(st)[b] == succ_union(bs, ins_of(st), b)
            && ins_of(st)[b] == live_through(bs[b], outs_of(st)[b])
}

proof fn lemma_liveness_step(
    bs: Seq<Seq<InstrView>>,
    u: Set<Seq<char>>,
    st: Seq<LivenessState>,
    j: int,
    ns: LivenessState,
    queued0: Set<usize>,
    queued1: Set<usize>,
    changed: bool,
)
    requires
        st.len() == bs.len(),
        bs.len() <= usize::MAX,
        0 <= j < bs.len(),
        u.finite(),
        forall|b: int, i: int, k: int|
            0 <= b < bs.len() && 0 <= i < bs[b].len() && 0 <= k < bs[b][i].uses().len() ==> u.contains(
                #[trigger] bs[b][i].uses()[k],
            ),
        live_bounded(u, st),
        live_below_step(bs, st),
        live_below_all(bs, st),
        live_stable(bs, st, queued0),
        name_set(ns.live_out) == succ_union(bs, ins_of(st), j),
        name_set(ns.live_in) == live_through(bs[j], name_set(ns.live_out)),
        changed == (name_set(ns.live_out) != outs_of(st)[j] || name_set(ns.live_in) != ins_of(st)[j]),
        forall|x: usize| #[trigger] queued0.contains(x) && x != j ==> queued1.contains(x),
        changed ==> forall|p: int| 0 <= p < bs.len() && cfg_edge(bs, p, j) ==> #[trigger] queued1.contains(p as usize),
    ensures
        live_bounded(u, st.update(j, ns)),
        live_below_step(bs, st.update(j, ns)),
        live_below_all(bs, st.update(j, ns)),
        live_stable(bs, st.update(j, ns), queued1),
        slack(u, st.update(j, ns)) <= slack(u, st),
        changed ==> slack(u, st.update(j, ns)) < slack(u, st),
{
    let st2 = st.update(j, ns);
    let ins = ins_of(st);
    let outs = outs_of(st);
    let ins2 = ins_of(st2);
    let outs2 = outs_of(st2);
    assert(ins2 =~= ins.update(j, name_set(ns.live_in)));
    assert(outs2 =~= outs.update(j, name_set(ns.live_out)));
    // the new sets contain the old ones
    assert(outs[j].subset_of(name_set(ns.live_out)));
    lemma_live_through_monotone(bs[j], outs[j], name_set(ns.live_out));
    assert(ins[j].subset_of(name_set(ns.live_in)));
    assert forall|b: int| 0 <= b < bs.len() implies succ_union(bs, ins, b).subset_of(succ_union(bs, ins2, b)) by {
        assert forall|v: Seq<char>| succ_union(bs, ins, b).contains(v) implies succ_union(bs, ins2, b).contains(v) by {
            let s = choose|s: int| 0 <= s < bs.len() && cfg_edge(bs, b, s) && #[trigger] ins[s].contains(v);
            assert(ins2[s].contains(v));
        }
    }
    // bounded
    assert(name_set(ns.live_out).subset_of(u)) by {
        assert forall|v: Seq<char>| name_set(ns.live_out).contains(v) implies u.contains(v) by {
            let s = choose|s: int| 0 <= s < bs.len() && cfg_edge(bs, j, s) && #[trigger] ins[s].contains(v);
        }
    }
    lemma_live_through_bounded(bs[j], name_set(ns.live_out), u);
    assert(live_bounded(u, st2));
    // below one more round
    assert(live_below_step(bs, st2)) by {
        assert forall|b: int| 0 <= b < st2.len() implies (#[trigger] outs2[b]).subset_of(succ_union(bs, ins2, b))
            && ins2[b].subset_of(live_through(bs[b], outs2[b])) by {
            if b != j {
                assert(outs[b].subset_of(succ_union(bs, ins, b)));
            }
        }
    }
    // below every solution
    assert forall|si: Seq<Set<Seq<char>>>, so: Seq<Set<Seq<char>>>| #[trigger] is_liveness_solution(bs, si, so) implies forall|b: int|
        0 <= b < st2.len() ==> (#[trigger] ins2[b]).subset_of(si[b]) && outs2[b].subset_of(so[b]) by {
        assert(forall|b: int| 0 <= b < st.len() ==> (#[trigger] ins[b]).subset_of(si[b]) && outs[b].subset_of(so[b]));
        assert(so[j] == succ_union(bs, si, j));
        assert forall|v: Seq<char>| name_set(ns.live_out).contains(v) implies so[j].contains(v) by {
            let s = choose|s: int| 0 <= s < bs.len() && cfg_edge(bs, j, s) && #[trigger] ins[s].contains(v);
            assert(ins[s].subset_of(si[s]));
            assert(si[s].contains(v));
        }
        lemma_live_through_monotone(bs[j], name_set(ns.live_out), so[j]);
    }
    // stable outside the list
    assert forall|b: int| 0 <= b < st2.len() && !queued1.contains(b as usize) implies #[trigger] outs2[b] == succ_union(
        bs,
        ins2,
        b,
    ) && ins2[b] == live_through(bs[b], outs2[b]) by {
        if changed {
            assert(!cfg_edge(bs, b, j));
        }
        assert(succ_union(bs, ins2, b) =~= succ_union(bs, ins, b)) by {
            assert forall|v: Seq<char>| succ_union(bs, ins2, b).contains(v) implies succ_union(bs, ins, b).contains(v) by {
                let s = choose|s: int| 0 <= s < bs.len() && cfg_edge(bs, b, s) && #[trigger] ins2[s].contains(v);
                if s == j && !changed {
                    assert(ins[s].contains(v));
                }
            }
        }
        if b != j {
            assert((b as usize) as int == b);
            assert(!queued0.contains(b as usize));
        }
    }
    // the slack shrinks when a set grew
    lemma_slack_update(u, st, j, ns);
    lemma_strict_subset_len(outs[j], name_set(ns.live_out));
    lemma_strict_subset_len(ins[j], name_set(ns.live_in));
    vstd::set_lib::lemma_len_subset(name_set(ns.live_out), u);
    vstd::set_lib::lemma_len_subset(name_set(ns.live_in), u);
}

proof fn lemma_liveness_done(bs: Seq<Seq<InstrView>>, st: Seq<LivenessState>)
    requires
        st.len() == bs.len(),
        bs.len() <= usize::MAX,
        live_stable(bs, st, Set::empty()),
        live_below_all(bs, st),
    ensures
        is_liveness_solution(bs, ins_of(st), outs_of(st)),
        forall|b: int| 0 <= b < bs.len() ==> #[trigger] outs_of(st)[b] == least_live_out(bs, b),
{
    let ins = ins_of(st);
    let outs = outs_of(st);
    assert(is_liveness_solution(bs, ins, outs)) by {
        assert forall|b: int| 0 <= b < bs.len() implies #[trigger] outs[b] == succ_union(bs, ins, b) && ins[b] == live_through(
            bs[b],
            outs[b],
        ) by {
            assert(!Set::<usize>::empty().contains(b as usize));
        }
    }
    assert forall|b: int| 0 <= b < bs.len() implies #[trigger] outs[b] == least_live_out(bs, b) by {
        assert forall|v: Seq<char>| outs[b].contains(v) implies least_live_out(bs, b).contains(v) by {
            assert forall|si: Seq<Set<Seq<char>>>, so: Seq<Set<Seq<char>>>| #[trigger] is_liveness_solution(bs, si, so) implies so[b].contains(v) by {
                assert(outs_of(st)[b].subset_of(so[b]));
            }
        }
        assert(outs[b] =~= least_live_out(bs, b));
    }
}

/// The least solution of the liveness equations of the blocks, by a work
/// list: every block starts in the list, the last first; a block taken from
/// the list is recomputed from its successors, and when its sets changed,
/// its predecessors that are not in the list join it.
pub fn compute_liveness(bbs: &Vec<BasicBlock>, all_uses: &Vec<String>) -> (r: Vec<LivenessState>)
    requires
        forall|m: int, p: usize|
            0 <= m < bbs@.len() ==> ((#[trigger] bbs@[m].in_bb_indices@.contains(p)) <==> p < bbs@.len() && cfg_edge(
                block_views(bbs@),
                p as int,
                m,
            )),
        forall|m: int, p: usize|
            0 <= m < bbs@.len() ==> ((#[trigger] bbs@[m].out_bb_indices@.contains(p)) <==> p < bbs@.len() && cfg_edge(
                block_views(bbs@),
                m,
                p as int,
            )),
        forall|b: int, i: int, k: int|
            0 <= b < bbs@.len() && 0 <= i < block_views(bbs@)[b].len() && 0 <= k < block_views(bbs@)[b][i].uses().len()
                ==> name_set(*all_uses).contains(#[trigger] block_views(bbs@)[b][i].uses()[k]),
    ensures
        r@.len() == bbs@.len(),
        forall|b: int|
            0 <= b < bbs@.len() ==> names((#[trigger] r@[b]).defs) == bb_defs(bbs@[b].ins()) && names(r@[b].uses)
                == bb_meaningful_uses(bbs@[b].ins()),
        is_liveness_solution(block_views(bbs@), ins_of(r@), outs_of(r@)),
        forall|b: int| 0 <= b < bbs@.len() ==> #[trigger] outs_of(r@)[b] == least_live_out(block_views(bbs@), b),
{
    broadcast use vstd::std_specs::hash::group_hash_axioms;

    let ghost bs = block_views(bbs@);
    let ghost u = name_set(*all_uses);
    proof {
        vstd::seq_lib::seq_to_set_is_finite(names(*all_uses));
    }
    let n = bbs.len();
    let mut liveness_states: Vec<LivenessState> = Vec::new();
    let mut i: usize = 0;
    while i < n
        invariant
            i <= n,
            liveness_states@.len() == i,
            forall|m: int| 0 <= m < i ==> (#[trigger] liveness_states@[m]).live_in@.len() == 0 && liveness_states@[m].live_out@.len() == 0,
        decreases n - i,
    {
        liveness_states.push(LivenessState::new());
        i += 1;
    }
    // the definitions and effectful uses of each block
    let mut i: usize = 0;
    while i < n
        invariant
            n == bbs@.len(),
            i <= n,
            liveness_states@.len() == n,
            forall|m: int| 0 <= m < n ==> (#[trigger] liveness_states@[m]).live_in@.len() == 0 && liveness_states@[m].live_out@.len() == 0,
            forall|m: int|
                0 <= m < i ==> names((#[trigger] liveness_states@[m]).defs) == bb_defs(bbs@[m].ins()) && names(
                    liveness_states@[m].uses,
                ) == bb_meaningful_uses(bbs@[m].ins()),
        decreases n - i,
    {
        let defs = get_bb_def_list(&bbs[i]);
        let uses = get_bb_meaningful_use_list(&bbs[i]);
        liveness_states[i].defs = defs;
        liveness_states[i].uses = uses;
        i += 1;
    }
    // every block starts in the work list, the last first
    let mut work_list: VecDeque<usize> = VecDeque::new();
    let mut in_work_list: HashSet<usize> = HashSet::new();
    let mut i: usize = n;
    while i > 0
        invariant
            i <= n,
            work_list@ == Seq::new((n - i) as nat, |k: int| (n - 1 - k) as usize),
            in_work_list@ == Set::new(|m: usize| i <= m < n),
        decreases i,
    {
        i -= 1;
        work_list.push_back(i);
        in_work_list.insert(i);
        assert(work_list@ =~= Seq::new((n - i) as nat, |k: int| (n - 1 - k) as usize));
        assert(in_work_list@ =~= Set::new(|m: usize| i <= m < n));
    }
    proof {
        assert forall|x: usize| in_work_list@.contains(x) <==> work_list@.contains(x) by {
            if in_work_list@.contains(x) {
                assert(work_list@[(n - 1 - x) as int] == x);
            }
        }
        assert forall|b: int| 0 <= b < n implies (#[trigger] ins_of(liveness_states@)[b]) =~= Set::<Seq<char>>::empty()
            && outs_of(liveness_states@)[b] =~= Set::<Seq<char>>::empty() by {
            assert(names(liveness_states@[b].live_in) =~= Seq::<Seq<char>>::empty());
            assert(names(liveness_states@[b].live_out) =~= Seq::<Seq<char>>::empty());
        }
    }
    while work_list.len() > 0
        invariant
            n == bbs@.len(),
            bs == block_views(bbs@),
            n <= usize::MAX,
            u == name_set(*all_uses),
            u.finite(),
            forall|m: int, p: usize| 0 <= m < n ==> ((#[trigger] bbs@[m].in_bb_indices@.contains(p)) <==> p < n && cfg_edge(bs, p as int, m)),
            forall|m: int, p: usize| 0 <= m < n ==> ((#[trigger] bbs@[m].out_bb_indices@.contains(p)) <==> p < n && cfg_edge(bs, m, p as int)),
            forall|b: int, i: int, k: int|
                0 <= b < bs.len() && 0 <= i < bs[b].len() && 0 <= k < bs[b][i].uses().len() ==> u.contains(#[trigger] bs[b][i].uses()[k]),
            liveness_states@.len() == n,
            forall|m: int|
                0 <= m < n ==> names((#[trigger] liveness_states@[m]).defs) == bb_defs(bbs@[m].ins()) && names(
                    liveness_states@[m].uses,
                ) == bb_meaningful_uses(bbs@[m].ins()),
            live_bounded(u, liveness_states@),
            live_below_step(bs, liveness_states@),
            live_below_all(bs, liveness_states@),
            live_stable(bs, liveness_states@, in_work_list@),
            forall|m: int|
                0 <= m < n ==> names((#[trigger] liveness_states@[m]).live_in).no_duplicates() && names(
                    liveness_states@[m].live_out,
                ).no_duplicates(),
            work_list@.no_duplicates(),
            forall|x: usize| #[trigger] in_work_list@.contains(x) <==> work_list@.contains(x),
            forall|q: int| 0 <= q < work_list@.len() ==> #[trigger] work_list@[q] < n,
        decreases slack(u, liveness_states@), work_list@.len(),
    {
        let ghost queue0 = work_list@;
        let ghost queued0 = in_work_list@;
        let ghost st = liveness_states@;
        let bb_idx = work_list.pop_front().unwrap();
        in_work_list.remove(&bb_idx);
        assert(queue0[0] == bb_idx);
        assert(!work_list@.contains(bb_idx)) by {
            if work_list@.contains(bb_idx) {
                let q = choose|q: int| 0 <= q < work_list@.len() && work_list@[q] == bb_idx;
                assert(queue0[q + 1] == queue0[0]);
            }
        }
        assert forall|x: usize| #[trigger] in_work_list@.contains(x) <==> work_list@.contains(x) by {
            if x != bb_idx {
                if queue0.contains(x) {
                    let k = choose|k: int| 0 <= k < queue0.len() && queue0[k] == x;
                    assert(k != 0);
                    assert(work_list@[k - 1] == x);
                }
                if work_list@.contains(x) {
                    let k = choose|k: int| 0 <= k < work_list@.len() && work_list@[k] == x;
                    assert(queue0[k + 1] == x);
                }
            }
        }

        // the states of the block's predecessors and successors, in order
        let mut parent_liveness_states: Vec<&LivenessState> = Vec::new();
        let mut children_liveness_states: Vec<&LivenessState> = Vec::new();
        let ghost mut succ_idx: Seq<usize> = seq![];
        let mut p: usize = 0;
        while p < n
            invariant
                n == bbs@.len(),
                bs == block_views(bbs@),
                bb_idx < n,
                liveness_states@ == st,
                st.len() == n,
                p <= n,
                forall|m: int, q: usize| 0 <= m < n ==> ((#[trigger] bbs@[m].out_bb_indices@.contains(q)) <==> q < n && cfg_edge(bs, m, q as int)),
                children_liveness_states@.len() == succ_idx.len(),
                forall|k: int| 0 <= k < succ_idx.len() ==> #[trigger] succ_idx[k] < n && *children_liveness_states@[k] == st[succ_idx[k] as int],
                forall|x: usize| #[trigger] succ_idx.contains(x) <==> x < p && cfg_edge(bs, bb_idx as int, x as int),
            decreases n - p,
        {
            if bbs[bb_idx].in_bb_indices.contains(&p) {
                parent_liveness_states.push(&liveness_states[p]);
            }
            let ghost old_idx = succ_idx;
            let is_child = bbs[bb_idx].out_bb_indices.contains(&p);
            if is_child {
                children_liveness_states.push(&liveness_states[p]);
                proof {
                    succ_idx = succ_idx.push(p);
                }
            }
            assert forall|x: usize| #[trigger] succ_idx.contains(x) <==> x < p + 1 && cfg_edge(bs, bb_idx as int, x as int) by {
                if succ_idx.contains(x) {
                    let k = choose|k: int| 0 <= k < succ_idx.len() && succ_idx[k] == x;
                    if k < old_idx.len() {
                        assert(old_idx[k] == x);
                        assert(old_idx.contains(x));
                    }
                }
                if x < p + 1 && cfg_edge(bs, bb_idx as int, x as int) {
                    if x < p {
                        assert(old_idx.contains(x));
                        let k = choose|k: int| 0 <= k < old_idx.len() && old_idx[k] == x;
                        assert(succ_idx[k] == x);
                    } else {
                        assert(is_child);
                        assert(succ_idx[succ_idx.len() - 1] == x);
                    }
                }
            }
            p += 1;
        }
        assert(union_of_ins(children_liveness_states@) =~= succ_union(bs, ins_of(st), bb_idx as int)) by {
            assert forall|v: Seq<char>| union_of_ins(children_liveness_states@).contains(v) implies succ_union(
                bs,
                ins_of(st),
                bb_idx as int,
            ).contains(v) by {
                let k = choose|k: int| 0 <= k < children_liveness_states@.len() && #[trigger] name_set(children_liveness_states@[k].live_in).contains(v);
                assert(succ_idx.contains(succ_idx[k]));
                assert(ins_of(st)[succ_idx[k] as int].contains(v));
            }
            assert forall|v: Seq<char>| succ_union(bs, ins_of(st), bb_idx as int).contains(v) implies union_of_ins(
                children_liveness_states@,
            ).contains(v) by {
                let s = choose|s: int| 0 <= s < bs.len() && cfg_edge(bs, bb_idx as int, s) && #[trigger] ins_of(st)[s].contains(v);
                assert(succ_idx.contains(s as usize));
                let k = choose|k: int| 0 <= k < succ_idx.len() && succ_idx[k] == s as usize;
                assert(name_set(children_liveness_states@[k].live_in).contains(v));
            }
        }
        let (new_state, changed) = bb_update_liveness(
            &bbs[bb_idx],
            &liveness_states[bb_idx],
            &parent_liveness_states,
            &children_liveness_states,
        );
        let ghost ns = new_state;
        proof {
            // the block's sets only grow, so a change shows in the lengths
            let j = bb_idx as int;
            assert(outs_of(st)[j].subset_of(succ_union(bs, ins_of(st), j)));
            lemma_live_through_monotone(bs[j], outs_of(st)[j], name_set(ns.live_out));
            assert(ins_of(st)[j].subset_of(live_through(bs[j], outs_of(st)[j])));
            assert(st[j] == liveness_states@[j]);
            lemma_grown_same_len(names(st[j].live_out), names(ns.live_out));
            lemma_grown_same_len(names(st[j].live_in), names(ns.live_in));
            assert(changed == (name_set(ns.live_out) != outs_of(st)[j] || name_set(ns.live_in) != ins_of(st)[j]));
        }
        liveness_states.set(bb_idx, new_state);
        let ghost queued_mid = in_work_list@;
        let ghost queue_mid = work_list@;
        if changed {
            // the block's predecessors have to be looked at again
            let mut q: usize = 0;
            while q < n
                invariant
                    n == bbs@.len(),
                    bs == block_views(bbs@),
                    bb_idx < n,
                    q <= n,
                    forall|m: int, x: usize| 0 <= m < n ==> ((#[trigger] bbs@[m].in_bb_indices@.contains(x)) <==> x < n && cfg_edge(bs, x as int, m)),
                    forall|x: usize| #[trigger] queued_mid.contains(x) ==> in_work_list@.contains(x),
                    forall|x: usize| #[trigger] in_work_list@.contains(x) <==> work_list@.contains(x),
                    work_list@.no_duplicates(),
                    forall|k: int| 0 <= k < work_list@.len() ==> #[trigger] work_list@[k] < n,
                    forall|x: usize| x < q && cfg_edge(bs, x as int, bb_idx as int) ==> #[trigger] in_work_list@.contains(x),
                decreases n - q,
            {
                if bbs[bb_idx].in_bb_indices.contains(&q) && !in_work_list.contains(&q) {
                    let ghost wl0 = work_list@;
                    in_work_list.insert(q);
                    work_list.push_back(q);
                    assert(work_list@.no_duplicates()) by {
                        assert forall|a: int, b: int| 0 <= a < b < work_list@.len() implies work_list@[a] != work_list@[b] by {
                            if b == wl0.len() {
                                assert(wl0.contains(wl0[a]));
                            }
                        }
                    }
                    assert forall|x: usize| #[trigger] in_work_list@.contains(x) <==> work_list@.contains(x) by {
                        if x == q {
                            assert(work_list@[wl0.len() as int] == q);
                        } else if work_list@.contains(x) {
                            let k = choose|k: int| 0 <= k < work_list@.len() && work_list@[k] == x;
                            assert(wl0[k] == x);
                        } else if wl0.contains(x) {
                            let k = choose|k: int| 0 <= k < wl0.len() && wl0[k] == x;
                            assert(work_list@[k] == x);
                        }
                    }
                }
                q += 1;
            }
        }
        proof {
            lemma_liveness_step(bs, u, st, bb_idx as int, ns, queued0, in_work_list@, changed);
            assert(liveness_states@ == st.update(bb_idx as int, ns));
            lemma_slack_nonneg(u, liveness_states@);
            if !changed {
                assert(work_list@.len() < queue0.len());
            }
        }
    }
    proof {
        assert(in_work_list@ =~= Set::<usize>::empty()) by {
            assert forall|x: usize| !in_work_list@.contains(x) by {
                assert(!work_list@.contains(x));
            }
        }
        lemma_liveness_done(bs, liveness_states@);
    }
    liveness_states
}

/// The body of a function after global dead-code elimination: in each
/// basic block, an instruction is dropped when it is pure and defines no
/// variable that is live after it, liveness at block exits being the least
/// solution of the liveness equations.
pub open spec fn global_dce(fi: Seq<InstrView>) -> Seq<InstrView> {
    let bs = block_partition(fi);
    Seq::new(bs.len(), |b: int| without_indices(bs[b], dead_code(bs[b], least_live_out(bs, b)))).flatten()
}

/// Whether some basic block of the body has dead code.
pub open spec fn has_global_dead_code(fi: Seq<InstrView>) -> bool {
    let bs = block_partition(fi);
    exists|b: int| 0 <= b < bs.len() && !(#[trigger] dead_code(bs[b], least_live_out(bs, b))).is_empty()
}

/// Dead code is pure: labels, control flow and effectful instructions stay.
pub proof fn lemma_dead_code_is_pure(b: Seq<InstrView>, out: Set<Seq<char>>)
    ensures
        forall|i: int| #[trigger] dead_code(b, out).contains(i) ==> 0 <= i < b.len() && b[i].is_pure(),
{
}

/// Global dead-code elimination on one function.
fn global_dce_on_function(function: &mut Function) -> (changed: bool)
    ensures
        views(final(function).instrs@) == global_dce(views(old(function).instrs@)),
        changed == has_global_dead_code(views(old(function).instrs@)),
        !changed ==> final(function).instrs == old(function).instrs,
        final(function).name == old(function).name,
        final(function).args == old(function).args,
        final(function).return_type == old(function).return_type,
{
    broadcast use Seq::lemma_flatten_push;

    let ghost fi = views(function.instrs@);
    let mut changed: bool = false;
    let mut bbs = function.get_basic_blocks();
    let ghost bs = block_views(bbs@);
    let n = bbs.len();
    let all_uses = collect_uses(&function.instrs);
    proof {
        assert forall|b: int, i: int, k: int|
            0 <= b < bs.len() && 0 <= i < bs[b].len() && 0 <= k < bs[b][i].uses().len() implies name_set(all_uses).contains(
            #[trigger] bs[b][i].uses()[k],
        ) by {
            lemma_flatten_index(bs, b, i);
            let at = block_offset(bs, b) + i;
            assert(fi[at] == bs[b][i]);
            assert(is_used(fi, bs[b][i].uses()[k]));
            assert(names(all_uses).contains(bs[b][i].uses()[k]));
        }
    }
    let liveness_states = compute_liveness(&bbs, &all_uses);

    // drop the dead instructions of each block
    let ghost cleaned = Seq::new(n as nat, |b: int| without_indices(bs[b], dead_code(bs[b], least_live_out(bs, b))));
    let mut b: usize = 0;
    while b < n
        invariant
            n == bbs@.len(),
            bs.len() == n,
            bs == block_partition(fi),
            liveness_states@.len() == n,
            forall|m: int| 0 <= m < n ==> #[trigger] outs_of(liveness_states@)[m] == least_live_out(bs, m),
            cleaned == Seq::new(n as nat, |m: int| without_indices(bs[m], dead_code(bs[m], least_live_out(bs, m)))),
            b <= n,
            forall|m: int| 0 <= m < b ==> (#[trigger] bbs@[m]).ins() == cleaned[m],
            forall|m: int| b <= m < n ==> (#[trigger] bbs@[m]).ins() == bs[m],
            changed == exists|m: int| 0 <= m < b && !(#[trigger] dead_code(bs[m], least_live_out(bs, m))).is_empty(),
            function.name == old(function).name,
            function.args == old(function).args,
            function.return_type == old(function).return_type,
            function.instrs == old(function).instrs,
        decreases n - b,
    {
        assert(outs_of(liveness_states@)[b as int] == name_set(liveness_states@[b as int].live_out));
        let (_live_in, dead) = live_scan(&bbs[b].instrs, &liveness_states[b].live_out);
        let ghost d = dead_code(bs[b as int], least_live_out(bs, b as int));
        assert(index_set(dead@) == d);
        if dead.len() > 0 {
            assert(d.contains(dead@[0] as int));
            changed = true;
            let kept = drop_indices(&bbs[b].instrs, &dead);
            bbs[b].instrs = kept;
        } else {
            assert(d =~= Set::<int>::empty());
            proof {
                lemma_without_nothing(bs[b as int], d);
            }
        }
        b += 1;
    }
    if changed {
        function.instrs.clear();
        let mut k: usize = 0;
        while k < n
            invariant
                n == bbs@.len(),
                cleaned.len() == n,
                k <= n,
                forall|m: int| k <= m < n ==> (#[trigger] bbs@[m]).ins() == cleaned[m],
                views(function.instrs@) == cleaned.take(k as int).flatten(),
                function.name == old(function).name,
                function.args == old(function).args,
                function.return_type == old(function).return_type,
            decreases n - k,
        {
            let ghost before = function.instrs@;
            let ghost added = bbs@[k as int].instrs@;
            assert(views(added) == cleaned[k as int]);
            function.instrs.append(&mut bbs[k].instrs);
            assert(cleaned.take(k + 1) =~= cleaned.take(k as int).push(cleaned[k as int]));
            proof {
                cleaned.take(k as int).lemma_flatten_push(cleaned[k as int]);
            }
            assert(function.instrs@ == before + added);
            assert(views(function.instrs@) =~= views(before) + views(added));
            k += 1;
        }
        assert(cleaned.take(n as int) =~= cleaned);
    } else {
        assert(cleaned =~= bs) by {
            assert forall|m: int| 0 <= m < n implies cleaned[m] == bs[m] by {
                let d = dead_code(bs[m], least_live_out(bs, m));
                assert(d.is_empty());
                lemma_without_nothing(bs[m], d);
            }
        }
    }
    changed
}

/// Global dead-code elimination driven by strong liveness, on every
/// function; returns whether any function changed.
pub fn global_dce_pass_using_livenss(program: &mut Program) -> (changed: bool)
    ensures
        final(program).functions@.len() == old(program).functions@.len(),
        forall|k: int|
            0 <= k < old(program).functions@.len() ==> {
                let f0 = #[trigger] old(program).functions@[k];
                let f1 = final(program).functions@[k];
                &&& views(f1.instrs@) == global_dce(views(f0.instrs@))
                &&& !has_global_dead_code(views(f0.instrs@)) ==> f1.instrs == f0.instrs
                &&& f1.name == f0.name
                &&& f1.args == f0.args
                &&& f1.return_type == f0.return_type
            },
        changed == exists|k: int|
            0 <= k < old(program).functions@.len() && has_global_dead_code(views(#[trigger] old(program).functions@[k].instrs@)),
{
    let mut changed: bool = false;
    let n = program.functions.len();
    let mut k: usize = 0;
    while k < n
        invariant
            n == old(program).functions@.len(),
            program.functions@.len() == n,
            k <= n,
            forall|m: int|
                0 <= m < k ==> {
                    let f0 = #[trigger] old(program).functions@[m];
                    let f1 = program.functions@[m];
                    &&& views(f1.instrs@) == global_dce(views(f0.instrs@))
                    &&& !has_global_dead_code(views(f0.instrs@)) ==> f1.instrs == f0.instrs
                    &&& f1.name == f0.name
                    &&& f1.args == f0.args
                    &&& f1.return_type == f0.return_type
                },
            forall|m: int| k <= m < n ==> #[trigger] program.functions@[m] == old(program).functions@[m],
            changed == exists|m: int| 0 <= m < k && has_global_dead_code(views(#[trigger] old(program).functions@[m].instrs@)),
        decreases n - k,
    {
        let c = global_dce_on_function(&mut program.functions[k]);
        changed = changed || c;
        k += 1;
    }
    changed
}

} // verus!
