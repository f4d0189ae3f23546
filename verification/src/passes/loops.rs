//! Loops: natural loops found through back edges of the dominator tree,
//! loop normalization with a pre-header, and the code-motion pass built on
//! them.
use crate::ast::{
    block_views, is_block_list, names, opt_name, views, BasicBlock, Function, InstrView, Instruction, OpView, OpcodeInstruction, Program,
};
use crate::dom::{cfg_sym, cfg_wf, count_unvisited, dominators_of, get_dom_context, lemma_count_mark, set_elements, DomContext};
use std::collections::HashSet;
use vstd::prelude::*;
use vstd::string::*;

verus! {

/// The index of a block once a block was inserted at `h`.
pub open spec fn shift(i: int, h: int) -> int {
    if i >= h {
        i + 1
    } else {
        i
    }
}

/// The text of the label an old header takes once its pre-header took its
/// label.
pub open spec fn old_label(l: Seq<char>) -> Seq<char> {
    l + seq!['@', 'o', 'l', 'd']
}

/// The label a block opens with, if it does.
pub open spec fn head_label(b: Seq<InstrView>) -> Option<Seq<char>> {
    if b.len() > 0 && b[0] is Label {
        Some(b[0]->Label_0)
    } else {
        None
    }
}

/// `x` with its jump targets named `from` renamed to `to` (for `br` and
/// `jmp`).
pub open spec fn retargeted(x: InstrView, from: Seq<char>, to: Seq<char>) -> InstrView {
    match x {
        InstrView::Opcode(op) => if op.kind is Br || op.kind is Jmp {
            InstrView::Opcode(OpView { labels: op.labels.map_values(|l: Seq<char>| if l == from { to } else { l }), ..op })
        } else {
            x
        },
        _ => x,
    }
}

/// A list of names with each `from` renamed to `to`.
pub open spec fn renamed(v: Seq<Seq<char>>, from: Seq<char>, to: Seq<char>) -> Seq<Seq<char>> {
    v.map_values(|l: Seq<char>| if l == from { to } else { l })
}

/// Copies the names, renaming each `from` to `to`.
fn rename_names(v: &Vec<String>, from: &String, to: &String) -> (r: Vec<String>)
    ensures
        names(r) == renamed(names(*v), from@, to@),
{
    let mut r: Vec<String> = Vec::new();
    let mut i: usize = 0;
    while i < v.len()
        invariant
            i <= v@.len(),
            names(r) == renamed(names(*v).take(i as int), from@, to@),
        decreases v@.len() - i,
    {
        let ghost before = names(r);
        let ghost x = names(*v)[i as int];
        if v[i] == *from {
            r.push(to.clone());
            assert(names(r) =~= before.push(to@));
            assert(x == from@);
        } else {
            r.push(v[i].clone());
            assert(names(r) =~= before.push(x));
            assert(x != from@);
        }
        assert(names(*v).take(i + 1) =~= names(*v).take(i as int).push(x));
        assert(renamed(names(*v).take(i + 1), from@, to@) =~= renamed(names(*v).take(i as int), from@, to@).push(
            if x == from@ { to@ } else { x },
        ));
        assert(names(r) =~= renamed(names(*v).take(i + 1), from@, to@));
        i += 1;
    }
    assert(names(*v).take(v@.len() as int) =~= names(*v));
    r
}

/// Copies an instruction, renaming the jump targets named `from` to `to`.
fn retarget(inst: &Instruction, from: &String, to: &String) -> (r: Instruction)
    ensures
        r@ == retargeted(inst@, from@, to@),
{
    match inst {
        Instruction::Opcode(OpcodeInstruction::Br { args, labels }) => {
            let args2 = crate::ast::clone_names(args);
            let labels2 = rename_names(labels, from, to);
            let r = Instruction::Opcode(OpcodeInstruction::Br { args: args2, labels: labels2 });
            assert(r@ == retargeted(inst@, from@, to@));
            r
        },
        Instruction::Opcode(OpcodeInstruction::Jmp { labels }) => {
            let labels2 = rename_names(labels, from, to);
            Instruction::Opcode(OpcodeInstruction::Jmp { labels: labels2 })
        },
        _ => inst.clone(),
    }
}

/// The indices of `s` other than `skip`, moved for a block inserted at `h`.
pub open spec fn shift_image(s: Set<usize>, h: int, skip: Option<usize>) -> Set<usize> {
    Set::new(|z: usize| exists|y: usize| #[trigger] s.contains(y) && Some(y) != skip && z as int == shift(y as int, h))
}

/// The successors of old block `k` once the pre-header of header `h`, with
/// back node `bk`, is inserted: an edge to the header now enters the
/// pre-header, except the back edge, which still enters the header.
pub open spec fn shifted_out(out: Set<usize>, h: int, k: int, bk: int) -> Set<usize> {
    let rest = shift_image(out, h, Some(h as usize));
    if out.contains(h as usize) {
        rest.insert((if k == bk { h + 1 } else { h }) as usize)
    } else {
        rest
    }
}

/// The predecessors of the old header once its pre-header is inserted: the
/// pre-header, and the back node when it was one.
pub open spec fn header_in(inn: Set<usize>, h: int, bk: int) -> Set<usize> {
    if inn.contains(bk as usize) {
        set![h as usize, shift(bk, h) as usize]
    } else {
        set![h as usize]
    }
}

/// Every index of the sets of `bbs` can be moved up by one.
pub open spec fn indices_below_max(bbs: Seq<BasicBlock>) -> bool {
    &&& forall|k: int, y: usize| 0 <= k < bbs.len() && #[trigger] bbs[k].out_bb_indices@.contains(y) ==> y < usize::MAX
    &&& forall|k: int, y: usize| 0 <= k < bbs.len() && #[trigger] bbs[k].in_bb_indices@.contains(y) ==> y < usize::MAX
}

/// The indices of `s` other than `skip`, moved for a block inserted at `h`.
fn shift_set(s: &HashSet<usize>, h: usize, skip: Option<usize>) -> (r: HashSet<usize>)
    requires
        forall|y: usize| #[trigger] s@.contains(y) ==> y < usize::MAX,
    ensures
        r@ == shift_image(s@, h as int, skip),
{
    broadcast use vstd::std_specs::hash::group_hash_axioms;

    let elems = set_elements(s);
    let mut r: HashSet<usize> = HashSet::new();
    let mut i: usize = 0;
    while i < elems.len()
        invariant
            i <= elems@.len(),
            forall|y: usize| #[trigger] elems@.contains(y) <==> s@.contains(y),
            forall|y: usize| #[trigger] s@.contains(y) ==> y < usize::MAX,
            r@ == Set::new(|z: usize| exists|q: int| 0 <= q < i && Some(#[trigger] elems@[q]) != skip && z as int == shift(elems@[q] as int, h as int)),
        decreases elems@.len() - i,
    {
        let y = elems[i];
        assert(elems@.contains(y));
        if Some(y) != skip {
            let z = if y >= h { y + 1 } else { y };
            r.insert(z);
        }
        assert(r@ =~= Set::new(|z: usize| exists|q: int| 0 <= q < i + 1 && Some(#[trigger] elems@[q]) != skip && z as int == shift(elems@[q] as int, h as int))) by {
            assert forall|z: usize| #[trigger] r@.contains(z) implies exists|q: int| 0 <= q < i + 1 && Some(#[trigger] elems@[q]) != skip && z as int == shift(elems@[q] as int, h as int) by {
                if Some(y) != skip && z as int == shift(y as int, h as int) {
                    assert(elems@[i as int] == y);
                } else {
                    let q = choose|q: int| 0 <= q < i && Some(#[trigger] elems@[q]) != skip && z as int == shift(elems@[q] as int, h as int);
                }
            }
        }
        i += 1;
    }
    assert(r@ =~= shift_image(s@, h as int, skip)) by {
        assert forall|z: usize| r@.contains(z) implies #[trigger] shift_image(s@, h as int, skip).contains(z) by {
            let q = choose|q: int| 0 <= q < elems@.len() && Some(#[trigger] elems@[q]) != skip && z as int == shift(elems@[q] as int, h as int);
            assert(elems@.contains(elems@[q]));
        }
        assert forall|z: usize| #[trigger] shift_image(s@, h as int, skip).contains(z) implies r@.contains(z) by {
            let y = choose|y: usize| #[trigger] s@.contains(y) && Some(y) != skip && z as int == shift(y as int, h as int);
            assert(elems@.contains(y));
            let q = choose|q: int| 0 <= q < elems@.len() && elems@[q] == y;
        }
    }
    r
}

/// The instructions of old block `k` once the pre-header of header `h`,
/// with back node `bk`, is inserted: when the header opens with label `l`,
/// the header now opens with `old_label(l)`, and the back node's jumps to
/// `l` go to `old_label(l)`.
pub open spec fn moved_ins(b: Seq<InstrView>, k: int, h: int, bk: int, lab: Option<Seq<char>>) -> Seq<InstrView> {
    let b1 = if k == h && lab is Some {
        b.update(0, InstrView::Label(old_label(lab.unwrap())))
    } else {
        b
    };
    if k == bk && lab is Some {
        b1.map_values(|x: InstrView| retargeted(x, lab.unwrap(), old_label(lab.unwrap())))
    } else {
        b1
    }
}

/// `b` is `a` with the pre-header of the loop with header `h` and back node
/// `bk` inserted at `h`: every old block `k` moves to `shift(k, h)`; when
/// the header opens with label `l`, the pre-header takes `l` and the header
/// `old_label(l)`, and the back node's jumps to `l` go to `old_label(l)`;
/// every edge that entered the header now enters the pre-header, but the
/// back edge, which still enters the header; the pre-header falls through
/// to the header.
pub open spec fn pre_header_inserted(a: Seq<BasicBlock>, b: Seq<BasicBlock>, h: int, bk: int) -> bool {
    let n = a.len();
    let lab = head_label(a[h].ins());
    &&& b.len() == n + 1
    &&& forall|k: int|
        0 <= k < n ==> {
            let o = #[trigger] a[k];
            let f = b[shift(k, h)];
            &&& f.ins() =~= moved_ins(o.ins(), k, h, bk, lab)
            &&& opt_name(f.label) == (if k == h && lab is Some {
                Some(old_label(lab.unwrap()))
            } else {
                opt_name(o.label)
            })
            &&& names(f.out_labels) == (if k == bk && lab is Some {
                renamed(names(o.out_labels), lab.unwrap(), old_label(lab.unwrap()))
            } else {
                names(o.out_labels)
            })
            &&& f.out_bb_indices@ == shifted_out(o.out_bb_indices@, h, k, bk)
            &&& f.in_bb_indices@ == (if k == h {
                header_in(o.in_bb_indices@, h, bk)
            } else {
                shift_image(o.in_bb_indices@, h, None)
            })
            &&& f.immediate_dominator_index == o.immediate_dominator_index
        }
    &&& b[h].ins() =~= (match lab {
        Some(l) => seq![InstrView::Label(l)],
        None => Seq::<InstrView>::empty(),
    })
    &&& opt_name(b[h].label) == lab
    &&& b[h].out_labels@.len() == 0
    &&& b[h].out_bb_indices@ == set![(h + 1) as usize]
    &&& b[h].in_bb_indices@ == shift_image(a[h].in_bb_indices@, h, Some(bk as usize))
    &&& b[h].immediate_dominator_index == 0
}

/// Inserting a pre-header keeps every edge listed at both of its ends: when
/// each block's successors and predecessors agree before, they agree after.
pub proof fn lemma_pre_header_keeps_edges_agreeing(a: Seq<BasicBlock>, b: Seq<BasicBlock>, h: int, bk: int)
    requires
        0 <= h < a.len(),
        0 <= bk < a.len(),
        a.len() <= usize::MAX,
        cfg_wf(a),
        cfg_sym(a),
        pre_header_inserted(a, b, h, bk),
    ensures
        cfg_sym(b),
{
    assert forall|u: usize, v: usize| (u as int) < b.len() && (v as int) < b.len() implies (#[trigger] b[u as int].out_bb_indices@.contains(v)
        <==> #[trigger] b[v as int].in_bb_indices@.contains(u)) by {
        let pin = a[h].in_bb_indices@;
        if u as int == h {
            if v as int == h {
                if b[h].in_bb_indices@.contains(u) {
                    let y = choose|y: usize| #[trigger] pin.contains(y) && Some(y) != Some(bk as usize) && u as int == shift(y as int, h);
                }
            } else {
                let kv: int = if (v as int) < h { v as int } else { v - 1 };
                assert(shift(kv, h) == v as int);
                assert(b[shift(kv, h)] == b[v as int]);
                let _ = a[kv];
                if kv != h && b[v as int].in_bb_indices@.contains(u) {
                    let y = choose|y: usize| #[trigger] a[kv].in_bb_indices@.contains(y) && Some(y) != None::<usize> && u as int == shift(y as int, h);
                }
            }
        } else {
            let ku: int = if (u as int) < h { u as int } else { u - 1 };
            assert(shift(ku, h) == u as int);
            let _ = a[ku];
            let aout = a[ku].out_bb_indices@;
            assert(b[u as int].out_bb_indices@ == shifted_out(aout, h, ku, bk));
            assert(aout.contains(h as usize) <==> pin.contains(ku as usize));
            if v as int == h {
                if b[u as int].out_bb_indices@.contains(v) {
                    if !(aout.contains(h as usize) && ku != bk) {
                        let y = choose|y: usize| #[trigger] aout.contains(y) && Some(y) != Some(h as usize) && v as int == shift(y as int, h);
                    }
                    assert(shift_image(pin, h, Some(bk as usize)).contains(u));
                }
                if b[v as int].in_bb_indices@.contains(u) {
                    let y = choose|y: usize| #[trigger] pin.contains(y) && Some(y) != Some(bk as usize) && u as int == shift(y as int, h);
                    assert(y as int == ku);
                }
            } else {
                let kv: int = if (v as int) < h { v as int } else { v - 1 };
                assert(shift(kv, h) == v as int);
                let _ = a[kv];
                assert(b[shift(kv, h)] == b[v as int]);
                if kv == h {
                    assert(b[v as int].in_bb_indices@ == header_in(pin, h, bk));
                    if b[u as int].out_bb_indices@.contains(v) {
                        if !(aout.contains(h as usize) && ku == bk) {
                            let y = choose|y: usize| #[trigger] aout.contains(y) && Some(y) != Some(h as usize) && v as int == shift(y as int, h);
                        }
                    }
                    if b[v as int].in_bb_indices@.contains(u) {
                        assert(ku == bk);
                        assert(aout.contains(h as usize));
                    }
                } else {
                    let ain = a[kv].in_bb_indices@;
                    assert(b[v as int].in_bb_indices@ == shift_image(ain, h, None));
                    assert(aout.contains(kv as usize) <==> ain.contains(ku as usize));
                    if b[u as int].out_bb_indices@.contains(v) {
                        if !(aout.contains(h as usize) && v as int == (if ku == bk { h + 1 } else { h })) {
                            let y = choose|y: usize| #[trigger] aout.contains(y) && Some(y) != Some(h as usize) && v as int == shift(y as int, h);
                            assert(y as int == kv);
                        }
                        assert(ain.contains(ku as usize));
                    }
                    if b[v as int].in_bb_indices@.contains(u) {
                        let y = choose|y: usize| #[trigger] ain.contains(y) && Some(y) != None::<usize> && u as int == shift(y as int, h);
                        assert(y as int == ku);
                        assert(aout.contains(kv as usize));
                        assert(shift_image(aout, h, Some(h as usize)).contains(v));
                    }
                }
            }
        }
    }
}

/// Inserts a pre-header block right before the loop header at `header_idx`.
/// The pre-header takes the header's index and its label (the header's own
/// label gets `@old` appended), falls through to the header, and receives
/// every edge that entered the header except the back edge from
/// `back_node_idx`, which now jumps to the header under its new label.
/// Every index at or after `header_idx` moves up by one.
pub fn create_and_insert_pre_header(bbs: &mut Vec<BasicBlock>, header_idx: usize, back_node_idx: usize)
    requires
        header_idx < old(bbs)@.len(),
        back_node_idx < old(bbs)@.len(),
        old(bbs)@.len() < usize::MAX,
        indices_below_max(old(bbs)@),
    ensures
        pre_header_inserted(old(bbs)@, final(bbs)@, header_idx as int, back_node_idx as int),
        cfg_wf(old(bbs)@) ==> cfg_wf(final(bbs)@),
        cfg_wf(old(bbs)@) && cfg_sym(old(bbs)@) ==> cfg_sym(final(bbs)@),
{
    broadcast use vstd::std_specs::hash::group_hash_axioms;

    let ghost old_bbs = bbs@;
    let n = bbs.len();
    let h = header_idx;
    let ghost lab = head_label(bbs@[h as int].ins());

    // the pre-header takes the header's label; the header's becomes `@old`
    let mut pre_instrs: Vec<Instruction> = Vec::new();
    let mut labels: Option<(String, String)> = None;
    if bbs[h].instrs.len() > 0 {
        match &bbs[h].instrs[0] {
            Instruction::Label { label } => {
                pre_instrs.push(Instruction::Label { label: label.clone() });
                let mut old_header_label = label.clone();
                old_header_label.append("@old");
                proof {
                    reveal_strlit("@old");
                }
                labels = Some((label.clone(), old_header_label));
            },
            _ => {},
        }
    }
    assert(labels is Some <==> lab is Some);
    assert(labels matches Some(p) ==> p.0@ == lab.unwrap() && p.1@ == old_label(lab.unwrap()));
    let pre_label: Option<String> = match &labels {
        Some(p) => Some(p.0.clone()),
        None => None,
    };

    // the pre-header's edges
    let pre_in = shift_set(&bbs[h].in_bb_indices, h, Some(back_node_idx));
    let mut pre_out: HashSet<usize> = HashSet::new();
    pre_out.insert(h + 1);

    // every block's edges, moved
    let mut k: usize = 0;
    while k < n
        invariant
            n == old_bbs.len(),
            bbs@.len() == n,
            h < n,
            back_node_idx < n,
            n < usize::MAX,
            indices_below_max(old_bbs),
            k <= n,
            forall|m: int|
                0 <= m < n ==> {
                    let o = #[trigger] old_bbs[m];
                    let f = bbs@[m];
                    &&& f.instrs == o.instrs
                    &&& f.label == o.label
                    &&& f.out_labels == o.out_labels
                    &&& f.immediate_dominator_index == o.immediate_dominator_index
                },
            forall|m: int| k <= m < n ==> #[trigger] bbs@[m] == old_bbs[m],
            forall|m: int|
                0 <= m < k ==> {
                    let o = #[trigger] old_bbs[m];
                    let f = bbs@[m];
                    &&& f.out_bb_indices@ == shifted_out(o.out_bb_indices@, h as int, m, back_node_idx as int)
                    &&& f.in_bb_indices@ == (if m == h {
                        header_in(o.in_bb_indices@, h as int, back_node_idx as int)
                    } else {
                        shift_image(o.in_bb_indices@, h as int, None)
                    })
                },
        decreases n - k,
    {
        assert(bbs@[k as int] == old_bbs[k as int]);
        let mut new_out = shift_set(&bbs[k].out_bb_indices, h, Some(h));
        if bbs[k].out_bb_indices.contains(&h) {
            let target = if k == back_node_idx { h + 1 } else { h };
            new_out.insert(target);
        }
        let new_in = if k == h {
            let mut hin: HashSet<usize> = HashSet::new();
            hin.insert(h);
            if bbs[k].in_bb_indices.contains(&back_node_idx) {
                let b2 = if back_node_idx >= h { back_node_idx + 1 } else { back_node_idx };
                hin.insert(b2);
            }
            hin
        } else {
            shift_set(&bbs[k].in_bb_indices, h, None)
        };
        assert(new_out@ =~= shifted_out(old_bbs[k as int].out_bb_indices@, h as int, k as int, back_node_idx as int));
        assert(k == h ==> new_in@ =~= header_in(old_bbs[k as int].in_bb_indices@, h as int, back_node_idx as int));
        bbs[k].out_bb_indices = new_out;
        bbs[k].in_bb_indices = new_in;
        k += 1;
    }

    // the header's label, and the back node's jumps to it
    let ghost mid = bbs@;
    match &labels {
        Some(p) => {
            let l = &p.0;
            let l2 = &p.1;
            bbs[h].instrs.set(0, Instruction::Label { label: l2.clone() });
            bbs[h].label = Some(l2.clone());
            let ghost after_header = bbs@;
            let mut moved: Vec<Instruction> = Vec::new();
            let mut i: usize = 0;
            while i < bbs[back_node_idx].instrs.len()
                invariant
                    bbs@ == after_header,
                    back_node_idx < bbs@.len(),
                    i <= bbs@[back_node_idx as int].instrs@.len(),
                    moved@.len() == i,
                    forall|q: int| 0 <= q < i ==> (#[trigger] moved@[q])@ == retargeted(bbs@[back_node_idx as int].instrs@[q]@, l@, l2@),
                decreases bbs@[back_node_idx as int].instrs@.len() - i,
            {
                let x = retarget(&bbs[back_node_idx].instrs[i], l, l2);
                moved.push(x);
                i += 1;
            }
            assert(crate::ast::views(moved@) =~= bbs@[back_node_idx as int].ins().map_values(|x: InstrView| retargeted(x, l@, l2@)));
            let new_out_labels = rename_names(&bbs[back_node_idx].out_labels, l, l2);
            bbs[back_node_idx].instrs = moved;
            bbs[back_node_idx].out_labels = new_out_labels;
        },
        None => {},
    }

    let pre_header = BasicBlock {
        instrs: pre_instrs,
        label: pre_label,
        out_labels: Vec::new(),
        in_bb_indices: pre_in,
        out_bb_indices: pre_out,
        immediate_dominator_index: 0,
    };
    let ghost before_insert = bbs@;
    bbs.insert(h, pre_header);
    assert forall|k: int| 0 <= k < n implies #[trigger] bbs@[shift(k, h as int)] == before_insert[k] by {}
    proof {
        if cfg_wf(old_bbs) {
            assert forall|u: int, v: usize| 0 <= u < bbs@.len() && #[trigger] bbs@[u].out_bb_indices@.contains(v) implies v < bbs@.len() by {
                if u != h {
                    let k = if u < h { u } else { u - 1 };
                    assert(shift(k, h as int) == u);
                    let o = old_bbs[k].out_bb_indices@;
                    if !(o.contains(h) && v as int == (if k == back_node_idx { h + 1 } else { h as int })) {
                        let y = choose|y: usize| #[trigger] o.contains(y) && Some(y) != Some(h) && v as int == shift(y as int, h as int);
                    }
                }
            }
            assert forall|u: int, v: usize| 0 <= u < bbs@.len() && #[trigger] bbs@[u].in_bb_indices@.contains(v) implies v < bbs@.len() by {
                if u == h {
                    let y = choose|y: usize| #[trigger] old_bbs[h as int].in_bb_indices@.contains(y) && Some(y) != Some(back_node_idx) && v as int == shift(y as int, h as int);
                } else {
                    let k = if u < h { u } else { u - 1 };
                    assert(shift(k, h as int) == u);
                    if k != h {
                        let y = choose|y: usize| #[trigger] old_bbs[k].in_bb_indices@.contains(y) && Some(y) != None::<usize> && v as int == shift(y as int, h as int);
                    }
                }
            }
            if cfg_sym(old_bbs) {
                lemma_pre_header_keeps_edges_agreeing(old_bbs, bbs@, h as int, back_node_idx as int);
            }
        }
    }
}

/// The blocks flagged in `v`.
pub open spec fn flagged(v: Seq<bool>) -> Set<int> {
    Set::new(|k: int| 0 <= k < v.len() && v[k])
}

/// The instructions loop-invariant code motion may move out of a loop: pure
/// value operations with a destination, apart from `div`, which fails on a
/// zero divisor, and `load`, which reads memory the loop may write.
pub open spec fn movable(x: InstrView) -> bool {
    &&& x is Opcode
    &&& x.is_pure()
    &&& x->Opcode_0.dest is Some
    &&& !(x->Opcode_0.kind is Div)
    &&& !(x->Opcode_0.kind is Load)
}

/// An instruction of a block of `l`, other than instruction `si` of block
/// `sk`, defines `x`.
pub open spec fn defined_in(bs: Seq<Seq<InstrView>>, l: Set<int>, x: Seq<char>, sk: int, si: int) -> bool {
    exists|k: int, i: int|
        #![trigger bs[k][i]]
        l.contains(k) && 0 <= k < bs.len() && 0 <= i < bs[k].len() && !(k == sk && i == si) && bs[k][i].result() == Some(x)
}

/// Instruction `i` of block `k` is invariant in the loop whose blocks are `l`
/// and whose blocks other than the header are `r`: it stands in `r`, may be
/// moved, no block of the loop defines what it reads, and no other
/// instruction of the loop defines its destination.
pub open spec fn invariant_at(bs: Seq<Seq<InstrView>>, l: Set<int>, r: Set<int>, k: int, i: int) -> bool {
    &&& r.contains(k)
    &&& 0 <= k < bs.len()
    &&& 0 <= i < bs[k].len()
    &&& movable(bs[k][i])
    &&& forall|j: int| 0 <= j < bs[k][i].uses().len() ==> !defined_in(bs, l, #[trigger] bs[k][i].uses()[j], bs.len() as int, 0)
    &&& !defined_in(bs, l, bs[k][i].result().unwrap(), k, i)
}

/// Instruction `i` of block `k` is the first invariant one, going over the
/// blocks in order and each block from its start.
pub open spec fn first_invariant(bs: Seq<Seq<InstrView>>, l: Set<int>, r: Set<int>, k: int, i: int) -> bool {
    &&& invariant_at(bs, l, r, k, i)
    &&& forall|k2: int, i2: int| (k2 < k || (k2 == k && i2 < i)) ==> !#[trigger] invariant_at(bs, l, r, k2, i2)
}

/// Instruction `i` of block `k` moved to the end of block `p`.
pub open spec fn hoisted(bs: Seq<Seq<InstrView>>, p: int, k: int, i: int) -> Seq<Seq<InstrView>> {
    bs.update(k, bs[k].remove(i)).update(p, bs[p].push(bs[k][i]))
}

/// One step of code motion: the first invariant instruction moves to the
/// end of the pre-header `p`; with none, nothing changes.
pub open spec fn licm_step(bs: Seq<Seq<InstrView>>, p: int, l: Set<int>, r: Set<int>) -> Seq<Seq<InstrView>> {
    if exists|k: int, i: int| #[trigger] first_invariant(bs, l, r, k, i) {
        let (k, i) = choose|k: int, i: int| #[trigger] first_invariant(bs, l, r, k, i);
        hoisted(bs, p, k, i)
    } else {
        bs
    }
}

/// `t` steps of code motion.
pub open spec fn licm_steps(bs: Seq<Seq<InstrView>>, p: int, l: Set<int>, r: Set<int>, t: nat) -> Seq<Seq<InstrView>>
    decreases t,
{
    if t == 0 {
        bs
    } else {
        licm_step(licm_steps(bs, p, l, r, (t - 1) as nat), p, l, r)
    }
}

/// No instruction of the loop is invariant any more.
pub open spec fn licm_done(bs: Seq<Seq<InstrView>>, l: Set<int>, r: Set<int>) -> bool {
    forall|k: int, i: int| !#[trigger] invariant_at(bs, l, r, k, i)
}

/// The number of instructions in the blocks of `r`.
pub open spec fn region_len(bs: Seq<Seq<InstrView>>, r: Set<int>) -> nat
    decreases bs.len(),
{
    if bs.len() == 0 {
        0
    } else {
        region_len(bs.drop_last(), r) + if r.contains(bs.len() - 1) {
            bs.last().len()
        } else {
            0
        }
    }
}

proof fn lemma_region_len_update(bs: Seq<Seq<InstrView>>, r: Set<int>, j: int, s: Seq<InstrView>)
    requires
        0 <= j < bs.len(),
    ensures
        region_len(bs.update(j, s), r) + (if r.contains(j) { bs[j].len() } else { 0 }) == region_len(bs, r) + (if r.contains(j) {
            s.len()
        } else {
            0
        }),
    decreases bs.len(),
{
    let w = bs.update(j, s);
    if j == bs.len() - 1 {
        assert(w.drop_last() =~= bs.drop_last());
    } else {
        assert(w.drop_last() =~= bs.drop_last().update(j, s));
        lemma_region_len_update(bs.drop_last(), r, j, s);
    }
}

/// Some instruction of a block flagged in `in_loop`, other than instruction
/// `si` of block `sk`, defines `x`.
fn defined_in_loop(bbs: &Vec<BasicBlock>, in_loop: &Vec<bool>, x: &String, sk: usize, si: usize) -> (r: bool)
    requires
        in_loop@.len() == bbs@.len(),
    ensures
        r == defined_in(block_views(bbs@), flagged(in_loop@), x@, sk as int, si as int),
{
    let ghost bs = block_views(bbs@);
    let ghost l = flagged(in_loop@);
    let mut k: usize = 0;
    while k < bbs.len()
        invariant
            bs == block_views(bbs@),
            l == flagged(in_loop@),
            in_loop@.len() == bbs@.len(),
            k <= bbs@.len(),
            forall|k2: int, i2: int|
                #![trigger bs[k2][i2]]
                0 <= k2 < k && l.contains(k2) && 0 <= i2 < bs[k2].len() && !(k2 == sk && i2 == si) ==> bs[k2][i2].result() != Some(x@),
        decreases bbs@.len() - k,
    {
        if in_loop[k] {
            let mut i: usize = 0;
            while i < bbs[k].instrs.len()
                invariant
                    bs == block_views(bbs@),
                    l == flagged(in_loop@),
                    in_loop@.len() == bbs@.len(),
                    k < bbs@.len(),
                    l.contains(k as int),
                    i <= bs[k as int].len(),
                    forall|k2: int, i2: int|
                        #![trigger bs[k2][i2]]
                        0 <= k2 < k && l.contains(k2) && 0 <= i2 < bs[k2].len() && !(k2 == sk && i2 == si) ==> bs[k2][i2].result() != Some(x@),
                    forall|i2: int| 0 <= i2 < i && !(k == sk && i2 == si) ==> #[trigger] bs[k as int][i2].result() != Some(x@),
                decreases bs[k as int].len() - i,
            {
                assert(bs[k as int][i as int] == bbs@[k as int].instrs@[i as int]@);
                if !(k == sk && i == si) {
                    match bbs[k].instrs[i].get_result() {
                        Some(d) => {
                            if d == *x {
                                assert(bs[k as int][i as int].result() == Some(x@));
                                return true;
                            }
                        },
                        None => {},
                    }
                }
                i += 1;
            }
        }
        k += 1;
    }
    false
}

/// `b` has the blocks of `a` with only their instructions changed.
pub open spec fn same_shape(a: Seq<BasicBlock>, b: Seq<BasicBlock>) -> bool {
    &&& a.len() == b.len()
    &&& forall|m: int|
        0 <= m < a.len() ==> {
            let x = #[trigger] a[m];
            let y = b[m];
            &&& y.label == x.label
            &&& y.out_labels == x.out_labels
            &&& y.in_bb_indices@ == x.in_bb_indices@
            &&& y.out_bb_indices@ == x.out_bb_indices@
            &&& y.immediate_dominator_index == x.immediate_dominator_index
        }
}

/// Whether instruction `i` of block `k` is invariant in the loop whose
/// blocks are flagged in `in_loop`, those other than the header in
/// `in_body`.
fn is_invariant_at(bbs: &Vec<BasicBlock>, in_loop: &Vec<bool>, in_body: &Vec<bool>, k: usize, i: usize) -> (r: bool)
    requires
        in_loop@.len() == bbs@.len(),
        in_body@.len() == bbs@.len(),
        k < bbs@.len(),
        i < bbs@[k as int].instrs@.len(),
    ensures
        r == invariant_at(block_views(bbs@), flagged(in_loop@), flagged(in_body@), k as int, i as int),
{
    let ghost bs = block_views(bbs@);
    let ghost l = flagged(in_loop@);
    let inst = &bbs[k].instrs[i];
    assert(bs[k as int][i as int] == inst@);
    if !in_body[k] {
        return false;
    }
    let op = match inst {
        Instruction::Opcode(op) => op,
        _ => {
            return false;
        },
    };
    match op {
        OpcodeInstruction::Div { .. } | OpcodeInstruction::Load { .. } => {
            return false;
        },
        _ => {},
    }
    if !inst.has_no_side_effects() {
        return false;
    }
    let dest = match op.get_dest() {
        Some(d) => d,
        None => {
            return false;
        },
    };
    let uses = inst.get_use_list();
    let mut j: usize = 0;
    while j < uses.len()
        invariant
            bs == block_views(bbs@),
            l == flagged(in_loop@),
            in_loop@.len() == bbs@.len(),
            k < bbs@.len(),
            i < bs[k as int].len(),
            names(uses) == bs[k as int][i as int].uses(),
            j <= uses@.len(),
            forall|j2: int| 0 <= j2 < j ==> !defined_in(bs, l, #[trigger] bs[k as int][i as int].uses()[j2], bs.len() as int, 0),
        decreases uses@.len() - j,
    {
        assert(names(uses)[j as int] == uses@[j as int]@);
        if defined_in_loop(bbs, in_loop, &uses[j], bbs.len(), 0) {
            return false;
        }
        j += 1;
    }
    !defined_in_loop(bbs, in_loop, &dest, k, i)
}

/// The first invariant instruction of the loop, going over the blocks in
/// order; `None` when there is none.
fn find_first_invariant(bbs: &Vec<BasicBlock>, in_loop: &Vec<bool>, in_body: &Vec<bool>) -> (r: Option<(usize, usize)>)
    requires
        in_loop@.len() == bbs@.len(),
        in_body@.len() == bbs@.len(),
    ensures
        match r {
            Some((k, i)) => first_invariant(block_views(bbs@), flagged(in_loop@), flagged(in_body@), k as int, i as int),
            None => licm_done(block_views(bbs@), flagged(in_loop@), flagged(in_body@)),
        },
{
    let ghost bs = block_views(bbs@);
    let ghost l = flagged(in_loop@);
    let ghost r = flagged(in_body@);
    let mut k: usize = 0;
    while k < bbs.len()
        invariant
            bs == block_views(bbs@),
            l == flagged(in_loop@),
            r == flagged(in_body@),
            in_loop@.len() == bbs@.len(),
            in_body@.len() == bbs@.len(),
            k <= bbs@.len(),
            forall|k2: int, i2: int| k2 < k ==> !#[trigger] invariant_at(bs, l, r, k2, i2),
        decreases bbs@.len() - k,
    {
        let mut i: usize = 0;
        while i < bbs[k].instrs.len()
            invariant
                bs == block_views(bbs@),
                l == flagged(in_loop@),
                r == flagged(in_body@),
                in_loop@.len() == bbs@.len(),
                in_body@.len() == bbs@.len(),
                k < bbs@.len(),
                i <= bs[k as int].len(),
                forall|k2: int, i2: int| (k2 < k || (k2 == k && i2 < i)) ==> !#[trigger] invariant_at(bs, l, r, k2, i2),
            decreases bs[k as int].len() - i,
        {
            if is_invariant_at(bbs, in_loop, in_body, k, i) {
                return Some((k, i));
            }
            i += 1;
        }
        k += 1;
    }
    None
}

/// Moves instruction `i` of block `k` to the end of block `p`.
fn hoist_instr(bbs: &mut Vec<BasicBlock>, p: usize, k: usize, i: usize)
    requires
        p < old(bbs)@.len(),
        k < old(bbs)@.len(),
        p != k,
        i < old(bbs)@[k as int].instrs@.len(),
    ensures
        block_views(final(bbs)@) == hoisted(block_views(old(bbs)@), p as int, k as int, i as int),
        same_shape(old(bbs)@, final(bbs)@),
{
    let ghost bs = block_views(bbs@);
    let ghost old_bbs = bbs@;
    let x = bbs[k].instrs.remove(i);
    bbs[p].instrs.push(x);
    proof {
        assert(block_views(bbs@) =~= hoisted(bs, p as int, k as int, i as int)) by {
            assert(bs[k as int][i as int] == x@);
            assert(bbs@[k as int].ins() =~= bs[k as int].remove(i as int));
            assert(bbs@[p as int].ins() =~= bs[p as int].push(x@));
        }
    }
}

/// One step of code motion changes nothing, or moves one instruction of a
/// block of the loop (other than the header) to the end of the pre-header
/// `p`, leaving every other block as it was. The instruction moved
/// defines a variable, has no effect, is neither a `jmp` nor a `br`, reads
/// no memory (it is not a `load`), cannot fail (it is not a `div`), and
/// reads only variables that no instruction of the loop defines.
pub proof fn lemma_licm_step_moves_invariant(bs: Seq<Seq<InstrView>>, p: int, l: Set<int>, r: Set<int>)
    requires
        0 <= p < bs.len(),
        !r.contains(p),
    ensures
        licm_step(bs, p, l, r) == bs || exists|k: int, i: int|
            #![trigger bs[k][i]]
            {
                &&& r.contains(k)
                &&& 0 <= k < bs.len()
                &&& 0 <= i < bs[k].len()
                &&& k != p
                &&& licm_step(bs, p, l, r)[k] == bs[k].remove(i)
                &&& licm_step(bs, p, l, r)[p] == bs[p].push(bs[k][i])
                &&& licm_step(bs, p, l, r).len() == bs.len()
                &&& forall|m: int| 0 <= m < bs.len() && m != k && m != p ==> #[trigger] licm_step(bs, p, l, r)[m] == bs[m]
                &&& bs[k][i] is Opcode
                &&& bs[k][i]->Opcode_0.dest is Some
                &&& !bs[k][i]->Opcode_0.has_effect()
                &&& !bs[k][i]->Opcode_0.is_control()
                &&& !(bs[k][i]->Opcode_0.kind is Load)
                &&& !(bs[k][i]->Opcode_0.kind is Div)
                &&& forall|j: int, k2: int, i2: int|
                    0 <= j < bs[k][i].uses().len() && l.contains(k2) && 0 <= k2 < bs.len() && 0 <= i2 < bs[k2].len()
                        ==> #[trigger] bs[k2][i2].result() != Some(#[trigger] bs[k][i].uses()[j])
            },
{
    if exists|k: int, i: int| #[trigger] first_invariant(bs, l, r, k, i) {
        let (k, i) = choose|k: int, i: int| #[trigger] first_invariant(bs, l, r, k, i);
        let s = licm_step(bs, p, l, r);
        assert(s == hoisted(bs, p, k, i));
        assert forall|j: int, k2: int, i2: int|
            0 <= j < bs[k][i].uses().len() && l.contains(k2) && 0 <= k2 < bs.len() && 0 <= i2 < bs[k2].len()
                implies #[trigger] bs[k2][i2].result() != Some(#[trigger] bs[k][i].uses()[j]) by {
            assert(!defined_in(bs, l, bs[k][i].uses()[j], bs.len() as int, 0));
        }
        assert(s[k] == bs[k].remove(i));
    }
}

/// Code motion only adds to the pre-header `p`, after what it held, and
/// what it adds has no effect and reads no memory: no step moves a `load`,
/// a `store` or a `call` before the loop.
pub proof fn lemma_pre_header_gains_no_load(bs: Seq<Seq<InstrView>>, p: int, l: Set<int>, r: Set<int>, t: nat)
    requires
        0 <= p < bs.len(),
        !r.contains(p),
    ensures
        licm_steps(bs, p, l, r, t).len() == bs.len(),
        licm_steps(bs, p, l, r, t)[p].len() >= bs[p].len(),
        forall|q: int| 0 <= q < bs[p].len() ==> #[trigger] licm_steps(bs, p, l, r, t)[p][q] == bs[p][q],
        forall|q: int|
            bs[p].len() <= q < licm_steps(bs, p, l, r, t)[p].len() ==> {
                let x = #[trigger] licm_steps(bs, p, l, r, t)[p][q];
                &&& x is Opcode
                &&& !x->Opcode_0.has_effect()
                &&& !(x->Opcode_0.kind is Load)
            },
    decreases t,
{
    if t > 0 {
        lemma_pre_header_gains_no_load(bs, p, l, r, (t - 1) as nat);
        let prev = licm_steps(bs, p, l, r, (t - 1) as nat);
        lemma_licm_step_moves_invariant(prev, p, l, r);
        let cur = licm_steps(bs, p, l, r, t);
        assert(cur == licm_step(prev, p, l, r));
        if cur != prev {
            let (k, i) = choose|k: int, i: int|
                #![trigger prev[k][i]]
                {
                    &&& r.contains(k)
                    &&& 0 <= k < prev.len()
                    &&& 0 <= i < prev[k].len()
                    &&& k != p
                    &&& licm_step(prev, p, l, r)[k] == prev[k].remove(i)
                    &&& licm_step(prev, p, l, r)[p] == prev[p].push(prev[k][i])
                    &&& licm_step(prev, p, l, r).len() == prev.len()
                    &&& forall|m: int| 0 <= m < prev.len() && m != k && m != p ==> #[trigger] licm_step(prev, p, l, r)[m] == prev[m]
                    &&& prev[k][i] is Opcode
                    &&& prev[k][i]->Opcode_0.dest is Some
                    &&& !prev[k][i]->Opcode_0.has_effect()
                    &&& !prev[k][i]->Opcode_0.is_control()
                    &&& !(prev[k][i]->Opcode_0.kind is Load)
                    &&& !(prev[k][i]->Opcode_0.kind is Div)
                    &&& forall|j: int, k2: int, i2: int|
                        0 <= j < prev[k][i].uses().len() && l.contains(k2) && 0 <= k2 < prev.len() && 0 <= i2 < prev[k2].len()
                            ==> #[trigger] prev[k2][i2].result() != Some(#[trigger] prev[k][i].uses()[j])
                };
            assert(cur[p] == prev[p].push(prev[k][i]));
            assert forall|q: int| 0 <= q < bs[p].len() implies #[trigger] cur[p][q] == bs[p][q] by {
                assert(cur[p][q] == prev[p][q]);
            }
            assert forall|q: int| bs[p].len() <= q < cur[p].len() implies {
                let x = #[trigger] cur[p][q];
                &&& x is Opcode
                &&& !x->Opcode_0.has_effect()
                &&& !(x->Opcode_0.kind is Load)
            } by {
                if q < prev[p].len() {
                    assert(cur[p][q] == prev[p][q]);
                }
            }
        }
    }
}

/// One step of code motion on a loop: moves its first invariant
/// instruction to the end of the pre-header `p`; returns whether one moved.
fn licm_loop(bbs: &mut Vec<BasicBlock>, p: usize, in_loop: &Vec<bool>, in_body: &Vec<bool>) -> (changed: bool)
    requires
        in_loop@.len() == old(bbs)@.len(),
        in_body@.len() == old(bbs)@.len(),
        p < old(bbs)@.len(),
        !in_body@[p as int],
    ensures
        changed == !licm_done(block_views(old(bbs)@), flagged(in_loop@), flagged(in_body@)),
        changed == exists|k: int, i: int| #[trigger] first_invariant(block_views(old(bbs)@), flagged(in_loop@), flagged(in_body@), k, i),
        block_views(final(bbs)@) == licm_step(block_views(old(bbs)@), p as int, flagged(in_loop@), flagged(in_body@)),
        same_shape(old(bbs)@, final(bbs)@),
{
    let ghost bs = block_views(bbs@);
    let ghost l = flagged(in_loop@);
    let ghost r = flagged(in_body@);
    match find_first_invariant(bbs, in_loop, in_body) {
        Some((k, i)) => {
            proof {
                let (k2, i2) = choose|k2: int, i2: int| #[trigger] first_invariant(bs, l, r, k2, i2);
                assert(first_invariant(bs, l, r, k2, i2));
                if k2 != k || i2 != i {
                    if k2 < k || (k2 == k && i2 < i) {
                        assert(!invariant_at(bs, l, r, k2, i2));
                    } else {
                        assert(!invariant_at(bs, l, r, k as int, i as int));
                    }
                }
                assert(invariant_at(bs, l, r, k as int, i as int));
            }
            hoist_instr(bbs, p, k, i);
            true
        },
        None => {
            proof {
                assert(!exists|k: int, i: int| #[trigger] first_invariant(bs, l, r, k, i));
            }
            false
        },
    }
}

/// Code motion on a loop until no invariant instruction is left: each step
/// moves the first invariant instruction to the end of the pre-header `p`.
/// Returns whether any moved.
pub fn hoist_until_done(bbs: &mut Vec<BasicBlock>, p: usize, in_loop: &Vec<bool>, in_body: &Vec<bool>) -> (changed: bool)
    requires
        in_loop@.len() == old(bbs)@.len(),
        in_body@.len() == old(bbs)@.len(),
        p < old(bbs)@.len(),
        !in_body@[p as int],
    ensures
        same_shape(old(bbs)@, final(bbs)@),
        exists|t: nat|
            block_views(final(bbs)@) == #[trigger] licm_steps(block_views(old(bbs)@), p as int, flagged(in_loop@), flagged(in_body@), t),
        licm_done(block_views(final(bbs)@), flagged(in_loop@), flagged(in_body@)),
        changed == !licm_done(block_views(old(bbs)@), flagged(in_loop@), flagged(in_body@)),
{
    let ghost v0 = block_views(bbs@);
    let ghost b0 = bbs@;
    let ghost l = flagged(in_loop@);
    let ghost r = flagged(in_body@);
    let mut changed = false;
    let mut go = true;
    let ghost mut t: nat = 0;
    while go
        invariant
            l == flagged(in_loop@),
            r == flagged(in_body@),
            in_loop@.len() == bbs@.len(),
            in_body@.len() == bbs@.len(),
            p < bbs@.len(),
            !r.contains(p as int),
            same_shape(b0, bbs@),
            block_views(bbs@) == licm_steps(v0, p as int, l, r, t),
            changed == (t > 0),
            t > 0 ==> !licm_done(v0, l, r),
            t == 0 ==> block_views(bbs@) == v0,
            !go ==> licm_done(block_views(bbs@), l, r),
        decreases region_len(block_views(bbs@), r) + if go { 1nat } else { 0nat },
    {
        let ghost cur = block_views(bbs@);
        let ghost before = bbs@;
        let c = licm_loop(bbs, p, in_loop, in_body);
        if c {
            proof {
                let (k, i) = choose|k: int, i: int| #[trigger] first_invariant(cur, l, r, k, i);
                lemma_region_len_update(cur, r, k, cur[k].remove(i));
                lemma_region_len_update(cur.update(k, cur[k].remove(i)), r, p as int, cur[p as int].push(cur[k][i]));
                assert(licm_steps(v0, p as int, l, r, t + 1) == licm_step(licm_steps(v0, p as int, l, r, t), p as int, l, r));
                t = t + 1;
            }
            changed = true;
        } else {
            go = false;
        }
        assert(same_shape(b0, bbs@)) by {
            assert forall|m: int| 0 <= m < b0.len() implies #[trigger] b0[m].label == bbs@[m].label by {
                assert(before[m] == before[m]);
            }
        }
    }
    changed
}

/// `w` goes from block to block along predecessor links.
pub open spec fn pred_walk(bbs: Seq<BasicBlock>, w: Seq<usize>) -> bool {
    &&& w.len() > 0
    &&& forall|i: int| 0 <= i < w.len() ==> (#[trigger] w[i] as int) < bbs.len()
    &&& forall|i: int| 0 <= i < w.len() - 1 ==> #[trigger] bbs[w[i] as int].in_bb_indices@.contains(w[i + 1])
}

/// Block `x` belongs to the body of the loop with header `hd`, pre-header
/// `pre` and back node `bk`: going back along predecessor links from `bk`
/// reaches `x` without passing through the header or the pre-header.
pub open spec fn in_loop_body(bbs: Seq<BasicBlock>, hd: usize, pre: usize, bk: usize, x: usize) -> bool {
    exists|w: Seq<usize>|
        #[trigger] pred_walk(bbs, w) && w[0] == bk && w.last() == x && forall|i: int|
            0 <= i < w.len() ==> #[trigger] w[i] != hd && w[i] != pre
}

/// Every predecessor of a flagged block, other than the header and the
/// pre-header, is flagged.
pub open spec fn body_closed(bbs: Seq<BasicBlock>, marked: Seq<bool>, hd: usize, pre: usize, x: usize) -> bool {
    forall|y: usize| #[trigger] bbs[x as int].in_bb_indices@.contains(y) && y != hd && y != pre ==> marked[y as int]
}

proof fn lemma_closed_walk(bbs: Seq<BasicBlock>, marked: Seq<bool>, hd: usize, pre: usize, w: Seq<usize>, i: int)
    requires
        pred_walk(bbs, w),
        marked.len() == bbs.len(),
        marked[w[0] as int],
        forall|j: int| 0 <= j < w.len() ==> #[trigger] w[j] != hd && w[j] != pre,
        forall|x: usize| (x as int) < bbs.len() && marked[x as int] ==> #[trigger] body_closed(bbs, marked, hd, pre, x),
        0 <= i < w.len(),
    ensures
        marked[w[i] as int],
    decreases i,
{
    if i > 0 {
        lemma_closed_walk(bbs, marked, hd, pre, w, i - 1);
        assert(bbs[w[i - 1] as int].in_bb_indices@.contains(w[(i - 1) + 1]));
        assert(body_closed(bbs, marked, hd, pre, w[i - 1]));
        assert(w[i] != hd && w[i] != pre);
    }
}

/// The blocks of the loop with header `hd`, pre-header `pre` and back node
/// `bk`, the header aside: those found going back along predecessor links
/// from `bk` without passing through the header or the pre-header.
pub fn loop_body(bbs: &Vec<BasicBlock>, hd: usize, pre: usize, bk: usize) -> (r: Vec<bool>)
    requires
        cfg_wf(bbs@),
        bk < bbs@.len(),
    ensures
        r@.len() == bbs@.len(),
        forall|x: usize| (x as int) < bbs@.len() ==> (#[trigger] r@[x as int] <==> in_loop_body(bbs@, hd, pre, bk, x)),
{
    let ghost g = bbs@;
    let m = bbs.len();
    let mut marked: Vec<bool> = Vec::new();
    let mut i: usize = 0;
    while i < m
        invariant
            i <= m,
            marked@.len() == i,
            forall|k: int| 0 <= k < i ==> !marked@[k],
        decreases m - i,
    {
        marked.push(false);
        i += 1;
    }
    if bk == hd || bk == pre {
        proof {
            assert forall|x: usize| (x as int) < m implies (#[trigger] marked@[x as int] <==> in_loop_body(g, hd, pre, bk, x)) by {
                if in_loop_body(g, hd, pre, bk, x) {
                    let w = choose|w: Seq<usize>|
                        #[trigger] pred_walk(g, w) && w[0] == bk && w.last() == x && forall|i: int|
                            0 <= i < w.len() ==> #[trigger] w[i] != hd && w[i] != pre;
                    assert(w[0] != hd && w[0] != pre);
                }
            }
        }
        return marked;
    }
    marked.set(bk, true);
    proof {
        let w = seq![bk];
        assert(pred_walk(g, w));
        assert(forall|i: int| 0 <= i < w.len() ==> #[trigger] w[i] != hd && w[i] != pre);
        assert(in_loop_body(g, hd, pre, bk, bk));
    }
    let mut work: Vec<usize> = vec![bk];
    while work.len() > 0
        invariant
            m == g.len(),
            g == bbs@,
            cfg_wf(g),
            bk < m,
            marked@.len() == m,
            marked@[bk as int],
            forall|q: int| 0 <= q < work@.len() ==> (#[trigger] work@[q] as int) < m && marked@[work@[q] as int],
            forall|x: usize| (x as int) < m && #[trigger] marked@[x as int] ==> in_loop_body(g, hd, pre, bk, x),
            forall|x: usize|
                (x as int) < m && marked@[x as int] && !work@.contains(x) ==> #[trigger] body_closed(g, marked@, hd, pre, x),
        decreases count_unvisited(marked@), work@.len(),
    {
        let ghost w_before = work@;
        let node = work.pop().unwrap();
        assert(w_before[w_before.len() - 1] == node);
        assert(work@ =~= w_before.drop_last());
        assert forall|x: usize|
            (x as int) < m && marked@[x as int] && !work@.contains(x) && x != node implies #[trigger] body_closed(g, marked@, hd, pre, x) by {
            if w_before.contains(x) {
                let q = choose|q: int| 0 <= q < w_before.len() && w_before[q] == x;
                assert(work@[q] == x);
            }
        }
        let ghost c0 = count_unvisited(marked@);
        let ghost w0 = work@.len();
        let mut parent: usize = 0;
        while parent < m
            invariant
                m == g.len(),
                g == bbs@,
                cfg_wf(g),
                bk < m,
                node < m,
                marked@.len() == m,
                marked@[bk as int],
                marked@[node as int],
                parent <= m,
                forall|q: int| 0 <= q < work@.len() ==> (#[trigger] work@[q] as int) < m && marked@[work@[q] as int],
                forall|x: usize| (x as int) < m && #[trigger] marked@[x as int] ==> in_loop_body(g, hd, pre, bk, x),
                forall|x: usize|
                    (x as int) < m && marked@[x as int] && !work@.contains(x) && x != node ==> #[trigger] body_closed(g, marked@, hd, pre, x),
                forall|y: usize| y < parent && #[trigger] g[node as int].in_bb_indices@.contains(y) && y != hd && y != pre ==> marked@[y as int],
                count_unvisited(marked@) + (work@.len() - w0) == c0,
                work@.len() >= w0,
            decreases m - parent,
        {
            if bbs[node].in_bb_indices.contains(&parent) && parent != hd && parent != pre && !marked[parent] {
                proof {
                    let w = choose|w: Seq<usize>|
                        #[trigger] pred_walk(g, w) && w[0] == bk && w.last() == node && forall|i: int|
                            0 <= i < w.len() ==> #[trigger] w[i] != hd && w[i] != pre;
                    let w2 = w.push(parent);
                    assert forall|i: int| 0 <= i < w2.len() - 1 implies #[trigger] g[w2[i] as int].in_bb_indices@.contains(w2[i + 1]) by {
                        if i < w.len() - 1 {
                            assert(g[w[i] as int].in_bb_indices@.contains(w[i + 1]));
                        } else {
                            assert(w2[i] == node);
                        }
                    }
                    assert(forall|i: int| 0 <= i < w2.len() ==> (#[trigger] w2[i] as int) < g.len());
                    assert(forall|i: int| 0 <= i < w2.len() ==> #[trigger] w2[i] != hd && w2[i] != pre);
                    assert(pred_walk(g, w2) && w2[0] == bk && w2.last() == parent);
                    lemma_count_mark(marked@, parent as int);
                }
                let ghost wk = work@;
                let ghost mk = marked@;
                marked.set(parent, true);
                work.push(parent);
                proof {
                    assert(work@[work@.len() - 1] == parent);
                    assert forall|x: usize|
                        (x as int) < m && marked@[x as int] && !work@.contains(x) && x != node implies #[trigger] body_closed(g, marked@, hd, pre, x) by {
                        assert(x != parent);
                        assert(!wk.contains(x)) by {
                            if wk.contains(x) {
                                let q = choose|q: int| 0 <= q < wk.len() && wk[q] == x;
                                assert(work@[q] == x);
                            }
                        }
                        assert(body_closed(g, mk, hd, pre, x));
                    }
                    assert forall|q: int| 0 <= q < work@.len() implies (#[trigger] work@[q] as int) < m && marked@[work@[q] as int] by {
                        if q < wk.len() {
                            assert(work@[q] == wk[q]);
                        }
                    }
                }
            }
            parent += 1;
        }
        proof {
            assert(body_closed(g, marked@, hd, pre, node)) by {
                assert forall|y: usize| #[trigger] g[node as int].in_bb_indices@.contains(y) && y != hd && y != pre implies marked@[y as int] by {
                    assert((y as int) < g.len());
                }
            }
            assert forall|x: usize| (x as int) < m && marked@[x as int] && !work@.contains(x) implies #[trigger] body_closed(g, marked@, hd, pre, x) by {
                if x != node {
                }
            }
        }
    }
    proof {
        assert forall|x: usize| (x as int) < m implies (#[trigger] marked@[x as int] <==> in_loop_body(g, hd, pre, bk, x)) by {
            if in_loop_body(g, hd, pre, bk, x) {
                let w = choose|w: Seq<usize>|
                    #[trigger] pred_walk(g, w) && w[0] == bk && w.last() == x && forall|i: int|
                        0 <= i < w.len() ==> #[trigger] w[i] != hd && w[i] != pre;
                assert forall|z: usize| (z as int) < g.len() && marked@[z as int] implies #[trigger] body_closed(g, marked@, hd, pre, z) by {
                    assert(!work@.contains(z));
                }
                lemma_closed_walk(g, marked@, hd, pre, w, w.len() - 1);
            }
        }
    }
    marked
}

/// A natural loop: its header, the block whose edge jumps back to the
/// header, and the other blocks of the loop.
pub struct Loop {
    pub header_idx: usize,
    /// The block that jumps back to the header.
    pub back_node_idx: usize,
    /// Every block of the loop but the header and the back node.
    pub nodes: Vec<usize>,
}

/// The edge from block `k` to block `j` is a back edge: `j` dominates `k`.
pub open spec fn is_back_edge(bbs: Seq<BasicBlock>, k: int, j: int) -> bool {
    &&& 0 <= k < bbs.len()
    &&& 0 <= j < bbs.len()
    &&& bbs[k].out_bb_indices@.contains(j as usize)
    &&& dominators_of(bbs, k as usize).contains(j as usize)
}

/// Loop `x` comes before loop `y`, each given as (header, back node): by
/// back node, then by header.
pub open spec fn edge_before(x: (usize, usize), y: (usize, usize)) -> bool {
    x.1 < y.1 || (x.1 == y.1 && x.0 < y.0)
}

/// `e` lists every back edge of `bbs` once, as (header, back node), in
/// order.
pub open spec fn lists_back_edges(bbs: Seq<BasicBlock>, e: Seq<(usize, usize)>) -> bool {
    &&& forall|q: int| 0 <= q < e.len() ==> is_back_edge(bbs, (#[trigger] e[q]).1 as int, e[q].0 as int)
    &&& forall|q1: int, q2: int| 0 <= q1 < q2 < e.len() ==> edge_before(#[trigger] e[q1], #[trigger] e[q2])
    &&& forall|k: int, j: int| #[trigger] is_back_edge(bbs, k, j) ==> exists|q: int| 0 <= q < e.len() && #[trigger] e[q] == (j as usize, k as usize)
}

/// Where loop `j` of `e` stands, as (header, back node), once the
/// pre-headers of the first `t` loops are in: each insertion at a header
/// moves every index at or after it up by one.
pub open spec fn loop_pos(e: Seq<(usize, usize)>, j: int, t: nat) -> (int, int)
    decreases t,
{
    if t == 0 {
        (e[j].0 as int, e[j].1 as int)
    } else {
        let h = loop_pos(e, t - 1, (t - 1) as nat).0;
        let prev = loop_pos(e, j, (t - 1) as nat);
        (shift(prev.0, h), shift(prev.1, h))
    }
}

/// The blocks of the loop with header `hd`, pre-header `pre` and back node
/// `bk`, the header aside.
pub open spec fn body_set(bbs: Seq<BasicBlock>, hd: int, pre: int, bk: int) -> Set<int> {
    Set::new(|x: int| 0 <= x < bbs.len() && in_loop_body(bbs, hd as usize, pre as usize, bk as usize, x as usize))
}

/// `b` is `mid` after code motion on the loop with pre-header `p`, header
/// `hd` and back node `bk`, step by step until no instruction of the loop
/// is invariant; `moved` tells whether an instruction was invariant at the
/// start, that is, whether any moved.
pub open spec fn hoisted_loop(mid: Seq<BasicBlock>, b: Seq<BasicBlock>, p: int, hd: int, bk: int, moved: bool) -> bool {
    let r = body_set(mid, hd, p, bk);
    let l = r.insert(hd);
    &&& same_shape(mid, b)
    &&& exists|t: nat| block_views(b) == #[trigger] licm_steps(block_views(mid), p, l, r, t)
    &&& licm_done(block_views(b), l, r)
    &&& moved == !licm_done(block_views(mid), l, r)
}

/// One loop processed: the pre-header of the loop with header `h` and back
/// node `bk` is inserted, then its invariant instructions move there;
/// `moved` tells whether any did.
pub open spec fn licm_stage(a: Seq<BasicBlock>, b: Seq<BasicBlock>, h: int, bk: int, moved: bool) -> bool {
    exists|mid: Seq<BasicBlock>| #[trigger] pre_header_inserted(a, mid, h, bk) && hoisted_loop(mid, b, h, h + 1, shift(bk, h), moved)
}

/// What code motion does to function `f0`, giving `f1` and `changed`, told
/// through its blocks `b0`, its back edges `e`, the blocks after each loop,
/// `chain`, and whether an instruction moved in each loop, `moved`: each
/// loop in turn gets its pre-header and loses its invariant instructions;
/// the function is rebuilt from the last blocks when an instruction moved,
/// and left alone otherwise. The loops run out only when there are no more,
/// or when the number of blocks reaches the largest a `usize` can count.
pub open spec fn licm_trace(
    f0: Function,
    f1: Function,
    changed: bool,
    b0: Seq<BasicBlock>,
    e: Seq<(usize, usize)>,
    chain: Seq<Seq<BasicBlock>>,
    moved: Seq<bool>,
) -> bool {
    &&& is_block_list(b0, views(f0.instrs@))
    &&& lists_back_edges(b0, e)
    &&& 1 <= chain.len() <= e.len() + 1
    &&& chain[0] == b0
    &&& chain.len() < e.len() + 1 ==> b0.len() + chain.len() - 1 >= usize::MAX - 1
    &&& moved.len() == chain.len() - 1
    &&& forall|t: int|
        0 <= t < chain.len() - 1 ==> licm_stage(
            #[trigger] chain[t],
            chain[t + 1],
            loop_pos(e, t, t as nat).0,
            loop_pos(e, t, t as nat).1,
            moved[t],
        )
    &&& changed == moved.contains(true)
    &&& changed ==> views(f1.instrs@) == block_views(chain.last()).flatten()
    &&& !changed ==> f1 == f0
    &&& f1.name == f0.name
    &&& f1.args == f0.args
    &&& f1.return_type == f0.return_type
}

/// Code motion turns `f0` into `f1` and reports `changed`.
pub open spec fn licm_applied(f0: Function, f1: Function, changed: bool) -> bool {
    exists|b0: Seq<BasicBlock>, e: Seq<(usize, usize)>, chain: Seq<Seq<BasicBlock>>, moved: Seq<bool>|
        #[trigger] licm_trace(f0, f1, changed, b0, e, chain, moved)
}

/// The loops given as (header, back node).
pub open spec fn loop_edges(loops: Seq<Loop>) -> Seq<(usize, usize)> {
    loops.map_values(|l: Loop| (l.header_idx, l.back_node_idx))
}

/// The loops of the blocks, one per back edge, in order: by back node, then
/// by header.
fn find_loops(bbs: &Vec<BasicBlock>, dom_context: &DomContext) -> (loops: Vec<Loop>)
    requires
        dom_context.bbs@.len() == bbs@.len(),
        forall|v: int| 0 <= v < bbs@.len() ==> (#[trigger] dom_context.bbs@[v]).dominators@ == dominators_of(bbs@, v as usize),
    ensures
        lists_back_edges(bbs@, loop_edges(loops@)),
{
    broadcast use vstd::std_specs::hash::group_hash_axioms;

    let ghost b0 = bbs@;
    let n = bbs.len();
    let mut loops: Vec<Loop> = Vec::new();
    let ghost mut e: Seq<(usize, usize)> = seq![];
    let mut bb_idx: usize = 0;
    while bb_idx < n
        invariant
            n == bbs@.len(),
            bbs@ == b0,
            dom_context.bbs@.len() == n,
            forall|v: int| 0 <= v < n ==> (#[trigger] dom_context.bbs@[v]).dominators@ == dominators_of(b0, v as usize),
            bb_idx <= n,
            loops@.len() == e.len(),
            forall|q: int| 0 <= q < e.len() ==> (#[trigger] loops@[q]).header_idx == e[q].0 && loops@[q].back_node_idx == e[q].1,
            forall|q: int| 0 <= q < e.len() ==> is_back_edge(b0, (#[trigger] e[q]).1 as int, e[q].0 as int),
            forall|q1: int, q2: int| 0 <= q1 < q2 < e.len() ==> edge_before(#[trigger] e[q1], #[trigger] e[q2]),
            forall|q: int| 0 <= q < e.len() ==> (#[trigger] e[q]).1 < bb_idx,
            forall|k: int, j: int|
                #[trigger] is_back_edge(b0, k, j) && k < bb_idx ==> exists|q: int| 0 <= q < e.len() && #[trigger] e[q] == (j as usize, k as usize),
        decreases n - bb_idx,
    {
        let mut out_bb_idx: usize = 0;
        while out_bb_idx < n
            invariant
                n == bbs@.len(),
                bbs@ == b0,
                dom_context.bbs@.len() == n,
                forall|v: int| 0 <= v < n ==> (#[trigger] dom_context.bbs@[v]).dominators@ == dominators_of(b0, v as usize),
                bb_idx < n,
                out_bb_idx <= n,
                loops@.len() == e.len(),
                forall|q: int| 0 <= q < e.len() ==> (#[trigger] loops@[q]).header_idx == e[q].0 && loops@[q].back_node_idx == e[q].1,
                forall|q: int| 0 <= q < e.len() ==> is_back_edge(b0, (#[trigger] e[q]).1 as int, e[q].0 as int),
                forall|q1: int, q2: int| 0 <= q1 < q2 < e.len() ==> edge_before(#[trigger] e[q1], #[trigger] e[q2]),
                forall|q: int| 0 <= q < e.len() ==> edge_before(#[trigger] e[q], (out_bb_idx, bb_idx)),
                forall|k: int, j: int|
                    #[trigger] is_back_edge(b0, k, j) && (k < bb_idx || (k == bb_idx && j < out_bb_idx)) ==> exists|q: int|
                        0 <= q < e.len() && #[trigger] e[q] == (j as usize, k as usize),
            decreases n - out_bb_idx,
        {
            if bbs[bb_idx].out_bb_indices.contains(&out_bb_idx) {
                let is_back: bool = dom_context.bbs[bb_idx].dominators.contains(&out_bb_idx);
                if is_back {
                    let ghost e0 = e;
                    loops.push(Loop { header_idx: out_bb_idx, back_node_idx: bb_idx, nodes: Vec::new() });
                    proof {
                        e = e.push((out_bb_idx, bb_idx));
                        assert(is_back_edge(b0, bb_idx as int, out_bb_idx as int));
                        assert forall|k: int, j: int|
                            #[trigger] is_back_edge(b0, k, j) && (k < bb_idx || (k == bb_idx && j < out_bb_idx + 1)) implies exists|q: int|
                                0 <= q < e.len() && #[trigger] e[q] == (j as usize, k as usize) by {
                            if k == bb_idx && j == out_bb_idx {
                                assert(e[e0.len() as int] == (j as usize, k as usize));
                            } else {
                                let q = choose|q: int| 0 <= q < e0.len() && #[trigger] e0[q] == (j as usize, k as usize);
                                assert(e[q] == e0[q]);
                            }
                        }
                        assert forall|q: int| 0 <= q < e.len() implies (#[trigger] loops@[q]).header_idx == e[q].0 && loops@[q].back_node_idx == e[q].1 by {
                            if q < e0.len() {
                                assert(e[q] == e0[q]);
                            }
                        }
                        assert forall|q1: int, q2: int| 0 <= q1 < q2 < e.len() implies edge_before(#[trigger] e[q1], #[trigger] e[q2]) by {
                            assert(e[q1] == e0[q1]);
                            if q2 < e0.len() {
                                assert(e[q2] == e0[q2]);
                            }
                        }
                    }
                }
            }
            assert forall|q: int| 0 <= q < e.len() implies edge_before(#[trigger] e[q], ((out_bb_idx + 1) as usize, bb_idx)) by {
                assert(edge_before(e[q], (out_bb_idx, bb_idx)) || e[q] == (out_bb_idx, bb_idx));
            }
            out_bb_idx += 1;
        }
        bb_idx += 1;
    }
    assert(loop_edges(loops@) =~= e);
    loops
}

/// Inserts the pre-header of the loop with header `h` and back node `bk`,
/// then moves the loop's invariant instructions there; returns the loop's
/// blocks other than the header and the back node, and whether an
/// instruction moved.
fn process_loop(bbs: &mut Vec<BasicBlock>, h: usize, bk: usize) -> (r: (Vec<usize>, bool))
    requires
        cfg_wf(old(bbs)@),
        h < old(bbs)@.len(),
        bk < old(bbs)@.len(),
        old(bbs)@.len() < usize::MAX - 1,
    ensures
        licm_stage(old(bbs)@, final(bbs)@, h as int, bk as int, r.1),
        final(bbs)@.len() == old(bbs)@.len() + 1,
        cfg_wf(final(bbs)@),
{
    let ghost a = bbs@;
    assert(indices_below_max(bbs@));
    create_and_insert_pre_header(bbs, h, bk);
    let ghost mid = bbs@;
    let hd = h + 1;
    let bk2 = if bk >= h { bk + 1 } else { bk };
    let in_body = loop_body(bbs, hd, h, bk2);
    let mut in_loop: Vec<bool> = Vec::new();
    let mut x: usize = 0;
    while x < bbs.len()
        invariant
            x <= bbs@.len(),
            in_body@.len() == bbs@.len(),
            in_loop@.len() == x,
            forall|y: int| 0 <= y < x ==> #[trigger] in_loop@[y] == (in_body@[y] || y == hd),
        decreases bbs@.len() - x,
    {
        in_loop.push(in_body[x] || x == hd);
        x += 1;
    }
    let ghost r = body_set(mid, hd as int, h as int, bk2 as int);
    proof {
        assert(flagged(in_body@) =~= r);
        assert(flagged(in_loop@) =~= r.insert(hd as int));
        if in_body@[h as int] {
            assert(in_loop_body(mid, hd, h, bk2, h));
            let w = choose|w: Seq<usize>|
                #[trigger] pred_walk(mid, w) && w[0] == bk2 && w.last() == h && forall|i: int|
                    0 <= i < w.len() ==> #[trigger] w[i] != hd && w[i] != h;
            assert(w[w.len() - 1] != h);
        }
    }
    let moved = hoist_until_done(bbs, h, &in_loop, &in_body);
    proof {
        assert(bk2 as int == shift(bk as int, h as int));
        assert(hoisted_loop(mid, bbs@, h as int, hd as int, bk2 as int, moved));
        assert(licm_stage(a, bbs@, h as int, bk as int, moved));
        assert forall|u: int, v: usize| 0 <= u < bbs@.len() && #[trigger] bbs@[u].out_bb_indices@.contains(v) implies v < bbs@.len() by {
            assert(mid[u].out_bb_indices@ == bbs@[u].out_bb_indices@);
        }
        assert forall|u: int, v: usize| 0 <= u < bbs@.len() && #[trigger] bbs@[u].in_bb_indices@.contains(v) implies v < bbs@.len() by {
            assert(mid[u].in_bb_indices@ == bbs@[u].in_bb_indices@);
        }
    }

    // the loop's blocks but the header and the back node
    let mut nodes: Vec<usize> = Vec::new();
    let mut x: usize = 0;
    while x < in_body.len()
        invariant
            x <= in_body@.len(),
        decreases in_body@.len() - x,
    {
        if in_body[x] && x != bk2 {
            nodes.push(x);
        }
        x += 1;
    }
    (nodes, moved)
}

/// Moves the loops from `from` on for a block inserted at `h`: every index
/// at or after `h` goes up by one.
fn shift_loops(loops: &mut Vec<Loop>, from: usize, h: usize)
    requires
        from <= old(loops)@.len(),
        forall|q: int| from <= q < old(loops)@.len() ==> (#[trigger] old(loops)@[q]).header_idx < usize::MAX && old(loops)@[q].back_node_idx < usize::MAX,
    ensures
        final(loops)@.len() == old(loops)@.len(),
        forall|q: int| 0 <= q < from ==> #[trigger] final(loops)@[q] == old(loops)@[q],
        forall|q: int|
            from <= q < old(loops)@.len() ==> (#[trigger] final(loops)@[q]).header_idx as int == shift(old(loops)@[q].header_idx as int, h as int)
                && final(loops)@[q].back_node_idx as int == shift(old(loops)@[q].back_node_idx as int, h as int),
{
    let ghost l0 = loops@;
    let mut q: usize = from;
    while q < loops.len()
        invariant
            loops@.len() == l0.len(),
            from <= q <= l0.len(),
            forall|q2: int| from <= q2 < l0.len() ==> (#[trigger] l0[q2]).header_idx < usize::MAX && l0[q2].back_node_idx < usize::MAX,
            forall|q2: int| 0 <= q2 < from ==> #[trigger] loops@[q2] == l0[q2],
            forall|q2: int| q <= q2 < l0.len() ==> #[trigger] loops@[q2] == l0[q2],
            forall|q2: int|
                from <= q2 < q ==> (#[trigger] loops@[q2]).header_idx as int == shift(l0[q2].header_idx as int, h as int)
                    && loops@[q2].back_node_idx as int == shift(l0[q2].back_node_idx as int, h as int),
        decreases l0.len() - q,
    {
        let qh = loops[q].header_idx;
        let qb = loops[q].back_node_idx;
        loops[q].header_idx = if qh >= h { qh + 1 } else { qh };
        loops[q].back_node_idx = if qb >= h { qb + 1 } else { qb };
        q += 1;
    }
}

/// Rebuilds the body of the function from the instructions of the blocks.
fn rebuild_body(function: &mut Function, bbs: &mut Vec<BasicBlock>)
    ensures
        views(final(function).instrs@) == block_views(old(bbs)@).flatten(),
        final(function).name == old(function).name,
        final(function).args == old(function).args,
        final(function).return_type == old(function).return_type,
{
    let ghost fin = block_views(bbs@);
    function.instrs.clear();
    let mut k: usize = 0;
    while k < bbs.len()
        invariant
            fin.len() == bbs@.len(),
            k <= bbs@.len(),
            forall|m: int| k <= m < bbs@.len() ==> (#[trigger] bbs@[m]).ins() == fin[m],
            views(function.instrs@) == fin.take(k as int).flatten(),
            function.name == old(function).name,
            function.args == old(function).args,
            function.return_type == old(function).return_type,
        decreases bbs@.len() - k,
    {
        let ghost before = function.instrs@;
        let ghost added = bbs@[k as int].instrs@;
        assert(views(added) == fin[k as int]);
        function.instrs.append(&mut bbs[k].instrs);
        assert(fin.take(k + 1) =~= fin.take(k as int).push(fin[k as int]));
        proof {
            fin.take(k as int).lemma_flatten_push(fin[k as int]);
        }
        assert(function.instrs@ == before + added);
        assert(views(function.instrs@) =~= views(before) + views(added));
        k += 1;
    }
    assert(fin.take(fin.len() as int) =~= fin);
}

/// Loop-invariant code motion on one function: finds the loops through the
/// back edges (an edge whose target dominates its source); then, loop by
/// loop, inserts the loop's pre-header, collects the loop's blocks, and
/// moves its invariant instructions to the pre-header one at a time until
/// none is left. Returns whether an instruction moved; the function is
/// rebuilt from the blocks only then.
fn licm_function(function: &mut Function) -> (changed: bool)
    ensures
        licm_applied(*old(function), *final(function), changed),
{
    let mut bbs: Vec<BasicBlock> = function.get_basic_blocks();
    let ghost b0 = bbs@;
    let n = bbs.len();
    assert(is_block_list(b0, views(function.instrs@)));
    assert(cfg_wf(bbs@));
    let dom_context: DomContext = get_dom_context(&bbs);
    let mut loops = find_loops(&bbs, &dom_context);
    let ghost e = loop_edges(loops@);

    // each loop in turn: its pre-header, its blocks, its invariant code
    let ghost mut chain: Seq<Seq<BasicBlock>> = seq![b0];
    let ghost mut moved_seq: Seq<bool> = seq![];
    let mut changed = false;
    let mut li: usize = 0;
    while li < loops.len() && bbs.len() < usize::MAX - 1
        invariant
            lists_back_edges(b0, e),
            n == b0.len(),
            loops@.len() == e.len(),
            li <= e.len(),
            chain.len() == li + 1,
            chain[0] == b0,
            chain[li as int] == bbs@,
            bbs@.len() == n + li,
            cfg_wf(bbs@),
            forall|q: int|
                li <= q < e.len() ==> (#[trigger] loops@[q]).header_idx == loop_pos(e, q, li as nat).0 && loops@[q].back_node_idx
                    == loop_pos(e, q, li as nat).1 && loops@[q].header_idx < bbs@.len() && loops@[q].back_node_idx < bbs@.len(),
            moved_seq.len() == li,
            forall|t: int|
                0 <= t < li ==> licm_stage(
                    #[trigger] chain[t],
                    chain[t + 1],
                    loop_pos(e, t, t as nat).0,
                    loop_pos(e, t, t as nat).1,
                    moved_seq[t],
                ),
            changed == moved_seq.contains(true),
            *function == *old(function),
        decreases e.len() - li,
    {
        let h = loops[li].header_idx;
        let bk = loops[li].back_node_idx;
        let ghost l_before = loops@;
        let (nodes, moved) = process_loop(&mut bbs, h, bk);
        let ghost moved0 = moved_seq;
        proof {
            chain = chain.push(bbs@);
            moved_seq = moved_seq.push(moved);
        }
        loops[li].nodes = nodes;
        shift_loops(&mut loops, li + 1, h);
        proof {
            assert forall|q: int|
                li + 1 <= q < e.len() implies (#[trigger] loops@[q]).header_idx == loop_pos(e, q, (li + 1) as nat).0
                    && loops@[q].back_node_idx == loop_pos(e, q, (li + 1) as nat).1 && loops@[q].header_idx < bbs@.len()
                    && loops@[q].back_node_idx < bbs@.len() by {
                assert(l_before[q].header_idx == loop_pos(e, q, li as nat).0);
            }
            assert forall|t: int|
                0 <= t < li + 1 implies licm_stage(
                    #[trigger] chain[t],
                    chain[t + 1],
                    loop_pos(e, t, t as nat).0,
                    loop_pos(e, t, t as nat).1,
                    moved_seq[t],
                ) by {
                if t == li {
                    assert(l_before[t].header_idx == h);
                } else {
                    assert(moved_seq[t] == moved0[t]);
                }
            }
            assert(moved_seq.contains(true) == (moved0.contains(true) || moved)) by {
                if moved {
                    assert(moved_seq[li as int] == true);
                }
                if moved_seq.contains(true) {
                    let i = choose|i: int| 0 <= i < moved_seq.len() && moved_seq[i] == true;
                    if i < li {
                        assert(moved0[i] == true);
                    }
                }
                if moved0.contains(true) {
                    let i = choose|i: int| 0 <= i < moved0.len() && moved0[i] == true;
                    assert(moved_seq[i] == true);
                }
            }
        }
        changed = changed || moved;
        li += 1;
    }

    if changed {
        rebuild_body(function, &mut bbs);
    }
    assert(licm_trace(*old(function), *function, changed, b0, e, chain, moved_seq));
    changed
}

/// Loop-invariant code motion on every function: each function goes
/// through `licm_function`, and the pass reports whether any was changed.
pub fn loop_invariant_code_motion_pass(program: &mut Program) -> (changed: bool)
    ensures
        final(program).functions@.len() == old(program).functions@.len(),
        exists|cs: Seq<bool>|
            {
                &&& cs.len() == old(program).functions@.len()
                &&& forall|k: int|
                    0 <= k < cs.len() ==> licm_applied(old(program).functions@[k], final(program).functions@[k], #[trigger] cs[k])
                &&& changed == cs.contains(true)
            },
{
    let mut changed: bool = false;
    let n = program.functions.len();
    let ghost mut cs: Seq<bool> = seq![];
    let mut k: usize = 0;
    while k < n
        invariant
            n == program.functions@.len(),
            n == old(program).functions@.len(),
            k <= n,
            cs.len() == k,
            forall|m: int| k <= m < n ==> program.functions@[m] == old(program).functions@[m],
            forall|m: int| 0 <= m < k ==> licm_applied(old(program).functions@[m], program.functions@[m], #[trigger] cs[m]),
            changed == cs.contains(true),
        decreases n - k,
    {
        let ghost before = program.functions@;
        let c = licm_function(&mut program.functions[k]);
        proof {
            let cs0 = cs;
            cs = cs.push(c);
            assert forall|m: int| 0 <= m < k + 1 implies licm_applied(old(program).functions@[m], program.functions@[m], #[trigger] cs[m]) by {
                if m < k {
                    assert(cs[m] == cs0[m]);
                    assert(program.functions@[m] == before[m]);
                }
            }
            assert(cs.contains(true) == (cs0.contains(true) || c)) by {
                if c {
                    assert(cs[k as int] == true);
                }
                if cs.contains(true) {
                    let i = choose|i: int| 0 <= i < cs.len() && cs[i] == true;
                    if i < k {
                        assert(cs0[i] == true);
                    }
                }
                if cs0.contains(true) {
                    let i = choose|i: int| 0 <= i < cs0.len() && cs0[i] == true;
                    assert(cs[i] == true);
                }
            }
        }
        changed = changed || c;
        k += 1;
    }
    changed
}

} // verus!
