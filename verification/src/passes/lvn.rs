//! Local value numbering: inside a basic block, an expression computed
//! again from the same operands, while neither the operands nor the
//! variable holding the first result have been reassigned, becomes a copy
//! of that variable.
use crate::ast::{
    block_partition, block_views, names, views, BasicBlock, Function, InstrView, Instruction, OpKind, OpView,
    OpcodeInstruction, Program,
};
use vstd::prelude::*;

verus! {

/// The operations whose result depends on their operands alone.
pub open spec fn is_value_op(k: OpKind) -> bool {
    match k {
        OpKind::Add | OpKind::Sub | OpKind::Mul | OpKind::Div | OpKind::Eq | OpKind::Lt | OpKind::Gt | OpKind::Le
        | OpKind::Ge | OpKind::And | OpKind::Or | OpKind::Not | OpKind::FAdd | OpKind::FSub | OpKind::FMul
        | OpKind::FDiv | OpKind::FEq | OpKind::FLt | OpKind::FGt | OpKind::FLe | OpKind::FGe => true,
        _ => false,
    }
}

/// The operations whose two operands can be swapped.
pub open spec fn is_commutative(k: OpKind) -> bool {
    match k {
        OpKind::Add | OpKind::Mul | OpKind::Eq | OpKind::And | OpKind::Or | OpKind::FAdd | OpKind::FMul
        | OpKind::FEq => true,
        _ => false,
    }
}

/// Operation `k` on `a` computes what operation `k2` on `a2` computes: the
/// same operation on the same operands, in either order when the
/// operation is commutative.
pub open spec fn same_expr(k: OpKind, a: Seq<Seq<char>>, k2: OpKind, a2: Seq<Seq<char>>) -> bool {
    k == k2 && (a == a2 || (is_commutative(k) && a.len() == 2 && a2 == seq![a[1], a[0]]))
}

/// An available expression: an operation, its operands, and the variable
/// holding its value.
pub type ExprView = (OpKind, Seq<Seq<char>>, Seq<char>);

/// The first entry of `t` that computes operation `k` on `a`.
pub open spec fn find_expr(t: Seq<ExprView>, k: OpKind, a: Seq<Seq<char>>) -> Option<int>
    decreases t.len(),
{
    if t.len() == 0 {
        None
    } else {
        match find_expr(t.drop_last(), k, a) {
            Some(q) => Some(q),
            None => if same_expr(t.last().0, t.last().1, k, a) {
                Some(t.len() - 1)
            } else {
                None
            },
        }
    }
}

/// The entries that survive an assignment to `d`: those that neither
/// read `d` nor are held in `d`.
pub open spec fn survivors(t: Seq<ExprView>, d: Seq<char>) -> Seq<ExprView> {
    t.filter(|e: ExprView| e.2 != d && !e.1.contains(d))
}

/// `d = id v` with type `typ`.
pub open spec fn copy_view(op: OpView, v: Seq<char>) -> InstrView {
    InstrView::Opcode(
        OpView { kind: OpKind::Id, args: Some(seq![v]), dest: op.dest, typ: op.typ, value: None, labels: seq![], funcs: seq![] },
    )
}

/// One instruction under value numbering, given the available expressions:
/// the instruction after it (a copy when its expression is available), the
/// available expressions after it, and whether it was replaced.
pub open spec fn lvn_inst(x: InstrView, t: Seq<ExprView>) -> (InstrView, Seq<ExprView>, bool) {
    match x {
        InstrView::Opcode(op) => match op.dest {
            Some(d) => {
                let a = op.args.unwrap_or(seq![]);
                let found = if is_value_op(op.kind) {
                    find_expr(t, op.kind, a)
                } else {
                    None
                };
                let t1 = survivors(t, d);
                match found {
                    Some(q) => (copy_view(op, t[q].2), t1, true),
                    None => if is_value_op(op.kind) && !a.contains(d) {
                        (x, t1.push((op.kind, a, d)), false)
                    } else {
                        (x, t1, false)
                    },
                }
            },
            None => (x, t, false),
        },
        _ => (x, t, false),
    }
}

/// Value numbering over the first `n` instructions of a block: the
/// instructions as rewritten, the available expressions after them, and
/// whether any was replaced.
pub open spec fn lvn_scan(b: Seq<InstrView>, n: nat) -> (Seq<InstrView>, Seq<ExprView>, bool)
    decreases n,
{
    if n == 0 || n > b.len() {
        (seq![], seq![], false)
    } else {
        let (out, t, ch) = lvn_scan(b, (n - 1) as nat);
        let (x2, t2, c2) = lvn_inst(b[n - 1], t);
        (out.push(x2), t2, ch || c2)
    }
}

/// Value numbering over a whole block.
pub open spec fn lvn_block(b: Seq<InstrView>) -> (Seq<InstrView>, bool) {
    let (out, _t, ch) = lvn_scan(b, b.len());
    (out, ch)
}

/// The available expressions of a table.
pub open spec fn table_view(t: Seq<(OpKind, Vec<String>, String)>) -> Seq<ExprView> {
    t.map_values(|e: (OpKind, Vec<String>, String)| (e.0, names(e.1), e.2@))
}

/// The operation of an instruction.
fn kind_of(op: &OpcodeInstruction) -> (k: OpKind)
    ensures
        k == op@.kind,
{
    match op {
        OpcodeInstruction::Const { .. } => OpKind::Const,
        OpcodeInstruction::Alloc { .. } => OpKind::Alloc,
        OpcodeInstruction::Call { .. } => OpKind::Call,
        OpcodeInstruction::Print { .. } => OpKind::Print,
        OpcodeInstruction::Free { .. } => OpKind::Free,
        OpcodeInstruction::Ret { .. } => OpKind::Ret,
        OpcodeInstruction::Id { .. } => OpKind::Id,
        OpcodeInstruction::Store { .. } => OpKind::Store,
        OpcodeInstruction::Ptradd { .. } => OpKind::Ptradd,
        OpcodeInstruction::Br { .. } => OpKind::Br,
        OpcodeInstruction::Or { .. } => OpKind::Or,
        OpcodeInstruction::Add { .. } => OpKind::Add,
        OpcodeInstruction::Sub { .. } => OpKind::Sub,
        OpcodeInstruction::Div { .. } => OpKind::Div,
        OpcodeInstruction::Mul { .. } => OpKind::Mul,
        OpcodeInstruction::FAdd { .. } => OpKind::FAdd,
        OpcodeInstruction::FSub { .. } => OpKind::FSub,
        OpcodeInstruction::FDiv { .. } => OpKind::FDiv,
        OpcodeInstruction::FMul { .. } => OpKind::FMul,
        OpcodeInstruction::Eq { .. } => OpKind::Eq,
        OpcodeInstruction::Gt { .. } => OpKind::Gt,
        OpcodeInstruction::Ge { .. } => OpKind::Ge,
        OpcodeInstruction::Lt { .. } => OpKind::Lt,
        OpcodeInstruction::Le { .. } => OpKind::Le,
        OpcodeInstruction::FEq { .. } => OpKind::FEq,
        OpcodeInstruction::FGt { .. } => OpKind::FGt,
        OpcodeInstruction::FGe { .. } => OpKind::FGe,
        OpcodeInstruction::FLt { .. } => OpKind::FLt,
        OpcodeInstruction::FLe { .. } => OpKind::FLe,
        OpcodeInstruction::And { .. } => OpKind::And,
        OpcodeInstruction::Not { .. } => OpKind::Not,
        OpcodeInstruction::Load { .. } => OpKind::Load,
        OpcodeInstruction::Jmp { .. } => OpKind::Jmp,
    }
}

/// The operands of a value operation.
fn value_args(op: &OpcodeInstruction) -> (r: Option<Vec<String>>)
    ensures
        r is Some <==> is_value_op(op@.kind),
        r matches Some(a) ==> op@.args == Some(names(a)) && op@.typ is Some,
{
    match op {
        OpcodeInstruction::Add { args, .. }
        | OpcodeInstruction::Sub { args, .. }
        | OpcodeInstruction::Mul { args, .. }
        | OpcodeInstruction::Div { args, .. }
        | OpcodeInstruction::Eq { args, .. }
        | OpcodeInstruction::Lt { args, .. }
        | OpcodeInstruction::Gt { args, .. }
        | OpcodeInstruction::Le { args, .. }
        | OpcodeInstruction::Ge { args, .. }
        | OpcodeInstruction::And { args, .. }
        | OpcodeInstruction::Or { args, .. }
        | OpcodeInstruction::Not { args, .. }
        | OpcodeInstruction::FAdd { args, .. }
        | OpcodeInstruction::FSub { args, .. }
        | OpcodeInstruction::FMul { args, .. }
        | OpcodeInstruction::FDiv { args, .. }
        | OpcodeInstruction::FEq { args, .. }
        | OpcodeInstruction::FLt { args, .. }
        | OpcodeInstruction::FGt { args, .. }
        | OpcodeInstruction::FLe { args, .. }
        | OpcodeInstruction::FGe { args, .. } => Some(crate::ast::clone_names(args)),
        _ => None,
    }
}

/// Whether the two lists hold the same names in the same order.
fn same_names_in_order(a: &Vec<String>, b: &Vec<String>) -> (r: bool)
    ensures
        r == (names(*a) == names(*b)),
{
    if a.len() != b.len() {
        assert(names(*a).len() != names(*b).len());
        return false;
    }
    let mut i: usize = 0;
    while i < a.len()
        invariant
            a@.len() == b@.len(),
            i <= a@.len(),
            forall|j: int| 0 <= j < i ==> names(*a)[j] == names(*b)[j],
        decreases a@.len() - i,
    {
        if a[i] != b[i] {
            assert(names(*a)[i as int] != names(*b)[i as int]);
            return false;
        }
        i += 1;
    }
    assert(names(*a) =~= names(*b));
    true
}

/// Whether operation `k` on `a` computes what operation `k2` on `a2` does.
fn same_expr_exec(k: OpKind, a: &Vec<String>, k2: OpKind, a2: &Vec<String>) -> (r: bool)
    ensures
        r == same_expr(k, names(*a), k2, names(*a2)),
{
    if k != k2 {
        return false;
    }
    if same_names_in_order(a, a2) {
        return true;
    }
    let commutative = match k {
        OpKind::Add | OpKind::Mul | OpKind::Eq | OpKind::And | OpKind::Or | OpKind::FAdd | OpKind::FMul | OpKind::FEq => true,
        _ => false,
    };
    assert(commutative == is_commutative(k));
    if commutative && a.len() == 2 && a2.len() == 2 {
        let swapped = a[0] == a2[1] && a[1] == a2[0];
        assert(swapped == (names(*a2) =~= seq![names(*a)[1], names(*a)[0]]));
        swapped
    } else {
        assert(seq![names(*a)[1], names(*a)[0]].len() == 2);
        false
    }
}

proof fn lemma_find_prefix(t: Seq<ExprView>, m: int, k: OpKind, a: Seq<Seq<char>>)
    requires
        0 <= m <= t.len(),
        find_expr(t.take(m), k, a) is Some,
    ensures
        find_expr(t, k, a) == find_expr(t.take(m), k, a),
    decreases t.len() - m,
{
    if m < t.len() {
        assert(t.take(m + 1).drop_last() =~= t.take(m));
        lemma_find_prefix(t, m + 1, k, a);
    } else {
        assert(t.take(m) =~= t);
    }
}

/// The first entry of the table that computes operation `k` on `a`.
fn find_in_table(table: &Vec<(OpKind, Vec<String>, String)>, k: OpKind, a: &Vec<String>) -> (r: Option<usize>)
    ensures
        r is Some <==> find_expr(table_view(table@), k, names(*a)) is Some,
        r matches Some(q) ==> find_expr(table_view(table@), k, names(*a)) == Some(q as int) && q < table@.len(),
{
    let ghost t = table_view(table@);
    let mut i: usize = 0;
    while i < table.len()
        invariant
            t == table_view(table@),
            i <= table@.len(),
            find_expr(t.take(i as int), k, names(*a)) is None,
        decreases table@.len() - i,
    {
        assert(t.take(i + 1).drop_last() =~= t.take(i as int));
        if same_expr_exec(table[i].0, &table[i].1, k, a) {
            assert(find_expr(t.take(i + 1), k, names(*a)) == Some(i as int));
            proof {
                lemma_find_prefix(t, i + 1, k, names(*a));
            }
            return Some(i);
        }
        i += 1;
    }
    assert(t.take(table@.len() as int) =~= t);
    None
}

/// The entries that survive an assignment to `d`.
fn survivors_exec(table: &Vec<(OpKind, Vec<String>, String)>, d: &String) -> (r: Vec<(OpKind, Vec<String>, String)>)
    ensures
        table_view(r@) == survivors(table_view(table@), d@),
{
    let ghost t = table_view(table@);
    let mut kept: Vec<(OpKind, Vec<String>, String)> = Vec::new();
    let mut i: usize = 0;
    while i < table.len()
        invariant
            t == table_view(table@),
            i <= table@.len(),
            table_view(kept@) == survivors(t.take(i as int), d@),
        decreases table@.len() - i,
    {
        proof {
            reveal_with_fuel(Seq::<_>::filter, 1);
            assert(t.take(i + 1).drop_last() =~= t.take(i as int));
        }
        let keep = table[i].2 != *d && !crate::passes::dce::contains_name(&table[i].1, d);
        if keep {
            let ghost before = table_view(kept@);
            let e = (table[i].0, crate::ast::clone_names(&table[i].1), table[i].2.clone());
            kept.push(e);
            assert(table_view(kept@) =~= before.push(t[i as int]));
        }
        i += 1;
    }
    assert(t.take(table@.len() as int) =~= t);
    kept
}

/// Local value numbering on one block: a value operation whose expression
/// is available becomes a copy of the variable holding it. Returns whether
/// an instruction was replaced.
pub fn lvn_bb(bb: &mut BasicBlock) -> (changed: bool)
    ensures
        final(bb).ins() == lvn_block(old(bb).ins()).0,
        changed == lvn_block(old(bb).ins()).1,
        final(bb).label == old(bb).label,
        final(bb).out_labels == old(bb).out_labels,
        final(bb).in_bb_indices == old(bb).in_bb_indices,
        final(bb).out_bb_indices == old(bb).out_bb_indices,
        final(bb).immediate_dominator_index == old(bb).immediate_dominator_index,
{
    let ghost b = bb.ins();
    let mut changed: bool = false;
    let mut table: Vec<(OpKind, Vec<String>, String)> = Vec::new();
    let n = bb.instrs.len();
    let mut l: usize = 0;
    while l < n
        invariant
            b == old(bb).ins(),
            n == bb.instrs@.len(),
            n == b.len(),
            l <= n,
            lvn_scan(b, l as nat).0.len() == l,
            forall|m: int| 0 <= m < l ==> #[trigger] bb.ins()[m] == lvn_scan(b, l as nat).0[m],
            forall|m: int| l <= m < n ==> #[trigger] bb.ins()[m] == b[m],
            table_view(table@) == lvn_scan(b, l as nat).1,
            changed == lvn_scan(b, l as nat).2,
            bb.label == old(bb).label,
            bb.out_labels == old(bb).out_labels,
            bb.in_bb_indices == old(bb).in_bb_indices,
            bb.out_bb_indices == old(bb).out_bb_indices,
            bb.immediate_dominator_index == old(bb).immediate_dominator_index,
        decreases n - l,
    {
        let ghost t0 = table_view(table@);
        let ghost x = b[l as int];
        let ghost ins0 = bb.ins();
        assert(ins0[l as int] == x);
        let mut replacement: Option<Instruction> = None;
        match &bb.instrs[l] {
            Instruction::Opcode(op) => match op.get_dest() {
                Some(d) => {
                    let kind = kind_of(op);
                    let args_opt = value_args(op);
                    let found = match &args_opt {
                        Some(a) => find_in_table(&table, kind, a),
                        None => None,
                    };
                    let held: Option<String> = match found {
                        Some(q) => Some(table[q].2.clone()),
                        None => None,
                    };
                    assert(held is Some <==> found is Some);
                    assert(found matches Some(q) ==> held.unwrap()@ == t0[q as int].2);
                    table = survivors_exec(&table, &d);
                    match held {
                        Some(v) => {
                            let typ = op.get_type().unwrap();
                            let ghost vv = v@;
                            let copy_args = vec![v];
                            assert(names(copy_args) =~= seq![vv]);
                            let r = Instruction::Opcode(OpcodeInstruction::Id { args: copy_args, dest: d, typ });
                            assert(r@ == copy_view(x->Opcode_0, vv));
                            replacement = Some(r);
                            changed = true;
                        },
                        None => {
                            if let Some(a) = args_opt {
                                if !crate::passes::dce::contains_name(&a, &d) {
                                    let ghost before = table_view(table@);
                                    table.push((kind, a, d));
                                    assert(table_view(table@) =~= before.push((x->Opcode_0.kind, x->Opcode_0.args.unwrap(), x->Opcode_0.dest.unwrap())));
                                }
                            }
                        },
                    }
                },
                None => {},
            },
            _ => {},
        }
        match replacement {
            Some(inst) => {
                bb.instrs.set(l, inst);
            },
            None => {},
        }
        assert(bb.ins()[l as int] == lvn_inst(x, t0).0);
        assert(table_view(table@) == lvn_inst(x, t0).1);
        assert forall|m: int| 0 <= m < n && m != l implies #[trigger] bb.ins()[m] == ins0[m] by {}
        l += 1;
    }
    changed
}

/// Local value numbering on one function; the body is rebuilt from the
/// blocks only when an instruction was replaced.
fn lvn_fn(function: &mut Function) -> (changed: bool)
    ensures
        ({
            let bs = block_partition(views(old(function).instrs@));
            &&& views(final(function).instrs@) == bs.map_values(|b: Seq<InstrView>| lvn_block(b).0).flatten()
            &&& changed == exists|k: int| 0 <= k < bs.len() && #[trigger] lvn_block(bs[k]).1
        }),
        !changed ==> final(function).instrs == old(function).instrs,
        final(function).name == old(function).name,
        final(function).args == old(function).args,
        final(function).return_type == old(function).return_type,
{
    broadcast use Seq::lemma_flatten_push;

    let mut changed: bool = false;
    let mut bbs = function.get_basic_blocks();
    let ghost bs = block_views(bbs@);
    let ghost numbered = bs.map_values(|b: Seq<InstrView>| lvn_block(b).0);
    let nb = bbs.len();
    let mut k: usize = 0;
    while k < nb
        invariant
            nb == bbs@.len(),
            bs.len() == nb,
            numbered == bs.map_values(|b: Seq<InstrView>| lvn_block(b).0),
            k <= nb,
            forall|m: int| 0 <= m < k ==> (#[trigger] bbs@[m]).ins() == numbered[m],
            forall|m: int| k <= m < nb ==> (#[trigger] bbs@[m]).ins() == bs[m],
            changed == exists|m: int| 0 <= m < k && #[trigger] lvn_block(bs[m]).1,
            function.name == old(function).name,
            function.args == old(function).args,
            function.return_type == old(function).return_type,
            function.instrs == old(function).instrs,
        decreases nb - k,
    {
        let bb_changed = lvn_bb(&mut bbs[k]);
        changed = changed || bb_changed;
        k += 1;
    }
    if changed {
        // flush the blocks back into the function
        function.instrs.clear();
        let mut k: usize = 0;
        while k < nb
            invariant
                nb == bbs@.len(),
                numbered.len() == nb,
                k <= nb,
                forall|m: int| k <= m < nb ==> (#[trigger] bbs@[m]).ins() == numbered[m],
                views(function.instrs@) == numbered.take(k as int).flatten(),
                function.name == old(function).name,
                function.args == old(function).args,
                function.return_type == old(function).return_type,
            decreases nb - k,
        {
            let ghost before = function.instrs@;
            let ghost added = bbs@[k as int].instrs@;
            assert(views(added) == numbered[k as int]);
            function.instrs.append(&mut bbs[k].instrs);
            assert(numbered.take(k + 1) =~= numbered.take(k as int).push(numbered[k as int]));
            proof {
                numbered.take(k as int).lemma_flatten_push(numbered[k as int]);
            }
            assert(function.instrs@ == before + added);
            assert(views(function.instrs@) =~= views(before) + views(added));
            k += 1;
        }
        assert(numbered.take(nb as int) =~= numbered);
    } else {
        assert(numbered =~= bs) by {
            assert forall|m: int| 0 <= m < nb implies numbered[m] == bs[m] by {
                lemma_lvn_unchanged(bs[m]);
            }
        }
    }
    changed
}

proof fn lemma_lvn_scan_unchanged(b: Seq<InstrView>, n: nat)
    requires
        n <= b.len(),
    ensures
        !lvn_scan(b, n).2 ==> lvn_scan(b, n).0 == b.take(n as int),
        lvn_scan(b, n).0.len() == n,
    decreases n,
{
    if n > 0 {
        lemma_lvn_scan_unchanged(b, (n - 1) as nat);
        assert(b.take(n as int) =~= b.take(n - 1).push(b[n - 1]));
    } else {
        assert(b.take(0) =~= Seq::<InstrView>::empty());
    }
}

/// A block in which value numbering replaced nothing is left as it was.
pub proof fn lemma_lvn_unchanged(b: Seq<InstrView>)
    ensures
        !lvn_block(b).1 ==> lvn_block(b).0 == b,
{
    lemma_lvn_scan_unchanged(b, b.len());
    assert(b.take(b.len() as int) =~= b);
}

/// Local value numbering on every function; returns whether any
/// instruction was replaced.
pub fn lvn_pass(program: &mut Program) -> (changed: bool)
    ensures
        final(program).functions@.len() == old(program).functions@.len(),
        forall|k: int|
            0 <= k < old(program).functions@.len() ==> {
                let f0 = #[trigger] old(program).functions@[k];
                let f1 = final(program).functions@[k];
                let bs = block_partition(views(f0.instrs@));
                &&& views(f1.instrs@) == bs.map_values(|b: Seq<InstrView>| lvn_block(b).0).flatten()
                &&& f1.name == f0.name
                &&& f1.args == f0.args
                &&& f1.return_type == f0.return_type
            },
        changed == exists|k: int, j: int|
            0 <= k < old(program).functions@.len() && 0 <= j < block_partition(views(old(program).functions@[k].instrs@)).len()
                && #[trigger] lvn_block(block_partition(views(old(program).functions@[k].instrs@))[j]).1,
{
    let mut changed: bool = false;
    let n = program.functions.len();
    let mut k: usize = 0;
    while k < n
        invariant
            n == old(program).functions@.len(),
            program.functions@.len() == n,
            k <= n,
            forall|m: int|
                0 <= m < k ==> {
                    let f0 = #[trigger] old(program).functions@[m];
                    let f1 = program.functions@[m];
                    let bs = block_partition(views(f0.instrs@));
                    &&& views(f1.instrs@) == bs.map_values(|b: Seq<InstrView>| lvn_block(b).0).flatten()
                    &&& f1.name == f0.name
                    &&& f1.args == f0.args
                    &&& f1.return_type == f0.return_type
                },
            forall|m: int| k <= m < n ==> #[trigger] program.functions@[m] == old(program).functions@[m],
            changed == exists|m: int, j: int|
                0 <= m < k && 0 <= j < block_partition(views(old(program).functions@[m].instrs@)).len()
                    && #[trigger] lvn_block(block_partition(views(old(program).functions@[m].instrs@))[j]).1,
        decreases n - k,
    {
        let c = lvn_fn(&mut program.functions[k]);
        changed = changed || c;
        k += 1;
    }
    changed
}

/// `x` is `x0`, or `x0` is a value operation turned into a copy into the
/// same destination.
pub open spec fn copied_from(x0: InstrView, x: InstrView) -> bool {
    ||| x == x0
    ||| (x0 matches InstrView::Opcode(op) && is_value_op(op.kind) && op.dest is Some && exists|v: Seq<char>|
        x == #[trigger] copy_view(op, v))
}

proof fn lemma_lvn_scan_in_place(b: Seq<InstrView>, n: nat)
    requires
        n <= b.len(),
    ensures
        lvn_scan(b, n).0.len() == n,
        forall|i: int| 0 <= i < n ==> copied_from(#[trigger] b[i], lvn_scan(b, n).0[i]),
    decreases n,
{
    if n > 0 {
        lemma_lvn_scan_in_place(b, (n - 1) as nat);
        let (out, t, ch) = lvn_scan(b, (n - 1) as nat);
        let x = b[n - 1];
        let (x2, t2, c2) = lvn_inst(x, t);
        if x2 != x {
            let op = x->Opcode_0;
            let q = find_expr(t, op.kind, op.args.unwrap_or(seq![])).unwrap();
            assert(x2 == copy_view(op, t[q].2));
        }
        assert forall|i: int| 0 <= i < n implies copied_from(#[trigger] b[i], lvn_scan(b, n).0[i]) by {
            if i < n - 1 {
                assert(lvn_scan(b, n).0[i] == out[i]);
            }
        }
    }
}

/// Value numbering rewrites in place: the block keeps its length, and each
/// instruction is kept or is a value operation turned into a copy into the
/// same destination.
pub proof fn lemma_lvn_in_place(b: Seq<InstrView>)
    ensures
        lvn_block(b).0.len() == b.len(),
        forall|i: int| 0 <= i < b.len() ==> copied_from(#[trigger] b[i], lvn_block(b).0[i]),
{
    lemma_lvn_scan_in_place(b, b.len());
}

/// `x` writes the variable `v`.
pub open spec fn assigns(x: InstrView, v: Seq<char>) -> bool {
    x matches InstrView::Opcode(op) && op.dest == Some(v)
}

/// The operands of an operation (none when it has no argument list).
pub open spec fn operands(x: InstrView) -> Seq<Seq<char>> {
    x->Opcode_0.args.unwrap_or(seq![])
}

/// Instruction `p` of `b`, before position `n`, computed the expression
/// `e` into its variable, and nothing from `p` up to `n` wrote that
/// variable or an operand.
pub open spec fn backed_at(b: Seq<InstrView>, n: int, e: ExprView, p: int) -> bool {
    &&& 0 <= p < n
    &&& b[p] is Opcode
    &&& b[p]->Opcode_0.dest == Some(e.2)
    &&& b[p]->Opcode_0.kind == e.0
    &&& operands(b[p]) == e.1
    &&& is_value_op(e.0)
    &&& !e.1.contains(e.2)
    &&& forall|m: int|
        p < m < n ==> !#[trigger] assigns(b[m], e.2) && forall|q: int| 0 <= q < e.1.len() ==> !assigns(b[m], #[trigger] e.1[q])
}

/// Some instruction before position `n` backs the expression `e`.
pub open spec fn entry_backed(b: Seq<InstrView>, n: int, e: ExprView) -> bool {
    exists|p: int| #[trigger] backed_at(b, n, e, p)
}

proof fn lemma_survivors(t: Seq<ExprView>, d: Seq<char>)
    ensures
        forall|q: int|
            0 <= q < survivors(t, d).len() ==> (exists|r: int| 0 <= r < t.len() && #[trigger] t[r] == #[trigger] survivors(t, d)[q])
                && survivors(t, d)[q].2 != d && !survivors(t, d)[q].1.contains(d),
    decreases t.len(),
{
    reveal(Seq::filter);
    if t.len() > 0 {
        lemma_survivors(t.drop_last(), d);
        let f = survivors(t.drop_last(), d);
        assert forall|q: int| 0 <= q < survivors(t, d).len() implies (exists|r: int| 0 <= r < t.len() && #[trigger] t[r] == #[trigger] survivors(t, d)[q])
            && survivors(t, d)[q].2 != d && !survivors(t, d)[q].1.contains(d) by {
            if q < f.len() {
                assert(survivors(t, d)[q] == f[q]);
                let r = choose|r: int| 0 <= r < t.drop_last().len() && #[trigger] t.drop_last()[r] == f[q];
                assert(t[r] == t.drop_last()[r]);
            } else {
                assert(t[t.len() - 1] == survivors(t, d)[q]);
            }
        }
    }
}

proof fn lemma_find_expr(t: Seq<ExprView>, k: OpKind, a: Seq<Seq<char>>)
    ensures
        find_expr(t, k, a) matches Some(q) ==> 0 <= q < t.len() && same_expr(t[q].0, t[q].1, k, a),
    decreases t.len(),
{
    if t.len() > 0 {
        lemma_find_expr(t.drop_last(), k, a);
    }
}

/// Every available expression value numbering holds after `n`
/// instructions is backed by an instruction before them.
proof fn lemma_lvn_table_backed(b: Seq<InstrView>, n: nat)
    requires
        n <= b.len(),
    ensures
        forall|q: int| 0 <= q < lvn_scan(b, n).1.len() ==> entry_backed(b, n as int, #[trigger] lvn_scan(b, n).1[q]),
    decreases n,
{
    if n > 0 {
        lemma_lvn_table_backed(b, (n - 1) as nat);
        let (out, t, ch) = lvn_scan(b, (n - 1) as nat);
        let x = b[n - 1];
        let (x2, t2, c2) = lvn_inst(x, t);
        assert(lvn_scan(b, n).1 == t2);
        match x {
            InstrView::Opcode(op) => match op.dest {
                Some(d) => {
                    let t1 = survivors(t, d);
                    lemma_survivors(t, d);
                    assert forall|q: int| 0 <= q < t1.len() implies entry_backed(b, n as int, #[trigger] t1[q]) by {
                        let r = choose|r: int| 0 <= r < t.len() && #[trigger] t[r] == t1[q];
                        let e = t1[q];
                        let p = choose|p: int| #[trigger] backed_at(b, ((n - 1) as nat) as int, t[r], p);
                        assert(e.2 != d && !e.1.contains(d));
                        assert forall|m: int| p < m < n implies !#[trigger] assigns(b[m], e.2) && forall|q2: int|
                            0 <= q2 < e.1.len() ==> !assigns(b[m], #[trigger] e.1[q2]) by {
                            assert(backed_at(b, ((n - 1) as nat) as int, t[r], p));
                            if m < n - 1 {
                                assert(!assigns(b[m], t[r].2));
                                assert forall|q2: int| 0 <= q2 < e.1.len() implies !assigns(b[m], #[trigger] e.1[q2]) by {
                                    assert(!assigns(b[m], t[r].1[q2]));
                                }
                            } else {
                                assert(b[m] == x);
                                assert(!assigns(x, e.2));
                                assert forall|q2: int| 0 <= q2 < e.1.len() implies !assigns(b[m], #[trigger] e.1[q2]) by {
                                    if e.1[q2] == d {
                                        assert(e.1.contains(d));
                                    }
                                }
                            }
                        }
                        assert(backed_at(b, n as int, e, p));
                    }
                    assert forall|q: int| 0 <= q < t2.len() implies entry_backed(b, n as int, #[trigger] t2[q]) by {
                        if q < t1.len() {
                            assert(t2[q] == t1[q]);
                        } else {
                            assert(backed_at(b, n as int, t2[q], n - 1));
                        }
                    }
                },
                None => {
                    assert forall|q: int| 0 <= q < t2.len() implies entry_backed(b, n as int, #[trigger] t2[q]) by {
                        let p = choose|p: int| #[trigger] backed_at(b, ((n - 1) as nat) as int, t[q], p);
                        assert(backed_at(b, n as int, t2[q], p));
                    }
                },
            },
            _ => {
                assert forall|q: int| 0 <= q < t2.len() implies entry_backed(b, n as int, #[trigger] t2[q]) by {
                    let p = choose|p: int| #[trigger] backed_at(b, ((n - 1) as nat) as int, t[q], p);
                    assert(backed_at(b, n as int, t2[q], p));
                }
            },
        }
        assert forall|q: int| 0 <= q < lvn_scan(b, n).1.len() implies entry_backed(b, n as int, #[trigger] lvn_scan(b, n).1[q]) by {
            assert(lvn_scan(b, n).1[q] == t2[q]);
        }
    } else {
        assert(lvn_scan(b, n).1 =~= Seq::<ExprView>::empty());
    }
}

proof fn lemma_lvn_scan_prefix(b: Seq<InstrView>, n: nat, i: int)
    requires
        0 <= i < n <= b.len(),
    ensures
        lvn_scan(b, n).0[i] == lvn_inst(b[i], lvn_scan(b, i as nat).1).0,
    decreases n,
{
    lemma_lvn_scan_in_place(b, (n - 1) as nat);
    if i < n - 1 {
        lemma_lvn_scan_prefix(b, (n - 1) as nat, i);
    }
}

/// Value numbering reuses only a value that is still there: an
/// instruction it turns into `d = id v` computes an expression that an
/// earlier instruction of the block computed, with the same operation on
/// the same operands (swapped only for an operation where the order does
/// not matter), into `v` (which is not one of them), and no instruction in
/// between writes `v` or any of those operands.
pub proof fn lemma_lvn_copy_is_available(b: Seq<InstrView>, i: int)
    requires
        0 <= i < b.len(),
        lvn_block(b).0[i] != b[i],
    ensures
        exists|p: int, v: Seq<char>|
            {
                &&& 0 <= p < i
                &&& lvn_block(b).0[i] == copy_view(b[i]->Opcode_0, v)
                &&& b[p] is Opcode
                &&& b[p]->Opcode_0.dest == Some(v)
                &&& is_value_op(b[p]->Opcode_0.kind)
                &&& b[p]->Opcode_0.kind == b[i]->Opcode_0.kind
                &&& (operands(b[p]) == operands(b[i]) || (operands(b[i]).len() == 2 && operands(b[p]) == seq![
                    operands(b[i])[1],
                    operands(b[i])[0],
                ] && (b[i]->Opcode_0.kind is Add || b[i]->Opcode_0.kind is Mul || b[i]->Opcode_0.kind is Eq
                    || b[i]->Opcode_0.kind is And || b[i]->Opcode_0.kind is Or || b[i]->Opcode_0.kind is FAdd
                    || b[i]->Opcode_0.kind is FMul || b[i]->Opcode_0.kind is FEq)))
                &&& !operands(b[p]).contains(v)
                &&& forall|m: int|
                    p < m < i ==> !#[trigger] assigns(b[m], v) && forall|q: int|
                        0 <= q < operands(b[p]).len() ==> !assigns(b[m], #[trigger] operands(b[p])[q])
            },
{
    lemma_lvn_scan_prefix(b, b.len(), i);
    let t = lvn_scan(b, i as nat).1;
    lemma_lvn_table_backed(b, i as nat);
    let x = b[i];
    let op = x->Opcode_0;
    let a = op.args.unwrap_or(seq![]);
    lemma_find_expr(t, op.kind, a);
    let q = find_expr(t, op.kind, a).unwrap();
    let e = t[q];
    let p = choose|p: int| #[trigger] backed_at(b, i, t[q], p);
    assert(lvn_block(b).0[i] == copy_view(op, e.2));
    assert(operands(b[p]) == e.1);
    assert(operands(b[i]) == a);
}

} // verus!
