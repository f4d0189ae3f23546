//! Global constant propagation and folding: a table of the variables known
//! to hold a constant flows through each basic block and from the blocks to
//! their successors; an `add`, `mul`, `fadd` or `fmul` whose arguments are
//! all known becomes a `const`.
use crate::ast::{
    block_partition, block_views, cfg_edge, names, views, Function, Program, BasicBlock, InstrView, Instruction, LitModel, Literal, OpKind, OpView, OpcodeInstruction, TypeModel,
};
use std::collections::{HashSet, VecDeque};
use vstd::prelude::*;

verus! {

/// The bit pattern of the double-precision number 1.0.
pub const ONE_BITS: u64 = 0x3FF0_0000_0000_0000;

/// The table held by a list of (name, value) pairs: a later pair for a name
/// overrides an earlier one.
pub open spec fn cmap(v: Seq<(String, Literal)>) -> Map<Seq<char>, LitModel>
    decreases v.len(),
{
    if v.len() == 0 {
        Map::empty()
    } else {
        cmap(v.drop_last()).insert(v.last().0@, v.last().1@)
    }
}

proof fn lemma_cmap_dom(v: Seq<(String, Literal)>, k: Seq<char>)
    ensures
        cmap(v).dom().contains(k) <==> exists|i: int| 0 <= i < v.len() && #[trigger] v[i].0@ == k,
    decreases v.len(),
{
    if v.len() > 0 {
        lemma_cmap_dom(v.drop_last(), k);
        if exists|i: int| 0 <= i < v.len() && #[trigger] v[i].0@ == k {
            let i = choose|i: int| 0 <= i < v.len() && #[trigger] v[i].0@ == k;
            if i < v.len() - 1 {
                assert(v.drop_last()[i].0@ == k);
            }
        }
        if exists|i: int| 0 <= i < v.drop_last().len() && #[trigger] v.drop_last()[i].0@ == k {
            let i = choose|i: int| 0 <= i < v.drop_last().len() && #[trigger] v.drop_last()[i].0@ == k;
            assert(v[i].0@ == k);
        }
    }
}

proof fn lemma_cmap_last(v: Seq<(String, Literal)>, i: int)
    requires
        0 <= i < v.len(),
        forall|j: int| i < j < v.len() ==> (#[trigger] v[j]).0@ != v[i].0@,
    ensures
        cmap(v).dom().contains(v[i].0@),
        cmap(v)[v[i].0@] == v[i].1@,
    decreases v.len(),
{
    if i < v.len() - 1 {
        assert forall|j: int| i < j < v.drop_last().len() implies (#[trigger] v.drop_last()[j]).0@ != v.drop_last()[i].0@ by {
            assert(v.drop_last()[j] == v[j]);
        }
        lemma_cmap_last(v.drop_last(), i);
        assert(v.last() == v[v.len() - 1]);
    }
}

/// The constant table of one program point: the variables known to hold a
/// constant, with their values.
pub struct ConstantState {
    pub constant_values: Vec<(String, Literal)>,
}

impl View for ConstantState {
    type V = Map<Seq<char>, LitModel>;

    open spec fn view(&self) -> Map<Seq<char>, LitModel> {
        cmap(self.constant_values@)
    }
}

impl ConstantState {
    pub fn new() -> (s: ConstantState)
        ensures
            s@ == Map::<Seq<char>, LitModel>::empty(),
    {
        ConstantState { constant_values: Vec::new() }
    }

    /// The value of `name`, if it is known.
    pub fn get(&self, name: &String) -> (r: Option<&Literal>)
        ensures
            r is Some <==> self@.dom().contains(name@),
            r matches Some(v) ==> self@[name@] == v@,
    {
        let mut i: usize = self.constant_values.len();
        while i > 0
            invariant
                i <= self.constant_values@.len(),
                forall|b: int| i <= b < self.constant_values@.len() ==> (#[trigger] self.constant_values@[b]).0@ != name@,
            decreases i,
        {
            i -= 1;
            if self.constant_values[i].0 == *name {
                proof {
                    lemma_cmap_last(self.constant_values@, i as int);
                }
                return Some(&self.constant_values[i].1);
            }
        }
        proof {
            lemma_cmap_dom(self.constant_values@, name@);
        }
        None
    }

    /// Records that `name` holds `value`.
    pub fn set(&mut self, name: String, value: Literal)
        ensures
            final(self)@ == old(self)@.insert(name@, value@),
    {
        let ghost before = self.constant_values@;
        self.constant_values.push((name, value));
        assert(self.constant_values@.drop_last() =~= before);
    }

    /// Forgets the value of `name`.
    pub fn remove(&mut self, name: &String)
        ensures
            final(self)@ == old(self)@.remove(name@),
    {
        let mut kept: Vec<(String, Literal)> = Vec::new();
        let mut i: usize = 0;
        while i < self.constant_values.len()
            invariant
                i <= self.constant_values@.len(),
                cmap(kept@) == cmap(self.constant_values@.take(i as int)).remove(name@),
            decreases self.constant_values@.len() - i,
        {
            let ghost before = kept@;
            assert(self.constant_values@.take(i + 1).drop_last() =~= self.constant_values@.take(i as int));
            assert(self.constant_values@.take(i + 1).last() == self.constant_values@[i as int]);
            if self.constant_values[i].0 != *name {
                let k = self.constant_values[i].0.clone();
                let v = self.constant_values[i].1.clone();
                kept.push((k, v));
                assert(kept@.drop_last() =~= before);
                assert(cmap(kept@) =~= cmap(self.constant_values@.take(i + 1)).remove(name@));
            } else {
                assert(cmap(kept@) =~= cmap(self.constant_values@.take(i + 1)).remove(name@));
            }
            i += 1;
        }
        assert(self.constant_values@.take(self.constant_values@.len() as int) =~= self.constant_values@);
        self.constant_values = kept;
    }

    /// A copy of the table.
    pub fn copy(&self) -> (r: ConstantState)
        ensures
            r@ == self@,
    {
        let mut entries: Vec<(String, Literal)> = Vec::new();
        let mut i: usize = 0;
        while i < self.constant_values.len()
            invariant
                i <= self.constant_values@.len(),
                cmap(entries@) == cmap(self.constant_values@.take(i as int)),
            decreases self.constant_values@.len() - i,
        {
            let ghost before = entries@;
            assert(self.constant_values@.take(i + 1).drop_last() =~= self.constant_values@.take(i as int));
            assert(self.constant_values@.take(i + 1).last() == self.constant_values@[i as int]);
            let k = self.constant_values[i].0.clone();
            let v = self.constant_values[i].1.clone();
            entries.push((k, v));
            assert(entries@.drop_last() =~= before);
            i += 1;
        }
        assert(self.constant_values@.take(self.constant_values@.len() as int) =~= self.constant_values@);
        ConstantState { constant_values: entries }
    }
}

/// The sum of integer values with 64-bit wrap-around, from 0; `None` when
/// one of them is not an integer.
pub open spec fn int_sum(vals: Seq<LitModel>) -> Option<i64>
    decreases vals.len(),
{
    if vals.len() == 0 {
        Some(0i64)
    } else {
        match (int_sum(vals.drop_last()), vals.last()) {
            (Some(a), LitModel::Int(b)) => Some(a.wrapping_add(b)),
            _ => None,
        }
    }
}

/// The product of integer values with 64-bit wrap-around, from 1; `None`
/// when one of them is not an integer.
pub open spec fn int_product(vals: Seq<LitModel>) -> Option<i64>
    decreases vals.len(),
{
    if vals.len() == 0 {
        Some(1i64)
    } else {
        match (int_product(vals.drop_last()), vals.last()) {
            (Some(a), LitModel::Int(b)) => Some(a.wrapping_mul(b)),
            _ => None,
        }
    }
}

/// The values are all numbers.
pub open spec fn all_numbers(vals: Seq<LitModel>) -> bool {
    forall|j: int| 0 <= j < vals.len() ==> !(#[trigger] vals[j] is Text)
}

/// The floating-point sum of the values, from 0.0 and in order, kept as the
/// operations to perform.
pub open spec fn float_sum(vals: Seq<LitModel>) -> LitModel
    decreases vals.len(),
{
    if vals.len() == 0 {
        LitModel::Float(0u64)
    } else {
        LitModel::FloatAdd(Box::new(float_sum(vals.drop_last())), Box::new(vals.last()))
    }
}

/// The floating-point product of the values, from 1.0 and in order, kept as
/// the operations to perform.
pub open spec fn float_product(vals: Seq<LitModel>) -> LitModel
    decreases vals.len(),
{
    if vals.len() == 0 {
        LitModel::Float(ONE_BITS)
    } else {
        LitModel::FloatMul(Box::new(float_product(vals.drop_last())), Box::new(vals.last()))
    }
}

/// The value of an operation on constant arguments: `add` and `mul` on
/// integers, `fadd` and `fmul` on numbers. Other operations, and operands of
/// the wrong kind, give nothing.
pub open spec fn eval_op(kind: OpKind, vals: Seq<LitModel>) -> Option<LitModel> {
    match kind {
        OpKind::Add => match int_sum(vals) {
            Some(v) => Some(LitModel::Int(v)),
            None => None,
        },
        OpKind::Mul => match int_product(vals) {
            Some(v) => Some(LitModel::Int(v)),
            None => None,
        },
        OpKind::FAdd => if all_numbers(vals) {
            Some(float_sum(vals))
        } else {
            None
        },
        OpKind::FMul => if all_numbers(vals) {
            Some(float_product(vals))
        } else {
            None
        },
        _ => None,
    }
}

/// The values of a list of literals.
pub open spec fn lit_views(v: Seq<Literal>) -> Seq<LitModel> {
    v.map_values(|l: Literal| l@)
}

/// The value of an operation on the given constant arguments, when it can
/// be folded.
pub fn evaluate(op: &OpcodeInstruction, vals: &Vec<Literal>) -> (r: Option<Literal>)
    ensures
        r is Some <==> eval_op(op@.kind, lit_views(vals@)) is Some,
        r matches Some(v) ==> eval_op(op@.kind, lit_views(vals@)) == Some(v@),
{
    let ghost vs = lit_views(vals@);
    match op {
        OpcodeInstruction::Add { .. } => {
            let mut acc: i64 = 0;
            let mut i: usize = 0;
            while i < vals.len()
                invariant
                    vs == lit_views(vals@),
                    i <= vals@.len(),
                    int_sum(vs.take(i as int)) == Some(acc),
                    op@.kind == OpKind::Add,
                decreases vals@.len() - i,
            {
                assert(vs.take(i + 1).drop_last() =~= vs.take(i as int));
                match &vals[i] {
                    Literal::Int(b) => {
                        acc = acc.wrapping_add(*b);
                    },
                    _ => {
                        assert(int_sum(vs.take(i + 1)) is None);
                        proof {
                            lemma_int_sum_none(vs, i as int);
                        }
                        return None;
                    },
                }
                i += 1;
            }
            assert(vs.take(vals@.len() as int) =~= vs);
            Some(Literal::Int(acc))
        },
        OpcodeInstruction::Mul { .. } => {
            let mut acc: i64 = 1;
            let mut i: usize = 0;
            while i < vals.len()
                invariant
                    vs == lit_views(vals@),
                    i <= vals@.len(),
                    int_product(vs.take(i as int)) == Some(acc),
                    op@.kind == OpKind::Mul,
                decreases vals@.len() - i,
            {
                assert(vs.take(i + 1).drop_last() =~= vs.take(i as int));
                match &vals[i] {
                    Literal::Int(b) => {
                        acc = acc.wrapping_mul(*b);
                    },
                    _ => {
                        assert(int_product(vs.take(i + 1)) is None);
                        proof {
                            lemma_int_product_none(vs, i as int);
                        }
                        return None;
                    },
                }
                i += 1;
            }
            assert(vs.take(vals@.len() as int) =~= vs);
            Some(Literal::Int(acc))
        },
        OpcodeInstruction::FAdd { .. } | OpcodeInstruction::FMul { .. } => {
            let is_add = match op {
                OpcodeInstruction::FAdd { .. } => true,
                _ => false,
            };
            let mut acc: Literal = if is_add { Literal::Float(0) } else { Literal::Float(ONE_BITS) };
            let mut i: usize = 0;
            while i < vals.len()
                invariant
                    vs == lit_views(vals@),
                    i <= vals@.len(),
                    is_add ==> acc@ == float_sum(vs.take(i as int)),
                    !is_add ==> acc@ == float_product(vs.take(i as int)),
                    all_numbers(vs.take(i as int)),
                    is_add ==> op@.kind == OpKind::FAdd,
                    !is_add ==> op@.kind == OpKind::FMul,
                decreases vals@.len() - i,
            {
                assert(vs.take(i + 1).drop_last() =~= vs.take(i as int));
                if !vals[i].is_number() {
                    assert(!all_numbers(vs)) by {
                        assert(vs[i as int] is Text);
                    }
                    return None;
                }
                let v = vals[i].clone();
                acc = if is_add {
                    Literal::FloatAdd(Box::new(acc), Box::new(v))
                } else {
                    Literal::FloatMul(Box::new(acc), Box::new(v))
                };
                assert(all_numbers(vs.take(i + 1))) by {
                    assert forall|j: int| 0 <= j < vs.take(i + 1).len() implies !(#[trigger] vs.take(i + 1)[j] is Text) by {
                        if j < i {
                            assert(vs.take(i + 1)[j] == vs.take(i as int)[j]);
                        }
                    }
                }
                i += 1;
            }
            assert(vs.take(vals@.len() as int) =~= vs);
            Some(acc)
        },
        _ => None,
    }
}

proof fn lemma_int_sum_none(vs: Seq<LitModel>, i: int)
    requires
        0 <= i < vs.len(),
        int_sum(vs.take(i + 1)) is None,
    ensures
        int_sum(vs) is None,
    decreases vs.len() - i,
{
    if i + 1 < vs.len() {
        assert(vs.take(i + 2).drop_last() =~= vs.take(i + 1));
        lemma_int_sum_none(vs, i + 1);
    } else {
        assert(vs.take(i + 1) =~= vs);
    }
}

proof fn lemma_int_product_none(vs: Seq<LitModel>, i: int)
    requires
        0 <= i < vs.len(),
        int_product(vs.take(i + 1)) is None,
    ensures
        int_product(vs) is None,
    decreases vs.len() - i,
{
    if i + 1 < vs.len() {
        assert(vs.take(i + 2).drop_last() =~= vs.take(i + 1));
        lemma_int_product_none(vs, i + 1);
    } else {
        assert(vs.take(i + 1) =~= vs);
    }
}

/// A `const` instruction.
pub open spec fn const_view(dest: Seq<char>, typ: TypeModel, v: LitModel) -> InstrView {
    InstrView::Opcode(
        OpView {
            kind: OpKind::Const,
            args: None,
            dest: Some(dest),
            typ: Some(typ),
            value: Some(v),
            labels: seq![],
            funcs: seq![],
        },
    )
}

/// The table after an operation defines its destination: a `const` records
/// its value, any other definition forgets the old one.
pub open spec fn table_after_def(op: OpView, t: Map<Seq<char>, LitModel>) -> Map<Seq<char>, LitModel> {
    if op.kind is Const {
        t.insert(op.dest.unwrap(), op.value.unwrap())
    } else {
        match op.dest {
            Some(d) => t.remove(d),
            None => t,
        }
    }
}

/// The values of the arguments, when the table knows them all.
pub open spec fn arg_values(a: Seq<Seq<char>>, t: Map<Seq<char>, LitModel>) -> Option<Seq<LitModel>> {
    if forall|j: int| 0 <= j < a.len() ==> t.dom().contains(#[trigger] a[j]) {
        Some(a.map_values(|n: Seq<char>| t[n]))
    } else {
        None
    }
}

/// The operations that can be folded.
pub open spec fn is_foldable(kind: OpKind) -> bool {
    kind is Add || kind is Mul || kind is FAdd || kind is FMul
}

/// One instruction under constant propagation, given the table before it:
/// the instruction after it (folded into a `const` when its arguments are
/// all known and the operation can be evaluated), the table after it, and
/// whether it was folded.
pub open spec fn cp_inst(x: InstrView, t: Map<Seq<char>, LitModel>) -> (InstrView, Map<Seq<char>, LitModel>, bool) {
    match x {
        InstrView::Opcode(op) => {
            let t1 = table_after_def(op, t);
            let folded = if is_foldable(op.kind) && op.args is Some {
                match arg_values(op.args.unwrap(), t1) {
                    Some(vals) => eval_op(op.kind, vals),
                    None => None,
                }
            } else {
                None
            };
            match folded {
                Some(v) => if op.dest is Some && op.typ is Some {
                    (const_view(op.dest.unwrap(), op.typ.unwrap(), v), t1.insert(op.dest.unwrap(), v), true)
                } else {
                    (x, t1, false)
                },
                None => (x, t1, false),
            }
        },
        _ => (x, t, false),
    }
}

/// Constant propagation over the first `n` instructions of a block from the
/// table `t`: the instructions as rewritten, the table after them, and
/// whether any was folded.
pub open spec fn cp_scan(b: Seq<InstrView>, t: Map<Seq<char>, LitModel>, n: nat) -> (
    Seq<InstrView>,
    Map<Seq<char>, LitModel>,
    bool,
)
    decreases n,
{
    if n == 0 || n > b.len() {
        (seq![], t, false)
    } else {
        let (out, t1, ch) = cp_scan(b, t, (n - 1) as nat);
        let (x2, t2, c2) = cp_inst(b[n - 1], t1);
        (out.push(x2), t2, ch || c2)
    }
}

/// Constant propagation over a whole block.
pub open spec fn cp_block(b: Seq<InstrView>, t: Map<Seq<char>, LitModel>) -> (
    Seq<InstrView>,
    Map<Seq<char>, LitModel>,
    bool,
) {
    cp_scan(b, t, b.len())
}

/// The values of the arguments, when the table knows them all.
fn lookup_all(args: &Vec<String>, ctx: &ConstantState) -> (r: Option<Vec<Literal>>)
    ensures
        r is Some <==> arg_values(names(*args), ctx@) is Some,
        r matches Some(v) ==> arg_values(names(*args), ctx@) == Some(lit_views(v@)),
{
    let ghost a = names(*args);
    let mut vals: Vec<Literal> = Vec::new();
    let mut i: usize = 0;
    while i < args.len()
        invariant
            a == names(*args),
            i <= args@.len(),
            vals@.len() == i,
            forall|j: int| 0 <= j < i ==> ctx@.dom().contains(#[trigger] a[j]),
            forall|j: int| 0 <= j < i ==> (#[trigger] vals@[j])@ == ctx@[a[j]],
        decreases args@.len() - i,
    {
        match ctx.get(&args[i]) {
            Some(v) => {
                vals.push(v.clone());
            },
            None => {
                assert(!ctx@.dom().contains(a[i as int]));
                return None;
            },
        }
        i += 1;
    }
    assert(lit_views(vals@) =~= a.map_values(|n: Seq<char>| ctx@[n]));
    Some(vals)
}

/// Constant propagation and folding over one block, from the table `ctx`.
/// Returns whether an instruction was folded, and the table after the block.
pub fn local_constant_prop(bb: &mut BasicBlock, ctx: ConstantState) -> (r: (bool, ConstantState))
    ensures
        ({
            let (out, t, ch) = cp_block(old(bb).ins(), ctx@);
            &&& final(bb).ins() == out
            &&& r.1@ == t
            &&& r.0 == ch
        }),
        final(bb).label == old(bb).label,
        final(bb).out_labels == old(bb).out_labels,
        final(bb).in_bb_indices == old(bb).in_bb_indices,
        final(bb).out_bb_indices == old(bb).out_bb_indices,
        final(bb).immediate_dominator_index == old(bb).immediate_dominator_index,
{
    let ghost b = bb.ins();
    let ghost t0 = ctx@;
    let mut ctx = ctx;
    let mut changed: bool = false;
    let n = bb.instrs.len();
    let mut l: usize = 0;
    while l < n
        invariant
            b == old(bb).ins(),
            n == bb.instrs@.len(),
            n == b.len(),
            l <= n,
            cp_scan(b, t0, l as nat).0.len() == l,
            forall|m: int| 0 <= m < l ==> #[trigger] bb.ins()[m] == cp_scan(b, t0, l as nat).0[m],
            forall|m: int| l <= m < n ==> #[trigger] bb.ins()[m] == b[m],
            ctx@ == cp_scan(b, t0, l as nat).1,
            changed == cp_scan(b, t0, l as nat).2,
            bb.label == old(bb).label,
            bb.out_labels == old(bb).out_labels,
            bb.in_bb_indices == old(bb).in_bb_indices,
            bb.out_bb_indices == old(bb).out_bb_indices,
            bb.immediate_dominator_index == old(bb).immediate_dominator_index,
        decreases n - l,
    {
        let ghost t1 = ctx@;
        let ghost x = b[l as int];
        assert(bb.ins()[l as int] == x);
        let ghost ins0 = bb.ins();
        let mut folded: Option<Instruction> = None;
        match &bb.instrs[l] {
            Instruction::Opcode(op) => {
                match op {
                    OpcodeInstruction::Const { dest, value, .. } => {
                        ctx.set(dest.clone(), value.clone());
                    },
                    _ => {
                        if let Some(dest) = op.get_dest() {
                            ctx.remove(&dest);
                        }
                    },
                }
                assert(ctx@ == table_after_def(op@, t1));
                let vals = match op {
                    OpcodeInstruction::Add { args, .. }
                    | OpcodeInstruction::Mul { args, .. }
                    | OpcodeInstruction::FAdd { args, .. }
                    | OpcodeInstruction::FMul { args, .. } => lookup_all(args, &ctx),
                    _ => None,
                };
                if let Some(vals) = vals {
                    if let Some(value) = evaluate(op, &vals) {
                        if let Some(dest) = op.get_dest() {
                            if let Some(typ) = op.get_type() {
                                changed = true;
                                ctx.set(dest.clone(), value.clone());
                                folded = Some(Instruction::Opcode(OpcodeInstruction::Const { dest, typ, value }));
                            }
                        }
                    }
                }
            },
            _ => {},
        }
        match folded {
            Some(inst) => {
                bb.instrs.set(l, inst);
            },
            None => {},
        }
        assert(bb.ins()[l as int] == cp_inst(x, t1).0);
        assert forall|m: int| 0 <= m < n && m != l implies #[trigger] bb.ins()[m] == ins0[m] by {}
        l += 1;
    }
    (changed, ctx)
}

/// The constants on which all the tables agree: a variable stays when
/// every table holds it with the same value. No table gives the empty
/// table.
pub open spec fn join_spec(ts: Seq<Map<Seq<char>, LitModel>>) -> Map<Seq<char>, LitModel> {
    if ts.len() == 0 {
        Map::empty()
    } else {
        Map::new(
            |k: Seq<char>| forall|i: int| 0 <= i < ts.len() ==> #[trigger] ts[i].dom().contains(k) && ts[i][k] == ts[0][k],
            |k: Seq<char>| ts[0][k],
        )
    }
}

/// The tables of a list of states.
pub open spec fn state_views(states: Seq<&ConstantState>) -> Seq<Map<Seq<char>, LitModel>> {
    states.map_values(|s: &ConstantState| s@)
}

/// The table at the entry of a block, from the tables at the exit of its
/// predecessors: the constants they all agree on.
pub fn join_constant_states(states: Vec<&ConstantState>) -> (r: ConstantState)
    ensures
        r@ == join_spec(state_views(states@)),
{
    let ghost ts = state_views(states@);
    let mut joined_state = ConstantState::new();
    if states.len() == 0 {
        return joined_state;
    }
    let first = states[0];
    assert(ts[0] == first@);
    let mut q: usize = 0;
    while q < first.constant_values.len()
        invariant
            ts == state_views(states@),
            states@.len() > 0,
            first == states@[0],
            q <= first.constant_values@.len(),
            joined_state@ == Map::new(
                |k: Seq<char>| (exists|j: int| 0 <= j < q && #[trigger] first.constant_values@[j].0@ == k) && join_spec(ts).dom().contains(k),
                |k: Seq<char>| ts[0][k],
            ),
        decreases first.constant_values@.len() - q,
    {
        let key = &first.constant_values[q].0;
        proof {
            lemma_cmap_dom(first.constant_values@, key@);
        }
        let val = match first.get(key) {
            Some(v) => v,
            None => {
                assert(false);
                return joined_state;
            },
        };
        let mut agree = true;
        let mut i: usize = 1;
        while i < states.len()
            invariant
                ts == state_views(states@),
                states@.len() > 0,
                1 <= i <= states@.len(),
                ts[0].dom().contains(key@),
                ts[0][key@] == val@,
                agree == forall|m: int| 0 <= m < i ==> #[trigger] ts[m].dom().contains(key@) && ts[m][key@] == ts[0][key@],
            decreases states@.len() - i,
        {
            assert(ts[i as int] == states@[i as int]@);
            let ghost agree0 = agree;
            match states[i].get(key) {
                Some(v) => {
                    if !v.same_as(val) {
                        agree = false;
                    }
                },
                None => {
                    agree = false;
                },
            }
            assert(agree == (agree0 && ts[i as int].dom().contains(key@) && ts[i as int][key@] == ts[0][key@]));
            proof {
                if agree {
                    assert forall|m: int| 0 <= m < i + 1 implies #[trigger] ts[m].dom().contains(key@) && ts[m][key@]
                        == ts[0][key@] by {
                        if m < i {
                            assert(agree0);
                        }
                    }
                } else if agree0 {
                    assert(!(ts[i as int].dom().contains(key@) && ts[i as int][key@] == ts[0][key@]));
                } else {
                    let m = choose|m: int| 0 <= m < i && !(#[trigger] ts[m].dom().contains(key@) && ts[m][key@] == ts[0][key@]);
                    assert(0 <= m < i + 1 && !(ts[m].dom().contains(key@) && ts[m][key@] == ts[0][key@]));
                }
            }
            i += 1;
        }
        assert(agree == join_spec(ts).dom().contains(key@));
        let ghost before = joined_state@;
        if agree {
            joined_state.set(key.clone(), val.clone());
        }
        assert(joined_state@ =~= Map::new(
            |k: Seq<char>| (exists|j: int| 0 <= j < q + 1 && #[trigger] first.constant_values@[j].0@ == k) && join_spec(ts).dom().contains(k),
            |k: Seq<char>| ts[0][k],
        )) by {
            assert(first.constant_values@[q as int].0@ == key@);
        }
        q += 1;
    }
    assert(joined_state@ =~= join_spec(ts)) by {
        assert forall|k: Seq<char>| #[trigger] join_spec(ts).dom().contains(k) implies exists|j: int|
            0 <= j < first.constant_values@.len() && #[trigger] first.constant_values@[j].0@ == k by {
            lemma_cmap_dom(first.constant_values@, k);
        }
    }
    joined_state
}

/// An `add`, `mul`, `fadd` or `fmul` instruction.
pub open spec fn is_foldable_instr(x: InstrView) -> bool {
    x matches InstrView::Opcode(op) && is_foldable(op.kind)
}

/// The number of foldable instructions in a block.
pub open spec fn foldable_count(b: Seq<InstrView>) -> nat
    decreases b.len(),
{
    if b.len() == 0 {
        0
    } else {
        foldable_count(b.drop_last()) + if is_foldable_instr(b.last()) {
            1nat
        } else {
            0nat
        }
    }
}

/// The number of foldable instructions in all blocks.
pub open spec fn total_foldable(bs: Seq<Seq<InstrView>>) -> nat
    decreases bs.len(),
{
    if bs.len() == 0 {
        0
    } else {
        total_foldable(bs.drop_last()) + foldable_count(bs.last())
    }
}

/// `x` is `x0`, or `x0` is an `add`, `mul`, `fadd` or `fmul` turned into a
/// `const` with the same destination and type.
pub open spec fn folded_from(x0: InstrView, x: InstrView) -> bool {
    ||| x == x0
    ||| (x0 matches InstrView::Opcode(op) && is_foldable(op.kind) && op.dest is Some && op.typ is Some && exists|v: LitModel|
        x == #[trigger] const_view(op.dest.unwrap(), op.typ.unwrap(), v))
}

/// `b` is `a` with some instructions folded, position by position.
pub open spec fn all_folded_from(a: Seq<InstrView>, b: Seq<InstrView>) -> bool {
    a.len() == b.len() && forall|i: int| 0 <= i < a.len() ==> folded_from(#[trigger] a[i], b[i])
}

proof fn lemma_folded_from_trans(x0: InstrView, x1: InstrView, x2: InstrView)
    requires
        folded_from(x0, x1),
        folded_from(x1, x2),
    ensures
        folded_from(x0, x2),
{
    if x1 != x0 {
        assert(!is_foldable_instr(x1));
        assert(x2 == x1);
    }
}

proof fn lemma_cp_scan(b: Seq<InstrView>, t: Map<Seq<char>, LitModel>, n: nat)
    requires
        n <= b.len(),
    ensures
        ({
            let (out, t2, ch) = cp_scan(b, t, n);
            &&& all_folded_from(b.take(n as int), out)
            &&& foldable_count(out) <= foldable_count(b.take(n as int))
            &&& ch ==> foldable_count(out) < foldable_count(b.take(n as int))
            &&& !ch ==> out == b.take(n as int)
        }),
    decreases n,
{
    if n == 0 {
        assert(b.take(0) =~= Seq::<InstrView>::empty());
    } else {
        lemma_cp_scan(b, t, (n - 1) as nat);
        let (out, t1, ch) = cp_scan(b, t, (n - 1) as nat);
        let (x2, t2, c2) = cp_inst(b[n - 1], t1);
        let pre = b.take(n - 1);
        assert(b.take(n as int) =~= pre.push(b[n - 1]));
        assert(b.take(n as int).drop_last() =~= pre);
        assert(out.push(x2).drop_last() =~= out);
        if c2 {
            let op = b[n - 1]->Opcode_0;
            assert(is_foldable_instr(b[n - 1]));
            assert(!is_foldable_instr(x2));
            let v = x2->Opcode_0.value.unwrap();
            assert(x2 == const_view(op.dest.unwrap(), op.typ.unwrap(), v));
            assert(folded_from(b[n - 1], x2));
        } else {
            assert(x2 == b[n - 1]);
        }
        assert forall|i: int| 0 <= i < n implies folded_from(#[trigger] b.take(n as int)[i], out.push(x2)[i]) by {
            if i < n - 1 {
                assert(b.take(n as int)[i] == pre[i]);
            }
        }
    }
}

/// Constant propagation only folds instructions in place: the block keeps
/// its length, and each instruction is kept or is an `add`, `mul`, `fadd`
/// or `fmul` turned into a `const` with the same destination and type. A
/// block in which nothing was folded is returned unchanged.
pub proof fn lemma_cp_block_folds_in_place(b: Seq<InstrView>, t: Map<Seq<char>, LitModel>)
    ensures
        all_folded_from(b, cp_block(b, t).0),
        foldable_count(cp_block(b, t).0) <= foldable_count(b),
        cp_block(b, t).2 ==> foldable_count(cp_block(b, t).0) < foldable_count(b),
        !cp_block(b, t).2 ==> cp_block(b, t).0 == b,
{
    lemma_cp_scan(b, t, b.len());
    assert(b.take(b.len() as int) =~= b);
}

proof fn lemma_count_concat(a: Seq<InstrView>, b: Seq<InstrView>)
    ensures
        foldable_count(a + b) == foldable_count(a) + foldable_count(b),
    decreases b.len(),
{
    if b.len() > 0 {
        assert((a + b).drop_last() =~= a + b.drop_last());
        lemma_count_concat(a, b.drop_last());
    } else {
        assert(a + b =~= a);
    }
}

proof fn lemma_total_flatten(bs: Seq<Seq<InstrView>>)
    ensures
        total_foldable(bs) == foldable_count(bs.flatten()),
    decreases bs.len(),
{
    bs.lemma_flatten_and_flatten_alt_are_equivalent();
    if bs.len() > 0 {
        lemma_total_flatten(bs.drop_last());
        bs.drop_last().lemma_flatten_and_flatten_alt_are_equivalent();
        lemma_count_concat(bs.drop_last().flatten_alt(), bs.last());
    }
}

proof fn lemma_total_update(bs: Seq<Seq<InstrView>>, j: int, b: Seq<InstrView>)
    requires
        0 <= j < bs.len(),
    ensures
        total_foldable(bs.update(j, b)) + foldable_count(bs[j]) == total_foldable(bs) + foldable_count(b),
    decreases bs.len(),
{
    let u = bs.update(j, b);
    if j == bs.len() - 1 {
        assert(u.drop_last() =~= bs.drop_last());
    } else {
        assert(u.drop_last() =~= bs.drop_last().update(j, b));
        lemma_total_update(bs.drop_last(), j, b);
    }
}

proof fn lemma_folded_concat(a1: Seq<InstrView>, b1: Seq<InstrView>, a2: Seq<InstrView>, b2: Seq<InstrView>)
    requires
        all_folded_from(a1, b1),
        all_folded_from(a2, b2),
    ensures
        all_folded_from(a1 + a2, b1 + b2),
{
    assert forall|i: int| 0 <= i < (a1 + a2).len() implies folded_from(#[trigger] (a1 + a2)[i], (b1 + b2)[i]) by {
        if i < a1.len() {
            assert(folded_from(a1[i], b1[i]));
        } else {
            assert(folded_from(a2[i - a1.len()], b2[i - a1.len()]));
        }
    }
}

proof fn lemma_folded_flatten(a: Seq<Seq<InstrView>>, b: Seq<Seq<InstrView>>)
    requires
        a.len() == b.len(),
        forall|j: int| 0 <= j < a.len() ==> all_folded_from(#[trigger] a[j], b[j]),
    ensures
        all_folded_from(a.flatten(), b.flatten()),
    decreases a.len(),
{
    if a.len() > 0 {
        assert forall|j: int| 0 <= j < a.drop_first().len() implies all_folded_from(
            #[trigger] a.drop_first()[j],
            b.drop_first()[j],
        ) by {
            assert(all_folded_from(a[j + 1], b[j + 1]));
        }
        lemma_folded_flatten(a.drop_first(), b.drop_first());
        assert(all_folded_from(a[0], b[0]));
        lemma_folded_concat(a[0], b[0], a.drop_first().flatten(), b.drop_first().flatten());
    }
}

/// The state of the work-list algorithm of global constant propagation:
/// the blocks as rewritten so far, the table at the exit of each block, the
/// work list and the set of blocks in it, and whether anything was folded.
pub struct CpRun {
    pub blocks: Seq<Seq<InstrView>>,
    pub states: Seq<Map<Seq<char>, LitModel>>,
    pub queue: Seq<usize>,
    pub queued: Set<usize>,
    pub changed: bool,
}

/// The predecessors of block `j` among the first `m` blocks, in order.
pub open spec fn preds_upto(bs: Seq<Seq<InstrView>>, j: int, m: nat) -> Seq<usize>
    decreases m,
{
    if m == 0 {
        seq![]
    } else {
        let p = preds_upto(bs, j, (m - 1) as nat);
        if cfg_edge(bs, m - 1, j) {
            p.push((m - 1) as usize)
        } else {
            p
        }
    }
}

/// The successors of block `j` among the first `m` blocks that are not in
/// `queued`, in order.
pub open spec fn new_succs(bs: Seq<Seq<InstrView>>, j: int, queued: Set<usize>, m: nat) -> Seq<usize>
    decreases m,
{
    if m == 0 {
        seq![]
    } else {
        let p = new_succs(bs, j, queued, (m - 1) as nat);
        if cfg_edge(bs, j, m - 1) && !queued.contains((m - 1) as usize) {
            p.push((m - 1) as usize)
        } else {
            p
        }
    }
}

/// The table at the entry of block `j`: what the tables at the exit of its
/// predecessors agree on.
pub open spec fn entry_table(bs0: Seq<Seq<InstrView>>, st: CpRun, j: int) -> Map<Seq<char>, LitModel> {
    join_spec(preds_upto(bs0, j, bs0.len()).map_values(|p: usize| st.states[p as int]))
}

/// One step of the work list: the first block leaves the list, is
/// propagated from the join of its predecessors' tables, and its table is
/// recorded; when something in it was folded, its successors that are not
/// in the list join it at the back, in order.
pub open spec fn cp_step(bs0: Seq<Seq<InstrView>>, st: CpRun) -> CpRun {
    if st.queue.len() == 0 {
        st
    } else {
        let j = st.queue[0];
        let queued1 = st.queued.remove(j);
        let (out, t, ch) = cp_block(st.blocks[j as int], entry_table(bs0, st, j as int));
        let pushed = if ch {
            new_succs(bs0, j as int, queued1, bs0.len())
        } else {
            seq![]
        };
        CpRun {
            blocks: st.blocks.update(j as int, out),
            states: st.states.update(j as int, t),
            queue: st.queue.drop_first() + pushed,
            queued: queued1.union(pushed.to_set()),
            changed: st.changed || ch,
        }
    }
}

/// `k` steps of the work list.
pub open spec fn cp_run(bs0: Seq<Seq<InstrView>>, st: CpRun, k: nat) -> CpRun
    decreases k,
{
    if k == 0 {
        st
    } else {
        cp_run(bs0, cp_step(bs0, st), (k - 1) as nat)
    }
}

/// The start of the work list: every block in it, in order, and every
/// table empty.
pub open spec fn cp_init(bs0: Seq<Seq<InstrView>>) -> CpRun {
    CpRun {
        blocks: bs0,
        states: Seq::new(bs0.len(), |i: int| Map::<Seq<char>, LitModel>::empty()),
        queue: Seq::new(bs0.len(), |i: int| i as usize),
        queued: Set::new(|i: usize| i < bs0.len()),
        changed: false,
    }
}

proof fn lemma_cp_run_step(bs0: Seq<Seq<InstrView>>, st: CpRun, k: nat)
    ensures
        cp_run(bs0, st, k + 1) == cp_step(bs0, cp_run(bs0, st, k)),
    decreases k,
{
    assert(cp_run(bs0, st, k + 1) == cp_run(bs0, cp_step(bs0, st), k));
    if k > 0 {
        lemma_cp_run_step(bs0, cp_step(bs0, st), (k - 1) as nat);
        assert(cp_run(bs0, st, k) == cp_run(bs0, cp_step(bs0, st), (k - 1) as nat));
    } else {
        assert(cp_run(bs0, cp_step(bs0, st), 0) == cp_step(bs0, st));
    }
}

/// The tables of a list of states.
pub open spec fn infos_view(v: Seq<ConstantState>) -> Seq<Map<Seq<char>, LitModel>> {
    v.map_values(|c: ConstantState| c@)
}

/// Global constant propagation on one function, by the work list of
/// `cp_step` until it is empty. The body is rebuilt from the blocks only
/// when something was folded.
#[verifier::spinoff_prover]
#[verifier::rlimit(80)]
fn fn_constant_prop(function: &mut Function) -> (changed: bool)
    ensures
        ({
            let fi = views(old(function).instrs@);
            let bs0 = block_partition(fi);
            exists|k: nat|
                {
                    let fin = #[trigger] cp_run(bs0, cp_init(bs0), k);
                    &&& fin.queue.len() == 0
                    &&& changed == fin.changed
                    &&& views(final(function).instrs@) == fin.blocks.flatten()
                    &&& entry_unreached(bs0) ==> folds_hold(bs0, fin.blocks)
                }
        }),
        all_folded_from(views(old(function).instrs@), views(final(function).instrs@)),
        !changed ==> final(function).instrs == old(function).instrs,
        changed ==> foldable_count(views(final(function).instrs@)) < foldable_count(views(old(function).instrs@)),
        final(function).name == old(function).name,
        final(function).args == old(function).args,
        final(function).return_type == old(function).return_type,
{
    broadcast use vstd::std_specs::hash::group_hash_axioms;
    broadcast use Seq::lemma_flatten_push;

    let ghost fi = views(function.instrs@);
    let mut changed: bool = false;
    let mut bbs = function.get_basic_blocks();
    let ghost bs0 = block_views(bbs@);
    let n = bbs.len();

    // each index corresponds to one block
    let mut bb_consts_info: Vec<ConstantState> = Vec::new();
    let mut work_list: VecDeque<usize> = VecDeque::new();
    let mut in_work_list: HashSet<usize> = HashSet::new();
    let mut i: usize = 0;
    while i < n
        invariant
            i <= n,
            bb_consts_info@.len() == i,
            forall|m: int| 0 <= m < i ==> (#[trigger] bb_consts_info@[m])@ == Map::<Seq<char>, LitModel>::empty(),
            work_list@ == Seq::new(i as nat, |m: int| m as usize),
            in_work_list@ == Set::new(|m: usize| m < i),
        decreases n - i,
    {
        bb_consts_info.push(ConstantState::new());
        work_list.push_back(i);
        in_work_list.insert(i);
        assert(in_work_list@ =~= Set::new(|m: usize| m < i + 1));
        assert(work_list@ =~= Seq::new((i + 1) as nat, |m: int| m as usize));
        i += 1;
    }
    assert(infos_view(bb_consts_info@) =~= cp_init(bs0).states);
    let ghost mut steps: nat = 0;
    while work_list.len() > 0
        invariant
            bs0 == block_partition(fi),
            bs0.flatten() == fi,
            fi == views(old(function).instrs@),
            n == bbs@.len(),
            bs0.len() == n,
            forall|m: int, p: usize|
                0 <= m < n ==> ((#[trigger] bbs@[m].in_bb_indices@.contains(p)) <==> p < n && cfg_edge(bs0, p as int, m)),
            forall|m: int, p: usize|
                0 <= m < n ==> ((#[trigger] bbs@[m].out_bb_indices@.contains(p)) <==> p < n && cfg_edge(bs0, m, p as int)),
            bb_consts_info@.len() == n,
            forall|q: int| 0 <= q < work_list@.len() ==> #[trigger] work_list@[q] < n,
            ({
                let st = cp_run(bs0, cp_init(bs0), steps);
                &&& st.blocks == block_views(bbs@)
                &&& st.states == infos_view(bb_consts_info@)
                &&& st.queue == work_list@
                &&& st.queued == in_work_list@
                &&& st.changed == changed
            }),
            forall|j: int| 0 <= j < n ==> all_folded_from(#[trigger] bs0[j], block_views(bbs@)[j]),
            !changed ==> block_views(bbs@) == bs0,
            changed ==> total_foldable(block_views(bbs@)) < total_foldable(bs0),
            total_foldable(block_views(bbs@)) <= total_foldable(bs0),
            function.name == old(function).name,
            function.args == old(function).args,
            function.return_type == old(function).return_type,
            function.instrs == old(function).instrs,
        decreases total_foldable(block_views(bbs@)), work_list@.len(),
    {
        let ghost st = cp_run(bs0, cp_init(bs0), steps);
        let ghost blocks0 = block_views(bbs@);
        let bb_idx = work_list.pop_front().unwrap();
        in_work_list.remove(&bb_idx);
        assert(bb_idx == st.queue[0]);

        // join the tables of the block's predecessors, in order
        let mut parent_states: Vec<&ConstantState> = Vec::new();
        let mut p: usize = 0;
        while p < n
            invariant
                n == bbs@.len(),
                bs0.len() == n,
                bb_idx < n,
                bb_consts_info@.len() == n,
                p <= n,
                forall|m: int, q: usize|
                    0 <= m < n ==> ((#[trigger] bbs@[m].in_bb_indices@.contains(q)) <==> q < n && cfg_edge(bs0, q as int, m)),
                state_views(parent_states@) == preds_upto(bs0, bb_idx as int, p as nat).map_values(
                    |q: usize| infos_view(bb_consts_info@)[q as int],
                ),
            decreases n - p,
        {
            let ghost before = state_views(parent_states@);
            if bbs[bb_idx].in_bb_indices.contains(&p) {
                parent_states.push(&bb_consts_info[p]);
                assert(state_views(parent_states@) =~= before.push(infos_view(bb_consts_info@)[p as int]));
            }
            assert(preds_upto(bs0, bb_idx as int, (p + 1) as nat).map_values(|q: usize| infos_view(bb_consts_info@)[q as int])
                =~= state_views(parent_states@));
            p += 1;
        }
        let joined_state = join_constant_states(parent_states);
        assert(joined_state@ == entry_table(bs0, st, bb_idx as int));

        let ghost b_old = blocks0[bb_idx as int];
        let ghost bbs_before = bbs@;
        let (c, state) = local_constant_prop(&mut bbs[bb_idx], joined_state);
        assert forall|m: int| 0 <= m < n implies #[trigger] bbs@[m].in_bb_indices == bbs_before[m].in_bb_indices
            && bbs@[m].out_bb_indices == bbs_before[m].out_bb_indices by {}
        proof {
            lemma_cp_block_folds_in_place(b_old, entry_table(bs0, st, bb_idx as int));
            lemma_total_update(blocks0, bb_idx as int, block_views(bbs@)[bb_idx as int]);
            assert(block_views(bbs@) =~= blocks0.update(bb_idx as int, block_views(bbs@)[bb_idx as int]));
        }
        bb_consts_info.set(bb_idx, state);
        let ghost queued1 = in_work_list@;
        let ghost queue1 = work_list@;
        if c {
            changed = true;
            // queue the block's successors that are not in the list, in order
            let mut s: usize = 0;
            while s < n
                invariant
                    n == bbs@.len(),
                    bs0.len() == n,
                    bb_idx < n,
                    s <= n,
                    forall|m: int, q: usize|
                        0 <= m < n ==> ((#[trigger] bbs@[m].out_bb_indices@.contains(q)) <==> q < n && cfg_edge(bs0, m, q as int)),
                    work_list@ == queue1 + new_succs(bs0, bb_idx as int, queued1, s as nat),
                    in_work_list@ == queued1.union(new_succs(bs0, bb_idx as int, queued1, s as nat).to_set()),
                    forall|q: int| 0 <= q < queue1.len() ==> #[trigger] queue1[q] < n,
                    forall|q: int| 0 <= q < work_list@.len() ==> #[trigger] work_list@[q] < n,
                    forall|q: int| 0 <= q < new_succs(bs0, bb_idx as int, queued1, s as nat).len() ==> #[trigger] new_succs(bs0, bb_idx as int, queued1, s as nat)[q] < s,
                decreases n - s,
            {
                let ghost pushed0 = new_succs(bs0, bb_idx as int, queued1, s as nat);
                if bbs[bb_idx].out_bb_indices.contains(&s) && !in_work_list.contains(&s) {
                    assert(!pushed0.to_set().contains(s)) by {
                        if pushed0.to_set().contains(s) {
                            let q = choose|q: int| 0 <= q < pushed0.len() && pushed0[q] == s;
                            assert(pushed0[q] < s);
                        }
                    }
                    in_work_list.insert(s);
                    work_list.push_back(s);
                    proof {
                        pushed0.lemma_push_to_set_commute(s);
                    }
                    assert(in_work_list@ =~= queued1.union(pushed0.push(s).to_set()));
                    assert(work_list@ =~= queue1 + pushed0.push(s));
                } else {
                    assert(!(cfg_edge(bs0, bb_idx as int, s as int) && !queued1.contains(s)));
                }
                s += 1;
            }
        }
        proof {
            lemma_cp_run_step(bs0, cp_init(bs0), steps);
            steps = steps + 1;
            let st2 = cp_run(bs0, cp_init(bs0), steps);
            assert(st2 == cp_step(bs0, st));
            assert(queue1 =~= st.queue.drop_first());
            assert(st2.blocks == block_views(bbs@));
            assert(st2.states =~= infos_view(bb_consts_info@));
            if !c {
                assert(work_list@ =~= st2.queue);
                assert(in_work_list@ =~= st2.queued);
            }
            assert forall|j: int| 0 <= j < n implies all_folded_from(#[trigger] bs0[j], block_views(bbs@)[j]) by {
                if j == bb_idx {
                    assert forall|i: int| 0 <= i < bs0[j].len() implies folded_from(#[trigger] bs0[j][i], block_views(bbs@)[j][i]) by {
                        assert(folded_from(bs0[j][i], b_old[i]));
                        assert(folded_from(b_old[i], block_views(bbs@)[j][i]));
                        lemma_folded_from_trans(bs0[j][i], b_old[i], block_views(bbs@)[j][i]);
                    }
                }
            }
        }
    }
    let ghost fin = cp_run(bs0, cp_init(bs0), steps);
    if changed {
        function.instrs.clear();
        let mut k: usize = 0;
        while k < n
            invariant
                n == bbs@.len(),
                fin.blocks.len() == n,
                k <= n,
                forall|m: int| k <= m < n ==> (#[trigger] bbs@[m]).ins() == fin.blocks[m],
                views(function.instrs@) == fin.blocks.take(k as int).flatten(),
                function.name == old(function).name,
                function.args == old(function).args,
                function.return_type == old(function).return_type,
            decreases n - k,
        {
            let ghost before = function.instrs@;
            let ghost added = bbs@[k as int].instrs@;
            assert(views(added) == fin.blocks[k as int]);
            function.instrs.append(&mut bbs[k].instrs);
            assert(fin.blocks.take(k + 1) =~= fin.blocks.take(k as int).push(fin.blocks[k as int]));
            proof {
                fin.blocks.take(k as int).lemma_flatten_push(fin.blocks[k as int]);
            }
            assert(function.instrs@ == before + added);
            assert(views(function.instrs@) =~= views(before) + views(added));
            k += 1;
        }
        assert(fin.blocks.take(n as int) =~= fin.blocks);
    }
    proof {
        lemma_folded_flatten(bs0, fin.blocks);
        lemma_total_flatten(bs0);
        lemma_total_flatten(fin.blocks);
        assert(fin.queue.len() == 0);
        if entry_unreached(bs0) {
            lemma_cp_run_sound(bs0, steps);
        }
    }
    changed
}

/// Global constant propagation and folding on every function; returns
/// whether anything was folded. When no block of a function leads back to
/// its first block, every instruction folded into a `const` holds the value
/// that the original instruction computes on every run that reaches it
/// (`folds_hold`); a jump back to the first block lets the tables of a later
/// pass reach its start, where nothing is known yet, so no such promise is
/// made there.
pub fn global_const_propagation_pass(program: &mut Program) -> (changed: bool)
    ensures
        final(program).functions@.len() == old(program).functions@.len(),
        forall|k: int|
            0 <= k < old(program).functions@.len() ==> {
                let f0 = #[trigger] old(program).functions@[k];
                let f1 = final(program).functions@[k];
                let bs0 = block_partition(views(f0.instrs@));
                &&& exists|steps: nat|
                    {
                        let fin = #[trigger] cp_run(bs0, cp_init(bs0), steps);
                        &&& fin.queue.len() == 0
                        &&& views(f1.instrs@) == fin.blocks.flatten()
                        &&& entry_unreached(bs0) ==> folds_hold(bs0, fin.blocks)
                    }
                &&& all_folded_from(views(f0.instrs@), views(f1.instrs@))
                &&& f1.name == f0.name
                &&& f1.args == f0.args
                &&& f1.return_type == f0.return_type
            },
        changed == exists|k: int|
            0 <= k < old(program).functions@.len() && #[trigger] old(program).functions@[k].instrs@ != final(program).functions@[k].instrs@,
{
    let mut changed: bool = false;
    let n = program.functions.len();
    let mut k: usize = 0;
    while k < n
        invariant
            n == old(program).functions@.len(),
            program.functions@.len() == n,
            k <= n,
            forall|m: int|
                0 <= m < k ==> {
                    let f0 = #[trigger] old(program).functions@[m];
                    let f1 = program.functions@[m];
                    let bs0 = block_partition(views(f0.instrs@));
                    &&& exists|steps: nat|
                        {
                            let fin = #[trigger] cp_run(bs0, cp_init(bs0), steps);
                            &&& fin.queue.len() == 0
                            &&& views(f1.instrs@) == fin.blocks.flatten()
                            &&& entry_unreached(bs0) ==> folds_hold(bs0, fin.blocks)
                        }
                    &&& all_folded_from(views(f0.instrs@), views(f1.instrs@))
                    &&& f1.name == f0.name
                    &&& f1.args == f0.args
                    &&& f1.return_type == f0.return_type
                },
            forall|m: int| k <= m < n ==> #[trigger] program.functions@[m] == old(program).functions@[m],
            changed == exists|m: int| 0 <= m < k && #[trigger] old(program).functions@[m].instrs@ != program.functions@[m].instrs@,
        decreases n - k,
    {
        let c = fn_constant_prop(&mut program.functions[k]);
        changed = changed || c;
        k += 1;
    }
    changed
}

/// The join keeps a variable only with the value every table gives it.
pub proof fn lemma_join_agrees(ts: Seq<Map<Seq<char>, LitModel>>, k: Seq<char>, i: int)
    requires
        0 <= i < ts.len(),
        join_spec(ts).dom().contains(k),
    ensures
        ts[i].dom().contains(k),
        ts[i][k] == join_spec(ts)[k],
{
    let m = Map::new(
        |kk: Seq<char>| forall|j: int| 0 <= j < ts.len() ==> #[trigger] ts[j].dom().contains(kk) && ts[j][kk] == ts[0][kk],
        |kk: Seq<char>| ts[0][kk],
    );
    assert(join_spec(ts) == m);
    assert(m.dom().contains(k));
    assert(forall|j: int| 0 <= j < ts.len() ==> #[trigger] ts[j].dom().contains(k) && ts[j][k] == ts[0][k]);
    assert(ts[i].dom().contains(k) && ts[i][k] == ts[0][k]);
}

/// Joining a single table gives that table.
pub proof fn lemma_join_single(t: Map<Seq<char>, LitModel>)
    ensures
        join_spec(seq![t]) == t,
{
    assert(join_spec(seq![t]) =~= t);
}

/// What running one instruction does to the variables: a `const` sets its
/// destination to its value; an operation whose arguments are all set and
/// that `eval_op` can evaluate sets its destination to that value (for
/// `fadd` and `fmul` the value is kept as the operation on the arguments);
/// any other definition sets its destination to some value, or leaves it
/// unset; the other variables keep theirs.
pub open spec fn env_step(x: InstrView, e: Map<Seq<char>, LitModel>, e2: Map<Seq<char>, LitModel>) -> bool {
    match x {
        InstrView::Opcode(op) => if op.kind is Const {
            e2 == e.insert(op.dest.unwrap(), op.value.unwrap())
        } else {
            match op.dest {
                Some(d) => match op_result(op, e) {
                    Some(v) => e2 == e.insert(d, v),
                    None => e2.remove(d) == e.remove(d),
                },
                None => e2 == e,
            }
        },
        _ => e2 == e,
    }
}

/// The value of an operation on the variables, when its arguments are all
/// set and `eval_op` can evaluate it.
pub open spec fn op_result(op: OpView, e: Map<Seq<char>, LitModel>) -> Option<LitModel> {
    match op.args {
        Some(a) => match arg_values(a, e) {
            Some(vals) => eval_op(op.kind, vals),
            None => None,
        },
        None => None,
    }
}

/// One step of a run of the blocks `bs`, between configurations (block,
/// position in the block, variables): inside a block, the instruction at
/// the position runs; at the end of a block, control goes to a successor
/// with the variables as they are.
pub open spec fn exec_step(
    bs: Seq<Seq<InstrView>>,
    c: (int, int, Map<Seq<char>, LitModel>),
    c2: (int, int, Map<Seq<char>, LitModel>),
) -> bool {
    &&& 0 <= c.0 < bs.len()
    &&& 0 <= c.1 <= bs[c.0].len()
    &&& if c.1 < bs[c.0].len() {
        c2.0 == c.0 && c2.1 == c.1 + 1 && env_step(bs[c.0][c.1], c.2, c2.2)
    } else {
        0 <= c2.0 < bs.len() && cfg_edge(bs, c.0, c2.0) && c2.1 == 0 && c2.2 == c.2
    }
}

/// `tr` is a run of the blocks `bs` from the start of the first block, with
/// any values of the variables to begin with.
pub open spec fn is_exec(bs: Seq<Seq<InstrView>>, tr: Seq<(int, int, Map<Seq<char>, LitModel>)>) -> bool {
    &&& bs.len() > 0
    &&& tr.len() > 0
    &&& tr[0].0 == 0
    &&& tr[0].1 == 0
    &&& forall|k: int| 0 <= k < tr.len() - 1 ==> #[trigger] exec_step(bs, tr[k], tr[k + 1])
}

/// The variables hold every value the table gives.
pub open spec fn agrees(e: Map<Seq<char>, LitModel>, t: Map<Seq<char>, LitModel>) -> bool {
    forall|x: Seq<char>| #[trigger] t.dom().contains(x) ==> e.dom().contains(x) && e[x] == t[x]
}

/// Every run that reaches position `i` of block `j` has there the values
/// the table `t` gives.
pub open spec fn holds_at(bs: Seq<Seq<InstrView>>, j: int, i: int, t: Map<Seq<char>, LitModel>) -> bool {
    forall|tr: Seq<(int, int, Map<Seq<char>, LitModel>)>, k: int|
        #![trigger is_exec(bs, tr), tr[k]]
        is_exec(bs, tr) && 0 <= k < tr.len() && tr[k].0 == j && tr[k].1 == i ==> agrees(tr[k].2, t)
}

/// Every run that reaches instruction `i` of block `j` computes there the
/// value `v`.
pub open spec fn computes_at(bs: Seq<Seq<InstrView>>, j: int, i: int, v: LitModel) -> bool {
    forall|tr: Seq<(int, int, Map<Seq<char>, LitModel>)>, k: int|
        #![trigger is_exec(bs, tr), tr[k]]
        is_exec(bs, tr) && 0 <= k < tr.len() && tr[k].0 == j && tr[k].1 == i ==> op_result(bs[j][i]->Opcode_0, tr[k].2) == Some(v)
}

/// Each instruction of `blocks` that differs from the one at its place in
/// `bs` is a `const` whose value the instruction of `bs` computes on every
/// run that reaches it.
pub open spec fn folds_hold(bs: Seq<Seq<InstrView>>, blocks: Seq<Seq<InstrView>>) -> bool {
    forall|j: int, i: int|
        0 <= j < bs.len() && 0 <= i < bs[j].len() && #[trigger] blocks[j][i] != bs[j][i] ==> computes_at(
            bs,
            j,
            i,
            blocks[j][i]->Opcode_0.value.unwrap(),
        )
}

/// No block jumps or falls into the first block.
pub open spec fn entry_unreached(bs: Seq<Seq<InstrView>>) -> bool {
    forall|p: int| 0 <= p < bs.len() ==> !#[trigger] cfg_edge(bs, p, 0)
}

/// Folding one instruction under a table the variables agree with gives
/// the value the original instruction computes.
proof fn lemma_inst_fold_sound(x0: InstrView, x: InstrView, e: Map<Seq<char>, LitModel>, t: Map<Seq<char>, LitModel>)
    requires
        folded_from(x0, x),
        x == x0,
        agrees(e, t),
    ensures
        ({
            let (x2, t2, c) = cp_inst(x, t);
            x2 != x0 ==> x0 is Opcode && op_result(x0->Opcode_0, e) == Some(x2->Opcode_0.value.unwrap())
        }),
{
    let (x2, t2, c) = cp_inst(x, t);
    if x2 != x0 {
        let op = x0->Opcode_0;
        let t1 = table_after_def(op, t);
        let a = op.args.unwrap();
        assert(arg_values(a, t1) is Some);
        assert forall|j: int| 0 <= j < a.len() implies e.dom().contains(#[trigger] a[j]) && e[a[j]] == t1[a[j]] by {
            assert(t1.dom().contains(a[j]));
            if op.kind is Const {
            } else {
                assert(t.dom().contains(a[j]));
            }
        }
        assert(a.map_values(|n: Seq<char>| e[n]) =~= a.map_values(|n: Seq<char>| t1[n]));
    }
}

/// Running an instruction keeps the variables in agreement with the table
/// constant propagation gives after it, when the instruction in place is
/// the original or a `const` holding what the original computes.
proof fn lemma_inst_table_sound(
    x0: InstrView,
    x: InstrView,
    e: Map<Seq<char>, LitModel>,
    e2: Map<Seq<char>, LitModel>,
    t: Map<Seq<char>, LitModel>,
)
    requires
        folded_from(x0, x),
        x != x0 ==> x0 is Opcode && op_result(x0->Opcode_0, e) == Some(x->Opcode_0.value.unwrap()),
        agrees(e, t),
        env_step(x0, e, e2),
    ensures
        agrees(e2, cp_inst(x, t).1),
{
    let (x2, t2, c) = cp_inst(x, t);
    if x == x0 {
        lemma_inst_fold_sound(x0, x, e, t);
        match x0 {
            InstrView::Opcode(op) => {
                let t1 = table_after_def(op, t);
                match op.dest {
                    Some(d) => {
                        if !(op.kind is Const) {
                            assert forall|y: Seq<char>| y != d && #[trigger] e.dom().contains(y) implies e2.dom().contains(y) && e2[y] == e[y] by {
                                if op_result(op, e) is None {
                                    assert(e.remove(d).dom().contains(y));
                                    assert(e2.remove(d).dom().contains(y));
                                    assert(e2.remove(d)[y] == e.remove(d)[y]);
                                }
                            }
                            assert forall|y: Seq<char>| #[trigger] t2.dom().contains(y) implies e2.dom().contains(y) && e2[y] == t2[y] by {
                                if y != d {
                                    assert(t1.dom().contains(y));
                                    assert(t.dom().contains(y));
                                    assert(e.dom().contains(y));
                                } else {
                                    assert(c);
                                    assert(op_result(op, e) == Some(x2->Opcode_0.value.unwrap()));
                                }
                            }
                        } else {
                            assert forall|y: Seq<char>| #[trigger] t2.dom().contains(y) implies e2.dom().contains(y) && e2[y] == t2[y] by {
                                if y != d {
                                    assert(t.dom().contains(y));
                                }
                            }
                        }
                    },
                    None => {
                        assert(agrees(e2, t2));
                    },
                }
                assert(agrees(e2, t2));
            },
            _ => {
                assert(agrees(e2, t2));
            },
        }
    } else {
        let op0 = x0->Opcode_0;
        let v = x->Opcode_0.value.unwrap();
        assert(x == const_view(op0.dest.unwrap(), op0.typ.unwrap(), choose|w: LitModel| x == #[trigger] const_view(op0.dest.unwrap(), op0.typ.unwrap(), w)));
        assert(!(op0.kind is Const));
        assert(e2 == e.insert(op0.dest.unwrap(), v));
        assert forall|y: Seq<char>| #[trigger] t2.dom().contains(y) implies e2.dom().contains(y) && e2[y] == t2[y] by {
            if y != op0.dest.unwrap() {
                assert(t.dom().contains(y));
            }
        }
        assert(agrees(e2, t2));
    }
}

/// Constant propagation over the first `n` instructions of block `j`, in
/// a version `b` of it whose folds hold, from a table that holds at the
/// block's entry: the table it reaches holds at position `n`, and every
/// fold it makes holds.
proof fn lemma_scan_sound(bs0: Seq<Seq<InstrView>>, j: int, b: Seq<InstrView>, t0: Map<Seq<char>, LitModel>, n: nat)
    requires
        0 <= j < bs0.len(),
        all_folded_from(bs0[j], b),
        forall|i: int| 0 <= i < b.len() && #[trigger] b[i] != bs0[j][i] ==> computes_at(bs0, j, i, b[i]->Opcode_0.value.unwrap()),
        holds_at(bs0, j, 0, t0),
        n <= b.len(),
    ensures
        cp_scan(b, t0, n).0.len() == n,
        holds_at(bs0, j, n as int, cp_scan(b, t0, n).1),
        forall|i: int|
            0 <= i < n && #[trigger] cp_scan(b, t0, n).0[i] != bs0[j][i] ==> computes_at(
                bs0,
                j,
                i,
                cp_scan(b, t0, n).0[i]->Opcode_0.value.unwrap(),
            ),
    decreases n,
{
    if n > 0 {
        lemma_scan_sound(bs0, j, b, t0, (n - 1) as nat);
        let (out1, t1, ch) = cp_scan(b, t0, (n - 1) as nat);
        let x0 = bs0[j][n - 1];
        let x = b[n - 1];
        let (x2, t2, c2) = cp_inst(x, t1);
        let out = out1.push(x2);
        assert(cp_scan(b, t0, n).0 == out);
        assert(folded_from(x0, x));
        if x != x0 {
            assert(x2 == x);
        }
        assert forall|tr: Seq<(int, int, Map<Seq<char>, LitModel>)>, k: int|
            #![trigger is_exec(bs0, tr), tr[k]]
            is_exec(bs0, tr) && 0 <= k < tr.len() && tr[k].0 == j && tr[k].1 == n implies agrees(tr[k].2, t2) by {
            assert(k > 0);
            assert(exec_step(bs0, tr[k - 1], tr[(k - 1) + 1]));
            let e = tr[k - 1].2;
            assert(tr[k - 1].0 == j && tr[k - 1].1 == n - 1);
            assert(agrees(e, t1));
            if x != x0 {
                assert(op_result(x0->Opcode_0, e) == Some(x->Opcode_0.value.unwrap()));
            }
            lemma_inst_table_sound(x0, x, e, tr[k].2, t1);
        }
        assert forall|i: int| 0 <= i < n && #[trigger] out[i] != bs0[j][i] implies computes_at(bs0, j, i, out[i]->Opcode_0.value.unwrap()) by {
            if i < n - 1 {
                assert(out[i] == out1[i]);
            } else if x == x0 {
                assert forall|tr: Seq<(int, int, Map<Seq<char>, LitModel>)>, k: int|
                    #![trigger is_exec(bs0, tr), tr[k]]
                    is_exec(bs0, tr) && 0 <= k < tr.len() && tr[k].0 == j && tr[k].1 == i implies op_result(
                        bs0[j][i]->Opcode_0,
                        tr[k].2,
                    ) == Some(out[i]->Opcode_0.value.unwrap()) by {
                    assert(agrees(tr[k].2, t1));
                    lemma_inst_fold_sound(x0, x, tr[k].2, t1);
                }
            }
        }
    }
}

/// The blocks listed as predecessors of block `j` among the first `m` are
/// exactly those with an edge to `j`.
proof fn lemma_preds_upto(bs: Seq<Seq<InstrView>>, j: int, m: nat)
    requires
        m <= usize::MAX + 1,
    ensures
        forall|q: int|
            0 <= q < preds_upto(bs, j, m).len() ==> (#[trigger] preds_upto(bs, j, m)[q] as int) < m && cfg_edge(
                bs,
                preds_upto(bs, j, m)[q] as int,
                j,
            ),
        forall|p: int| 0 <= p < m && cfg_edge(bs, p, j) ==> exists|q: int| 0 <= q < preds_upto(bs, j, m).len() && #[trigger] preds_upto(bs, j, m)[q] == p as usize,
    decreases m,
{
    if m > 0 {
        let pm = preds_upto(bs, j, (m - 1) as nat);
        lemma_preds_upto(bs, j, (m - 1) as nat);
        let pr = preds_upto(bs, j, m);
        assert forall|p: int| 0 <= p < m && cfg_edge(bs, p, j) implies exists|q: int| 0 <= q < pr.len() && #[trigger] pr[q] == p as usize by {
            if p < m - 1 {
                let q = choose|q: int| 0 <= q < pm.len() && #[trigger] pm[q] == p as usize;
                assert(pr[q] == pm[q]);
            } else {
                assert(pr[pr.len() - 1] == p as usize);
            }
        }
        assert forall|q: int| 0 <= q < pr.len() implies (#[trigger] pr[q] as int) < m && cfg_edge(bs, pr[q] as int, j) by {
            if q < pm.len() {
                assert(pr[q] == pm[q]);
            }
        }
    }
}

/// The blocks added to the work list lie among the first `m`.
proof fn lemma_new_succs_range(bs: Seq<Seq<InstrView>>, j: int, queued: Set<usize>, m: nat)
    requires
        m <= usize::MAX + 1,
    ensures
        forall|q: int| 0 <= q < new_succs(bs, j, queued, m).len() ==> (#[trigger] new_succs(bs, j, queued, m)[q] as int) < m,
    decreases m,
{
    if m > 0 {
        lemma_new_succs_range(bs, j, queued, (m - 1) as nat);
        let pm = new_succs(bs, j, queued, (m - 1) as nat);
        let pr = new_succs(bs, j, queued, m);
        assert forall|q: int| 0 <= q < pr.len() implies (#[trigger] pr[q] as int) < m by {
            if q < pm.len() {
                assert(pr[q] == pm[q]);
            }
        }
    }
}

/// The table at the entry of a block holds there, when the tables at the
/// exits of all blocks hold and no block leads to the first one.
proof fn lemma_entry_sound(bs0: Seq<Seq<InstrView>>, st: CpRun, j: int)
    requires
        0 <= j < bs0.len(),
        bs0.len() <= usize::MAX,
        entry_unreached(bs0),
        st.states.len() == bs0.len(),
        forall|p: int| 0 <= p < bs0.len() ==> holds_at(bs0, p, bs0[p].len() as int, #[trigger] st.states[p]),
    ensures
        holds_at(bs0, j, 0, entry_table(bs0, st, j)),
{
    let ps = preds_upto(bs0, j, bs0.len());
    let ts = ps.map_values(|p: usize| st.states[p as int]);
    lemma_preds_upto(bs0, j, bs0.len());
    assert forall|tr: Seq<(int, int, Map<Seq<char>, LitModel>)>, k: int|
        #![trigger is_exec(bs0, tr), tr[k]]
        is_exec(bs0, tr) && 0 <= k < tr.len() && tr[k].0 == j && tr[k].1 == 0 implies agrees(tr[k].2, entry_table(bs0, st, j)) by {
        if k == 0 {
            if ps.len() > 0 {
                assert(cfg_edge(bs0, ps[0] as int, j));
            }
            assert(ts.len() == 0);
        } else {
            assert(exec_step(bs0, tr[k - 1], tr[(k - 1) + 1]));
            let p = tr[k - 1].0;
            let e = tr[k].2;
            assert(cfg_edge(bs0, p, j));
            assert(holds_at(bs0, p, bs0[p].len() as int, st.states[p]));
            assert(agrees(e, st.states[p]));
            let q = choose|q: int| 0 <= q < ps.len() && #[trigger] ps[q] == p as usize;
            assert forall|x: Seq<char>| #[trigger] join_spec(ts).dom().contains(x) implies e.dom().contains(x) && e[x] == join_spec(ts)[x] by {
                lemma_join_agrees(ts, x, q);
                assert(ts[q] == st.states[p]);
            }
        }
    }
}

/// What stays true along the work list of constant propagation, as long as
/// no block leads to the first one: the tables at block exits hold, the
/// blocks are folded in place, and every fold holds.
pub open spec fn cp_sound_inv(bs0: Seq<Seq<InstrView>>, st: CpRun) -> bool {
    &&& st.blocks.len() == bs0.len()
    &&& st.states.len() == bs0.len()
    &&& forall|q: int| 0 <= q < st.queue.len() ==> (#[trigger] st.queue[q] as int) < bs0.len()
    &&& forall|j: int| 0 <= j < bs0.len() ==> all_folded_from(#[trigger] bs0[j], st.blocks[j])
    &&& forall|j: int| 0 <= j < bs0.len() ==> holds_at(bs0, j, bs0[j].len() as int, #[trigger] st.states[j])
    &&& folds_hold(bs0, st.blocks)
}

proof fn lemma_cp_step_sound(bs0: Seq<Seq<InstrView>>, st: CpRun)
    requires
        bs0.len() <= usize::MAX,
        entry_unreached(bs0),
        cp_sound_inv(bs0, st),
    ensures
        cp_sound_inv(bs0, cp_step(bs0, st)),
{
    if st.queue.len() > 0 {
        let j = st.queue[0] as int;
        let b = st.blocks[j];
        let tin = entry_table(bs0, st, j);
        let (out, t, ch) = cp_block(b, tin);
        let st2 = cp_step(bs0, st);
        lemma_entry_sound(bs0, st, j);
        assert(all_folded_from(bs0[j], b));
        assert forall|i: int| 0 <= i < b.len() && #[trigger] b[i] != bs0[j][i] implies computes_at(bs0, j, i, b[i]->Opcode_0.value.unwrap()) by {
            assert(st.blocks[j][i] != bs0[j][i]);
        }
        lemma_scan_sound(bs0, j, b, tin, b.len());
        lemma_cp_block_folds_in_place(b, tin);
        assert(all_folded_from(bs0[j], out)) by {
            assert forall|i: int| 0 <= i < bs0[j].len() implies folded_from(#[trigger] bs0[j][i], out[i]) by {
                assert(folded_from(bs0[j][i], b[i]));
                assert(folded_from(b[i], out[i]));
                lemma_folded_from_trans(bs0[j][i], b[i], out[i]);
            }
        }
        let queued1 = st.queued.remove(j as usize);
        lemma_new_succs_range(bs0, j, queued1, bs0.len());
        assert forall|q: int| 0 <= q < st2.queue.len() implies (#[trigger] st2.queue[q] as int) < bs0.len() by {
            if q < st.queue.len() - 1 {
                assert(st2.queue[q] == st.queue[q + 1]);
            }
        }
        assert forall|j2: int| 0 <= j2 < bs0.len() implies all_folded_from(#[trigger] bs0[j2], st2.blocks[j2]) by {
            if j2 != j {
                assert(st2.blocks[j2] == st.blocks[j2]);
            }
        }
        assert forall|j2: int| 0 <= j2 < bs0.len() implies holds_at(bs0, j2, bs0[j2].len() as int, #[trigger] st2.states[j2]) by {
            if j2 != j {
                assert(st2.states[j2] == st.states[j2]);
            }
        }
        assert forall|j2: int, i: int|
            0 <= j2 < bs0.len() && 0 <= i < bs0[j2].len() && #[trigger] st2.blocks[j2][i] != bs0[j2][i] implies computes_at(
            bs0,
            j2,
            i,
            st2.blocks[j2][i]->Opcode_0.value.unwrap(),
        ) by {
            if j2 != j {
                assert(st2.blocks[j2] == st.blocks[j2]);
                assert(st.blocks[j2][i] != bs0[j2][i]);
            } else {
                assert(st2.blocks[j2] == out);
                assert(out == cp_scan(b, tin, b.len()).0);
            }
        }
    }
}

/// Constant propagation keeps what the program computes: as long as no
/// block leads to the first one, after any number of steps of the work
/// list, every instruction folded into a `const` has the value that the
/// original instruction computes on every run of the blocks that reaches
/// it.
pub proof fn lemma_cp_run_sound(bs0: Seq<Seq<InstrView>>, steps: nat)
    requires
        bs0.len() <= usize::MAX,
        entry_unreached(bs0),
    ensures
        cp_sound_inv(bs0, cp_run(bs0, cp_init(bs0), steps)),
        folds_hold(bs0, cp_run(bs0, cp_init(bs0), steps).blocks),
    decreases steps,
{
    if steps == 0 {
        let st = cp_init(bs0);
        assert(cp_run(bs0, st, 0) == st);
        assert forall|j: int| 0 <= j < bs0.len() implies all_folded_from(#[trigger] bs0[j], st.blocks[j]) by {}
        assert forall|j: int| 0 <= j < bs0.len() implies holds_at(bs0, j, bs0[j].len() as int, #[trigger] st.states[j]) by {
            assert(st.states[j] == Map::<Seq<char>, LitModel>::empty());
        }
    } else {
        lemma_cp_run_sound(bs0, (steps - 1) as nat);
        lemma_cp_run_step(bs0, cp_init(bs0), (steps - 1) as nat);
        lemma_cp_step_sound(bs0, cp_run(bs0, cp_init(bs0), (steps - 1) as nat));
    }
}

} // verus!
