use std::collections::HashSet;

use bril_forge::ast::{BasicBlock, Function, Instruction, Literal, OpcodeInstruction, Type};
use bril_forge::dom::{
    get_dom_context, get_post_order_traversal_ordering, get_reverse_post_order_traversal_ordering,
    get_set_intersection, BBDomContext, DomContext,
};
use bril_forge::passes::const_prop::{evaluate, join_constant_states, local_constant_prop, ConstantState};
use bril_forge::passes::dce::collect_uses;
use bril_forge::passes::live::{
    bb_update_liveness, compute_liveness, get_bb_def_list, get_bb_meaningful_use_list, get_bb_use_list, LivenessState,
};
use bril_forge::passes::loops::{create_and_insert_pre_header, loop_body};
use bril_forge::passes::lvn::lvn_bb;
use bril_forge::passes::pointer_analysis::{build_point_to_graph, var_alias, PointToGraph};

fn s(x: &str) -> String {
    x.to_string()
}

fn int_ty() -> Type {
    Type::Primitive(s("int"))
}

fn cnst(dest: &str, v: i64) -> Instruction {
    Instruction::Opcode(OpcodeInstruction::Const { dest: s(dest), typ: int_ty(), value: Literal::Int(v) })
}

fn add(dest: &str, a: &str, b: &str) -> Instruction {
    Instruction::Opcode(OpcodeInstruction::Add { args: vec![s(a), s(b)], dest: s(dest), typ: int_ty() })
}

fn id(dest: &str, a: &str) -> Instruction {
    Instruction::Opcode(OpcodeInstruction::Id { args: vec![s(a)], dest: s(dest), typ: int_ty() })
}

fn lt(dest: &str, a: &str, b: &str) -> Instruction {
    Instruction::Opcode(OpcodeInstruction::Lt {
        args: vec![s(a), s(b)],
        dest: s(dest),
        typ: Type::Primitive(s("bool")),
    })
}

fn print(args: &[&str]) -> Instruction {
    Instruction::Opcode(OpcodeInstruction::Print { args: args.iter().map(|a| s(a)).collect() })
}

fn label(l: &str) -> Instruction {
    Instruction::Label { label: s(l) }
}

fn jmp(l: &str) -> Instruction {
    Instruction::Opcode(OpcodeInstruction::Jmp { labels: vec![s(l)] })
}

fn br(c: &str, t: &str, f: &str) -> Instruction {
    Instruction::Opcode(OpcodeInstruction::Br { args: vec![s(c)], labels: vec![s(t), s(f)] })
}

fn alloc_op(dest: &str, n: &str) -> Instruction {
    Instruction::Opcode(OpcodeInstruction::Alloc {
        args: vec![s(n)],
        dest: s(dest),
        typ: Type::Pointer { ptr: s("int") },
    })
}

fn load(dest: &str, p: &str) -> Instruction {
    Instruction::Opcode(OpcodeInstruction::Load { args: vec![s(p)], dest: s(dest), typ: int_ty() })
}

fn func(instrs: Vec<Instruction>) -> Function {
    Function { name: s("main"), args: None, instrs, return_type: None }
}

fn block(instrs: Vec<Instruction>) -> BasicBlock {
    let mut bb = BasicBlock::new();
    bb.instrs = instrs;
    bb
}

fn set(xs: &[usize]) -> HashSet<usize> {
    xs.iter().cloned().collect()
}

fn first_label(bb: &BasicBlock) -> Option<String> {
    match bb.instrs.first() {
        Some(Instruction::Label { label }) => Some(label.clone()),
        _ => None,
    }
}

fn jump_targets(i: &Instruction) -> Vec<String> {
    match i {
        Instruction::Opcode(OpcodeInstruction::Jmp { labels }) => labels.clone(),
        Instruction::Opcode(OpcodeInstruction::Br { labels, .. }) => labels.clone(),
        _ => vec![],
    }
}

/// A loop: `.header` tests, `.body` jumps back, `.exit` leaves, and
/// `.done` closes the function.
fn loop_function() -> Function {
    func(vec![
        cnst("i", 1),
        label("header"),
        cnst("max", 10),
        lt("cond", "i", "max"),
        br("cond", "body", "exit"),
        label("body"),
        cnst("h", 15),
        print(&["h"]),
        jmp("header"),
        label("exit"),
        print(&["i"]),
        label("done"),
    ])
}

#[test]
fn type_to_string_writes_pointers() {
    assert_eq!(Type::Primitive(s("int")).to_string(), "int");
    assert_eq!(Type::Pointer { ptr: s("int") }.to_string(), "ptr<int>");
}

#[test]
fn instruction_queries() {
    let b = br("c", "l", "r");
    assert!(b.is_control_inst());
    assert!(!b.has_no_side_effects());
    assert_eq!(b.get_use_list(), vec![s("c"), s("l"), s("r")]);
    assert_eq!(b.get_result(), None);
    let l = label("l");
    assert!(l.is_label());
    assert!(l.is_meaningful());
    assert_eq!(l.get_result(), Some(s("l")));
    let a = add("x", "y", "z");
    assert!(a.has_no_side_effects());
    assert_eq!(a.get_result(), Some(s("x")));
    let st = Instruction::Opcode(OpcodeInstruction::Store { args: vec![s("p"), s("v")] });
    assert!(st.is_meaningful());
}

#[test]
fn opcode_queries_and_argument_edits() {
    let mut op = OpcodeInstruction::Add { args: vec![s("a"), s("b")], dest: s("x"), typ: int_ty() };
    assert!(op.is_assignment_inst());
    assert_eq!(op.get_dest(), Some(s("x")));
    assert_eq!(op.get_type().map(|t| t.to_string()), Some(s("int")));
    match op.get_args() {
        Some(args) => args[0] = s("c"),
        None => panic!("add has arguments"),
    }
    assert_eq!(op.get_use_list(), vec![s("c"), s("b")]);
    let mut c = OpcodeInstruction::Const { dest: s("k"), typ: int_ty(), value: Literal::Int(3) };
    assert!(c.get_args().is_none());
    let mut j = OpcodeInstruction::Jmp { labels: vec![s("l")] };
    assert!(j.get_args().is_none());
    assert!(!j.is_assignment_inst());
}

#[test]
fn basic_blocks_of_a_loop() {
    let bbs = loop_function().get_basic_blocks();
    assert_eq!(bbs.len(), 5);
    assert_eq!(bbs[0].instrs.len(), 1);
    assert_eq!(bbs[1].label, Some(s("header")));
    assert_eq!(bbs[1].out_labels, vec![s("body"), s("exit")]);
    assert_eq!(bbs[0].out_bb_indices, set(&[1]));
    assert_eq!(bbs[1].out_bb_indices, set(&[2, 3]));
    assert_eq!(bbs[2].out_bb_indices, set(&[1]));
    assert_eq!(bbs[1].in_bb_indices, set(&[0, 2]));
    assert_eq!(bbs[3].in_bb_indices, set(&[1]));
    assert_eq!(bbs[3].out_bb_indices, set(&[4]));
    assert_eq!(bbs[4].in_bb_indices, set(&[3]));
    assert_eq!(bbs[4].out_bb_indices, set(&[]));
    let total: usize = bbs.iter().map(|b| b.instrs.len()).sum();
    assert_eq!(total, 12);
}

#[test]
fn a_jump_reaches_a_trailing_labelled_block() {
    let bbs = func(vec![cnst("c", 1), br("c", "a", "b"), label("a"), jmp("b"), label("b"), print(&["c"])]).get_basic_blocks();
    assert_eq!(bbs.len(), 3);
    assert_eq!(bbs[0].out_bb_indices, set(&[1, 2]));
    assert_eq!(bbs[1].out_bb_indices, set(&[2]));
    assert_eq!(bbs[2].in_bb_indices, set(&[0, 1]));
    let bbs = func(vec![jmp("end"), label("end"), print(&["x"])]).get_basic_blocks();
    assert_eq!(bbs.len(), 2);
    assert_eq!(bbs[0].out_bb_indices, set(&[1]));
    assert_eq!(bbs[1].in_bb_indices, set(&[0]));
    assert_eq!(bbs[1].label, Some(s("end")));
}

#[test]
fn basic_blocks_edges_agree() {
    let bbs = loop_function().get_basic_blocks();
    for k in 0..bbs.len() {
        for j in 0..bbs.len() {
            assert_eq!(bbs[k].out_bb_indices.contains(&j), bbs[j].in_bb_indices.contains(&k));
        }
    }
}

#[test]
fn basic_blocks_of_an_empty_function() {
    assert!(func(vec![]).get_basic_blocks().is_empty());
}

#[test]
fn basic_block_new_is_empty() {
    let bb = BasicBlock::new();
    assert!(bb.instrs.is_empty());
    assert!(bb.label.is_none());
    assert!(bb.in_bb_indices.is_empty() && bb.out_bb_indices.is_empty());
    assert_eq!(bb.immediate_dominator_index, 0);
}

#[test]
fn dominators_of_a_loop() {
    let bbs = loop_function().get_basic_blocks();
    let ctx: DomContext = get_dom_context(&bbs);
    let d: Vec<&BBDomContext> = ctx.bbs.iter().collect();
    assert_eq!(d.len(), 5);
    assert_eq!(d[0].dominators, set(&[0]));
    // the back edge from the body does not take the entry block away from
    // the header
    assert_eq!(d[1].dominators, set(&[0, 1]));
    assert_eq!(d[2].dominators, set(&[0, 1, 2]));
    assert_eq!(d[3].dominators, set(&[0, 1, 3]));
    assert_eq!(d[4].dominators, set(&[0, 1, 3, 4]));
}

#[test]
fn dominators_of_a_diamond() {
    let bbs = func(vec![
        cnst("c", 1),
        br("c", "l", "r"),
        label("l"),
        jmp("m"),
        label("r"),
        jmp("m"),
        label("m"),
        print(&["c"]),
        jmp("end"),
        label("end"),
    ])
    .get_basic_blocks();
    assert_eq!(bbs.len(), 5);
    let ctx = get_dom_context(&bbs);
    assert_eq!(ctx.bbs[0].dominators, set(&[0]));
    assert_eq!(ctx.bbs[1].dominators, set(&[0, 1]));
    assert_eq!(ctx.bbs[2].dominators, set(&[0, 2]));
    assert_eq!(ctx.bbs[3].dominators, set(&[0, 3]));
}

#[test]
fn dominators_of_unreachable_blocks_are_empty() {
    let bbs = func(vec![jmp("end"), print(&["x"]), jmp("end"), label("end"), print(&["y"]), jmp("end")]).get_basic_blocks();
    assert_eq!(bbs.len(), 3);
    let ctx = get_dom_context(&bbs);
    assert!(ctx.bbs[1].dominators.is_empty());
    // the unreachable predecessor has no say; the self loop keeps the entry
    assert_eq!(ctx.bbs[2].dominators, set(&[0, 2]));
}

#[test]
fn post_order_of_a_loop() {
    let bbs = loop_function().get_basic_blocks();
    let post = get_post_order_traversal_ordering(&bbs);
    assert_eq!(post.len(), 5);
    assert_eq!(post[4], 0);
    let rpo = get_reverse_post_order_traversal_ordering(&bbs);
    let mut reversed = post.clone();
    reversed.reverse();
    assert_eq!(rpo, reversed);
    assert_eq!(rpo[0], 0);
    let pos = |b: usize| rpo.iter().position(|&x| x == b).unwrap();
    assert!(pos(1) < pos(2) && pos(1) < pos(3) && pos(3) < pos(4));
}

#[test]
fn post_order_leaves_out_unreachable_blocks() {
    let bbs = func(vec![jmp("end"), print(&["x"]), jmp("end"), label("end"), print(&["y"]), jmp("end")]).get_basic_blocks();
    assert_eq!(get_post_order_traversal_ordering(&bbs), vec![2, 0]);
}

#[test]
fn set_intersection() {
    assert_eq!(get_set_intersection(&vec![set(&[1, 2, 3]), set(&[2, 3, 4]), set(&[3, 2])]), set(&[2, 3]));
    assert_eq!(get_set_intersection(&vec![]), set(&[]));
    assert_eq!(get_set_intersection(&vec![set(&[7])]), set(&[7]));
}

#[test]
fn pre_header_takes_the_header_edges_and_label() {
    let mut bbs = loop_function().get_basic_blocks();
    create_and_insert_pre_header(&mut bbs, 1, 2);
    assert_eq!(bbs.len(), 6);
    // the pre-header holds the header's label and falls through to it
    assert_eq!(first_label(&bbs[1]), Some(s("header")));
    assert_eq!(bbs[1].instrs.len(), 1);
    assert_eq!(bbs[1].label, Some(s("header")));
    assert_eq!(bbs[1].out_bb_indices, set(&[2]));
    assert_eq!(bbs[1].in_bb_indices, set(&[0]));
    // the old header
    assert_eq!(first_label(&bbs[2]), Some(s("header@old")));
    assert_eq!(bbs[2].label, Some(s("header@old")));
    assert_eq!(bbs[2].in_bb_indices, set(&[1, 3]));
    assert_eq!(bbs[2].out_bb_indices, set(&[3, 4]));
    // the back node jumps to the old header
    assert_eq!(bbs[3].out_bb_indices, set(&[2]));
    assert_eq!(jump_targets(bbs[3].instrs.last().unwrap()), vec![s("header@old")]);
    assert_eq!(bbs[3].out_labels, vec![s("header@old")]);
    // the entry now enters the pre-header
    assert_eq!(bbs[0].out_bb_indices, set(&[1]));
    assert_eq!(bbs[4].in_bb_indices, set(&[2]));
    assert_eq!(bbs[5].in_bb_indices, set(&[4]));
}

#[test]
fn pre_header_of_an_unlabelled_header() {
    let mut bbs = vec![block(vec![cnst("a", 1)]), block(vec![print(&["a"])])];
    bbs[0].out_bb_indices = set(&[1]);
    bbs[1].in_bb_indices = set(&[0, 1]);
    bbs[1].out_bb_indices = set(&[1]);
    create_and_insert_pre_header(&mut bbs, 1, 1);
    assert_eq!(bbs.len(), 3);
    assert!(bbs[1].instrs.is_empty());
    assert_eq!(bbs[1].label, None);
    assert_eq!(bbs[1].in_bb_indices, set(&[0]));
    assert_eq!(bbs[2].in_bb_indices, set(&[1, 2]));
    assert_eq!(bbs[2].out_bb_indices, set(&[2]));
}

#[test]
fn constant_state_table() {
    let mut t = ConstantState::new();
    assert!(t.get(&s("a")).is_none());
    t.set(s("a"), Literal::Int(1));
    t.set(s("a"), Literal::Int(2));
    assert!(matches!(t.get(&s("a")), Some(Literal::Int(2))));
    let c = t.copy();
    t.remove(&s("a"));
    assert!(t.get(&s("a")).is_none());
    assert!(matches!(c.get(&s("a")), Some(Literal::Int(2))));
}

#[test]
fn join_keeps_agreeing_constants() {
    let mut a = ConstantState::new();
    a.set(s("x"), Literal::Int(1));
    a.set(s("y"), Literal::Int(7));
    let mut b = ConstantState::new();
    b.set(s("x"), Literal::Int(2));
    b.set(s("y"), Literal::Int(7));
    b.set(s("z"), Literal::Int(0));
    let j = join_constant_states(vec![&a, &b]);
    assert!(j.get(&s("x")).is_none());
    assert!(matches!(j.get(&s("y")), Some(Literal::Int(7))));
    assert!(j.get(&s("z")).is_none());
    let single = join_constant_states(vec![&b]);
    assert!(matches!(single.get(&s("z")), Some(Literal::Int(0))));
    let none = join_constant_states(vec![]);
    assert!(none.get(&s("y")).is_none());
}

#[test]
fn evaluate_folds_each_operation() {
    let add_op = OpcodeInstruction::Add { args: vec![], dest: s("d"), typ: int_ty() };
    let mul_op = OpcodeInstruction::Mul { args: vec![], dest: s("d"), typ: int_ty() };
    let sub_op = OpcodeInstruction::Sub { args: vec![], dest: s("d"), typ: int_ty() };
    let fmul_op = OpcodeInstruction::FMul { args: vec![], dest: s("d"), typ: int_ty() };
    assert!(matches!(evaluate(&add_op, &vec![Literal::Int(2), Literal::Int(40)]), Some(Literal::Int(42))));
    assert!(matches!(evaluate(&mul_op, &vec![Literal::Int(6), Literal::Int(7)]), Some(Literal::Int(42))));
    assert!(matches!(evaluate(&add_op, &vec![]), Some(Literal::Int(0))));
    assert!(matches!(evaluate(&mul_op, &vec![]), Some(Literal::Int(1))));
    assert!(evaluate(&sub_op, &vec![Literal::Int(1), Literal::Int(1)]).is_none());
    assert!(evaluate(&add_op, &vec![Literal::Int(1), Literal::Unsigned(u64::MAX)]).is_none());
    assert!(evaluate(&fmul_op, &vec![Literal::Text(s("true"))]).is_none());
    match evaluate(&fmul_op, &vec![Literal::Int(3)]) {
        Some(Literal::FloatMul(a, b)) => {
            assert!(matches!(*a, Literal::Float(bits) if f64::from_bits(bits) == 1.0));
            assert!(matches!(*b, Literal::Int(3)));
        }
        _ => panic!("fmul of a number folds"),
    }
}

#[test]
fn local_constant_prop_returns_the_exit_table() {
    let mut bb = block(vec![cnst("a", 20), cnst("b", 22), add("c", "a", "b"), id("a", "c")]);
    let (changed, state) = local_constant_prop(&mut bb, ConstantState::new());
    assert!(changed);
    assert!(matches!(state.get(&s("c")), Some(Literal::Int(42))));
    assert!(state.get(&s("a")).is_none());
    assert!(matches!(&bb.instrs[2], Instruction::Opcode(OpcodeInstruction::Const { value: Literal::Int(42), .. })));
}

#[test]
fn local_constant_prop_starts_from_the_given_table() {
    let mut t = ConstantState::new();
    t.set(s("x"), Literal::Int(5));
    let mut bb = block(vec![add("y", "x", "x")]);
    let (changed, _) = local_constant_prop(&mut bb, t);
    assert!(changed);
    assert!(matches!(&bb.instrs[0], Instruction::Opcode(OpcodeInstruction::Const { value: Literal::Int(10), .. })));
}

#[test]
fn block_use_and_def_lists() {
    let bb = block(vec![label("l"), cnst("a", 1), id("b", "a"), print(&["b"]), br("c", "x", "y")]);
    assert_eq!(get_bb_use_list(&bb), vec![s("a"), s("b"), s("c"), s("x"), s("y")]);
    assert_eq!(get_bb_meaningful_use_list(&bb), vec![s("b"), s("c"), s("x"), s("y")]);
    assert_eq!(get_bb_def_list(&bb), vec![s("l"), s("a"), s("b")]);
}

#[test]
fn liveness_update_of_a_block() {
    let bb = block(vec![label("b1"), id("e", "b"), print(&["a"])]);
    let state = LivenessState::new();
    assert!(state.live_in.is_empty() && state.live_out.is_empty() && state.defs.is_empty() && state.uses.is_empty());
    let (new_state, changed) = bb_update_liveness(&bb, &state, &vec![], &vec![]);
    assert!(changed);
    assert_eq!(new_state.live_in, vec![s("a")]);
    assert!(new_state.live_out.is_empty());
    assert_eq!(new_state.uses, vec![s("a")]);
    let (again, changed2) = bb_update_liveness(&bb, &new_state, &vec![], &vec![]);
    assert!(!changed2);
    assert_eq!(again.live_in, vec![s("a")]);
}

#[test]
fn liveness_update_reports_a_change_of_length_only() {
    // the entry list goes from `b` to `a`: as long as before, so no change
    let bb = block(vec![print(&["a"])]);
    let mut state = LivenessState::new();
    state.live_in = vec![s("b")];
    let (new_state, changed) = bb_update_liveness(&bb, &state, &vec![], &vec![]);
    assert_eq!(new_state.live_in, vec![s("a")]);
    assert!(!changed);
}

#[test]
fn liveness_carries_successor_entries_back() {
    let bb = block(vec![id("x", "y")]);
    let mut succ = LivenessState::new();
    succ.live_in = vec![s("x"), s("z")];
    let (st, changed) = bb_update_liveness(&bb, &LivenessState::new(), &vec![], &vec![&succ]);
    assert!(changed);
    let out: HashSet<String> = st.live_out.iter().cloned().collect();
    let inn: HashSet<String> = st.live_in.iter().cloned().collect();
    assert_eq!(out, [s("x"), s("z")].into_iter().collect());
    assert_eq!(inn, [s("y"), s("z")].into_iter().collect());
}

#[test]
fn lvn_on_one_block() {
    let mut bb = block(vec![cnst("a", 1), cnst("b", 2), add("c", "a", "b"), add("d", "b", "a"), add("e", "a", "b")]);
    assert!(lvn_bb(&mut bb));
    assert!(matches!(&bb.instrs[3], Instruction::Opcode(OpcodeInstruction::Id { args, dest, .. }) if args == &vec![s("c")] && dest == "d"));
    assert!(matches!(&bb.instrs[4], Instruction::Opcode(OpcodeInstruction::Id { args, .. }) if args == &vec![s("c")]));
}

#[test]
fn points_to_graph_and_aliasing() {
    let bb = block(vec![cnst("one", 1), alloc_op("p", "one"), alloc_op("q", "one"), id("r", "p"), load("x", "q")]);
    let mut g = PointToGraph::new();
    let has_pointer_ops = build_point_to_graph(&bb, 10, &mut g, 20);
    assert!(has_pointer_ops);
    assert!(var_alias(&s("p"), &s("r"), &g));
    assert!(var_alias(&s("r"), &s("p"), &g));
    assert!(!var_alias(&s("p"), &s("q"), &g));
    // a loaded pointer may point anywhere
    assert!(var_alias(&s("x"), &s("q"), &g));
    assert!(!var_alias(&s("p"), &s("nothing"), &g));
    let mut g2 = PointToGraph::new();
    assert!(!build_point_to_graph(&block(vec![cnst("a", 1)]), 0, &mut g2, 1));
}

#[test]
fn liveness_of_a_loop() {
    let f = func(vec![
        cnst("i", 0),
        cnst("n", 3),
        label("head"),
        lt("c", "i", "n"),
        br("c", "body", "exit"),
        label("body"),
        add("i", "i", "i"),
        jmp("head"),
        label("exit"),
        print(&["i"]),
        label("done"),
    ]);
    let bbs = f.get_basic_blocks();
    let uses = collect_uses(&f.instrs);
    let states = compute_liveness(&bbs, &uses);
    let as_set = |v: &Vec<String>| -> HashSet<String> { v.iter().cloned().collect() };
    let names = |xs: &[&str]| -> HashSet<String> { xs.iter().map(|x| s(x)).collect() };
    assert_eq!(states.len(), 5);
    // jump targets are read by the jumps, so labels show up as live names
    assert_eq!(as_set(&states[0].live_in), names(&["body", "exit"]));
    assert_eq!(as_set(&states[0].live_out), names(&["i", "n", "body", "exit"]));
    assert_eq!(as_set(&states[1].live_in), names(&["i", "n", "body", "exit"]));
    assert_eq!(as_set(&states[2].live_in), names(&["i", "n", "exit", "head"]));
    assert_eq!(as_set(&states[2].live_out), names(&["i", "n", "body", "exit"]));
    assert_eq!(as_set(&states[3].live_in), names(&["i"]));
    assert_eq!(as_set(&states[4].live_in), names(&[]));
}

#[test]
fn dominators_of_a_loop_entered_from_two_sides() {
    // 0 -> 1 -> 2 -> 1, and 0 -> 2: neither 1 nor 2 dominates the other
    let bbs = func(vec![
        cnst("c", 1),
        br("c", "a", "b"),
        label("a"),
        jmp("b"),
        label("b"),
        jmp("a"),
    ])
    .get_basic_blocks();
    assert_eq!(bbs.len(), 3);
    let ctx = get_dom_context(&bbs);
    assert_eq!(ctx.bbs[0].dominators, set(&[0]));
    assert_eq!(ctx.bbs[1].dominators, set(&[0, 1]));
    assert_eq!(ctx.bbs[2].dominators, set(&[0, 2]));
}

#[test]
fn loop_body_after_a_pre_header() {
    let mut bbs = loop_function().get_basic_blocks();
    create_and_insert_pre_header(&mut bbs, 1, 2);
    // pre-header 1, header 2, body 3, exit 4, done 5
    let body = loop_body(&bbs, 2, 1, 3);
    assert_eq!(body, vec![false, false, false, true, false, false]);
}

#[test]
fn loop_body_of_a_self_loop_is_empty() {
    let mut bbs = func(vec![cnst("i", 1), label("l"), print(&["i"]), jmp("l")]).get_basic_blocks();
    assert_eq!(bbs.len(), 2);
    create_and_insert_pre_header(&mut bbs, 1, 1);
    let body = loop_body(&bbs, 2, 1, 2);
    assert_eq!(body, vec![false, false, false]);
}

#[test]
fn pre_header_keeps_edges_agreeing() {
    let mut bbs = loop_function().get_basic_blocks();
    create_and_insert_pre_header(&mut bbs, 1, 2);
    assert_eq!(bbs.len(), 6);
    for k in 0..bbs.len() {
        for j in 0..bbs.len() {
            assert_eq!(bbs[k].out_bb_indices.contains(&j), bbs[j].in_bb_indices.contains(&k));
        }
    }
    // the entry falls into the pre-header, the pre-header into the header,
    // and the back edge still enters the header
    assert!(bbs[0].out_bb_indices.contains(&1));
    assert!(bbs[1].out_bb_indices.contains(&2));
    assert!(bbs[3].out_bb_indices.contains(&2));
    assert!(!bbs[3].out_bb_indices.contains(&1));
}
