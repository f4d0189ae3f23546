use bril_forge::ast::{Function, Instruction, Literal, OpcodeInstruction, Program, Type};
use bril_forge::passes::const_prop::global_const_propagation_pass;
use bril_forge::passes::dce::{local_dce_pass, naive_dce_pass};
use bril_forge::passes::example::{delete_everything_pass, do_nothing_pass};
use bril_forge::passes::live::global_dce_pass_using_livenss;
use bril_forge::passes::loops::loop_invariant_code_motion_pass;
use bril_forge::passes::lvn::lvn_pass;
use bril_forge::passes::pointer_analysis::pointer_analysis_pass;

fn s(x: &str) -> String {
    x.to_string()
}

fn int_ty() -> Type {
    Type::Primitive(s("int"))
}

fn boolean() -> Type {
    Type::Primitive(s("bool"))
}

fn ptr_int() -> Type {
    Type::Pointer { ptr: s("int") }
}

fn cnst(dest: &str, v: i64) -> Instruction {
    Instruction::Opcode(OpcodeInstruction::Const { dest: s(dest), typ: int_ty(), value: Literal::Int(v) })
}

fn fconst(dest: &str, v: f64) -> Instruction {
    Instruction::Opcode(OpcodeInstruction::Const {
        dest: s(dest),
        typ: Type::Primitive(s("float")),
        value: Literal::Float(v.to_bits()),
    })
}

fn add(dest: &str, a: &str, b: &str) -> Instruction {
    Instruction::Opcode(OpcodeInstruction::Add { args: vec![s(a), s(b)], dest: s(dest), typ: int_ty() })
}

fn mul(dest: &str, a: &str, b: &str) -> Instruction {
    Instruction::Opcode(OpcodeInstruction::Mul { args: vec![s(a), s(b)], dest: s(dest), typ: int_ty() })
}

fn fadd(dest: &str, a: &str, b: &str) -> Instruction {
    Instruction::Opcode(OpcodeInstruction::FAdd {
        args: vec![s(a), s(b)],
        dest: s(dest),
        typ: Type::Primitive(s("float")),
    })
}

fn id(dest: &str, a: &str, t: Type) -> Instruction {
    Instruction::Opcode(OpcodeInstruction::Id { args: vec![s(a)], dest: s(dest), typ: t })
}

fn eq(dest: &str, a: &str, b: &str) -> Instruction {
    Instruction::Opcode(OpcodeInstruction::Eq { args: vec![s(a), s(b)], dest: s(dest), typ: boolean() })
}

fn lt(dest: &str, a: &str, b: &str) -> Instruction {
    Instruction::Opcode(OpcodeInstruction::Lt { args: vec![s(a), s(b)], dest: s(dest), typ: boolean() })
}

fn print(args: &[&str]) -> Instruction {
    Instruction::Opcode(OpcodeInstruction::Print { args: args.iter().map(|a| s(a)).collect() })
}

fn label(l: &str) -> Instruction {
    Instruction::Label { label: s(l) }
}

fn jmp(l: &str) -> Instruction {
    Instruction::Opcode(OpcodeInstruction::Jmp { labels: vec![s(l)] })
}

fn br(c: &str, t: &str, f: &str) -> Instruction {
    Instruction::Opcode(OpcodeInstruction::Br { args: vec![s(c)], labels: vec![s(t), s(f)] })
}

fn alloc_op(dest: &str, n: &str) -> Instruction {
    Instruction::Opcode(OpcodeInstruction::Alloc { args: vec![s(n)], dest: s(dest), typ: ptr_int() })
}

fn store(p: &str, v: &str) -> Instruction {
    Instruction::Opcode(OpcodeInstruction::Store { args: vec![s(p), s(v)] })
}

fn load(dest: &str, p: &str) -> Instruction {
    Instruction::Opcode(OpcodeInstruction::Load { args: vec![s(p)], dest: s(dest), typ: int_ty() })
}

fn free(p: &str) -> Instruction {
    Instruction::Opcode(OpcodeInstruction::Free { args: vec![s(p)] })
}

fn func(name: &str, instrs: Vec<Instruction>) -> Function {
    Function { name: s(name), args: None, instrs, return_type: None }
}

fn prog(instrs: Vec<Instruction>) -> Program {
    Program { functions: vec![func("main", instrs)] }
}

fn show_lit(l: &Literal) -> String {
    match l {
        Literal::Int(i) => format!("{}", i),
        Literal::Unsigned(u) => format!("{}u", u),
        Literal::Float(b) => format!("{}f", f64::from_bits(*b)),
        Literal::Text(t) => t.clone(),
        Literal::FloatAdd(a, b) => format!("({} +. {})", show_lit(a), show_lit(b)),
        Literal::FloatMul(a, b) => format!("({} *. {})", show_lit(a), show_lit(b)),
    }
}

fn show(i: &Instruction) -> String {
    match i {
        Instruction::Label { label } => format!(".{}", label),
        Instruction::Nop { op } => format!("nop {}", op),
        Instruction::Opcode(op) => match op {
            OpcodeInstruction::Const { dest, value, .. } => format!("{} = const {}", dest, show_lit(value)),
            OpcodeInstruction::Add { args, dest, .. } => format!("{} = add {}", dest, args.join(" ")),
            OpcodeInstruction::Mul { args, dest, .. } => format!("{} = mul {}", dest, args.join(" ")),
            OpcodeInstruction::FAdd { args, dest, .. } => format!("{} = fadd {}", dest, args.join(" ")),
            OpcodeInstruction::Id { args, dest, .. } => format!("{} = id {}", dest, args.join(" ")),
            OpcodeInstruction::Eq { args, dest, .. } => format!("{} = eq {}", dest, args.join(" ")),
            OpcodeInstruction::Lt { args, dest, .. } => format!("{} = lt {}", dest, args.join(" ")),
            OpcodeInstruction::Print { args } => format!("print {}", args.join(" ")),
            OpcodeInstruction::Jmp { labels } => format!("jmp {}", labels.join(" ")),
            OpcodeInstruction::Br { args, labels } => format!("br {} {}", args.join(" "), labels.join(" ")),
            OpcodeInstruction::Alloc { args, dest, .. } => format!("{} = alloc {}", dest, args.join(" ")),
            OpcodeInstruction::Store { args } => format!("store {}", args.join(" ")),
            OpcodeInstruction::Load { args, dest, .. } => format!("{} = load {}", dest, args.join(" ")),
            OpcodeInstruction::Free { args } => format!("free {}", args.join(" ")),
            _ => s("other"),
        },
    }
}

fn body(p: &Program, k: usize) -> Vec<String> {
    p.functions[k].instrs.iter().map(show).collect()
}

#[test]
fn naive_dce_drops_unused_pure_definitions() {
    let mut p = prog(vec![cnst("a", 4), cnst("b", 2), cnst("c", 1), add("d", "a", "b"), print(&["d"])]);
    let changed = naive_dce_pass(&mut p);
    assert!(changed);
    assert_eq!(body(&p, 0), vec!["a = const 4", "b = const 2", "d = add a b", "print d"]);
}

#[test]
fn naive_dce_keeps_effects_and_reports_no_change() {
    let mut p = prog(vec![cnst("a", 1), print(&["a"]), label("end")]);
    let changed = naive_dce_pass(&mut p);
    assert!(!changed);
    assert_eq!(body(&p, 0), vec!["a = const 1", "print a", ".end"]);
}

#[test]
fn naive_dce_reports_only_the_last_function() {
    let mut p = Program {
        functions: vec![func("f", vec![cnst("x", 1)]), func("main", vec![cnst("y", 2), print(&["y"])])],
    };
    let changed = naive_dce_pass(&mut p);
    assert!(!changed);
    assert!(p.functions[0].instrs.is_empty());
}

#[test]
fn local_dce_removes_overwritten_constants() {
    let mut p = prog(vec![cnst("va", 1), cnst("va", 2), cnst("va", 3), cnst("va", 4), print(&["va"])]);
    let changed = local_dce_pass(&mut p);
    assert!(changed);
    assert_eq!(body(&p, 0), vec!["va = const 4", "print va"]);
}

#[test]
fn local_dce_a_second_run_changes_nothing() {
    let mut p = prog(vec![
        cnst("a", 1),
        cnst("b", 2),
        add("a", "b", "b"),
        cnst("a", 5),
        label("next"),
        cnst("b", 7),
        cnst("b", 8),
        print(&["a", "b"]),
    ]);
    assert!(local_dce_pass(&mut p));
    let once = body(&p, 0);
    assert_eq!(once, vec!["b = const 2", "a = const 5", ".next", "b = const 8", "print a b"]);
    assert!(!local_dce_pass(&mut p));
    assert_eq!(body(&p, 0), once);
}

#[test]
fn local_dce_keeps_a_value_read_before_redefinition() {
    let mut p = prog(vec![cnst("va", 1), print(&["va"]), cnst("va", 2), print(&["va"])]);
    assert!(!local_dce_pass(&mut p));
    assert_eq!(body(&p, 0), vec!["va = const 1", "print va", "va = const 2", "print va"]);
}

#[test]
fn local_dce_cannot_see_across_blocks() {
    let mut p = prog(vec![cnst("va", 1), cnst("vb", 2), label("done"), print(&["vb"])]);
    assert!(!local_dce_pass(&mut p));
    assert_eq!(body(&p, 0), vec!["va = const 1", "vb = const 2", ".done", "print vb"]);
}

#[test]
fn local_dce_reaches_a_fixpoint() {
    // removing the second definition of `b` leaves the first one dead too
    let mut p = prog(vec![cnst("a", 1), id("b", "a", int_ty()), id("b", "a", int_ty()), cnst("b", 3), print(&["b"])]);
    assert!(local_dce_pass(&mut p));
    assert_eq!(body(&p, 0), vec!["a = const 1", "b = const 3", "print b"]);
}

#[test]
fn const_prop_folds_within_a_block() {
    let mut p = prog(vec![cnst("va", 1), cnst("vb", 2), add("vc", "va", "vb"), print(&["vc"])]);
    assert!(global_const_propagation_pass(&mut p));
    assert_eq!(body(&p, 0), vec!["va = const 1", "vb = const 2", "vc = const 3", "print vc"]);
}

#[test]
fn const_prop_carries_constants_across_blocks() {
    let mut p = prog(vec![
        cnst("va", 1),
        cnst("vb", 2),
        label("firstb"),
        add("vc", "va", "vb"),
        label("secondb"),
        cnst("vd", 5),
        add("ve", "vc", "vd"),
        print(&["ve"]),
    ]);
    assert!(global_const_propagation_pass(&mut p));
    assert_eq!(
        body(&p, 0),
        vec!["va = const 1", "vb = const 2", ".firstb", "vc = const 3", ".secondb", "vd = const 5", "ve = const 8", "print ve"]
    );
}

#[test]
fn const_prop_then_dce_leaves_the_result() {
    let mut p = prog(vec![
        cnst("va", 1),
        cnst("vb", 2),
        label("firstb"),
        add("vc", "va", "vb"),
        label("secondb"),
        cnst("vd", 5),
        add("ve", "vc", "vd"),
        print(&["ve"]),
    ]);
    global_const_propagation_pass(&mut p);
    naive_dce_pass(&mut p);
    naive_dce_pass(&mut p);
    assert_eq!(body(&p, 0), vec![".firstb", ".secondb", "ve = const 8", "print ve"]);
}

#[test]
fn const_prop_multiplies_with_wrap_around() {
    let mut p = prog(vec![cnst("a", i64::MAX), cnst("b", 2), mul("c", "a", "b"), add("d", "a", "a"), print(&["c", "d"])]);
    assert!(global_const_propagation_pass(&mut p));
    assert_eq!(body(&p, 0)[2], "c = const -2");
    assert_eq!(body(&p, 0)[3], "d = const -2");
}

#[test]
fn const_prop_forgets_a_redefined_variable() {
    let mut p = prog(vec![cnst("a", 1), id("a", "a", int_ty()), add("b", "a", "a"), print(&["b"])]);
    assert!(!global_const_propagation_pass(&mut p));
    assert_eq!(body(&p, 0)[2], "b = add a a");
}

#[test]
fn const_prop_keeps_float_folds_exact() {
    let mut p = prog(vec![fconst("x", 1.5), fconst("y", 2.25), fadd("z", "x", "y"), print(&["z"])]);
    assert!(global_const_propagation_pass(&mut p));
    assert_eq!(body(&p, 0)[2], "z = const ((0f +. 1.5f) +. 2.25f)");
}

#[test]
fn const_prop_does_not_fold_integers_with_float_operands() {
    let mut p = prog(vec![fconst("x", 1.5), cnst("y", 2), add("z", "x", "y"), print(&["z"])]);
    assert!(!global_const_propagation_pass(&mut p));
    assert_eq!(body(&p, 0)[2], "z = add x y");
}

#[test]
fn const_prop_joins_only_agreeing_constants() {
    // both branches define `x`, with different values; `y` agrees
    let mut p = prog(vec![
        cnst("c", 1),
        br("c", "l", "r"),
        label("l"),
        cnst("x", 1),
        cnst("y", 7),
        jmp("m"),
        label("r"),
        cnst("x", 2),
        cnst("y", 7),
        jmp("m"),
        label("m"),
        add("u", "x", "x"),
        add("v", "y", "y"),
        print(&["u", "v"]),
        jmp("exit"),
        label("exit"),
    ]);
    assert!(global_const_propagation_pass(&mut p));
    let b = body(&p, 0);
    assert_eq!(b[11], "u = add x x");
    assert_eq!(b[12], "v = const 14");
}

#[test]
fn global_dce_uses_strong_liveness() {
    let mut p = prog(vec![
        cnst("a", 2),
        id("b", "a", int_ty()),
        eq("c", "a", "a"),
        id("d", "c", boolean()),
        mul("a", "c", "d"),
        label("b1"),
        id("e", "b", int_ty()),
        print(&["a"]),
    ]);
    assert!(global_dce_pass_using_livenss(&mut p));
    assert_eq!(body(&p, 0), vec!["a = const 2", "c = eq a a", "d = id c", "a = mul c d", ".b1", "print a"]);
}

#[test]
fn global_dce_follows_values_through_blocks() {
    // `x` feeds `z` in a later block, which is printed in the last one
    let mut p = prog(vec![
        cnst("y", 1),
        id("x", "y", int_ty()),
        label("b"),
        id("z", "x", int_ty()),
        label("c"),
        print(&["z"]),
    ]);
    assert!(!global_dce_pass_using_livenss(&mut p));
    assert_eq!(body(&p, 0), vec!["y = const 1", "x = id y", ".b", "z = id x", ".c", "print z"]);
}

#[test]
fn global_dce_keeps_loop_carried_values() {
    let mut p = prog(vec![
        cnst("i", 0),
        cnst("one", 1),
        cnst("n", 3),
        label("head"),
        lt("c", "i", "n"),
        br("c", "body", "exit"),
        label("body"),
        add("i", "i", "one"),
        cnst("dead", 9),
        jmp("head"),
        label("exit"),
        print(&["i"]),
    ]);
    assert!(global_dce_pass_using_livenss(&mut p));
    let b = body(&p, 0);
    assert!(!b.contains(&s("dead = const 9")));
    assert!(b.contains(&s("i = add i one")));
    assert_eq!(b.len(), 11);
}

#[test]
fn lvn_replaces_a_recomputed_expression() {
    let mut p = prog(vec![cnst("va", 1), cnst("vb", 2), add("vc", "va", "vb"), add("vd", "vb", "va"), print(&["va"])]);
    assert!(lvn_pass(&mut p));
    assert_eq!(body(&p, 0), vec!["va = const 1", "vb = const 2", "vc = add va vb", "vd = id vc", "print va"]);
}

#[test]
fn lvn_respects_reassigned_operands() {
    let mut p = prog(vec![
        cnst("a", 0),
        cnst("b", 1),
        add("c", "a", "b"),
        cnst("a", 5),
        add("d", "a", "b"),
        print(&["c", "d"]),
    ]);
    assert!(!lvn_pass(&mut p));
    assert_eq!(body(&p, 0)[4], "d = add a b");
}

#[test]
fn lvn_does_not_swap_operands_of_other_operations() {
    let mut p = prog(vec![cnst("a", 1), cnst("b", 2), lt("c", "a", "b"), lt("d", "b", "a"), print(&["c", "d"])]);
    assert!(!lvn_pass(&mut p));
    assert_eq!(body(&p, 0)[3], "d = lt b a");
}

#[test]
fn pointer_analysis_removes_a_dead_store() {
    let mut p = prog(vec![
        cnst("c1", 1),
        alloc_op("v0", "c1"),
        cnst("x1", 3),
        store("v0", "x1"),
        cnst("x2", 4),
        store("v0", "x2"),
        load("x3", "v0"),
        print(&["x3"]),
        free("v0"),
    ]);
    assert!(pointer_analysis_pass(&mut p));
    assert_eq!(
        body(&p, 0),
        vec!["c1 = const 1", "v0 = alloc c1", "x1 = const 3", "x2 = const 4", "store v0 x2", "x3 = load v0", "print x3", "free v0"]
    );
}

#[test]
fn pointer_analysis_keeps_a_store_read_through_an_alias() {
    let mut p = prog(vec![
        cnst("c1", 1),
        alloc_op("v0", "c1"),
        id("v1", "v0", ptr_int()),
        cnst("x1", 3),
        store("v0", "x1"),
        load("x3", "v1"),
        cnst("x2", 4),
        store("v0", "x2"),
        print(&["x3"]),
    ]);
    assert!(!pointer_analysis_pass(&mut p));
    assert_eq!(body(&p, 0).len(), 9);
}

#[test]
fn pointer_analysis_ignores_stores_through_unrelated_pointers() {
    // `v1` points to another allocation: the load through it does not read `v0`
    let mut p = prog(vec![
        cnst("c1", 1),
        alloc_op("v0", "c1"),
        alloc_op("v1", "c1"),
        cnst("x1", 3),
        store("v0", "x1"),
        load("x3", "v1"),
        store("v0", "x1"),
        print(&["x3"]),
    ]);
    assert!(pointer_analysis_pass(&mut p));
    assert_eq!(body(&p, 0).len(), 7);
    assert_eq!(body(&p, 0)[4], "x3 = load v1");
}

#[test]
fn licm_hoists_the_invariant_chain_into_the_pre_header() {
    let mut p = prog(vec![
        cnst("i", 1),
        label("header"),
        cnst("max", 10),
        lt("cond", "i", "max"),
        br("cond", "body", "exit"),
        label("body"),
        cnst("should_get_hoisted", 15),
        id("should_get_hoisted_2", "should_get_hoisted", int_ty()),
        add("should_get_hoisted_3", "should_get_hoisted", "should_get_hoisted_2"),
        print(&["should_get_hoisted_3"]),
        jmp("header"),
        label("exit"),
    ]);
    assert!(loop_invariant_code_motion_pass(&mut p));
    assert_eq!(
        body(&p, 0),
        vec![
            "i = const 1",
            ".header",
            "should_get_hoisted = const 15",
            "should_get_hoisted_2 = id should_get_hoisted",
            "should_get_hoisted_3 = add should_get_hoisted should_get_hoisted_2",
            ".header@old",
            "max = const 10",
            "cond = lt i max",
            "br cond body exit",
            ".body",
            "print should_get_hoisted_3",
            "jmp header@old",
            ".exit",
        ]
    );
}

#[test]
fn licm_keeps_code_that_depends_on_the_loop() {
    let mut p = prog(vec![
        cnst("i", 1),
        cnst("one", 1),
        label("header"),
        cnst("max", 10),
        lt("cond", "i", "max"),
        br("cond", "body", "exit"),
        label("body"),
        add("i", "i", "one"),
        add("j", "i", "one"),
        cnst("k", 2),
        cnst("k", 3),
        print(&["j", "k"]),
        jmp("header"),
        label("exit"),
    ]);
    let before = body(&p, 0);
    // `i` and `j` read a name the loop defines, and `k` is defined twice:
    // nothing moves, so the function stays as it was, without a pre-header
    assert!(!loop_invariant_code_motion_pass(&mut p));
    assert_eq!(body(&p, 0), before);
}

#[test]
fn licm_leaves_a_function_without_loops_unchanged() {
    let mut p = prog(vec![cnst("a", 1), label("next"), add("b", "a", "a"), print(&["b"])]);
    let before = body(&p, 0);
    assert!(!loop_invariant_code_motion_pass(&mut p));
    assert_eq!(body(&p, 0), before);
}

#[test]
fn do_nothing_pass_changes_nothing() {
    let mut p = prog(vec![cnst("a", 1), print(&["a"])]);
    assert!(!do_nothing_pass(&mut p));
    assert_eq!(body(&p, 0), vec!["a = const 1", "print a"]);
}

#[test]
fn delete_everything_pass_empties_the_program() {
    let mut p = prog(vec![cnst("a", 1), print(&["a"])]);
    assert!(delete_everything_pass(&mut p));
    assert!(p.functions.is_empty());
}

#[test]
fn passes_on_an_empty_program_change_nothing() {
    let mut p = Program { functions: vec![] };
    assert!(!naive_dce_pass(&mut p));
    assert!(!local_dce_pass(&mut p));
    assert!(!global_const_propagation_pass(&mut p));
    assert!(!global_dce_pass_using_livenss(&mut p));
    assert!(!lvn_pass(&mut p));
    assert!(!pointer_analysis_pass(&mut p));
    assert!(!loop_invariant_code_motion_pass(&mut p));
    assert!(p.functions.is_empty());
}

#[test]
fn passes_on_an_empty_function_change_nothing() {
    let mut p = prog(vec![]);
    assert!(!local_dce_pass(&mut p));
    assert!(!global_const_propagation_pass(&mut p));
    assert!(!global_dce_pass_using_livenss(&mut p));
    assert!(!lvn_pass(&mut p));
    assert!(!pointer_analysis_pass(&mut p));
    assert!(p.functions[0].instrs.is_empty());
}

#[test]
fn global_dce_keeps_a_value_read_after_a_jump() {
    let mut p = prog(vec![cnst("a", 1), jmp("end"), label("end"), print(&["a"])]);
    assert!(!global_dce_pass_using_livenss(&mut p));
    assert_eq!(body(&p, 0), vec!["a = const 1", "jmp end", ".end", "print a"]);
}

#[test]
fn const_prop_folds_from_a_jump_back_to_the_start() {
    // the first block is jumped to: its second pass starts from the table
    // at its own end, where `x` is 1, though `x` is unknown on the first run
    let mut p = prog(vec![
        label("start"),
        add("z", "x", "x"),
        cnst("x", 1),
        cnst("a", 2),
        add("b", "a", "a"),
        jmp("start"),
    ]);
    assert!(global_const_propagation_pass(&mut p));
    assert_eq!(body(&p, 0), vec![".start", "z = const 2", "x = const 1", "a = const 2", "b = const 4", "jmp start"]);
}

#[test]
fn const_prop_does_not_fold_across_disagreeing_paths() {
    let mut p = prog(vec![
        cnst("a", 1),
        cnst("b", 2),
        cnst("c", 1),
        br("c", "end", "mid"),
        label("mid"),
        cnst("a", 5),
        label("end"),
        add("x", "a", "b"),
        print(&["x"]),
    ]);
    assert!(!global_const_propagation_pass(&mut p));
    assert_eq!(body(&p, 0)[7], "x = add a b");
}
