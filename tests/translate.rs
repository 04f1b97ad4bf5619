use ir_circom::circom_codegen::{known_components, CircomModule};
use ir_circom::error::TranslateError;
use ir_circom::instructions::{CircomCodeGenerator, CircomInstr, Template};
use ir_circom::ir::{IrBlock, IrFunction, IrInstruction, IrInstructionKind, IrOperand, IrTerminator};
use ir_circom::lowering::ir_to_circom;
use ir_circom::names::normalize_name;

fn local(n: &str) -> IrOperand {
    IrOperand::Local(n.to_string())
}

fn konst(v: i64) -> IrOperand {
    IrOperand::Int(v)
}

fn instr(kind: IrInstructionKind, text: &str) -> IrInstruction {
    IrInstruction { kind, text: text.to_string() }
}

fn mul(d: &str, a: IrOperand, b: IrOperand) -> IrInstruction {
    instr(IrInstructionKind::Mul { dest: d.to_string(), operand0: a, operand1: b }, "mul")
}

fn add(d: &str, a: IrOperand, b: IrOperand) -> IrInstruction {
    instr(IrInstructionKind::Add { dest: d.to_string(), operand0: a, operand1: b }, "add")
}

fn alloca(d: &str) -> IrInstruction {
    instr(IrInstructionKind::Alloca { dest: d.to_string() }, "alloca i32")
}

fn load(d: &str, a: &str) -> IrInstruction {
    instr(IrInstructionKind::Load { dest: d.to_string(), address: local(a) }, "load i32")
}

fn store(a: &str, v: IrOperand) -> IrInstruction {
    instr(IrInstructionKind::Store { address: local(a), value: v }, "store i32")
}

fn block(name: &str, instrs: Vec<IrInstruction>, term: IrTerminator) -> IrBlock {
    IrBlock { name: name.to_string(), instrs, term }
}

fn ret(v: IrOperand) -> IrTerminator {
    IrTerminator::Ret(Some(v))
}

fn br(d: &str) -> IrTerminator {
    IrTerminator::Br(d.to_string())
}

fn condbr(c: &str, t: &str, f: &str) -> IrTerminator {
    IrTerminator::CondBr { condition: local(c), true_dest: t.to_string(), false_dest: f.to_string() }
}

fn function(params: &[&str], blocks: Vec<IrBlock>) -> IrFunction {
    IrFunction { parameters: params.iter().map(|p| p.to_string()).collect(), basic_blocks: blocks }
}

fn lines(t: &Template) -> Vec<String> {
    t.instructions.iter().map(|i| i.to_circom()).collect()
}

fn targets(t: &Template) -> Vec<String> {
    t.instructions
        .iter()
        .filter_map(|i| match i {
            CircomInstr::ConstraintGenerationAssigment(c) => Some(c.left.to_circom()),
            _ => None,
        })
        .collect()
}

fn assert_single_assignment(t: &Template) {
    let ts = targets(t);
    for (i, a) in ts.iter().enumerate() {
        for b in ts.iter().skip(i + 1) {
            assert_ne!(a, b);
        }
    }
}

fn is_legal(s: &str) -> bool {
    let mut cs = s.chars();
    match cs.next() {
        Some(c) if c.is_ascii_alphabetic() => cs.all(|c| c.is_ascii_alphanumeric() || c == '_'),
        _ => false,
    }
}

fn translate(f: &IrFunction) -> Template {
    ir_to_circom("Main".to_string(), f).unwrap()
}

fn conditional_write() -> IrFunction {
    function(
        &["%f"],
        vec![
            block("entry", vec![alloca("%r"), store("%r", konst(0))], condbr("%f", "then", "else")),
            block("then", vec![load("%a", "%r"), mul("%b", konst(3), local("%a")), store("%r", local("%b"))], br("end")),
            block("else", vec![load("%c", "%r"), add("%d", local("%c"), konst(100)), store("%r", local("%d"))], br("end")),
            block("end", vec![load("%e", "%r")], ret(local("%e"))),
        ],
    )
}

#[test]
fn pure_mul() {
    let f = function(&["%x"], vec![block("entry", vec![mul("%r", local("%x"), local("%x"))], ret(local("%r")))]);
    let t = translate(&f);
    assert_eq!(
        lines(&t),
        vec![
            "signal input x;",
            "signal OUTPUT__m0;",
            "signal r;",
            "signal OUTPUT__m1;",
            "signal output OUTPUT_;",
            "OUTPUT__m0 <== 0;",
            "r <== x * x;",
            "OUTPUT__m1 <== r;",
            "OUTPUT_ <== OUTPUT__m1;",
        ]
    );
    assert_single_assignment(&t);
}

#[test]
fn pure_mul_module_text() {
    let f = function(&["%x"], vec![block("entry", vec![mul("%r", local("%x"), local("%x"))], ret(local("%r")))]);
    let t = translate(&f);
    let m = CircomModule::new(vec![t], known_components(), "Main".to_string());
    assert_eq!(
        m.to_circom(),
        "pragma circom 2.2.2;\n\n\ntemplate Main {\n  signal input x;\n  signal OUTPUT__m0;\n  signal r;\n  signal OUTPUT__m1;\n  signal output OUTPUT_;\n  OUTPUT__m0 <== 0;\n  r <== x * x;\n  OUTPUT__m1 <== r;\n  OUTPUT_ <== OUTPUT__m1;\n}\n\n\ncomponent main = Main();"
    );
}

#[test]
fn two_ops() {
    let f = function(
        &["%n"],
        vec![block(
            "entry",
            vec![mul("%x", local("%n"), local("%n")), add("%y", local("%x"), konst(19)), mul("%z", local("%y"), konst(10))],
            ret(local("%z")),
        )],
    );
    let t = translate(&f);
    let ls = lines(&t);
    assert!(ls.contains(&"x <== n * n;".to_string()));
    assert!(ls.contains(&"y <== x + 19;".to_string()));
    assert!(ls.contains(&"z <== y * 10;".to_string()));
    assert!(ls.contains(&"OUTPUT__m1 <== z;".to_string()));
    assert!(ls.contains(&"OUTPUT_ <== OUTPUT__m1;".to_string()));
    assert!(!t.instructions.iter().any(|i| matches!(i, CircomInstr::ComponentInstatiation(_))));
    let m = CircomModule::new(vec![t], known_components(), "Main".to_string());
    assert!(!m.to_circom().contains("include"));
}

#[test]
fn equality_via_gadget() {
    let icmp = instr(
        IrInstructionKind::ICmpEq { dest: "%e".to_string(), operand0: local("%x"), operand1: konst(7) },
        "icmp eq",
    );
    let f = function(&["%x"], vec![block("entry", vec![icmp], ret(local("%e")))]);
    let t = translate(&f);
    let ls = lines(&t);
    let at = |s: &str| ls.iter().position(|l| l == s).unwrap();
    assert!(at("component e_EQ = IsEqual();") < at("e_EQ.in[0] <== x;"));
    assert!(at("e_EQ.in[0] <== x;") < at("e_EQ.in[1] <== 7;"));
    assert!(at("e_EQ.in[1] <== 7;") < at("e <== e_EQ.out;"));
    let m = CircomModule::new(vec![t], known_components(), "Main".to_string());
    assert!(m.to_circom().contains("include \"circomlib/circuits/comparators.circom\";\n"));
}

#[test]
fn conditional_write_scenario() {
    let t = translate(&conditional_write());
    let ls = lines(&t);
    assert!(ls.contains(&"signal r_m2O;".to_string()));
    assert!(ls.contains(&"signal r_m3O;".to_string()));
    assert!(ls.contains(&"r_m2O <== b;".to_string()));
    assert!(ls.contains(&"r_m2 <== (r_m2O - r_m1) * f + r_m1;".to_string()));
    assert!(ls.contains(&"fF <== 1 - f;".to_string()));
    assert!(ls.contains(&"r_m3O <== d;".to_string()));
    assert!(ls.contains(&"r_m3 <== (r_m3O - r_m2) * fF + r_m2;".to_string()));
    assert!(ls.contains(&"OUTPUT_ <== OUTPUT__m1;".to_string()));
    assert_single_assignment(&t);
}

#[test]
fn conditional_write_full_stream() {
    let t = translate(&conditional_write());
    assert_eq!(
        lines(&t),
        vec![
            "signal input f;",
            "signal OUTPUT__m0;",
            "signal r_m0;",
            "signal r_m1;",
            "signal a;",
            "signal b;",
            "signal r_m2;",
            "signal r_m2O;",
            "signal fF;",
            "signal c;",
            "signal d;",
            "signal r_m3;",
            "signal r_m3O;",
            "signal fUfF;",
            "signal e;",
            "signal OUTPUT__m1;",
            "signal OUTPUT__m1O;",
            "signal output OUTPUT_;",
            "OUTPUT__m0 <== 0;",
            "r_m0 <== 0;",
            "r_m1 <== 0;",
            "a <== r_m1;",
            "b <== 3 * a;",
            "r_m2O <== b;",
            "r_m2 <== (r_m2O - r_m1) * f + r_m1;",
            "fF <== 1 - f;",
            "c <== r_m2;",
            "d <== c + 100;",
            "r_m3O <== d;",
            "r_m3 <== (r_m3O - r_m2) * fF + r_m2;",
            "fUfF <== (f + fF) - (f * fF);",
            "e <== r_m3;",
            "OUTPUT__m1O <== e;",
            "OUTPUT__m1 <== (OUTPUT__m1O - OUTPUT__m0) * fUfF + OUTPUT__m0;",
            "OUTPUT_ <== OUTPUT__m1;",
        ]
    );
}

#[test]
fn merged_disjunction_materialised_once() {
    let f = function(
        &["%p"],
        vec![
            block("entry", vec![], condbr("%p", "a", "b")),
            block("a", vec![], br("join")),
            block("b", vec![], br("join")),
            block("join", vec![mul("%m", local("%p"), local("%p")), add("%n", local("%m"), konst(1))], ret(local("%n"))),
        ],
    );
    let t = translate(&f);
    let ts = targets(&t);
    assert_eq!(ts.iter().filter(|x| x.as_str() == "pUpF").count(), 1);
    assert!(lines(&t).contains(&"pUpF <== (p + pF) - (p * pF);".to_string()));
    assert!(lines(&t).contains(&"OUTPUT__m1 <== (OUTPUT__m1O - OUTPUT__m0) * pUpF + OUTPUT__m0;".to_string()));
}

#[test]
fn cycle_rejected() {
    let f = function(
        &[],
        vec![block("entry", vec![], br("a")), block("a", vec![], br("b")), block("b", vec![], br("a"))],
    );
    assert_eq!(ir_to_circom("Main".to_string(), &f).unwrap_err(), TranslateError::Cycle);
}

#[test]
fn empty_body() {
    let f = function(&["%x"], vec![block("entry", vec![], ret(local("%x")))]);
    let t = translate(&f);
    assert_eq!(
        lines(&t),
        vec![
            "signal input x;",
            "signal OUTPUT__m0;",
            "signal OUTPUT__m1;",
            "signal output OUTPUT_;",
            "OUTPUT__m0 <== 0;",
            "OUTPUT__m1 <== x;",
            "OUTPUT_ <== OUTPUT__m1;",
        ]
    );
}

#[test]
fn false_side_predicate() {
    let f = function(
        &["%c"],
        vec![
            block("entry", vec![], condbr("%c", "yes", "no")),
            block("yes", vec![], ret(konst(1))),
            block("no", vec![], ret(konst(2))),
        ],
    );
    let t = translate(&f);
    let ls = lines(&t);
    assert!(ls.contains(&"cF <== 1 - c;".to_string()));
    assert!(ls.contains(&"OUTPUT__m1 <== (OUTPUT__m1O - OUTPUT__m0) * c + OUTPUT__m0;".to_string()));
    assert!(ls.contains(&"OUTPUT__m2 <== (OUTPUT__m2O - OUTPUT__m1) * cF + OUTPUT__m1;".to_string()));
}

#[test]
fn nested_predicates_multiply() {
    let f = function(
        &["%a", "%b"],
        vec![
            block("entry", vec![], condbr("%a", "inner", "out")),
            block("inner", vec![], condbr("%b", "both", "only_a")),
            block("both", vec![], ret(konst(1))),
            block("only_a", vec![], ret(konst(2))),
            block("out", vec![], ret(konst(3))),
        ],
    );
    let t = translate(&f);
    let ls = lines(&t);
    assert!(ls.contains(&"ab <== a * b;".to_string()));
    assert!(ls.contains(&"bF <== 1 - b;".to_string()));
    assert!(ls.contains(&"abF <== a * bF;".to_string()));
    assert!(ls.contains(&"aF <== 1 - a;".to_string()));
    assert_single_assignment(&t);
}

#[test]
fn self_parameter_dropped() {
    let f = function(&["%self", "%x"], vec![block("entry", vec![], ret(local("%x")))]);
    let t = translate(&f);
    let ls = lines(&t);
    assert!(ls.contains(&"signal input x;".to_string()));
    assert!(!ls.iter().any(|l| l.contains("self")));
}

#[test]
fn ir_name_normalisation() {
    assert_eq!(normalize_name("%3.tmp"), "X3_tmp");
    assert_eq!(normalize_name("%_a"), "X_a");
    assert_eq!(normalize_name("%x.y.z"), "x_y_z");
    assert_eq!(normalize_name("%plain"), "plain");
}

#[test]
fn numbered_names_in_translation() {
    let f = function(&["%0"], vec![block("start", vec![mul("%1", local("%0"), local("%0"))], ret(local("%1")))]);
    let t = translate(&f);
    assert!(lines(&t).contains(&"X1 <== X0 * X0;".to_string()));
}

#[test]
fn translation_is_deterministic() {
    let a = translate(&conditional_write()).to_circom();
    let b = translate(&conditional_write()).to_circom();
    assert_eq!(a, b);
}

#[test]
fn emitted_names_are_legal() {
    let t = translate(&conditional_write());
    for i in &t.instructions {
        match i {
            CircomInstr::SignalDeclaration(d) => assert!(is_legal(&d.reference().to_circom())),
            CircomInstr::ComponentInstatiation(c) => assert!(is_legal(&c.name)),
            CircomInstr::ConstraintGenerationAssigment(_) => {},
        }
    }
}

#[test]
fn urem_zext_trunc() {
    let f = function(
        &["%x"],
        vec![block(
            "entry",
            vec![
                instr(IrInstructionKind::URem { dest: "%q".to_string(), operand0: local("%x"), operand1: konst(5) }, "urem"),
                instr(IrInstructionKind::ZExt { dest: "%w".to_string(), operand: local("%q") }, "zext"),
                instr(IrInstructionKind::Trunc { dest: "%v".to_string(), operand: local("%w") }, "trunc"),
            ],
            ret(local("%v")),
        )],
    );
    let ls = lines(&translate(&f));
    assert!(ls.contains(&"q <== x % 5;".to_string()));
    assert!(ls.contains(&"w <== q;".to_string()));
    assert!(ls.contains(&"v <== w;".to_string()));
}

#[test]
fn negative_constant_text() {
    let f = function(&["%x"], vec![block("entry", vec![add("%y", local("%x"), konst(-4))], ret(local("%y")))]);
    assert!(lines(&translate(&f)).contains(&"y <== x + -4;".to_string()));
}

#[test]
fn spill_instructions_skipped() {
    let spill = instr(
        IrInstructionKind::Store { address: local("%x.spill"), value: local("%x") },
        "store i32 %x, ptr %x.spill",
    );
    let check = instr(IrInstructionKind::Other, "call void @precondition_check(i1 true)");
    let f = function(&["%x"], vec![block("entry", vec![spill, check], ret(local("%x")))]);
    let t = translate(&f);
    assert_eq!(t.instructions.len(), 7);
}

#[test]
fn arithmetic_is_not_skipped() {
    let m = instr(
        IrInstructionKind::Mul { dest: "%y".to_string(), operand0: local("%x"), operand1: local("%x") },
        "%y = mul i32 %x.spill, %x",
    );
    let f = function(&["%x"], vec![block("entry", vec![m], ret(local("%y")))]);
    assert!(lines(&translate(&f)).contains(&"y <== x * x;".to_string()));
}

#[test]
fn unsupported_instruction() {
    let f = function(&[], vec![block("entry", vec![instr(IrInstructionKind::Other, "fence seq_cst")], ret(konst(0)))]);
    assert_eq!(ir_to_circom("M".to_string(), &f).unwrap_err(), TranslateError::Unsupported("fence seq_cst".to_string()));
}

#[test]
fn unsupported_operand() {
    let f = function(&[], vec![block("entry", vec![mul("%a", IrOperand::Other("@g".to_string()), konst(1))], ret(konst(0)))]);
    assert_eq!(ir_to_circom("M".to_string(), &f).unwrap_err(), TranslateError::Unsupported("@g".to_string()));
}

#[test]
fn unsupported_terminator() {
    let f = function(&[], vec![block("entry", vec![], IrTerminator::Other("unreachable".to_string()))]);
    assert_eq!(ir_to_circom("M".to_string(), &f).unwrap_err(), TranslateError::Unsupported("unreachable".to_string()));
}

#[test]
fn void_return_unsupported() {
    let f = function(&[], vec![block("entry", vec![], IrTerminator::Ret(None))]);
    assert_eq!(ir_to_circom("M".to_string(), &f).unwrap_err(), TranslateError::Unsupported("ret void".to_string()));
}

#[test]
fn unknown_block() {
    let f = function(&[], vec![block("entry", vec![], br("nowhere"))]);
    assert_eq!(ir_to_circom("M".to_string(), &f).unwrap_err(), TranslateError::UnknownBlock("nowhere".to_string()));
}

#[test]
fn cell_redeclared() {
    let f = function(&[], vec![block("entry", vec![alloca("%r"), alloca("%r")], ret(konst(0)))]);
    assert_eq!(ir_to_circom("M".to_string(), &f).unwrap_err(), TranslateError::CellRedeclared("r".to_string()));
}

#[test]
fn unknown_cell() {
    let f = function(&[], vec![block("entry", vec![load("%v", "%nothing")], ret(konst(0)))]);
    assert_eq!(ir_to_circom("M".to_string(), &f).unwrap_err(), TranslateError::UnknownCell("nothing".to_string()));
}

#[test]
fn conflicting_assignment() {
    let f = function(
        &["%x"],
        vec![block("entry", vec![mul("%a", local("%x"), local("%x")), add("%a", local("%x"), local("%x"))], ret(local("%a")))],
    );
    assert_eq!(ir_to_circom("M".to_string(), &f).unwrap_err(), TranslateError::ConflictingAssignment("a".to_string()));
}

#[test]
fn identical_assignment_dropped() {
    let f = function(
        &["%x"],
        vec![block("entry", vec![mul("%a", local("%x"), local("%x")), mul("%a", local("%x"), local("%x"))], ret(local("%a")))],
    );
    let t = translate(&f);
    assert_eq!(targets(&t).iter().filter(|x| x.as_str() == "a").count(), 1);
}

#[test]
fn constant_branch_condition() {
    let f = function(
        &["%x"],
        vec![
            block(
                "entry",
                vec![],
                IrTerminator::CondBr { condition: konst(1), true_dest: "yes".to_string(), false_dest: "no".to_string() },
            ),
            block("yes", vec![], condbr("%x", "deep", "no")),
            block("deep", vec![], ret(konst(5))),
            block("no", vec![], ret(konst(6))),
        ],
    );
    let t = translate(&f);
    let ls = lines(&t);
    assert!(ls.contains(&"OUTPUT__m1 <== (OUTPUT__m1O - OUTPUT__m0) * C1x + OUTPUT__m0;".to_string()));
    assert!(ls.contains(&"C1x <== 1 * x;".to_string()));
    assert!(!ls.iter().any(|l| l.starts_with("signal 1") || l.contains(" 1F")));
    for i in &t.instructions {
        if let CircomInstr::SignalDeclaration(d) = i {
            assert!(is_legal(&d.reference().to_circom()));
        }
    }
    assert_single_assignment(&t);
}
