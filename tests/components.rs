use ir_circom::circom_codegen::{known_components, ComponentIncludes};
use ir_circom::consumer::InstructionConsumer;
use ir_circom::contract::SimpleContract;
use ir_circom::control_flow::{children, compute_cfg, parents, topological_sort, Branch, BranchNode, ParentInfo, SimpleBranch};
use ir_circom::error::TranslateError;
use ir_circom::instructions::{
    BinaryOperation, BinaryOperationType, BinaryOr, CircomCodeGenerator, CircomInstr, CircomOperand, ComponentInstatiation,
    one_minus_const, ConditionalValue, ConstraintGenerationAssigment, Expression, Reference, SignalDeclaration,
};
use ir_circom::ir::{constant_value, sign_extend, IRNameToSimpleString, IrBlock, IrOperand, IrTerminator};
use ir_circom::names::{decimal_string, int_string, or_string, text_contains, version_string};
use ir_circom::signal_declarations::SignalDeclarations;

fn sig(n: &str) -> Reference {
    Reference::SignalRef(n.to_string())
}

fn op(n: &str) -> CircomOperand {
    CircomOperand::Reference(sig(n))
}

fn constraint(l: &str, e: Expression) -> CircomInstr {
    CircomInstr::ConstraintGenerationAssigment(ConstraintGenerationAssigment { left: sig(l), right: e })
}

fn blk(name: &str, term: IrTerminator) -> IrBlock {
    IrBlock { name: name.to_string(), instrs: vec![], term }
}

#[test]
fn decimal_spelling() {
    assert_eq!(decimal_string(0), "0");
    assert_eq!(decimal_string(1207), "1207");
    assert_eq!(int_string(-45), "-45");
    assert_eq!(int_string(i64::MIN), "-9223372036854775808");
    assert_eq!(int_string(i64::MAX), "9223372036854775807");
}

#[test]
fn derived_names() {
    assert_eq!(version_string("r", 12), "r_m12");
    assert_eq!(or_string("p", "qF"), "pUqF");
    assert_eq!("%4.x".to_string().to_simple_string(), "X4_x");
}

#[test]
fn substring_search() {
    assert!(text_contains("call @spill.x", "spill"));
    assert!(text_contains("abc", ""));
    assert!(!text_contains("spil", "spill"));
    assert!(!text_contains("precondition", "precondition_check"));
}

#[test]
fn expression_text() {
    let c = Expression::Conditional(ConditionalValue { cond: op("c"), v_if_true: op("t"), v_if_false: op("f") });
    assert_eq!(c.to_circom(), "(t - f) * c + f");
    let o = Expression::BinaryOr(BinaryOr { a: op("a"), b: op("b") });
    assert_eq!(o.to_circom(), "(a + b) - (a * b)");
    let b = Expression::BinaryOperation(BinaryOperation {
        left: CircomOperand::Constant(1),
        op: BinaryOperationType::Sub,
        right: op("x"),
    });
    assert_eq!(b.to_circom(), "1 - x");
    let g = ComponentInstatiation { name: "e_EQ".to_string(), component: "IsEqual".to_string() };
    assert_eq!(g.field("in[0]").to_circom(), "e_EQ.in[0]");
    assert_eq!(CircomInstr::ComponentInstatiation(g).to_circom(), "component e_EQ = IsEqual();");
    assert_eq!(SignalDeclaration::Output("o".to_string()).to_circom(), "signal output o;");
    assert_eq!(sig("r_m2").intermediate_optional(), "r_m2O");
}

#[test]
fn signal_table() {
    let mut s = SignalDeclarations::new(&vec!["%self".to_string(), "%a.b".to_string(), "%a.b".to_string()]);
    assert_eq!(s.get_reference("a_b".to_string()), sig("a_b"));
    assert_eq!(s.get_reference("t".to_string()), sig("t"));
    assert_eq!(s.declare_mutable_reference("r".to_string()).unwrap(), sig("r_m0"));
    assert_eq!(s.declare_mutable_reference("r".to_string()).unwrap_err(), TranslateError::CellRedeclared("r".to_string()));
    assert_eq!(s.increment_mutable_reference("r".to_string()).unwrap(), sig("r_m1"));
    assert_eq!(s.increment_mutable_reference("r".to_string()).unwrap(), sig("r_m2"));
    assert_eq!(s.read_mutable_reference("r".to_string()).unwrap(), op("r_m2"));
    assert_eq!(s.increment_mutable_reference("q".to_string()).unwrap_err(), TranslateError::UnknownCell("q".to_string()));
    assert_eq!(s.read_output_signal().unwrap_err(), TranslateError::UnknownCell("OUTPUT_".to_string()));
    assert_eq!(s.output_signal_name(), "OUTPUT_");
    assert_eq!(s.output_signal_final_reference(), sig("OUTPUT_"));
    let decls: Vec<String> = s.signals_instructions().iter().map(|i| i.to_circom()).collect();
    assert_eq!(
        decls,
        vec!["signal input a_b;", "signal t;", "signal r_m0;", "signal r_m1;", "signal r_m2;", "signal output OUTPUT_;"]
    );
}

#[test]
fn consumer_dedup() {
    let mut c = InstructionConsumer::new();
    let x = constraint("a", Expression::Operand(op("b")));
    let d = CircomInstr::SignalDeclaration(SignalDeclaration::Private("a".to_string()));
    assert!(c.push(d.clone()).is_ok());
    assert!(c.push(x.clone()).is_ok());
    assert!(c.push(x.clone()).is_ok());
    let conflict = constraint("a", Expression::Operand(op("z")));
    assert_eq!(c.push(conflict).unwrap_err(), TranslateError::ConflictingAssignment("a".to_string()));
    assert_eq!(c.instructions(), vec![d, x]);
}

#[test]
fn consumer_stream_twice() {
    let stream = vec![
        constraint("a", Expression::Operand(op("b"))),
        constraint("c", Expression::Operand(CircomOperand::Constant(3))),
        constraint("a", Expression::Operand(op("b"))),
    ];
    let mut once = InstructionConsumer::new();
    once.extend(stream.clone()).unwrap();
    let mut twice = InstructionConsumer::new();
    twice.extend(stream.clone()).unwrap();
    twice.extend(stream).unwrap();
    let once = once.instructions();
    assert_eq!(once.len(), 2);
    assert_eq!(once, twice.instructions());
}

#[test]
fn path_operations() {
    let s = SimpleBranch(vec![BranchNode(op("a"), true), BranchNode(op("b"), false)]);
    assert_eq!(s.condition_operand_name(), "abF");
    assert_eq!(s.parent(), SimpleBranch(vec![BranchNode(op("a"), true)]));
    assert_eq!(s.leaf_condition(), Some(BranchNode(op("b"), false)));
    assert_eq!(SimpleBranch(vec![]).leaf_condition(), None);
    let t = s.add_child(&ParentInfo::TrueBranch(0, op("c")));
    assert_eq!(t.condition_operand_name(), "abFc");
    assert_eq!(s.add_child(&ParentInfo::Merge(3)), s);
}

#[test]
fn predicates_from_many() {
    assert_eq!(Branch::from_many(vec![]), Branch::Simple(SimpleBranch(vec![])));
    let p = Branch::Simple(SimpleBranch(vec![BranchNode(op("p"), true)]));
    assert_eq!(Branch::from_many(vec![p.clone()]), p);
    let q = Branch::Or(vec![SimpleBranch(vec![BranchNode(op("q"), false)]), SimpleBranch(vec![])]);
    let m = Branch::from_many(vec![p.clone(), q]);
    assert_eq!(
        m,
        Branch::Or(vec![
            SimpleBranch(vec![BranchNode(op("p"), true)]),
            SimpleBranch(vec![BranchNode(op("q"), false)]),
            SimpleBranch(vec![]),
        ])
    );
    let ext = m.add_child(&ParentInfo::FalseBranch(1, op("z")));
    assert_eq!(
        ext,
        Branch::Or(vec![
            SimpleBranch(vec![BranchNode(op("p"), true), BranchNode(op("z"), false)]),
            SimpleBranch(vec![BranchNode(op("q"), false), BranchNode(op("z"), false)]),
            SimpleBranch(vec![BranchNode(op("z"), false)]),
        ])
    );
}

#[test]
fn cfg_of_a_diamond() {
    let blocks = vec![
        blk("entry", IrTerminator::CondBr {
            condition: IrOperand::Local("%c".to_string()),
            true_dest: "l".to_string(),
            false_dest: "r".to_string(),
        }),
        blk("join", IrTerminator::Ret(Some(IrOperand::Int(0)))),
        blk("r", IrTerminator::Br("join".to_string())),
        blk("l", IrTerminator::Br("join".to_string())),
    ];
    let cs = children(&blocks).unwrap();
    let ps = parents(&cs);
    assert_eq!(ps[1].len(), 2);
    assert_eq!(ps[0].len(), 0);
    assert_eq!(topological_sort(&cs, &ps).unwrap(), vec![0, 3, 2, 1]);
    let cfg = compute_cfg(&blocks).unwrap();
    assert_eq!(cfg.sorted, vec![0, 3, 2, 1]);
    assert_eq!(cfg.branch_conditions[3], Branch::Simple(SimpleBranch(vec![BranchNode(op("c"), true)])));
    assert_eq!(cfg.branch_conditions[2], Branch::Simple(SimpleBranch(vec![BranchNode(op("c"), false)])));
    assert_eq!(
        cfg.branch_conditions[1],
        Branch::Or(vec![SimpleBranch(vec![BranchNode(op("c"), false)]), SimpleBranch(vec![BranchNode(op("c"), true)])])
    );
}

#[test]
fn cfg_self_loop_is_a_cycle() {
    let blocks = vec![blk("a", IrTerminator::Br("a".to_string()))];
    let cs = children(&blocks).unwrap();
    let ps = parents(&cs);
    assert_eq!(topological_sort(&cs, &ps).unwrap_err(), TranslateError::Cycle);
}

#[test]
fn cfg_condition_on_both_sides() {
    let blocks = vec![
        blk("a", IrTerminator::CondBr {
            condition: IrOperand::Local("%k".to_string()),
            true_dest: "b".to_string(),
            false_dest: "b".to_string(),
        }),
        blk("b", IrTerminator::Ret(Some(IrOperand::Int(0)))),
    ];
    let cfg = compute_cfg(&blocks).unwrap();
    assert_eq!(cfg.sorted, vec![0, 1]);
}

#[test]
fn include_resolution() {
    let mut inc = ComponentIncludes::new(known_components());
    let g = |n: &str, c: &str| CircomInstr::ComponentInstatiation(ComponentInstatiation { name: n.to_string(), component: c.to_string() });
    inc.extract_component_usages(&vec![g("a_EQ", "IsEqual"), g("b", "Unknown"), g("c_EQ", "IsEqual")]);
    assert_eq!(inc.component_includes(), vec!["include \"circomlib/circuits/comparators.circom\";".to_string()]);
}

#[test]
fn example_contract() {
    let c = SimpleContract {};
    assert!(c.mock_check(800, true));
    assert!(c.mock_check(34, true));
    assert!(!c.mock_check(35, true));
    assert!(c.mock_check(900, false));
    assert!(c.mock_check(1, false));
    assert!(c.mock_check(2, false));
    assert!(!c.mock_check(3, false));
    assert!(!c.mock_check(u32::MAX - 98, false));
}

#[test]
fn cfg_constant_condition_accepted() {
    let blocks = vec![
        blk("a", IrTerminator::CondBr {
            condition: IrOperand::Int(1),
            true_dest: "b".to_string(),
            false_dest: "b".to_string(),
        }),
        blk("b", IrTerminator::Ret(Some(IrOperand::Int(0)))),
    ];
    let cfg = compute_cfg(&blocks).unwrap();
    assert_eq!(cfg.sorted, vec![0, 1]);
    assert_eq!(
        cfg.branch_conditions[1],
        Branch::Or(vec![
            SimpleBranch(vec![BranchNode(CircomOperand::Constant(1), true)]),
            SimpleBranch(vec![BranchNode(CircomOperand::Constant(1), false)]),
        ])
    );
}

#[test]
fn include_lines_deduplicated_by_path() {
    let known = vec![
        ("IsEqual".to_string(), "circomlib/circuits/comparators.circom".to_string()),
        ("IsZero".to_string(), "circomlib/circuits/comparators.circom".to_string()),
        ("Num2Bits".to_string(), "circomlib/circuits/bitify.circom".to_string()),
    ];
    let mut inc = ComponentIncludes::new(known);
    let g = |n: &str, c: &str| CircomInstr::ComponentInstatiation(ComponentInstatiation { name: n.to_string(), component: c.to_string() });
    inc.extract_component_usages(&vec![g("a", "IsEqual"), g("b", "Num2Bits"), g("c", "IsZero")]);
    assert_eq!(
        inc.component_includes(),
        vec![
            "include \"circomlib/circuits/comparators.circom\";".to_string(),
            "include \"circomlib/circuits/bitify.circom\";".to_string(),
        ]
    );
}

#[test]
fn sign_extension_of_constants() {
    assert_eq!(sign_extend(32, 4294967295), -1);
    assert_eq!(sign_extend(32, 7), 7);
    assert_eq!(sign_extend(1, 1), -1);
    assert_eq!(sign_extend(8, 128), -128);
    assert_eq!(sign_extend(8, 127), 127);
    assert_eq!(sign_extend(64, u64::MAX), -1);
    assert_eq!(sign_extend(128, 5), 5);
}

#[test]
fn consumer_extend_reports_first_conflict() {
    let mut c = InstructionConsumer::new();
    let stream = vec![
        constraint("a", Expression::Operand(op("b"))),
        constraint("c", Expression::Operand(op("d"))),
        constraint("c", Expression::Operand(op("e"))),
        constraint("a", Expression::Operand(op("z"))),
    ];
    assert_eq!(c.extend(stream).unwrap_err(), TranslateError::ConflictingAssignment("c".to_string()));
}

#[test]
fn boolean_constants_stay_zero_or_one() {
    assert_eq!(constant_value(1, 1), 1);
    assert_eq!(constant_value(1, 0), 0);
    assert_eq!(constant_value(32, 4294967295), -1);
}

#[test]
fn constant_operand_spelling_and_negation() {
    assert_eq!(CircomOperand::Constant(7).spelling(), "C7");
    assert_eq!(CircomOperand::Constant(-3).spelling(), "CN3");
    assert_eq!(op("x").spelling(), "x");
    assert_eq!(one_minus_const(1), 0);
    assert_eq!(one_minus_const(0), 1);
    assert_eq!(one_minus_const(i64::MIN), i64::MIN + 1);
    assert_eq!(one_minus_const(i64::MIN + 1), i64::MIN);
    let p = SimpleBranch(vec![BranchNode(CircomOperand::Constant(1), true), BranchNode(op("b"), false)]);
    assert_eq!(p.condition_operand_name(), "C1bF");
}
