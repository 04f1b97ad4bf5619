//! The circuit language: references, operands, expressions, constraints,
//! declarations and templates, with their abstract views and their surface text.
use vstd::prelude::*;
use crate::names::{int_string, int_text};

verus! {

/// Surface text of a circuit item.
pub trait CircomCodeGenerator {
    spec fn circom_text(&self) -> Seq<char>;

    fn to_circom(&self) -> (r: String)
        ensures
            r@ == self.circom_text(),
    ;
}

// ---------------------------------------------------------------- views

pub enum RefView {
    Signal(Seq<char>),
    Field(Seq<char>, Seq<char>),
}

pub enum OperandView {
    Ref(RefView),
    Const(i64),
}

pub enum ExprView {
    Operand(OperandView),
    Binary(OperandView, BinaryOperationType, OperandView),
    Cond(OperandView, OperandView, OperandView),
    Or(OperandView, OperandView),
}

pub enum DeclView {
    Input(Seq<char>),
    Private(Seq<char>),
    Output(Seq<char>),
}

pub enum InstrView {
    Decl(DeclView),
    Constraint(RefView, ExprView),
    Component(Seq<char>, Seq<char>),
}

pub struct TemplateView {
    pub name: Seq<char>,
    pub instructions: Seq<InstrView>,
}

// ---------------------------------------------------------------- text

pub open spec fn ref_text(r: RefView) -> Seq<char> {
    match r {
        RefView::Signal(s) => s,
        RefView::Field(c, f) => c + "."@ + f,
    }
}

pub open spec fn operand_text(o: OperandView) -> Seq<char> {
    match o {
        OperandView::Ref(r) => ref_text(r),
        OperandView::Const(c) => int_text(c as int),
    }
}

/// How a predicate operand is spelled inside a derived signal name: a
/// reference by its text, a constant `c` as `C{c}`, or `CN{-c}` when negative,
/// so that the name starts with a letter.
pub open spec fn operand_spelling(o: OperandView) -> Seq<char> {
    match o {
        OperandView::Ref(r) => ref_text(r),
        OperandView::Const(c) => if c < 0 {
            seq!['C', 'N'] + crate::names::decimal((-c) as nat)
        } else {
            seq!['C'] + crate::names::decimal(c as nat)
        },
    }
}

/// `1 - c` in 64-bit two's complement arithmetic.
pub open spec fn one_minus(c: i64) -> i64 {
    let d = 1 - c;
    (if d > i64::MAX {
        d - 0x1_0000_0000_0000_0000
    } else {
        d
    }) as i64
}

pub open spec fn op_symbol(op: BinaryOperationType) -> Seq<char> {
    match op {
        BinaryOperationType::Mul => "*"@,
        BinaryOperationType::Add => "+"@,
        BinaryOperationType::Sub => "-"@,
        BinaryOperationType::Rem => "%"@,
    }
}

pub open spec fn binary_text(l: OperandView, op: BinaryOperationType, r: OperandView) -> Seq<char> {
    operand_text(l) + " "@ + op_symbol(op) + " "@ + operand_text(r)
}

/// `(t - f) * c + f`
pub open spec fn cond_text(c: OperandView, t: OperandView, f: OperandView) -> Seq<char> {
    "("@ + operand_text(t) + " - "@ + operand_text(f) + ") * "@ + operand_text(c) + " + "@
        + operand_text(f)
}

/// `(a + b) - (a * b)`
pub open spec fn or_text(a: OperandView, b: OperandView) -> Seq<char> {
    "("@ + operand_text(a) + " + "@ + operand_text(b) + ") - ("@ + operand_text(a) + " * "@
        + operand_text(b) + ")"@
}

pub open spec fn expr_text(e: ExprView) -> Seq<char> {
    match e {
        ExprView::Operand(o) => operand_text(o),
        ExprView::Binary(l, op, r) => binary_text(l, op, r),
        ExprView::Cond(c, t, f) => cond_text(c, t, f),
        ExprView::Or(a, b) => or_text(a, b),
    }
}

pub open spec fn decl_text(d: DeclView) -> Seq<char> {
    match d {
        DeclView::Input(n) => "signal input "@ + n + ";"@,
        DeclView::Private(n) => "signal "@ + n + ";"@,
        DeclView::Output(n) => "signal output "@ + n + ";"@,
    }
}

pub open spec fn constraint_text(l: RefView, r: ExprView) -> Seq<char> {
    ref_text(l) + " <== "@ + expr_text(r) + ";"@
}

pub open spec fn component_text(local: Seq<char>, gadget: Seq<char>) -> Seq<char> {
    "component "@ + local + " = "@ + gadget + "();"@
}

pub open spec fn instr_text(i: InstrView) -> Seq<char> {
    match i {
        InstrView::Decl(d) => decl_text(d),
        InstrView::Constraint(l, r) => constraint_text(l, r),
        InstrView::Component(n, g) => component_text(n, g),
    }
}

/// One line per instruction, each indented by two spaces.
pub open spec fn body_text(s: Seq<InstrView>) -> Seq<char>
    decreases s.len(),
{
    if s.len() == 0 {
        Seq::empty()
    } else {
        body_text(s.drop_last()) + "  "@ + instr_text(s.last()) + "\n"@
    }
}

pub open spec fn template_text(t: TemplateView) -> Seq<char> {
    "template "@ + t.name + " {\n"@ + body_text(t.instructions) + "}\n"@
}

// ---------------------------------------------------------------- types

#[derive(Debug, Clone, Copy, PartialEq, Eq, Structural, Hash)]
pub enum BinaryOperationType {
    Mul,
    Add,
    Sub,
    Rem,
}

#[derive(Debug, Eq, Hash)]
pub enum Reference {
    SignalRef(String),
    ComponentField { component: String, field: String },
}

#[derive(Debug, Eq, Hash)]
pub enum CircomOperand {
    Reference(Reference),
    Constant(i64),
}

#[derive(Debug, Eq, Hash)]
pub struct BinaryOperation {
    pub left: CircomOperand,
    pub op: BinaryOperationType,
    pub right: CircomOperand,
}

#[derive(Debug, Eq, Hash)]
pub struct ConditionalValue {
    pub cond: CircomOperand,
    pub v_if_true: CircomOperand,
    pub v_if_false: CircomOperand,
}

#[derive(Debug, Eq, Hash)]
pub struct BinaryOr {
    pub a: CircomOperand,
    pub b: CircomOperand,
}

#[derive(Debug, Eq, Hash)]
pub enum Expression {
    Operand(CircomOperand),
    BinaryOperation(BinaryOperation),
    Conditional(ConditionalValue),
    BinaryOr(BinaryOr),
}

#[derive(Debug, Eq, Hash)]
pub enum SignalDeclaration {
    Input(String),
    Private(String),
    Output(String),
}

#[derive(Debug, Eq, Hash)]
pub struct ComponentInstatiation {
    pub name: String,
    pub component: String,
}

#[derive(Debug, Eq, Hash)]
pub struct ConstraintGenerationAssigment {
    pub left: Reference,
    pub right: Expression,
}

#[derive(Debug, Eq, Hash)]
pub enum CircomInstr {
    SignalDeclaration(SignalDeclaration),
    ConstraintGenerationAssigment(ConstraintGenerationAssigment),
    ComponentInstatiation(ComponentInstatiation),
}

#[derive(Debug)]
pub struct Template {
    pub name: String,
    pub instructions: Vec<CircomInstr>,
}

// ---------------------------------------------------------------- view impls

impl View for Reference {
    type V = RefView;

    open spec fn view(&self) -> RefView {
        match self {
            Reference::SignalRef(s) => RefView::Signal(s@),
            Reference::ComponentField { component, field } => RefView::Field(component@, field@),
        }
    }
}

impl View for CircomOperand {
    type V = OperandView;

    open spec fn view(&self) -> OperandView {
        match self {
            CircomOperand::Reference(r) => OperandView::Ref(r@),
            CircomOperand::Constant(c) => OperandView::Const(*c),
        }
    }
}

impl View for Expression {
    type V = ExprView;

    open spec fn view(&self) -> ExprView {
        match self {
            Expression::Operand(o) => ExprView::Operand(o@),
            Expression::BinaryOperation(b) => ExprView::Binary(b.left@, b.op, b.right@),
            Expression::Conditional(c) => ExprView::Cond(c.cond@, c.v_if_true@, c.v_if_false@),
            Expression::BinaryOr(o) => ExprView::Or(o.a@, o.b@),
        }
    }
}

impl View for SignalDeclaration {
    type V = DeclView;

    open spec fn view(&self) -> DeclView {
        match self {
            SignalDeclaration::Input(s) => DeclView::Input(s@),
            SignalDeclaration::Private(s) => DeclView::Private(s@),
            SignalDeclaration::Output(s) => DeclView::Output(s@),
        }
    }
}

impl View for CircomInstr {
    type V = InstrView;

    open spec fn view(&self) -> InstrView {
        match self {
            CircomInstr::SignalDeclaration(d) => InstrView::Decl(d@),
            CircomInstr::ConstraintGenerationAssigment(c) => InstrView::Constraint(c.left@, c.right@),
            CircomInstr::ComponentInstatiation(c) => InstrView::Component(c.name@, c.component@),
        }
    }
}

/// The views of a sequence of instructions.
pub open spec fn instrs_view(v: Seq<CircomInstr>) -> Seq<InstrView> {
    v.map_values(|i: CircomInstr| i@)
}

impl View for Template {
    type V = TemplateView;

    open spec fn view(&self) -> TemplateView {
        TemplateView { name: self.name@, instructions: instrs_view(self.instructions@) }
    }
}


// ---------------------------------------------------------------- equality

impl PartialEq for Reference {
    fn eq(&self, o: &Reference) -> (r: bool) {
        match (self, o) {
            (Reference::SignalRef(a), Reference::SignalRef(b)) => *a == *b,
            (
                Reference::ComponentField { component: c1, field: f1 },
                Reference::ComponentField { component: c2, field: f2 },
            ) => *c1 == *c2 && *f1 == *f2,
            _ => false,
        }
    }
}

impl vstd::std_specs::cmp::PartialEqSpecImpl for Reference {
    open spec fn obeys_eq_spec() -> bool {
        true
    }

    open spec fn eq_spec(&self, o: &Reference) -> bool {
        self@ == o@
    }
}

impl PartialEq for CircomOperand {
    fn eq(&self, o: &CircomOperand) -> (r: bool) {
        match (self, o) {
            (CircomOperand::Reference(a), CircomOperand::Reference(b)) => a == b,
            (CircomOperand::Constant(a), CircomOperand::Constant(b)) => *a == *b,
            _ => false,
        }
    }
}

impl vstd::std_specs::cmp::PartialEqSpecImpl for CircomOperand {
    open spec fn obeys_eq_spec() -> bool {
        true
    }

    open spec fn eq_spec(&self, o: &CircomOperand) -> bool {
        self@ == o@
    }
}

impl PartialEq for BinaryOperation {
    fn eq(&self, o: &BinaryOperation) -> (r: bool) {
        self.left == o.left && self.op == o.op && self.right == o.right
    }
}

impl vstd::std_specs::cmp::PartialEqSpecImpl for BinaryOperation {
    open spec fn obeys_eq_spec() -> bool {
        true
    }

    open spec fn eq_spec(&self, o: &BinaryOperation) -> bool {
        self.left@ == o.left@ && self.op == o.op && self.right@ == o.right@
    }
}

impl PartialEq for ConditionalValue {
    fn eq(&self, o: &ConditionalValue) -> (r: bool) {
        self.cond == o.cond && self.v_if_true == o.v_if_true && self.v_if_false == o.v_if_false
    }
}

impl vstd::std_specs::cmp::PartialEqSpecImpl for ConditionalValue {
    open spec fn obeys_eq_spec() -> bool {
        true
    }

    open spec fn eq_spec(&self, o: &ConditionalValue) -> bool {
        self.cond@ == o.cond@ && self.v_if_true@ == o.v_if_true@ && self.v_if_false@
            == o.v_if_false@
    }
}

impl PartialEq for BinaryOr {
    fn eq(&self, o: &BinaryOr) -> (r: bool) {
        self.a == o.a && self.b == o.b
    }
}

impl vstd::std_specs::cmp::PartialEqSpecImpl for BinaryOr {
    open spec fn obeys_eq_spec() -> bool {
        true
    }

    open spec fn eq_spec(&self, o: &BinaryOr) -> bool {
        self.a@ == o.a@ && self.b@ == o.b@
    }
}

impl PartialEq for Expression {
    fn eq(&self, o: &Expression) -> (r: bool) {
        match (self, o) {
            (Expression::Operand(a), Expression::Operand(b)) => a == b,
            (Expression::BinaryOperation(a), Expression::BinaryOperation(b)) => a == b,
            (Expression::Conditional(a), Expression::Conditional(b)) => a == b,
            (Expression::BinaryOr(a), Expression::BinaryOr(b)) => a == b,
            _ => false,
        }
    }
}

impl vstd::std_specs::cmp::PartialEqSpecImpl for Expression {
    open spec fn obeys_eq_spec() -> bool {
        true
    }

    open spec fn eq_spec(&self, o: &Expression) -> bool {
        self@ == o@
    }
}

impl PartialEq for SignalDeclaration {
    fn eq(&self, o: &SignalDeclaration) -> (r: bool) {
        match (self, o) {
            (SignalDeclaration::Input(a), SignalDeclaration::Input(b)) => *a == *b,
            (SignalDeclaration::Private(a), SignalDeclaration::Private(b)) => *a == *b,
            (SignalDeclaration::Output(a), SignalDeclaration::Output(b)) => *a == *b,
            _ => false,
        }
    }
}

impl vstd::std_specs::cmp::PartialEqSpecImpl for SignalDeclaration {
    open spec fn obeys_eq_spec() -> bool {
        true
    }

    open spec fn eq_spec(&self, o: &SignalDeclaration) -> bool {
        self@ == o@
    }
}

impl PartialEq for ComponentInstatiation {
    fn eq(&self, o: &ComponentInstatiation) -> (r: bool) {
        self.name == o.name && self.component == o.component
    }
}

impl vstd::std_specs::cmp::PartialEqSpecImpl for ComponentInstatiation {
    open spec fn obeys_eq_spec() -> bool {
        true
    }

    open spec fn eq_spec(&self, o: &ComponentInstatiation) -> bool {
        self.name@ == o.name@ && self.component@ == o.component@
    }
}

impl PartialEq for ConstraintGenerationAssigment {
    fn eq(&self, o: &ConstraintGenerationAssigment) -> (r: bool) {
        self.left == o.left && self.right == o.right
    }
}

impl vstd::std_specs::cmp::PartialEqSpecImpl for ConstraintGenerationAssigment {
    open spec fn obeys_eq_spec() -> bool {
        true
    }

    open spec fn eq_spec(&self, o: &ConstraintGenerationAssigment) -> bool {
        self.left@ == o.left@ && self.right@ == o.right@
    }
}

impl PartialEq for CircomInstr {
    fn eq(&self, o: &CircomInstr) -> (r: bool) {
        match (self, o) {
            (CircomInstr::SignalDeclaration(a), CircomInstr::SignalDeclaration(b)) => a == b,
            (
                CircomInstr::ConstraintGenerationAssigment(a),
                CircomInstr::ConstraintGenerationAssigment(b),
            ) => a == b,
            (CircomInstr::ComponentInstatiation(a), CircomInstr::ComponentInstatiation(b)) => a
                == b,
            _ => false,
        }
    }
}

impl vstd::std_specs::cmp::PartialEqSpecImpl for CircomInstr {
    open spec fn obeys_eq_spec() -> bool {
        true
    }

    open spec fn eq_spec(&self, o: &CircomInstr) -> bool {
        self@ == o@
    }
}

// ---------------------------------------------------------------- clone

impl Clone for Reference {
    fn clone(&self) -> (r: Self)
        ensures
            r == *self,
    {
        match self {
            Reference::SignalRef(s) => Reference::SignalRef(s.clone()),
            Reference::ComponentField { component, field } => Reference::ComponentField {
                component: component.clone(),
                field: field.clone(),
            },
        }
    }
}

impl Clone for CircomOperand {
    fn clone(&self) -> (r: Self)
        ensures
            r == *self,
    {
        match self {
            CircomOperand::Reference(x) => CircomOperand::Reference(x.clone()),
            CircomOperand::Constant(c) => CircomOperand::Constant(*c),
        }
    }
}

impl Clone for BinaryOperation {
    fn clone(&self) -> (r: Self)
        ensures
            r == *self,
    {
        BinaryOperation { left: self.left.clone(), op: self.op, right: self.right.clone() }
    }
}

impl Clone for ConditionalValue {
    fn clone(&self) -> (r: Self)
        ensures
            r == *self,
    {
        ConditionalValue {
            cond: self.cond.clone(),
            v_if_true: self.v_if_true.clone(),
            v_if_false: self.v_if_false.clone(),
        }
    }
}

impl Clone for BinaryOr {
    fn clone(&self) -> (r: Self)
        ensures
            r == *self,
    {
        BinaryOr { a: self.a.clone(), b: self.b.clone() }
    }
}

impl Clone for Expression {
    fn clone(&self) -> (r: Self)
        ensures
            r == *self,
    {
        match self {
            Expression::Operand(x) => Expression::Operand(x.clone()),
            Expression::BinaryOperation(x) => Expression::BinaryOperation(x.clone()),
            Expression::Conditional(x) => Expression::Conditional(x.clone()),
            Expression::BinaryOr(x) => Expression::BinaryOr(x.clone()),
        }
    }
}

impl Clone for SignalDeclaration {
    fn clone(&self) -> (r: Self)
        ensures
            r == *self,
    {
        match self {
            SignalDeclaration::Input(s) => SignalDeclaration::Input(s.clone()),
            SignalDeclaration::Private(s) => SignalDeclaration::Private(s.clone()),
            SignalDeclaration::Output(s) => SignalDeclaration::Output(s.clone()),
        }
    }
}

impl Clone for ComponentInstatiation {
    fn clone(&self) -> (r: Self)
        ensures
            r == *self,
    {
        ComponentInstatiation { name: self.name.clone(), component: self.component.clone() }
    }
}

impl Clone for ConstraintGenerationAssigment {
    fn clone(&self) -> (r: Self)
        ensures
            r == *self,
    {
        ConstraintGenerationAssigment { left: self.left.clone(), right: self.right.clone() }
    }
}

impl Clone for CircomInstr {
    fn clone(&self) -> (r: Self)
        ensures
            r == *self,
    {
        match self {
            CircomInstr::SignalDeclaration(x) => CircomInstr::SignalDeclaration(x.clone()),
            CircomInstr::ConstraintGenerationAssigment(x) => CircomInstr::ConstraintGenerationAssigment(
                x.clone(),
            ),
            CircomInstr::ComponentInstatiation(x) => CircomInstr::ComponentInstatiation(x.clone()),
        }
    }
}


// ---------------------------------------------------------------- helpers

/// Name of a declared signal.
pub open spec fn decl_name(d: DeclView) -> Seq<char> {
    match d {
        DeclView::Input(n) => n,
        DeclView::Private(n) => n,
        DeclView::Output(n) => n,
    }
}

impl ComponentInstatiation {
    /// Reference to the pin `field` of this component.
    pub fn field(&self, field: &str) -> (r: Reference)
        ensures
            r@ == RefView::Field(self.name@, field@),
    {
        Reference::ComponentField { component: self.name.clone(), field: String::from_str(field) }
    }
}

impl SignalDeclaration {
    /// Reference to the declared signal.
    pub fn reference(&self) -> (r: Reference)
        ensures
            r@ == RefView::Signal(decl_name(self@)),
    {
        match self {
            SignalDeclaration::Input(s) => Reference::SignalRef(s.clone()),
            SignalDeclaration::Output(s) => Reference::SignalRef(s.clone()),
            SignalDeclaration::Private(s) => Reference::SignalRef(s.clone()),
        }
    }
}

impl CircomOperand {
    /// The spelling of this operand inside a derived signal name.
    pub fn spelling(&self) -> (r: String)
        ensures
            r@ == operand_spelling(self@),
    {
        match self {
            CircomOperand::Reference(x) => x.to_circom(),
            CircomOperand::Constant(c) => {
                if *c < 0 {
                    let m: i128 = -(*c as i128);
                    proof {
                        reveal_strlit("CN");
                    }
                    concat(String::from_str("CN"), crate::names::decimal_string(m as u64).as_str())
                } else {
                    proof {
                        reveal_strlit("C");
                    }
                    concat(String::from_str("C"), crate::names::decimal_string(*c as u64).as_str())
                }
            },
        }
    }
}

/// `1 - c` in 64-bit two's complement arithmetic.
pub fn one_minus_const(c: i64) -> (r: i64)
    ensures
        r == one_minus(c),
{
    let d: i128 = 1 - (c as i128);
    if d > 0x7fff_ffff_ffff_ffff {
        (d - 0x1_0000_0000_0000_0000i128) as i64
    } else {
        d as i64
    }
}

impl Reference {
    /// Name of the intermediate signal that holds the value of a conditional
    /// write to this signal.
    pub fn intermediate_optional(&self) -> (r: String)
        requires
            self@ is Signal,
        ensures
            r@ == crate::names::intermediate_name(self@->Signal_0),
    {
        match self {
            Reference::SignalRef(s) => crate::names::intermediate_string(s.as_str()),
            Reference::ComponentField { .. } => String::new(),
        }
    }
}

/// `a` followed by `b`.
fn concat(mut a: String, b: &str) -> (r: String)
    ensures
        r@ == a@ + b@,
{
    a.append(b);
    a
}

// ---------------------------------------------------------------- text impls

impl CircomCodeGenerator for Reference {
    open spec fn circom_text(&self) -> Seq<char> {
        ref_text(self@)
    }

    fn to_circom(&self) -> (r: String) {
        match self {
            Reference::SignalRef(s) => s.clone(),
            Reference::ComponentField { component, field } => {
                let r = concat(component.clone(), ".");
                concat(r, field.as_str())
            },
        }
    }
}

impl CircomCodeGenerator for CircomOperand {
    open spec fn circom_text(&self) -> Seq<char> {
        operand_text(self@)
    }

    fn to_circom(&self) -> (r: String) {
        match self {
            CircomOperand::Reference(x) => x.to_circom(),
            CircomOperand::Constant(c) => int_string(*c),
        }
    }
}

fn op_str(op: BinaryOperationType) -> (r: &'static str)
    ensures
        r@ == op_symbol(op),
{
    match op {
        BinaryOperationType::Mul => "*",
        BinaryOperationType::Add => "+",
        BinaryOperationType::Sub => "-",
        BinaryOperationType::Rem => "%",
    }
}

impl CircomCodeGenerator for BinaryOperation {
    open spec fn circom_text(&self) -> Seq<char> {
        binary_text(self.left@, self.op, self.right@)
    }

    fn to_circom(&self) -> (r: String) {
        let r = concat(self.left.to_circom(), " ");
        let r = concat(r, op_str(self.op));
        let r = concat(r, " ");
        concat(r, self.right.to_circom().as_str())
    }
}

impl CircomCodeGenerator for ConditionalValue {
    open spec fn circom_text(&self) -> Seq<char> {
        cond_text(self.cond@, self.v_if_true@, self.v_if_false@)
    }

    fn to_circom(&self) -> (r: String) {
        let t = self.v_if_true.to_circom();
        let f = self.v_if_false.to_circom();
        let c = self.cond.to_circom();
        let r = concat(String::from_str("("), t.as_str());
        let r = concat(r, " - ");
        let r = concat(r, f.as_str());
        let r = concat(r, ") * ");
        let r = concat(r, c.as_str());
        let r = concat(r, " + ");
        concat(r, f.as_str())
    }
}

impl CircomCodeGenerator for BinaryOr {
    open spec fn circom_text(&self) -> Seq<char> {
        or_text(self.a@, self.b@)
    }

    fn to_circom(&self) -> (r: String) {
        let a = self.a.to_circom();
        let b = self.b.to_circom();
        let r = concat(String::from_str("("), a.as_str());
        let r = concat(r, " + ");
        let r = concat(r, b.as_str());
        let r = concat(r, ") - (");
        let r = concat(r, a.as_str());
        let r = concat(r, " * ");
        let r = concat(r, b.as_str());
        concat(r, ")")
    }
}

impl CircomCodeGenerator for Expression {
    open spec fn circom_text(&self) -> Seq<char> {
        expr_text(self@)
    }

    fn to_circom(&self) -> (r: String) {
        match self {
            Expression::Operand(x) => x.to_circom(),
            Expression::BinaryOperation(x) => x.to_circom(),
            Expression::Conditional(x) => x.to_circom(),
            Expression::BinaryOr(x) => x.to_circom(),
        }
    }
}

impl CircomCodeGenerator for SignalDeclaration {
    open spec fn circom_text(&self) -> Seq<char> {
        decl_text(self@)
    }

    fn to_circom(&self) -> (r: String) {
        let (head, name) = match self {
            SignalDeclaration::Input(n) => ("signal input ", n),
            SignalDeclaration::Private(n) => ("signal ", n),
            SignalDeclaration::Output(n) => ("signal output ", n),
        };
        let r = concat(String::from_str(head), name.as_str());
        concat(r, ";")
    }
}

impl CircomCodeGenerator for ComponentInstatiation {
    open spec fn circom_text(&self) -> Seq<char> {
        component_text(self.name@, self.component@)
    }

    fn to_circom(&self) -> (r: String) {
        let r = concat(String::from_str("component "), self.name.as_str());
        let r = concat(r, " = ");
        let r = concat(r, self.component.as_str());
        concat(r, "();")
    }
}

impl CircomCodeGenerator for ConstraintGenerationAssigment {
    open spec fn circom_text(&self) -> Seq<char> {
        constraint_text(self.left@, self.right@)
    }

    fn to_circom(&self) -> (r: String) {
        let r = concat(self.left.to_circom(), " <== ");
        let r = concat(r, self.right.to_circom().as_str());
        concat(r, ";")
    }
}

impl CircomCodeGenerator for CircomInstr {
    open spec fn circom_text(&self) -> Seq<char> {
        instr_text(self@)
    }

    fn to_circom(&self) -> (r: String) {
        match self {
            CircomInstr::SignalDeclaration(x) => x.to_circom(),
            CircomInstr::ConstraintGenerationAssigment(x) => x.to_circom(),
            CircomInstr::ComponentInstatiation(x) => x.to_circom(),
        }
    }
}

impl CircomCodeGenerator for Template {
    open spec fn circom_text(&self) -> Seq<char> {
        template_text(self@)
    }

    fn to_circom(&self) -> (r: String) {
        let r = concat(String::from_str("template "), self.name.as_str());
        let mut r = concat(r, " {\n");
        let ghost head = r@;
        let mut i: usize = 0;
        while i < self.instructions.len()
            invariant
                i <= self.instructions.len(),
                r@ == head + body_text(instrs_view(self.instructions@.subrange(0, i as int))),
            decreases self.instructions.len() - i,
        {
            let line = self.instructions[i].to_circom();
            r = concat(r, "  ");
            r = concat(r, line.as_str());
            r = concat(r, "\n");
            proof {
                let s = instrs_view(self.instructions@.subrange(0, i + 1));
                assert(s.drop_last() == instrs_view(self.instructions@.subrange(0, i as int)));
                assert(s.last() == self.instructions@[i as int]@);
            }
            i = i + 1;
        }
        assert(self.instructions@.subrange(0, self.instructions.len() as int) == self.instructions@);
        concat(r, "}\n")
    }
}

} // verus!
