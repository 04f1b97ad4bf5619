//! The IR as the translator reads it: a function's parameters and its basic
//! blocks, each with instructions and a terminator. Names are kept as the IR
//! spells them (with their `%` sigil).
use vstd::prelude::*;
use crate::error::{ErrorView, TranslateError};
use crate::instructions::{CircomOperand, OperandView, RefView, Reference};
use vstd::arithmetic::power2::{lemma2_to64, lemma_pow2_pos, lemma_pow2_strictly_increases, lemma_pow2_unfold, pow2};
use crate::names::{int_string, int_text, normalize_name, normalized};

verus! {

/// An operand of an IR instruction.
#[derive(Debug, Clone)]
pub enum IrOperand {
    /// A local value, by its IR name.
    Local(String),
    /// An integer constant.
    Int(i64),
    /// Any other operand, by its printable form.
    Other(String),
}

#[derive(Debug, Clone)]
pub enum IrInstructionKind {
    Mul { dest: String, operand0: IrOperand, operand1: IrOperand },
    Add { dest: String, operand0: IrOperand, operand1: IrOperand },
    URem { dest: String, operand0: IrOperand, operand1: IrOperand },
    /// An integer comparison for equality.
    ICmpEq { dest: String, operand0: IrOperand, operand1: IrOperand },
    ZExt { dest: String, operand: IrOperand },
    Trunc { dest: String, operand: IrOperand },
    Alloca { dest: String },
    Load { dest: String, address: IrOperand },
    Store { address: IrOperand, value: IrOperand },
    /// Any other instruction.
    Other,
}

/// An instruction and its printable form.
#[derive(Debug, Clone)]
pub struct IrInstruction {
    pub kind: IrInstructionKind,
    pub text: String,
}

#[derive(Debug, Clone)]
pub enum IrTerminator {
    Ret(Option<IrOperand>),
    Br(String),
    CondBr { condition: IrOperand, true_dest: String, false_dest: String },
    /// Any other terminator, by its printable form.
    Other(String),
}

#[derive(Debug, Clone)]
pub struct IrBlock {
    pub name: String,
    pub instrs: Vec<IrInstruction>,
    pub term: IrTerminator,
}

#[derive(Debug, Clone)]
pub struct IrFunction {
    pub parameters: Vec<String>,
    pub basic_blocks: Vec<IrBlock>,
}

/// The circuit operand of an IR operand, if it has one: a local becomes a
/// reference to its normal name, an integer a constant.
pub open spec fn operand_spec(o: IrOperand) -> Option<OperandView> {
    match o {
        IrOperand::Local(n) => Some(OperandView::Ref(RefView::Signal(normalized(n@)))),
        IrOperand::Int(v) => Some(OperandView::Const(v)),
        IrOperand::Other(_) => None,
    }
}

/// The printable form carried by an operand that has no circuit form.
pub open spec fn operand_unsupported(o: IrOperand) -> ErrorView {
    match o {
        IrOperand::Local(n) => ErrorView::Unsupported(n@),
        IrOperand::Int(v) => ErrorView::Unsupported(int_text(v as int)),
        IrOperand::Other(t) => ErrorView::Unsupported(t@),
    }
}

/// The circuit name of an operand that names a local value.
pub open spec fn local_name_spec(o: IrOperand) -> Option<Seq<char>> {
    match o {
        IrOperand::Local(n) => Some(normalized(n@)),
        _ => None,
    }
}

/// The signed value of an integer constant of width `bits` whose bits, zero
/// extended (or, past 64 bits, truncated) to 64, are `value`.
pub open spec fn sign_extended(bits: u32, value: u64) -> int {
    if bits == 0 || bits >= 64 {
        if value >= 0x8000_0000_0000_0000 {
            value as int - 0x1_0000_0000_0000_0000
        } else {
            value as int
        }
    } else {
        let m = pow2(bits as nat) as int;
        let low = (value as int) % m;
        if low >= m / 2 {
            low - m
        } else {
            low
        }
    }
}

/// The signed value of an integer constant of width `bits` held, zero
/// extended, in `value`.
pub fn sign_extend(bits: u32, value: u64) -> (r: i64)
    ensures
        r as int == sign_extended(bits, value),
{
    if bits == 0 || bits >= 64 {
        if value >= 0x8000_0000_0000_0000 {
            return (value as i128 - 0x1_0000_0000_0000_0000i128) as i64;
        }
        return value as i64;
    }
    let mut m: u64 = 1;
    let mut k: u32 = 0;
    proof {
        lemma2_to64();
    }
    while k < bits
        invariant
            0 < bits < 64,
            k <= bits,
            m as nat == pow2(k as nat),
        decreases bits - k,
    {
        proof {
            lemma_pow2_unfold((k + 1) as nat);
            lemma_pow2_strictly_increases((k + 1) as nat, 64);
            lemma2_to64();
        }
        m = m * 2;
        k = k + 1;
    }
    proof {
        lemma_pow2_pos(bits as nat);
        lemma_pow2_strictly_increases(bits as nat, 64);
        lemma2_to64();
    }
    let low = value % m;
    if low >= m / 2 {
        (low as i128 - m as i128) as i64
    } else {
        low as i64
    }
}

/// The circuit value of an integer constant of width `bits` held, zero
/// extended, in `value`: a 1-bit constant is a boolean, 0 or 1; a wider one
/// is read as signed.
pub open spec fn constant_int(bits: u32, value: u64) -> int {
    if bits == 1 {
        (value % 2) as int
    } else {
        sign_extended(bits, value)
    }
}

/// The circuit value of an integer constant (see `constant_int`).
pub fn constant_value(bits: u32, value: u64) -> (r: i64)
    ensures
        r as int == constant_int(bits, value),
{
    if bits == 1 {
        (value % 2) as i64
    } else {
        sign_extend(bits, value)
    }
}

/// Converts an IR operand into a circuit operand.
pub fn convert_operand(o: &IrOperand) -> (r: Result<CircomOperand, TranslateError>)
    ensures
        r is Ok <==> operand_spec(*o) is Some,
        r matches Ok(x) ==> x@ == operand_spec(*o)->0,
        r matches Err(e) ==> e@ == operand_unsupported(*o),
{
    match o {
        IrOperand::Local(n) => Ok(CircomOperand::Reference(Reference::SignalRef(normalize_name(n.as_str())))),
        IrOperand::Int(v) => Ok(CircomOperand::Constant(*v)),
        IrOperand::Other(t) => Err(TranslateError::Unsupported(t.clone())),
    }
}

/// The circuit name of an operand that names a local value (an address).
pub fn local_name(o: &IrOperand) -> (r: Result<String, TranslateError>)
    ensures
        r is Ok <==> local_name_spec(*o) is Some,
        r matches Ok(x) ==> x@ == local_name_spec(*o)->0,
        r matches Err(e) ==> e@ == operand_unsupported(*o),
{
    match o {
        IrOperand::Local(n) => Ok(normalize_name(n.as_str())),
        IrOperand::Int(v) => Err(TranslateError::Unsupported(int_string(*v))),
        IrOperand::Other(t) => Err(TranslateError::Unsupported(t.clone())),
    }
}

/// The circuit-legal form of an IR name.
pub trait IRNameToSimpleString {
    spec fn simple_name(&self) -> Seq<char>;

    fn to_simple_string(&self) -> (r: String)
        ensures
            r@ == self.simple_name(),
    ;
}

impl IRNameToSimpleString for String {
    open spec fn simple_name(&self) -> Seq<char> {
        normalized(self@)
    }

    fn to_simple_string(&self) -> (r: String) {
        normalize_name(self.as_str())
    }
}

} // verus!
