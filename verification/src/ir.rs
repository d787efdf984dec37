//! The part of an LLVM module that the lifetime analysis reads, held as plain
//! values: functions, their parameters, and the instructions of their blocks.
use vstd::prelude::*;
use crate::text::{decimal, push_char, push_decimal};

verus! {

/// The name of a local value: a string name, or the sequential number that
/// an unnamed value was given.
pub enum Name {
    Name(String),
    Number(usize),
}

/// A [`Name`] as a mathematical value.
pub enum NameView {
    Name(Seq<char>),
    Number(usize),
}

impl View for Name {
    type V = NameView;

    open spec fn view(&self) -> NameView {
        match self {
            Name::Name(s) => NameView::Name(s@),
            Name::Number(n) => NameView::Number(*n),
        }
    }
}

/// How a name is written in LLVM assembly: `%` followed by the string or
/// the number.
pub open spec fn name_text(n: NameView) -> Seq<char> {
    match n {
        NameView::Name(s) => seq!['%'] + s,
        NameView::Number(k) => seq!['%'] + decimal(k as nat),
    }
}

impl Clone for Name {
    fn clone(&self) -> (r: Self)
        ensures
            r@ == self@,
    {
        match self {
            Name::Name(s) => Name::Name(s.clone()),
            Name::Number(n) => Name::Number(*n),
        }
    }
}

impl Name {
    /// Two names are equal as values.
    pub fn same(&self, other: &Name) -> (r: bool)
        ensures
            r == (self@ == other@),
    {
        match (self, other) {
            (Name::Name(a), Name::Name(b)) => *a == *b,
            (Name::Number(a), Name::Number(b)) => *a == *b,
            _ => false,
        }
    }

    /// The name as written in LLVM assembly; see [`name_text`].
    pub fn to_string(&self) -> (s: String)
        ensures
            s@ == name_text(self@),
    {
        let mut s = String::new();
        push_char(&mut s, '%');
        match self {
            Name::Name(t) => {
                s.append(t.as_str());
            },
            Name::Number(n) => {
                push_decimal(&mut s, *n);
            },
        }
        proof {
            assert(s@ =~= name_text(self@));
        }
        s
    }
}

/// The type of a value, as far as the analysis distinguishes types.
pub enum Type {
    IntegerType { bits: u32 },
    PointerType { pointee_type: Box<Type>, addr_space: u32 },
    /// Any other type (floating point, vectors, structures, ...).
    Other,
}

impl Clone for Type {
    fn clone(&self) -> (r: Self)
        ensures
            r == *self,
        decreases self,
    {
        match self {
            Type::IntegerType { bits } => Type::IntegerType { bits: *bits },
            Type::PointerType { pointee_type, addr_space } => {
                let inner: Type = (**pointee_type).clone();
                Type::PointerType { pointee_type: Box::new(inner), addr_space: *addr_space }
            },
            Type::Other => Type::Other,
        }
    }
}

/// A constant operand.
pub enum Constant {
    /// The address of a global, such as a function.
    GlobalReference { name: Name },
    /// Any other constant.
    Other,
}

/// An operand of an instruction.
pub enum Operand {
    LocalOperand { name: Name, ty: Type },
    ConstantOperand(Constant),
    MetadataOperand,
}

/// What a call instruction calls: inline assembly, or a function operand.
pub enum Callee {
    InlineAssembly,
    Operand(Operand),
}

/// `dest = load address`
pub struct Load {
    pub address: Operand,
    pub dest: Name,
}

/// `store value, address`
pub struct Store {
    pub address: Operand,
    pub value: Operand,
}

/// `dest = bitcast operand`
pub struct BitCast {
    pub operand: Operand,
    pub dest: Name,
}

/// `dest = call function(...)`
pub struct Call {
    pub function: Callee,
    pub dest: Option<Name>,
}

/// An instruction, as far as the analysis distinguishes instructions.
pub enum Instruction {
    Alloca,
    Load(Load),
    Store(Store),
    BitCast(BitCast),
    Call(Call),
    /// Any other instruction.
    Other,
}

/// A basic block: its instructions in order.
pub struct BasicBlock {
    pub instrs: Vec<Instruction>,
}

/// A parameter of a function.
pub struct Parameter {
    pub name: Name,
    pub ty: Type,
}

/// A function: its name, parameters and basic blocks.
pub struct Function {
    pub name: String,
    pub parameters: Vec<Parameter>,
    pub basic_blocks: Vec<BasicBlock>,
}

/// A module: its functions.
pub struct Module {
    pub functions: Vec<Function>,
}

} // verus!
