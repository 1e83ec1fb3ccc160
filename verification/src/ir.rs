//! The intermediate representation: types, literals, operators,
//! instructions and labels, each with its mathematical view.

use vstd::prelude::*;

verus! {

/// The type tag carried by every value-producing instruction.
#[derive(Debug, PartialEq, Eq, Hash)]
pub enum Type {
    Int,
    Bool,
    Float,
    Char,
    Pointer(Box<Type>),
}

/// A literal value. A float is held as its raw bit pattern, so that two
/// literals are equal exactly when tag and bits are equal.
#[derive(Debug, Clone, Copy, PartialEq, Eq, Hash, Structural)]
pub enum Literal {
    Int(i64),
    Bool(bool),
    Float(u64),
    Char(char),
}

/// The opcodes of value-producing instructions.
#[derive(Debug, Clone, Copy, PartialEq, Eq, Hash, Structural)]
pub enum ValueOp {
    Add,
    Sub,
    Mul,
    Div,
    Eq,
    Lt,
    Gt,
    Le,
    Ge,
    Not,
    And,
    Or,
    Call,
    Id,
    Phi,
    Fadd,
    Fsub,
    Fmul,
    Fdiv,
    Feq,
    Flt,
    Fgt,
    Fle,
    Fge,
    Ceq,
    Clt,
    Cgt,
    Cle,
    Cge,
    Char2int,
    Int2char,
    Alloc,
    Load,
    PtrAdd,
}

/// The opcodes of instructions that act and define nothing.
#[derive(Debug, Clone, Copy, PartialEq, Eq, Hash, Structural)]
pub enum EffectOp {
    Jump,
    Branch,
    Call,
    Return,
    Print,
    Nop,
    Store,
    Free,
    Speculate,
    Commit,
    Guard,
}

/// One instruction.
#[derive(Debug, Clone, PartialEq, Eq)]
#[allow(inconsistent_fields)]
pub enum Instruction {
    Constant { dest: String, const_type: Type, value: Literal },
    Value {
        op: ValueOp,
        args: Vec<String>,
        dest: String,
        op_type: Type,
        funcs: Vec<String>,
        labels: Vec<String>,
    },
    Effect { op: EffectOp, args: Vec<String>, funcs: Vec<String>, labels: Vec<String> },
}

/// One item of a function body: a jump target or an instruction.
#[derive(Debug, Clone, PartialEq, Eq)]
pub enum Code {
    Label { label: String },
    Instruction(Instruction),
}

/// A typed parameter of a function.
#[derive(Debug, Clone, PartialEq, Eq)]
pub struct Argument {
    pub name: String,
    pub arg_type: Type,
}

/// A function: its name, its parameters, its return type if it has one,
/// and its body.
#[derive(Debug, Clone, PartialEq, Eq)]
pub struct Function {
    pub name: String,
    pub args: Vec<Argument>,
    pub return_type: Option<Type>,
    pub instrs: Vec<Code>,
}

/// A program: its functions in their order.
#[derive(Debug, Clone, PartialEq, Eq)]
pub struct Program {
    pub functions: Vec<Function>,
}

/// A variable, function or label name as a sequence of characters.
pub type Name = Seq<char>;

/// The mathematical view of an instruction.
#[allow(inconsistent_fields)]
pub ghost enum InstructionView {
    Constant { dest: Name, const_type: Type, value: Literal },
    Value { op: ValueOp, args: Seq<Name>, dest: Name, op_type: Type, funcs: Seq<Name>, labels: Seq<Name> },
    Effect { op: EffectOp, args: Seq<Name>, funcs: Seq<Name>, labels: Seq<Name> },
}

/// The mathematical view of a code item.
pub ghost enum CodeView {
    Label { label: Name },
    Instruction(InstructionView),
}

/// The names held by a sequence of strings.
pub open spec fn names_of(v: Seq<String>) -> Seq<Name> {
    Seq::new(v.len(), |i: int| v[i]@)
}

/// The views of a sequence of code items.
pub open spec fn codes_of(v: Seq<Code>) -> Seq<CodeView> {
    Seq::new(v.len(), |i: int| v[i]@)
}

impl View for Instruction {
    type V = InstructionView;

    open spec fn view(&self) -> InstructionView {
        match *self {
            Instruction::Constant { dest, const_type, value } => InstructionView::Constant {
                dest: dest@,
                const_type,
                value,
            },
            Instruction::Value { op, args, dest, op_type, funcs, labels } => InstructionView::Value {
                op,
                args: names_of(args@),
                dest: dest@,
                op_type,
                funcs: names_of(funcs@),
                labels: names_of(labels@),
            },
            Instruction::Effect { op, args, funcs, labels } => InstructionView::Effect {
                op,
                args: names_of(args@),
                funcs: names_of(funcs@),
                labels: names_of(labels@),
            },
        }
    }
}

impl View for Code {
    type V = CodeView;

    open spec fn view(&self) -> CodeView {
        match *self {
            Code::Label { label } => CodeView::Label { label: label@ },
            Code::Instruction(instr) => CodeView::Instruction(instr@),
        }
    }
}

impl CodeView {
    /// The variables that an item reads.
    pub open spec fn args(self) -> Seq<Name> {
        match self {
            CodeView::Instruction(InstructionView::Value { args, .. }) => args,
            CodeView::Instruction(InstructionView::Effect { args, .. }) => args,
            _ => Seq::empty(),
        }
    }

    /// The variable that an item defines, if it defines one.
    pub open spec fn dest(self) -> Option<Name> {
        match self {
            CodeView::Instruction(InstructionView::Constant { dest, .. }) => Some(dest),
            CodeView::Instruction(InstructionView::Value { dest, .. }) => Some(dest),
            _ => None,
        }
    }
}

/// The labels of a body, in the order in which they stand.
pub open spec fn labels_in(body: Seq<CodeView>) -> Seq<Name>
    decreases body.len(),
{
    if body.len() == 0 {
        Seq::empty()
    } else {
        let rest = labels_in(body.drop_last());
        match body.last() {
            CodeView::Label { label } => rest.push(label),
            _ => rest,
        }
    }
}

impl Literal {
    /// The type tag that a literal carries by its own variant.
    pub open spec fn type_of(self) -> Type {
        match self {
            Literal::Int(_) => Type::Int,
            Literal::Bool(_) => Type::Bool,
            Literal::Float(_) => Type::Float,
            Literal::Char(_) => Type::Char,
        }
    }

    /// The type of this literal.
    pub fn get_type(&self) -> (t: Type)
        ensures
            t == self.type_of(),
    {
        match self {
            Literal::Int(_) => Type::Int,
            Literal::Bool(_) => Type::Bool,
            Literal::Float(_) => Type::Float,
            Literal::Char(_) => Type::Char,
        }
    }
}

impl Type {
    /// A copy of this type tag.
    pub fn duplicate(&self) -> (t: Type)
        ensures
            t == *self,
        decreases *self,
    {
        match self {
            Type::Int => Type::Int,
            Type::Bool => Type::Bool,
            Type::Float => Type::Float,
            Type::Char => Type::Char,
            Type::Pointer(inner) => Type::Pointer(Box::new(inner.duplicate())),
        }
    }

    /// Whether two type tags are the same.
    pub fn same(&self, other: &Type) -> (b: bool)
        ensures
            b == (*self == *other),
        decreases *self,
    {
        match (self, other) {
            (Type::Int, Type::Int) => true,
            (Type::Bool, Type::Bool) => true,
            (Type::Float, Type::Float) => true,
            (Type::Char, Type::Char) => true,
            (Type::Pointer(a), Type::Pointer(b)) => a.same(b),
            _ => false,
        }
    }
}

impl Clone for Type {
    fn clone(&self) -> (t: Type)
        ensures
            t == *self,
    {
        self.duplicate()
    }
}

/// A copy of a list of names.
pub fn clone_names(v: &Vec<String>) -> (r: Vec<String>)
    ensures
        r@ == v@,
{
    let mut r: Vec<String> = Vec::new();
    let mut i: usize = 0;
    while i < v.len()
        invariant
            i <= v.len(),
            r@ == v@.take(i as int),
        decreases v.len() - i,
    {
        r.push(v[i].clone());
        proof {
            assert(v@.take(i + 1) =~= v@.take(i as int).push(v@[i as int]));
        }
        i = i + 1;
    }
    proof {
        assert(v@.take(v.len() as int) =~= v@);
    }
    r
}

impl Instruction {
    /// A copy of this instruction.
    pub fn duplicate(&self) -> (r: Instruction)
        ensures
            r@ == self@,
    {
        match self {
            Instruction::Constant { dest, const_type, value } => Instruction::Constant {
                dest: dest.clone(),
                const_type: const_type.duplicate(),
                value: *value,
            },
            Instruction::Value { op, args, dest, op_type, funcs, labels } => {
                let r = Instruction::Value {
                    op: *op,
                    args: clone_names(args),
                    dest: dest.clone(),
                    op_type: op_type.duplicate(),
                    funcs: clone_names(funcs),
                    labels: clone_names(labels),
                };
                r
            },
            Instruction::Effect { op, args, funcs, labels } => Instruction::Effect {
                op: *op,
                args: clone_names(args),
                funcs: clone_names(funcs),
                labels: clone_names(labels),
            },
        }
    }
}

impl Code {
    /// A copy of this item.
    pub fn duplicate(&self) -> (r: Code)
        ensures
            r@ == self@,
    {
        match self {
            Code::Label { label } => Code::Label { label: label.clone() },
            Code::Instruction(instr) => Code::Instruction(instr.duplicate()),
        }
    }
}

} // verus!
