//! Value expressions: what an instruction computes, with its operands
//! given as value numbers instead of variable names.

use crate::ir::{Literal, Type, ValueOp};
use vstd::prelude::*;

verus! {

/// What a defining instruction computes.
#[derive(Debug, Clone, PartialEq, Eq, Hash)]
pub enum ValueExpr {
    /// A literal and the type tag of that literal.
    Constant(Literal, Type),
    /// An operator applied to numbered operands, with the result's type.
    Op(ValueOp, Vec<usize>, Type),
}

/// The mathematical view of a value expression.
pub ghost enum ExprView {
    Constant(Literal, Type),
    Op(ValueOp, Seq<nat>, Type),
}

/// A list of machine integers as a sequence of value numbers.
pub open spec fn numbers_of(v: Seq<usize>) -> Seq<nat> {
    Seq::new(v.len(), |i: int| v[i] as nat)
}

impl View for ValueExpr {
    type V = ExprView;

    open spec fn view(&self) -> ExprView {
        match *self {
            ValueExpr::Constant(literal, typ) => ExprView::Constant(literal, typ),
            ValueExpr::Op(op, args, typ) => ExprView::Op(op, numbers_of(args@), typ),
        }
    }
}

impl ExprView {
    /// The expression that stands for a literal.
    pub open spec fn of_literal(literal: Literal) -> ExprView {
        ExprView::Constant(literal, literal.type_of())
    }

    /// The declared type of the expression.
    pub open spec fn type_of(self) -> Type {
        match self {
            ExprView::Constant(_, typ) => typ,
            ExprView::Op(_, _, typ) => typ,
        }
    }

    /// The truth value, if the expression is a boolean constant.
    pub open spec fn constant_bool(self) -> Option<bool> {
        match self {
            ExprView::Constant(Literal::Bool(b), _) => Some(b),
            _ => None,
        }
    }

    /// The literal, if the expression is a constant.
    pub open spec fn constant(self) -> Option<Literal> {
        match self {
            ExprView::Constant(literal, _) => Some(literal),
            _ => None,
        }
    }
}

/// A copy of a list of value numbers.
pub fn clone_numbers(v: &Vec<usize>) -> (r: Vec<usize>)
    ensures
        r@ == v@,
{
    let mut r: Vec<usize> = Vec::new();
    let mut i: usize = 0;
    while i < v.len()
        invariant
            i <= v.len(),
            r@ == v@.take(i as int),
        decreases v.len() - i,
    {
        r.push(v[i]);
        proof {
            assert(v@.take(i + 1) =~= v@.take(i as int).push(v@[i as int]));
        }
        i = i + 1;
    }
    proof {
        assert(v@.take(v.len() as int) =~= v@);
    }
    r
}

/// Whether two lists hold the same value numbers in the same order.
pub fn same_numbers(a: &Vec<usize>, b: &Vec<usize>) -> (r: bool)
    ensures
        r == (numbers_of(a@) == numbers_of(b@)),
{
    if a.len() != b.len() {
        assert(numbers_of(a@).len() != numbers_of(b@).len());
        return false;
    }
    let mut i: usize = 0;
    while i < a.len()
        invariant
            i <= a.len(),
            a.len() == b.len(),
            forall|j: int| 0 <= j < i ==> a@[j] == b@[j],
        decreases a.len() - i,
    {
        if a[i] != b[i] {
            assert(numbers_of(a@)[i as int] != numbers_of(b@)[i as int]);
            return false;
        }
        i = i + 1;
    }
    assert(numbers_of(a@) =~= numbers_of(b@));
    true
}

impl ValueExpr {
    /// The expression that stands for a literal; the literal's own variant
    /// gives the type.
    pub fn from_literal(literal: Literal) -> (r: ValueExpr)
        ensures
            r@ == ExprView::of_literal(literal),
    {
        let typ = literal.get_type();
        ValueExpr::Constant(literal, typ)
    }

    /// The declared type of the expression.
    pub fn get_type(&self) -> (t: Type)
        ensures
            t == self@.type_of(),
    {
        match self {
            ValueExpr::Constant(_, typ) => typ.duplicate(),
            ValueExpr::Op(_, _, typ) => typ.duplicate(),
        }
    }

    /// Whether the expression is a boolean constant.
    pub fn is_constant_bool(&self) -> (r: bool)
        ensures
            r == self@.constant_bool().is_some(),
    {
        match self {
            ValueExpr::Constant(Literal::Bool(_), _) => true,
            _ => false,
        }
    }

    /// The truth value of a boolean constant.
    pub fn get_constant_bool(&self) -> (b: bool)
        requires
            self@.constant_bool().is_some(),
        ensures
            self@.constant_bool() == Some(b),
    {
        match self {
            ValueExpr::Constant(Literal::Bool(b), _) => *b,
            _ => false,
        }
    }

    /// A copy of the expression.
    pub fn duplicate(&self) -> (r: ValueExpr)
        ensures
            r@ == self@,
    {
        match self {
            ValueExpr::Constant(literal, typ) => ValueExpr::Constant(*literal, typ.duplicate()),
            ValueExpr::Op(op, args, typ) => ValueExpr::Op(
                *op,
                clone_numbers(args),
                typ.duplicate(),
            ),
        }
    }

    /// Whether two expressions are equal: the same variant, and the same
    /// literal, or the same operator, operand numbers in order and type.
    pub fn same(&self, other: &ValueExpr) -> (r: bool)
        ensures
            r == (self@ == other@),
    {
        match (self, other) {
            (ValueExpr::Constant(l1, t1), ValueExpr::Constant(l2, t2)) => *l1 == *l2 && t1.same(t2),
            (ValueExpr::Op(o1, a1, t1), ValueExpr::Op(o2, a2, t2)) => *o1 == *o2 && same_numbers(
                a1,
                a2,
            ) && t1.same(t2),
            _ => false,
        }
    }
}

} // verus!
