//! What straight-line code means, for any meaning of the operators that
//! makes them functions of their operands.

use crate::ir::{CodeView, EffectOp, InstructionView, Literal, Name, Type, ValueOp};
use crate::model::is_commutative;
use crate::options::Options;
use vstd::prelude::*;

verus! {

/// A meaning of the language over values of type `V`: the value of each
/// literal, and the result of each operator as a function of the values
/// of its operands and of its type tag.
#[verifier::reject_recursive_types(V)]
pub ghost struct Interp<V> {
    pub literal: spec_fn(Literal) -> V,
    pub eval: spec_fn(ValueOp, Seq<V>, Type) -> V,
}

/// What an effect lets the world see: its opcode, the values of its
/// operands, and the functions and labels that it names.
pub ghost struct Event<V> {
    pub op: EffectOp,
    pub args: Seq<V>,
    pub funcs: Seq<Name>,
    pub labels: Seq<Name>,
}

/// A state of execution: the value of each variable and the effects so
/// far. A variable that was never assigned holds whatever `env` says.
pub ghost struct State<V> {
    pub env: Map<Name, V>,
    pub trace: Seq<Event<V>>,
}

impl<V> Interp<V> {
    /// The value of a literal.
    pub open spec fn lit(self, literal: Literal) -> V {
        (self.literal)(literal)
    }

    /// The result of an operator on the given operand values.
    pub open spec fn apply(self, op: ValueOp, args: Seq<V>, typ: Type) -> V {
        (self.eval)(op, args, typ)
    }

    /// Whether the meaning justifies the rewrites that `options` switch
    /// on: `id` gives its operand back; with commutativity, the result of
    /// `add`, `mul` and `eq` does not depend on the order of the
    /// operands; with folding, `and`, `or` and `not` are the boolean
    /// connectives wherever the operands that decide are boolean
    /// literals.
    pub open spec fn lawful(self, options: Options) -> bool {
        &&& forall|args: Seq<V>, typ: Type|
            args.len() == 1 ==> #[trigger] self.apply(ValueOp::Id, args, typ) == args[0]
        &&& options.handle_commutativity ==> forall|op: ValueOp, a: Seq<V>, b: Seq<V>, typ: Type|
            is_commutative(op) && a.to_multiset() == b.to_multiset() ==> #[trigger] self.apply(
                op,
                a,
                typ,
            ) == #[trigger] self.apply(op, b, typ)
        &&& options.handle_const_folding ==> {
            &&& forall|args: Seq<V>, typ: Type|
                args.len() == 2 && (args[0] == self.lit(Literal::Bool(false)) || args[1]
                    == self.lit(Literal::Bool(false))) ==> #[trigger] self.apply(
                    ValueOp::And,
                    args,
                    typ,
                ) == self.lit(Literal::Bool(false))
            &&& forall|args: Seq<V>, typ: Type|
                args.len() == 2 && args[0] == self.lit(Literal::Bool(true)) && args[1] == self.lit(
                    Literal::Bool(true),
                ) ==> #[trigger] self.apply(ValueOp::And, args, typ) == self.lit(
                    Literal::Bool(true),
                )
            &&& forall|args: Seq<V>, typ: Type|
                args.len() == 2 && (args[0] == self.lit(Literal::Bool(true)) || args[1] == self.lit(
                    Literal::Bool(true),
                )) ==> #[trigger] self.apply(ValueOp::Or, args, typ) == self.lit(
                    Literal::Bool(true),
                )
            &&& forall|args: Seq<V>, typ: Type|
                args.len() == 2 && args[0] == self.lit(Literal::Bool(false)) && args[1]
                    == self.lit(Literal::Bool(false)) ==> #[trigger] self.apply(
                    ValueOp::Or,
                    args,
                    typ,
                ) == self.lit(Literal::Bool(false))
            &&& forall|args: Seq<V>, typ: Type|
                args.len() == 1 && args[0] == self.lit(Literal::Bool(true)) ==> #[trigger] self.apply(
                    ValueOp::Not,
                    args,
                    typ,
                ) == self.lit(Literal::Bool(false))
            &&& forall|args: Seq<V>, typ: Type|
                args.len() == 1 && args[0] == self.lit(Literal::Bool(false)) ==> #[trigger] self.apply(
                    ValueOp::Not,
                    args,
                    typ,
                ) == self.lit(Literal::Bool(true))
        }
    }

    /// The state after one code item. A label does nothing; a definition
    /// assigns; an effect is recorded with the values of its operands.
    pub open spec fn exec_item(self, state: State<V>, code: CodeView) -> State<V> {
        match code {
            CodeView::Label { .. } => state,
            CodeView::Instruction(InstructionView::Constant { dest, value, .. }) => State {
                env: state.env.insert(dest, self.lit(value)),
                ..state
            },
            CodeView::Instruction(InstructionView::Value { op, args, dest, op_type, .. }) => State {
                env: state.env.insert(dest, self.apply(op, values_of(state.env, args), op_type)),
                ..state
            },
            CodeView::Instruction(InstructionView::Effect { op, args, funcs, labels }) => State {
                trace: state.trace.push(
                    Event { op, args: values_of(state.env, args), funcs, labels },
                ),
                ..state
            },
        }
    }

    /// The state after a run of code items, from left to right.
    pub open spec fn exec_items(self, state: State<V>, body: Seq<CodeView>) -> State<V>
        decreases body.len(),
    {
        if body.len() == 0 {
            state
        } else {
            self.exec_item(self.exec_items(state, body.drop_last()), body.last())
        }
    }
}

/// The values that `env` gives to a list of variables.
pub open spec fn values_of<V>(env: Map<Name, V>, args: Seq<Name>) -> Seq<V> {
    Seq::new(args.len(), |i: int| env[args[i]])
}

/// Whether `x` is read or defined by an item of `body`.
pub open spec fn mentions(body: Seq<CodeView>, x: Name) -> bool {
    exists|j: int|
        0 <= j < body.len() && ((#[trigger] body[j]).args().contains(x) || body[j].dest() == Some(
            x,
        ))
}

/// Whether the item at place `i`, if it defines a variable, defines one
/// that it does not read itself and that no item before it reads or
/// defines.
pub open spec fn fresh_at(body: Seq<CodeView>, i: int) -> bool {
    match body[i].dest() {
        Some(x) => !body[i].args().contains(x) && !mentions(body.take(i), x),
        None => true,
    }
}

/// Whether no variable of `body` is assigned after it was read or
/// assigned.
pub open spec fn assigns_once(body: Seq<CodeView>) -> bool {
    forall|i: int| 0 <= i < body.len() ==> #[trigger] fresh_at(body, i)
}

} // verus!
