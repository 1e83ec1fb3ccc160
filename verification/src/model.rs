//! The mathematical model of value numbering: the table, what each
//! instruction does to it, and the instruction that it leaves in place.

use crate::cfg::split_blocks;
use crate::expr::ExprView;
use crate::ir::{CodeView, InstructionView, Literal, Name, Type, ValueOp};
use crate::options::Options;
use crate::order::ascending;
use vstd::prelude::*;

verus! {

/// The value-number table of one basic block.
pub ghost struct TableView {
    /// For each value number, the variable that stands for it.
    pub canonical: Seq<Name>,
    /// The expression stored under a value number, where there is one.
    pub values: Map<nat, ExprView>,
    /// For each stored expression, its canonical variable and its number.
    pub by_value: Map<ExprView, (Name, nat)>,
    /// The value number that each variable seen so far refers to.
    pub by_var: Map<Name, nat>,
}

impl TableView {
    /// The table at the start of a block.
    pub open spec fn empty() -> TableView {
        TableView {
            canonical: Seq::empty(),
            values: Map::empty(),
            by_value: Map::empty(),
            by_var: Map::empty(),
        }
    }

    /// The number that the next new value gets: the numbers in use are
    /// exactly those below it.
    pub open spec fn next_number(self) -> nat {
        self.canonical.len()
    }

    /// The consistency of the indices: every number that occurs is in
    /// use, and the index by expression is an inverse of the two indices
    /// by number.
    pub open spec fn wf(self) -> bool {
        &&& forall|n: nat| #[trigger] self.values.contains_key(n) ==> n < self.next_number()
        &&& forall|v: ExprView| #[trigger]
            self.by_value.contains_key(v) ==> {
                &&& self.values.contains_key(self.by_value[v].1)
                &&& self.values[self.by_value[v].1] == v
                &&& self.canonical[self.by_value[v].1 as int] == self.by_value[v].0
            }
        &&& forall|x: Name| #[trigger] self.by_var.contains_key(x) ==> self.by_var[x] < self.next_number()
    }

    /// The table after a variable from outside the block was met: it gets
    /// a number of its own and stands for that number itself.
    pub open spec fn with_external(self, x: Name) -> TableView {
        TableView {
            canonical: self.canonical.push(x),
            by_var: self.by_var.insert(x, self.next_number()),
            ..self
        }
    }

    /// The table after `var` was made another name of the number `n`.
    pub open spec fn with_alias(self, var: Name, n: nat) -> TableView {
        TableView { by_var: self.by_var.insert(var, n), ..self }
    }

    /// The table after a new number was given to `value`, with `var` as
    /// its canonical variable.
    pub open spec fn with_fresh(self, var: Name, value: ExprView) -> TableView {
        let n = self.next_number();
        TableView {
            canonical: self.canonical.push(var),
            values: self.values.insert(n, value),
            by_value: self.by_value.insert(value, (var, n)),
            by_var: self.by_var.insert(var, n),
        }
    }

    /// The number of a variable, and the table after the lookup: a
    /// variable without a number is registered as coming from outside.
    pub open spec fn number_of(self, x: Name) -> (TableView, nat) {
        if self.by_var.contains_key(x) {
            (self, self.by_var[x])
        } else {
            (self.with_external(x), self.next_number())
        }
    }

    /// The numbers of a list of variables, looked up from left to right.
    pub open spec fn number_args(self, args: Seq<Name>) -> (TableView, Seq<nat>)
        decreases args.len(),
    {
        if args.len() == 0 {
            (self, Seq::empty())
        } else {
            let (t, front) = self.number_args(args.drop_last());
            let (t2, n) = t.number_of(args.last());
            (t2, front.push(n))
        }
    }

    /// The canonical variable of the value that `x` holds, and the table
    /// after the lookup.
    pub open spec fn canonical_of(self, x: Name) -> (TableView, Name) {
        let (t, n) = self.number_of(x);
        (t, t.canonical[n as int])
    }

    /// A list of variables with each replaced by the canonical variable of
    /// its value, from left to right.
    pub open spec fn canonical_args(self, args: Seq<Name>) -> (TableView, Seq<Name>)
        decreases args.len(),
    {
        if args.len() == 0 {
            (self, Seq::empty())
        } else {
            let (t, front) = self.canonical_args(args.drop_last());
            let (t2, y) = t.canonical_of(args.last());
            (t2, front.push(y))
        }
    }

    /// The truth value stored under `n`, if a boolean constant is stored
    /// there.
    pub open spec fn known_bool(self, n: nat) -> Option<bool> {
        if self.values.contains_key(n) {
            self.values[n].constant_bool()
        } else {
            None
        }
    }

    /// The literal stored under `n`, if a constant is stored there.
    pub open spec fn known_constant(self, n: nat) -> Option<Literal> {
        if self.values.contains_key(n) {
            self.values[n].constant()
        } else {
            None
        }
    }
}

/// Registering a variable from outside keeps the table consistent.
pub proof fn lemma_with_external_wf(table: TableView, x: Name)
    requires
        table.wf(),
    ensures
        table.with_external(x).wf(),
{
    let t = table.with_external(x);
    assert forall|v: ExprView| #[trigger] t.by_value.contains_key(v) implies {
        &&& t.values.contains_key(t.by_value[v].1)
        &&& t.values[t.by_value[v].1] == v
        &&& t.canonical[t.by_value[v].1 as int] == t.by_value[v].0
    } by {
        assert(table.by_value.contains_key(v));
        assert(table.values.contains_key(table.by_value[v].1));
    }
    assert forall|y: Name| #[trigger] t.by_var.contains_key(y) implies t.by_var[y]
        < t.next_number() by {
        if y != x {
            assert(table.by_var.contains_key(y));
        }
    }
}

/// Another name for a number in use keeps the table consistent.
pub proof fn lemma_with_alias_wf(table: TableView, var: Name, n: nat)
    requires
        table.wf(),
        n < table.next_number(),
    ensures
        table.with_alias(var, n).wf(),
{
    let t = table.with_alias(var, n);
    assert forall|y: Name| #[trigger] t.by_var.contains_key(y) implies t.by_var[y]
        < t.next_number() by {
        if y != var {
            assert(table.by_var.contains_key(y));
        }
    }
}

/// A fresh number for a value keeps the table consistent.
pub proof fn lemma_with_fresh_wf(table: TableView, var: Name, value: ExprView)
    requires
        table.wf(),
    ensures
        table.with_fresh(var, value).wf(),
{
    let t = table.with_fresh(var, value);
    let n = table.next_number();
    assert forall|m: nat| #[trigger] t.values.contains_key(m) implies m < t.next_number() by {
        if m != n {
            assert(table.values.contains_key(m));
        }
    }
    assert forall|v: ExprView| #[trigger] t.by_value.contains_key(v) implies {
        &&& t.values.contains_key(t.by_value[v].1)
        &&& t.values[t.by_value[v].1] == v
        &&& t.canonical[t.by_value[v].1 as int] == t.by_value[v].0
    } by {
        if v != value {
            assert(table.by_value.contains_key(v));
            assert(table.values.contains_key(table.by_value[v].1));
            assert(table.by_value[v].1 < n);
        }
    }
    assert forall|y: Name| #[trigger] t.by_var.contains_key(y) implies t.by_var[y]
        < t.next_number() by {
        if y != var {
            assert(table.by_var.contains_key(y));
        }
    }
}

/// Whether every operand number of `value` is below `bound`.
pub open spec fn numbers_below(value: ExprView, bound: nat) -> bool {
    match value {
        ExprView::Op(_, args, _) => forall|k: int| 0 <= k < args.len() ==> #[trigger] args[k] < bound,
        ExprView::Constant(..) => true,
    }
}

/// Whether the operands of `op` may be exchanged.
pub open spec fn is_commutative(op: ValueOp) -> bool {
    op == ValueOp::Add || op == ValueOp::Mul || op == ValueOp::Eq
}

/// The expression with the operands of a commutative operator in
/// ascending order of their numbers, where this rewrite is switched on.
pub open spec fn normalize(value: ExprView, options: Options) -> ExprView {
    match value {
        ExprView::Op(op, args, typ) if options.handle_commutativity && is_commutative(op) => ExprView::Op(
            op,
            ascending(args),
            typ,
        ),
        _ => value,
    }
}

/// Conjunction of two operands of which each may be unknown: a known
/// `false` decides alone.
pub open spec fn fold_and(a: Option<bool>, b: Option<bool>) -> Option<bool> {
    if a == Some(false) || b == Some(false) {
        Some(false)
    } else if a == Some(true) && b == Some(true) {
        Some(true)
    } else {
        None
    }
}

/// Disjunction of two operands of which each may be unknown: a known
/// `true` decides alone.
pub open spec fn fold_or(a: Option<bool>, b: Option<bool>) -> Option<bool> {
    if a == Some(true) || b == Some(true) {
        Some(true)
    } else if a == Some(false) && b == Some(false) {
        Some(false)
    } else {
        None
    }
}

/// Negation of an operand that may be unknown.
pub open spec fn fold_not(a: Option<bool>) -> Option<bool> {
    match a {
        Some(b) => Some(!b),
        None => None,
    }
}

/// The truth value of `value`, where it is `and`, `or` of two operands or
/// `not` of one and the table knows enough of the operands.
pub open spec fn folded(table: TableView, value: ExprView) -> Option<bool> {
    match value {
        ExprView::Op(ValueOp::And, args, _) if args.len() == 2 => fold_and(
            table.known_bool(args[0]),
            table.known_bool(args[1]),
        ),
        ExprView::Op(ValueOp::Or, args, _) if args.len() == 2 => fold_or(
            table.known_bool(args[0]),
            table.known_bool(args[1]),
        ),
        ExprView::Op(ValueOp::Not, args, _) if args.len() == 1 => fold_not(
            table.known_bool(args[0]),
        ),
        _ => None,
    }
}

/// The source of a copy: the one operand number of an `id`.
pub open spec fn copied(value: ExprView) -> Option<nat> {
    match value {
        ExprView::Op(ValueOp::Id, args, _) if args.len() == 1 => Some(args[0]),
        _ => None,
    }
}

/// The instruction that defines `dest` as the literal `value`.
pub open spec fn constant_instruction(dest: Name, value: Literal) -> CodeView {
    CodeView::Instruction(
        InstructionView::Constant { dest, const_type: value.type_of(), value },
    )
}

/// The instruction that defines `dest` as a copy of `source`.
pub open spec fn copy_instruction(dest: Name, source: Name, typ: Type) -> CodeView {
    CodeView::Instruction(
        InstructionView::Value {
            op: ValueOp::Id,
            args: seq![source],
            dest,
            op_type: typ,
            funcs: Seq::empty(),
            labels: Seq::empty(),
        },
    )
}

/// An instruction with its operands replaced.
pub open spec fn with_args(instr: InstructionView, new_args: Seq<Name>) -> InstructionView {
    match instr {
        InstructionView::Constant { .. } => instr,
        InstructionView::Value { op, args, dest, op_type, funcs, labels } => InstructionView::Value {
            op,
            args: new_args,
            dest,
            op_type,
            funcs,
            labels,
        },
        InstructionView::Effect { op, args, funcs, labels } => InstructionView::Effect {
            op,
            args: new_args,
            funcs,
            labels,
        },
    }
}

/// An instruction with its operands made canonical, and the table after
/// the lookups.
pub open spec fn canonicalized(table: TableView, instr: InstructionView) -> (
    TableView,
    InstructionView,
) {
    let (t, new_args) = table.canonical_args(CodeView::Instruction(instr).args());
    (t, with_args(instr, new_args))
}

/// The destination and the value expression of a defining instruction,
/// and the table after its operands were numbered.
pub open spec fn classify(table: TableView, instr: InstructionView) -> (
    TableView,
    Option<(Name, ExprView)>,
) {
    match instr {
        InstructionView::Constant { dest, value, .. } => (
            table,
            Some((dest, ExprView::of_literal(value))),
        ),
        InstructionView::Value { op, args, dest, op_type, .. } => {
            let (t, numbers) = table.number_args(args);
            (t, Some((dest, ExprView::Op(op, numbers, op_type))))
        },
        InstructionView::Effect { .. } => (table, None),
    }
}

/// What a defining instruction becomes, once its operands are numbered
/// and its expression is normalized: `table` is the table after the
/// numbering, `instr` the instruction as it stood.
pub open spec fn define(
    table: TableView,
    instr: InstructionView,
    dest: Name,
    value: ExprView,
    options: Options,
) -> (TableView, CodeView) {
    if options.handle_const_folding && folded(table, value).is_some() {
        let literal = Literal::Bool(folded(table, value).unwrap());
        (
            table.with_fresh(dest, ExprView::of_literal(literal)),
            constant_instruction(dest, literal),
        )
    } else if table.by_value.contains_key(value) {
        let (var, n) = table.by_value[value];
        (table.with_alias(dest, n), copy_instruction(dest, var, value.type_of()))
    } else if options.handle_copy_propagate && copied(value).is_some() {
        let n = copied(value).unwrap();
        let code = match table.known_constant(n) {
            Some(literal) => constant_instruction(dest, literal),
            None => copy_instruction(dest, table.canonical[n as int], value.type_of()),
        };
        (table.with_alias(dest, n), code)
    } else {
        let (t, rewritten) = canonicalized(table.with_fresh(dest, value), instr);
        (t, CodeView::Instruction(rewritten))
    }
}

/// One step of the pass: the table after a code item, and the item that
/// takes its place.
pub open spec fn step(table: TableView, code: CodeView, options: Options) -> (TableView, CodeView) {
    match code {
        CodeView::Label { .. } => (table, code),
        CodeView::Instruction(instr) => {
            let (t, classified) = classify(table, instr);
            match classified {
                None => {
                    let (t2, rewritten) = canonicalized(t, instr);
                    (t2, CodeView::Instruction(rewritten))
                },
                Some((dest, value)) => define(t, instr, dest, normalize(value, options), options),
            }
        },
    }
}

/// The pass over a run of code items, from left to right, starting from
/// `table`.
pub open spec fn run(table: TableView, block: Seq<CodeView>, options: Options) -> (
    TableView,
    Seq<CodeView>,
)
    decreases block.len(),
{
    if block.len() == 0 {
        (table, Seq::empty())
    } else {
        let (t, front) = run(table, block.drop_last(), options);
        let (t2, code) = step(t, block.last(), options);
        (t2, front.push(code))
    }
}

/// A basic block after value numbering.
pub open spec fn lvn_block(block: Seq<CodeView>, options: Options) -> Seq<CodeView> {
    run(TableView::empty(), block, options).1
}

/// A list of blocks with each block numbered on its own.
pub open spec fn lvn_blocks(blocks: Seq<Seq<CodeView>>, options: Options) -> Seq<Seq<CodeView>> {
    Seq::new(blocks.len(), |k: int| lvn_block(blocks[k], options))
}

/// A function body after value numbering: split into basic blocks, each
/// block numbered on its own, and the blocks laid end to end again.
pub open spec fn lvn_function(body: Seq<CodeView>, options: Options) -> Seq<CodeView> {
    lvn_blocks(split_blocks(body), options).flatten()
}

} // verus!
