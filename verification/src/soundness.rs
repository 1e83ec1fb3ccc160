//! Value numbering keeps the meaning of a block in which no instruction
//! assigns the canonical variable of a value number.

use crate::consistency::lemma_number_of;
use crate::expr::ExprView;
use crate::ir::{CodeView, InstructionView, Literal, Name, ValueOp};
use crate::model::{
    classify, copied, define, folded, is_commutative, lemma_with_alias_wf, lemma_with_fresh_wf,
    lvn_block, lvn_blocks, normalize, numbers_below, run, step, TableView,
};
use crate::options::Options;
use crate::order::{ascending, lemma_ascending};
use crate::semantics::{values_of, Interp, State};
use vstd::prelude::*;
use vstd::seq_lib::{to_multiset_build, to_multiset_contains, to_multiset_len, to_multiset_remove};

verus! {

/// The value that a number stands for: the value of its canonical
/// variable.
pub open spec fn number_value<V>(table: TableView, env: Map<Name, V>, n: nat) -> V {
    env[table.canonical[n as int]]
}

/// The values that a list of numbers stands for.
pub open spec fn number_values<V>(table: TableView, env: Map<Name, V>, numbers: Seq<nat>) -> Seq<V> {
    Seq::new(numbers.len(), |i: int| number_value(table, env, numbers[i]))
}

/// The value of an expression over numbers.
pub open spec fn meaning<V>(interp: Interp<V>, table: TableView, env: Map<Name, V>, value: ExprView) -> V {
    match value {
        ExprView::Constant(literal, _) => interp.lit(literal),
        ExprView::Op(op, args, typ) => interp.apply(op, number_values(table, env, args), typ),
    }
}

/// Whether the table tells the truth about `env`: each variable holds
/// the value of its number, and each number with a stored expression
/// stands for the value of that expression.
pub open spec fn agrees<V>(table: TableView, interp: Interp<V>, env: Map<Name, V>) -> bool {
    &&& table.wf()
    &&& forall|x: Name| #[trigger]
        table.by_var.contains_key(x) ==> env[x] == number_value(table, env, table.by_var[x])
    &&& forall|n: nat| #[trigger]
        table.values.contains_key(n) ==> number_value(table, env, n) == meaning(
            interp,
            table,
            env,
            table.values[n],
        ) && numbers_below(table.values[n], table.next_number())
}

/// Whether `after` is `before` with more variables registered: stored
/// expressions and numbers given are kept.
pub open spec fn grown(before: TableView, after: TableView) -> bool {
    &&& before.next_number() <= after.next_number()
    &&& forall|n: int|
        0 <= n < before.canonical.len() ==> #[trigger] after.canonical[n] == before.canonical[n]
    &&& after.values == before.values
    &&& after.by_value == before.by_value
    &&& forall|y: Name| #[trigger]
        before.by_var.contains_key(y) ==> after.by_var.contains_key(y) && after.by_var[y]
            == before.by_var[y]
}

/// An expression whose operand numbers are in use means the same in a
/// grown table.
pub proof fn lemma_grown_meaning<V>(
    interp: Interp<V>,
    before: TableView,
    after: TableView,
    env: Map<Name, V>,
    value: ExprView,
)
    requires
        grown(before, after),
        numbers_below(value, before.next_number()),
    ensures
        meaning(interp, after, env, value) == meaning(interp, before, env, value),
{
    match value {
        ExprView::Op(op, args, typ) => {
            assert(number_values(after, env, args) =~= number_values(before, env, args)) by {
                assert forall|i: int| 0 <= i < args.len() implies number_value(
                    after,
                    env,
                    args[i],
                ) == number_value(before, env, args[i]) by {
                    assert(args[i] < before.next_number());
                    assert(after.canonical[args[i] as int] == before.canonical[args[i] as int]);
                }
            }
        },
        _ => {},
    }
}

/// A grown table agrees with what the table before it agreed with,
/// where the new variables stand for themselves.
pub proof fn lemma_grown_agrees<V>(
    interp: Interp<V>,
    before: TableView,
    after: TableView,
    env: Map<Name, V>,
)
    requires
        agrees(before, interp, env),
        grown(before, after),
        after.wf(),
        forall|y: Name| #[trigger]
            after.by_var.contains_key(y) && !before.by_var.contains_key(y) ==> env[y]
                == number_value(after, env, after.by_var[y]),
    ensures
        agrees(after, interp, env),
{
    assert forall|x: Name| #[trigger] after.by_var.contains_key(x) implies env[x] == number_value(
        after,
        env,
        after.by_var[x],
    ) by {
        if before.by_var.contains_key(x) {
            assert(before.by_var[x] < before.next_number());
            assert(after.canonical[before.by_var[x] as int]
                == before.canonical[before.by_var[x] as int]);
        }
    }
    assert forall|n: nat| #[trigger] after.values.contains_key(n) implies number_value(
        after,
        env,
        n,
    ) == meaning(interp, after, env, after.values[n]) && numbers_below(
        after.values[n],
        after.next_number(),
    ) by {
        assert(before.values.contains_key(n));
        assert(n < before.next_number());
        assert(after.canonical[n as int] == before.canonical[n as int]);
        lemma_grown_meaning(interp, before, after, env, before.values[n]);
        lemma_below_more(before.values[n], before.next_number(), after.next_number());
    }
}

/// Operand numbers below a bound are below every larger bound.
pub proof fn lemma_below_more(value: ExprView, bound: nat, larger: nat)
    requires
        numbers_below(value, bound),
        bound <= larger,
    ensures
        numbers_below(value, larger),
{
    match value {
        ExprView::Op(_, args, _) => {
            assert forall|k: int| 0 <= k < args.len() implies #[trigger] args[k] < larger by {
                assert(args[k] < bound);
            }
        },
        _ => {},
    }
}

/// Growth composes.
pub proof fn lemma_grown_trans(a: TableView, b: TableView, c: TableView)
    requires
        grown(a, b),
        grown(b, c),
    ensures
        grown(a, c),
{
    assert forall|n: int| 0 <= n < a.canonical.len() implies #[trigger] c.canonical[n]
        == a.canonical[n] by {
        assert(b.canonical[n] == a.canonical[n]);
    }
    assert forall|y: Name| #[trigger] a.by_var.contains_key(y) implies c.by_var.contains_key(y)
        && c.by_var[y] == a.by_var[y] by {
        assert(b.by_var.contains_key(y));
    }
}

/// Looking a variable up keeps the agreement; the number found stands
/// for the value of the variable.
pub proof fn lemma_number_of_agrees<V>(
    interp: Interp<V>,
    table: TableView,
    env: Map<Name, V>,
    x: Name,
)
    requires
        agrees(table, interp, env),
    ensures
        agrees(table.number_of(x).0, interp, env),
        grown(table, table.number_of(x).0),
        table.number_of(x).0.by_var.contains_key(x),
        table.number_of(x).0.by_var[x] == table.number_of(x).1,
        table.number_of(x).1 < table.number_of(x).0.next_number(),
        number_value(table.number_of(x).0, env, table.number_of(x).1) == env[x],
{
    let (after, n) = table.number_of(x);
    lemma_number_of(table, x);
    if !table.by_var.contains_key(x) {
        assert(after.canonical[n as int] == x);
        assert(grown(table, after));
        lemma_grown_agrees(interp, table, after, env);
    }
}

/// Numbering a list of variables keeps the agreement; the numbers found
/// stand for the values of the variables.
pub proof fn lemma_number_args_agrees<V>(
    interp: Interp<V>,
    table: TableView,
    env: Map<Name, V>,
    args: Seq<Name>,
)
    requires
        agrees(table, interp, env),
    ensures
        agrees(table.number_args(args).0, interp, env),
        grown(table, table.number_args(args).0),
        table.number_args(args).1.len() == args.len(),
        forall|i: int|
            0 <= i < args.len() ==> table.number_args(args).0.by_var.contains_key(
                #[trigger] args[i],
            ),
        forall|i: int|
            0 <= i < args.len() ==> #[trigger] table.number_args(args).1[i] < table.number_args(
                args,
            ).0.next_number(),
        number_values(table.number_args(args).0, env, table.number_args(args).1) == values_of(
            env,
            args,
        ),
    decreases args.len(),
{
    let (after, numbers) = table.number_args(args);
    if args.len() == 0 {
        assert(number_values(after, env, numbers) =~= values_of(env, args));
    } else {
        let front = args.drop_last();
        let (mid, front_numbers) = table.number_args(front);
        lemma_number_args_agrees(interp, table, env, front);
        lemma_number_of_agrees(interp, mid, env, args.last());
        lemma_grown_trans(table, mid, after);
        assert forall|i: int| 0 <= i < args.len() implies after.by_var.contains_key(
            #[trigger] args[i],
        ) by {
            if i < front.len() {
                assert(mid.by_var.contains_key(front[i]));
            }
        }
        assert forall|i: int| 0 <= i < args.len() implies #[trigger] numbers[i]
            < after.next_number() by {
            if i < front.len() {
                assert(front_numbers[i] < mid.next_number());
            }
        }
        assert(number_values(after, env, numbers) =~= values_of(env, args)) by {
            assert forall|i: int| 0 <= i < args.len() implies number_value(after, env, numbers[i])
                == env[args[i]] by {
                if i < front.len() {
                    assert(front_numbers[i] < mid.next_number());
                    assert(after.canonical[front_numbers[i] as int]
                        == mid.canonical[front_numbers[i] as int]);
                    assert(number_values(mid, env, front_numbers)[i] == values_of(env, front)[i]);
                }
            }
        }
    }
}

/// Making a list of variables canonical keeps the agreement; each
/// canonical variable holds the value of the variable that it replaces.
pub proof fn lemma_canonical_args_agrees<V>(
    interp: Interp<V>,
    table: TableView,
    env: Map<Name, V>,
    args: Seq<Name>,
)
    requires
        agrees(table, interp, env),
    ensures
        agrees(table.canonical_args(args).0, interp, env),
        grown(table, table.canonical_args(args).0),
        table.canonical_args(args).1.len() == args.len(),
        values_of(env, table.canonical_args(args).1) == values_of(env, args),
    decreases args.len(),
{
    let (after, renamed) = table.canonical_args(args);
    if args.len() == 0 {
        assert(values_of(env, renamed) =~= values_of(env, args));
    } else {
        let front = args.drop_last();
        let (mid, front_renamed) = table.canonical_args(front);
        lemma_canonical_args_agrees(interp, table, env, front);
        lemma_number_of_agrees(interp, mid, env, args.last());
        lemma_grown_trans(table, mid, after);
        assert(values_of(env, renamed) =~= values_of(env, args)) by {
            assert forall|i: int| 0 <= i < args.len() implies env[renamed[i]] == env[args[i]] by {
                if i < front.len() {
                    assert(values_of(env, front_renamed)[i] == values_of(env, front)[i]);
                }
            }
        }
    }
}

/// Where every variable of a list has a number, making the list
/// canonical registers nothing.
pub proof fn lemma_canonical_args_registered(table: TableView, args: Seq<Name>)
    requires
        forall|i: int| 0 <= i < args.len() ==> table.by_var.contains_key(#[trigger] args[i]),
    ensures
        table.canonical_args(args).0 == table,
        table.canonical_args(args).1 == Seq::new(
            args.len(),
            |i: int| table.canonical[table.by_var[args[i]] as int],
        ),
    decreases args.len(),
{
    if args.len() > 0 {
        let front = args.drop_last();
        assert forall|i: int| 0 <= i < front.len() implies table.by_var.contains_key(
            #[trigger] front[i],
        ) by {
            assert(front[i] == args[i]);
        }
        lemma_canonical_args_registered(table, front);
        assert(table.by_var.contains_key(args[args.len() - 1]));
    }
    assert(table.canonical_args(args).1 =~= Seq::new(
        args.len(),
        |i: int| table.canonical[table.by_var[args[i]] as int],
    ));
}

/// Assigning a variable that is the canonical variable of no number
/// keeps the value of every number in use, and the meaning of every
/// expression over such numbers.
pub proof fn lemma_frame<V>(interp: Interp<V>, table: TableView, env: Map<Name, V>, d: Name, v: V)
    requires
        !table.canonical.contains(d),
    ensures
        forall|n: nat|
            n < table.next_number() ==> #[trigger] number_value(table, env.insert(d, v), n)
                == number_value(table, env, n),
        forall|value: ExprView|
            numbers_below(value, table.next_number()) ==> #[trigger] meaning(
                interp,
                table,
                env.insert(d, v),
                value,
            ) == meaning(interp, table, env, value),
{
    let env2 = env.insert(d, v);
    assert forall|n: nat| n < table.next_number() implies #[trigger] number_value(table, env2, n)
        == number_value(table, env, n) by {
        assert(table.canonical.contains(table.canonical[n as int]));
    }
    assert forall|value: ExprView| numbers_below(value, table.next_number()) implies #[trigger] meaning(
        interp,
        table,
        env2,
        value,
    ) == meaning(interp, table, env, value) by {
        match value {
            ExprView::Op(op, args, typ) => {
                assert(number_values(table, env2, args) =~= number_values(table, env, args)) by {
                    assert forall|i: int| 0 <= i < args.len() implies number_value(
                        table,
                        env2,
                        args[i],
                    ) == number_value(table, env, args[i]) by {
                        assert(args[i] < table.next_number());
                    }
                }
            },
            _ => {},
        }
    }
}

/// Numbers in another order stand for the same values in another order.
pub proof fn lemma_permuted_values<V>(table: TableView, env: Map<Name, V>, a: Seq<nat>, b: Seq<nat>)
    requires
        a.to_multiset() == b.to_multiset(),
    ensures
        number_values(table, env, a).to_multiset() == number_values(table, env, b).to_multiset(),
    decreases a.len(),
{
    broadcast use vstd::multiset::group_multiset_axioms;

    let va = number_values(table, env, a);
    let vb = number_values(table, env, b);
    to_multiset_len(a);
    to_multiset_len(b);
    if a.len() == 0 {
        assert(va =~= vb);
    } else {
        let x = a.last();
        let a0 = a.drop_last();
        assert(a0.push(x) =~= a);
        to_multiset_build(a0, x);
        assert(b.to_multiset().count(x) > 0);
        to_multiset_contains(b, x);
        let j = choose|j: int| 0 <= j < b.len() && b[j] == x;
        let b0 = b.remove(j);
        to_multiset_remove(b, j);
        assert(a0.to_multiset() =~= b0.to_multiset());
        lemma_permuted_values(table, env, a0, b0);
        let fx = number_value(table, env, x);
        assert(va =~= number_values(table, env, a0).push(fx));
        to_multiset_build(number_values(table, env, a0), fx);
        assert(vb.remove(j) =~= number_values(table, env, b0));
        to_multiset_remove(vb, j);
        assert(vb[j] == fx);
        to_multiset_contains(vb, fx);
        assert(vb.contains(fx));
        assert(va.to_multiset() =~= vb.to_multiset());
    }
}

/// Putting the operands of a commutative operator in order keeps the
/// meaning of the expression.
pub proof fn lemma_normalize_meaning<V>(
    interp: Interp<V>,
    table: TableView,
    env: Map<Name, V>,
    value: ExprView,
    options: Options,
)
    requires
        interp.lawful(options),
    ensures
        meaning(interp, table, env, normalize(value, options)) == meaning(interp, table, env, value),
{
    match value {
        ExprView::Op(op, args, typ) => {
            if options.handle_commutativity && is_commutative(op) {
                lemma_ascending(args);
                lemma_permuted_values(table, env, ascending(args), args);
            }
        },
        _ => {},
    }
}

/// Ordering the operands keeps every operand number in use.
pub proof fn lemma_normalize_below(value: ExprView, options: Options, bound: nat)
    requires
        numbers_below(value, bound),
    ensures
        numbers_below(normalize(value, options), bound),
{
    match value {
        ExprView::Op(op, args, typ) => {
            if options.handle_commutativity && is_commutative(op) {
                lemma_ascending(args);
                let sorted = ascending(args);
                assert forall|k: int| 0 <= k < sorted.len() implies #[trigger] sorted[k] < bound by {
                    to_multiset_contains(sorted, sorted[k]);
                    to_multiset_contains(args, sorted[k]);
                    assert(sorted.contains(sorted[k]));
                    let j = choose|j: int| 0 <= j < args.len() && args[j] == sorted[k];
                    assert(args[j] < bound);
                }
            }
        },
        _ => {},
    }
}

/// Where the table folds an expression to a truth value, the expression
/// means that truth value.
pub proof fn lemma_folded_meaning<V>(
    interp: Interp<V>,
    table: TableView,
    env: Map<Name, V>,
    value: ExprView,
    options: Options,
)
    requires
        interp.lawful(options),
        options.handle_const_folding,
        agrees(table, interp, env),
        folded(table, value).is_some(),
    ensures
        meaning(interp, table, env, value) == interp.lit(Literal::Bool(folded(table, value).unwrap())),
{
    match value {
        ExprView::Op(op, args, typ) => {
            let values = number_values(table, env, args);
            assert forall|i: int, b: bool|
                0 <= i < args.len() && table.known_bool(args[i]) == Some(b) implies values[i]
                == interp.lit(Literal::Bool(b)) by {
                assert(table.values.contains_key(args[i]));
                assert(meaning(interp, table, env, table.values[args[i]]) == interp.lit(
                    Literal::Bool(b),
                ));
            }
            if op == ValueOp::And || op == ValueOp::Or {
                assert(args.len() == 2);
                let a = table.known_bool(args[0]);
                let b = table.known_bool(args[1]);
                if a.is_some() {
                    assert(values[0] == interp.lit(Literal::Bool(a.unwrap())));
                }
                if b.is_some() {
                    assert(values[1] == interp.lit(Literal::Bool(b.unwrap())));
                }
            } else {
                assert(op == ValueOp::Not);
                assert(args.len() == 1);
                let a = table.known_bool(args[0]);
                assert(values[0] == interp.lit(Literal::Bool(a.unwrap())));
            }
        },
        _ => {},
    }
}

/// A fresh number for an expression, with the variable just assigned as
/// its canonical variable, agrees with the state after the assignment.
pub proof fn lemma_fresh_agrees<V>(
    interp: Interp<V>,
    table: TableView,
    env: Map<Name, V>,
    d: Name,
    value: ExprView,
    v: V,
)
    requires
        agrees(table, interp, env),
        !table.canonical.contains(d),
        numbers_below(value, table.next_number()),
        meaning(interp, table, env, value) == v,
    ensures
        agrees(table.with_fresh(d, value), interp, env.insert(d, v)),
{
    let after = table.with_fresh(d, value);
    let env2 = env.insert(d, v);
    let n = table.next_number();
    lemma_with_fresh_wf(table, d, value);
    lemma_frame(interp, table, env, d, v);
    assert forall|e: ExprView| numbers_below(e, n) implies #[trigger] meaning(interp, after, env2, e)
        == meaning(interp, table, env, e) by {
        assert(meaning(interp, table, env2, e) == meaning(interp, table, env, e));
        match e {
            ExprView::Op(op, args, typ) => {
                assert(number_values(after, env2, args) =~= number_values(table, env2, args)) by {
                    assert forall|i: int| 0 <= i < args.len() implies number_value(
                        after,
                        env2,
                        args[i],
                    ) == number_value(table, env2, args[i]) by {
                        assert(args[i] < n);
                    }
                }
            },
            _ => {},
        }
    }
    assert forall|x: Name| #[trigger] after.by_var.contains_key(x) implies env2[x] == number_value(
        after,
        env2,
        after.by_var[x],
    ) by {
        if x != d {
            assert(table.by_var.contains_key(x));
            assert(table.by_var[x] < n);
            assert(number_value(table, env2, table.by_var[x]) == number_value(
                table,
                env,
                table.by_var[x],
            ));
        }
    }
    assert forall|m: nat| #[trigger] after.values.contains_key(m) implies number_value(
        after,
        env2,
        m,
    ) == meaning(interp, after, env2, after.values[m]) && numbers_below(
        after.values[m],
        after.next_number(),
    ) by {
        if m != n {
            assert(table.values.contains_key(m));
            assert(m < n);
            assert(number_value(table, env2, m) == number_value(table, env, m));
            assert(numbers_below(table.values[m], n));
            assert(meaning(interp, after, env2, table.values[m]) == meaning(
                interp,
                table,
                env,
                table.values[m],
            ));
        } else {
            assert(meaning(interp, after, env2, value) == meaning(interp, table, env, value));
        }
        lemma_below_more(after.values[m], n, after.next_number());
    }
}

/// Another name for a number, given to the variable just assigned the
/// value of that number, agrees with the state after the assignment.
pub proof fn lemma_alias_agrees<V>(
    interp: Interp<V>,
    table: TableView,
    env: Map<Name, V>,
    d: Name,
    n: nat,
    v: V,
)
    requires
        agrees(table, interp, env),
        !table.canonical.contains(d),
        n < table.next_number(),
        number_value(table, env, n) == v,
    ensures
        agrees(table.with_alias(d, n), interp, env.insert(d, v)),
{
    let after = table.with_alias(d, n);
    let env2 = env.insert(d, v);
    lemma_with_alias_wf(table, d, n);
    lemma_frame(interp, table, env, d, v);
    assert forall|e: ExprView| #[trigger]
        meaning(interp, after, env2, e) == meaning(interp, table, env2, e) by {
        match e {
            ExprView::Op(op, args, typ) => {
                assert(number_values(after, env2, args) =~= number_values(table, env2, args));
            },
            _ => {},
        }
    }
    assert forall|x: Name| #[trigger] after.by_var.contains_key(x) implies env2[x] == number_value(
        after,
        env2,
        after.by_var[x],
    ) by {
        if x != d {
            assert(table.by_var.contains_key(x));
            assert(table.by_var[x] < table.next_number());
            assert(number_value(table, env2, table.by_var[x]) == number_value(
                table,
                env,
                table.by_var[x],
            ));
        } else {
            assert(number_value(table, env2, n) == number_value(table, env, n));
        }
    }
    assert forall|m: nat| #[trigger] after.values.contains_key(m) implies number_value(
        after,
        env2,
        m,
    ) == meaning(interp, after, env2, after.values[m]) && numbers_below(
        after.values[m],
        after.next_number(),
    ) by {
        assert(table.values.contains_key(m));
        assert(m < table.next_number());
        assert(number_value(table, env2, m) == number_value(table, env, m));
        assert(numbers_below(table.values[m], table.next_number()));
        assert(meaning(interp, after, env2, table.values[m]) == meaning(
            interp,
            table,
            env2,
            table.values[m],
        ));
    }
}

/// The state after `state` in which `d` holds `v`.
pub open spec fn assigned<V>(state: State<V>, d: Name, v: V) -> State<V> {
    State { env: state.env.insert(d, v), trace: state.trace }
}

/// Rewriting a definition keeps what it does: the instruction left in
/// place assigns the same value, and the table agrees with the state
/// after it.
pub proof fn lemma_define_sound<V>(
    interp: Interp<V>,
    table: TableView,
    state: State<V>,
    instr: InstructionView,
    dest: Name,
    value: ExprView,
    options: Options,
    v: V,
)
    requires
        interp.lawful(options),
        agrees(table, interp, state.env),
        !table.canonical.contains(dest),
        numbers_below(value, table.next_number()),
        meaning(interp, table, state.env, value) == v,
        CodeView::Instruction(instr).dest() == Some(dest),
        interp.exec_item(state, CodeView::Instruction(instr)) == assigned(state, dest, v),
        forall|i: int|
            0 <= i < CodeView::Instruction(instr).args().len() ==> table.by_var.contains_key(
                #[trigger] CodeView::Instruction(instr).args()[i],
            ),
    ensures
        interp.exec_item(state, define(table, instr, dest, value, options).1) == assigned(
            state,
            dest,
            v,
        ),
        agrees(define(table, instr, dest, value, options).0, interp, state.env.insert(dest, v)),
{
    let env = state.env;
    let args = CodeView::Instruction(instr).args();
    if options.handle_const_folding && folded(table, value).is_some() {
        let literal = Literal::Bool(folded(table, value).unwrap());
        lemma_folded_meaning(interp, table, env, value, options);
        lemma_fresh_agrees(interp, table, env, dest, ExprView::of_literal(literal), v);
    } else if table.by_value.contains_key(value) {
        let (var, n) = table.by_value[value];
        assert(table.values.contains_key(n));
        assert(number_value(table, env, n) == v);
        assert(values_of(env, seq![var]) =~= seq![env[var]]);
        lemma_alias_agrees(interp, table, env, dest, n, v);
    } else if options.handle_copy_propagate && copied(value).is_some() {
        let n = copied(value).unwrap();
        match value {
            ExprView::Op(op, nums, typ) => {
                assert(nums[0] == n);
                assert(n < table.next_number());
                assert(number_values(table, env, nums) =~= seq![number_value(table, env, n)]);
                assert(number_value(table, env, n) == v);
                match table.known_constant(n) {
                    Some(literal) => {
                        assert(meaning(interp, table, env, table.values[n]) == interp.lit(literal));
                    },
                    None => {
                        assert(values_of(env, seq![table.canonical[n as int]]) =~= seq![
                            env[table.canonical[n as int]],
                        ]);
                    },
                }
                lemma_alias_agrees(interp, table, env, dest, n, v);
            },
            _ => {},
        }
    } else {
        let fresh = table.with_fresh(dest, value);
        lemma_fresh_agrees(interp, table, env, dest, value, v);
        assert forall|i: int| 0 <= i < args.len() implies fresh.by_var.contains_key(
            #[trigger] args[i],
        ) by {
            assert(table.by_var.contains_key(args[i]));
        }
        lemma_canonical_args_registered(fresh, args);
        let renamed = fresh.canonical_args(args).1;
        assert(values_of(env, renamed) =~= values_of(env, args)) by {
            assert forall|i: int| 0 <= i < args.len() implies env[renamed[i]] == env[args[i]] by {
                if args[i] != dest {
                    assert(table.by_var.contains_key(args[i]));
                    assert(table.by_var[args[i]] < table.next_number());
                    assert(env[args[i]] == number_value(table, env, table.by_var[args[i]]));
                }
            }
        }
    }
}

/// Whether the item, met with this table, assigns no canonical variable:
/// once its operands are numbered, the variable that it defines is the
/// canonical variable of no number.
pub open spec fn keeps_canonical_at(table: TableView, code: CodeView) -> bool {
    match code {
        CodeView::Instruction(instr) => match code.dest() {
            Some(dest) => !classify(table, instr).0.canonical.contains(dest),
            None => true,
        },
        _ => true,
    }
}

/// Whether no item of the block assigns a variable that is, when the
/// pass comes to the item, the canonical variable of a number.
pub open spec fn keeps_canonical(block: Seq<CodeView>, options: Options) -> bool {
    forall|i: int|
        0 <= i < block.len() ==> keeps_canonical_at(
            run(TableView::empty(), block.take(i), options).0,
            #[trigger] block[i],
        )
}

/// One step of the pass keeps what the item does, and leaves a table
/// that agrees with the state after it.
pub proof fn lemma_step_sound<V>(
    interp: Interp<V>,
    table: TableView,
    state: State<V>,
    code: CodeView,
    options: Options,
)
    requires
        interp.lawful(options),
        agrees(table, interp, state.env),
        keeps_canonical_at(table, code),
    ensures
        interp.exec_item(state, step(table, code, options).1) == interp.exec_item(state, code),
        agrees(step(table, code, options).0, interp, interp.exec_item(state, code).env),
{
    let env = state.env;
    match code {
        CodeView::Label { .. } => {},
        CodeView::Instruction(instr) => {
            match instr {
                InstructionView::Effect { op, args, funcs, labels } => {
                    lemma_canonical_args_agrees(interp, table, env, args);
                },
                InstructionView::Constant { dest, value, .. } => {
                    let raw = ExprView::of_literal(value);
                    assert(normalize(raw, options) == raw);
                    assert(code.args() =~= Seq::<Name>::empty());
                    lemma_define_sound(
                        interp,
                        table,
                        state,
                        instr,
                        dest,
                        raw,
                        options,
                        interp.lit(value),
                    );
                },
                InstructionView::Value { op, args, dest, op_type, .. } => {
                    let (t, numbers) = table.number_args(args);
                    lemma_number_args_agrees(interp, table, env, args);
                    let raw = ExprView::Op(op, numbers, op_type);
                    let normal = normalize(raw, options);
                    let v = interp.apply(op, values_of(env, args), op_type);
                    assert(numbers_below(raw, t.next_number()));
                    lemma_normalize_meaning(interp, t, env, raw, options);
                    lemma_normalize_below(raw, options, t.next_number());
                    lemma_define_sound(interp, t, state, instr, dest, normal, options, v);
                },
            }
        },
    }
}

/// The pass keeps what a run of items does, from any state.
pub proof fn lemma_run_sound<V>(
    interp: Interp<V>,
    block: Seq<CodeView>,
    options: Options,
    state: State<V>,
)
    requires
        interp.lawful(options),
        keeps_canonical(block, options),
    ensures
        interp.exec_items(state, run(TableView::empty(), block, options).1) == interp.exec_items(
            state,
            block,
        ),
        agrees(
            run(TableView::empty(), block, options).0,
            interp,
            interp.exec_items(state, block).env,
        ),
    decreases block.len(),
{
    if block.len() > 0 {
        let front = block.drop_last();
        let item = block.last();
        let last = block.len() - 1;
        assert(keeps_canonical(front, options)) by {
            assert forall|i: int| 0 <= i < front.len() implies keeps_canonical_at(
                run(TableView::empty(), front.take(i), options).0,
                #[trigger] front[i],
            ) by {
                assert(front.take(i) =~= block.take(i));
                assert(front[i] == block[i]);
            }
        }
        lemma_run_sound(interp, front, options, state);
        let (t, out) = run(TableView::empty(), front, options);
        let mid = interp.exec_items(state, front);
        assert(block.take(last) =~= front);
        assert(keeps_canonical_at(
            run(TableView::empty(), block.take(last), options).0,
            block[last],
        ));
        lemma_step_sound(interp, t, mid, item, options);
        let (t2, item2) = step(t, item, options);
        assert(out.push(item2).drop_last() =~= out);
    }
}

/// Value numbering keeps the meaning of a block: from every state, the
/// numbered block leaves every variable with the value that the block
/// leaves it with, and shows the same effects with the same operand
/// values in the same order. This holds for every meaning of the
/// operators that justifies the rewrites switched on, and for every
/// block in which no instruction assigns the canonical variable of a
/// number.
pub proof fn lvn_block_preserves_meaning<V>(
    interp: Interp<V>,
    block: Seq<CodeView>,
    options: Options,
    state: State<V>,
)
    requires
        interp.lawful(options),
        keeps_canonical(block, options),
    ensures
        interp.exec_items(state, lvn_block(block, options)) == interp.exec_items(state, block),
{
    lemma_run_sound(interp, block, options, state);
}

/// The state after the blocks of `blocks` were executed in the order
/// that `path` gives: each place of `path` names a block, which is
/// executed from its first item to its last.
pub open spec fn exec_path<V>(
    interp: Interp<V>,
    state: State<V>,
    blocks: Seq<Seq<CodeView>>,
    path: Seq<int>,
) -> State<V>
    decreases path.len(),
{
    if path.len() == 0 {
        state
    } else {
        interp.exec_items(exec_path(interp, state, blocks, path.drop_last()), blocks[path.last()])
    }
}

/// Value numbering keeps the meaning of a function along every path:
/// whatever the order in which control passes through the blocks, the
/// numbered blocks leave the state that the blocks leave. This holds for
/// every meaning of the operators that justifies the rewrites switched
/// on, where no block assigns the canonical variable of a number.
pub proof fn lvn_blocks_preserve_meaning<V>(
    interp: Interp<V>,
    blocks: Seq<Seq<CodeView>>,
    options: Options,
    state: State<V>,
    path: Seq<int>,
)
    requires
        interp.lawful(options),
        forall|k: int| 0 <= k < blocks.len() ==> keeps_canonical(#[trigger] blocks[k], options),
        forall|i: int| 0 <= i < path.len() ==> 0 <= #[trigger] path[i] < blocks.len(),
    ensures
        exec_path(interp, state, lvn_blocks(blocks, options), path) == exec_path(
            interp,
            state,
            blocks,
            path,
        ),
    decreases path.len(),
{
    if path.len() > 0 {
        let front = path.drop_last();
        assert forall|i: int| 0 <= i < front.len() implies 0 <= #[trigger] front[i]
            < blocks.len() by {
            assert(front[i] == path[i]);
        }
        lvn_blocks_preserve_meaning(interp, blocks, options, state, front);
        let k = path[path.len() - 1];
        assert(keeps_canonical(blocks[k], options));
        lvn_block_preserves_meaning(
            interp,
            blocks[k],
            options,
            exec_path(interp, state, blocks, front),
        );
    }
}

} // verus!
