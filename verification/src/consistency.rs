//! The table stays consistent: every step of the pass takes a consistent
//! table to a consistent table.

use crate::expr::ExprView;
use crate::ir::{CodeView, InstructionView, Literal, Name};
use crate::model::{
    classify, copied, define, folded, lemma_with_alias_wf, lemma_with_external_wf,
    lemma_with_fresh_wf, normalize, numbers_below, run, step, TableView,
};
use crate::options::Options;
use vstd::prelude::*;

verus! {

/// Looking a variable up keeps the table consistent, never takes a
/// number back, and gives a number in use.
pub proof fn lemma_number_of(table: TableView, x: Name)
    requires
        table.wf(),
    ensures
        table.number_of(x).0.wf(),
        table.next_number() <= table.number_of(x).0.next_number(),
        table.number_of(x).1 < table.number_of(x).0.next_number(),
        table.number_of(x).0.by_var.contains_key(x),
        table.number_of(x).0.by_var[x] == table.number_of(x).1,
{
    if !table.by_var.contains_key(x) {
        lemma_with_external_wf(table, x);
    }
}

/// Numbering a list of variables keeps the table consistent and gives
/// as many numbers as there are variables, all of them in use.
pub proof fn lemma_number_args(table: TableView, args: Seq<Name>)
    requires
        table.wf(),
    ensures
        table.number_args(args).0.wf(),
        table.next_number() <= table.number_args(args).0.next_number(),
        table.number_args(args).1.len() == args.len(),
        forall|k: int|
            0 <= k < args.len() ==> #[trigger] table.number_args(args).1[k] < table.number_args(
                args,
            ).0.next_number(),
    decreases args.len(),
{
    if args.len() > 0 {
        lemma_number_args(table, args.drop_last());
        let (t, front) = table.number_args(args.drop_last());
        lemma_number_of(t, args.last());
    }
}

/// Making a list of variables canonical keeps the table consistent and
/// gives as many variables as before.
pub proof fn lemma_canonical_args(table: TableView, args: Seq<Name>)
    requires
        table.wf(),
    ensures
        table.canonical_args(args).0.wf(),
        table.next_number() <= table.canonical_args(args).0.next_number(),
        table.canonical_args(args).1.len() == args.len(),
    decreases args.len(),
{
    if args.len() > 0 {
        lemma_canonical_args(table, args.drop_last());
        let (t, front) = table.canonical_args(args.drop_last());
        lemma_number_of(t, args.last());
    }
}

/// Classifying an instruction keeps the table consistent, and the
/// operand numbers that it gives are in use.
pub proof fn lemma_classify(table: TableView, instr: InstructionView)
    requires
        table.wf(),
    ensures
        classify(table, instr).0.wf(),
        table.next_number() <= classify(table, instr).0.next_number(),
        classify(table, instr).1.is_some() ==> numbers_below(
            classify(table, instr).1.unwrap().1,
            classify(table, instr).0.next_number(),
        ),
{
    match instr {
        InstructionView::Value { args, .. } => {
            lemma_number_args(table, args);
        },
        _ => {},
    }
}

/// Rewriting a definition keeps the table consistent.
pub proof fn lemma_define(
    table: TableView,
    instr: InstructionView,
    dest: Name,
    value: ExprView,
    options: Options,
)
    requires
        table.wf(),
        copied(value).is_some() ==> copied(value).unwrap() < table.next_number(),
    ensures
        define(table, instr, dest, value, options).0.wf(),
        table.next_number() <= define(table, instr, dest, value, options).0.next_number(),
{
    lemma_with_fresh_wf(table, dest, value);
    lemma_canonical_args(table.with_fresh(dest, value), CodeView::Instruction(instr).args());
    if table.by_value.contains_key(value) {
        lemma_with_alias_wf(table, dest, table.by_value[value].1);
    }
    if copied(value).is_some() {
        lemma_with_alias_wf(table, dest, copied(value).unwrap());
    }
    if options.handle_const_folding {
        lemma_with_fresh_wf(
            table,
            dest,
            ExprView::of_literal(Literal::Bool(folded(table, value).unwrap())),
        );
    }
}

/// After each code item the indices of the table are consistent again.
pub proof fn step_keeps_consistency(table: TableView, code: CodeView, options: Options)
    requires
        table.wf(),
    ensures
        step(table, code, options).0.wf(),
        table.next_number() <= step(table, code, options).0.next_number(),
{
    match code {
        CodeView::Label { .. } => {},
        CodeView::Instruction(instr) => {
            lemma_classify(table, instr);
            let (t, classified) = classify(table, instr);
            match classified {
                None => {
                    lemma_canonical_args(t, code.args());
                },
                Some((dest, value)) => {
                    let normal = normalize(value, options);
                    if copied(normal).is_some() {
                        assert(normal == value);
                    }
                    lemma_define(t, instr, dest, normal, options);
                },
            }
        },
    }
}

/// The pass over any run of code items, started on a consistent table,
/// ends on a consistent table and gives one item for each item.
pub proof fn run_keeps_consistency(table: TableView, block: Seq<CodeView>, options: Options)
    requires
        table.wf(),
    ensures
        run(table, block, options).0.wf(),
        run(table, block, options).1.len() == block.len(),
        table.next_number() <= run(table, block, options).0.next_number(),
    decreases block.len(),
{
    if block.len() > 0 {
        run_keeps_consistency(table, block.drop_last(), options);
        step_keeps_consistency(run(table, block.drop_last(), options).0, block.last(), options);
    }
}

/// The table at the start of a block is consistent.
pub proof fn empty_table_is_consistent()
    ensures
        TableView::empty().wf(),
{
}

} // verus!
