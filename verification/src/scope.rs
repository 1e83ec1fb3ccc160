//! The variables that the table holds are variables of the block; so a
//! block that assigns no variable twice, and none after reading it,
//! never assigns a canonical variable.

use crate::expr::ExprView;
use crate::ir::{CodeView, InstructionView, Literal, Name};
use crate::model::{
    classify, define, folded, lvn_block, lvn_blocks, normalize, run, step, TableView,
};
use crate::options::Options;
use crate::semantics::{assigns_once, fresh_at, mentions, Interp, State};
use crate::soundness::{
    exec_path, keeps_canonical, keeps_canonical_at, lvn_block_preserves_meaning,
    lvn_blocks_preserve_meaning,
};
use vstd::prelude::*;

verus! {

/// Whether the table holds `x`, as a variable with a number or as the
/// canonical variable of one.
pub open spec fn known(table: TableView, x: Name) -> bool {
    table.by_var.contains_key(x) || table.canonical.contains(x)
}

/// A variable registered from outside is the one variable that the
/// table holds more.
pub proof fn lemma_external_names(table: TableView, x: Name)
    ensures
        forall|y: Name| #[trigger] known(table.with_external(x), y) ==> known(table, y) || y == x,
{
    let after = table.with_external(x);
    assert forall|y: Name| #[trigger] known(after, y) implies known(table, y) || y == x by {
        if y != x && after.canonical.contains(y) {
            let k = choose|k: int| 0 <= k < after.canonical.len() && after.canonical[k] == y;
            assert(table.canonical[k] == y);
        }
    }
}

/// A variable given a fresh number is the one variable that the table
/// holds more.
pub proof fn lemma_fresh_names(table: TableView, d: Name, value: ExprView)
    ensures
        forall|y: Name| #[trigger]
            known(table.with_fresh(d, value), y) ==> known(table, y) || y == d,
{
    let after = table.with_fresh(d, value);
    assert forall|y: Name| #[trigger] known(after, y) implies known(table, y) || y == d by {
        if y != d && after.canonical.contains(y) {
            let k = choose|k: int| 0 <= k < after.canonical.len() && after.canonical[k] == y;
            assert(table.canonical[k] == y);
        }
    }
}

/// Looking `x` up makes the table hold no variable but `x` more.
pub proof fn lemma_number_of_names(table: TableView, x: Name)
    ensures
        forall|y: Name| #[trigger] known(table.number_of(x).0, y) ==> known(table, y) || y == x,
{
    lemma_external_names(table, x);
}

/// Numbering variables makes the table hold none but these more.
pub proof fn lemma_number_args_names(table: TableView, args: Seq<Name>)
    ensures
        forall|y: Name| #[trigger]
            known(table.number_args(args).0, y) ==> known(table, y) || args.contains(y),
    decreases args.len(),
{
    if args.len() > 0 {
        let front = args.drop_last();
        let mid = table.number_args(front).0;
        lemma_number_args_names(table, front);
        lemma_number_of_names(mid, args.last());
        assert forall|y: Name| #[trigger] known(table.number_args(args).0, y) implies known(
            table,
            y,
        ) || args.contains(y) by {
            if known(mid, y) {
                if front.contains(y) {
                    let k = choose|k: int| 0 <= k < front.len() && front[k] == y;
                    assert(args[k] == y);
                }
            } else {
                assert(args[args.len() - 1] == y);
            }
        }
    }
}

/// Making variables canonical makes the table hold none but these more.
pub proof fn lemma_canonical_args_names(table: TableView, args: Seq<Name>)
    ensures
        forall|y: Name| #[trigger]
            known(table.canonical_args(args).0, y) ==> known(table, y) || args.contains(y),
    decreases args.len(),
{
    if args.len() > 0 {
        let front = args.drop_last();
        let mid = table.canonical_args(front).0;
        lemma_canonical_args_names(table, front);
        lemma_number_of_names(mid, args.last());
        assert forall|y: Name| #[trigger] known(table.canonical_args(args).0, y) implies known(
            table,
            y,
        ) || args.contains(y) by {
            if known(mid, y) {
                if front.contains(y) {
                    let k = choose|k: int| 0 <= k < front.len() && front[k] == y;
                    assert(args[k] == y);
                }
            } else {
                assert(args[args.len() - 1] == y);
            }
        }
    }
}

/// Classifying an instruction makes the table hold no variables but its
/// operands more.
pub proof fn lemma_classify_names(table: TableView, instr: InstructionView)
    ensures
        forall|y: Name| #[trigger]
            known(classify(table, instr).0, y) ==> known(table, y) || CodeView::Instruction(
                instr,
            ).args().contains(y),
{
    match instr {
        InstructionView::Value { args, .. } => {
            lemma_number_args_names(table, args);
        },
        _ => {},
    }
}

/// Rewriting a definition makes the table hold no variables but the
/// operands and the destination more.
pub proof fn lemma_define_names(
    table: TableView,
    instr: InstructionView,
    dest: Name,
    value: ExprView,
    options: Options,
)
    ensures
        forall|y: Name| #[trigger]
            known(define(table, instr, dest, value, options).0, y) ==> known(table, y) || y == dest
                || CodeView::Instruction(instr).args().contains(y),
{
    let args = CodeView::Instruction(instr).args();
    lemma_fresh_names(table, dest, value);
    lemma_canonical_args_names(table.with_fresh(dest, value), args);
    if options.handle_const_folding && folded(table, value).is_some() {
        lemma_fresh_names(
            table,
            dest,
            ExprView::of_literal(Literal::Bool(folded(table, value).unwrap())),
        );
    }
    assert forall|y: Name| #[trigger]
        known(define(table, instr, dest, value, options).0, y) implies known(table, y) || y == dest
        || args.contains(y) by {
        assert(known(table.with_fresh(dest, value), y) ==> known(table, y) || y == dest);
    }
}

/// A step makes the table hold no variables but those of the item more.
pub proof fn lemma_step_names(table: TableView, code: CodeView, options: Options)
    ensures
        forall|y: Name| #[trigger]
            known(step(table, code, options).0, y) ==> known(table, y) || code.args().contains(y)
                || code.dest() == Some(y),
{
    match code {
        CodeView::Label { .. } => {},
        CodeView::Instruction(instr) => {
            lemma_classify_names(table, instr);
            let (t, classified) = classify(table, instr);
            match classified {
                None => {
                    lemma_canonical_args_names(t, code.args());
                    assert forall|y: Name| #[trigger]
                        known(step(table, code, options).0, y) implies known(table, y)
                        || code.args().contains(y) || code.dest() == Some(y) by {
                        assert(known(t, y) ==> known(table, y) || code.args().contains(y));
                    }
                },
                Some((dest, value)) => {
                    lemma_define_names(t, instr, dest, normalize(value, options), options);
                    assert forall|y: Name| #[trigger]
                        known(step(table, code, options).0, y) implies known(table, y)
                        || code.args().contains(y) || code.dest() == Some(y) by {
                        assert(known(t, y) ==> known(table, y) || code.args().contains(y));
                    }
                },
            }
        },
    }
}

/// Every variable that the table holds after a run of items is read or
/// defined by one of them.
pub proof fn lemma_run_names(block: Seq<CodeView>, options: Options)
    ensures
        forall|y: Name| #[trigger]
            known(run(TableView::empty(), block, options).0, y) ==> mentions(block, y),
    decreases block.len(),
{
    let after = run(TableView::empty(), block, options).0;
    if block.len() == 0 {
        assert forall|y: Name| #[trigger] known(after, y) implies mentions(block, y) by {
            assert(!after.canonical.contains(y));
        }
    } else {
        let front = block.drop_last();
        let last = block.len() - 1;
        let t = run(TableView::empty(), front, options).0;
        lemma_run_names(front, options);
        lemma_step_names(t, block.last(), options);
        assert forall|y: Name| #[trigger] known(after, y) implies mentions(block, y) by {
            if known(t, y) {
                let j = choose|j: int|
                    0 <= j < front.len() && ((#[trigger] front[j]).args().contains(y)
                        || front[j].dest() == Some(y));
                assert(block[j] == front[j]);
            } else {
                assert(block[last].args().contains(y) || block[last].dest() == Some(y));
            }
        }
    }
}

/// A block that assigns no variable after it was read or assigned never
/// assigns a canonical variable.
pub proof fn assigns_once_keeps_canonical(block: Seq<CodeView>, options: Options)
    requires
        assigns_once(block),
    ensures
        keeps_canonical(block, options),
{
    assert forall|i: int| 0 <= i < block.len() implies keeps_canonical_at(
        run(TableView::empty(), block.take(i), options).0,
        #[trigger] block[i],
    ) by {
        let t = run(TableView::empty(), block.take(i), options).0;
        assert(fresh_at(block, i));
        lemma_run_names(block.take(i), options);
        match block[i] {
            CodeView::Instruction(instr) => {
                lemma_classify_names(t, instr);
                if block[i].dest().is_some() {
                    let d = block[i].dest().unwrap();
                    assert(!known(classify(t, instr).0, d));
                }
            },
            _ => {},
        }
    }
}

/// Value numbering keeps the meaning of every block that assigns no
/// variable after it was read or assigned, for every meaning of the
/// operators that justifies the rewrites switched on.
pub proof fn single_assignment_block_keeps_meaning<V>(
    interp: Interp<V>,
    block: Seq<CodeView>,
    options: Options,
    state: State<V>,
)
    requires
        interp.lawful(options),
        assigns_once(block),
    ensures
        interp.exec_items(state, lvn_block(block, options)) == interp.exec_items(state, block),
{
    assigns_once_keeps_canonical(block, options);
    lvn_block_preserves_meaning(interp, block, options, state);
}

/// Value numbering keeps the meaning of a function along every path
/// through its blocks, where no block assigns a variable after it was
/// read or assigned in that block.
pub proof fn single_assignment_blocks_keep_meaning<V>(
    interp: Interp<V>,
    blocks: Seq<Seq<CodeView>>,
    options: Options,
    state: State<V>,
    path: Seq<int>,
)
    requires
        interp.lawful(options),
        forall|k: int| 0 <= k < blocks.len() ==> assigns_once(#[trigger] blocks[k]),
        forall|i: int| 0 <= i < path.len() ==> 0 <= #[trigger] path[i] < blocks.len(),
    ensures
        exec_path(interp, state, lvn_blocks(blocks, options), path) == exec_path(
            interp,
            state,
            blocks,
            path,
        ),
{
    assert forall|k: int| 0 <= k < blocks.len() implies keeps_canonical(
        #[trigger] blocks[k],
        options,
    ) by {
        assigns_once_keeps_canonical(blocks[k], options);
    }
    lvn_blocks_preserve_meaning(interp, blocks, options, state, path);
}

} // verus!
