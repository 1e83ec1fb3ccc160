//! Blocks that value numbering leaves as they are.

use crate::ir::{CodeView, InstructionView, Name};
use crate::cfg::{lemma_split_blocks, split_blocks};
use crate::model::{
    classify, copied, folded, lvn_block, lvn_blocks, lvn_function, normalize, run, step,
    TableView,
};
use crate::options::Options;
use vstd::prelude::*;

verus! {

/// Whether every variable with a number is the canonical variable of its
/// number.
pub open spec fn self_canonical(table: TableView) -> bool {
    forall|x: Name| #[trigger]
        table.by_var.contains_key(x) ==> table.by_var[x] < table.next_number()
            && table.canonical[table.by_var[x] as int] == x
}

/// Whether the pass, at this item and with this table, finds nothing to
/// rewrite: the item is a label or an effect, or it defines a value that
/// the table does not fold, does not hold yet and does not pass on as a
/// copy.
pub open spec fn finds_nothing_at(table: TableView, code: CodeView, options: Options) -> bool {
    match code {
        CodeView::Label { .. } => true,
        CodeView::Instruction(instr) => {
            let (t, classified) = classify(table, instr);
            match classified {
                None => true,
                Some((dest, value)) => {
                    let normal = normalize(value, options);
                    &&& !(options.handle_const_folding && folded(t, normal).is_some())
                    &&& !t.by_value.contains_key(normal)
                    &&& !(options.handle_copy_propagate && copied(normal).is_some())
                },
            }
        },
    }
}

/// Whether the pass finds nothing to rewrite in the whole block.
pub open spec fn finds_nothing(block: Seq<CodeView>, options: Options) -> bool {
    forall|i: int|
        0 <= i < block.len() ==> finds_nothing_at(
            run(TableView::empty(), block.take(i), options).0,
            #[trigger] block[i],
            options,
        )
}

/// Looking a variable up in a table where each variable is canonical
/// gives such a table, and the variable is the canonical one of its
/// number.
pub proof fn lemma_number_of_self(table: TableView, x: Name)
    requires
        self_canonical(table),
    ensures
        self_canonical(table.number_of(x).0),
        table.canonical_of(x).1 == x,
{
    let (t, n) = table.number_of(x);
    if !table.by_var.contains_key(x) {
        assert forall|y: Name| #[trigger] t.by_var.contains_key(y) implies t.by_var[y]
            < t.next_number() && t.canonical[t.by_var[y] as int] == y by {
            if y != x {
                assert(table.by_var.contains_key(y));
            }
        }
    }
}

/// Numbering variables keeps each variable canonical.
pub proof fn lemma_number_args_self(table: TableView, args: Seq<Name>)
    requires
        self_canonical(table),
    ensures
        self_canonical(table.number_args(args).0),
    decreases args.len(),
{
    if args.len() > 0 {
        lemma_number_args_self(table, args.drop_last());
        lemma_number_of_self(table.number_args(args.drop_last()).0, args.last());
    }
}

/// Where each variable is canonical, making operands canonical changes
/// none of them.
pub proof fn lemma_canonical_args_self(table: TableView, args: Seq<Name>)
    requires
        self_canonical(table),
    ensures
        self_canonical(table.canonical_args(args).0),
        table.canonical_args(args).1 == args,
    decreases args.len(),
{
    if args.len() > 0 {
        let front = args.drop_last();
        lemma_canonical_args_self(table, front);
        lemma_number_of_self(table.canonical_args(front).0, args.last());
        assert(front.push(args.last()) =~= args);
    } else {
        assert(table.canonical_args(args).1 =~= args);
    }
}

/// A step that finds nothing to rewrite leaves the item as it is and
/// keeps each variable canonical.
pub proof fn lemma_step_fixed(table: TableView, code: CodeView, options: Options)
    requires
        self_canonical(table),
        finds_nothing_at(table, code, options),
    ensures
        step(table, code, options).1 == code,
        self_canonical(step(table, code, options).0),
{
    match code {
        CodeView::Label { .. } => {},
        CodeView::Instruction(instr) => {
            let (t, classified) = classify(table, instr);
            match instr {
                InstructionView::Value { args, .. } => {
                    lemma_number_args_self(table, args);
                },
                _ => {},
            }
            match classified {
                None => {
                    lemma_canonical_args_self(t, code.args());
                },
                Some((dest, value)) => {
                    let normal = normalize(value, options);
                    let fresh = t.with_fresh(dest, normal);
                    assert(self_canonical(fresh)) by {
                        assert forall|y: Name| #[trigger] fresh.by_var.contains_key(y) implies fresh.by_var[y]
                            < fresh.next_number() && fresh.canonical[fresh.by_var[y] as int] == y by {
                            if y != dest {
                                assert(t.by_var.contains_key(y));
                            }
                        }
                    }
                    lemma_canonical_args_self(fresh, code.args());
                },
            }
        },
    }
}

/// A block in which the pass finds nothing to rewrite comes out as it
/// went in.
pub proof fn lemma_run_fixed(block: Seq<CodeView>, options: Options)
    requires
        finds_nothing(block, options),
    ensures
        run(TableView::empty(), block, options).1 == block,
        self_canonical(run(TableView::empty(), block, options).0),
    decreases block.len(),
{
    if block.len() > 0 {
        let front = block.drop_last();
        assert(finds_nothing(front, options)) by {
            assert forall|i: int| 0 <= i < front.len() implies finds_nothing_at(
                run(TableView::empty(), front.take(i), options).0,
                #[trigger] front[i],
                options,
            ) by {
                assert(front.take(i) =~= block.take(i));
                assert(front[i] == block[i]);
            }
        }
        lemma_run_fixed(front, options);
        let last = block.len() - 1;
        assert(block.take(last) =~= front);
        assert(finds_nothing_at(
            run(TableView::empty(), block.take(last), options).0,
            block[last],
            options,
        ));
        lemma_step_fixed(run(TableView::empty(), front, options).0, block.last(), options);
        assert(front.push(block.last()) =~= block);
    } else {
        assert(run(TableView::empty(), block, options).1 =~= block);
    }
}

/// Value numbering is at its fixed point on every block in which it
/// finds nothing to fold, to reuse or to pass on: the block comes out as
/// it went in, and so does a second run with the same options.
pub proof fn lvn_block_fixed_point(block: Seq<CodeView>, options: Options)
    requires
        finds_nothing(block, options),
    ensures
        lvn_block(block, options) == block,
        lvn_block(lvn_block(block, options), options) == lvn_block(block, options),
{
    lemma_run_fixed(block, options);
}

/// Value numbering is at its fixed point on every function in whose
/// blocks it finds nothing to rewrite.
pub proof fn lvn_function_fixed_point(body: Seq<CodeView>, options: Options)
    requires
        forall|k: int|
            0 <= k < split_blocks(body).len() ==> finds_nothing(
                #[trigger] split_blocks(body)[k],
                options,
            ),
    ensures
        lvn_function(body, options) == body,
        lvn_function(lvn_function(body, options), options) == lvn_function(body, options),
{
    let blocks = split_blocks(body);
    assert(lvn_blocks(blocks, options) =~= blocks) by {
        assert forall|k: int| 0 <= k < blocks.len() implies lvn_blocks(blocks, options)[k]
            == blocks[k] by {
            lvn_block_fixed_point(blocks[k], options);
        }
    }
    lemma_split_blocks(body);
}

} // verus!
