//! What value numbering leaves as it was: the number and kind of the
//! items, the labels, the effect opcodes and the destinations.

use crate::cfg::{
    block_shape, ends_block, is_block_split, is_label, lemma_block_split_unique,
    lemma_split_blocks, split_blocks,
};
use crate::ir::{labels_in, CodeView, EffectOp, InstructionView, Name};
use crate::model::{
    classify, lvn_block, lvn_blocks, lvn_function, normalize, run, step, TableView,
};
use crate::options::Options;
use vstd::prelude::*;

verus! {

/// The opcode of an item that is an effect.
pub open spec fn effect_op(code: CodeView) -> Option<EffectOp> {
    match code {
        CodeView::Instruction(InstructionView::Effect { op, .. }) => Some(op),
        _ => None,
    }
}

/// Whether `after` may stand where `before` stood: a label is itself; an
/// effect keeps its opcode, its functions, its labels and the number of
/// its operands; a definition defines the same variable.
pub open spec fn same_shape(before: CodeView, after: CodeView) -> bool {
    match before {
        CodeView::Label { .. } => after == before,
        CodeView::Instruction(InstructionView::Effect { op, args, funcs, labels }) => {
            &&& after matches CodeView::Instruction(
                InstructionView::Effect { op: op2, args: args2, funcs: funcs2, labels: labels2 },
            )
            &&& op2 == op
            &&& args2.len() == args.len()
            &&& funcs2 == funcs
            &&& labels2 == labels
        },
        _ => after.dest().is_some() && after.dest() == before.dest(),
    }
}

/// Whether two bodies have the same length and, place by place, the same
/// shape.
pub open spec fn same_shapes(before: Seq<CodeView>, after: Seq<CodeView>) -> bool {
    &&& after.len() == before.len()
    &&& forall|i: int| 0 <= i < before.len() ==> same_shape(before[i], #[trigger] after[i])
}

/// How often `x` is defined in `body`.
pub open spec fn definitions_of(body: Seq<CodeView>, x: Name) -> nat
    decreases body.len(),
{
    if body.len() == 0 {
        0
    } else {
        definitions_of(body.drop_last(), x) + if body.last().dest() == Some(x) {
            1nat
        } else {
            0nat
        }
    }
}

/// Making operands canonical keeps their number.
pub proof fn lemma_canonical_args_len(table: TableView, args: Seq<Name>)
    ensures
        table.canonical_args(args).1.len() == args.len(),
    decreases args.len(),
{
    if args.len() > 0 {
        lemma_canonical_args_len(table, args.drop_last());
    }
}

/// One step of the pass keeps the shape of the item.
pub proof fn step_keeps_shape(table: TableView, code: CodeView, options: Options)
    ensures
        same_shape(code, step(table, code, options).1),
{
    match code {
        CodeView::Label { .. } => {},
        CodeView::Instruction(instr) => {
            let (t, classified) = classify(table, instr);
            match classified {
                None => {
                    lemma_canonical_args_len(t, code.args());
                },
                Some((dest, value)) => {
                    let normal = normalize(value, options);
                    lemma_canonical_args_len(t.with_fresh(dest, normal), code.args());
                },
            }
        },
    }
}

/// The pass gives one item for each item.
pub proof fn lemma_run_len(table: TableView, block: Seq<CodeView>, options: Options)
    ensures
        run(table, block, options).1.len() == block.len(),
    decreases block.len(),
{
    if block.len() > 0 {
        lemma_run_len(table, block.drop_last(), options);
    }
}

/// The pass gives one item for each item, and the item at each place is
/// the step taken from the table that the items before it left.
pub proof fn lemma_run_index(table: TableView, block: Seq<CodeView>, options: Options, i: int)
    requires
        0 <= i < block.len(),
    ensures
        run(table, block, options).1.len() == block.len(),
        run(table, block, options).1[i] == step(
            run(table, block.take(i), options).0,
            block[i],
            options,
        ).1,
    decreases block.len(),
{
    let front = block.drop_last();
    lemma_run_len(table, block, options);
    lemma_run_len(table, front, options);
    if i < block.len() - 1 {
        lemma_run_index(table, front, options, i);
        assert(front.take(i) =~= block.take(i));
    } else {
        assert(block.take(i) =~= front);
    }
}

/// The pass keeps the length of a run of items and the shape of each.
pub proof fn run_keeps_shapes(table: TableView, block: Seq<CodeView>, options: Options)
    ensures
        same_shapes(block, run(table, block, options).1),
{
    let out = run(table, block, options).1;
    lemma_run_len(table, block, options);
    assert forall|i: int| 0 <= i < block.len() implies same_shape(block[i], #[trigger] out[i]) by {
        lemma_run_index(table, block, options, i);
        step_keeps_shape(run(table, block.take(i), options).0, block[i], options);
    }
}

/// Bodies of the same shapes have the same labels in the same order.
pub proof fn lemma_same_shapes_labels(before: Seq<CodeView>, after: Seq<CodeView>)
    requires
        same_shapes(before, after),
    ensures
        labels_in(after) == labels_in(before),
    decreases before.len(),
{
    if before.len() > 0 {
        assert(same_shapes(before.drop_last(), after.drop_last())) by {
            assert forall|i: int| 0 <= i < before.len() - 1 implies same_shape(
                before.drop_last()[i],
                #[trigger] after.drop_last()[i],
            ) by {
                assert(same_shape(before[i], after[i]));
            }
        }
        lemma_same_shapes_labels(before.drop_last(), after.drop_last());
        assert(same_shape(before.last(), after[after.len() - 1]));
    }
}

/// Bodies of the same shapes define each variable equally often.
pub proof fn lemma_same_shapes_definitions(before: Seq<CodeView>, after: Seq<CodeView>, x: Name)
    requires
        same_shapes(before, after),
    ensures
        definitions_of(after, x) == definitions_of(before, x),
    decreases before.len(),
{
    if before.len() > 0 {
        assert(same_shapes(before.drop_last(), after.drop_last())) by {
            assert forall|i: int| 0 <= i < before.len() - 1 implies same_shape(
                before.drop_last()[i],
                #[trigger] after.drop_last()[i],
            ) by {
                assert(same_shape(before[i], after[i]));
            }
        }
        lemma_same_shapes_definitions(before.drop_last(), after.drop_last(), x);
        assert(same_shape(before.last(), after[after.len() - 1]));
    }
}

/// Value numbering of a block keeps every label, in the same order.
pub proof fn lvn_block_keeps_labels(block: Seq<CodeView>, options: Options)
    ensures
        labels_in(lvn_block(block, options)) == labels_in(block),
{
    run_keeps_shapes(TableView::empty(), block, options);
    lemma_same_shapes_labels(block, lvn_block(block, options));
}

/// Value numbering of a block keeps the opcode of every effect where it
/// stood; so a block that ended with a terminator ends with the same
/// terminator, and no other item has become one.
pub proof fn lvn_block_keeps_terminators(block: Seq<CodeView>, options: Options)
    ensures
        lvn_block(block, options).len() == block.len(),
        forall|i: int|
            0 <= i < block.len() ==> effect_op(#[trigger] lvn_block(block, options)[i]) == effect_op(
                block[i],
            ),
        forall|i: int|
            0 <= i < block.len() ==> ends_block(#[trigger] lvn_block(block, options)[i])
                == ends_block(block[i]),
        forall|i: int|
            0 <= i < block.len() ==> is_label(#[trigger] lvn_block(block, options)[i]) == is_label(
                block[i],
            ),
{
    let out = lvn_block(block, options);
    run_keeps_shapes(TableView::empty(), block, options);
    assert forall|i: int| 0 <= i < block.len() implies effect_op(#[trigger] out[i]) == effect_op(
        block[i],
    ) && ends_block(out[i]) == ends_block(block[i]) && is_label(out[i]) == is_label(block[i]) by {
        assert(same_shape(block[i], out[i]));
    }
}

/// Value numbering of a block defines, at each place, the variable that
/// was defined there, and so defines each variable as often as before:
/// it brings in no new name.
pub proof fn lvn_block_keeps_definitions(block: Seq<CodeView>, options: Options, x: Name)
    ensures
        lvn_block(block, options).len() == block.len(),
        forall|i: int|
            0 <= i < block.len() ==> (#[trigger] lvn_block(block, options)[i]).dest()
                == block[i].dest(),
        definitions_of(lvn_block(block, options), x) == definitions_of(block, x),
{
    let out = lvn_block(block, options);
    run_keeps_shapes(TableView::empty(), block, options);
    assert forall|i: int| 0 <= i < block.len() implies (#[trigger] out[i]).dest()
        == block[i].dest() by {
        assert(same_shape(block[i], out[i]));
    }
    lemma_same_shapes_definitions(block, out, x);
}

/// Whether two lists of blocks have the same length and, block by block,
/// the same shapes.
pub open spec fn same_block_shapes(before: Seq<Seq<CodeView>>, after: Seq<Seq<CodeView>>) -> bool {
    &&& after.len() == before.len()
    &&& forall|k: int| 0 <= k < before.len() ==> same_shapes(before[k], #[trigger] after[k])
}

/// Blocks of the same shapes, laid end to end, give bodies of the same
/// shapes.
pub proof fn lemma_flatten_same_shapes(before: Seq<Seq<CodeView>>, after: Seq<Seq<CodeView>>)
    requires
        same_block_shapes(before, after),
    ensures
        same_shapes(before.flatten(), after.flatten()),
    decreases before.len(),
{
    if before.len() == 0 {
        assert(before.flatten() =~= Seq::<CodeView>::empty());
        assert(after.flatten() =~= Seq::<CodeView>::empty());
    } else {
        let b0 = before.drop_last();
        let a0 = after.drop_last();
        assert(same_block_shapes(b0, a0)) by {
            assert forall|k: int| 0 <= k < b0.len() implies same_shapes(
                b0[k],
                #[trigger] a0[k],
            ) by {
                assert(same_shapes(before[k], after[k]));
            }
        }
        lemma_flatten_same_shapes(b0, a0);
        assert(b0.push(before.last()) =~= before);
        assert(a0.push(after.last()) =~= after);
        b0.lemma_flatten_push(before.last());
        a0.lemma_flatten_push(after.last());
        assert(same_shapes(before.last(), after[after.len() - 1]));
        let bf = before.flatten();
        let af = after.flatten();
        assert(bf =~= b0.flatten() + before.last());
        assert(af =~= a0.flatten() + after.last());
        assert forall|i: int| 0 <= i < bf.len() implies same_shape(bf[i], #[trigger] af[i]) by {
            if i < b0.flatten().len() {
                assert(same_shape(b0.flatten()[i], a0.flatten()[i]));
            } else {
                let j = i - b0.flatten().len();
                assert(same_shape(before.last()[j], after.last()[j]));
            }
        }
    }
}

/// Value numbering keeps the shapes of every block of a list.
pub proof fn lvn_blocks_keep_shapes(blocks: Seq<Seq<CodeView>>, options: Options)
    ensures
        same_block_shapes(blocks, lvn_blocks(blocks, options)),
{
    let out = lvn_blocks(blocks, options);
    assert forall|k: int| 0 <= k < blocks.len() implies same_shapes(blocks[k], #[trigger] out[k]) by {
        run_keeps_shapes(TableView::empty(), blocks[k], options);
    }
}

/// Value numbering of a function keeps the length of its body and the
/// shape of every item.
pub proof fn lvn_function_keeps_shapes(body: Seq<CodeView>, options: Options)
    ensures
        same_shapes(body, lvn_function(body, options)),
{
    lemma_split_blocks(body);
    lvn_blocks_keep_shapes(split_blocks(body), options);
    lemma_flatten_same_shapes(split_blocks(body), lvn_blocks(split_blocks(body), options));
}

/// Value numbering keeps every label of a function, in the same order.
pub proof fn lvn_function_keeps_labels(body: Seq<CodeView>, options: Options)
    ensures
        labels_in(lvn_function(body, options)) == labels_in(body),
{
    lvn_function_keeps_shapes(body, options);
    lemma_same_shapes_labels(body, lvn_function(body, options));
}

/// Value numbering defines each variable of a function as often as it
/// was defined before.
pub proof fn lvn_function_keeps_definitions(body: Seq<CodeView>, options: Options, x: Name)
    ensures
        definitions_of(lvn_function(body, options), x) == definitions_of(body, x),
{
    lvn_function_keeps_shapes(body, options);
    lemma_same_shapes_definitions(body, lvn_function(body, options), x);
}

/// The basic blocks of a function after value numbering are the numbered
/// basic blocks of the function before: no block is merged or split, and
/// each ends with the effect opcode that it ended with.
pub proof fn lvn_function_keeps_blocks(body: Seq<CodeView>, options: Options)
    ensures
        split_blocks(lvn_function(body, options)) == lvn_blocks(split_blocks(body), options),
        forall|k: int|
            0 <= k < split_blocks(body).len() ==> effect_op(
                (#[trigger] lvn_blocks(split_blocks(body), options)[k]).last(),
            ) == effect_op(split_blocks(body)[k].last()),
{
    let blocks = split_blocks(body);
    let out = lvn_blocks(blocks, options);
    lemma_split_blocks(body);
    lvn_blocks_keep_shapes(blocks, options);
    assert forall|k: int| 0 <= k < out.len() implies block_shape(#[trigger] out[k]) by {
        assert(same_shapes(blocks[k], out[k]));
        assert(block_shape(blocks[k]));
        assert forall|j: int| 0 < j < out[k].len() implies !is_label(#[trigger] out[k][j]) by {
            assert(same_shape(blocks[k][j], out[k][j]));
        }
        assert forall|j: int| 0 <= j < out[k].len() - 1 implies !ends_block(
            #[trigger] out[k][j],
        ) by {
            assert(same_shape(blocks[k][j], out[k][j]));
        }
    }
    assert forall|k: int| 0 <= k < out.len() - 1 implies ends_block((#[trigger] out[k]).last())
        || is_label(out[k + 1][0]) by {
        assert(same_shapes(blocks[k], out[k]));
        assert(same_shapes(blocks[k + 1], out[k + 1]));
        assert(block_shape(blocks[k]));
        assert(block_shape(blocks[k + 1]));
        assert(same_shape(blocks[k].last(), out[k][out[k].len() - 1]));
        assert(same_shape(blocks[k + 1][0], out[k + 1][0]));
        assert(ends_block(blocks[k].last()) || is_label(blocks[k + 1][0]));
    }
    assert(is_block_split(out.flatten(), out));
    lemma_block_split_unique(out.flatten(), out);
    assert forall|k: int| 0 <= k < blocks.len() implies effect_op((#[trigger] out[k]).last())
        == effect_op(blocks[k].last()) by {
        assert(same_shapes(blocks[k], out[k]));
        assert(block_shape(blocks[k]));
        assert(same_shape(blocks[k].last(), out[k][out[k].len() - 1]));
    }
}

} // verus!
