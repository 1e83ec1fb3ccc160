//! Splitting a function body into basic blocks.

use crate::assoc::{
    assoc, has_key, keys_distinct, lemma_assoc_domain, lemma_assoc_index, lemma_assoc_push,
    lemma_assoc_update, lemma_distinct_push,
};
use crate::ir::{codes_of, Code, CodeView, EffectOp, Instruction, InstructionView, Name};
use crate::naming::{block_name, make_block_name};
use vstd::prelude::*;

verus! {

/// A basic block: a run of code items with one entry and one exit.
pub type BasicBlock = Vec<Code>;

/// Whether an instruction ends a basic block: a jump, a branch or a return.
pub open spec fn terminates(instr: InstructionView) -> bool {
    instr matches InstructionView::Effect { op, .. } && (op == EffectOp::Jump || op
        == EffectOp::Branch || op == EffectOp::Return)
}

/// Whether a code item is a label.
pub open spec fn is_label(code: CodeView) -> bool {
    code is Label
}

/// Whether a code item is an instruction that ends a basic block.
pub open spec fn ends_block(code: CodeView) -> bool {
    code matches CodeView::Instruction(instr) && terminates(instr)
}

/// One well-shaped block: not empty, a label only in front, a terminator
/// only at the end.
pub open spec fn block_shape(block: Seq<CodeView>) -> bool {
    &&& block.len() > 0
    &&& forall|j: int| 0 < j < block.len() ==> !is_label(#[trigger] block[j])
    &&& forall|j: int| 0 <= j < block.len() - 1 ==> !ends_block(#[trigger] block[j])
}

/// Whether `blocks` is the partition of `body` into basic blocks: the blocks
/// laid end to end give the body back, each block is well shaped, and no two
/// neighbours could have been one block.
pub open spec fn is_block_split(body: Seq<CodeView>, blocks: Seq<Seq<CodeView>>) -> bool {
    &&& blocks.flatten() == body
    &&& forall|k: int| 0 <= k < blocks.len() ==> block_shape(#[trigger] blocks[k])
    &&& forall|k: int|
        0 <= k < blocks.len() - 1 ==> ends_block((#[trigger] blocks[k]).last()) || is_label(
            blocks[k + 1][0],
        )
}

/// The basic blocks of a body. Its last item opens a block of its own
/// where it is a label, where the item before it ended a block, or where
/// nothing stands before it; else it joins the last block.
pub open spec fn split_blocks(body: Seq<CodeView>) -> Seq<Seq<CodeView>>
    decreases body.len(),
{
    if body.len() == 0 {
        Seq::empty()
    } else {
        let front = split_blocks(body.drop_last());
        let item = body.last();
        if front.len() == 0 || is_label(item) || ends_block(front.last().last()) {
            front.push(seq![item])
        } else {
            front.update(front.len() - 1, front.last().push(item))
        }
    }
}

/// The blocks of a body are its partition into basic blocks.
pub proof fn lemma_split_blocks(body: Seq<CodeView>)
    ensures
        is_block_split(body, split_blocks(body)),
        body.len() > 0 ==> split_blocks(body).len() > 0 && split_blocks(body).last().last()
            == body.last(),
    decreases body.len(),
{
    let blocks = split_blocks(body);
    if body.len() == 0 {
        assert(blocks.flatten() =~= body);
    } else {
        let front_body = body.drop_last();
        let front = split_blocks(front_body);
        let item = body.last();
        lemma_split_blocks(front_body);
        assert(front_body.push(item) =~= body);
        if front.len() == 0 || is_label(item) || ends_block(front.last().last()) {
            front.lemma_flatten_push(seq![item]);
            assert(front.flatten() + seq![item] =~= front_body.push(item));
            assert forall|k: int| 0 <= k < blocks.len() implies block_shape(
                #[trigger] blocks[k],
            ) by {
                if k < front.len() {
                    assert(blocks[k] == front[k]);
                }
            }
            assert forall|k: int| 0 <= k < blocks.len() - 1 implies ends_block(
                (#[trigger] blocks[k]).last(),
            ) || is_label(blocks[k + 1][0]) by {
                assert(blocks[k] == front[k]);
                if k + 1 < front.len() {
                    assert(blocks[k + 1] == front[k + 1]);
                }
            }
        } else {
            let last = front.len() - 1;
            let grown = front.last().push(item);
            assert(front.drop_last().push(front.last()) =~= front);
            assert(blocks =~= front.drop_last().push(grown));
            front.drop_last().lemma_flatten_push(front.last());
            front.drop_last().lemma_flatten_push(grown);
            assert(blocks.flatten() =~= front.flatten() + seq![item]);
            assert(front.flatten() + seq![item] =~= front_body.push(item));
            assert(block_shape(front[last]));
            assert forall|k: int| 0 <= k < blocks.len() implies block_shape(
                #[trigger] blocks[k],
            ) by {
                if k < last {
                    assert(blocks[k] == front[k]);
                } else {
                    assert forall|j: int| 0 <= j < grown.len() - 1 implies !ends_block(
                        #[trigger] grown[j],
                    ) by {
                        if j < front[last].len() - 1 {
                            assert(grown[j] == front[last][j]);
                        }
                    }
                    assert forall|j: int| 0 < j < grown.len() implies !is_label(
                        #[trigger] grown[j],
                    ) by {
                        if j < front[last].len() {
                            assert(grown[j] == front[last][j]);
                        }
                    }
                }
            }
            assert forall|k: int| 0 <= k < blocks.len() - 1 implies ends_block(
                (#[trigger] blocks[k]).last(),
            ) || is_label(blocks[k + 1][0]) by {
                assert(blocks[k] == front[k]);
                if k + 1 < last {
                    assert(blocks[k + 1] == front[k + 1]);
                } else {
                    assert(blocks[k + 1][0] == front[k + 1][0]);
                }
            }
        }
    }
}

/// A body has one partition into basic blocks only.
pub proof fn lemma_block_split_unique(body: Seq<CodeView>, blocks: Seq<Seq<CodeView>>)
    requires
        is_block_split(body, blocks),
    ensures
        blocks == split_blocks(body),
    decreases body.len(),
{
    if blocks.len() == 0 {
        assert(blocks.flatten() =~= Seq::<CodeView>::empty());
        assert(blocks =~= split_blocks(body));
    } else {
        let last_block = blocks.last();
        let init = blocks.drop_last();
        assert(block_shape(last_block));
        assert(init.push(last_block) =~= blocks);
        init.lemma_flatten_push(last_block);
        assert(body =~= init.flatten() + last_block);
        let item = body.last();
        assert(item == last_block.last());
        let front_body = body.drop_last();
        assert(front_body =~= init.flatten() + last_block.drop_last());
        assert forall|k: int| 0 <= k < init.len() implies block_shape(#[trigger] init[k]) by {
            assert(init[k] == blocks[k]);
        }
        if last_block.len() == 1 {
            assert(last_block.drop_last() =~= Seq::<CodeView>::empty());
            assert(front_body =~= init.flatten());
            assert forall|k: int| 0 <= k < init.len() - 1 implies ends_block(
                (#[trigger] init[k]).last(),
            ) || is_label(init[k + 1][0]) by {
                assert(init[k] == blocks[k]);
                assert(init[k + 1] == blocks[k + 1]);
            }
            lemma_block_split_unique(front_body, init);
            if init.len() > 0 {
                let k = blocks.len() - 2;
                assert(blocks[k] == init.last());
                assert(ends_block(blocks[k].last()) || is_label(blocks[k + 1][0]));
            }
            assert(last_block =~= seq![item]);
        } else {
            let shorter = last_block.drop_last();
            let blocks2 = init.push(shorter);
            init.lemma_flatten_push(shorter);
            assert(blocks2.flatten() =~= front_body);
            assert(block_shape(shorter)) by {
                assert forall|j: int| 0 < j < shorter.len() implies !is_label(
                    #[trigger] shorter[j],
                ) by {
                    assert(shorter[j] == last_block[j]);
                }
                assert forall|j: int| 0 <= j < shorter.len() - 1 implies !ends_block(
                    #[trigger] shorter[j],
                ) by {
                    assert(shorter[j] == last_block[j]);
                }
            }
            assert forall|k: int| 0 <= k < blocks2.len() implies block_shape(
                #[trigger] blocks2[k],
            ) by {
                if k < init.len() {
                    assert(blocks2[k] == init[k]);
                }
            }
            assert forall|k: int| 0 <= k < blocks2.len() - 1 implies ends_block(
                (#[trigger] blocks2[k]).last(),
            ) || is_label(blocks2[k + 1][0]) by {
                assert(blocks2[k] == blocks[k]);
                assert(blocks2[k + 1][0] == blocks[k + 1][0]);
            }
            lemma_block_split_unique(front_body, blocks2);
            assert(blocks2.last() == shorter);
            assert(shorter.last() == last_block[last_block.len() - 2]);
            assert(!ends_block(last_block[last_block.len() - 2]));
            assert(!is_label(last_block[last_block.len() - 1]));
            assert(shorter.push(item) =~= last_block);
            assert(blocks2.update(blocks2.len() - 1, shorter.push(item)) =~= blocks);
        }
    }
}

/// The blocks closed so far together with the block that is still open.
pub open spec fn with_open_block(closed: Seq<Seq<CodeView>>, open: Seq<CodeView>) -> Seq<
    Seq<CodeView>,
> {
    if open.len() > 0 {
        closed.push(open)
    } else {
        closed
    }
}

/// The views of a list of blocks.
pub open spec fn blocks_of(v: Seq<BasicBlock>) -> Seq<Seq<CodeView>> {
    Seq::new(v.len(), |k: int| codes_of(v[k]@))
}

/// Whether `instr` ends a basic block.
pub fn is_terminator(instr: &Instruction) -> (b: bool)
    ensures
        b == terminates(instr@),
{
    match instr {
        Instruction::Effect { op, .. } => match op {
            EffectOp::Jump | EffectOp::Branch | EffectOp::Return => true,
            _ => false,
        },
        _ => false,
    }
}

/// Forms the basic blocks of a function body. A label opens a block, a
/// terminator closes one, and nothing is dropped or reordered.
pub fn instructions_to_blocks(instructions: &[Code]) -> (blocks: Vec<BasicBlock>)
    ensures
        blocks_of(blocks@) == split_blocks(codes_of(instructions@)),
        is_block_split(codes_of(instructions@), blocks_of(blocks@)),
{
    let mut blocks: Vec<BasicBlock> = Vec::new();
    let mut current: BasicBlock = Vec::new();
    let ghost body = codes_of(instructions@);
    let mut i: usize = 0;
    proof {
        assert(blocks_of(blocks@) =~= Seq::<Seq<CodeView>>::empty());
        assert(body.take(0) =~= Seq::<CodeView>::empty());
        assert(codes_of(current@).len() == 0);
    }
    while i < instructions.len()
        invariant
            i <= instructions.len(),
            body == codes_of(instructions@),
            current@.len() > 0 ==> !ends_block(codes_of(current@).last()),
            current@.len() == 0 && blocks@.len() > 0 ==> ends_block(
                blocks_of(blocks@).last().last(),
            ),
            with_open_block(blocks_of(blocks@), codes_of(current@)) == split_blocks(
                body.take(i as int),
            ),
        decreases instructions.len() - i,
    {
        let code = &instructions[i];
        let ghost old_blocks = blocks_of(blocks@);
        let ghost old_current = codes_of(current@);
        proof {
            assert(body.take(i + 1).drop_last() =~= body.take(i as int));
            assert(body.take(i + 1).last() == code@);
            if old_current.len() > 0 {
                assert(old_blocks.push(old_current).last() == old_current);
            }
        }
        match code {
            Code::Instruction(instr) => {
                current.push(code.duplicate());
                proof {
                    assert(codes_of(current@) =~= old_current.push(code@));
                    if old_current.len() > 0 {
                        assert(old_blocks.push(old_current).update(
                            old_blocks.len() as int,
                            old_current.push(code@),
                        ) =~= old_blocks.push(old_current.push(code@)));
                    } else {
                        assert(old_current.push(code@) =~= seq![code@]);
                    }
                    assert(old_blocks.push(old_current.push(code@)) == split_blocks(
                        body.take(i + 1),
                    ));
                }
                if is_terminator(instr) {
                    blocks.push(current);
                    current = Vec::new();
                    proof {
                        assert(blocks_of(blocks@) =~= old_blocks.push(old_current.push(code@)));
                        assert(codes_of(current@).len() == 0);
                    }
                }
            },
            Code::Label { .. } => {
                if current.len() > 0 {
                    blocks.push(current);
                    proof {
                        assert(blocks_of(blocks@) =~= old_blocks.push(old_current));
                    }
                }
                current = Vec::new();
                current.push(code.duplicate());
                proof {
                    assert(codes_of(current@) =~= seq![code@]);
                }
            },
        }
        i = i + 1;
    }
    proof {
        assert(body.take(instructions.len() as int) =~= body);
    }
    if current.len() > 0 {
        let ghost old_blocks = blocks_of(blocks@);
        let ghost last = codes_of(current@);
        blocks.push(current);
        proof {
            assert(blocks_of(blocks@) =~= old_blocks.push(last));
        }
    }
    proof {
        lemma_split_blocks(body);
    }
    blocks
}

/// How many blocks of the list do not start with a label.
pub open spec fn unlabelled(blocks: Seq<Seq<CodeView>>) -> nat
    decreases blocks.len(),
{
    if blocks.len() == 0 {
        0
    } else {
        unlabelled(blocks.drop_last()) + if is_label(blocks.last()[0]) {
            0nat
        } else {
            1nat
        }
    }
}

/// The blocks of a list by name. A block that starts with a label goes
/// by that label and without it; the others go by made-up names, numbered
/// from one in their order. Of two blocks with one name the later counts.
pub open spec fn blocks_by_name(blocks: Seq<Seq<CodeView>>) -> Map<Name, Seq<CodeView>>
    decreases blocks.len(),
{
    if blocks.len() == 0 {
        Map::empty()
    } else {
        let front = blocks_by_name(blocks.drop_last());
        let block = blocks.last();
        match block[0] {
            CodeView::Label { label } => front.insert(label, block.skip(1)),
            _ => front.insert(block_name(unlabelled(blocks.drop_last()) + 1), block),
        }
    }
}

/// Named blocks as the model sees them.
pub open spec fn named_entries(v: Seq<(String, BasicBlock)>) -> Seq<(Name, Seq<CodeView>)> {
    Seq::new(v.len(), |k: int| (v[k].0@, codes_of(v[k].1@)))
}

/// A copy of the items of `block` from place `start` on.
fn copy_from(block: &BasicBlock, start: usize) -> (r: BasicBlock)
    requires
        start <= block.len(),
    ensures
        codes_of(r@) == codes_of(block@).skip(start as int),
{
    let mut r: BasicBlock = Vec::new();
    let mut i: usize = start;
    let ghost body = codes_of(block@);
    proof {
        assert(codes_of(r@) =~= body.subrange(start as int, i as int));
    }
    while i < block.len()
        invariant
            start <= i <= block.len(),
            body == codes_of(block@),
            codes_of(r@) == body.subrange(start as int, i as int),
        decreases block.len() - i,
    {
        let ghost before = codes_of(r@);
        r.push(block[i].duplicate());
        proof {
            assert(codes_of(r@) =~= before.push(body[i as int]));
            assert(body.subrange(start as int, i + 1) =~= before.push(body[i as int]));
        }
        i = i + 1;
    }
    proof {
        assert(body.subrange(start as int, block.len() as int) =~= body.skip(start as int));
    }
    r
}

/// The place of the name `x` among the named blocks, if it is there.
fn find_name(entries: &Vec<(String, BasicBlock)>, x: &String) -> (r: Option<usize>)
    ensures
        match r {
            Some(i) => i < entries.len() && named_entries(entries@)[i as int].0 == x@,
            None => !has_key(named_entries(entries@), x@),
        },
{
    let mut i: usize = 0;
    while i < entries.len()
        invariant
            i <= entries.len(),
            forall|j: int| 0 <= j < i ==> (#[trigger] named_entries(entries@)[j]).0 != x@,
        decreases entries.len() - i,
    {
        if entries[i].0 == *x {
            return Some(i);
        }
        i = i + 1;
    }
    None
}

/// Enters `block` under `name`, in place of a block of that name if
/// there is one.
fn put_block(entries: &mut Vec<(String, BasicBlock)>, name: String, block: BasicBlock)
    requires
        keys_distinct(named_entries(old(entries)@)),
    ensures
        keys_distinct(named_entries(final(entries)@)),
        assoc(named_entries(final(entries)@)) == assoc(named_entries(old(entries)@)).insert(
            name@,
            codes_of(block@),
        ),
{
    let ghost before = named_entries(entries@);
    let ghost body = codes_of(block@);
    match find_name(entries, &name) {
        Some(i) => {
            entries.set(i, (name, block));
            proof {
                lemma_assoc_update(before, i as int, body);
                assert(named_entries(entries@) =~= before.update(
                    i as int,
                    (before[i as int].0, body),
                ));
            }
        },
        None => {
            entries.push((name, block));
            proof {
                lemma_assoc_push(before, name@, body);
                lemma_distinct_push(before, name@, body);
                assert(named_entries(entries@) =~= before.push((name@, body)));
            }
        },
    }
}

/// Given a sequence of basic blocks, forms the map from names to blocks,
/// as a list of named blocks in which no name occurs twice.
pub fn map_blocks_by_name(blocks: Vec<BasicBlock>) -> (named: Vec<(String, BasicBlock)>)
    requires
        forall|k: int| 0 <= k < blocks@.len() ==> (#[trigger] blocks@[k])@.len() > 0,
    ensures
        keys_distinct(named_entries(named@)),
        assoc(named_entries(named@)) == blocks_by_name(blocks_of(blocks@)),
{
    let mut named: Vec<(String, BasicBlock)> = Vec::new();
    let mut i: u128 = 1;
    let mut k: usize = 0;
    let ghost all = blocks_of(blocks@);
    proof {
        assert(all.take(0) =~= Seq::<Seq<CodeView>>::empty());
        assert(named_entries(named@) =~= Seq::<(Name, Seq<CodeView>)>::empty());
    }
    while k < blocks.len()
        invariant
            k <= blocks.len(),
            all == blocks_of(blocks@),
            forall|j: int| 0 <= j < blocks@.len() ==> (#[trigger] blocks@[j])@.len() > 0,
            i == unlabelled(all.take(k as int)) + 1,
            i <= k + 1,
            keys_distinct(named_entries(named@)),
            assoc(named_entries(named@)) == blocks_by_name(all.take(k as int)),
        decreases blocks.len() - k,
    {
        let block = &blocks[k];
        proof {
            assert(all.take(k + 1).drop_last() =~= all.take(k as int));
            assert(all.take(k + 1).last() == codes_of(block@));
            assert(blocks@[k as int]@.len() > 0);
            assert(codes_of(block@)[0] == block@[0]@);
        }
        match &block[0] {
            Code::Label { label } => {
                put_block(&mut named, label.clone(), copy_from(block, 1));
            },
            _ => {
                put_block(&mut named, make_block_name(i), copy_from(block, 0));
                proof {
                    assert(codes_of(block@).skip(0) =~= codes_of(block@));
                }
                i = i + 1;
            },
        }
        k = k + 1;
    }
    proof {
        assert(all.take(blocks.len() as int) =~= all);
    }
    named
}

/// The block that goes by `name`, if there is one.
pub fn get_block<'a>(named: &'a Vec<(String, BasicBlock)>, name: &String) -> (r: Option<
    &'a BasicBlock,
>)
    requires
        keys_distinct(named_entries(named@)),
    ensures
        match r {
            Some(block) => assoc(named_entries(named@)).contains_key(name@) && assoc(
                named_entries(named@),
            )[name@] == codes_of(block@),
            None => !assoc(named_entries(named@)).contains_key(name@),
        },
{
    proof {
        lemma_assoc_domain(named_entries(named@), name@);
    }
    match find_name(named, name) {
        Some(i) => {
            proof {
                lemma_assoc_index(named_entries(named@), i as int);
            }
            Some(&named[i].1)
        },
        None => None,
    }
}

} // verus!
