//! Local value numbering: the pass over one basic block and over a whole
//! function.

use crate::cfg::{blocks_of, instructions_to_blocks, BasicBlock};
use crate::expr::{numbers_of, ExprView, ValueExpr};
use crate::ir::{
    clone_names, codes_of, names_of, Code, CodeView, Function, Instruction, Literal, Name,
    Program, Type, ValueOp,
};
use crate::model::{
    canonicalized, classify, constant_instruction, copied, copy_instruction, define, folded,
    lvn_block, lvn_blocks, lvn_function, normalize, numbers_below, run, step, TableView,
};
use crate::options::Options;
use crate::order::sort_numbers;
use crate::table::LVN;
use vstd::prelude::*;

verus! {

/// What a classified instruction is to the model.
pub open spec fn classified_view(r: Option<(String, ValueExpr)>) -> Option<(Name, ExprView)> {
    match r {
        Some((dest, value)) => Some((dest@, value@)),
        None => None,
    }
}

impl LVN {
    /// The numbers of the variables in `args`, from left to right.
    /// Variables met for the first time are registered as coming from
    /// outside the block.
    pub fn number_args(&mut self, args: &Vec<String>) -> (numbers: Vec<usize>)
        requires
            old(self).wf(),
        ensures
            final(self).wf(),
            (final(self)@, numbers_of(numbers@)) == old(self)@.number_args(names_of(args@)),
            forall|k: int|
                0 <= k < numbers@.len() ==> (#[trigger] numbers@[k] as nat)
                    < final(self)@.next_number(),
    {
        let mut numbers: Vec<usize> = Vec::new();
        let ghost names = names_of(args@);
        let mut i: usize = 0;
        proof {
            assert(names.take(0) =~= Seq::<Name>::empty());
            assert(numbers_of(numbers@) =~= Seq::<nat>::empty());
        }
        while i < args.len()
            invariant
                i <= args.len(),
                names == names_of(args@),
                self.wf(),
                (self@, numbers_of(numbers@)) == old(self)@.number_args(names.take(i as int)),
                old(self)@.next_number() <= self@.next_number(),
                forall|k: int|
                    0 <= k < numbers@.len() ==> (#[trigger] numbers@[k] as nat)
                        < self@.next_number(),
            decreases args.len() - i,
        {
            let ghost before = numbers_of(numbers@);
            let ghost table = self@;
            let n = self.number_of(&args[i]);
            numbers.push(n);
            proof {
                assert(names.take(i + 1).drop_last() =~= names.take(i as int));
                assert(names.take(i + 1).last() == args@[i as int]@);
                assert(numbers_of(numbers@) =~= before.push(n as nat));
                assert(table.next_number() <= self@.next_number());
            }
            i = i + 1;
        }
        proof {
            assert(names.take(args.len() as int) =~= names);
        }
        numbers
    }

    /// The variables of `args` with each replaced by the canonical
    /// variable of the value that it holds.
    pub fn canonical_args(&mut self, args: &Vec<String>) -> (renamed: Vec<String>)
        requires
            old(self).wf(),
        ensures
            final(self).wf(),
            (final(self)@, names_of(renamed@)) == old(self)@.canonical_args(names_of(args@)),
    {
        let mut renamed: Vec<String> = Vec::new();
        let ghost names = names_of(args@);
        let mut i: usize = 0;
        proof {
            assert(names.take(0) =~= Seq::<Name>::empty());
            assert(names_of(renamed@) =~= Seq::<Name>::empty());
        }
        while i < args.len()
            invariant
                i <= args.len(),
                names == names_of(args@),
                self.wf(),
                (self@, names_of(renamed@)) == old(self)@.canonical_args(names.take(i as int)),
            decreases args.len() - i,
        {
            let ghost before = names_of(renamed@);
            let n = self.number_of(&args[i]);
            let var = self.canonical_var(n);
            renamed.push(var);
            proof {
                assert(names.take(i + 1).drop_last() =~= names.take(i as int));
                assert(names.take(i + 1).last() == args@[i as int]@);
                assert(names_of(renamed@) =~= before.push(var@));
            }
            i = i + 1;
        }
        proof {
            assert(names.take(args.len() as int) =~= names);
        }
        renamed
    }

    /// The instruction with its operands made canonical.
    pub fn canonicalize(&mut self, instr: &Instruction) -> (r: Instruction)
        requires
            old(self).wf(),
        ensures
            final(self).wf(),
            (final(self)@, r@) == canonicalized(old(self)@, instr@),
    {
        match instr {
            Instruction::Constant { .. } => instr.duplicate(),
            Instruction::Value { op, args, dest, op_type, funcs, labels } => {
                let renamed = self.canonical_args(args);
                Instruction::Value {
                    op: *op,
                    args: renamed,
                    dest: dest.clone(),
                    op_type: op_type.duplicate(),
                    funcs: clone_names(funcs),
                    labels: clone_names(labels),
                }
            },
            Instruction::Effect { op, args, funcs, labels } => {
                let renamed = self.canonical_args(args);
                Instruction::Effect {
                    op: *op,
                    args: renamed,
                    funcs: clone_names(funcs),
                    labels: clone_names(labels),
                }
            },
        }
    }

    /// Replaces each operand of `instr` by the canonical variable of the
    /// value that it holds.
    pub fn replace_args_with_canonical_variables(&mut self, instr: &mut Instruction)
        requires
            old(self).wf(),
        ensures
            final(self).wf(),
            (final(self)@, final(instr)@) == canonicalized(old(self)@, old(instr)@),
    {
        let rewritten = self.canonicalize(instr);
        *instr = rewritten;
    }

    /// The destination and the value expression of a defining
    /// instruction; nothing for an instruction that defines no value.
    pub fn get_dest_and_value(&mut self, instr: &Instruction) -> (r: Option<(String, ValueExpr)>)
        requires
            old(self).wf(),
        ensures
            final(self).wf(),
            (final(self)@, classified_view(r)) == classify(old(self)@, instr@),
            match r {
                Some((_, value)) => numbers_below(value@, final(self)@.next_number()),
                None => true,
            },
    {
        match instr {
            Instruction::Constant { dest, value, .. } => {
                Some((dest.clone(), ValueExpr::from_literal(*value)))
            },
            Instruction::Value { op, args, dest, op_type, .. } => {
                let number_args = self.number_args(args);
                assert forall|k: int| 0 <= k < number_args@.len() implies #[trigger] numbers_of(
                    number_args@,
                )[k] < self@.next_number() by {
                    assert((number_args@[k] as nat) < self@.next_number());
                }
                Some((dest.clone(), ValueExpr::Op(*op, number_args, op_type.duplicate())))
            },
            Instruction::Effect { .. } => None,
        }
    }

    /// The truth value stored under `n`, if a boolean constant is stored
    /// there.
    pub fn known_bool(&self, n: usize) -> (r: Option<bool>)
        ensures
            r == self@.known_bool(n as nat),
    {
        match self.value_of(n) {
            Some(value) => {
                if value.is_constant_bool() {
                    Some(value.get_constant_bool())
                } else {
                    None
                }
            },
            None => None,
        }
    }

    /// The literal stored under `n`, if a constant is stored there.
    pub fn known_constant(&self, n: usize) -> (r: Option<Literal>)
        ensures
            r == self@.known_constant(n as nat),
    {
        match self.value_of(n) {
            Some(ValueExpr::Constant(literal, _)) => Some(*literal),
            _ => None,
        }
    }
}

/// The instruction that defines `dest` as the literal `value`.
pub fn make_constant_instruction(dest: String, value: Literal) -> (code: Code)
    ensures
        code@ == constant_instruction(dest@, value),
{
    Code::Instruction(Instruction::Constant { dest, const_type: value.get_type(), value })
}

/// The instruction that defines `dest` as a copy of `source`.
pub fn make_copy_instruction(dest: String, source: String, typ: Type) -> (code: Code)
    ensures
        code@ == copy_instruction(dest@, source@, typ),
{
    let mut args: Vec<String> = Vec::new();
    args.push(source);
    let funcs: Vec<String> = Vec::new();
    let labels: Vec<String> = Vec::new();
    proof {
        assert(names_of(args@) =~= seq![source@]);
        assert(names_of(funcs@) =~= Seq::<Name>::empty());
        assert(names_of(labels@) =~= Seq::<Name>::empty());
    }
    Code::Instruction(
        Instruction::Value { op: ValueOp::Id, args, dest, op_type: typ, funcs, labels },
    )
}

/// The literals stored under the numbers in `args`, if a constant is
/// stored under every one of them.
pub fn all_constant_args(lvn: &LVN, args: &[usize]) -> (r: Option<Vec<Literal>>)
    ensures
        r.is_some() <==> forall|k: int|
            0 <= k < args@.len() ==> lvn@.known_constant(#[trigger] args@[k] as nat).is_some(),
        match r {
            Some(literals) => literals@.len() == args@.len() && forall|k: int|
                0 <= k < args@.len() ==> lvn@.known_constant(args@[k] as nat) == Some(
                    #[trigger] literals@[k],
                ),
            None => true,
        },
{
    let mut literals: Vec<Literal> = Vec::new();
    let mut i: usize = 0;
    while i < args.len()
        invariant
            i <= args.len(),
            literals@.len() == i,
            forall|k: int|
                0 <= k < i ==> lvn@.known_constant(args@[k] as nat) == Some(
                    #[trigger] literals@[k],
                ),
        decreases args.len() - i,
    {
        match lvn.known_constant(args[i]) {
            Some(literal) => {
                literals.push(literal);
            },
            None => {
                assert(!lvn@.known_constant(args@[i as int] as nat).is_some());
                return None;
            },
        }
        i = i + 1;
    }
    proof {
        assert forall|k: int| 0 <= k < args@.len() implies lvn@.known_constant(
            #[trigger] args@[k] as nat,
        ).is_some() by {
            assert(lvn@.known_constant(args@[k] as nat) == Some(literals@[k]));
        }
    }
    Some(literals)
}

/// The expression with the operands of a commutative operator sorted,
/// where this rewrite is switched on.
pub fn normalize_value(value: ValueExpr, option: &Options) -> (r: ValueExpr)
    ensures
        r@ == normalize(value@, *option),
{
    match value {
        ValueExpr::Op(op, args, typ) => {
            let commutative = match op {
                ValueOp::Add | ValueOp::Mul | ValueOp::Eq => true,
                _ => false,
            };
            if option.handle_commutativity && commutative {
                let mut sorted = args;
                sort_numbers(&mut sorted);
                ValueExpr::Op(op, sorted, typ)
            } else {
                ValueExpr::Op(op, args, typ)
            }
        },
        ValueExpr::Constant(literal, typ) => ValueExpr::Constant(literal, typ),
    }
}

/// The truth value of an `and`, `or` or `not` whose operands the table
/// knows well enough.
pub fn fold_value(lvn: &LVN, value: &ValueExpr) -> (r: Option<bool>)
    ensures
        r == folded(lvn@, value@),
{
    match value {
        ValueExpr::Op(op, args, _) => {
            match op {
                ValueOp::And => {
                    if args.len() == 2 {
                        let a = lvn.known_bool(args[0]);
                        let b = lvn.known_bool(args[1]);
                        match (a, b) {
                            (Some(false), _) => Some(false),
                            (_, Some(false)) => Some(false),
                            (Some(true), Some(true)) => Some(true),
                            _ => None,
                        }
                    } else {
                        None
                    }
                },
                ValueOp::Or => {
                    if args.len() == 2 {
                        let a = lvn.known_bool(args[0]);
                        let b = lvn.known_bool(args[1]);
                        match (a, b) {
                            (Some(true), _) => Some(true),
                            (_, Some(true)) => Some(true),
                            (Some(false), Some(false)) => Some(false),
                            _ => None,
                        }
                    } else {
                        None
                    }
                },
                ValueOp::Not => {
                    if args.len() == 1 {
                        match lvn.known_bool(args[0]) {
                            Some(b) => Some(!b),
                            None => None,
                        }
                    } else {
                        None
                    }
                },
                _ => None,
            }
        },
        ValueExpr::Constant(..) => None,
    }
}

/// The number that an `id` with one operand copies.
pub fn copy_source(value: &ValueExpr) -> (r: Option<usize>)
    ensures
        match r {
            Some(n) => copied(value@) == Some(n as nat),
            None => copied(value@).is_none(),
        },
{
    match value {
        ValueExpr::Op(ValueOp::Id, args, _) => {
            if args.len() == 1 {
                Some(args[0])
            } else {
                None
            }
        },
        _ => None,
    }
}

/// Rewrites a defining instruction whose operands are numbered: folds it
/// to a constant, or reuses a value that the table holds, or passes a
/// copy on, or else enters it as a new value with canonical operands.
pub fn rewrite_definition(
    lvn: &mut LVN,
    instr: &Instruction,
    dest: String,
    value: ValueExpr,
    option: &Options,
) -> (code: Code)
    requires
        old(lvn).wf(),
        copied(value@).is_some() ==> copied(value@).unwrap() < old(lvn)@.next_number(),
    ensures
        final(lvn).wf(),
        (final(lvn)@, code@) == define(old(lvn)@, instr@, dest@, value@, *option),
{
    if option.handle_const_folding {
        match fold_value(lvn, &value) {
            Some(b) => {
                let literal = Literal::Bool(b);
                let code = make_constant_instruction(dest.clone(), literal);
                lvn.add_fresh_num_to_table(dest, ValueExpr::from_literal(literal));
                return code;
            },
            None => {},
        }
    }
    match lvn.lookup_value(&value) {
        Some((var, num)) => {
            proof {
                lvn.lemma_wf();
            }
            let code = make_copy_instruction(dest.clone(), var, value.get_type());
            lvn.set_alias(dest, num);
            code
        },
        None => {
            if option.handle_copy_propagate {
                match copy_source(&value) {
                    Some(n) => {
                        let code = match lvn.known_constant(n) {
                            Some(literal) => make_constant_instruction(dest.clone(), literal),
                            None => make_copy_instruction(
                                dest.clone(),
                                lvn.canonical_var(n),
                                value.get_type(),
                            ),
                        };
                        lvn.set_alias(dest, n);
                        return code;
                    },
                    None => {},
                }
            }
            lvn.add_fresh_num_to_table(dest, value);
            let rewritten = lvn.canonicalize(instr);
            Code::Instruction(rewritten)
        },
    }
}

/// Processes one code item: updates the table and gives the item that
/// takes its place.
pub fn lvn_step(lvn: &mut LVN, code: &Code, option: &Options) -> (r: Code)
    requires
        old(lvn).wf(),
    ensures
        final(lvn).wf(),
        (final(lvn)@, r@) == step(old(lvn)@, code@, *option),
{
    match code {
        Code::Label { .. } => code.duplicate(),
        Code::Instruction(instr) => {
            match lvn.get_dest_and_value(instr) {
                None => Code::Instruction(lvn.canonicalize(instr)),
                Some((dest, value)) => {
                    let ghost raw = value@;
                    let normal = normalize_value(value, option);
                    proof {
                        if copied(normal@).is_some() {
                            assert(normal@ == raw);
                        }
                    }
                    rewrite_definition(lvn, instr, dest, normal, option)
                },
            }
        },
    }
}

/// A basic block after value numbering, as a new block.
pub fn number_block(block: &BasicBlock, option: &Options) -> (r: BasicBlock)
    ensures
        codes_of(r@) == lvn_block(codes_of(block@), *option),
{
    let mut lvn = LVN::new();
    let mut r: BasicBlock = Vec::new();
    let ghost body = codes_of(block@);
    let mut i: usize = 0;
    proof {
        assert(body.take(0) =~= Seq::<CodeView>::empty());
        assert(codes_of(r@) =~= Seq::<CodeView>::empty());
    }
    while i < block.len()
        invariant
            i <= block.len(),
            body == codes_of(block@),
            lvn.wf(),
            (lvn@, codes_of(r@)) == run(TableView::empty(), body.take(i as int), *option),
        decreases block.len() - i,
    {
        let ghost before = codes_of(r@);
        let code = lvn_step(&mut lvn, &block[i], option);
        r.push(code);
        proof {
            assert(body.take(i + 1).drop_last() =~= body.take(i as int));
            assert(body.take(i + 1).last() == block@[i as int]@);
            assert(codes_of(r@) =~= before.push(code@));
        }
        i = i + 1;
    }
    proof {
        assert(body.take(block.len() as int) =~= body);
    }
    r
}

/// Runs value numbering over one basic block, in place.
pub fn lvn_block_pass(block: &mut BasicBlock, option: &Options)
    ensures
        codes_of(final(block)@) == lvn_block(codes_of(old(block)@), *option),
{
    let numbered = number_block(block, option);
    *block = numbered;
}

/// Runs value numbering over a function: splits its body into basic
/// blocks, numbers each block on its own, and joins the blocks again in
/// their order.
pub fn local_value_numbering(func: &mut Function, option: &Options)
    ensures
        codes_of(final(func).instrs@) == lvn_function(codes_of(old(func).instrs@), *option),
        final(func).name == old(func).name,
        final(func).args == old(func).args,
        final(func).return_type == old(func).return_type,
{
    let blocks = instructions_to_blocks(func.instrs.as_slice());
    let ghost split = blocks_of(blocks@);
    let mut instrs: Vec<Code> = Vec::new();
    let mut k: usize = 0;
    proof {
        assert(lvn_blocks(split.take(0), *option) =~= Seq::<Seq<CodeView>>::empty());
        assert(codes_of(instrs@) =~= Seq::<CodeView>::empty());
    }
    while k < blocks.len()
        invariant
            k <= blocks.len(),
            split == blocks_of(blocks@),
            codes_of(instrs@) == lvn_blocks(split.take(k as int), *option).flatten(),
        decreases blocks.len() - k,
    {
        let ghost before = codes_of(instrs@);
        let mut numbered = number_block(&blocks[k], option);
        let ghost added = codes_of(numbered@);
        instrs.append(&mut numbered);
        proof {
            let done = lvn_blocks(split.take(k as int), *option);
            assert(lvn_blocks(split.take(k + 1), *option) =~= done.push(added));
            done.lemma_flatten_push(added);
            assert(codes_of(instrs@) =~= before + added);
        }
        k = k + 1;
    }
    proof {
        assert(split.take(blocks.len() as int) =~= split);
    }
    func.instrs = instrs;
}

/// Whether `after` is `before` with the body of every function numbered.
pub open spec fn program_numbered(before: Seq<Function>, after: Seq<Function>, options: Options) -> bool {
    &&& after.len() == before.len()
    &&& forall|k: int|
        0 <= k < before.len() ==> {
            &&& codes_of((#[trigger] after[k]).instrs@) == lvn_function(
                codes_of(before[k].instrs@),
                options,
            )
            &&& after[k].name == before[k].name
            &&& after[k].args == before[k].args
            &&& after[k].return_type == before[k].return_type
        }
}

/// Runs value numbering over every function of a program, each on its
/// own.
pub fn number_program(program: &mut Program, option: &Options)
    ensures
        program_numbered(old(program).functions@, final(program).functions@, *option),
{
    let mut k: usize = 0;
    while k < program.functions.len()
        invariant
            k <= program.functions@.len(),
            program.functions@.len() == old(program).functions@.len(),
            program_numbered(
                old(program).functions@.take(k as int),
                program.functions@.take(k as int),
                *option,
            ),
            forall|j: int|
                k <= j < program.functions@.len() ==> program.functions@[j] == old(
                    program,
                ).functions@[j],
        decreases program.functions@.len() - k,
    {
        let ghost before = program.functions@;
        local_value_numbering(&mut program.functions[k], option);
        proof {
            let start = old(program).functions@;
            let now = program.functions@;
            assert(now.len() == before.len());
            assert forall|j: int| 0 <= j < before.len() && j != k implies now[j] == before[j] by {}
            assert forall|j: int| 0 <= j < k + 1 implies {
                &&& codes_of((#[trigger] now.take(k + 1)[j]).instrs@) == lvn_function(
                    codes_of(start.take(k + 1)[j].instrs@),
                    *option,
                )
                &&& now.take(k + 1)[j].name == start.take(k + 1)[j].name
                &&& now.take(k + 1)[j].args == start.take(k + 1)[j].args
                &&& now.take(k + 1)[j].return_type == start.take(k + 1)[j].return_type
            } by {
                if j < k {
                    assert(now[j] == before.take(k as int)[j]);
                    assert(start.take(k as int)[j] == start[j]);
                } else {
                    assert(before[k as int] == start[k as int]);
                }
            }
        }
        k = k + 1;
    }
    proof {
        assert(program.functions@.take(k as int) =~= program.functions@);
        assert(old(program).functions@.take(k as int) =~= old(program).functions@);
    }
}

} // verus!
