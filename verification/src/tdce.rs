//! Trivial dead code elimination: dropping definitions that nothing reads.

use crate::ir::{codes_of, labels_in, names_of, Code, CodeView, Function, Instruction, Name};
use vstd::prelude::*;

verus! {

/// The variables that some instruction of the body reads.
pub open spec fn used_names(body: Seq<CodeView>) -> Set<Name> {
    Set::new(|x: Name| exists|i: int| 0 <= i < body.len() && (#[trigger] body[i]).args().contains(x))
}

/// Whether an item stays: everything but a definition of an unread variable.
pub open spec fn survives(code: CodeView, used: Set<Name>) -> bool {
    match code.dest() {
        Some(dest) => used.contains(dest),
        None => true,
    }
}

/// The items of `body` that stay when `used` are the variables read.
pub open spec fn sweep(body: Seq<CodeView>, used: Set<Name>) -> Seq<CodeView>
    decreases body.len(),
{
    if body.len() == 0 {
        Seq::empty()
    } else {
        let rest = sweep(body.drop_last(), used);
        if survives(body.last(), used) {
            rest.push(body.last())
        } else {
            rest
        }
    }
}

/// One pass: the body without the definitions of variables that no
/// instruction of the same body reads.
pub open spec fn tdce_pass(body: Seq<CodeView>) -> Seq<CodeView> {
    sweep(body, used_names(body))
}

/// Passes repeated until one removes nothing.
pub open spec fn tdce_fix(body: Seq<CodeView>) -> Seq<CodeView>
    decreases body.len(),
{
    let next = tdce_pass(body);
    if next.len() >= body.len() {
        next
    } else {
        tdce_fix(next)
    }
}

/// A sweep never lengthens a body, and one that keeps the length keeps
/// every item.
pub proof fn lemma_sweep_len(body: Seq<CodeView>, used: Set<Name>)
    ensures
        sweep(body, used).len() <= body.len(),
        sweep(body, used).len() == body.len() ==> sweep(body, used) == body,
    decreases body.len(),
{
    if body.len() > 0 {
        lemma_sweep_len(body.drop_last(), used);
        if sweep(body, used).len() == body.len() {
            assert(sweep(body, used) =~= body.drop_last().push(body.last()));
            assert(body.drop_last().push(body.last()) =~= body);
        }
    }
}

/// A sweep keeps the labels, each in its place among the others.
pub proof fn lemma_sweep_labels(body: Seq<CodeView>, used: Set<Name>)
    ensures
        labels_in(sweep(body, used)) == labels_in(body),
    decreases body.len(),
{
    if body.len() > 0 {
        lemma_sweep_labels(body.drop_last(), used);
        let rest = sweep(body.drop_last(), used);
        if survives(body.last(), used) {
            assert(rest.push(body.last()).drop_last() =~= rest);
        }
    }
}

/// The items of a body that define nothing, in their order: the labels
/// and the effects.
pub open spec fn undefining(body: Seq<CodeView>) -> Seq<CodeView>
    decreases body.len(),
{
    if body.len() == 0 {
        Seq::empty()
    } else {
        let rest = undefining(body.drop_last());
        if body.last().dest().is_none() {
            rest.push(body.last())
        } else {
            rest
        }
    }
}

/// A sweep keeps every label and every effect, each in its place among
/// the others.
pub proof fn lemma_sweep_undefining(body: Seq<CodeView>, used: Set<Name>)
    ensures
        undefining(sweep(body, used)) == undefining(body),
    decreases body.len(),
{
    if body.len() > 0 {
        lemma_sweep_undefining(body.drop_last(), used);
        let rest = sweep(body.drop_last(), used);
        if survives(body.last(), used) {
            assert(rest.push(body.last()).drop_last() =~= rest);
        }
    }
}

/// Whether `x` is one of the names in `list`.
fn name_in(list: &Vec<String>, x: &String) -> (b: bool)
    ensures
        b == names_of(list@).contains(x@),
{
    let mut k: usize = 0;
    while k < list.len()
        invariant
            k <= list.len(),
            forall|j: int| 0 <= j < k ==> names_of(list@)[j] != x@,
        decreases list.len() - k,
    {
        if list[k] == *x {
            assert(names_of(list@)[k as int] == x@);
            return true;
        }
        k = k + 1;
    }
    false
}

/// Adds to `used` every name of `args` that it does not hold yet.
fn note_names(used: &mut Vec<String>, args: &Vec<String>)
    ensures
        forall|x: Name| #[trigger]
            names_of(final(used)@).contains(x) <==> names_of(old(used)@).contains(x) || names_of(
                args@,
            ).contains(x),
{
    let mut j: usize = 0;
    while j < args.len()
        invariant
            j <= args.len(),
            forall|x: Name| #[trigger]
                names_of(used@).contains(x) <==> names_of(old(used)@).contains(x) || names_of(
                    args@,
                ).take(j as int).contains(x),
        decreases args.len() - j,
    {
        let ghost before = names_of(used@);
        let ghost seen = names_of(args@).take(j as int);
        let ghost next = names_of(args@).take(j + 1);
        proof {
            assert(next =~= seen.push(args@[j as int]@));
            assert forall|x: Name| next.contains(x) <==> seen.contains(x) || x == args@[j as int]@ by {
                if seen.contains(x) {
                    let k = choose|k: int| 0 <= k < seen.len() && seen[k] == x;
                    assert(next[k] == x);
                }
                if x == args@[j as int]@ {
                    assert(next[j as int] == x);
                }
            }
        }
        if !name_in(used, &args[j]) {
            used.push(args[j].clone());
            proof {
                let after = names_of(used@);
                assert(after =~= before.push(args@[j as int]@));
                assert forall|x: Name| after.contains(x) <==> before.contains(x) || x
                    == args@[j as int]@ by {
                    if before.contains(x) {
                        let k = choose|k: int| 0 <= k < before.len() && before[k] == x;
                        assert(after[k] == x);
                    }
                    if x == args@[j as int]@ {
                        assert(after[before.len() as int] == x);
                    }
                }
            }
        }
        j = j + 1;
    }
    proof {
        assert(names_of(args@).take(args.len() as int) =~= names_of(args@));
    }
}

/// Reading one item more adds the variables that this item reads.
proof fn lemma_used_names_step(body: Seq<CodeView>, i: int, x: Name)
    requires
        0 <= i < body.len(),
    ensures
        used_names(body.take(i + 1)).contains(x) <==> used_names(body.take(i)).contains(x)
            || body[i].args().contains(x),
{
    let seen = body.take(i);
    let next = body.take(i + 1);
    if used_names(seen).contains(x) {
        let k = choose|k: int| 0 <= k < seen.len() && (#[trigger] seen[k]).args().contains(x);
        assert(next[k] == seen[k]);
    }
    if body[i].args().contains(x) {
        assert(next[i] == body[i]);
    }
    if used_names(next).contains(x) {
        let k = choose|k: int| 0 <= k < next.len() && (#[trigger] next[k]).args().contains(x);
        if k < i {
            assert(seen[k] == next[k]);
        }
    }
}

/// The variables that the body reads, each once.
fn collect_used(instrs: &Vec<Code>) -> (used: Vec<String>)
    ensures
        forall|x: Name| #[trigger]
            names_of(used@).contains(x) <==> used_names(codes_of(instrs@)).contains(x),
{
    let mut used: Vec<String> = Vec::new();
    let ghost body = codes_of(instrs@);
    let mut i: usize = 0;
    while i < instrs.len()
        invariant
            i <= instrs.len(),
            body == codes_of(instrs@),
            forall|x: Name| #[trigger]
                names_of(used@).contains(x) <==> used_names(body.take(i as int)).contains(x),
        decreases instrs.len() - i,
    {
        let ghost seen = body.take(i as int);
        let ghost next = body.take(i + 1);
        let ghost before = names_of(used@);
        assert(body[i as int] == instrs@[i as int]@);
        match &instrs[i] {
            Code::Instruction(Instruction::Value { args, .. }) => {
                assert(body[i as int].args() == names_of(args@));
                note_names(&mut used, args);
            },
            Code::Instruction(Instruction::Effect { args, .. }) => {
                assert(body[i as int].args() == names_of(args@));
                note_names(&mut used, args);
            },
            _ => {
                assert(body[i as int].args() =~= Seq::<Name>::empty());
            },
        }
        assert forall|x: Name|
            names_of(used@).contains(x) <==> used_names(next).contains(x) by {
            lemma_used_names_step(body, i as int, x);
            assert(before.contains(x) <==> used_names(seen).contains(x));
        }
        i = i + 1;
    }
    proof {
        assert(body.take(instrs.len() as int) =~= body);
    }
    used
}

/// Runs one pass over the function and says whether it removed nothing.
pub fn trivial_dead_code_elimination_pass(func: &mut Function) -> (converged: bool)
    ensures
        codes_of(final(func).instrs@) == tdce_pass(codes_of(old(func).instrs@)),
        final(func).name == old(func).name,
        final(func).args == old(func).args,
        final(func).return_type == old(func).return_type,
        converged == (final(func).instrs@.len() == old(func).instrs@.len()),
        converged ==> codes_of(final(func).instrs@) == codes_of(old(func).instrs@),
        final(func).instrs@.len() <= old(func).instrs@.len(),
{
    let used = collect_used(&func.instrs);
    let ghost body = codes_of(func.instrs@);
    let ghost used_set = used_names(body);
    let mut result: Vec<Code> = Vec::new();
    let mut i: usize = 0;
    while i < func.instrs.len()
        invariant
            i <= func.instrs.len(),
            body == codes_of(func.instrs@),
            used_set == used_names(body),
            forall|x: Name| #[trigger] names_of(used@).contains(x) <==> used_set.contains(x),
            codes_of(result@) == sweep(body.take(i as int), used_set),
        decreases func.instrs.len() - i,
    {
        let ghost before = codes_of(result@);
        proof {
            assert(body.take(i + 1).drop_last() =~= body.take(i as int));
        }
        let keep = match &func.instrs[i] {
            Code::Instruction(Instruction::Constant { dest, .. }) => name_in(&used, dest),
            Code::Instruction(Instruction::Value { dest, .. }) => name_in(&used, dest),
            _ => true,
        };
        assert(keep == survives(body[i as int], used_set));
        if keep {
            result.push(func.instrs[i].duplicate());
            proof {
                assert(codes_of(result@) =~= before.push(body[i as int]));
            }
        }
        i = i + 1;
    }
    proof {
        assert(body.take(func.instrs.len() as int) =~= body);
        lemma_sweep_len(body, used_set);
    }
    let is_converged = func.instrs.len() == result.len();
    func.instrs = result;
    is_converged
}

/// Removes, pass after pass, every definition that nothing in the function
/// reads, until a pass finds nothing to remove.
pub fn trivial_dead_code_elimination(func: &mut Function)
    ensures
        codes_of(final(func).instrs@) == tdce_fix(codes_of(old(func).instrs@)),
        final(func).name == old(func).name,
        final(func).args == old(func).args,
        final(func).return_type == old(func).return_type,
{
    let ghost start = codes_of(func.instrs@);
    loop
        invariant
            func.name == old(func).name,
            func.args == old(func).args,
            func.return_type == old(func).return_type,
            tdce_fix(codes_of(func.instrs@)) == tdce_fix(start),
        ensures
            codes_of(func.instrs@) == tdce_fix(start),
            func.name == old(func).name,
            func.args == old(func).args,
            func.return_type == old(func).return_type,
        decreases func.instrs@.len(),
    {
        let converged = trivial_dead_code_elimination_pass(func);
        if converged {
            break;
        }
    }
}

/// Once elimination has run to its end, a further pass removes nothing.
pub proof fn tdce_fix_is_stable(body: Seq<CodeView>)
    ensures
        tdce_pass(tdce_fix(body)) == tdce_fix(body),
    decreases body.len(),
{
    let next = tdce_pass(body);
    lemma_sweep_len(body, used_names(body));
    if next.len() >= body.len() {
        assert(next == body);
    } else {
        tdce_fix_is_stable(next);
    }
}

/// Elimination keeps every label, in the same order.
pub proof fn tdce_fix_keeps_labels(body: Seq<CodeView>)
    ensures
        labels_in(tdce_pass(body)) == labels_in(body),
        labels_in(tdce_fix(body)) == labels_in(body),
    decreases body.len(),
{
    let next = tdce_pass(body);
    lemma_sweep_labels(body, used_names(body));
    lemma_sweep_len(body, used_names(body));
    if next.len() < body.len() {
        tdce_fix_keeps_labels(next);
    }
}

/// Elimination keeps every label and every effect, terminators among
/// them, in the same order.
pub proof fn tdce_fix_keeps_effects_in_place(body: Seq<CodeView>)
    ensures
        undefining(tdce_pass(body)) == undefining(body),
        undefining(tdce_fix(body)) == undefining(body),
    decreases body.len(),
{
    let next = tdce_pass(body);
    lemma_sweep_undefining(body, used_names(body));
    lemma_sweep_len(body, used_names(body));
    if next.len() < body.len() {
        tdce_fix_keeps_effects_in_place(next);
    }
}

} // verus!
