//! Dead code elimination keeps what a function shows: the effects, with
//! the values of their operands, and the value of every variable that is
//! read somewhere.

use crate::ir::{CodeView, Name};
use crate::semantics::{values_of, Interp, State};
use crate::tdce::{survives, sweep, tdce_fix, tdce_pass, used_names};
use vstd::prelude::*;

verus! {

/// Whether two states show the same effects and give the same value to
/// every variable of `used`.
pub open spec fn alike<V>(a: State<V>, b: State<V>, used: Set<Name>) -> bool {
    &&& a.trace == b.trace
    &&& forall|x: Name| #[trigger] used.contains(x) ==> a.env[x] == b.env[x]
}

/// Whether the items read variables of `used` only.
pub open spec fn reads_within(items: Seq<CodeView>, used: Set<Name>) -> bool {
    forall|i: int, x: Name|
        0 <= i < items.len() && (#[trigger] items[i]).args().contains(x) ==> #[trigger] used.contains(
            x,
        )
}

/// Executing the items that a sweep keeps, from a state that is alike,
/// ends in a state that is alike. The items may be any run of items that
/// read variables of `used` only: the body of a function in its order,
/// or its items in the order of any path through it.
pub proof fn sweep_keeps_effects<V>(
    interp: Interp<V>,
    items: Seq<CodeView>,
    used: Set<Name>,
    a: State<V>,
    b: State<V>,
)
    requires
        alike(a, b, used),
        reads_within(items, used),
    ensures
        alike(interp.exec_items(a, items), interp.exec_items(b, sweep(items, used)), used),
    decreases items.len(),
{
    if items.len() > 0 {
        let front = items.drop_last();
        let item = items.last();
        assert(reads_within(front, used)) by {
            assert forall|i: int, x: Name|
                0 <= i < front.len() && (#[trigger] front[i]).args().contains(
                    x,
                ) implies #[trigger] used.contains(x) by {
                assert(items[i] == front[i]);
            }
        }
        sweep_keeps_effects(interp, front, used, a, b);
        let a1 = interp.exec_items(a, front);
        let b1 = interp.exec_items(b, sweep(front, used));
        let args = item.args();
        assert(values_of(a1.env, args) =~= values_of(b1.env, args)) by {
            assert forall|i: int| 0 <= i < args.len() implies a1.env[args[i]] == b1.env[args[i]] by {
                assert(items[items.len() - 1].args().contains(args[i]));
                assert(used.contains(args[i]));
            }
        }
        if survives(item, used) {
            let kept = sweep(front, used).push(item);
            assert(kept.drop_last() =~= sweep(front, used));
        }
    }
}

/// Every item that a sweep keeps is an item of the body.
pub proof fn lemma_sweep_items(body: Seq<CodeView>, used: Set<Name>, i: int)
    requires
        0 <= i < sweep(body, used).len(),
    ensures
        exists|j: int| 0 <= j < body.len() && #[trigger] body[j] == sweep(body, used)[i],
    decreases body.len(),
{
    if body.len() > 0 {
        let front = body.drop_last();
        if i < sweep(front, used).len() {
            lemma_sweep_items(front, used, i);
            let j = choose|j: int| 0 <= j < front.len() && #[trigger] front[j] == sweep(front, used)[i];
            assert(body[j] == front[j]);
        } else {
            assert(body[body.len() - 1] == sweep(body, used)[i]);
        }
    }
}

/// What is read after a pass was read before it.
pub proof fn lemma_pass_reads_less(body: Seq<CodeView>, x: Name)
    requires
        used_names(tdce_pass(body)).contains(x),
    ensures
        used_names(body).contains(x),
{
    let next = tdce_pass(body);
    let i = choose|i: int| 0 <= i < next.len() && (#[trigger] next[i]).args().contains(x);
    lemma_sweep_items(body, used_names(body), i);
    let j = choose|j: int|
        0 <= j < body.len() && #[trigger] body[j] == sweep(body, used_names(body))[i];
    assert(body[j].args().contains(x));
}

/// What is read when elimination has ended was read at its start.
pub proof fn lemma_fix_reads_less(body: Seq<CodeView>, x: Name)
    requires
        used_names(tdce_fix(body)).contains(x),
    ensures
        used_names(body).contains(x),
    decreases body.len(),
{
    let next = tdce_pass(body);
    if next.len() >= body.len() {
        lemma_pass_reads_less(body, x);
    } else {
        lemma_fix_reads_less(next, x);
        lemma_pass_reads_less(body, x);
    }
}

/// One pass of dead code elimination keeps the effects of a body that is
/// executed in its order, and the value of every variable that the body
/// reads.
pub proof fn tdce_pass_keeps_effects<V>(interp: Interp<V>, body: Seq<CodeView>, state: State<V>)
    ensures
        alike(
            interp.exec_items(state, body),
            interp.exec_items(state, tdce_pass(body)),
            used_names(body),
        ),
{
    sweep_keeps_effects(interp, body, used_names(body), state, state);
}

/// Dead code elimination keeps the effects of a body that is executed in
/// its order, and the value of every variable that is still read at the
/// end.
pub proof fn tdce_fix_keeps_effects<V>(interp: Interp<V>, body: Seq<CodeView>, state: State<V>)
    ensures
        alike(
            interp.exec_items(state, body),
            interp.exec_items(state, tdce_fix(body)),
            used_names(tdce_fix(body)),
        ),
    decreases body.len(),
{
    let next = tdce_pass(body);
    let last = used_names(tdce_fix(body));
    tdce_pass_keeps_effects(interp, body, state);
    assert forall|x: Name| #[trigger] last.contains(x) implies used_names(body).contains(x) by {
        lemma_fix_reads_less(body, x);
    }
    if next.len() < body.len() {
        tdce_fix_keeps_effects(interp, next, state);
    }
}

} // verus!
