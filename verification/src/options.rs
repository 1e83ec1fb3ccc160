//! Command-line switches of the value-numbering pass.

use vstd::prelude::*;
use vstd::string::StringExecFns;

verus! {

/// Which optional rewrites the value-numbering pass performs.
#[derive(Debug, Clone, Copy, PartialEq, Eq)]
pub struct Options {
    pub handle_copy_propagate: bool,
    pub handle_commutativity: bool,
    pub handle_const_folding: bool,
}

/// The text of a one-letter switch: a dash followed by `letter`.
pub open spec fn switch_text(letter: char) -> Seq<char> {
    seq!['-', letter]
}

/// Whether some argument is exactly the switch with the given letter.
pub open spec fn has_switch(args: Seq<String>, letter: char) -> bool {
    exists|i: int| 0 <= i < args.len() && (#[trigger] args[i])@ == switch_text(letter)
}

/// The options that an argument list selects. Folding implies the two
/// other rewrites; arguments that are no switch count for nothing.
pub open spec fn options_of(args: Seq<String>) -> Options {
    Options {
        handle_copy_propagate: has_switch(args, 'p') || has_switch(args, 'f'),
        handle_commutativity: has_switch(args, 'c') || has_switch(args, 'f'),
        handle_const_folding: has_switch(args, 'f'),
    }
}

impl Options {
    /// All rewrites switched off.
    pub fn new() -> (o: Options)
        ensures
            o == (Options {
                handle_copy_propagate: false,
                handle_commutativity: false,
                handle_const_folding: false,
            }),
    {
        Options {
            handle_copy_propagate: false,
            handle_commutativity: false,
            handle_const_folding: false,
        }
    }
}

/// Reads the switches `-p`, `-c` and `-f` from `args`, in any order and any
/// number of times. Everything else is passed over.
pub fn parse_options(args: &[String]) -> (o: Options)
    ensures
        o == options_of(args@),
{
    let mut options = Options::new();
    let p = String::from_str("-p");
    let c = String::from_str("-c");
    let f = String::from_str("-f");
    proof {
        reveal_strlit("-p");
        reveal_strlit("-c");
        reveal_strlit("-f");
        assert(p@ =~= switch_text('p'));
        assert(c@ =~= switch_text('c'));
        assert(f@ =~= switch_text('f'));
    }
    let mut i: usize = 0;
    while i < args.len()
        invariant
            i <= args.len(),
            p@ == switch_text('p'),
            c@ == switch_text('c'),
            f@ == switch_text('f'),
            options == options_of(args@.take(i as int)),
        decreases args.len() - i,
    {
        let arg = &args[i];
        let ghost before = args@.take(i as int);
        let ghost after = args@.take(i + 1);
        proof {
            assert(after =~= before.push(args@[i as int]));
            assert forall|l: char| #[trigger]
                has_switch(after, l) == (has_switch(before, l) || args@[i as int]@ == switch_text(
                    l,
                )) by {
                if has_switch(before, l) {
                    let j = choose|j: int|
                        0 <= j < before.len() && (#[trigger] before[j])@ == switch_text(l);
                    assert(after[j] == before[j]);
                }
                if args@[i as int]@ == switch_text(l) {
                    assert(after[i as int] == args@[i as int]);
                }
                if has_switch(after, l) {
                    let j = choose|j: int|
                        0 <= j < after.len() && (#[trigger] after[j])@ == switch_text(l);
                    if j < i {
                        assert(before[j] == after[j]);
                    }
                }
            }
            assert(switch_text('p') != switch_text('c')) by {
                assert(switch_text('p')[1] != switch_text('c')[1]);
            }
            assert(switch_text('p') != switch_text('f')) by {
                assert(switch_text('p')[1] != switch_text('f')[1]);
            }
            assert(switch_text('c') != switch_text('f')) by {
                assert(switch_text('c')[1] != switch_text('f')[1]);
            }
        }
        if *arg == p {
            options.handle_copy_propagate = true;
        } else if *arg == c {
            options.handle_commutativity = true;
        } else if *arg == f {
            options.handle_copy_propagate = true;
            options.handle_commutativity = true;
            options.handle_const_folding = true;
        }
        i = i + 1;
    }
    proof {
        assert(args@.take(args.len() as int) =~= args@);
    }
    options
}

} // verus!
