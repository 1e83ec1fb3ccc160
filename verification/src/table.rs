//! The value-number table as it is held at run time.

use crate::assoc::{
    assoc, has_key, keys_distinct, lemma_assoc_domain, lemma_assoc_index, lemma_assoc_push,
    lemma_assoc_update, lemma_distinct_push,
};
use crate::expr::{ExprView, ValueExpr};
use crate::ir::{names_of, Name};
use crate::model::{lemma_with_alias_wf, lemma_with_external_wf, TableView};
use std::collections::HashMap;
use vstd::prelude::*;

verus! {

broadcast use vstd::std_specs::hash::group_hash_axioms;

/// The pairs of variable and number as the model sees them.
pub open spec fn var_entries(v: Seq<(String, usize)>) -> Seq<(Name, nat)> {
    Seq::new(v.len(), |i: int| (v[i].0@, v[i].1 as nat))
}

/// The rows of expression, canonical variable and number as the model
/// sees them.
pub open spec fn value_entries(v: Seq<(ValueExpr, String, usize)>) -> Seq<(ExprView, (Name, nat))> {
    Seq::new(v.len(), |i: int| (v[i].0@, (v[i].1@, v[i].2 as nat)))
}

/// The stored expressions by number as the model sees them.
pub open spec fn stored_values(m: Map<usize, ValueExpr>) -> Map<nat, ExprView> {
    Map::new(
        |n: nat| n <= usize::MAX && m.contains_key(n as usize),
        |n: nat| m[n as usize]@,
    )
}

/// The value-number table of one basic block.
pub struct LVN {
    /// From value expressions to canonical variables, each row numbered.
    /// No expression occurs twice.
    var_and_num_from_value: Vec<(ValueExpr, String, usize)>,
    /// From variable names to their current value number. No name occurs
    /// twice.
    num_from_var: Vec<(String, usize)>,
    /// The canonical variable of each number.
    canonical_var_from_num: Vec<String>,
    /// The expression stored under a number.
    value_from_num: HashMap<usize, ValueExpr>,
}

impl View for LVN {
    type V = TableView;

    closed spec fn view(&self) -> TableView {
        TableView {
            canonical: names_of(self.canonical_var_from_num@),
            values: stored_values(self.value_from_num@),
            by_value: assoc(value_entries(self.var_and_num_from_value@)),
            by_var: assoc(var_entries(self.num_from_var@)),
        }
    }
}

/// The position of `x` among the keys of `entries`, if it is one of them.
fn find_var(entries: &Vec<(String, usize)>, x: &String) -> (r: Option<usize>)
    ensures
        match r {
            Some(i) => i < entries.len() && var_entries(entries@)[i as int].0 == x@,
            None => !has_key(var_entries(entries@), x@),
        },
{
    let mut i: usize = 0;
    while i < entries.len()
        invariant
            i <= entries.len(),
            forall|j: int| 0 <= j < i ==> (#[trigger] var_entries(entries@)[j]).0 != x@,
        decreases entries.len() - i,
    {
        if entries[i].0 == *x {
            return Some(i);
        }
        i = i + 1;
    }
    None
}

/// The position of `value` among the keys of `entries`, if it is one of
/// them.
fn find_value(entries: &Vec<(ValueExpr, String, usize)>, value: &ValueExpr) -> (r: Option<usize>)
    ensures
        match r {
            Some(i) => i < entries.len() && value_entries(entries@)[i as int].0 == value@,
            None => !has_key(value_entries(entries@), value@),
        },
{
    let mut i: usize = 0;
    while i < entries.len()
        invariant
            i <= entries.len(),
            forall|j: int| 0 <= j < i ==> (#[trigger] value_entries(entries@)[j]).0 != value@,
        decreases entries.len() - i,
    {
        if entries[i].0.same(value) {
            return Some(i);
        }
        i = i + 1;
    }
    None
}

impl LVN {
    /// What the representation keeps besides the model's consistency.
    pub closed spec fn wf(&self) -> bool {
        &&& keys_distinct(var_entries(self.num_from_var@))
        &&& keys_distinct(value_entries(self.var_and_num_from_value@))
        &&& self@.wf()
    }

    /// A table that is well formed has a consistent model.
    pub proof fn lemma_wf(&self)
        requires
            self.wf(),
        ensures
            self@.wf(),
    {
    }

    /// The table at the start of a block.
    pub fn new() -> (t: LVN)
        ensures
            t.wf(),
            t@ == TableView::empty(),
    {
        let t = LVN {
            var_and_num_from_value: Vec::new(),
            num_from_var: Vec::new(),
            canonical_var_from_num: Vec::new(),
            value_from_num: HashMap::new(),
        };
        proof {
            assert(names_of(t.canonical_var_from_num@) =~= Seq::<Name>::empty());
            assert(stored_values(t.value_from_num@) =~= Map::<nat, ExprView>::empty());
            assert(var_entries(t.num_from_var@) =~= Seq::<(Name, nat)>::empty());
            assert(value_entries(t.var_and_num_from_value@) =~= Seq::<
                (ExprView, (Name, nat)),
            >::empty());
        }
        t
    }

    /// The number that the next new value gets.
    pub fn next_number(&self) -> (n: usize)
        ensures
            n as nat == self@.next_number(),
    {
        self.canonical_var_from_num.len()
    }

    /// The number that `x` refers to, if it has one.
    pub fn lookup_var(&self, x: &String) -> (r: Option<usize>)
        requires
            self.wf(),
        ensures
            match r {
                Some(n) => self@.by_var.contains_key(x@) && self@.by_var[x@] == n as nat,
                None => !self@.by_var.contains_key(x@),
            },
    {
        let found = find_var(&self.num_from_var, x);
        proof {
            lemma_assoc_domain(var_entries(self.num_from_var@), x@);
        }
        match found {
            Some(i) => {
                proof {
                    lemma_assoc_index(var_entries(self.num_from_var@), i as int);
                }
                Some(self.num_from_var[i].1)
            },
            None => None,
        }
    }

    /// Makes `var` refer to the number `n`.
    pub fn set_alias(&mut self, var: String, n: usize)
        requires
            old(self).wf(),
            (n as nat) < old(self)@.next_number(),
        ensures
            final(self).wf(),
            final(self)@ == old(self)@.with_alias(var@, n as nat),
    {
        let ghost before = var_entries(self.num_from_var@);
        let found = find_var(&self.num_from_var, &var);
        proof {
            lemma_with_alias_wf(self@, var@, n as nat);
        }
        match found {
            Some(i) => {
                self.num_from_var.set(i, (var, n));
                proof {
                    lemma_assoc_update(before, i as int, n as nat);
                    assert(var_entries(self.num_from_var@) =~= before.update(
                        i as int,
                        (before[i as int].0, n as nat),
                    ));
                }
            },
            None => {
                self.num_from_var.push((var, n));
                proof {
                    lemma_assoc_push(before, var@, n as nat);
                    lemma_distinct_push(before, var@, n as nat);
                    assert(var_entries(self.num_from_var@) =~= before.push((var@, n as nat)));
                }
            },
        }
    }

    /// Gives a variable from outside the block a number of its own.
    fn register_external(&mut self, x: &String) -> (n: usize)
        requires
            old(self).wf(),
            !old(self)@.by_var.contains_key(x@),
        ensures
            final(self).wf(),
            final(self)@ == old(self)@.with_external(x@),
            n as nat == old(self)@.next_number(),
    {
        let num = self.canonical_var_from_num.len();
        let ghost before = var_entries(self.num_from_var@);
        let ghost names = names_of(self.canonical_var_from_num@);
        proof {
            lemma_assoc_domain(before, x@);
            lemma_with_external_wf(self@, x@);
        }
        self.num_from_var.push((x.clone(), num));
        self.canonical_var_from_num.push(x.clone());
        proof {
            lemma_assoc_push(before, x@, num as nat);
            lemma_distinct_push(before, x@, num as nat);
            assert(var_entries(self.num_from_var@) =~= before.push((x@, num as nat)));
            assert(names_of(self.canonical_var_from_num@) =~= names.push(x@));
        }
        num
    }

    /// The number of `x`; a variable without one is registered as coming
    /// from outside the block.
    pub fn number_of(&mut self, x: &String) -> (n: usize)
        requires
            old(self).wf(),
        ensures
            final(self).wf(),
            (final(self)@, n as nat) == old(self)@.number_of(x@),
            (n as nat) < final(self)@.next_number(),
    {
        match self.lookup_var(x) {
            Some(n) => n,
            None => self.register_external(x),
        }
    }

    /// The canonical variable of the number `n`.
    pub fn canonical_var(&self, n: usize) -> (var: String)
        requires
            (n as nat) < self@.next_number(),
        ensures
            var@ == self@.canonical[n as int],
    {
        self.canonical_var_from_num[n].clone()
    }

    /// The expression stored under the number `n`, if there is one.
    pub fn value_of(&self, n: usize) -> (r: Option<&ValueExpr>)
        ensures
            match r {
                Some(value) => self@.values.contains_key(n as nat) && self@.values[n as nat]
                    == value@,
                None => !self@.values.contains_key(n as nat),
            },
    {
        self.value_from_num.get(&n)
    }

    /// The canonical variable and the number of `value`, if the table
    /// holds it.
    pub fn lookup_value(&self, value: &ValueExpr) -> (r: Option<(String, usize)>)
        requires
            self.wf(),
        ensures
            match r {
                Some((var, n)) => self@.by_value.contains_key(value@) && self@.by_value[value@] == (
                    var@,
                    n as nat,
                ),
                None => !self@.by_value.contains_key(value@),
            },
    {
        let found = find_value(&self.var_and_num_from_value, value);
        proof {
            lemma_assoc_domain(value_entries(self.var_and_num_from_value@), value@);
        }
        match found {
            Some(i) => {
                proof {
                    lemma_assoc_index(value_entries(self.var_and_num_from_value@), i as int);
                }
                Some((self.var_and_num_from_value[i].1.clone(), self.var_and_num_from_value[i].2))
            },
            None => None,
        }
    }

    /// Adds a row with a fresh number, and ties this number to a
    /// canonical variable and a value.
    pub fn add_fresh_num_to_table(&mut self, canonical_var: String, value: ValueExpr)
        requires
            old(self).wf(),
        ensures
            final(self).wf(),
            final(self)@ == old(self)@.with_fresh(canonical_var@, value@),
    {
        let num = self.canonical_var_from_num.len();
        let ghost old_view = self@;
        let ghost names = names_of(self.canonical_var_from_num@);
        let ghost rows = value_entries(self.var_and_num_from_value@);
        let ghost stored = self.value_from_num@;
        self.canonical_var_from_num.push(canonical_var.clone());
        self.value_from_num.insert(num, value.duplicate());
        let found = find_value(&self.var_and_num_from_value, &value);
        match found {
            Some(i) => {
                self.var_and_num_from_value.set(i, (value, canonical_var.clone(), num));
                proof {
                    lemma_assoc_update(rows, i as int, (canonical_var@, num as nat));
                    assert(value_entries(self.var_and_num_from_value@) =~= rows.update(
                        i as int,
                        (rows[i as int].0, (canonical_var@, num as nat)),
                    ));
                }
            },
            None => {
                self.var_and_num_from_value.push((value, canonical_var.clone(), num));
                proof {
                    lemma_assoc_push(rows, value@, (canonical_var@, num as nat));
                    lemma_distinct_push(rows, value@, (canonical_var@, num as nat));
                    assert(value_entries(self.var_and_num_from_value@) =~= rows.push(
                        (value@, (canonical_var@, num as nat)),
                    ));
                }
            },
        }
        proof {
            assert(names_of(self.canonical_var_from_num@) =~= names.push(canonical_var@));
            assert(stored_values(self.value_from_num@) =~= stored_values(stored).insert(
                num as nat,
                value@,
            ));
            let mid = TableView {
                canonical: old_view.canonical.push(canonical_var@),
                values: old_view.values.insert(num as nat, value@),
                by_value: old_view.by_value.insert(value@, (canonical_var@, num as nat)),
                by_var: old_view.by_var,
            };
            assert(mid.wf());
            assert(self@ == mid);
            assert(self.wf());
        }
        self.set_alias(canonical_var, num);
    }
}

} // verus!
