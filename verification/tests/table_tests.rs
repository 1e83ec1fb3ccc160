use bril_lvn::expr::{clone_numbers, same_numbers, ValueExpr};
use bril_lvn::ir::{clone_names, Code, Instruction, Literal, Type, ValueOp};
use bril_lvn::lvn::{
    all_constant_args, copy_source, fold_value, lvn_step, make_constant_instruction,
    make_copy_instruction, normalize_value,
};
use bril_lvn::options::{parse_options, Options};
use bril_lvn::order::sort_numbers;
use bril_lvn::table::LVN;
use std::collections::HashSet;

fn name(t: &str) -> String {
    t.to_string()
}

#[test]
fn literal_carries_its_type() {
    assert_eq!(Literal::Int(-3).get_type(), Type::Int);
    assert_eq!(Literal::Bool(true).get_type(), Type::Bool);
    assert_eq!(Literal::Float(0x7ff8_0000_0000_0000).get_type(), Type::Float);
    assert_eq!(Literal::Char('x').get_type(), Type::Char);
    assert_eq!(
        ValueExpr::from_literal(Literal::Char('x')),
        ValueExpr::Constant(Literal::Char('x'), Type::Char)
    );
}

#[test]
fn type_copies_and_compares() {
    let deep = Type::Pointer(Box::new(Type::Pointer(Box::new(Type::Float))));
    assert_eq!(deep.duplicate(), deep);
    assert_eq!(deep.clone(), deep);
    assert!(deep.same(&deep.duplicate()));
    assert!(!deep.same(&Type::Pointer(Box::new(Type::Float))));
    assert!(!deep.same(&Type::Pointer(Box::new(Type::Pointer(Box::new(Type::Int))))));
    assert!(!Type::Int.same(&Type::Bool));
    assert!(Type::Char.same(&Type::Char));
}

#[test]
fn expressions_compare_by_operator_numbers_and_type() {
    let a = ValueExpr::Op(ValueOp::Add, vec![0, 1], Type::Int);
    assert!(a.same(&a.duplicate()));
    assert_eq!(a.duplicate(), a);
    assert!(!a.same(&ValueExpr::Op(ValueOp::Add, vec![1, 0], Type::Int)));
    assert!(!a.same(&ValueExpr::Op(ValueOp::Mul, vec![0, 1], Type::Int)));
    assert!(!a.same(&ValueExpr::Op(ValueOp::Add, vec![0, 1], Type::Float)));
    assert!(!a.same(&ValueExpr::Op(ValueOp::Add, vec![0], Type::Int)));
    assert!(!a.same(&ValueExpr::Constant(Literal::Int(0), Type::Int)));
    let nan = ValueExpr::from_literal(Literal::Float(0x7ff8_0000_0000_0000));
    assert!(nan.same(&ValueExpr::from_literal(Literal::Float(0x7ff8_0000_0000_0000))));
    assert!(!nan.same(&ValueExpr::from_literal(Literal::Float(0x7ff8_0000_0000_0001))));
    assert!(!ValueExpr::from_literal(Literal::Int(1)).same(&ValueExpr::from_literal(
        Literal::Bool(true)
    )));
    assert_eq!(a.get_type(), Type::Int);
    assert_eq!(nan.get_type(), Type::Float);
}

#[test]
fn boolean_constants_are_told_apart() {
    let t = ValueExpr::from_literal(Literal::Bool(true));
    let f = ValueExpr::from_literal(Literal::Bool(false));
    assert!(t.is_constant_bool() && f.is_constant_bool());
    assert!(t.get_constant_bool());
    assert!(!f.get_constant_bool());
    assert!(!ValueExpr::from_literal(Literal::Int(1)).is_constant_bool());
    assert!(!ValueExpr::Op(ValueOp::Not, vec![0], Type::Bool).is_constant_bool());
}

#[test]
fn lists_copy_and_compare() {
    assert_eq!(clone_numbers(&vec![3, 1, 2]), vec![3, 1, 2]);
    assert!(same_numbers(&vec![3, 1, 2], &vec![3, 1, 2]));
    assert!(!same_numbers(&vec![3, 1, 2], &vec![3, 2, 1]));
    assert!(!same_numbers(&vec![3, 1], &vec![3, 1, 2]));
    assert!(same_numbers(&vec![], &vec![]));
    assert_eq!(clone_names(&vec![name("a"), name("")]), vec![name("a"), name("")]);
}

#[test]
fn numbers_are_sorted_ascending() {
    let mut v = vec![5, 3, 9, 3, 0, usize::MAX, 1];
    sort_numbers(&mut v);
    assert_eq!(v, vec![0, 1, 3, 3, 5, 9, usize::MAX]);
    let mut empty: Vec<usize> = vec![];
    sort_numbers(&mut empty);
    assert!(empty.is_empty());
    let mut one = vec![7];
    sort_numbers(&mut one);
    assert_eq!(one, vec![7]);
    let mut two = vec![2, 1];
    sort_numbers(&mut two);
    assert_eq!(two, vec![1, 2]);
}

#[test]
fn normalizing_sorts_commutative_operands_only() {
    let on = parse_options(&[name("-c")]);
    let off = Options::new();
    assert_eq!(
        normalize_value(ValueExpr::Op(ValueOp::Add, vec![4, 2], Type::Int), &on),
        ValueExpr::Op(ValueOp::Add, vec![2, 4], Type::Int)
    );
    assert_eq!(
        normalize_value(ValueExpr::Op(ValueOp::Add, vec![4, 2], Type::Int), &off),
        ValueExpr::Op(ValueOp::Add, vec![4, 2], Type::Int)
    );
    assert_eq!(
        normalize_value(ValueExpr::Op(ValueOp::Div, vec![4, 2], Type::Int), &on),
        ValueExpr::Op(ValueOp::Div, vec![4, 2], Type::Int)
    );
    assert_eq!(
        normalize_value(ValueExpr::Op(ValueOp::And, vec![4, 2], Type::Bool), &on),
        ValueExpr::Op(ValueOp::And, vec![4, 2], Type::Bool)
    );
    assert_eq!(
        normalize_value(ValueExpr::from_literal(Literal::Int(4)), &on),
        ValueExpr::from_literal(Literal::Int(4))
    );
}

#[test]
fn table_numbers_variables_in_order_of_appearance() {
    let mut table = LVN::new();
    assert_eq!(table.next_number(), 0);
    assert_eq!(table.lookup_var(&name("x")), None);
    assert_eq!(table.number_of(&name("x")), 0);
    assert_eq!(table.number_of(&name("y")), 1);
    assert_eq!(table.number_of(&name("x")), 0);
    assert_eq!(table.next_number(), 2);
    assert_eq!(table.lookup_var(&name("y")), Some(1));
    assert_eq!(table.canonical_var(1), "y");
    assert_eq!(table.number_args(&vec![name("y"), name("z"), name("x"), name("z")]), vec![1, 2, 0, 2]);
    assert_eq!(table.value_of(0), None);
    assert_eq!(table.known_bool(0), None);
    assert_eq!(table.known_constant(0), None);
}

#[test]
fn table_rows_tie_value_variable_and_number() {
    let mut table = LVN::new();
    let seven = ValueExpr::from_literal(Literal::Int(7));
    let truth = ValueExpr::from_literal(Literal::Bool(true));
    table.add_fresh_num_to_table(name("a"), seven.duplicate());
    table.add_fresh_num_to_table(name("t"), truth.duplicate());
    assert_eq!(table.next_number(), 2);
    assert_eq!(table.lookup_value(&seven), Some((name("a"), 0)));
    assert_eq!(table.lookup_value(&truth), Some((name("t"), 1)));
    assert_eq!(table.lookup_value(&ValueExpr::from_literal(Literal::Int(8))), None);
    assert_eq!(table.value_of(1), Some(&truth));
    assert_eq!(table.value_of(2), None);
    assert_eq!(table.known_bool(1), Some(true));
    assert_eq!(table.known_bool(0), None);
    assert_eq!(table.known_constant(0), Some(Literal::Int(7)));
    assert_eq!(table.lookup_var(&name("t")), Some(1));

    table.set_alias(name("b"), 0);
    assert_eq!(table.lookup_var(&name("b")), Some(0));
    table.set_alias(name("b"), 1);
    assert_eq!(table.lookup_var(&name("b")), Some(1));
    assert_eq!(table.canonical_args(&vec![name("b"), name("a"), name("new")]), vec![
        name("t"),
        name("a"),
        name("new")
    ]);

    table.add_fresh_num_to_table(name("again"), seven.duplicate());
    assert_eq!(table.lookup_value(&seven), Some((name("again"), 3)));
    assert_eq!(table.value_of(0), Some(&seven));
    assert_eq!(table.canonical_var(0), "a");
    assert_eq!(table.canonical_var(3), "again");
}

#[test]
fn classifying_instructions() {
    let mut table = LVN::new();
    let constant =
        Instruction::Constant { dest: name("c"), const_type: Type::Int, value: Literal::Int(2) };
    assert_eq!(
        table.get_dest_and_value(&constant),
        Some((name("c"), ValueExpr::Constant(Literal::Int(2), Type::Int)))
    );
    assert_eq!(table.next_number(), 0);
    let sum = Instruction::Value {
        op: ValueOp::Add,
        args: vec![name("x"), name("y"), name("x")],
        dest: name("s"),
        op_type: Type::Int,
        funcs: vec![],
        labels: vec![],
    };
    assert_eq!(
        table.get_dest_and_value(&sum),
        Some((name("s"), ValueExpr::Op(ValueOp::Add, vec![0, 1, 0], Type::Int)))
    );
    assert_eq!(table.next_number(), 2);
    let mut effect = Instruction::Effect {
        op: bril_lvn::ir::EffectOp::Print,
        args: vec![name("z")],
        funcs: vec![],
        labels: vec![],
    };
    assert_eq!(table.get_dest_and_value(&effect), None);
    assert_eq!(table.next_number(), 2);
    table.set_alias(name("z"), 1);
    table.replace_args_with_canonical_variables(&mut effect);
    assert_eq!(
        effect,
        Instruction::Effect {
            op: bril_lvn::ir::EffectOp::Print,
            args: vec![name("y")],
            funcs: vec![],
            labels: vec![],
        }
    );
    assert_eq!(table.canonicalize(&constant), constant);
}

#[test]
fn folding_by_the_table() {
    let mut table = LVN::new();
    table.add_fresh_num_to_table(name("t"), ValueExpr::from_literal(Literal::Bool(true)));
    table.add_fresh_num_to_table(name("f"), ValueExpr::from_literal(Literal::Bool(false)));
    table.add_fresh_num_to_table(name("i"), ValueExpr::from_literal(Literal::Int(1)));
    let unknown = 9;
    let and = |a, b| fold_value(&table, &ValueExpr::Op(ValueOp::And, vec![a, b], Type::Bool));
    let or = |a, b| fold_value(&table, &ValueExpr::Op(ValueOp::Or, vec![a, b], Type::Bool));
    let not = |a| fold_value(&table, &ValueExpr::Op(ValueOp::Not, vec![a], Type::Bool));
    assert_eq!(and(0, 0), Some(true));
    assert_eq!(and(0, 1), Some(false));
    assert_eq!(and(1, 0), Some(false));
    assert_eq!(and(1, unknown), Some(false));
    assert_eq!(and(unknown, 1), Some(false));
    assert_eq!(and(0, unknown), None);
    assert_eq!(and(2, 0), None);
    assert_eq!(and(2, 1), Some(false));
    assert_eq!(or(1, 1), Some(false));
    assert_eq!(or(0, 1), Some(true));
    assert_eq!(or(unknown, 0), Some(true));
    assert_eq!(or(0, 2), Some(true));
    assert_eq!(or(1, unknown), None);
    assert_eq!(or(2, 1), None);
    assert_eq!(not(0), Some(false));
    assert_eq!(not(1), Some(true));
    assert_eq!(not(2), None);
    assert_eq!(not(unknown), None);
    assert_eq!(fold_value(&table, &ValueExpr::Op(ValueOp::Eq, vec![0, 0], Type::Bool)), None);
    assert_eq!(fold_value(&table, &ValueExpr::from_literal(Literal::Bool(true))), None);
    assert_eq!(all_constant_args(&table, &vec![0, 2, 1]), Some(vec![
        Literal::Bool(true),
        Literal::Int(1),
        Literal::Bool(false)
    ]));
    assert_eq!(all_constant_args(&table, &vec![0, unknown]), None);
    assert_eq!(all_constant_args(&table, &vec![]), Some(vec![]));
}

#[test]
fn copies_and_made_instructions() {
    assert_eq!(copy_source(&ValueExpr::Op(ValueOp::Id, vec![4], Type::Int)), Some(4));
    assert_eq!(copy_source(&ValueExpr::Op(ValueOp::Id, vec![4, 5], Type::Int)), None);
    assert_eq!(copy_source(&ValueExpr::Op(ValueOp::Id, vec![], Type::Int)), None);
    assert_eq!(copy_source(&ValueExpr::Op(ValueOp::Not, vec![4], Type::Int)), None);
    assert_eq!(copy_source(&ValueExpr::from_literal(Literal::Int(4))), None);
    assert_eq!(
        make_constant_instruction(name("d"), Literal::Char('q')),
        Code::Instruction(Instruction::Constant {
            dest: name("d"),
            const_type: Type::Char,
            value: Literal::Char('q'),
        })
    );
    assert_eq!(
        make_copy_instruction(name("d"), name("s"), Type::Bool),
        Code::Instruction(Instruction::Value {
            op: ValueOp::Id,
            args: vec![name("s")],
            dest: name("d"),
            op_type: Type::Bool,
            funcs: vec![],
            labels: vec![],
        })
    );
}

#[test]
fn one_step_at_a_time() {
    let mut table = LVN::new();
    let options = Options::new();
    let label = Code::Label { label: name("l") };
    assert_eq!(lvn_step(&mut table, &label, &options), label);
    let first = Code::Instruction(Instruction::Constant {
        dest: name("a"),
        const_type: Type::Int,
        value: Literal::Int(1),
    });
    assert_eq!(lvn_step(&mut table, &first, &options), first);
    let second = Code::Instruction(Instruction::Constant {
        dest: name("b"),
        const_type: Type::Int,
        value: Literal::Int(1),
    });
    assert_eq!(
        lvn_step(&mut table, &second, &options),
        make_copy_instruction(name("b"), name("a"), Type::Int)
    );
    assert_eq!(table.lookup_var(&name("b")), Some(0));
    assert_eq!(table.next_number(), 1);
}

#[test]
fn equal_expressions_hash_alike() {
    let mut set = HashSet::new();
    set.insert(ValueExpr::Op(ValueOp::Add, vec![0, 1], Type::Int));
    set.insert(ValueExpr::Op(ValueOp::Add, vec![0, 1], Type::Int));
    set.insert(ValueExpr::from_literal(Literal::Float(0x7ff8_0000_0000_0000)));
    set.insert(ValueExpr::from_literal(Literal::Float(0x7ff8_0000_0000_0000)));
    set.insert(ValueExpr::from_literal(Literal::Float(0)));
    set.insert(ValueExpr::from_literal(Literal::Float(0x8000_0000_0000_0000)));
    assert_eq!(set.len(), 4);
}
