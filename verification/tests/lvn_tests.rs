use bril_lvn::ir::{
    Argument, Code, EffectOp, Function, Instruction, Literal, Type, ValueOp,
};
use bril_lvn::lvn::{local_value_numbering, lvn_block_pass, number_block};
use bril_lvn::options::{parse_options, Options};

fn s(text: &str) -> String {
    text.to_string()
}

fn names(list: &[&str]) -> Vec<String> {
    list.iter().map(|x| x.to_string()).collect()
}

fn konst(dest: &str, value: Literal, typ: Type) -> Code {
    Code::Instruction(Instruction::Constant { dest: s(dest), const_type: typ, value })
}

fn int_const(dest: &str, n: i64) -> Code {
    konst(dest, Literal::Int(n), Type::Int)
}

fn bool_const(dest: &str, b: bool) -> Code {
    konst(dest, Literal::Bool(b), Type::Bool)
}

fn value(op: ValueOp, dest: &str, args: &[&str], typ: Type) -> Code {
    Code::Instruction(Instruction::Value {
        op,
        args: names(args),
        dest: s(dest),
        op_type: typ,
        funcs: vec![],
        labels: vec![],
    })
}

fn effect(op: EffectOp, args: &[&str]) -> Code {
    Code::Instruction(Instruction::Effect { op, args: names(args), funcs: vec![], labels: vec![] })
}

fn print(arg: &str) -> Code {
    effect(EffectOp::Print, &[arg])
}

fn all_on() -> Options {
    parse_options(&[s("-f")])
}

#[test]
fn redundant_add_becomes_copy() {
    let mut block = vec![
        int_const("a", 4),
        int_const("b", 2),
        value(ValueOp::Add, "sum1", &["a", "b"], Type::Int),
        value(ValueOp::Add, "sum2", &["a", "b"], Type::Int),
        print("sum2"),
    ];
    lvn_block_pass(&mut block, &all_on());
    assert_eq!(
        block,
        vec![
            int_const("a", 4),
            int_const("b", 2),
            value(ValueOp::Add, "sum1", &["a", "b"], Type::Int),
            value(ValueOp::Id, "sum2", &["sum1"], Type::Int),
            print("sum1"),
        ]
    );
}

#[test]
fn commuted_add_becomes_copy() {
    let input = vec![
        int_const("x", 1),
        int_const("y", 2),
        value(ValueOp::Add, "p", &["x", "y"], Type::Int),
        value(ValueOp::Add, "q", &["y", "x"], Type::Int),
        print("q"),
    ];
    let mut block = input.clone();
    lvn_block_pass(&mut block, &parse_options(&[s("-c")]));
    assert_eq!(block[3], value(ValueOp::Id, "q", &["p"], Type::Int));
    assert_eq!(block[4], print("p"));
    assert_eq!(block[..3], input[..3]);

    let mut plain = input.clone();
    lvn_block_pass(&mut plain, &Options::new());
    assert_eq!(plain, input);
}

#[test]
fn copies_of_a_constant_become_the_constant() {
    let mut block = vec![
        int_const("a", 7),
        value(ValueOp::Id, "b", &["a"], Type::Int),
        value(ValueOp::Id, "c", &["b"], Type::Int),
        print("c"),
    ];
    lvn_block_pass(&mut block, &parse_options(&[s("-p")]));
    assert_eq!(block, vec![int_const("a", 7), int_const("b", 7), int_const("c", 7), print("a")]);
}

#[test]
fn and_with_false_folds() {
    let mut block = vec![
        bool_const("t", true),
        bool_const("f", false),
        value(ValueOp::And, "r", &["t", "f"], Type::Bool),
        print("r"),
    ];
    lvn_block_pass(&mut block, &all_on());
    assert_eq!(
        block,
        vec![bool_const("t", true), bool_const("f", false), bool_const("r", false), print("r")]
    );
}

#[test]
fn not_of_true_folds() {
    let mut block =
        vec![bool_const("t", true), value(ValueOp::Not, "r", &["t"], Type::Bool), print("r")];
    lvn_block_pass(&mut block, &all_on());
    assert_eq!(block, vec![bool_const("t", true), bool_const("r", false), print("r")]);
}

#[test]
fn numbering_restarts_in_each_block() {
    let mut func = Function {
        name: s("main"),
        args: vec![Argument { name: s("a"), arg_type: Type::Int }],
        return_type: Some(Type::Int),
        instrs: vec![
            int_const("a", 4),
            value(ValueOp::Add, "s", &["a", "a"], Type::Int),
            Code::Label { label: s("next") },
            value(ValueOp::Add, "t", &["a", "a"], Type::Int),
            value(ValueOp::Add, "u", &["a", "a"], Type::Int),
            effect(EffectOp::Return, &[]),
        ],
    };
    local_value_numbering(&mut func, &Options::new());
    assert_eq!(func.name, "main");
    assert_eq!(func.args, vec![Argument { name: s("a"), arg_type: Type::Int }]);
    assert_eq!(func.return_type, Some(Type::Int));
    assert_eq!(
        func.instrs,
        vec![
            int_const("a", 4),
            value(ValueOp::Add, "s", &["a", "a"], Type::Int),
            Code::Label { label: s("next") },
            value(ValueOp::Add, "t", &["a", "a"], Type::Int),
            value(ValueOp::Id, "u", &["t"], Type::Int),
            effect(EffectOp::Return, &[]),
        ]
    );
}

#[test]
fn or_with_true_folds_whatever_the_other_operand() {
    let mut block = vec![
        bool_const("t", true),
        value(ValueOp::Or, "r", &["outside", "t"], Type::Bool),
        value(ValueOp::Or, "q", &["t", "outside"], Type::Bool),
        print("r"),
    ];
    lvn_block_pass(&mut block, &all_on());
    assert_eq!(
        block,
        vec![bool_const("t", true), bool_const("r", true), bool_const("q", true), print("r")]
    );
}

#[test]
fn or_of_two_false_folds() {
    let mut block = vec![
        bool_const("f", false),
        bool_const("g", false),
        value(ValueOp::Or, "r", &["f", "g"], Type::Bool),
    ];
    lvn_block_pass(&mut block, &all_on());
    assert_eq!(block[2], bool_const("r", false));
}

#[test]
fn and_of_two_true_folds() {
    let mut block = vec![
        bool_const("t", true),
        value(ValueOp::And, "r", &["t", "t"], Type::Bool),
    ];
    lvn_block_pass(&mut block, &all_on());
    assert_eq!(block[1], bool_const("r", true));
}

#[test]
fn and_with_unknown_operand_is_not_folded() {
    let input = vec![
        bool_const("t", true),
        value(ValueOp::And, "r", &["t", "outside"], Type::Bool),
        value(ValueOp::Not, "n", &["outside"], Type::Bool),
        value(ValueOp::Or, "o", &["outside", "outside"], Type::Bool),
    ];
    let mut block = input.clone();
    lvn_block_pass(&mut block, &all_on());
    assert_eq!(block, input);
}

#[test]
fn operand_that_is_no_boolean_constant_is_not_folded() {
    let input = vec![
        int_const("one", 1),
        value(ValueOp::Add, "sum", &["one", "one"], Type::Int),
        value(ValueOp::Not, "n", &["one"], Type::Bool),
        value(ValueOp::And, "a", &["sum", "one"], Type::Bool),
    ];
    let mut block = input.clone();
    lvn_block_pass(&mut block, &all_on());
    assert_eq!(block, input);
}

#[test]
fn folding_needs_its_switch() {
    let input = vec![bool_const("t", true), value(ValueOp::Not, "r", &["t"], Type::Bool)];
    let mut block = input.clone();
    lvn_block_pass(&mut block, &parse_options(&[s("-p"), s("-c")]));
    assert_eq!(block, input);
}

#[test]
fn wrong_number_of_operands_is_left_alone() {
    let input = vec![
        bool_const("t", true),
        bool_const("f", false),
        value(ValueOp::And, "a", &["t", "f", "t"], Type::Bool),
        value(ValueOp::And, "b", &["f"], Type::Bool),
        value(ValueOp::Not, "c", &[], Type::Bool),
        value(ValueOp::Not, "d", &["t", "f"], Type::Bool),
        value(ValueOp::Id, "e", &["t", "f"], Type::Bool),
        value(ValueOp::Id, "g", &[], Type::Bool),
    ];
    let mut block = input.clone();
    lvn_block_pass(&mut block, &all_on());
    assert_eq!(block, input);
}

#[test]
fn folded_constant_is_found_again() {
    let mut block = vec![
        bool_const("t", true),
        value(ValueOp::Not, "r", &["t"], Type::Bool),
        bool_const("f", false),
        print("f"),
    ];
    lvn_block_pass(&mut block, &all_on());
    assert_eq!(
        block,
        vec![
            bool_const("t", true),
            bool_const("r", false),
            value(ValueOp::Id, "f", &["r"], Type::Bool),
            print("r"),
        ]
    );
}

#[test]
fn reused_value_keeps_its_type() {
    let mut block = vec![
        value(ValueOp::Lt, "p", &["x", "y"], Type::Bool),
        value(ValueOp::Lt, "q", &["x", "y"], Type::Bool),
        value(ValueOp::Fadd, "u", &["x", "y"], Type::Float),
        value(ValueOp::Fadd, "v", &["x", "y"], Type::Float),
        value(ValueOp::Alloc, "m", &["x"], Type::Pointer(Box::new(Type::Int))),
        value(ValueOp::Alloc, "n", &["x"], Type::Pointer(Box::new(Type::Int))),
    ];
    lvn_block_pass(&mut block, &Options::new());
    assert_eq!(block[1], value(ValueOp::Id, "q", &["p"], Type::Bool));
    assert_eq!(block[3], value(ValueOp::Id, "v", &["u"], Type::Float));
    assert_eq!(block[5], value(ValueOp::Id, "n", &["m"], Type::Pointer(Box::new(Type::Int))));
}

#[test]
fn same_operator_with_another_type_is_another_value() {
    let input = vec![
        value(ValueOp::Add, "p", &["x", "y"], Type::Int),
        value(ValueOp::Add, "q", &["x", "y"], Type::Float),
        value(ValueOp::Alloc, "m", &["x"], Type::Pointer(Box::new(Type::Int))),
        value(ValueOp::Alloc, "n", &["x"], Type::Pointer(Box::new(Type::Bool))),
    ];
    let mut block = input.clone();
    lvn_block_pass(&mut block, &all_on());
    assert_eq!(block, input);
}

#[test]
fn equal_constants_are_reused() {
    let mut block = vec![
        int_const("a", 4),
        int_const("b", 4),
        konst("c", Literal::Float(0x4010_0000_0000_0000), Type::Float),
        konst("d", Literal::Float(0x4010_0000_0000_0000), Type::Float),
        konst("e", Literal::Float(0x8000_0000_0000_0000), Type::Float),
        konst("z", Literal::Float(0), Type::Float),
        konst("k", Literal::Char('k'), Type::Char),
        konst("l", Literal::Char('k'), Type::Char),
    ];
    lvn_block_pass(&mut block, &Options::new());
    assert_eq!(block[1], value(ValueOp::Id, "b", &["a"], Type::Int));
    assert_eq!(block[3], value(ValueOp::Id, "d", &["c"], Type::Float));
    assert_eq!(block[4], konst("e", Literal::Float(0x8000_0000_0000_0000), Type::Float));
    assert_eq!(block[5], konst("z", Literal::Float(0), Type::Float));
    assert_eq!(block[7], value(ValueOp::Id, "l", &["k"], Type::Char));
}

#[test]
fn copy_of_an_outside_variable_is_passed_on() {
    let mut block = vec![
        value(ValueOp::Id, "b", &["a"], Type::Int),
        value(ValueOp::Id, "c", &["b"], Type::Int),
        value(ValueOp::Add, "d", &["c", "b"], Type::Int),
        print("c"),
    ];
    lvn_block_pass(&mut block, &parse_options(&[s("-p")]));
    assert_eq!(
        block,
        vec![
            value(ValueOp::Id, "b", &["a"], Type::Int),
            value(ValueOp::Id, "c", &["a"], Type::Int),
            value(ValueOp::Add, "d", &["a", "a"], Type::Int),
            print("a"),
        ]
    );
}

#[test]
fn without_copy_propagation_a_copy_is_a_value_of_its_own() {
    let mut block = vec![
        int_const("a", 7),
        value(ValueOp::Id, "b", &["a"], Type::Int),
        value(ValueOp::Id, "c", &["b"], Type::Int),
        value(ValueOp::Id, "d", &["a"], Type::Int),
        print("d"),
    ];
    lvn_block_pass(&mut block, &Options::new());
    assert_eq!(
        block,
        vec![
            int_const("a", 7),
            value(ValueOp::Id, "b", &["a"], Type::Int),
            value(ValueOp::Id, "c", &["b"], Type::Int),
            value(ValueOp::Id, "d", &["b"], Type::Int),
            print("b"),
        ]
    );
}

#[test]
fn commutativity_orders_by_number_and_only_three_operators() {
    let mut block = vec![
        value(ValueOp::Mul, "m1", &["z", "a"], Type::Int),
        value(ValueOp::Mul, "m2", &["a", "z"], Type::Int),
        value(ValueOp::Eq, "eq1", &["a", "z"], Type::Bool),
        value(ValueOp::Eq, "eq2", &["z", "a"], Type::Bool),
        value(ValueOp::Sub, "s1", &["a", "z"], Type::Int),
        value(ValueOp::Sub, "s2", &["z", "a"], Type::Int),
        value(ValueOp::Add, "t1", &["a", "z", "m1"], Type::Int),
        value(ValueOp::Add, "t2", &["m1", "z", "a"], Type::Int),
    ];
    lvn_block_pass(&mut block, &parse_options(&[s("-c")]));
    assert_eq!(block[0], value(ValueOp::Mul, "m1", &["z", "a"], Type::Int));
    assert_eq!(block[1], value(ValueOp::Id, "m2", &["m1"], Type::Int));
    assert_eq!(block[3], value(ValueOp::Id, "eq2", &["eq1"], Type::Bool));
    assert_eq!(block[5], value(ValueOp::Sub, "s2", &["z", "a"], Type::Int));
    assert_eq!(block[7], value(ValueOp::Id, "t2", &["t1"], Type::Int));
}

#[test]
fn functions_and_labels_of_an_instruction_are_kept() {
    let call = Code::Instruction(Instruction::Value {
        op: ValueOp::Call,
        args: names(&["a", "b"]),
        dest: s("r"),
        op_type: Type::Int,
        funcs: names(&["helper"]),
        labels: vec![],
    });
    let branch = Code::Instruction(Instruction::Effect {
        op: EffectOp::Branch,
        args: names(&["b"]),
        funcs: vec![],
        labels: names(&["then", "else"]),
    });
    let mut block = vec![
        Code::Label { label: s("start") },
        int_const("a", 1),
        value(ValueOp::Id, "b", &["a"], Type::Int),
        call,
        branch,
    ];
    lvn_block_pass(&mut block, &parse_options(&[s("-p")]));
    assert_eq!(block[0], Code::Label { label: s("start") });
    assert_eq!(block[2], int_const("b", 1));
    assert_eq!(
        block[3],
        Code::Instruction(Instruction::Value {
            op: ValueOp::Call,
            args: names(&["a", "a"]),
            dest: s("r"),
            op_type: Type::Int,
            funcs: names(&["helper"]),
            labels: vec![],
        })
    );
    assert_eq!(
        block[4],
        Code::Instruction(Instruction::Effect {
            op: EffectOp::Branch,
            args: names(&["a"]),
            funcs: vec![],
            labels: names(&["then", "else"]),
        })
    );
}

#[test]
fn number_block_leaves_its_argument_alone() {
    let input = vec![int_const("a", 4), int_const("b", 4), print("b")];
    let output = number_block(&input, &Options::new());
    assert_eq!(input, vec![int_const("a", 4), int_const("b", 4), print("b")]);
    assert_eq!(
        output,
        vec![int_const("a", 4), value(ValueOp::Id, "b", &["a"], Type::Int), print("a")]
    );
}

#[test]
fn empty_block_and_empty_function() {
    let mut block: Vec<Code> = vec![];
    lvn_block_pass(&mut block, &all_on());
    assert!(block.is_empty());
    let mut func = Function { name: s("f"), args: vec![], return_type: None, instrs: vec![] };
    local_value_numbering(&mut func, &all_on());
    assert!(func.instrs.is_empty());
}

#[test]
fn shape_of_a_function_is_kept() {
    let input = vec![
        Code::Label { label: s("entry") },
        int_const("a", 1),
        int_const("b", 1),
        value(ValueOp::Add, "c", &["a", "b"], Type::Int),
        value(ValueOp::Add, "c", &["b", "a"], Type::Int),
        effect(EffectOp::Branch, &["c"]),
        Code::Label { label: s("again") },
        Code::Label { label: s("entry") },
        value(ValueOp::Id, "d", &["c"], Type::Int),
        effect(EffectOp::Jump, &[]),
        effect(EffectOp::Return, &["d"]),
    ];
    let mut func =
        Function { name: s("f"), args: vec![], return_type: None, instrs: input.clone() };
    local_value_numbering(&mut func, &all_on());
    assert_eq!(func.instrs.len(), input.len());
    for (before, after) in input.iter().zip(func.instrs.iter()) {
        match (before, after) {
            (Code::Label { label: l1 }, Code::Label { label: l2 }) => assert_eq!(l1, l2),
            (
                Code::Instruction(Instruction::Effect { op: o1, .. }),
                Code::Instruction(Instruction::Effect { op: o2, .. }),
            ) => assert_eq!(o1, o2),
            (Code::Instruction(i1), Code::Instruction(i2)) => {
                let d1 = match i1 {
                    Instruction::Constant { dest, .. } | Instruction::Value { dest, .. } => dest,
                    Instruction::Effect { .. } => unreachable!(),
                };
                let d2 = match i2 {
                    Instruction::Constant { dest, .. } | Instruction::Value { dest, .. } => dest,
                    Instruction::Effect { .. } => panic!("a definition became an effect"),
                };
                assert_eq!(d1, d2);
            }
            _ => panic!("an item changed its kind"),
        }
    }
}

#[test]
fn every_function_of_a_program_is_numbered() {
    let body = vec![int_const("a", 4), int_const("b", 4), print("b")];
    let numbered = vec![int_const("a", 4), value(ValueOp::Id, "b", &["a"], Type::Int), print("a")];
    let function = |name: &str, instrs: Vec<Code>| Function {
        name: s(name),
        args: vec![],
        return_type: None,
        instrs,
    };
    let mut program = bril_lvn::ir::Program {
        functions: vec![
            function("first", body.clone()),
            function("empty", vec![]),
            function("last", body.clone()),
        ],
    };
    bril_lvn::lvn::number_program(&mut program, &Options::new());
    assert_eq!(
        program.functions,
        vec![
            function("first", numbered.clone()),
            function("empty", vec![]),
            function("last", numbered.clone()),
        ]
    );
}

#[test]
fn a_block_with_nothing_to_rewrite_is_a_fixed_point() {
    let input = vec![
        Code::Label { label: s("l") },
        int_const("a", 1),
        bool_const("t", true),
        value(ValueOp::Add, "b", &["a", "x"], Type::Int),
        value(ValueOp::Add, "c", &["x", "a"], Type::Int),
        value(ValueOp::And, "u", &["t", "y"], Type::Bool),
        print("c"),
        effect(EffectOp::Return, &["u"]),
    ];
    let once = number_block(&input, &Options::new());
    assert_eq!(once, input);
    let twice = number_block(&once, &Options::new());
    assert_eq!(twice, once);
    let folded = number_block(&input, &parse_options(&[s("-p")]));
    assert_eq!(folded, input);
}

#[test]
fn a_second_run_may_rewrite_what_the_first_run_made() {
    let input = vec![int_const("a", 7), value(ValueOp::Id, "b", &["a"], Type::Int)];
    let options = parse_options(&[s("-p")]);
    let once = number_block(&input, &options);
    assert_eq!(once, vec![int_const("a", 7), int_const("b", 7)]);
    let twice = number_block(&once, &options);
    assert_eq!(twice, vec![int_const("a", 7), value(ValueOp::Id, "b", &["a"], Type::Int)]);
}

#[test]
fn a_reassigned_alias_is_numbered_anew() {
    let mut block = vec![
        value(ValueOp::Id, "b", &["x"], Type::Int),
        value(ValueOp::Add, "b", &["b", "b"], Type::Int),
        value(ValueOp::Add, "c", &["b", "x"], Type::Int),
        print("b"),
    ];
    lvn_block_pass(&mut block, &parse_options(&[s("-p")]));
    assert_eq!(
        block,
        vec![
            value(ValueOp::Id, "b", &["x"], Type::Int),
            value(ValueOp::Add, "b", &["b", "b"], Type::Int),
            value(ValueOp::Add, "c", &["b", "x"], Type::Int),
            print("b"),
        ]
    );
}

#[test]
fn a_value_is_reused_by_its_first_name_even_after_that_name_was_reassigned() {
    let mut block = vec![
        value(ValueOp::Add, "a", &["x", "y"], Type::Int),
        int_const("a", 5),
        value(ValueOp::Add, "b", &["x", "y"], Type::Int),
        print("b"),
    ];
    lvn_block_pass(&mut block, &Options::new());
    assert_eq!(
        block,
        vec![
            value(ValueOp::Add, "a", &["x", "y"], Type::Int),
            int_const("a", 5),
            value(ValueOp::Id, "b", &["a"], Type::Int),
            print("a"),
        ]
    );
}
