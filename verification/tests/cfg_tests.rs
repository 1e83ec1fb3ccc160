use bril_lvn::cfg::{get_block, instructions_to_blocks, is_terminator, map_blocks_by_name};
use bril_lvn::ir::{Code, EffectOp, Instruction, Literal, Type, ValueOp};
use bril_lvn::naming::make_block_name;

fn word(t: &str) -> String {
    t.to_string()
}

fn label(name: &str) -> Code {
    Code::Label { label: word(name) }
}

fn constant(dest: &str) -> Code {
    Code::Instruction(Instruction::Constant {
        dest: word(dest),
        const_type: Type::Int,
        value: Literal::Int(0),
    })
}

fn effect_of(op: EffectOp) -> Instruction {
    Instruction::Effect { op, args: vec![], funcs: vec![], labels: vec![] }
}

fn does(op: EffectOp) -> Code {
    Code::Instruction(effect_of(op))
}

#[test]
fn jump_branch_and_return_end_a_block() {
    assert!(is_terminator(&effect_of(EffectOp::Jump)));
    assert!(is_terminator(&effect_of(EffectOp::Branch)));
    assert!(is_terminator(&effect_of(EffectOp::Return)));
    for op in [
        EffectOp::Call,
        EffectOp::Print,
        EffectOp::Nop,
        EffectOp::Store,
        EffectOp::Free,
        EffectOp::Speculate,
        EffectOp::Commit,
        EffectOp::Guard,
    ] {
        assert!(!is_terminator(&effect_of(op)));
    }
    assert!(!is_terminator(&Instruction::Constant {
        dest: word("x"),
        const_type: Type::Int,
        value: Literal::Int(1),
    }));
    assert!(!is_terminator(&Instruction::Value {
        op: ValueOp::Call,
        args: vec![],
        dest: word("x"),
        op_type: Type::Int,
        funcs: vec![],
        labels: vec![],
    }));
}

#[test]
fn blocks_end_at_terminators_and_start_at_labels() {
    let body = vec![
        constant("a"),
        constant("b"),
        does(EffectOp::Jump),
        constant("c"),
        label("l1"),
        constant("d"),
        does(EffectOp::Print),
        does(EffectOp::Return),
        constant("e"),
    ];
    let blocks = instructions_to_blocks(&body);
    assert_eq!(
        blocks,
        vec![
            vec![constant("a"), constant("b"), does(EffectOp::Jump)],
            vec![constant("c")],
            vec![label("l1"), constant("d"), does(EffectOp::Print), does(EffectOp::Return)],
            vec![constant("e")],
        ]
    );
    assert_eq!(blocks.concat(), body);
}

#[test]
fn labels_in_a_row_and_terminators_in_a_row() {
    let body = vec![
        label("a"),
        label("b"),
        does(EffectOp::Return),
        does(EffectOp::Jump),
        does(EffectOp::Branch),
        label("c"),
    ];
    let blocks = instructions_to_blocks(&body);
    assert_eq!(
        blocks,
        vec![
            vec![label("a")],
            vec![label("b"), does(EffectOp::Return)],
            vec![does(EffectOp::Jump)],
            vec![does(EffectOp::Branch)],
            vec![label("c")],
        ]
    );
}

#[test]
fn no_items_no_blocks() {
    assert!(instructions_to_blocks(&[]).is_empty());
    assert!(map_blocks_by_name(vec![]).is_empty());
}

#[test]
fn blocks_get_their_label_or_a_number() {
    let blocks = vec![
        vec![constant("a"), does(EffectOp::Jump)],
        vec![label("loop"), constant("b")],
        vec![constant("c")],
        vec![label("only")],
    ];
    let named = map_blocks_by_name(blocks);
    assert_eq!(named.len(), 4);
    assert_eq!(get_block(&named, &word("b1")), Some(&vec![constant("a"), does(EffectOp::Jump)]));
    assert_eq!(get_block(&named, &word("loop")), Some(&vec![constant("b")]));
    assert_eq!(get_block(&named, &word("b2")), Some(&vec![constant("c")]));
    assert_eq!(get_block(&named, &word("only")), Some(&vec![]));
    assert_eq!(get_block(&named, &word("b3")), None);
    assert_eq!(get_block(&named, &word("b0")), None);
}

#[test]
fn later_block_of_the_same_name_wins() {
    let blocks = vec![
        vec![constant("first")],
        vec![label("b1"), constant("second")],
        vec![label("x"), constant("third")],
        vec![label("x"), constant("fourth")],
    ];
    let named = map_blocks_by_name(blocks);
    assert_eq!(named.len(), 2);
    assert_eq!(get_block(&named, &word("b1")), Some(&vec![constant("second")]));
    assert_eq!(get_block(&named, &word("x")), Some(&vec![constant("fourth")]));
}

#[test]
fn made_up_names_count_in_decimal() {
    assert_eq!(make_block_name(1), "b1");
    assert_eq!(make_block_name(0), "b0");
    assert_eq!(make_block_name(9), "b9");
    assert_eq!(make_block_name(10), "b10");
    assert_eq!(make_block_name(12), "b12");
    assert_eq!(make_block_name(4096), "b4096");
    assert_eq!(make_block_name(1234567890), "b1234567890");
    assert_eq!(
        make_block_name(u128::MAX),
        "b340282366920938463463374607431768211455"
    );
}

#[test]
fn eleven_unnamed_blocks() {
    let blocks: Vec<Vec<Code>> = (0..11).map(|_| vec![does(EffectOp::Return)]).collect();
    let named = map_blocks_by_name(blocks);
    assert_eq!(named.len(), 11);
    assert!(get_block(&named, &word("b10")).is_some());
    assert!(get_block(&named, &word("b11")).is_some());
    assert!(get_block(&named, &word("b12")).is_none());
}
