use bril_lvn::ir::{Code, EffectOp, Function, Instruction, Literal, Type, ValueOp};
use bril_lvn::lvn::local_value_numbering;
use bril_lvn::options::parse_options;
use bril_lvn::tdce::trivial_dead_code_elimination;
use std::collections::HashMap;

#[derive(Debug, Clone, Copy, PartialEq)]
enum Val {
    Int(i64),
    Bool(bool),
}

fn run(body: &[Code], inputs: &[(&str, Val)]) -> Vec<Vec<Val>> {
    let mut env: HashMap<String, Val> =
        inputs.iter().map(|(name, v)| (name.to_string(), *v)).collect();
    let mut shown = vec![];
    for code in body {
        let instr = match code {
            Code::Label { .. } => continue,
            Code::Instruction(instr) => instr,
        };
        match instr {
            Instruction::Constant { dest, value, .. } => {
                let v = match value {
                    Literal::Int(i) => Val::Int(*i),
                    Literal::Bool(b) => Val::Bool(*b),
                    _ => panic!("no such literal here"),
                };
                env.insert(dest.clone(), v);
            }
            Instruction::Value { op, args, dest, .. } => {
                let a: Vec<Val> = args.iter().map(|x| env[x]).collect();
                let v = match (op, a.as_slice()) {
                    (ValueOp::Id, [x]) => *x,
                    (ValueOp::Add, [Val::Int(x), Val::Int(y)]) => Val::Int(x.wrapping_add(*y)),
                    (ValueOp::Mul, [Val::Int(x), Val::Int(y)]) => Val::Int(x.wrapping_mul(*y)),
                    (ValueOp::Sub, [Val::Int(x), Val::Int(y)]) => Val::Int(x.wrapping_sub(*y)),
                    (ValueOp::Eq, [Val::Int(x), Val::Int(y)]) => Val::Bool(x == y),
                    (ValueOp::Lt, [Val::Int(x), Val::Int(y)]) => Val::Bool(x < y),
                    (ValueOp::And, [Val::Bool(x), Val::Bool(y)]) => Val::Bool(*x && *y),
                    (ValueOp::Or, [Val::Bool(x), Val::Bool(y)]) => Val::Bool(*x || *y),
                    (ValueOp::Not, [Val::Bool(x)]) => Val::Bool(!*x),
                    _ => panic!("no such operation here"),
                };
                env.insert(dest.clone(), v);
            }
            Instruction::Effect { args, .. } => {
                shown.push(args.iter().map(|x| env[x]).collect());
            }
        }
    }
    shown
}

fn number(dest: &str, n: i64) -> Code {
    Code::Instruction(Instruction::Constant {
        dest: dest.to_string(),
        const_type: Type::Int,
        value: Literal::Int(n),
    })
}

fn truth(dest: &str, b: bool) -> Code {
    Code::Instruction(Instruction::Constant {
        dest: dest.to_string(),
        const_type: Type::Bool,
        value: Literal::Bool(b),
    })
}

fn op(op: ValueOp, dest: &str, args: &[&str], typ: Type) -> Code {
    Code::Instruction(Instruction::Value {
        op,
        args: args.iter().map(|a| a.to_string()).collect(),
        dest: dest.to_string(),
        op_type: typ,
        funcs: vec![],
        labels: vec![],
    })
}

fn show(args: &[&str]) -> Code {
    Code::Instruction(Instruction::Effect {
        op: EffectOp::Print,
        args: args.iter().map(|a| a.to_string()).collect(),
        funcs: vec![],
        labels: vec![],
    })
}

fn sample() -> Vec<Code> {
    vec![
        number("a", 4),
        number("b", 2),
        op(ValueOp::Add, "s1", &["a", "b"], Type::Int),
        op(ValueOp::Add, "s2", &["b", "a"], Type::Int),
        op(ValueOp::Mul, "m", &["s1", "s2"], Type::Int),
        op(ValueOp::Id, "c", &["m"], Type::Int),
        op(ValueOp::Id, "d", &["c"], Type::Int),
        op(ValueOp::Add, "e", &["d", "x"], Type::Int),
        op(ValueOp::Add, "f", &["x", "m"], Type::Int),
        op(ValueOp::Sub, "g", &["x", "m"], Type::Int),
        op(ValueOp::Sub, "h", &["m", "x"], Type::Int),
        truth("t", true),
        truth("u", false),
        op(ValueOp::Eq, "q", &["e", "f"], Type::Bool),
        op(ValueOp::And, "r1", &["q", "u"], Type::Bool),
        op(ValueOp::Or, "r2", &["t", "q"], Type::Bool),
        op(ValueOp::Not, "r3", &["u"], Type::Bool),
        op(ValueOp::And, "r4", &["q", "p"], Type::Bool),
        op(ValueOp::Lt, "unread", &["g", "h"], Type::Bool),
        number("dead", 9),
        show(&["e", "f", "g", "h"]),
        show(&["q", "r1", "r2", "r3", "r4"]),
        show(&["d", "s2", "x", "p"]),
    ]
}

#[test]
fn numbering_and_elimination_show_the_same_values() {
    let inputs = [
        [("x", Val::Int(0)), ("p", Val::Bool(false))],
        [("x", Val::Int(-7)), ("p", Val::Bool(true))],
        [("x", Val::Int(i64::MAX)), ("p", Val::Bool(true))],
    ];
    let switches: [&[&str]; 6] = [&[], &["-p"], &["-c"], &["-f"], &["-p", "-c"], &["-c", "-f"]];
    for switch in switches {
        let arguments: Vec<String> = switch.iter().map(|a| a.to_string()).collect();
        let options = parse_options(&arguments);
        let mut func = Function {
            name: "main".to_string(),
            args: vec![],
            return_type: None,
            instrs: sample(),
        };
        local_value_numbering(&mut func, &options);
        let numbered = func.instrs.clone();
        trivial_dead_code_elimination(&mut func);
        assert!(func.instrs.len() < numbered.len());
        for input in &inputs {
            let expected = run(&sample(), input);
            assert_eq!(expected.len(), 3);
            assert_eq!(run(&numbered, input), expected);
            assert_eq!(run(&func.instrs, input), expected);
        }
    }
}

#[test]
fn the_sample_shows_what_it_should() {
    assert_eq!(
        run(&sample(), &[("x", Val::Int(1)), ("p", Val::Bool(true))]),
        vec![
            vec![Val::Int(37), Val::Int(37), Val::Int(-35), Val::Int(35)],
            vec![
                Val::Bool(true),
                Val::Bool(false),
                Val::Bool(true),
                Val::Bool(true),
                Val::Bool(true)
            ],
            vec![Val::Int(36), Val::Int(6), Val::Int(1), Val::Bool(true)],
        ]
    );
}
