use yarnspinner::option_code::{emit_line_group_saliency, emit_standard_options, OptionCondition, OptionItem};
use yarnspinner::program::{FloatBits, Instruction, OpCode, Operand};

fn ins(op: OpCode, operands: Vec<Operand>) -> Instruction {
    Instruction { opcode: op.number(), operands }
}

fn s(x: &str) -> Operand {
    Operand::StringValue(x.to_string())
}

fn opcodes(code: &[Instruction]) -> Vec<i32> {
    code.iter().map(|i| i.opcode).collect()
}

fn float_of(o: &Operand) -> f32 {
    match o {
        Operand::FloatValue(FloatBits(b)) => f32::from_bits(*b),
        other => panic!("not a number: {other:?}"),
    }
}

fn text_of(o: &Operand) -> String {
    match o {
        Operand::StringValue(t) => t.clone(),
        other => panic!("not a string: {other:?}"),
    }
}

fn items() -> Vec<OptionItem> {
    vec![
        OptionItem {
            line_id: "line:a".to_string(),
            condition: OptionCondition::Always,
            text_code: vec![],
            expression_count: 0,
            body: vec![ins(OpCode::Stop, vec![])],
        },
        OptionItem {
            line_id: "line:b".to_string(),
            condition: OptionCondition::Once,
            text_code: vec![ins(OpCode::PushString, vec![s("v")])],
            expression_count: 1,
            body: vec![],
        },
    ]
}

#[test]
fn standard_options_offer_show_and_jump_to_their_destinations() {
    let labels = vec!["L_a".to_string(), "L_b".to_string()];
    let (code, marks) = emit_standard_options(&items(), &labels, "end", 10);
    let expected = vec![
        OpCode::AddOption,
        OpCode::PushVariable,
        OpCode::PushFloat,
        OpCode::CallFunc,
        OpCode::PushString,
        OpCode::AddOption,
        OpCode::ShowOptions,
        OpCode::JumpIfFalse,
        OpCode::Pop,
        OpCode::PeekAndJump,
        OpCode::Pop,
        OpCode::Stop,
        OpCode::JumpTo,
        OpCode::Pop,
        OpCode::PushBool,
        OpCode::StoreVariable,
        OpCode::Pop,
        OpCode::JumpTo,
    ];
    assert_eq!(opcodes(&code), expected.iter().map(|o| o.number()).collect::<Vec<_>>());
    assert_eq!(text_of(&code[0].operands[0]), "line:a");
    assert_eq!(text_of(&code[0].operands[1]), "L_a");
    assert_eq!(float_of(&code[0].operands[2]), 0.0);
    assert!(matches!(code[0].operands[3], Operand::BoolValue(false)));
    assert_eq!(text_of(&code[1].operands[0]), "$Yarn.Internal.Once.line:b");
    assert_eq!(text_of(&code[3].operands[0]), "Bool.Not");
    assert_eq!(float_of(&code[5].operands[2]), 1.0);
    assert!(matches!(code[5].operands[3], Operand::BoolValue(true)));
    assert_eq!(text_of(&code[7].operands[0]), "end");
    assert_eq!(text_of(&code[15].operands[0]), "$Yarn.Internal.Once.line:b");
    assert_eq!(
        marks,
        vec![("L_a".to_string(), 20), ("L_b".to_string(), 23), ("end".to_string(), 28)]
    );
}

#[test]
fn line_groups_add_candidates_and_run_the_selected_line() {
    let mut group = items();
    group[1].condition = OptionCondition::If(vec![ins(OpCode::PushBool, vec![Operand::BoolValue(true)])], 2);
    group[1].text_code = vec![];
    group[1].expression_count = 0;
    group[0].body = vec![];
    let labels = vec!["L_a".to_string(), "L_b".to_string()];
    let (code, marks) = emit_line_group_saliency(&group, &labels, "end", 0);
    let expected = vec![
        OpCode::PushBool,
        OpCode::AddSaliencyCandidate,
        OpCode::PushBool,
        OpCode::AddSaliencyCandidate,
        OpCode::SelectSaliencyCandidate,
        OpCode::JumpIfFalse,
        OpCode::Pop,
        OpCode::PeekAndJump,
        OpCode::Pop,
        OpCode::RunLine,
        OpCode::JumpTo,
        OpCode::Pop,
        OpCode::RunLine,
        OpCode::JumpTo,
    ];
    assert_eq!(opcodes(&code), expected.iter().map(|o| o.number()).collect::<Vec<_>>());
    assert_eq!(float_of(&code[1].operands[1]), 0.0);
    assert_eq!(text_of(&code[1].operands[2]), "L_a");
    assert_eq!(float_of(&code[3].operands[1]), 3.0);
    assert_eq!(text_of(&code[9].operands[0]), "line:a");
    assert_eq!(marks, vec![("L_a".to_string(), 8), ("L_b".to_string(), 11), ("end".to_string(), 14)]);
}
