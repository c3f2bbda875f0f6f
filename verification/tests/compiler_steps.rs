use yarnspinner::analyser::{CompiledProgramAnalyser, DiagnosisSeverity, VariableLister};
use yarnspinner::diagnostics::Position;
use yarnspinner::program::{Instruction, Node, OpCode, Operand, Program};
use yarnspinner::smart_loops::{dependency_closure, dependents_of, detect_smart_variable_loops, DeclaredSmartVariable};
use yarnspinner::structured_command::{count_arguments, parse_structured_command_tokens, recognition_error, CommandTokenKind};
use yarnspinner::types::{FunctionType, Type};
use yarnspinner::when_headers::{tokenize_when, type_check_when_headers, WhenToken};

use CommandTokenKind::{BinaryOperator, Dot, Identifier, LeftParen, Minus, Not, Other, RightParen};

#[test]
fn operators_join_arguments() {
    assert_eq!(count_arguments(&vec![Identifier, Other, BinaryOperator, Other]), 1);
    assert_eq!(count_arguments(&vec![Identifier, Other, Other]), 2);
    assert_eq!(count_arguments(&vec![Identifier, Other, Minus, Other, BinaryOperator, Other]), 1);
    assert_eq!(count_arguments(&vec![Identifier]), 0);
    assert_eq!(count_arguments(&vec![]), 0);
}

#[test]
fn calls_and_members_are_one_argument_each() {
    let tokens = vec![
        Identifier, Identifier, LeftParen, Other, Other, Other, RightParen, Dot, Identifier, Identifier, Dot, Identifier,
    ];
    assert_eq!(count_arguments(&tokens), 3);
    assert_eq!(count_arguments(&vec![Identifier, Minus, Other]), 1);
    assert_eq!(count_arguments(&vec![Identifier, Not, Not, Other, Other]), 2);
    assert_eq!(count_arguments(&vec![Identifier, LeftParen, Other, BinaryOperator, Other, RightParen, BinaryOperator, Other]), 1);
    assert_eq!(count_arguments(&vec![Identifier, LeftParen, LeftParen, Other]), 1);
}

#[test]
fn parse_result_names_the_command() {
    let tokens = vec![(Identifier, "wait".to_string()), (Other, "2".to_string())];
    let r = parse_structured_command_tokens(&tokens, vec![recognition_error('{')]);
    assert_eq!(r.command_name.as_deref(), Some("wait"));
    assert_eq!(r.argument_count, 1);
    assert_eq!(r.diagnostics.len(), 1);
    assert_eq!(r.diagnostics[0].message, "token recognition error at: '{'");
    assert_eq!(r.diagnostics[0].file_name.as_deref(), Some("<structured_command>"));
    let r = parse_structured_command_tokens(&vec![], vec![]);
    assert_eq!(r.command_name, None);
    assert_eq!(r.argument_count, 0);
}

fn number_function() -> FunctionType {
    let mut f = FunctionType::new();
    f.add_parameter(Some(Type::Number));
    f.set_return_type(Some(Type::Boolean));
    f
}

#[test]
fn when_expressions_are_tokenized() {
    let expr: Vec<char> = "f($x, -2.5) and true \"s\"".chars().collect();
    let t = tokenize_when(&expr);
    assert_eq!(
        t,
        vec![
            WhenToken::Ident(0, 1),
            WhenToken::LParen,
            WhenToken::Ident(2, 4),
            WhenToken::Comma,
            WhenToken::Num(6),
            WhenToken::RParen,
            WhenToken::Ident(12, 15),
            WhenToken::Bool(16),
            WhenToken::Str(21),
            WhenToken::Eof,
        ]
    );
}

#[test]
fn when_header_calls_with_wrong_argument_count_are_reported() {
    let files = vec![("test.yarn".to_string(), "title: A\nwhen: f(1, 2)\n---\n===".to_string())];
    let decls = vec![("f".to_string(), number_function())];
    let mut diagnostics = Vec::new();
    type_check_when_headers(&files, &decls, &mut diagnostics);
    assert_eq!(diagnostics.len(), 1);
    let d = &diagnostics[0];
    assert_eq!(d.message, "Function \"f\" expects 1 parameter, but received 2");
    assert_eq!(d.code.as_deref(), Some("YS0013"));
    assert_eq!(d.file_name.as_deref(), Some("test.yarn"));
    assert_eq!(d.range, Some((Position { line: 1, character: 6 }, Position { line: 1, character: 7 })));
}

#[test]
fn when_header_arguments_of_the_wrong_type_are_reported() {
    let files = vec![("test.yarn".to_string(), "title: A\n  when:   f(\"x\") and f(1)\n===".to_string())];
    let decls = vec![("f".to_string(), number_function())];
    let mut diagnostics = Vec::new();
    type_check_when_headers(&files, &decls, &mut diagnostics);
    assert_eq!(diagnostics.len(), 1);
    let d = &diagnostics[0];
    assert_eq!(d.message, "\"x\" (String) is not convertible to Number");
    assert_eq!(d.code.as_deref(), Some("YS0050"));
    assert_eq!(d.range, Some((Position { line: 1, character: 12 }, Position { line: 1, character: 15 })));
}

#[test]
fn when_headers_without_declared_functions_are_not_checked() {
    let files = vec![("test.yarn".to_string(), "when: f(1, 2)".to_string())];
    let mut diagnostics = Vec::new();
    type_check_when_headers(&files, &vec![], &mut diagnostics);
    assert!(diagnostics.is_empty());
    let decls = vec![("g".to_string(), number_function())];
    type_check_when_headers(&files, &decls, &mut diagnostics);
    assert!(diagnostics.is_empty());
}

fn declared(name: &str, refs: &[&str]) -> DeclaredSmartVariable {
    DeclaredSmartVariable {
        name: name.to_string(),
        references: refs.iter().map(|r| r.to_string()).collect(),
        file_name: format!("{}.yarn", &name[1..]),
    }
}

fn sorted(mut v: Vec<String>) -> Vec<String> {
    v.sort();
    v
}

#[test]
fn smart_variable_loops_are_found() {
    let smart: Vec<String> = ["$a", "$b", "$c"].iter().map(|s| s.to_string()).collect();
    let entries = vec![declared("$a", &["$b"]), declared("$b", &["$a", "$x"]), declared("$c", &["$y"])];
    let r = detect_smart_variable_loops(&smart, &entries);
    assert!(r.early_break);
    assert_eq!(r.diagnostics.len(), 2);
    assert_eq!(
        r.diagnostics[0].message,
        "Smart variables cannot contain reference loops (the smart variable $a references itself through a chain of other smart variables)"
    );
    assert_eq!(r.diagnostics[0].file_name.as_deref(), Some("a.yarn"));
    assert_eq!(r.diagnostics[1].file_name.as_deref(), Some("b.yarn"));
    assert_eq!(r.diagnostics[1].code.as_deref(), Some("YS0045"));
    assert_eq!(r.dependencies.len(), 3);
    assert_eq!(r.dependencies[0].0, "$a");
    assert_eq!(sorted(r.dependencies[0].1.clone()), vec!["$b".to_string(), "$x".to_string()]);
    assert_eq!(sorted(r.dependencies[1].1.clone()), vec!["$a".to_string(), "$x".to_string()]);
    assert_eq!(r.dependencies[2].1, vec!["$y".to_string()]);
    let inverse = dependents_of(&r.dependencies);
    let x = inverse.iter().find(|(k, _)| k == "$x").unwrap();
    assert_eq!(sorted(x.1.clone()), vec!["$a".to_string(), "$b".to_string()]);
    let y = inverse.iter().find(|(k, _)| k == "$y").unwrap();
    assert_eq!(y.1, vec!["$c".to_string()]);
    let x = r.dependents.iter().find(|(k, _)| k == "$x").unwrap();
    assert_eq!(sorted(x.1.clone()), vec!["$a".to_string(), "$b".to_string()]);
    let c_dependents = r.dependents.iter().find(|(k, _)| k == "$c");
    assert!(c_dependents.is_none());
}

#[test]
fn dependencies_run_through_smart_variables_only() {
    let smart: Vec<String> = ["$a", "$b"].iter().map(|s| s.to_string()).collect();
    // $n is not smart, so what its declaration references is not followed.
    let entries = vec![declared("$a", &["$b", "$n"]), declared("$b", &["$c"]), declared("$n", &["$z"])];
    let r = detect_smart_variable_loops(&smart, &entries);
    assert!(!r.early_break);
    assert!(r.diagnostics.is_empty());
    assert_eq!(sorted(r.dependencies[0].1.clone()), vec!["$b".to_string(), "$c".to_string(), "$n".to_string()]);
    assert_eq!(sorted(dependency_closure(&smart, &entries, "$b")), vec!["$c".to_string()]);
}

fn instruction(op: OpCode, operand: Option<&str>) -> Instruction {
    Instruction { opcode: op.number(), operands: operand.map(|s| Operand::StringValue(s.to_string())).into_iter().collect() }
}

#[test]
fn variable_lister_lists_each_variable_once() {
    let node = Node {
        name: "Start".to_string(),
        instructions: vec![
            instruction(OpCode::PushVariable, Some("$a")),
            instruction(OpCode::StoreVariable, Some("$b")),
            instruction(OpCode::PushString, Some("$c")),
            instruction(OpCode::PushVariable, Some("$a")),
        ],
        labels: vec![],
        tags: vec![],
    };
    let program = Program { nodes: vec![node], initial_values: vec![] };
    let mut lister = VariableLister::new();
    lister.diagnose(&program);
    lister.diagnose(&program);
    let notes = lister.collect_diagnoses();
    let messages: Vec<_> = notes.iter().map(|d| d.message.clone()).collect();
    assert_eq!(messages, vec!["Script uses variable $a".to_string(), "Script uses variable $b".to_string()]);
    assert!(notes.iter().all(|d| d.severity == DiagnosisSeverity::Note));
}
