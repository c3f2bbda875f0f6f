use yarnspinner::cycles::{detect_cyclic_nodes, find_cycles, sorted_names};
use yarnspinner::diagnostics::{DiagnosticSeverity, Position};
use yarnspinner::program::{Instruction, Node, OpCode, Operand, Program};
use yarnspinner::node_groups::{NodeGroup, NodeGroupMember};
use yarnspinner::node_references::{
    detect_unreferenced_nodes, header_match, references_name, undefined_references, validate_undefined_node_references,
};
use yarnspinner::string_table::{validate_shadow_lines, StringInfo};
use yarnspinner::unused_variables::{check_unused_variables, mentions_name, used_outside_declarations, DeclaredVariable};

fn file(name: &str, source: &str) -> (String, String) {
    (name.to_string(), source.to_string())
}

#[test]
fn jumps_to_missing_nodes_are_reported() {
    let files = vec![file("a.yarn", "title: Start\n---\n<<jump Nowhere>>\n<<detour Start>>\n<<jump {$x}>>\n===\n")];
    let d = validate_undefined_node_references(&vec!["Start".to_string()], &files).unwrap();
    assert_eq!(d.len(), 1);
    assert_eq!(d[0].message, "Jump to undefined node: 'Nowhere'");
    assert_eq!(d[0].file_name.as_deref(), Some("a.yarn"));
    assert_eq!(d[0].range, Some((Position { line: 2, character: 0 }, Position { line: 2, character: 16 })));
    assert_eq!(d[0].severity, DiagnosticSeverity::Warning);
    assert_eq!(d[0].code.as_deref(), Some("YS0012"));
}

#[test]
fn unreferenced_nodes_are_reported_at_their_title() {
    let source = "title: Start\n---\n<<jump Middle>>\n===\ntitle: Middle\n---\n-> Go [[End]]\n===\ntitle: Lonely // note\n---\nHi\n===\n";
    let files = vec![file("a.yarn", source)];
    let nodes = vec!["Start".to_string(), "Middle".to_string(), "End".to_string(), "Lonely".to_string(), "Ghost".to_string()];
    let d = detect_unreferenced_nodes(&nodes, &files).unwrap();
    let messages: Vec<&str> = d.iter().map(|x| x.message.as_str()).collect();
    assert_eq!(messages, vec!["Node 'Start' is never referenced", "Node 'Lonely' is never referenced", "Node 'Ghost' is never referenced"]);
    assert_eq!(d[0].range, Some((Position { line: 0, character: 7 }, Position { line: 0, character: 12 })));
    assert_eq!(d[1].range, Some((Position { line: 8, character: 7 }, Position { line: 8, character: 13 })));
    assert_eq!(d[2].file_name.as_deref(), Some("<input>"));
    assert_eq!(d[2].range, None);
    assert_eq!(d[0].code.as_deref(), Some("YS0009"));
}

#[test]
fn with_no_references_every_node_may_be_an_entry_point() {
    let files = vec![file("a.yarn", "title: Start\n---\nHi\n===\n")];
    let d = detect_unreferenced_nodes(&vec!["Start".to_string()], &files).unwrap();
    assert!(d.is_empty());
}

fn declared(name: &str) -> DeclaredVariable {
    DeclaredVariable {
        name: name.to_string(),
        is_implicit: false,
        is_inline_expansion: false,
        is_function: false,
        source_file: Some("a.yarn".to_string()),
        range: Some((Position { line: 1, character: 0 }, Position { line: 1, character: 20 })),
    }
}

#[test]
fn declared_but_unused_variables_are_reported() {
    let source = "title: Start\n---\n<<declare $used = 1>>\n<<declare $unused = 2>>\n<<declare $in_when = true>>\n{$used}\n===\n";
    let files = vec![file("a.yarn", source)];
    let groups = vec![NodeGroup {
        title: "G".to_string(),
        members: vec![NodeGroupMember { unique_name: "G.0".to_string(), when_expressions: vec!["$in_when".to_string()] }],
    }];
    let mut implicit = declared("$implicit");
    implicit.is_implicit = true;
    let decls = vec![declared("$used"), declared("$unused"), declared("$in_when"), implicit, declared("$Yarn.Internal.x")];
    let d = check_unused_variables(&decls, &files, &groups).unwrap();
    assert_eq!(d.len(), 1);
    assert_eq!(d[0].message, "Variable '$unused' is declared but never used");
    assert_eq!(d[0].severity, DiagnosticSeverity::Warning);
    assert_eq!(d[0].code.as_deref(), Some("YS0010"));
    assert_eq!(d[0].range, Some((Position { line: 1, character: 0 }, Position { line: 1, character: 20 })));
}

fn info(text: &str, shadow: Option<&str>) -> StringInfo {
    StringInfo { text: text.to_string(), file_name: "a.yarn".to_string(), shadow_line_id: shadow.map(|s| s.to_string()) }
}

#[test]
fn shadow_lines_must_match_their_source() {
    let table = vec![
        ("line:a".to_string(), info("Hello", None)),
        ("line:b".to_string(), info("Hi {0}", None)),
        ("line:c".to_string(), info("Hello", Some("line:a"))),
        ("line:d".to_string(), info("Bye", Some("line:a"))),
        ("line:e".to_string(), info("Hi {0}", Some("line:b"))),
        ("line:f".to_string(), info("x", Some("line:zzz"))),
    ];
    let d = validate_shadow_lines(&table);
    let codes: Vec<&str> = d.iter().map(|x| x.code.as_deref().unwrap()).collect();
    assert_eq!(codes, vec!["YS0044", "YS0043", "YS0042"]);
    assert_eq!(d[0].message, "Shadow lines must have the same text as their source lines");
    assert_eq!(d[1].message, "Shadow lines must not have expressions");
    assert_eq!(d[2].message, "\"line:zzz\" is not a known line ID.");
}

fn jump_node(name: &str, targets: &[(&str, OpCode)]) -> Node {
    let mut instructions = Vec::new();
    for (t, op) in targets {
        instructions.push(Instruction { opcode: OpCode::PushString.number(), operands: vec![Operand::StringValue(t.to_string())] });
        instructions.push(Instruction { opcode: op.number(), operands: vec![] });
    }
    instructions.push(Instruction { opcode: OpCode::Stop.number(), operands: vec![] });
    Node { name: name.to_string(), instructions, labels: vec![], tags: vec![] }
}

#[test]
fn names_are_sorted_once_each() {
    let nodes = vec![jump_node("b", &[]), jump_node("a", &[]), jump_node("b", &[]), jump_node("C", &[])];
    assert_eq!(sorted_names(&nodes), vec!["C", "a", "b"]);
}

#[test]
fn the_search_reports_each_cycle_once() {
    // 0 -> 1 -> 2 -> 0, 2 -> 1, 3 -> 3
    let adj = vec![vec![1], vec![2], vec![0, 1], vec![3]];
    assert_eq!(find_cycles(&adj), vec![vec![0, 1, 2], vec![1, 2], vec![3]]);
    assert_eq!(find_cycles(&vec![vec![1], vec![]]), Vec::<Vec<usize>>::new());
}

#[test]
fn cyclic_jumps_are_reported_at_the_least_title() {
    let program = Program {
        nodes: vec![
            jump_node("Start", &[("Loop", OpCode::RunNode)]),
            jump_node("Loop", &[("Start", OpCode::DetourToNode), ("Missing", OpCode::RunNode)]),
            jump_node("Alone", &[]),
        ],
        initial_values: vec![],
    };
    let files = vec![file("a.yarn", "title: Start\n---\n<<jump Loop>>\n===\ntitle: Loop // the loop\n---\n<<detour Start>>\n===\n")];
    let d = detect_cyclic_nodes(&program, &files).unwrap();
    assert_eq!(d.len(), 1);
    assert_eq!(d[0].message, "Cyclic dependency detected: Loop -> Start");
    assert_eq!(d[0].code.as_deref(), Some("YS0015"));
    assert_eq!(d[0].severity, DiagnosticSeverity::Warning);
    assert_eq!(d[0].file_name.as_deref(), Some("a.yarn"));
    assert_eq!(d[0].range, Some((Position { line: 4, character: 7 }, Position { line: 4, character: 11 })));
    let single = Program { nodes: vec![jump_node("Self", &[("Self", OpCode::RunNode)])], initial_values: vec![] };
    assert!(detect_cyclic_nodes(&single, &files).unwrap().is_empty());
}

fn group(a: usize, b: usize, t: &str) -> Option<(usize, usize, String)> {
    Some((a, b, t.to_string()))
}

#[test]
fn matches_of_jumps_are_judged_by_the_known_nodes() {
    let source = "<<jump Nowhere>>\n<<jump Start>>";
    let caps = vec![
        vec![group(0, 16, "<<jump Nowhere>>"), group(7, 14, "Nowhere")],
        vec![group(17, 31, "<<jump Start>>"), group(24, 29, "Start")],
    ];
    let d = undefined_references(&vec!["Start".to_string()], &"a.yarn".to_string(), source, &caps);
    assert_eq!(d.len(), 1);
    assert_eq!(d[0].message, "Jump to undefined node: 'Nowhere'");
    assert_eq!(d[0].code.as_deref(), Some("YS0012"));
    assert_eq!(d[0].range, Some((Position { line: 0, character: 0 }, Position { line: 0, character: 16 })));
}

#[test]
fn matches_of_references_and_titles_are_read() {
    let caps = vec![vec![group(0, 9, "[[Other]]"), None, group(2, 7, "Other")]];
    assert!(references_name(&caps, "Other"));
    assert!(!references_name(&caps, "Start"));
    let titles = vec![vec![group(0, 12, "title: Start"), None, group(7, 12, " Start ")]];
    assert_eq!(header_match(&titles, 2, "Start"), Some((7, 12)));
    assert_eq!(header_match(&titles, 2, "End"), None);
}

#[test]
fn matches_of_variables_are_read() {
    let found = vec![(10, 14, "$gold".to_string()), (30, 34, "$gold".to_string())];
    let declares = vec![vec![group(0, 14, "<<declare $gold"), group(10, 14, "$gold")]];
    assert!(used_outside_declarations(&found, &declares, "$gold"));
    assert!(!used_outside_declarations(&found[..1].to_vec(), &declares, "$gold"));
    assert!(mentions_name(&found, "$gold"));
    assert!(!mentions_name(&found, "$silver"));
}
