use yarnspinner::diagnostics::{DiagnosticSeverity, Position};
use yarnspinner::group_members::{
    declare_when_expression_variables, find_node_groups, find_tracking_nodes, get_node_unique_name, NodeEntry,
};
use yarnspinner::node_groups::{
    compile_condition, compile_node_groups, compile_when, generate_hub_node, literal_bits, member_complexity, tokenize,
    GroupToken, NodeGroup, NodeGroupMember,
};
use yarnspinner::node_names::{validate_unique_node_names, validate_unique_node_subtitles, SubtitledNode, TitledNode};
use yarnspinner::program::{Instruction, Node, OpCode, Operand, Program};
use yarnspinner::reachability::{detect_unreachable_code, node_has_unreachable_code};

fn chars(s: &str) -> Vec<char> {
    s.chars().collect()
}

fn float_of(i: &Instruction) -> f32 {
    match &i.operands[0] {
        Operand::FloatValue(b) => f32::from_bits(b.0),
        other => panic!("not a number: {:?}", other),
    }
}

fn string_of(i: &Instruction, k: usize) -> String {
    match &i.operands[k] {
        Operand::StringValue(s) => s.clone(),
        other => panic!("not a string: {:?}", other),
    }
}

fn describe(code: &[Instruction]) -> Vec<String> {
    code.iter()
        .map(|i| {
            let op = OpCode::try_from_i32(i.opcode).unwrap();
            match op {
                OpCode::PushFloat => format!("float {}", float_of(i)),
                OpCode::PushBool => match &i.operands[0] {
                    Operand::BoolValue(b) => format!("bool {}", b),
                    _ => panic!(),
                },
                OpCode::PushVariable => format!("var {}", string_of(i, 0)),
                OpCode::StoreVariable => format!("store {}", string_of(i, 0)),
                OpCode::PushString => format!("string {}", string_of(i, 0)),
                OpCode::CallFunc => format!("call {}", string_of(i, 0)),
                OpCode::JumpIfFalse => format!("jump-if-false {}", string_of(i, 0)),
                OpCode::AddSaliencyCandidate => {
                    let c = match &i.operands[1] {
                        Operand::FloatValue(b) => f32::from_bits(b.0),
                        _ => panic!(),
                    };
                    format!("candidate {} {} {}", string_of(i, 0), c, string_of(i, 2))
                },
                other => format!("{:?}", other),
            }
        })
        .collect()
}

#[test]
fn conditions_are_tokenized() {
    let s = chars("$gold >= 10 && not visited(\"x\") || 2.5");
    let t = tokenize(&s);
    assert_eq!(
        t,
        vec![
            GroupToken::Var(1, 5),
            GroupToken::Ge,
            GroupToken::Num(9, 11),
            GroupToken::And,
            GroupToken::Not,
            GroupToken::Ident(19, 26),
            GroupToken::LParen,
            GroupToken::Ident(28, 29),
            GroupToken::RParen,
            GroupToken::Or,
            GroupToken::Num(35, 38),
            GroupToken::Eof,
        ]
    );
    assert_eq!(tokenize(&chars("always false or and")), vec![
        GroupToken::Bool(true),
        GroupToken::Bool(false),
        GroupToken::Or,
        GroupToken::And,
        GroupToken::Eof
    ]);
}

#[test]
fn number_literals_round_to_nearest() {
    let s = chars("0.1 3 1.5.2 . 12.");
    assert_eq!(literal_bits(&s, 0, 3), Some(0.1f32.to_bits()));
    assert_eq!(literal_bits(&s, 4, 5), Some(3.0f32.to_bits()));
    assert_eq!(literal_bits(&s, 6, 11), Some(0));
    assert_eq!(literal_bits(&s, 12, 13), Some(0));
    assert_eq!(literal_bits(&s, 14, 17), Some(12.0f32.to_bits()));
    let long = chars("0.12345678901234567890123");
    assert_eq!(literal_bits(&long, 0, long.len()), None);
}

#[test]
fn a_comparison_compiles_to_a_number_call() {
    let code = compile_condition(&chars("$gold >= 10")).unwrap();
    assert_eq!(describe(&code), vec!["var $gold", "float 10", "float 2", "call Number.GreaterThanOrEqualTo"]);
    let code = compile_condition(&chars("$a == true")).unwrap();
    assert_eq!(describe(&code), vec!["var $a", "bool true", "float 2", "call Bool.EqualTo"]);
}

#[test]
fn operators_keep_their_precedence() {
    let code = compile_condition(&chars("1 + 2 * 3 > 4 or not $x and f($y, 2)")).unwrap();
    assert_eq!(
        describe(&code),
        vec![
            "float 1",
            "float 2",
            "float 3",
            "float 2",
            "call Number.Multiply",
            "float 2",
            "call Number.Add",
            "float 4",
            "float 2",
            "call Number.GreaterThan",
            "var $x",
            "float 1",
            "call Bool.Not",
            "var $y",
            "float 2",
            "float 2",
            "call f",
            "float 2",
            "call Bool.And",
            "float 2",
            "call Bool.Or",
        ]
    );
    let code = compile_condition(&chars("-(1 - 2) / 3")).unwrap();
    assert_eq!(
        describe(&code),
        vec![
            "float 1",
            "float 2",
            "float 2",
            "call Number.Subtract",
            "float 1",
            "call Number.UnaryMinus",
            "float 3",
            "float 2",
            "call Number.Divide",
        ]
    );
}

#[test]
fn a_bare_name_reads_as_true() {
    let code = compile_condition(&chars("something")).unwrap();
    assert_eq!(describe(&code), vec!["bool true"]);
}

#[test]
fn when_headers_join_with_and() {
    let headers = vec!["always".to_string(), " once ".to_string(), "once if $a".to_string()];
    let code = compile_when(&headers, "G.0").unwrap();
    assert_eq!(
        describe(&code),
        vec![
            "var $Yarn.Internal.Content.ViewCount.G.0",
            "float 0",
            "float 2",
            "call Number.EqualTo",
            "var $Yarn.Internal.Content.ViewCount.G.0",
            "float 0",
            "float 2",
            "call Number.EqualTo",
            "var $a",
            "float 2",
            "call Bool.And",
            "float 2",
            "call Bool.And",
        ]
    );
    let code = compile_when(&vec!["always".to_string()], "G.0").unwrap();
    assert_eq!(describe(&code), vec!["bool true"]);
    let code = compile_when(&vec![], "G.0").unwrap();
    assert_eq!(describe(&code), vec!["bool true"]);
}

#[test]
fn complexity_counts_conditions_and_operators() {
    let headers = vec!["always".to_string(), "once".to_string(), "once if $a and $b".to_string(), "$x or $y or $z".to_string()];
    assert_eq!(member_complexity(&headers), Some(7.0f32.to_bits()));
    assert_eq!(member_complexity(&vec!["always".to_string()]), Some(0));
}

fn member(name: &str, headers: &[&str]) -> NodeGroupMember {
    NodeGroupMember { unique_name: name.to_string(), when_expressions: headers.iter().map(|h| h.to_string()).collect() }
}

#[test]
fn hub_offers_every_member_and_detours_into_the_winner() {
    let members = vec![member("G.a", &["once"]), member("G.b", &["always"])];
    let hub = generate_hub_node("G", &members, Some("$Yarn.Internal.Visiting.G")).unwrap();
    assert_eq!(hub.name, "G");
    assert_eq!(hub.tags, vec!["yarn_internal_node_group".to_string()]);
    let d = describe(&hub.instructions);
    assert_eq!(
        d,
        vec![
            "var $Yarn.Internal.Visiting.G",
            "float 1",
            "float 2",
            "call Number.Add",
            "store $Yarn.Internal.Visiting.G",
            "Pop",
            "var $Yarn.Internal.Content.ViewCount.G.a",
            "float 0",
            "float 2",
            "call Number.EqualTo",
            "candidate G.a 1 L_Cand_0",
            "bool true",
            "candidate G.b 0 L_Cand_1",
            "SelectSaliencyCandidate",
            "jump-if-false L_NoContent",
            "Pop",
            "PeekAndJump",
            "Pop",
            "string G.a",
            "DetourToNode",
            "Return",
            "Pop",
            "string G.b",
            "DetourToNode",
            "Return",
            "Pop",
            "Return",
        ]
    );
    let labels: Vec<(String, i32)> = hub.labels.iter().map(|l| (l.name.clone(), l.index)).collect();
    assert_eq!(
        labels,
        vec![
            ("Start".to_string(), 0),
            ("L_Cand_0".to_string(), 17),
            ("L_Cand_1".to_string(), 21),
            ("L_NoContent".to_string(), 25),
        ]
    );
}

#[test]
fn an_untracked_hub_has_no_visit_code() {
    let hub = generate_hub_node("H", &vec![member("H.x", &["true"])], None).unwrap();
    assert_eq!(describe(&hub.instructions)[0], "bool true");
}

#[test]
fn hubs_replace_nodes_of_their_name() {
    let mut program = Program {
        nodes: vec![
            Node { name: "G".to_string(), instructions: vec![], labels: vec![], tags: vec![] },
            Node { name: "Other".to_string(), instructions: vec![], labels: vec![], tags: vec![] },
        ],
        initial_values: vec![],
    };
    let groups = vec![
        NodeGroup { title: "G".to_string(), members: vec![member("G.0", &["always"])] },
        NodeGroup { title: "K".to_string(), members: vec![member("K.0", &["once"])] },
    ];
    assert!(compile_node_groups(&mut program, &groups, &vec!["K".to_string()]));
    let names: Vec<&str> = program.nodes.iter().map(|n| n.name.as_str()).collect();
    assert_eq!(names, vec!["G", "Other", "K"]);
    assert_eq!(program.nodes[0].tags, vec!["yarn_internal_node_group".to_string()]);
    assert_eq!(describe(&program.nodes[2].instructions)[0], "var $Yarn.Internal.Visiting.K");
    let bad = vec![NodeGroup { title: "B".to_string(), members: vec![member("B.0", &["0.1234567890123456789012"])] }];
    assert!(!compile_node_groups(&mut program, &bad, &vec![]));
    assert_eq!(program.nodes.len(), 3);
}

fn entry(file: &str, title: &str, when: &[&str], subtitle: Option<&str>, line: isize) -> NodeEntry {
    NodeEntry {
        file_name: file.to_string(),
        title: title.to_string(),
        when_expressions: when.iter().map(|w| w.to_string()).collect(),
        subtitle: subtitle.map(|s| s.to_string()),
        start_line: line,
    }
}

#[test]
fn unique_names_use_the_subtitle_or_a_checksum() {
    assert_eq!(get_node_unique_name("a.yarn", "Title", Some("Sub"), 3), "Title.Sub");
    let description = "a.yarnTitle3";
    let bytes = crc32fast::hash(description.as_bytes()).to_le_bytes();
    let expected = format!("Title.{:02x}{:02x}{:02x}{:02x}", bytes[0], bytes[1], bytes[2], bytes[3]);
    assert_eq!(get_node_unique_name("a.yarn", "Title", None, 3), expected);
    assert_eq!(get_node_unique_name("a.yarn", "Title", Some(""), 3), expected);
    let bytes = crc32fast::hash("a.yarnTitle-1".as_bytes()).to_le_bytes();
    let expected = format!("Title.{:02x}{:02x}{:02x}{:02x}", bytes[0], bytes[1], bytes[2], bytes[3]);
    assert_eq!(get_node_unique_name("a.yarn", "Title", None, -1), expected);
}

#[test]
fn a_title_is_a_group_where_all_its_nodes_have_when() {
    let entries = vec![
        entry("a.yarn", "G", &["once"], Some("one"), 1),
        entry("a.yarn", "Plain", &[], None, 5),
        entry("b.yarn", "G", &["always"], Some("two"), 1),
        entry("a.yarn", "Mixed", &["once"], None, 9),
        entry("a.yarn", "Mixed", &[], None, 12),
        entry("a.yarn", "G", &["$x"], Some("three"), 20),
    ];
    let (groups, overrides) = find_node_groups(&entries);
    assert_eq!(groups.len(), 1);
    assert_eq!(groups[0].title, "G");
    let names: Vec<&str> = groups[0].members.iter().map(|m| m.unique_name.as_str()).collect();
    assert_eq!(names, vec!["G.one", "G.two", "G.three"]);
    assert_eq!(groups[0].members[2].when_expressions, vec!["$x".to_string()]);
    assert_eq!(overrides.len(), 2);
    assert_eq!((overrides[0].file_name.as_str(), overrides[0].title.as_str()), ("a.yarn", "G"));
    assert_eq!(overrides[0].unique_names, vec!["G.one".to_string(), "G.three".to_string()]);
    assert_eq!(overrides[1].unique_names, vec!["G.two".to_string()]);
}

#[test]
fn when_variables_are_declared_once() {
    let groups = vec![
        NodeGroup { title: "G".to_string(), members: vec![member("G.0", &["$a and $b"]), member("G.1", &["$b or $c"])] },
        NodeGroup { title: "H".to_string(), members: vec![member("H.0", &["once if $a", "$d"])] },
    ];
    let names = declare_when_expression_variables(&groups, &vec!["$c".to_string()]);
    assert_eq!(names, vec!["$a", "$b", "$d"]);
}

#[test]
fn tracking_spreads_between_hubs_and_members() {
    let groups = vec![
        NodeGroup { title: "G".to_string(), members: vec![member("G.0", &["once"]), member("G.1", &["once"])] },
        NodeGroup { title: "H".to_string(), members: vec![member("H.0", &["once"])] },
    ];
    let mut r = find_tracking_nodes(&vec!["G".to_string(), "H.0".to_string(), "X".to_string()], &vec!["X".to_string()], &groups);
    r.sort();
    assert_eq!(r, vec!["G", "G.0", "G.1", "H", "H.0"]);
}

fn titled(title: &str, has_when: bool, line: usize) -> TitledNode {
    TitledNode {
        title: title.to_string(),
        file_name: "f.yarn".to_string(),
        has_when,
        start: Position { line, character: 0 },
        end: Position { line, character: 7 + title.len() },
        context: format!("title: {}", title),
    }
}

#[test]
fn duplicate_titles_are_reported() {
    let nodes = vec![titled("A", false, 0), titled("B", true, 4), titled("A", false, 8), titled("B", false, 12), titled("C", true, 16), titled("C", true, 20)];
    let d = validate_unique_node_names(&nodes, &vec!["C".to_string()]);
    assert_eq!(d.len(), 3);
    assert_eq!(d[0].message, "More than one node is named A");
    assert_eq!(d[0].code.as_deref(), Some("YS0011"));
    assert_eq!(d[1].range, Some((Position { line: 8, character: 0 }, Position { line: 8, character: 8 })));
    assert_eq!(
        d[2].message,
        "All nodes in the group 'B' must have a 'when' clause (use 'when: always' if you want this node to not have any conditions)."
    );
    assert_eq!(d[2].code.as_deref(), Some("YS0031"));
    assert_eq!(d[2].severity, DiagnosticSeverity::Error);
}

fn subtitled(file: &str, title: &str, subtitle: &str) -> SubtitledNode {
    SubtitledNode {
        title: title.to_string(),
        subtitle: subtitle.to_string(),
        file_name: file.to_string(),
        start: Position { line: 0, character: 0 },
        end: Position { line: 0, character: 10 },
        context: format!("subtitle: {}", subtitle),
    }
}

#[test]
fn duplicate_subtitles_within_a_file_are_reported() {
    let headers = vec![
        subtitled("a", "G", "x"),
        subtitled("a", "G", "y"),
        subtitled("b", "G", "x"),
        subtitled("a", "G", "x"),
        subtitled("a", "N", "x"),
        subtitled("a", "N", "x"),
    ];
    let d = validate_unique_node_subtitles(&headers, &vec!["G".to_string()]);
    assert_eq!(d.len(), 2);
    assert_eq!(d[0].message, "Node group 'G' has more than one node with the subtitle 'x'.");
    assert_eq!(d[0].code.as_deref(), Some("YS0032"));
    assert_eq!(d[1].file_name.as_deref(), Some("a"));
}

fn ins(op: OpCode, operands: Vec<Operand>) -> Instruction {
    Instruction { opcode: op.number(), operands }
}

#[test]
fn code_after_a_return_is_unreachable() {
    let reachable = Node {
        name: "A".to_string(),
        instructions: vec![ins(OpCode::PushBool, vec![Operand::BoolValue(true)]), ins(OpCode::Stop, vec![])],
        labels: vec![],
        tags: vec![],
    };
    let unreachable = Node {
        name: "B".to_string(),
        instructions: vec![ins(OpCode::Return, vec![]), ins(OpCode::Stop, vec![])],
        labels: vec![],
        tags: vec![],
    };
    assert!(!node_has_unreachable_code(&reachable));
    assert!(node_has_unreachable_code(&unreachable));
    let d = detect_unreachable_code(&vec![reachable, unreachable], &vec!["main.yarn".to_string()]);
    assert_eq!(d.len(), 1);
    assert_eq!(d[0].message, "Unreachable code");
    assert_eq!(d[0].code.as_deref(), Some("YS0008"));
    assert_eq!(d[0].file_name.as_deref(), Some("main.yarn"));
    assert_eq!(d[0].severity, DiagnosticSeverity::Warning);
}
