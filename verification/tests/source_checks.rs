use yarnspinner::yarn_file::{generate_yarn_file_with_declarations, DeclarationEntry, DefaultValue};
use yarnspinner::enum_scan::{block_structure_error, scan_enum_blocks, RawValue};
use yarnspinner::diagnostics::{Diagnostic, DiagnosticSeverity, Position};
use yarnspinner::preview_features::{
    emit_preview_feature_diagnostics, has_block_once_statement, has_smart_variable_declaration, is_literal_expression,
    strip_type_annotation, YARNSPINNER_PROJECT_VERSION_3,
};
use yarnspinner::source_text::{extract_var_names, offset_to_line_col, strip_header_comment};
use yarnspinner::string_table::{check_markup, generate_formatted_text, get_hashtag_texts, FormattedTextPart};
use yarnspinner::validate_syntax::check_file_syntax;

fn chars(s: &str) -> Vec<char> {
    s.chars().collect()
}

fn summary(d: &Diagnostic) -> (String, Option<String>, DiagnosticSeverity, Option<(Position, Position)>) {
    (d.message.clone(), d.code.clone(), d.severity, d.range)
}

fn range(line: usize, from: usize, to: usize) -> Option<(Position, Position)> {
    Some((Position { line, character: from }, Position { line, character: to }))
}

#[test]
fn syntax_problems_in_node_bodies_are_reported() {
    let source = "title: Start\n---\nHello <<wait 1>>\n<<set $x to 1>> there\nset $x to 2\n<Hi>\nHey>>\n<<<wait>>\n<<if true>> fine\n-> option <<jump>>\n===\nset $y to 1";
    let d = check_file_syntax(source, "f.yarn");
    let got: Vec<_> = d.iter().map(summary).collect();
    let expected = vec![
        (
            "Command \"wait 1\" found following a line of dialogue. Commands should start on a new line.".to_string(),
            Some("YS0020".to_string()),
            DiagnosticSeverity::Error,
            range(2, 0, 16),
        ),
        (
            "Dialogue \"set $x to 1\" content found following a command. Commands should be on their own line.".to_string(),
            Some("YS0019".to_string()),
            DiagnosticSeverity::Warning,
            range(3, 0, 21),
        ),
        (
            "'set' command must be enclosed in '<<' and '>>'. Did you mean '<<set ...'?".to_string(),
            Some("YS0022".to_string()),
            DiagnosticSeverity::Warning,
            range(4, 0, 3),
        ),
        (
            "Line <Hi> has single '<' and '>' wrapping it. Did you mean to make this a command?".to_string(),
            Some("YS0048".to_string()),
            DiagnosticSeverity::Warning,
            range(5, 0, 4),
        ),
        (
            "Stray '>>' without matching '<<'. Did you forget to open the command?".to_string(),
            Some("YS0021".to_string()),
            DiagnosticSeverity::Warning,
            range(6, 3, 5),
        ),
        (
            "Stray '<' found before command 'wait'. Did you accidentally add extra chevrons?".to_string(),
            Some("YS0064".to_string()),
            DiagnosticSeverity::Warning,
            range(7, 0, 1),
        ),
    ];
    assert_eq!(got, expected);
    assert!(d.iter().all(|x| x.file_name.as_deref() == Some("f.yarn")));
}

#[test]
fn stray_closing_chevrons_after_a_command() {
    let d = check_file_syntax("---\n<<stop>>>\n===", "f.yarn");
    assert_eq!(d.len(), 1);
    assert_eq!(d[0].message, "Stray '>' found following command 'stop'. Did you accidentally add extra chevrons?");
    assert_eq!(d[0].code.as_deref(), Some("YS0064"));
}

#[test]
fn block_once_statements_are_found_in_bodies_only() {
    assert!(has_block_once_statement("---\n  <<once>>\n==="));
    assert!(has_block_once_statement("---\n<<once $x>>\n==="));
    assert!(has_block_once_statement("---\n<<once if $x>>\n==="));
    assert!(has_block_once_statement("title: A\n---\n<<once if $x>>\nhi\n<<endonce>>\n==="));
    assert!(!has_block_once_statement("<<once>>\n---\n==="));
    assert!(!has_block_once_statement("---\nHi <<once>>\n==="));
}

#[test]
fn smart_variables_are_declared_with_expressions() {
    assert!(has_smart_variable_declaration("<<declare $a = $b + 1>>"));
    assert!(has_smart_variable_declaration("x <<declare $a = f(2) as number>>"));
    assert!(!has_smart_variable_declaration("<<declare $a = -3.5>>"));
    assert!(!has_smart_variable_declaration("<<declare $a = \"hi\" as string>>"));
    assert!(!has_smart_variable_declaration("<<declare $a to 1>>"));
    assert!(is_literal_expression(&chars(" true ")));
    assert!(!is_literal_expression(&chars("1.2.3")));
    assert!(is_literal_expression(&chars("")));
    assert_eq!(strip_type_annotation(&chars("5 AS Number")), chars("5"));
    assert_eq!(strip_type_annotation(&chars("5 as text")), chars("5 as text"));
}

#[test]
fn preview_features_are_reported_per_feature() {
    let mut d = Vec::new();
    emit_preview_feature_diagnostics(2, true, false, "---\n<<once>>\n===\n<<declare $x = $y * 2>>", "f.yarn", 2, &mut d);
    let messages: Vec<_> = d.iter().map(|x| x.message.clone()).collect();
    let m = |f: &str| {
        format!("Language feature \"{f}\" is not available at language version 2; it requires version {YARNSPINNER_PROJECT_VERSION_3} or later")
    };
    assert_eq!(messages, vec![m("enums"), m("enums"), m("line groups"), m("'once' statements"), m("smart variables")]);
    assert!(d.iter().all(|x| x.code.as_deref() == Some("YS0036") && x.severity == DiagnosticSeverity::Error));
}

#[test]
fn variable_names_are_extracted() {
    assert_eq!(extract_var_names("$a + $b_2 * $ - $3x + $_c"), vec!["$a", "$b_2", "$_c"]);
    assert!(extract_var_names("no variables").is_empty());
}

#[test]
fn offsets_become_lines_and_columns() {
    let s = "ab\ncd\nef";
    assert_eq!(offset_to_line_col(s, 0), (0, 0));
    assert_eq!(offset_to_line_col(s, 4), (1, 1));
    assert_eq!(offset_to_line_col(s, 100), (2, 2));
    assert_eq!(offset_to_line_col("é\nx", 3), (1, 0));
}

#[test]
fn header_comments_are_stripped() {
    assert_eq!(strip_header_comment("value // comment"), "value");
    assert_eq!(strip_header_comment("/"), "/");
    assert_eq!(strip_header_comment("a/b"), "a/b");
}

#[test]
fn formatted_text_numbers_expressions() {
    let parts = vec![
        FormattedTextPart::Text(" A line with ".to_string()),
        FormattedTextPart::Expression,
        FormattedTextPart::Text(" many ".to_string()),
        FormattedTextPart::Expression,
        FormattedTextPart::Expression,
        FormattedTextPart::Text(" expressions ".to_string()),
    ];
    assert_eq!(generate_formatted_text(&parts), "A line with 0 many 12 expressions");
    assert_eq!(get_hashtag_texts(&vec![" line:a ".to_string(), "b".to_string()]), vec!["line:a", "b"]);
}

#[test]
fn unbalanced_markup_is_found() {
    assert_eq!(check_markup("plain [b]bold[/b] text"), None);
    assert_eq!(check_markup("broken [b bold"), Some("Unmatched '[' at position 7".to_string()));
    assert_eq!(check_markup("[b]x"), Some("1 unclosed markup tag(s)".to_string()));
    assert_eq!(check_markup("[/b]"), Some("Unexpected closing tag at position 0".to_string()));
    assert_eq!(check_markup("[[link]] \\[ [br/]"), None);
}

fn text_part(t: &str) -> FormattedTextPart {
    FormattedTextPart::Text(t.to_string())
}

#[test]
fn ignores_lines_without_expression() {
    // `A line`: a single text part.
    assert_eq!(generate_formatted_text(&vec![text_part("A line")]), "A line");
}

#[test]
fn formats_lines_with_expression() {
    // `A line with a {$cool} expression`: the braces belong to the text around the expression.
    let parts = vec![text_part("A line with a {"), FormattedTextPart::Expression, text_part("} expression")];
    assert_eq!(generate_formatted_text(&parts), "A line with a {0} expression");
}

#[test]
fn formats_lines_with_multiple_expressions() {
    // `A line with {$many} many {(1 -(1 * 2))}{$cool} expressions`.
    let parts = vec![
        text_part("A line with {"),
        FormattedTextPart::Expression,
        text_part("} many {"),
        FormattedTextPart::Expression,
        text_part("}{"),
        FormattedTextPart::Expression,
        text_part("} expressions"),
    ];
    assert_eq!(generate_formatted_text(&parts), "A line with {0} many {1}{2} expressions");
}

#[test]
fn enum_blocks_are_scanned_with_their_cases() {
    let source = "title: A\n---\n  <<enum Colour>>\n<<case Red = \"r\">>\n<<case Green>>\n<<endenum>>\n<<case Stray>>\n<<enum Size>>\n<<case Big = 2>>\n<<case Big = x>>\n<<endenum>>\n===";
    let blocks = scan_enum_blocks(source);
    assert_eq!(blocks.len(), 2);
    assert_eq!(blocks[0].name, "Colour");
    assert_eq!((blocks[0].start_line, blocks[0].start_col, blocks[0].end_line, blocks[0].end_col), (2, 2, 5, 11));
    assert_eq!(blocks[0].cases.len(), 2);
    assert!(matches!(&blocks[0].cases[0].raw, RawValue::Quoted(s) if s == "r"));
    assert!(matches!(blocks[0].cases[1].raw, RawValue::Unset));
    assert!(matches!(&blocks[1].cases[1].raw, RawValue::Literal(s) if s == "x"));
    assert_eq!(
        block_structure_error(&blocks[0], false),
        Some("Enum 'Colour': all cases must have a string raw value if any do".to_string())
    );
    assert_eq!(block_structure_error(&blocks[1], true), Some("Expected a constant type".to_string()));
    assert_eq!(block_structure_error(&blocks[1], false), Some("Enum 'Size': duplicate case name 'Big'".to_string()));
}

#[test]
fn yarn_files_declare_variables() {
    let declarations = vec![
        DeclarationEntry {
            name: "$gold".to_string(),
            description: Some("How rich".to_string()),
            is_function: false,
            default_value: Some(DefaultValue::Number("5".to_string())),
        },
        DeclarationEntry { name: "visited".to_string(), description: None, is_function: true, default_value: None },
        DeclarationEntry {
            name: "$name".to_string(),
            description: Some("Who".to_string()),
            is_function: false,
            default_value: Some(DefaultValue::Text("Bob".to_string())),
        },
        DeclarationEntry {
            name: "$ok".to_string(),
            description: Some(String::new()),
            is_function: false,
            default_value: Some(DefaultValue::Boolean(true)),
        },
    ];
    let text = generate_yarn_file_with_declarations(
        &declarations,
        "Program",
        &vec!["a".to_string(), "b".to_string()],
        &vec![("position".to_string(), "0,0".to_string())],
    );
    assert_eq!(
        text,
        "title: Program\ntags: a b\nposition: 0,0\n---\n/// How rich\n<<declare $gold = 5>>\n\n/// Who\n<<declare $name = \"Bob\">>\n<<declare $ok = true>>\n===\n"
    );
    assert_eq!(generate_yarn_file_with_declarations(&vec![], "T", &vec![], &vec![]), "title: T\n---\n===\n");
}
