use yarnspinner::descriptive_tags::{extract_character_name, parse_line_id, DescriptiveLineTagGenerator};
use yarnspinner::line_tags::{
    check_generated_tag, hex_line_tag, run_line_tagger, tag_contexts, CollectedLineInfo, LineTagContext,
    LineTagGenerator, LineTaggingError, RandomLineTagGenerator, TagAbortBehaviour,
};

fn context(line_number: usize, text: &str, id: Option<&str>) -> LineTagContext {
    LineTagContext {
        line_number,
        source_file_name: Some("test.yarn".to_string()),
        line_text: text.to_string(),
        line_id: id.map(|s| s.to_string()),
    }
}

fn info(line_index: usize, id: Option<&str>) -> CollectedLineInfo {
    CollectedLineInfo {
        line_index,
        insertion_token_index: line_index as isize * 10,
        line_id: id.map(|s| s.to_string()),
        line_text: format!("line {line_index}"),
    }
}

#[test]
fn default_abort_behaviour_is_current_node() {
    assert_eq!(TagAbortBehaviour::default(), TagAbortBehaviour::CurrentNode);
}

#[test]
fn tagging_error_text_names_file_and_line() {
    let e = LineTaggingError::new("Broken".to_string());
    assert_eq!(e.to_text(), "Broken");
    let e = LineTaggingError::with_location("Broken".to_string(), "a.yarn".to_string(), 12);
    assert_eq!(e.to_text(), "Broken (in a.yarn, line 12)");
    assert_eq!(e.line_number, Some(12));
    let e = LineTaggingError { message: "M".to_string(), source_file_name: Some("f".to_string()), line_number: None };
    assert_eq!(e.to_text(), "M (in f)");
}

#[test]
fn hex_tags_have_seven_lower_case_digits() {
    assert_eq!(hex_line_tag(0), "line:0000000");
    assert_eq!(hex_line_tag(0x1a2b3c), "line:01a2b3c");
    assert_eq!(hex_line_tag(0xffffff), "line:0ffffff");
}

#[test]
fn random_generator_never_repeats_a_tag() {
    let mut g = RandomLineTagGenerator::new();
    assert_eq!(g.claim_tag_for_value(0xabc), Some("line:0000abc".to_string()));
    assert_eq!(g.claim_tag_for_value(0xabc), None);
    assert_eq!(g.claim_tag_for_value(0xabd), Some("line:0000abd".to_string()));
}

#[test]
fn random_generator_avoids_excluded_and_existing_ids() {
    let mut g = RandomLineTagGenerator::new();
    let contexts = vec![("Start".to_string(), vec![context(2, "Hi", Some("line:0000001"))])];
    g.prepare_for_lines(&contexts, &vec!["line:0000002".to_string()]);
    assert_eq!(g.claim_tag_for_value(1), None);
    assert_eq!(g.claim_tag_for_value(2), None);
    assert_eq!(g.claim_tag_for_value(3), Some("line:0000003".to_string()));
    let mut seen = Vec::new();
    for _ in 0..50 {
        let tag = g.generate_line_tag("Start", 0).unwrap();
        assert!(tag.starts_with("line:"));
        assert_eq!(tag.len(), 12);
        assert!(tag[5..].chars().all(|c| c.is_ascii_hexdigit() && !c.is_ascii_uppercase()));
        assert!(!seen.contains(&tag));
        assert_ne!(tag, "line:0000001");
        seen.push(tag);
    }
}

#[test]
fn generated_tags_are_checked() {
    let known = vec!["line:a".to_string()];
    let node_ids = vec!["line:b".to_string()];
    let e = check_generated_tag(Ok(String::new()), &known, &node_ids, "f.yarn", 4).unwrap_err();
    assert_eq!(e.to_text(), "Line ID generator returned an empty line ID (in f.yarn, line 4)");
    let e = check_generated_tag(Ok("x".to_string()), &known, &node_ids, "f.yarn", 4).unwrap_err();
    assert_eq!(e.message, "Line IDs must start with 'line:' - generator returned 'x'");
    let e = check_generated_tag(Ok("line:a".to_string()), &known, &node_ids, "f.yarn", 4).unwrap_err();
    assert_eq!(e.message, "Line ID generator returned a duplicate line tag 'line:a'");
    let e = check_generated_tag(Ok("line:b".to_string()), &known, &node_ids, "f.yarn", 4).unwrap_err();
    assert_eq!(e.message, "Line ID generator returned a duplicate line tag 'line:b'");
    assert_eq!(check_generated_tag(Ok("line:c".to_string()), &known, &node_ids, "f.yarn", 4).unwrap(), "line:c");
    let e = check_generated_tag(Err(LineTaggingError::new("own".to_string())), &known, &node_ids, "f.yarn", 4)
        .unwrap_err();
    assert_eq!(e.message, "own");
    assert_eq!(e.source_file_name, None);
}

/// Hands out the given answers in order.
struct Scripted {
    answers: Vec<Result<String, LineTaggingError>>,
    prepared: usize,
}

impl LineTagGenerator for Scripted {
    fn prepare_for_lines(&mut self, line_contexts: &Vec<(String, Vec<LineTagContext>)>, _excluded_ids: &Vec<String>) {
        self.prepared = line_contexts.len();
    }

    fn generate_line_tag(&mut self, _node: &str, _line_index: usize) -> Result<String, LineTaggingError> {
        self.answers.remove(0)
    }
}

fn scripted(answers: &[&str]) -> Scripted {
    Scripted {
        answers: answers
            .iter()
            .map(|a| if a.starts_with('!') { Err(LineTaggingError::new(a[1..].to_string())) } else { Ok(a.to_string()) })
            .collect(),
        prepared: 0,
    }
}

fn nodes() -> Vec<(String, Vec<CollectedLineInfo>)> {
    vec![
        ("A".to_string(), vec![info(1, None), info(2, Some("line:old")), info(3, None)]),
        ("B".to_string(), vec![info(5, None)]),
    ]
}

#[test]
fn tagger_tags_only_untagged_lines() {
    let mut g = scripted(&["line:1", "line:2", "line:3"]);
    let out = run_line_tagger(&nodes(), "f.yarn", &mut g, &vec![], TagAbortBehaviour::CurrentNode);
    assert_eq!(g.prepared, 2);
    assert!(out.errors.is_empty());
    let tags: Vec<_> = out.rewrites.iter().map(|r| (r.line_index, r.insertion_token_index, r.tag.clone())).collect();
    assert_eq!(tags, vec![(1, 10, "line:1".to_string()), (3, 30, "line:2".to_string()), (5, 50, "line:3".to_string())]);
}

#[test]
fn tagger_abandons_the_node_on_current_node() {
    let mut g = scripted(&["line:1", "line:old", "line:3"]);
    let out = run_line_tagger(&nodes(), "f.yarn", &mut g, &vec![], TagAbortBehaviour::CurrentNode);
    assert_eq!(out.errors.len(), 1);
    assert_eq!(out.errors[0].to_text(), "Line ID generator returned a duplicate line tag 'line:old' (in f.yarn, line 3)");
    let tags: Vec<_> = out.rewrites.iter().map(|r| r.tag.clone()).collect();
    assert_eq!(tags, vec!["line:3".to_string()]);
}

#[test]
fn tagger_skips_the_line_on_current_line() {
    let mut g = scripted(&["line:1", "!no", "line:3"]);
    let out = run_line_tagger(&nodes(), "f.yarn", &mut g, &vec![], TagAbortBehaviour::CurrentLine);
    assert_eq!(out.errors.len(), 1);
    assert_eq!(out.errors[0].message, "no");
    let tags: Vec<_> = out.rewrites.iter().map(|r| r.tag.clone()).collect();
    assert_eq!(tags, vec!["line:1".to_string(), "line:3".to_string()]);
}

#[test]
fn tagger_discards_everything_on_entire_tagging() {
    let mut g = scripted(&["line:1", "line:2", "oops"]);
    let out = run_line_tagger(&nodes(), "f.yarn", &mut g, &vec!["line:x".to_string()], TagAbortBehaviour::EntireTagging);
    assert_eq!(out.errors.len(), 1);
    assert_eq!(out.errors[0].message, "Line IDs must start with 'line:' - generator returned 'oops'");
    assert!(out.rewrites.is_empty());
}

#[test]
fn tagger_refuses_a_tag_used_twice_in_one_node() {
    let mut g = scripted(&["line:1", "line:1", "line:9"]);
    let out = run_line_tagger(&nodes(), "f.yarn", &mut g, &vec![], TagAbortBehaviour::CurrentLine);
    assert_eq!(out.errors.len(), 1);
    let tags: Vec<_> = out.rewrites.iter().map(|r| r.tag.clone()).collect();
    assert_eq!(tags, vec!["line:1".to_string(), "line:9".to_string()]);
}

#[test]
fn contexts_describe_the_collected_lines() {
    let c = tag_contexts(&nodes(), "f.yarn");
    assert_eq!(c.len(), 2);
    assert_eq!(c[0].0, "A");
    assert_eq!(c[0].1[1].line_number, 2);
    assert_eq!(c[0].1[1].line_id.as_deref(), Some("line:old"));
    assert_eq!(c[0].1[1].source_file_name.as_deref(), Some("f.yarn"));
    assert_eq!(c[1].1[0].line_text, "line 5");
}

#[test]
fn speaker_names_are_found() {
    assert_eq!(extract_character_name("Alice: Hello").as_deref(), Some("Alice"));
    assert_eq!(extract_character_name("Bob\\: Hi").as_deref(), Some("Bob"));
    assert_eq!(extract_character_name("Two words: Hi"), None);
    assert_eq!(extract_character_name("Al-ice: Hi"), None);
    assert_eq!(extract_character_name("Al-ice\\: Hi").as_deref(), Some("Al-ice"));
    assert_eq!(extract_character_name("  Ann  : x").as_deref(), Some("Ann"));
    assert_eq!(extract_character_name("No speaker here"), None);
}

#[test]
fn line_ids_give_number_and_generation() {
    assert_eq!(parse_line_id("line:Node_0200_Alice"), (200, 0));
    assert_eq!(parse_line_id("line:Node_0300_g2_Bob"), (300, 2));
    assert_eq!(parse_line_id("line:Node"), (-1, 0));
    assert_eq!(parse_line_id("line:a_5_7"), (7, 0));
    assert_eq!(parse_line_id("x_99999999999_1"), (1, 0));
    assert_eq!(parse_line_id("x_99999999999"), (-1, 0));
    assert_eq!(parse_line_id("x_g1_gx"), (-1, 1));
}

fn descriptive(lines: Vec<LineTagContext>) -> DescriptiveLineTagGenerator {
    let mut g = DescriptiveLineTagGenerator::new();
    g.prepare_for_lines(&vec![("Node".to_string(), lines)], &vec![]);
    g
}

#[test]
fn descriptive_tags_follow_the_documented_example() {
    let mut g = descriptive(vec![
        context(2, "Alice: This is me saying a line", None),
        context(3, "Alice: And another line", None),
        context(5, "Bob: And me responding", None),
        context(6, "And finally a line that isn't from a character", None),
    ]);
    assert_eq!(g.generate_line_tag("Node", 0).unwrap(), "line:Node_0100_Alice");
    assert_eq!(g.generate_line_tag("Node", 1).unwrap(), "line:Node_0200_Alice");
    assert_eq!(g.generate_line_tag("Node", 2).unwrap(), "line:Node_0300_Bob");
    assert_eq!(g.generate_line_tag("Node", 3).unwrap(), "line:Node_0400");
}

#[test]
fn descriptive_tags_go_between_tagged_lines() {
    let mut g = descriptive(vec![
        context(1, "a", Some("line:Node_0100")),
        context(2, "b", None),
        context(3, "c", Some("line:Node_0200")),
        context(4, "d", None),
    ]);
    // Between 100 and 200 with one line: step 50, rounded to a multiple of 5.
    assert_eq!(g.generate_line_tag("Node", 1).unwrap(), "line:Node_0150");
    // After 200: the next multiple of 100.
    assert_eq!(g.generate_line_tag("Node", 3).unwrap(), "line:Node_0300");
    // The same number again gets a generation.
    assert_eq!(g.generate_line_tag("Node", 1).unwrap(), "line:Node_0150_g1");
}

#[test]
fn descriptive_tags_before_the_first_tagged_line() {
    let mut g = descriptive(vec![context(1, "a", None), context(2, "b", None), context(3, "c", Some("line:N_0090"))]);
    // 90 / 3 = 30 per line, rounded up to a multiple of 5.
    assert_eq!(g.generate_line_tag("Node", 0).unwrap(), "line:Node_0030");
    assert_eq!(g.generate_line_tag("Node", 1).unwrap(), "line:Node_0060");
}

#[test]
fn descriptive_tags_report_misordered_neighbours() {
    let mut g = descriptive(vec![context(7, "a", Some("line:N_0500")), context(8, "b", None), context(9, "c", Some("line:N_0100"))]);
    let e = g.generate_line_tag("Node", 1).unwrap_err();
    assert_eq!(e.to_text(), "The preceding dialogue has a greater tagged value (500) than the following (100). (in test.yarn, line 8)");
}

#[test]
fn descriptive_tags_report_bad_requests() {
    let mut g = DescriptiveLineTagGenerator::new();
    assert_eq!(
        g.generate_line_tag("Node", 3).unwrap_err().message,
        "Asked to generate a line at index 3 for Node node but we haven't been given a context"
    );
    let mut g = descriptive(vec![context(1, "a", None)]);
    assert_eq!(
        g.generate_line_tag("Other", 0).unwrap_err().message,
        "Asked to generate a line at index 0 for Other node but we have no node with this name"
    );
    assert_eq!(
        g.generate_line_tag("Node", 1).unwrap_err().message,
        "Asked to generate a line at index 1 for Node node but the index is out of bounds"
    );
    let mut g = descriptive(vec![]);
    assert_eq!(
        g.generate_line_tag("Node", 0).unwrap_err().message,
        "Asked to generate a line at index 0 for Node node but this list is empty"
    );
}

#[test]
fn descriptive_tags_refuse_excluded_ids() {
    let mut g = DescriptiveLineTagGenerator::new();
    g.prepare_for_lines(&vec![("Node".to_string(), vec![context(1, "a", None)])], &vec!["line:Node_0100".to_string()]);
    let e = g.generate_line_tag("Node", 0).unwrap_err();
    assert_eq!(
        e.to_text(),
        "The generated id 'line:Node_0100' conflicts with an id we were excluded from using. (in test.yarn, line 1)"
    );
}

#[test]
fn descriptive_tags_continue_the_generations_already_used() {
    let mut g = descriptive(vec![
        context(1, "a", Some("line:Node_0100")),
        context(2, "b", None),
        context(3, "c", Some("line:Node_0200")),
        context(4, "d", Some("line:Node_0150_g3")),
    ]);
    // 150 was already used up to generation 3.
    assert_eq!(g.generate_line_tag("Node", 1).unwrap(), "line:Node_0150_g4");
}
