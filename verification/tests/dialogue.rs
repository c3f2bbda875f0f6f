use std::collections::HashMap;

use yarnspinner::library::{Library, YarnFn};
use yarnspinner::markup::{MarkupParseError, ParsedMarkup};
use yarnspinner::program::{FloatBits, Instruction, Label, Node, OpCode, Operand, Program};
use yarnspinner::saliency::FirstSaliencyStrategy;
use yarnspinner::smart_eval::resolve_without_host;
use yarnspinner::types::Type;
use yarnspinner::vm::{
    expand_substitutions, DialogueError, DialogueEvent, DialogueHost, ExecutionState, VariableStorageError,
    VirtualMachine, YarnValue,
};

/// A host with an in-memory variable store and string table.
#[derive(Default)]
struct Host {
    variables: HashMap<String, YarnValue>,
    texts: HashMap<String, String>,
    hints: Vec<String>,
}

fn copy(v: &YarnValue) -> YarnValue {
    match v {
        YarnValue::Number(n) => YarnValue::Number(*n),
        YarnValue::String(s) => YarnValue::String(s.clone()),
        YarnValue::Boolean(b) => YarnValue::Boolean(*b),
    }
}

impl DialogueHost<fn(Vec<YarnValue>) -> YarnValue> for Host {
    fn get_variable(&self, name: &str) -> Result<YarnValue, VariableStorageError> {
        self.variables
            .get(name)
            .map(copy)
            .ok_or_else(|| VariableStorageError::VariableNotFound { name: name.to_string() })
    }

    fn set_variable(&mut self, name: String, value: YarnValue) -> Result<(), VariableStorageError> {
        self.variables.insert(name, value);
        Ok(())
    }

    fn get_text(&self, line_id: &str) -> Option<String> {
        self.texts.get(line_id).cloned()
    }

    fn accept_line_hints(&mut self, line_ids: &Vec<String>) {
        self.hints = line_ids.clone();
    }

    fn parse_markup(&mut self, text: &str) -> Result<ParsedMarkup, MarkupParseError> {
        Ok(ParsedMarkup { text: text.to_string(), attributes: vec![] })
    }

    fn call_function(&mut self, function: &YarnFn<fn(Vec<YarnValue>) -> YarnValue>, parameters: Vec<YarnValue>) -> YarnValue {
        match function {
            YarnFn::Typed(f) => (f.call)(parameters),
            YarnFn::Variadic(f) => (f.func())(parameters),
        }
    }

    fn number_text(&self, number: FloatBits) -> String {
        f32::from_bits(number.0).to_string()
    }

    fn parse_number(&self, text: &str) -> Option<FloatBits> {
        text.parse::<f32>().ok().map(|f| FloatBits(f.to_bits()))
    }

    fn set_language_code(&mut self, _language_code: Option<String>) {}
}

fn s(x: &str) -> Operand {
    Operand::StringValue(x.to_string())
}

fn n(x: f32) -> Operand {
    Operand::FloatValue(FloatBits(x.to_bits()))
}

fn b(x: bool) -> Operand {
    Operand::BoolValue(x)
}

fn ins(op: OpCode, operands: Vec<Operand>) -> Instruction {
    Instruction { opcode: op.number(), operands }
}

fn shout(args: Vec<YarnValue>) -> YarnValue {
    match &args[0] {
        YarnValue::String(s) => YarnValue::String(s.to_uppercase()),
        other => copy(other),
    }
}

fn program() -> Program {
    let start = Node {
        name: "Start".to_string(),
        instructions: vec![
            ins(OpCode::RunLine, vec![s("line:a"), n(0.0)]),
            ins(OpCode::AddOption, vec![s("line:b"), s("L1"), n(0.0), b(false)]),
            ins(OpCode::AddOption, vec![s("line:c"), s("L2"), n(0.0), b(false)]),
            ins(OpCode::ShowOptions, vec![]),
            ins(OpCode::Pop, vec![]),
            ins(OpCode::PeekAndJump, vec![]),
            // L1
            ins(OpCode::Pop, vec![]),
            ins(OpCode::PushString, vec![s("fast")]),
            ins(OpCode::PushFloat, vec![n(1.0)]),
            ins(OpCode::CallFunc, vec![s("shout")]),
            ins(OpCode::StoreVariable, vec![s("$speed")]),
            ins(OpCode::RunCommand, vec![s("go {0}"), n(1.0)]),
            ins(OpCode::Stop, vec![]),
            // L2
            ins(OpCode::Pop, vec![]),
            ins(OpCode::Stop, vec![]),
        ],
        labels: vec![
            Label { name: "L1".to_string(), index: 6 },
            Label { name: "L2".to_string(), index: 13 },
        ],
        tags: vec![],
    };
    Program { nodes: vec![start], initial_values: vec![] }
}

fn run(vm: &mut VirtualMachine<fn(Vec<YarnValue>) -> YarnValue, FirstSaliencyStrategy>, host: &mut Host) -> Vec<DialogueEvent> {
    vm.begin_continue().unwrap();
    while vm.execution_state == ExecutionState::Running {
        assert!(vm.is_ready());
        vm.continue_step(host).unwrap();
    }
    vm.take_events()
}

fn texts() -> Host {
    let mut host = Host::default();
    host.texts.insert("line:a".to_string(), "Hello".to_string());
    host.texts.insert("line:b".to_string(), "Fast".to_string());
    host.texts.insert("line:c".to_string(), "Slow".to_string());
    host
}

fn machine() -> VirtualMachine<fn(Vec<YarnValue>) -> YarnValue, FirstSaliencyStrategy> {
    let mut library = Library::new();
    library.add_function("shout".to_string(), vec![Type::String], Type::String, shout as fn(Vec<YarnValue>) -> YarnValue);
    let mut vm = VirtualMachine::new(library, FirstSaliencyStrategy);
    vm.program = Some(program());
    vm
}

#[test]
fn dialogue_runs_lines_options_and_commands() {
    let mut host = texts();
    let mut vm = machine();
    vm.set_node("Start".to_string(), &mut host).unwrap();
    assert_eq!(vm.current_node().as_deref(), Some("Start"));

    let events = run(&mut vm, &mut host);
    assert_eq!(events.len(), 2);
    assert!(matches!(&events[0], DialogueEvent::NodeStart(n) if n == "Start"));
    match &events[1] {
        DialogueEvent::Line(line) => {
            assert_eq!(line.id, "line:a");
            assert_eq!(line.text, "Hello");
        },
        other => panic!("unexpected {other:?}"),
    }
    assert_eq!(vm.execution_state, ExecutionState::WaitingForContinue);

    let events = run(&mut vm, &mut host);
    assert_eq!(events.len(), 1);
    match &events[0] {
        DialogueEvent::Options(options) => {
            assert_eq!(options.len(), 2);
            assert_eq!(options[0].line.text, "Fast");
            assert_eq!(options[1].id, 1);
            assert_eq!(options[1].destination_node, "L2");
            assert!(options[0].is_available);
        },
        other => panic!("unexpected {other:?}"),
    }
    assert!(vm.is_waiting_for_option_selection());
    assert!(!vm.can_continue_now());
    assert!(matches!(vm.set_selected_option(2), Err(DialogueError::InvalidOptionIdError { selected_option_id: 2, max_id: 1 })));
    vm.set_selected_option(0).unwrap();
    assert!(matches!(vm.set_selected_option(0), Err(DialogueError::UnexpectedOptionSelectionError)));

    let kinds = |events: Vec<DialogueEvent>| -> Vec<String> {
        events
            .iter()
            .map(|e| match e {
                DialogueEvent::Command(c) => format!("command {c}"),
                DialogueEvent::NodeComplete(n) => format!("complete {n}"),
                DialogueEvent::DialogueComplete => "done".to_string(),
                other => format!("{other:?}"),
            })
            .collect()
    };
    assert_eq!(kinds(run(&mut vm, &mut host)), vec!["command go FAST".to_string()]);
    assert_eq!(vm.execution_state, ExecutionState::WaitingForContinue);
    assert_eq!(kinds(run(&mut vm, &mut host)), vec!["complete Start".to_string(), "done".to_string()]);
    assert!(!vm.is_active());
    assert!(matches!(host.variables.get("$speed"), Some(YarnValue::String(v)) if v == "FAST"));
}

#[test]
fn selecting_the_second_option_stops_there() {
    let mut host = texts();
    let mut vm = machine();
    vm.set_node("Start".to_string(), &mut host).unwrap();
    run(&mut vm, &mut host);
    run(&mut vm, &mut host);
    assert_eq!(vm.set_selected_option_by_line_id("line:c".to_string()).unwrap(), 1);
    let events = run(&mut vm, &mut host);
    assert!(matches!(events.last(), Some(DialogueEvent::DialogueComplete)));
    assert!(host.variables.is_empty());
}

#[test]
fn unknown_nodes_and_missing_lines_are_errors() {
    let mut host = Host::default();
    let mut vm = machine();
    assert!(matches!(vm.set_node("Nowhere".to_string(), &mut host), Err(DialogueError::InvalidNode { node_name }) if node_name == "Nowhere"));
    assert!(!vm.can_continue_now());
    vm.set_node("Start".to_string(), &mut host).unwrap();
    vm.begin_continue().unwrap();
    assert!(matches!(vm.continue_step(&mut host), Err(DialogueError::LineProviderError { id, .. }) if id == "line:a"));
}

#[test]
fn stopping_hands_out_pending_events() {
    let mut host = texts();
    let mut vm = machine();
    vm.set_node("Start".to_string(), &mut host).unwrap();
    let events = vm.stop();
    assert_eq!(events.len(), 2);
    assert!(matches!(events[1], DialogueEvent::DialogueComplete));
    assert!(!vm.is_active());
    assert_eq!(vm.current_node(), None);
}

#[test]
fn substitutions_replace_markers() {
    let subs = vec!["one".to_string(), "two".to_string()];
    assert_eq!(expand_substitutions("{0} and {1} and {2} and {0}", &subs), "one and two and {2} and one");
    assert_eq!(expand_substitutions("nothing {0}", &vec![]), "nothing {0}");
}

fn not_found(name: &str) -> Result<YarnValue, VariableStorageError> {
    Err(VariableStorageError::VariableNotFound { name: name.to_string() })
}

#[test]
fn view_counts_read_from_stored_values() {
    let host = Host::default();
    assert_eq!(yarnspinner::vm::view_count_from(Ok(YarnValue::Number(FloatBits(3.7f32.to_bits()))), &host), 3);
    assert_eq!(yarnspinner::vm::view_count_from(Ok(YarnValue::Boolean(true)), &host), 1);
    assert_eq!(yarnspinner::vm::view_count_from(Ok(YarnValue::String("4".to_string())), &host), 4);
    assert_eq!(yarnspinner::vm::view_count_from(not_found("$x"), &host), 0);
    let next = yarnspinner::vm::incremented_view_count(Ok(YarnValue::Number(FloatBits(2.0f32.to_bits()))), &host);
    assert_eq!(f32::from_bits(next.0), 3.0);
    assert_eq!(f32::from_bits(yarnspinner::vm::incremented_view_count(not_found("$x"), &host).0), 1.0);
    assert_eq!(f32::from_bits(yarnspinner::vm::incremented_view_count(Ok(YarnValue::Boolean(true)), &host).0), 2.0);
}

#[test]
fn visit_counts_grow_only_where_tracked() {
    match yarnspinner::vm::incremented_visit_count(Ok(YarnValue::Number(FloatBits(1.0f32.to_bits())))) {
        Some(YarnValue::Number(x)) => assert_eq!(f32::from_bits(x.0), 2.0),
        _ => panic!("expected a number"),
    }
    assert!(yarnspinner::vm::incremented_visit_count(not_found("$v")).is_none());
    assert!(yarnspinner::vm::incremented_visit_count(Ok(YarnValue::Boolean(true))).is_none());
}

#[test]
fn unstored_variables_resolve_to_their_defaults() {
    let mut p = program();
    p.initial_values.push(("$gold".to_string(), Operand::FloatValue(FloatBits(5.0f32.to_bits()))));
    match resolve_without_host(Ok(YarnValue::Boolean(true)), "$gold", &p) {
        Some(YarnValue::Boolean(true)) => {},
        _ => panic!("the stored value comes first"),
    }
    match resolve_without_host(not_found("$gold"), "$gold", &p) {
        Some(YarnValue::Number(x)) => assert_eq!(f32::from_bits(x.0), 5.0),
        _ => panic!("expected the initial value"),
    }
    match resolve_without_host(not_found("$Yarn.Internal.Once.l1"), "$Yarn.Internal.Once.l1", &p) {
        Some(YarnValue::Boolean(false)) => {},
        _ => panic!("expected false"),
    }
    match resolve_without_host(not_found("$Yarn.Internal.Content.ViewCount.a"), "$Yarn.Internal.Content.ViewCount.a", &p) {
        Some(YarnValue::Number(x)) => assert_eq!(x.0, 0),
        _ => panic!("expected zero"),
    }
}

fn evaluation_program(passes: bool) -> Program {
    let smart = Node {
        name: "$double_gold".to_string(),
        instructions: vec![
            ins(OpCode::PushVariable, vec![s("$gold")]),
            ins(OpCode::PushString, vec![s("loud")]),
            ins(OpCode::PushFloat, vec![n(1.0)]),
            ins(OpCode::CallFunc, vec![s("shout")]),
            ins(OpCode::Pop, vec![]),
            ins(OpCode::Stop, vec![]),
        ],
        labels: vec![],
        tags: vec!["Yarn.SmartVariable".to_string()],
    };
    let hub = Node {
        name: "Group".to_string(),
        instructions: vec![
            ins(OpCode::PushBool, vec![b(passes)]),
            ins(OpCode::AddSaliencyCandidate, vec![s("Group.A"), n(1.0), s("A")]),
            ins(OpCode::SelectSaliencyCandidate, vec![]),
        ],
        labels: vec![],
        tags: vec!["yarn_internal_node_group".to_string()],
    };
    let plain = Node { name: "Plain".to_string(), instructions: vec![], labels: vec![], tags: vec![] };
    Program { nodes: vec![smart, hub, plain], initial_values: vec![("$gold".to_string(), n(0.0))] }
}

#[test]
fn smart_variables_are_evaluated_by_running_their_node() {
    let mut host = Host::default();
    host.variables.insert("$gold".to_string(), YarnValue::Number(FloatBits(4.0f32.to_bits())));
    let vm = machine();
    let p = evaluation_program(true);
    match yarnspinner::smart_eval::evaluate_smart_variable("$double_gold", &p, &vm.library, &mut host, 100) {
        Some(YarnValue::Number(x)) => assert_eq!(f32::from_bits(x.0), 4.0),
        other => panic!("unexpected {other:?}"),
    }
    assert!(yarnspinner::smart_eval::evaluate_smart_variable("$nothing", &p, &vm.library, &mut host, 100).is_none());
    // Too little fuel to reach the end.
    assert!(yarnspinner::smart_eval::evaluate_smart_variable("$double_gold", &p, &vm.library, &mut host, 2).is_none());
}

#[test]
fn node_groups_have_content_where_a_member_passes() {
    let mut host = Host::default();
    let vm = machine();
    let yes = evaluation_program(true);
    let no = evaluation_program(false);
    assert_eq!(yarnspinner::smart_eval::has_any_content("Group", &yes, &vm.library, &mut host, 100), Some(true));
    assert_eq!(yarnspinner::smart_eval::has_any_content("Group", &no, &vm.library, &mut host, 100), Some(false));
    assert_eq!(yarnspinner::smart_eval::has_any_content("Plain", &no, &vm.library, &mut host, 100), Some(true));
    assert_eq!(yarnspinner::smart_eval::has_any_content("Missing", &no, &vm.library, &mut host, 100), Some(false));
    let candidates = yarnspinner::smart_eval::collect_hub_saliency_candidates("Group", &yes, &vm.library, &mut host, 100).unwrap();
    assert_eq!(candidates.len(), 1);
    assert_eq!(candidates[0].content_id, "Group.A");
    assert_eq!(candidates[0].passing_condition_count, 1);
}

fn machine_with_evaluations() -> VirtualMachine<fn(Vec<YarnValue>) -> YarnValue, FirstSaliencyStrategy> {
    let mut vm = machine();
    let mut p = evaluation_program(true);
    let start = Node {
        name: "Start".to_string(),
        instructions: vec![
            ins(OpCode::PushVariable, vec![s("$double_gold")]),
            ins(OpCode::StoreVariable, vec![s("$doubled")]),
            ins(OpCode::Pop, vec![]),
            ins(OpCode::PushString, vec![s("Group")]),
            ins(OpCode::PushFloat, vec![n(1.0)]),
            ins(OpCode::CallFunc, vec![s("has_any_content")]),
            ins(OpCode::StoreVariable, vec![s("$has")]),
            ins(OpCode::Pop, vec![]),
            ins(OpCode::PushVariable, vec![s("$group_open")]),
            ins(OpCode::StoreVariable, vec![s("$open")]),
            ins(OpCode::Pop, vec![]),
            ins(OpCode::Stop, vec![]),
        ],
        labels: vec![],
        tags: vec![],
    };
    let group_open = Node {
        name: "$group_open".to_string(),
        instructions: vec![
            ins(OpCode::PushString, vec![s("Plain")]),
            ins(OpCode::PushFloat, vec![n(1.0)]),
            ins(OpCode::CallFunc, vec![s("has_any_content")]),
            ins(OpCode::Stop, vec![]),
        ],
        labels: vec![],
        tags: vec!["Yarn.SmartVariable".to_string()],
    };
    let broken = Node {
        name: "Broken".to_string(),
        instructions: vec![
            ins(OpCode::PushFloat, vec![n(0.0)]),
            ins(OpCode::CallFunc, vec![s("no_such_function")]),
            ins(OpCode::AddSaliencyCandidate, vec![s("Broken.A"), n(1.0), s("A")]),
            ins(OpCode::SelectSaliencyCandidate, vec![]),
        ],
        labels: vec![],
        tags: vec!["yarn_internal_node_group".to_string()],
    };
    p.nodes.push(start);
    p.nodes.push(group_open);
    p.nodes.push(broken);
    vm.program = Some(p);
    vm
}

#[test]
fn the_machine_evaluates_smart_variables_and_node_groups_itself() {
    let mut host = Host::default();
    host.variables.insert("$gold".to_string(), YarnValue::Number(FloatBits(4.0f32.to_bits())));
    let mut vm = machine_with_evaluations();
    vm.set_node("Start".to_string(), &mut host).unwrap();
    run(&mut vm, &mut host);
    match host.variables.get("$doubled") {
        Some(YarnValue::Number(x)) => assert_eq!(f32::from_bits(x.0), 4.0),
        other => panic!("unexpected {other:?}"),
    }
    assert!(matches!(host.variables.get("$has"), Some(YarnValue::Boolean(true))));
    assert!(matches!(host.variables.get("$open"), Some(YarnValue::Boolean(true))));
    // Evaluating a smart variable writes nothing for it.
    assert!(!host.variables.contains_key("$double_gold"));
    assert!(!host.variables.contains_key("$group_open"));
}

#[test]
fn a_node_group_that_cannot_be_evaluated_is_an_error() {
    let mut host = Host::default();
    let mut vm = machine_with_evaluations();
    let start = Node {
        name: "Ask".to_string(),
        instructions: vec![
            ins(OpCode::PushString, vec![s("Broken")]),
            ins(OpCode::PushFloat, vec![n(1.0)]),
            ins(OpCode::CallFunc, vec![s("has_any_content")]),
            ins(OpCode::Stop, vec![]),
        ],
        labels: vec![],
        tags: vec![],
    };
    vm.program.as_mut().unwrap().nodes.push(start);
    vm.set_node("Ask".to_string(), &mut host).unwrap();
    vm.begin_continue().unwrap();
    vm.continue_step(&mut host).unwrap();
    vm.continue_step(&mut host).unwrap();
    match vm.continue_step(&mut host) {
        Err(DialogueError::EvaluationFailed { name }) => assert_eq!(name, "Broken"),
        other => panic!("unexpected {other:?}"),
    }
}

fn detour_machine() -> VirtualMachine<fn(Vec<YarnValue>) -> YarnValue, FirstSaliencyStrategy> {
    let mut vm = machine();
    let a = Node {
        name: "A".to_string(),
        instructions: vec![
            ins(OpCode::PushString, vec![s("B")]),
            ins(OpCode::DetourToNode, vec![]),
            ins(OpCode::PushString, vec![s("C")]),
            ins(OpCode::RunNode, vec![]),
        ],
        labels: vec![],
        tags: vec![],
    };
    let b_node = Node {
        name: "B".to_string(),
        instructions: vec![
            ins(OpCode::PushString, vec![s("D")]),
            ins(OpCode::DetourToNode, vec![]),
            ins(OpCode::Return, vec![]),
        ],
        labels: vec![],
        tags: vec![],
    };
    let d_node = Node {
        name: "D".to_string(),
        instructions: vec![ins(OpCode::PushString, vec![s("C")]), ins(OpCode::RunNode, vec![])],
        labels: vec![],
        tags: vec![],
    };
    let c_node = Node { name: "C".to_string(), instructions: vec![ins(OpCode::Stop, vec![])], labels: vec![], tags: vec![] };
    vm.program = Some(Program { nodes: vec![a, b_node, c_node, d_node], initial_values: vec![] });
    vm
}

fn step(vm: &mut VirtualMachine<fn(Vec<YarnValue>) -> YarnValue, FirstSaliencyStrategy>, host: &mut Host) {
    assert!(vm.is_ready());
    vm.continue_step(host).unwrap();
}

#[test]
fn a_detour_then_a_return_comes_back_after_the_detour() {
    let mut host = Host::default();
    let mut vm = machine();
    let a = Node {
        name: "A".to_string(),
        instructions: vec![
            ins(OpCode::PushString, vec![s("B")]),
            ins(OpCode::DetourToNode, vec![]),
            ins(OpCode::Stop, vec![]),
        ],
        labels: vec![],
        tags: vec![],
    };
    let b_node = Node { name: "B".to_string(), instructions: vec![ins(OpCode::Return, vec![])], labels: vec![], tags: vec![] };
    vm.program = Some(Program { nodes: vec![a, b_node], initial_values: vec![] });
    vm.set_node("A".to_string(), &mut host).unwrap();
    vm.begin_continue().unwrap();
    step(&mut vm, &mut host);
    step(&mut vm, &mut host);
    assert_eq!(vm.current_node().as_deref(), Some("B"));
    assert_eq!(vm.call_stack, vec![("A".to_string(), 2)]);
    step(&mut vm, &mut host);
    assert_eq!(vm.current_node().as_deref(), Some("A"));
    assert_eq!(vm.state.program_counter, 2);
    assert!(vm.call_stack.is_empty());
    let events = vm.take_events();
    assert!(matches!(&events[events.len() - 2], DialogueEvent::NodeStart(n) if n == "B"));
    assert!(matches!(&events[events.len() - 1], DialogueEvent::NodeComplete(n) if n == "B"));
}

#[test]
fn running_a_node_counts_a_visit_to_each_abandoned_frame() {
    let mut host = Host::default();
    host.variables.insert("$Yarn.Internal.Visiting.A".to_string(), YarnValue::Number(FloatBits(1.0f32.to_bits())));
    let mut vm = detour_machine();
    vm.set_node("A".to_string(), &mut host).unwrap();
    vm.begin_continue().unwrap();
    // A: push "B", detour; B: push "D", detour; D: push "C", run C.
    for _ in 0..6 {
        step(&mut vm, &mut host);
    }
    assert_eq!(vm.current_node().as_deref(), Some("C"));
    assert!(vm.call_stack.is_empty());
    match host.variables.get("$Yarn.Internal.Visiting.A") {
        Some(YarnValue::Number(x)) => assert_eq!(f32::from_bits(x.0), 2.0),
        other => panic!("unexpected {other:?}"),
    }
    // B holds no number: it is not written.
    assert!(!host.variables.contains_key("$Yarn.Internal.Visiting.B"));
    let events = vm.take_events();
    let names: Vec<String> = events
        .iter()
        .filter_map(|e| match e {
            DialogueEvent::NodeComplete(n) => Some(format!("complete {n}")),
            DialogueEvent::NodeStart(n) => Some(format!("start {n}")),
            _ => None,
        })
        .collect();
    assert_eq!(
        names,
        vec!["start A", "start B", "start D", "complete D", "complete A", "complete B", "start C"]
            .into_iter()
            .map(String::from)
            .collect::<Vec<_>>()
    );
}
