use yarnspinner::analysis::{get_basic_blocks, Destination, NodeBasicBlocksExt};
use yarnspinner::library::{Library, YarnFn};
use yarnspinner::program::{FloatBits, Instruction, Label, Node, OpCode, Operand};
use yarnspinner::saliency::{
    BestLeastRecentlyViewedSaliencyStrategy, BestSaliencyStrategy, ContentSaliencyOption, ContentType,
    FirstSaliencyStrategy, RandomBestLeastRecentlyViewedSaliencyStrategy,
};
use yarnspinner::types::{FunctionType, Type};

fn ins(op: OpCode, operands: Vec<Operand>) -> Instruction {
    Instruction { opcode: op.number(), operands }
}

fn s(x: &str) -> Operand {
    Operand::StringValue(x.to_string())
}

#[test]
fn library_finds_what_was_added() {
    let mut lib: Library<u8> = Library::new();
    lib.add_function("a".to_string(), vec![Type::Number], Type::Boolean, 1);
    lib.add_function("b".to_string(), vec![], Type::String, 2);
    lib.add_function("a".to_string(), vec![], Type::Number, 3);
    assert!(lib.contains_function("a"));
    assert!(!lib.contains_function("c"));
    match lib.get("a") {
        Some(YarnFn::Typed(f)) => {
            assert_eq!(f.call, 3);
            assert!(f.parameter_types.is_empty());
        },
        _ => panic!("missing"),
    }
    let mut names = lib.names();
    names.sort();
    assert_eq!(names, vec!["a".to_string(), "b".to_string()]);
    assert_eq!(lib.functions().len(), 2);
    assert_eq!(lib.iter().len(), 2);
}

#[test]
fn imported_functions_win() {
    let mut mine: Library<u8> = Library::new();
    mine.add_function("a".to_string(), vec![], Type::Number, 1);
    mine.add_function("b".to_string(), vec![], Type::Number, 2);
    let mut other: Library<u8> = Library::new();
    other.add_function("b".to_string(), vec![], Type::Number, 20);
    other.add_variadic_function("c".to_string(), vec![Type::String], Type::Number, Type::Boolean, 30);
    mine.import(other);
    assert!(matches!(mine.get("a"), Some(YarnFn::Typed(f)) if f.call == 1));
    assert!(matches!(mine.get("b"), Some(YarnFn::Typed(f)) if f.call == 20));
    let c = mine.get("c").unwrap();
    assert_eq!(c.parameter_count(), 1);
    assert!(c.is_variadic());
    match c {
        YarnFn::Variadic(v) => {
            assert_eq!(*v.func(), 30);
            assert!(matches!(v.parameter_types()[0], Type::String));
        },
        _ => panic!("missing"),
    }
}

#[test]
fn generated_variable_names() {
    assert_eq!(Library::<u8>::generate_unique_visited_variable_for_node("Start"), "$Yarn.Internal.Visiting.Start");
    assert_eq!(Library::<u8>::generate_unique_content_viewed_variable_name("line:a"), "$Yarn.Internal.Once.line:a");
    let expected = format!(
        "$Yarn.Internal.Once.{}",
        crc32fast::hash("'once' statement in file a.yarn, node Start, line 3".as_bytes())
    );
    assert_eq!(Library::<u8>::generate_unique_command_block_viewed_variable_name("a.yarn", "Start", 3), expected);
}

#[test]
fn function_types_collect_parameters() {
    let mut f = FunctionType::new();
    f.add_parameter(Some(Type::Number));
    f.add_parameter(None);
    f.set_return_type(Some(Type::String));
    assert_eq!(f.parameters.len(), 2);
    assert!(matches!(*f.return_type, Some(Type::String)));
    assert!(matches!(Type::from(f), Type::Function(_)));
}

fn branching_node() -> Node {
    Node {
        name: "Start".to_string(),
        instructions: vec![
            ins(OpCode::PushBool, vec![Operand::BoolValue(true)]),
            ins(OpCode::JumpIfFalse, vec![s("L2")]),
            ins(OpCode::RunLine, vec![s("line:a"), Operand::FloatValue(FloatBits(0))]),
            ins(OpCode::JumpTo, vec![s("L3")]),
            ins(OpCode::RunLine, vec![s("line:b"), Operand::FloatValue(FloatBits(0))]),
            ins(OpCode::Stop, vec![]),
        ],
        labels: vec![Label { name: "L2".to_string(), index: 4 }, Label { name: "L3".to_string(), index: 5 }],
        tags: vec![],
    }
}

#[test]
fn basic_blocks_split_at_jumps_and_labels() {
    let node = branching_node();
    let blocks = get_basic_blocks(&node);
    let starts: Vec<_> = blocks.iter().map(|b| b.first_instruction_index).collect();
    assert_eq!(starts, vec![0, 2, 4, 5]);
    let sizes: Vec<_> = blocks.iter().map(|b| b.instructions.len()).collect();
    assert_eq!(sizes, vec![2, 2, 1, 1]);
    let labels: Vec<_> = blocks.iter().map(|b| b.label_name.clone()).collect();
    assert_eq!(labels, vec![None, None, Some("L2".to_string()), Some("L3".to_string())]);
    assert!(blocks.iter().all(|b| b.node_name == "Start"));
    // The first block goes on to the next block or jumps to L2.
    let targets: Vec<_> = blocks[0]
        .destinations
        .iter()
        .filter_map(|d| match d {
            Destination::Block(b) => Some(b.block_index),
            _ => None,
        })
        .collect();
    assert!(targets.contains(&2));
    assert!(targets.contains(&1));
    assert_eq!(node.get_basic_blocks().len(), 4);
    assert!(get_basic_blocks(&Node { name: "E".to_string(), instructions: vec![], labels: vec![], tags: vec![] }).is_empty());
}

fn option(id: &str, failing: i32, complexity: i32) -> ContentSaliencyOption {
    ContentSaliencyOption {
        content_id: id.to_string(),
        failing_condition_count: failing,
        passing_condition_count: 0,
        complexity_score: complexity,
        content_type: ContentType::Line,
        destination: 0,
    }
}

#[test]
fn saliency_strategies_pick_as_documented() {
    let content = vec![option("a", 1, 5), option("b", 0, 1), option("c", 0, 3), option("d", 0, 3)];
    assert_eq!(FirstSaliencyStrategy.query(&content), Some(1));
    assert_eq!(BestSaliencyStrategy.query(&content), Some(3));
    let views = vec![0, 4, 2, 2];
    assert_eq!(BestLeastRecentlyViewedSaliencyStrategy.query(&content, &views), Some(2));
    let views = vec![0, 1, 2, 2];
    assert_eq!(BestLeastRecentlyViewedSaliencyStrategy.query(&content, &views), Some(1));
    assert_eq!(FirstSaliencyStrategy.query(&vec![option("x", 2, 0)]), None);
    assert_eq!(option("line:a", 0, 0).view_count_key(), "$Yarn.Internal.Content.ViewCount.line:a");
}

#[test]
fn destinations_stay_within_the_node() {
    // A jump to a label past the node's end, a detour at the end and a last block
    // with no stop lead nowhere outside the node's blocks.
    let node = Node {
        name: "Edge".to_string(),
        instructions: vec![
            ins(OpCode::JumpTo, vec![s("Past")]),
            ins(OpCode::PushString, vec![s("Other")]),
            ins(OpCode::DetourToNode, vec![]),
        ],
        labels: vec![Label { name: "Past".to_string(), index: 3 }],
        tags: vec![],
    };
    let blocks = get_basic_blocks(&node);
    assert_eq!(blocks.len(), 2);
    // The jump's label is out of range, so it gives no destination; the block falls
    // through to the next one.
    match &blocks[0].destinations[..] {
        [Destination::Block(x)] => assert_eq!(x.block_index, 1),
        other => panic!("unexpected {other:?}"),
    }
    // The detour has nothing to return to within the node.
    match &blocks[1].destinations[..] {
        [Destination::Node(n)] => {
            assert_eq!(n.node_name, "Other");
            assert!(n.return_to.is_none());
        },
        other => panic!("unexpected {other:?}"),
    }
    for b in &blocks {
        for d in &b.destinations {
            if let Destination::Block(x) = d {
                assert!(x.block_index < blocks.len());
            }
        }
    }
}

#[test]
fn a_default_library_is_empty_and_a_clone_keeps_the_names() {
    let empty: Library<u8> = Library::default();
    assert!(empty.names().is_empty());
    assert!(!empty.contains_function("string"));
    let mut lib: Library<u8> = Library::new();
    lib.add_function("a".to_string(), vec![Type::Number], Type::Boolean, 1)
        .add_function("b".to_string(), vec![], Type::String, 2);
    let copy = lib.clone();
    let mut names = copy.names();
    names.sort();
    assert_eq!(names, vec!["a".to_string(), "b".to_string()]);
    match copy.get("a") {
        Some(YarnFn::Typed(f)) => assert_eq!(f.call, 1),
        _ => panic!("expected a typed function"),
    }
}

#[test]
fn function_types_chain_their_setters() {
    let mut ft = FunctionType::new();
    ft.add_parameter(Some(Type::Number)).add_parameter(None).set_return_type(Some(Type::Boolean));
    assert_eq!(ft.parameters.len(), 2);
    assert!(matches!(ft.parameters[0], Some(Type::Number)));
    assert!(ft.parameters[1].is_none());
    assert!(matches!(*ft.return_type, Some(Type::Boolean)));
    let copy = Type::Function(ft).clone();
    match copy {
        Type::Function(f) => assert_eq!(f.parameters.len(), 2),
        _ => panic!("expected a function type"),
    }
}

#[test]
fn a_zero_seed_starts_where_new_starts() {
    let seeded = RandomBestLeastRecentlyViewedSaliencyStrategy::with_seed(0);
    let fresh = RandomBestLeastRecentlyViewedSaliencyStrategy::new();
    let default = RandomBestLeastRecentlyViewedSaliencyStrategy::default();
    assert_eq!(seeded.counter, fresh.counter);
    assert_eq!(default.counter, 0);
}
