//! Basic-block decomposition of compiled nodes.
//!
//! A basic block is a maximal straight-line run of instructions: control
//! enters only at its first instruction and leaves only after its last.
use vstd::prelude::*;
use crate::program::{has_string_operand, lookup_label, opcode_of, string_operand, Instruction, InstructionView, Node, NodeView, OpCode};
use crate::text::{lex_le, string_lex_le};

verus! {

// ---------------------------------------------------------------------------
// Public types
// ---------------------------------------------------------------------------

/// Why control flow moves from one block to another.
#[derive(Debug, Clone, Copy, PartialEq, Eq, Structural)]
pub enum Condition {
    /// Control falls through from the previous block.
    Fallthrough,
    /// Unconditional jump.
    DirectJump,
    /// Taken when the condition evaluates to `true`.
    ExpressionIsTrue,
    /// Taken when the condition evaluates to `false`.
    ExpressionIsFalse,
    /// Taken when the player selects the associated option.
    Option,
}

/// An intra-node jump to a specific basic block.
#[derive(Debug)]
pub struct BlockDestination {
    /// Index of the target block.
    pub block_index: usize,
    /// Why this edge is taken.
    pub condition: Condition,
}

/// The block to resume at after a detour finishes.
#[derive(Debug)]
pub struct ReturnToDestination {
    /// Name of the node that contains the return-to block.
    pub node_name: String,
    /// Index of the return-to block within that node's blocks.
    pub block_index: usize,
}

/// A jump (or detour) to a node whose name is known statically.
#[derive(Debug)]
pub struct NodeDestination {
    /// Name of the target node.
    pub node_name: String,
    /// Why this edge is taken.
    pub condition: Condition,
    /// For detours: where execution resumes.
    pub return_to: Option<ReturnToDestination>,
}

/// A jump to a node whose name is not known statically.
#[derive(Debug)]
pub struct AnyNodeDestination {
    /// For detours: where execution resumes.
    pub return_to: Option<ReturnToDestination>,
}

/// A player-visible option that transfers control to a block.
#[derive(Debug)]
pub struct OptionDestination {
    /// The string-table id of the option's text.
    pub line_id: String,
    /// Index of the target block.
    pub block_index: usize,
}

/// A possible destination after a block ends.
#[derive(Debug)]
pub enum Destination {
    /// Jumps to another block of the same node.
    Block(BlockDestination),
    /// Jumps or detours to a named node.
    Node(NodeDestination),
    /// Jumps or detours to a node named only at run time.
    AnyNode(AnyNodeDestination),
    /// Follows an option to another block.
    Option(OptionDestination),
}

/// The mathematical form of a [`Destination`].
pub enum DestinationView {
    /// A block of the same node.
    Block { block_index: int, condition: Condition },
    /// A named node, with the (node, block) to return to for detours.
    Node { node_name: Seq<char>, condition: Condition, return_to: Option<(Seq<char>, int)> },
    /// A node named only at run time.
    AnyNode { return_to: Option<(Seq<char>, int)> },
    /// An option leading to a block.
    Option { line_id: Seq<char>, block_index: int },
}

/// The (node, block) pair of a return-to destination.
pub open spec fn return_to_view(r: Option<ReturnToDestination>) -> Option<(Seq<char>, int)> {
    match r {
        Some(rt) => Some((rt.node_name@, rt.block_index as int)),
        None => None,
    }
}

impl View for Destination {
    type V = DestinationView;

    open spec fn view(&self) -> DestinationView {
        match self {
            Destination::Block(b) => DestinationView::Block { block_index: b.block_index as int, condition: b.condition },
            Destination::Node(n) => DestinationView::Node {
                node_name: n.node_name@,
                condition: n.condition,
                return_to: return_to_view(n.return_to),
            },
            Destination::AnyNode(a) => DestinationView::AnyNode { return_to: return_to_view(a.return_to) },
            Destination::Option(o) => DestinationView::Option { line_id: o.line_id@, block_index: o.block_index as int },
        }
    }
}

/// A maximal straight-line sequence of instructions of a node.
#[derive(Debug)]
pub struct BasicBlock {
    /// The smallest label name that marks the block's first instruction, if any.
    pub label_name: Option<String>,
    /// Index of the block's first instruction within the node.
    pub first_instruction_index: usize,
    /// Name of the node the block belongs to.
    pub node_name: String,
    /// The block's instructions.
    pub instructions: Vec<Instruction>,
    /// Possible successors after the block executes.
    pub destinations: Vec<Destination>,
    /// Indices of the blocks that have this block as a successor, ascending.
    pub ancestor_indices: Vec<usize>,
}

/// The mathematical form of a [`BasicBlock`].
pub struct BasicBlockView {
    /// The label name, if any.
    pub label_name: Option<Seq<char>>,
    /// Index of the first instruction.
    pub first_instruction_index: int,
    /// The node's name.
    pub node_name: Seq<char>,
    /// The instructions.
    pub instructions: Seq<InstructionView>,
    /// The destinations.
    pub destinations: Seq<DestinationView>,
    /// The ancestors.
    pub ancestor_indices: Seq<usize>,
}

impl View for BasicBlock {
    type V = BasicBlockView;

    open spec fn view(&self) -> BasicBlockView {
        BasicBlockView {
            label_name: match self.label_name {
                Some(s) => Some(s@),
                None => None,
            },
            first_instruction_index: self.first_instruction_index as int,
            node_name: self.node_name@,
            instructions: self.instructions@.map_values(|i: Instruction| i@),
            destinations: self.destinations@.map_values(|d: Destination| d@),
            ancestor_indices: self.ancestor_indices@,
        }
    }
}

// ---------------------------------------------------------------------------
// Specification
// ---------------------------------------------------------------------------

/// Whether an instruction with this opcode ends a straight-line run.
pub open spec fn ends_block(op: Option<OpCode>) -> bool {
    match op {
        Some(OpCode::JumpTo) | Some(OpCode::Jump) | Some(OpCode::JumpIfFalse) | Some(OpCode::Stop)
        | Some(OpCode::Return) | Some(OpCode::RunNode) | Some(OpCode::DetourToNode)
        | Some(OpCode::PeekAndJump) => true,
        _ => false,
    }
}

/// Whether some label marks instruction `i`.
pub open spec fn is_label_target(node: NodeView, i: int) -> bool {
    exists|j: int| 0 <= j < node.labels.len() && #[trigger] node.labels[j].1 == i
}

/// Whether instruction `i` starts a block: the first instruction, one that follows
/// a block-ending instruction, or one that a label marks.
pub open spec fn is_leader(node: NodeView, i: int) -> bool {
    &&& 0 <= i < node.instructions.len()
    &&& {
        ||| i == 0
        ||| ends_block(opcode_of(node.instructions[i - 1].opcode))
        ||| is_label_target(node, i)
    }
}

/// Whether `leaders` lists exactly the block starts of `node`, ascending.
#[verifier::opaque]
pub open spec fn leaders_of(node: NodeView, leaders: Seq<usize>) -> bool {
    &&& leaders.len() > 0
    &&& leaders[0] == 0
    &&& forall|k: int| 0 <= k < leaders.len() - 1 ==> #[trigger] leaders[k] < leaders[k + 1]
    &&& forall|k: int| 0 <= k < leaders.len() ==> is_leader(node, #[trigger] leaders[k] as int)
    &&& forall|i: int| is_leader(node, i) ==> exists|k: int| 0 <= k < leaders.len() && #[trigger] leaders[k] == i
}

/// Whether `leaders` starts at 0, ascends strictly and stays within the node.
pub open spec fn leaders_bounded(node: NodeView, leaders: Seq<usize>) -> bool {
    &&& leaders.len() > 0
    &&& leaders[0] == 0
    &&& strictly_ascending(leaders)
    &&& forall|k: int| 0 <= k < leaders.len() ==> #[trigger] leaders[k] < node.instructions.len()
}

/// Whether `leaders` ascends strictly.
pub open spec fn strictly_ascending(leaders: Seq<usize>) -> bool {
    forall|a: int, b: int| 0 <= a < b < leaders.len() ==> leaders[a] < leaders[b]
}

/// The block whose instruction range holds instruction `x`.
pub open spec fn block_for(leaders: Seq<usize>, x: int) -> int {
    choose|k: int| 0 <= k < leaders.len() && #[trigger] leaders[k] <= x && (k + 1 == leaders.len() || x < leaders[k + 1])
}

/// The block that holds instruction `x` of a node with `n` instructions; `None` when
/// `x` is out of range.
pub open spec fn block_at(leaders: Seq<usize>, n: int, x: int) -> Option<int> {
    if 0 <= x < n {
        Some(block_for(leaders, x))
    } else {
        None
    }
}

/// The index one past the last instruction of block `k`.
pub open spec fn block_end(node: NodeView, leaders: Seq<usize>, k: int) -> int {
    if k + 1 < leaders.len() {
        leaders[k + 1] as int
    } else {
        node.instructions.len() as int
    }
}

/// The block that label `name` leads into, if the label exists.
pub open spec fn block_for_label_spec(node: NodeView, leaders: Seq<usize>, name: Seq<char>) -> Option<int> {
    match lookup_label(node.labels, name) {
        Some(idx) => block_at(leaders, node.instructions.len() as int, (idx as usize) as int),
        None => None,
    }
}

/// The option edges that a dispatch produces for the pending (line id, label) pairs.
#[verifier::opaque]
pub open spec fn option_dests(node: NodeView, leaders: Seq<usize>, pending: Seq<(Seq<char>, Seq<char>)>) -> Seq<DestinationView>
    decreases pending.len(),
{
    if pending.len() == 0 {
        seq![]
    } else {
        let prev = option_dests(node, leaders, pending.drop_last());
        match block_for_label_spec(node, leaders, pending.last().1) {
            Some(b) => prev.push(DestinationView::Option { line_id: pending.last().0, block_index: b }),
            None => prev,
        }
    }
}

/// What the scan of a block knows after some of its instructions: the string last
/// pushed (if still on top), the options awaiting dispatch, and the edges found.
pub struct ScanState {
    /// The string known to be on top of the stack.
    pub tos: Option<Seq<char>>,
    /// Options (line id, label) awaiting a dispatching jump.
    pub pending: Seq<(Seq<char>, Seq<char>)>,
    /// Edges found so far.
    pub dests: Seq<DestinationView>,
}

/// Whether the operands that the analysis reads are present and are strings.
pub open spec fn analysis_operands_ok(ins: InstructionView) -> bool {
    match opcode_of(ins.opcode) {
        Some(OpCode::PushString) | Some(OpCode::JumpTo) | Some(OpCode::JumpIfFalse) => has_string_operand(ins, 0),
        Some(OpCode::AddOption) => has_string_operand(ins, 0) && has_string_operand(ins, 1),
        Some(OpCode::AddSaliencyCandidate) => has_string_operand(ins, 0) && has_string_operand(ins, 2),
        _ => true,
    }
}

/// Whether every instruction of `node` has the operands the analysis reads.
pub open spec fn node_operands_ok(node: NodeView) -> bool {
    forall|i: int| 0 <= i < node.instructions.len() ==> analysis_operands_ok(#[trigger] node.instructions[i])
}

/// One step of the scan of block `k`, over the instruction at node index `g`.
#[verifier::opaque]
pub open spec fn scan_step(node: NodeView, leaders: Seq<usize>, k: int, st: ScanState, g: int) -> ScanState {
    let ins = node.instructions[g];
    match opcode_of(ins.opcode) {
        None => ScanState { tos: None, pending: st.pending, dests: st.dests },
        Some(op) => match op {
            OpCode::PushString => ScanState { tos: Some(string_operand(ins, 0)), pending: st.pending, dests: st.dests },
            OpCode::CallFunc | OpCode::Pop | OpCode::PushBool | OpCode::PushFloat | OpCode::PushNull
            | OpCode::PushVariable | OpCode::SelectSaliencyCandidate => ScanState {
                tos: None,
                pending: st.pending,
                dests: st.dests,
            },
            OpCode::AddOption => ScanState {
                tos: st.tos,
                pending: st.pending.push((string_operand(ins, 0), string_operand(ins, 1))),
                dests: st.dests,
            },
            OpCode::AddSaliencyCandidate => ScanState {
                tos: st.tos,
                pending: st.pending.push((string_operand(ins, 0), string_operand(ins, 2))),
                dests: st.dests,
            },
            OpCode::Jump => ScanState {
                tos: st.tos,
                pending: seq![],
                dests: st.dests + option_dests(node, leaders, st.pending),
            },
            OpCode::JumpTo => match block_for_label_spec(node, leaders, string_operand(ins, 0)) {
                Some(b) => ScanState {
                    tos: st.tos,
                    pending: st.pending,
                    dests: st.dests.push(DestinationView::Block { block_index: b, condition: Condition::DirectJump }),
                },
                None => st,
            },
            OpCode::JumpIfFalse => {
                let d1 = match block_for_label_spec(node, leaders, string_operand(ins, 0)) {
                    Some(b) => st.dests.push(DestinationView::Block { block_index: b, condition: Condition::ExpressionIsFalse }),
                    None => st.dests,
                };
                let d2 = match block_at(leaders, node.instructions.len() as int, g + 1) {
                    Some(tb) => if tb != k {
                        d1.push(DestinationView::Block { block_index: tb, condition: Condition::ExpressionIsTrue })
                    } else {
                        d1
                    },
                    None => d1,
                };
                ScanState { tos: None, pending: st.pending, dests: d2 }
            },
            OpCode::RunNode => ScanState {
                tos: None,
                pending: st.pending,
                dests: st.dests.push(
                    match st.tos {
                        Some(name) => DestinationView::Node { node_name: name, condition: Condition::DirectJump, return_to: None },
                        None => DestinationView::AnyNode { return_to: None },
                    },
                ),
            },
            OpCode::DetourToNode => {
                let rt = match block_at(leaders, node.instructions.len() as int, g + 1) {
                    Some(b) => Some((node.name, b)),
                    None => None,
                };
                ScanState {
                    tos: None,
                    pending: st.pending,
                    dests: st.dests.push(
                        match st.tos {
                            Some(name) => DestinationView::Node { node_name: name, condition: Condition::DirectJump, return_to: rt },
                            None => DestinationView::AnyNode { return_to: rt },
                        },
                    ),
                }
            },
            _ => st,
        },
    }
}

/// The scan of the first `j` instructions of block `k`.
pub open spec fn scan(node: NodeView, leaders: Seq<usize>, k: int, j: int) -> ScanState
    decreases j,
{
    if j <= 0 {
        ScanState { tos: None, pending: seq![], dests: seq![] }
    } else {
        scan_step(node, leaders, k, scan(node, leaders, k, j - 1), leaders[k] + j - 1)
    }
}

/// Whether block `k` ends in an instruction after which nothing runs.
pub open spec fn ends_in_halt(node: NodeView, leaders: Seq<usize>, k: int) -> bool {
    let op = opcode_of(node.instructions[block_end(node, leaders, k) - 1].opcode);
    op == Some(OpCode::Stop) || op == Some(OpCode::Return)
}

/// The destinations of block `k`: the edges its instructions produce, or, when they
/// produce none and the block does not halt, the fall-through into the block that
/// holds the next instruction, where there is a next instruction.
#[verifier::opaque]
pub open spec fn block_destinations(node: NodeView, leaders: Seq<usize>, k: int) -> Seq<DestinationView> {
    let st = scan(node, leaders, k, block_end(node, leaders, k) - leaders[k]);
    if st.dests.len() == 0 && !ends_in_halt(node, leaders, k) {
        match block_at(leaders, node.instructions.len() as int, block_end(node, leaders, k)) {
            Some(b) => seq![DestinationView::Block { block_index: b, condition: Condition::Fallthrough }],
            None => st.dests,
        }
    } else {
        st.dests
    }
}

/// The block a destination leads to within the node, if any.
pub open spec fn dest_target(d: DestinationView) -> Option<int> {
    match d {
        DestinationView::Block { block_index, .. } => Some(block_index),
        DestinationView::Option { block_index, .. } => Some(block_index),
        _ => None,
    }
}

/// Whether block `p` has block `t` as a successor.
pub open spec fn has_edge(node: NodeView, leaders: Seq<usize>, p: int, t: int) -> bool {
    exists|j: int| 0 <= j < block_destinations(node, leaders, p).len()
        && dest_target(#[trigger] block_destinations(node, leaders, p)[j]) == Some(t)
}

/// Whether `name` is the smallest label name that marks instruction `i`.
pub open spec fn is_min_label_at(node: NodeView, i: int, name: Seq<char>) -> bool {
    &&& exists|j: int| 0 <= j < node.labels.len() && #[trigger] node.labels[j] == (name, i as i32) && node.labels[j].1 == i
    &&& forall|j: int| 0 <= j < node.labels.len() && #[trigger] node.labels[j].1 == i ==> lex_le(name, node.labels[j].0)
}

/// The starts of the given blocks.
pub open spec fn starts_of(blocks: Seq<BasicBlock>) -> Seq<usize> {
    blocks.map_values(|b: BasicBlock| b.first_instruction_index)
}

/// Whether `blocks` is the basic-block decomposition of `node`: none for a node
/// without instructions; otherwise one block per block start, in order, each holding
/// its instructions, the smallest label marking its start, its destinations, and
/// exactly the blocks that lead to it, ascending.
pub open spec fn is_basic_block_decomposition(node: NodeView, blocks: Seq<BasicBlock>) -> bool {
    &&& node.instructions.len() == 0 ==> blocks.len() == 0
    &&& node.instructions.len() > 0 ==> {
        &&& leaders_of(node, starts_of(blocks))
        &&& forall|k: int| 0 <= k < blocks.len() ==> block_ok(node, starts_of(blocks), k, #[trigger] blocks[k]@)
    }
}

// ---------------------------------------------------------------------------
// Algorithm
// ---------------------------------------------------------------------------

/// Whether the opcode number `v` ends a straight-line run.
fn opcode_ends_block(v: i32) -> (r: bool)
    ensures
        r == ends_block(opcode_of(v)),
{
    match OpCode::try_from_i32(v) {
        Some(OpCode::JumpTo) | Some(OpCode::Jump) | Some(OpCode::JumpIfFalse) | Some(OpCode::Stop)
        | Some(OpCode::Return) | Some(OpCode::RunNode) | Some(OpCode::DetourToNode)
        | Some(OpCode::PeekAndJump) => true,
        _ => false,
    }
}

/// Whether some label of `node` marks instruction `i`.
fn label_marks(node: &Node, i: usize) -> (r: bool)
    ensures
        r == is_label_target(node@, i as int),
{
    let mut j: usize = 0;
    while j < node.labels.len()
        invariant
            j <= node.labels.len(),
            forall|q: int| 0 <= q < j ==> node@.labels[q].1 != i as int,
        decreases node.labels.len() - j,
    {
        if node.labels[j].index >= 0 && node.labels[j].index as usize == i {
            assert(node@.labels[j as int].1 == i as int);
            return true;
        }
        assert(node@.labels[j as int].1 == node.labels@[j as int].index);
        j = j + 1;
    }
    false
}

/// The block starts of `node`, ascending.
fn compute_leaders(node: &Node) -> (r: Vec<usize>)
    requires
        node.instructions.len() > 0,
    ensures
        leaders_of(node@, r@),
        leaders_bounded(node@, r@),
{
    reveal(leaders_of);
    let n = node.instructions.len();
    let mut leaders: Vec<usize> = Vec::new();
    leaders.push(0);
    assert(leaders@[0] == 0);
    let mut i: usize = 1;
    while i < n
        invariant
            n == node.instructions.len(),
            1 <= i <= n,
            leaders@.len() > 0,
            leaders@[0] == 0,
            forall|a: int, b: int| 0 <= a < b < leaders@.len() ==> leaders@[a] < leaders@[b],
            forall|k: int| 0 <= k < leaders@.len() ==> leaders@[k] < i,
            forall|k: int| 0 <= k < leaders@.len() ==> is_leader(node@, #[trigger] leaders@[k] as int),
            forall|x: int| 0 <= x < i && is_leader(node@, x) ==> exists|k: int| 0 <= k < leaders@.len() && #[trigger] leaders@[k] == x,
        decreases n - i,
    {
        assert(node@.instructions[i - 1] == node.instructions@[i - 1]@);
        let lead = opcode_ends_block(node.instructions[i - 1].opcode) || label_marks(node, i);
        let ghost prev = leaders@;
        if lead {
            leaders.push(i);
            assert(leaders@[leaders@.len() - 1] == i);
        }
        proof {
            assert forall|x: int| 0 <= x < i + 1 && is_leader(node@, x) implies exists|k: int|
                0 <= k < leaders@.len() && #[trigger] leaders@[k] == x by {
                if x == i {
                    assert(lead);
                    assert(leaders@[leaders@.len() - 1] == x);
                } else {
                    let k = choose|k: int| 0 <= k < prev.len() && #[trigger] prev[k] == x;
                    assert(leaders@[k] == x);
                }
            }
        }
        i = i + 1;
    }
    leaders
}

/// The index of the block (given by the ascending `leader_list` of a node with `n`
/// instructions) whose range holds `instr_idx`; `None` when `instr_idx` is out of
/// range: past the node's end or before the first block.
fn block_for_instr(leader_list: &Vec<usize>, n: usize, instr_idx: usize) -> (r: Option<usize>)
    requires
        strictly_ascending(leader_list@),
    ensures
        match r {
            Some(k) => instr_idx < n && k < leader_list@.len() && leader_list@[k as int] <= instr_idx && (k + 1
                == leader_list@.len() || instr_idx < leader_list@[k + 1]),
            None => instr_idx >= n || leader_list@.len() == 0 || instr_idx < leader_list@[0],
        },
{
    if instr_idx >= n {
        return None;
    }
    let mut p: usize = 0;
    while p < leader_list.len() && leader_list[p] <= instr_idx
        invariant
            p <= leader_list@.len(),
            forall|q: int| 0 <= q < p ==> leader_list@[q] <= instr_idx,
        decreases leader_list@.len() - p,
    {
        p = p + 1;
    }
    if p == 0 {
        None
    } else {
        Some(p - 1)
    }
}

/// Lemma: the block that `block_for_instr` finds is `block_for`.
proof fn lemma_block_for_unique(leaders: Seq<usize>, x: int, k: int)
    requires
        strictly_ascending(leaders),
        0 <= k < leaders.len(),
        leaders[k] <= x,
        k + 1 == leaders.len() || x < leaders[k + 1],
    ensures
        block_for(leaders, x) == k,
{
    let c = block_for(leaders, x);
    assert(0 <= c < leaders.len() && leaders[c] <= x && (c + 1 == leaders.len() || x < leaders[c + 1]));
    if c < k {
        assert(leaders[c + 1] <= leaders[k]);
    } else if c > k {
        assert(leaders[k + 1] <= leaders[c]);
    }
}

/// The block that instruction `x` of a node with `n` instructions falls in, for
/// leader lists that start at 0; `None` when `x` is out of range.
fn block_of(leader_list: &Vec<usize>, n: usize, x: usize) -> (r: Option<usize>)
    requires
        strictly_ascending(leader_list@),
        leader_list@.len() > 0,
        leader_list@[0] == 0,
    ensures
        match r {
            Some(k) => block_at(leader_list@, n as int, x as int) == Some(k as int) && k < leader_list@.len(),
            None => block_at(leader_list@, n as int, x as int) is None,
        },
{
    let r = block_for_instr(leader_list, n, x);
    match r {
        Some(k) => {
            proof {
                lemma_block_for_unique(leader_list@, x as int, k as int);
            }
            Some(k)
        },
        None => None,
    }
}

/// Looks up a label name in `node`, then maps the instruction it marks to a block.
fn block_for_label(leader_list: &Vec<usize>, node: &Node, label: &String) -> (r: Option<usize>)
    requires
        strictly_ascending(leader_list@),
        leader_list@.len() > 0,
        leader_list@[0] == 0,
    ensures
        match r {
            Some(b) => block_for_label_spec(node@, leader_list@, label@) == Some(b as int),
            None => block_for_label_spec(node@, leader_list@, label@) is None,
        },
        r is Some ==> r->0 < leader_list@.len(),
{
    match node.label_index(label) {
        Some(idx) => block_of(leader_list, node.instructions.len(), idx as usize),
        None => None,
    }
}

/// The mathematical form of the pending options list.
pub open spec fn pending_view(p: Seq<(String, String)>) -> Seq<(Seq<char>, Seq<char>)> {
    p.map_values(|e: (String, String)| (e.0@, e.1@))
}

/// The mathematical form of a list of destinations.
pub open spec fn dests_view(d: Seq<Destination>) -> Seq<DestinationView> {
    d.map_values(|x: Destination| x@)
}

/// The scan state that the executable scan holds.
pub open spec fn scan_view(tos: Option<String>, pending: Seq<(String, String)>, dests: Seq<Destination>) -> ScanState {
    ScanState {
        tos: match tos {
            Some(s) => Some(s@),
            None => None,
        },
        pending: pending_view(pending),
        dests: dests_view(dests),
    }
}

/// Appends the option edges for the pending options to `dests`.
fn dispatch_options(node: &Node, leader_list: &Vec<usize>, pending: &Vec<(String, String)>, dests: &mut Vec<Destination>)
    requires
        strictly_ascending(leader_list@),
        leader_list@.len() > 0,
        leader_list@[0] == 0,
    ensures
        dests_view(final(dests)@) == dests_view(old(dests)@) + option_dests(node@, leader_list@, pending_view(pending@)),
{
    reveal(option_dests);
    let ghost start = dests_view(dests@);
    let ghost pv = pending_view(pending@);
    let mut q: usize = 0;
    assert(pv.take(0) =~= seq![]);
    assert(start + seq![] =~= start);
    while q < pending.len()
        invariant
            strictly_ascending(leader_list@),
            leader_list@.len() > 0,
            leader_list@[0] == 0,
            pv == pending_view(pending@),
            q <= pending@.len(),
            dests_view(dests@) == start + option_dests(node@, leader_list@, pv.take(q as int)),
        decreases pending@.len() - q,
    {
        reveal(option_dests);
        assert(pv.take(q + 1).drop_last() =~= pv.take(q as int));
        assert(pv.take(q + 1).last() == pv[q as int]);
        let ghost prev = dests@;
        assert(pv[q as int] == (pending@[q as int].0@, pending@[q as int].1@));
        let ghost od = option_dests(node@, leader_list@, pv.take(q as int));
        match block_for_label(leader_list, node, &pending[q].1) {
            Some(b) => {
                dests.push(Destination::Option(OptionDestination { line_id: pending[q].0.clone(), block_index: b }));
                assert(dests_view(dests@) =~= dests_view(prev).push(dests@.last()@));
                assert(option_dests(node@, leader_list@, pv.take(q + 1)) == od.push(dests@.last()@));
                assert((start + od).push(dests@.last()@) =~= start + od.push(dests@.last()@));
            },
            None => {
                assert(option_dests(node@, leader_list@, pv.take(q + 1)) == od);
            },
        }
        q = q + 1;
    }
    assert(pv.take(pending@.len() as int) =~= pv);
}

/// Runs one step of the scan of block `k` over instruction `g`.
#[verifier::rlimit(60)]
fn scan_instruction(
    node: &Node,
    leader_list: &Vec<usize>,
    k: usize,
    g: usize,
    tos: &mut Option<String>,
    pending: &mut Vec<(String, String)>,
    dests: &mut Vec<Destination>,
)
    requires
        strictly_ascending(leader_list@),
        leader_list@.len() > 0,
        leader_list@[0] == 0,
        node_operands_ok(node@),
        g < node@.instructions.len(),
        g + 1 <= usize::MAX,
    ensures
        scan_view(*final(tos), final(pending)@, final(dests)@) == scan_step(
            node@,
            leader_list@,
            k as int,
            scan_view(*old(tos), old(pending)@, old(dests)@),
            g as int,
        ),
{
    reveal(scan_step);
    let ghost before = scan_view(*tos, pending@, dests@);
    let ghost old_dests = dests@;
    let ins = &node.instructions[g];
    assert(node@.instructions[g as int] == ins@);
    assert(analysis_operands_ok(node@.instructions[g as int]));
    match OpCode::try_from_i32(ins.opcode) {
        None => {
            *tos = None;
        },
        Some(OpCode::PushString) => {
            *tos = Some(ins.read_string_operand(0));
        },
        Some(OpCode::CallFunc) | Some(OpCode::Pop) | Some(OpCode::PushBool) | Some(OpCode::PushFloat)
        | Some(OpCode::PushNull) | Some(OpCode::PushVariable) | Some(OpCode::SelectSaliencyCandidate) => {
            *tos = None;
        },
        Some(OpCode::AddOption) => {
            let a = ins.read_string_operand(0);
            let b = ins.read_string_operand(1);
            pending.push((a, b));
            assert(pending_view(pending@) =~= before.pending.push((string_operand(ins@, 0), string_operand(ins@, 1))));
        },
        Some(OpCode::AddSaliencyCandidate) => {
            let a = ins.read_string_operand(0);
            let b = ins.read_string_operand(2);
            pending.push((a, b));
            assert(pending_view(pending@) =~= before.pending.push((string_operand(ins@, 0), string_operand(ins@, 2))));
        },
        Some(OpCode::Jump) => {
            dispatch_options(node, leader_list, pending, dests);
            *pending = Vec::new();
            assert(pending_view(pending@) =~= seq![]);
        },
        Some(OpCode::JumpTo) => {
            let label = ins.read_string_operand(0);
            match block_for_label(leader_list, node, &label) {
                Some(b) => {
                    dests.push(Destination::Block(BlockDestination { block_index: b, condition: Condition::DirectJump }));
                    assert(dests_view(dests@) =~= dests_view(old_dests).push(dests@.last()@));
                },
                None => {},
            }
        },
        Some(OpCode::JumpIfFalse) => {
            let label = ins.read_string_operand(0);
            match block_for_label(leader_list, node, &label) {
                Some(b) => {
                    dests.push(Destination::Block(BlockDestination { block_index: b, condition: Condition::ExpressionIsFalse }));
                    assert(dests_view(dests@) =~= dests_view(old_dests).push(dests@.last()@));
                },
                None => {},
            }
            let ghost mid = dests@;
            match block_of(leader_list, node.instructions.len(), g + 1) {
                Some(tb) => {
                    if tb != k {
                        dests.push(
                            Destination::Block(BlockDestination { block_index: tb, condition: Condition::ExpressionIsTrue }),
                        );
                        assert(dests_view(dests@) =~= dests_view(mid).push(dests@.last()@));
                    }
                },
                None => {},
            }
            *tos = None;
        },
        Some(OpCode::RunNode) => {
            let d = match &*tos {
                Some(name) => Destination::Node(NodeDestination {
                    node_name: name.clone(),
                    condition: Condition::DirectJump,
                    return_to: None,
                }),
                None => Destination::AnyNode(AnyNodeDestination { return_to: None }),
            };
            dests.push(d);
            assert(dests_view(dests@) =~= dests_view(old_dests).push(dests@.last()@));
            *tos = None;
        },
        Some(OpCode::DetourToNode) => {
            let return_to = match block_of(leader_list, node.instructions.len(), g + 1) {
                Some(rb) => Some(ReturnToDestination { node_name: node.name.clone(), block_index: rb }),
                None => None,
            };
            let d = match &*tos {
                Some(name) => Destination::Node(NodeDestination {
                    node_name: name.clone(),
                    condition: Condition::DirectJump,
                    return_to,
                }),
                None => Destination::AnyNode(AnyNodeDestination { return_to }),
            };
            dests.push(d);
            assert(dests_view(dests@) =~= dests_view(old_dests).push(dests@.last()@));
            *tos = None;
        },
        _ => {},
    }
}

/// The destinations of block `k`.
fn compute_block_destinations(node: &Node, leader_list: &Vec<usize>, k: usize) -> (r: Vec<Destination>)
    requires
        leaders_bounded(node@, leader_list@),
        node_operands_ok(node@),
        k < leader_list@.len(),
    ensures
        dests_view(r@) == block_destinations(node@, leader_list@, k as int),
{
    let ghost nv = node@;
    let ghost lv = leader_list@;
    let n = node.instructions.len();
    let start = leader_list[k];
    let end = if leader_list.len() - k > 1 { leader_list[k + 1] } else { n };
    proof {
        assert(lv[k as int] < n);
        if k + 1 < leader_list.len() {
            assert(lv[k + 1] < n);
            assert(lv[k as int] < lv[k + 1]);
        }
    }
    let mut tos: Option<String> = None;
    let mut pending: Vec<(String, String)> = Vec::new();
    let mut dests: Vec<Destination> = Vec::new();
    let mut g: usize = start;
    assert(pending_view(pending@) =~= seq![]);
    assert(dests_view(dests@) =~= seq![]);
    assert(scan_view(tos, pending@, dests@) == scan(nv, lv, k as int, 0));
    while g < end
        invariant
            nv == node@,
            lv == leader_list@,
            leaders_bounded(nv, lv),
            node_operands_ok(nv),
            k < lv.len(),
            n == nv.instructions.len(),
            start == lv[k as int],
            end == block_end(nv, lv, k as int),
            start < end <= n,
            start <= g <= end,
            scan_view(tos, pending@, dests@) == scan(nv, lv, k as int, g - start),
        decreases end - g,
    {
        scan_instruction(node, leader_list, k, g, &mut tos, &mut pending, &mut dests);
        g = g + 1;
    }
    reveal(block_destinations);
    assert(nv.instructions[end - 1] == node.instructions@[end - 1]@);
    let last_op = OpCode::try_from_i32(node.instructions[end - 1].opcode);
    let halts = match last_op {
        Some(OpCode::Stop) | Some(OpCode::Return) => true,
        _ => false,
    };
    if dests.len() == 0 && !halts {
        match block_of(leader_list, n, end) {
            Some(nb) => {
                dests.push(Destination::Block(BlockDestination { block_index: nb, condition: Condition::Fallthrough }));
                assert(dests_view(dests@) =~= seq![dests@[0]@]);
            },
            None => {},
        }
    }
    dests
}

/// Whether some destination in `dests` leads to block `t`.
fn leads_to(dests: &Vec<Destination>, t: usize) -> (r: bool)
    ensures
        r == exists|j: int| 0 <= j < dests@.len() && dest_target(#[trigger] dests@[j]@) == Some(t as int),
{
    let mut j: usize = 0;
    while j < dests.len()
        invariant
            j <= dests@.len(),
            forall|q: int| 0 <= q < j ==> dest_target(#[trigger] dests@[q]@) != Some(t as int),
        decreases dests@.len() - j,
    {
        let hit = match &dests[j] {
            Destination::Block(b) => b.block_index == t,
            Destination::Option(o) => o.block_index == t,
            _ => false,
        };
        if hit {
            assert(dest_target(dests@[j as int]@) == Some(t as int));
            return true;
        }
        j = j + 1;
    }
    false
}

/// The smallest label name (by character order) that marks instruction `i`.
fn min_label_at(node: &Node, i: usize) -> (r: Option<String>)
    ensures
        r is None <==> !is_label_target(node@, i as int),
        r matches Some(s) ==> is_min_label_at(node@, i as int, s@),
{
    let mut best: Option<String> = None;
    let mut j: usize = 0;
    while j < node.labels.len()
        invariant
            j <= node.labels.len(),
            best is None <==> forall|q: int| 0 <= q < j ==> node@.labels[q].1 != i as int,
            best matches Some(s) ==> {
                &&& exists|q: int| 0 <= q < j && #[trigger] node@.labels[q] == (s@, i as i32) && node@.labels[q].1 == i
                &&& forall|q: int| 0 <= q < j && #[trigger] node@.labels[q].1 == i ==> lex_le(s@, node@.labels[q].0)
            },
        decreases node.labels.len() - j,
    {
        assert(node@.labels[j as int] == (node.labels@[j as int].name@, node.labels@[j as int].index));
        if node.labels[j].index >= 0 && node.labels[j].index as usize == i {
            let take = match &best {
                Some(s) => !string_lex_le(s, &node.labels[j].name),
                None => true,
            };
            if take {
                proof {
                    if best is Some {
                        crate::text::lemma_lex_le_total(node@.labels[j as int].0, best->0@);
                        assert forall|q: int| 0 <= q < j + 1 && #[trigger] node@.labels[q].1 == i implies lex_le(
                            node@.labels[j as int].0,
                            node@.labels[q].0,
                        ) by {
                            if q < j {
                                crate::text::lemma_lex_le_trans(node@.labels[j as int].0, best->0@, node@.labels[q].0);
                            } else {
                                crate::text::lemma_lex_le_refl(node@.labels[j as int].0);
                            }
                        }
                    } else {
                        crate::text::lemma_lex_le_refl(node@.labels[j as int].0);
                    }
                }
                best = Some(node.labels[j].name.clone());
                assert(node@.labels[j as int] == (best->0@, i as i32));
            }
        }
        j = j + 1;
    }
    proof {
        if best is None {
            assert(!is_label_target(node@, i as int));
        } else {
            assert(is_label_target(node@, i as int));
        }
    }
    best
}

/// The blocks that lead to block `k`, ascending.
fn compute_ancestors(node: &Node, leader_list: &Vec<usize>, k: usize) -> (r: Vec<usize>)
    requires
        leaders_bounded(node@, leader_list@),
        node_operands_ok(node@),
        k < leader_list@.len(),
    ensures
        strictly_ascending(r@),
        forall|q: int| 0 <= q < r@.len() ==> #[trigger] r@[q] < leader_list@.len() && has_edge(
            node@,
            leader_list@,
            r@[q] as int,
            k as int,
        ),
        forall|p: int| 0 <= p < leader_list@.len() && has_edge(node@, leader_list@, p, k as int) ==> r@.contains(p as usize),
{
    let ghost lv = leader_list@;
    let nb = leader_list.len();
    let mut ancestors: Vec<usize> = Vec::new();
    let mut p: usize = 0;
    while p < nb
        invariant
            nb == lv.len(),
            lv == leader_list@,
            leaders_bounded(node@, lv),
            node_operands_ok(node@),
            k < nb,
            p <= nb,
            strictly_ascending(ancestors@),
            forall|q: int| 0 <= q < ancestors@.len() ==> #[trigger] ancestors@[q] < p && has_edge(
                node@,
                lv,
                ancestors@[q] as int,
                k as int,
            ),
            forall|x: int| 0 <= x < p && has_edge(node@, lv, x, k as int) ==> ancestors@.contains(x as usize),
        decreases nb - p,
    {
        let ds = compute_block_destinations(node, leader_list, p);
        let hit = leads_to(&ds, k);
        proof {
            let bd = block_destinations(node@, lv, p as int);
            assert(bd == dests_view(ds@));
            if hit {
                let j = choose|j: int| 0 <= j < ds@.len() && dest_target(#[trigger] ds@[j]@) == Some(k as int);
                assert(bd[j] == ds@[j]@);
                assert(has_edge(node@, lv, p as int, k as int));
            } else {
                assert forall|j: int| 0 <= j < bd.len() implies dest_target(#[trigger] bd[j]) != Some(k as int) by {
                    assert(bd[j] == ds@[j]@);
                }
                assert(!has_edge(node@, lv, p as int, k as int));
            }
        }
        let ghost prev = ancestors@;
        if hit {
            ancestors.push(p);
            proof {
                assert forall|x: int| 0 <= x < p + 1 && has_edge(node@, lv, x, k as int) implies ancestors@.contains(
                    x as usize,
                ) by {
                    if x < p {
                        assert(prev.contains(x as usize));
                        let qi = choose|qi: int| 0 <= qi < prev.len() && prev[qi] == x as usize;
                        assert(ancestors@[qi] == x as usize);
                    } else {
                        assert(ancestors@[ancestors@.len() - 1] == p);
                    }
                }
            }
        }
        p = p + 1;
    }
    ancestors
}

/// Whether `b` is block `k` of `node`, given the block starts `leaders`.
#[verifier::opaque]
pub open spec fn block_ok(node: NodeView, leaders: Seq<usize>, k: int, b: BasicBlockView) -> bool {
    &&& b.first_instruction_index == leaders[k] as int
    &&& b.node_name == node.name
    &&& b.instructions == node.instructions.subrange(leaders[k] as int, block_end(node, leaders, k))
    &&& b.destinations == block_destinations(node, leaders, k)
    &&& (b.label_name is None <==> !is_label_target(node, leaders[k] as int))
    &&& (b.label_name matches Some(s) ==> is_min_label_at(node, leaders[k] as int, s))
    &&& strictly_ascending(b.ancestor_indices)
    &&& forall|q: int| 0 <= q < b.ancestor_indices.len() ==> #[trigger] b.ancestor_indices[q] < leaders.len()
            && has_edge(node, leaders, b.ancestor_indices[q] as int, k)
    &&& forall|p: int| 0 <= p < leaders.len() && has_edge(node, leaders, p, k) ==> b.ancestor_indices.contains(p as usize)
}

/// Builds block `k` of `node`.
fn build_block(node: &Node, leader_list: &Vec<usize>, k: usize) -> (r: BasicBlock)
    requires
        leaders_bounded(node@, leader_list@),
        node_operands_ok(node@),
        k < leader_list@.len(),
    ensures
        block_ok(node@, leader_list@, k as int, r@),
{
    let ghost lv = leader_list@;
    let n = node.instructions.len();
    let start = leader_list[k];
    let end = if leader_list.len() - k > 1 { leader_list[k + 1] } else { n };
    proof {
        assert(lv[k as int] < n);
        if k + 1 < leader_list.len() {
            assert(lv[k + 1] < n);
            assert(lv[k as int] < lv[k + 1]);
        }
    }
    let mut instrs: Vec<Instruction> = Vec::new();
    let mut g: usize = start;
    while g < end
        invariant
            start <= g <= end <= n,
            n == node@.instructions.len(),
            instrs@.len() == g - start,
            forall|q: int| 0 <= q < instrs@.len() ==> #[trigger] instrs@[q]@ == node@.instructions[start + q],
        decreases end - g,
    {
        instrs.push(node.instructions[g].duplicate());
        g = g + 1;
    }
    assert(instrs@.map_values(|i: Instruction| i@) =~= node@.instructions.subrange(start as int, end as int));
    let ancestor_indices = compute_ancestors(node, leader_list, k);
    let label_name = min_label_at(node, start);
    let destinations = compute_block_destinations(node, leader_list, k);
    reveal(block_ok);
    BasicBlock {
        label_name,
        first_instruction_index: start,
        node_name: node.name.clone(),
        instructions: instrs,
        destinations,
        ancestor_indices,
    }
}

/// Computes the basic-block decomposition of `node`.
///
/// The blocks are ordered by their first instruction; block 0 is the entry block.
/// A node without instructions has no blocks.
pub fn get_basic_blocks(node: &Node) -> (r: Vec<BasicBlock>)
    requires
        node_operands_ok(node@),
    ensures
        is_basic_block_decomposition(node@, r@),
{
    let n = node.instructions.len();
    if n == 0 {
        return Vec::new();
    }
    let leaders = compute_leaders(node);
    let ghost lv = leaders@;
    let nb = leaders.len();
    let mut blocks: Vec<BasicBlock> = Vec::new();
    let mut k: usize = 0;
    while k < nb
        invariant
            nb == lv.len(),
            lv == leaders@,
            leaders_of(node@, lv),
            leaders_bounded(node@, lv),
            node_operands_ok(node@),
            k <= nb,
            blocks@.len() == k,
            forall|q: int| 0 <= q < k ==> block_ok(node@, lv, q, #[trigger] blocks@[q]@),
        decreases nb - k,
    {
        blocks.push(build_block(node, &leaders, k));
        k = k + 1;
    }
    proof {
        assert forall|q: int| 0 <= q < nb implies #[trigger] starts_of(blocks@)[q] == lv[q] by {
            assert(block_ok(node@, lv, q, blocks@[q]@));
            reveal(block_ok);
        }
        assert(starts_of(blocks@) =~= lv);
    }
    blocks
}

/// Adds basic-block analysis to a compiled [`Node`].
pub trait NodeBasicBlocksExt {
    /// Whether the instructions carry the operands the analysis reads.
    spec fn operands_fit_analysis(&self) -> bool;

    /// Whether `blocks` is this node's basic-block decomposition.
    spec fn decomposes_into(&self, blocks: Seq<BasicBlock>) -> bool;

    /// Computes the basic-block decomposition of this node.
    fn get_basic_blocks(&self) -> (r: Vec<BasicBlock>)
        requires
            self.operands_fit_analysis(),
        ensures
            self.decomposes_into(r@),
    ;
}

impl NodeBasicBlocksExt for Node {
    open spec fn operands_fit_analysis(&self) -> bool {
        node_operands_ok(self@)
    }

    open spec fn decomposes_into(&self, blocks: Seq<BasicBlock>) -> bool {
        is_basic_block_decomposition(self@, blocks)
    }

    fn get_basic_blocks(&self) -> (r: Vec<BasicBlock>) {
        get_basic_blocks(self)
    }
}

/// Whether destination `d` leads only to blocks `0..count`: its block, or the block
/// a detour returns to.
pub open spec fn dest_within(d: DestinationView, count: int) -> bool {
    match d {
        DestinationView::Block { block_index, .. } => 0 <= block_index < count,
        DestinationView::Option { block_index, .. } => 0 <= block_index < count,
        DestinationView::Node { return_to, .. } => return_to matches Some(rt) ==> 0 <= rt.1 < count,
        DestinationView::AnyNode { return_to } => return_to matches Some(rt) ==> 0 <= rt.1 < count,
    }
}

/// Whether every destination in `ds` leads only to blocks `0..count`.
pub open spec fn dests_within(ds: Seq<DestinationView>, count: int) -> bool {
    forall|j: int| 0 <= j < ds.len() ==> dest_within(#[trigger] ds[j], count)
}

proof fn lemma_block_for_found(leaders: Seq<usize>, x: int, k: int)
    requires
        strictly_ascending(leaders),
        0 <= k < leaders.len(),
        leaders[k] <= x,
    ensures
        0 <= block_for(leaders, x) < leaders.len(),
    decreases leaders.len() - k,
{
    if k + 1 < leaders.len() && leaders[k + 1] <= x {
        lemma_block_for_found(leaders, x, k + 1);
    } else {
        assert(leaders[k] <= x && (k + 1 == leaders.len() || x < leaders[k + 1]));
    }
}

proof fn lemma_block_at_within(leaders: Seq<usize>, n: int, x: int)
    requires
        strictly_ascending(leaders),
        leaders.len() > 0,
        leaders[0] == 0,
    ensures
        block_at(leaders, n, x) matches Some(b) ==> 0 <= b < leaders.len(),
{
    if 0 <= x < n {
        lemma_block_for_found(leaders, x, 0);
    }
}

proof fn lemma_option_dests_within(node: NodeView, leaders: Seq<usize>, pending: Seq<(Seq<char>, Seq<char>)>)
    requires
        strictly_ascending(leaders),
        leaders.len() > 0,
        leaders[0] == 0,
    ensures
        dests_within(option_dests(node, leaders, pending), leaders.len() as int),
    decreases pending.len(),
{
    reveal(option_dests);
    if pending.len() > 0 {
        lemma_option_dests_within(node, leaders, pending.drop_last());
        match lookup_label(node.labels, pending.last().1) {
            Some(idx) => lemma_block_at_within(leaders, node.instructions.len() as int, (idx as usize) as int),
            None => {},
        }
        let prev = option_dests(node, leaders, pending.drop_last());
        let all = option_dests(node, leaders, pending);
        assert forall|j: int| 0 <= j < all.len() implies dest_within(#[trigger] all[j], leaders.len() as int) by {
            if j < prev.len() {
                assert(all[j] == prev[j]);
            }
        }
    }
}

proof fn lemma_scan_within(node: NodeView, leaders: Seq<usize>, k: int, j: int)
    requires
        strictly_ascending(leaders),
        leaders.len() > 0,
        leaders[0] == 0,
    ensures
        dests_within(scan(node, leaders, k, j).dests, leaders.len() as int),
    decreases j,
{
    if j > 0 {
        lemma_scan_within(node, leaders, k, j - 1);
        let st = scan(node, leaders, k, j - 1);
        let g = leaders[k] + j - 1;
        let ins = node.instructions[g];
        let c = leaders.len() as int;
        reveal(scan_step);
        lemma_block_at_within(leaders, node.instructions.len() as int, g + 1);
        match lookup_label(node.labels, string_operand(ins, 0)) {
            Some(idx) => lemma_block_at_within(leaders, node.instructions.len() as int, (idx as usize) as int),
            None => {},
        }
        lemma_option_dests_within(node, leaders, st.pending);
        let next = scan(node, leaders, k, j).dests;
        let od = option_dests(node, leaders, st.pending);
        assert forall|q: int| 0 <= q < next.len() implies dest_within(#[trigger] next[q], c) by {
            if q < st.dests.len() {
                assert(next[q] == st.dests[q]);
            } else if opcode_of(ins.opcode) == Some(OpCode::Jump) {
                assert(next[q] == od[q - st.dests.len()]);
            }
        }
    }
}

/// Every destination of every block of a node's basic-block decomposition leads
/// within the node's blocks: a jump, a branch or an option to one of them, and a
/// detour back to one of them.
pub proof fn law_destinations_within_blocks(node: NodeView, blocks: Seq<BasicBlock>, k: int, j: int)
    requires
        is_basic_block_decomposition(node, blocks),
        0 <= k < blocks.len(),
        0 <= j < blocks[k]@.destinations.len(),
    ensures
        dest_within(blocks[k]@.destinations[j], blocks.len() as int),
{
    let leaders = starts_of(blocks);
    assert(leaders_of(node, leaders));
    reveal(leaders_of);
    assert(block_ok(node, leaders, k, blocks[k]@));
    reveal(block_ok);
    assert forall|a: int, b: int| 0 <= a < b < leaders.len() implies leaders[a] < leaders[b] by {
        lemma_leaders_ascending(leaders, a, b);
    }
    reveal(block_destinations);
    let st = scan(node, leaders, k, block_end(node, leaders, k) - leaders[k]);
    lemma_scan_within(node, leaders, k, block_end(node, leaders, k) - leaders[k]);
    lemma_block_at_within(leaders, node.instructions.len() as int, block_end(node, leaders, k));
    assert(leaders.len() == blocks.len());
    let ds = block_destinations(node, leaders, k);
    assert(blocks[k]@.destinations == ds);
    if st.dests.len() == 0 && !ends_in_halt(node, leaders, k) {
        match block_at(leaders, node.instructions.len() as int, block_end(node, leaders, k)) {
            Some(b) => {
                assert(ds == seq![DestinationView::Block { block_index: b, condition: Condition::Fallthrough }]);
            },
            None => {
                assert(ds == st.dests);
            },
        }
    } else {
        assert(ds == st.dests);
        assert(dest_within(st.dests[j], leaders.len() as int));
    }
}

/// Whether block `b` holds instruction `i` of its node.
pub open spec fn block_holds(b: BasicBlockView, i: int) -> bool {
    b.first_instruction_index <= i < b.first_instruction_index + b.instructions.len()
}

pub proof fn lemma_leaders_ascending(leaders: Seq<usize>, a: int, b: int)
    requires
        forall|k: int| 0 <= k < leaders.len() - 1 ==> #[trigger] leaders[k] < leaders[k + 1],
        0 <= a < b < leaders.len(),
    ensures
        leaders[a] < leaders[b],
    decreases b - a,
{
    assert(leaders[b - 1] < leaders[b - 1 + 1]);
    if a < b - 1 {
        lemma_leaders_ascending(leaders, a, b - 1);
    }
}

proof fn lemma_block_with(node: NodeView, blocks: Seq<BasicBlock>, i: int, k: int)
    requires
        is_basic_block_decomposition(node, blocks),
        0 <= i < node.instructions.len(),
        0 <= k < blocks.len(),
        starts_of(blocks)[k] <= i,
    ensures
        exists|j: int| 0 <= j < blocks.len() && #[trigger] block_holds(blocks[j]@, i),
    decreases blocks.len() - k,
{
    let leaders = starts_of(blocks);
    assert(leaders_of(node, leaders));
    reveal(leaders_of);
    assert(block_ok(node, leaders, k, blocks[k]@));
    reveal(block_ok);
    assert(is_leader(node, leaders[k] as int));
    if k + 1 < blocks.len() {
        assert(leaders[k] < leaders[k + 1]);
        assert(is_leader(node, leaders[k + 1] as int));
    }
    if k + 1 < blocks.len() && leaders[k + 1] <= i {
        lemma_block_with(node, blocks, i, k + 1);
    } else {
        assert(block_holds(blocks[k]@, i));
    }
}

/// Every instruction of a node lies in exactly one block of its basic-block decomposition.
pub proof fn law_blocks_partition_instructions(node: NodeView, blocks: Seq<BasicBlock>, i: int)
    requires
        is_basic_block_decomposition(node, blocks),
        0 <= i < node.instructions.len(),
    ensures
        exists|k: int| 0 <= k < blocks.len() && #[trigger] block_holds(blocks[k]@, i),
        forall|k1: int, k2: int|
            0 <= k1 < blocks.len() && 0 <= k2 < blocks.len() && #[trigger] block_holds(blocks[k1]@, i)
                && #[trigger] block_holds(blocks[k2]@, i) ==> k1 == k2,
{
    let leaders = starts_of(blocks);
    assert(leaders_of(node, leaders));
    reveal(leaders_of);
    assert(leaders.len() == blocks.len());
    assert(leaders[0] == 0);
    lemma_block_with(node, blocks, i, 0);
    assert forall|k1: int, k2: int|
        0 <= k1 < blocks.len() && 0 <= k2 < blocks.len() && #[trigger] block_holds(blocks[k1]@, i)
            && #[trigger] block_holds(blocks[k2]@, i) implies k1 == k2 by {
        reveal(block_ok);
        assert(block_ok(node, leaders, k1, blocks[k1]@));
        assert(block_ok(node, leaders, k2, blocks[k2]@));
        assert(is_leader(node, leaders[k1] as int));
        assert(is_leader(node, leaders[k2] as int));
        if k1 + 1 < blocks.len() {
            assert(leaders[k1] < leaders[k1 + 1]);
        }
        if k2 + 1 < blocks.len() {
            assert(leaders[k2] < leaders[k2 + 1]);
        }
        if k1 < k2 {
            if k1 + 1 < k2 {
                lemma_leaders_ascending(leaders, k1 + 1, k2);
            }
            assert(block_end(node, leaders, k1) == leaders[k1 + 1]);
        } else if k2 < k1 {
            if k2 + 1 < k1 {
                lemma_leaders_ascending(leaders, k2 + 1, k1);
            }
            assert(block_end(node, leaders, k2) == leaders[k2 + 1]);
        }
    }
}

/// The destinations of a block that ends in `JumpIfFalse`.
#[verifier::rlimit(60)]
proof fn lemma_branch_dests(node: NodeView, leaders: Seq<usize>, k: int)
    requires
        0 <= k < leaders.len(),
        leaders[k] < block_end(node, leaders, k) <= node.instructions.len(),
        opcode_of(node.instructions[block_end(node, leaders, k) - 1].opcode) == Some(OpCode::JumpIfFalse),
    ensures
        ({
            let e = block_end(node, leaders, k);
            let ins = node.instructions[e - 1];
            &&& block_for_label_spec(node, leaders, string_operand(ins, 0)) matches Some(b)
                ==> block_destinations(node, leaders, k).contains(
                DestinationView::Block { block_index: b, condition: Condition::ExpressionIsFalse },
            )
            &&& block_at(leaders, node.instructions.len() as int, e) matches Some(tb) ==> (tb != k
                ==> block_destinations(node, leaders, k).contains(
                DestinationView::Block { block_index: tb, condition: Condition::ExpressionIsTrue },
            ))
        }),
{
    let e = block_end(node, leaders, k);
    let m = e - leaders[k];
    let ins = node.instructions[e - 1];
    let prev = scan(node, leaders, k, m - 1);
    let st = scan(node, leaders, k, m);
    assert(st == scan_step(node, leaders, k, prev, e - 1));
    let lb = block_for_label_spec(node, leaders, string_operand(ins, 0));
    let d1 = match lb {
        Some(b) => prev.dests.push(DestinationView::Block { block_index: b, condition: Condition::ExpressionIsFalse }),
        None => prev.dests,
    };
    let tb = block_at(leaders, node.instructions.len() as int, e);
    assert(st.dests == match tb {
        Some(t) => if t != k {
            d1.push(DestinationView::Block { block_index: t, condition: Condition::ExpressionIsTrue })
        } else {
            d1
        },
        None => d1,
    }) by {
        reveal(scan_step);
    }
    if let Some(b) = lb {
        assert(d1[d1.len() - 1] == DestinationView::Block { block_index: b, condition: Condition::ExpressionIsFalse });
        assert(st.dests[d1.len() - 1] == d1[d1.len() - 1]);
    }
    if let Some(t) = tb {
        if t != k {
            assert(st.dests[st.dests.len() - 1] == DestinationView::Block {
                block_index: t,
                condition: Condition::ExpressionIsTrue,
            });
        }
    }
    assert(st.dests.len() > 0 ==> block_destinations(node, leaders, k) == st.dests) by {
        reveal(block_destinations);
    }
}

/// A block that ends in `JumpIfFalse` to a label branches, when the expression is
/// false, to the block that holds the label's instruction, and, when it is true, to
/// the block that follows it.
pub proof fn law_branch_conditions(node: NodeView, blocks: Seq<BasicBlock>, k: int, target: i32)
    requires
        is_basic_block_decomposition(node, blocks),
        0 <= k < blocks.len(),
        blocks[k]@.instructions.len() > 0,
        opcode_of(blocks[k]@.instructions.last().opcode) == Some(OpCode::JumpIfFalse),
        lookup_label(node.labels, string_operand(blocks[k]@.instructions.last(), 0)) == Some(target),
        0 <= target < node.instructions.len(),
    ensures
        forall|b: int|
            0 <= b < blocks.len() && blocks[b]@.first_instruction_index <= target && (b + 1 == blocks.len() || target
                < blocks[b + 1]@.first_instruction_index) ==> #[trigger] blocks[k]@.destinations.contains(
                DestinationView::Block { block_index: b, condition: Condition::ExpressionIsFalse },
            ),
        k + 1 < blocks.len() ==> blocks[k]@.destinations.contains(
            DestinationView::Block { block_index: k + 1, condition: Condition::ExpressionIsTrue },
        ),
{
    let leaders = starts_of(blocks);
    let n = node.instructions.len() as int;
    assert(leaders_of(node, leaders));
    assert(leaders.len() == blocks.len());
    assert(leaders[0] == 0 && forall|a: int| 0 <= a < leaders.len() - 1 ==> #[trigger] leaders[a] < leaders[a + 1]) by {
        reveal(leaders_of);
    }
    assert forall|a: int, b: int| 0 <= a < b < leaders.len() implies leaders[a] < leaders[b] by {
        lemma_leaders_ascending(leaders, a, b);
    }
    assert forall|q: int| 0 <= q < leaders.len() implies #[trigger] leaders[q] < n by {
        reveal(leaders_of);
        assert(is_leader(node, leaders[q] as int));
    }
    let e = block_end(node, leaders, k);
    if k + 1 < leaders.len() {
        assert(leaders[k] < leaders[k + 1]);
    }
    assert(leaders[k] < e <= n);
    assert(blocks[k]@.destinations == block_destinations(node, leaders, k)
        && blocks[k]@.instructions == node.instructions.subrange(leaders[k] as int, e)) by {
        reveal(block_ok);
        assert(block_ok(node, leaders, k, blocks[k]@));
    }
    assert(blocks[k]@.instructions.last() == node.instructions[e - 1]);
    lemma_branch_dests(node, leaders, k);
    let ins = node.instructions[e - 1];
    assert forall|b: int|
        0 <= b < blocks.len() && blocks[b]@.first_instruction_index <= target && (b + 1 == blocks.len() || target
            < blocks[b + 1]@.first_instruction_index) implies #[trigger] blocks[k]@.destinations.contains(
            DestinationView::Block { block_index: b, condition: Condition::ExpressionIsFalse },
        ) by {
        assert(blocks[b]@.first_instruction_index == leaders[b]);
        if b + 1 < blocks.len() {
            assert(blocks[b + 1]@.first_instruction_index == leaders[b + 1]);
        }
        lemma_block_for_unique(leaders, target as int, b);
        assert(block_for_label_spec(node, leaders, string_operand(ins, 0)) == Some(b));
    }
    if k + 1 < blocks.len() {
        assert(e == leaders[k + 1]);
        if k + 2 < leaders.len() {
            assert(leaders[k + 1] < leaders[k + 2]);
        }
        lemma_block_for_unique(leaders, e, k + 1);
        assert(block_at(leaders, n, e) == Some(k + 1));
    }
}

} // verus!
