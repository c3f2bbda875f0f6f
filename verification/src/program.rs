//! The compiled form of a Yarn program: opcodes, operands, instructions and nodes.
use vstd::prelude::*;

verus! {

/// The operations of the Yarn virtual machine.
#[derive(Debug, Clone, Copy, PartialEq, Eq, Structural)]
pub enum OpCode {
    /// Jumps to the label named by operand 0.
    JumpTo,
    /// Jumps to the label whose name is on top of the stack.
    Jump,
    /// Delivers the line whose id is operand 0; operand 1 counts substitutions.
    RunLine,
    /// Delivers the command text of operand 0; operand 1 counts substitutions.
    RunCommand,
    /// Adds an option (line id, destination label, substitution count, has condition).
    AddOption,
    /// Presents the accumulated options.
    ShowOptions,
    /// Pushes the string operand 0.
    PushString,
    /// Pushes the number operand 0.
    PushFloat,
    /// Pushes the boolean operand 0.
    PushBool,
    /// Pushes null (no longer valid).
    PushNull,
    /// Jumps to label operand 0 when the top of the stack is false.
    JumpIfFalse,
    /// Pops a value from the stack.
    Pop,
    /// Calls the function named by operand 0.
    CallFunc,
    /// Pushes the value of the variable named by operand 0.
    PushVariable,
    /// Stores the top of the stack in the variable named by operand 0.
    StoreVariable,
    /// Stops the dialogue.
    Stop,
    /// Runs the node whose name is on top of the stack.
    RunNode,
    /// Detours into the node whose name is on top of the stack.
    DetourToNode,
    /// Returns from a detour.
    Return,
    /// Adds a saliency candidate (content id, complexity, destination label).
    AddSaliencyCandidate,
    /// Selects among the saliency candidates.
    SelectSaliencyCandidate,
    /// Jumps to the instruction index on top of the stack.
    PeekAndJump,
}

/// The opcode that the wire number `v` stands for, if any.
pub open spec fn opcode_of(v: i32) -> Option<OpCode> {
    if v == 0 { Some(OpCode::JumpTo) }
    else if v == 1 { Some(OpCode::Jump) }
    else if v == 2 { Some(OpCode::RunLine) }
    else if v == 3 { Some(OpCode::RunCommand) }
    else if v == 4 { Some(OpCode::AddOption) }
    else if v == 5 { Some(OpCode::ShowOptions) }
    else if v == 6 { Some(OpCode::PushString) }
    else if v == 7 { Some(OpCode::PushFloat) }
    else if v == 8 { Some(OpCode::PushBool) }
    else if v == 9 { Some(OpCode::PushNull) }
    else if v == 10 { Some(OpCode::JumpIfFalse) }
    else if v == 11 { Some(OpCode::Pop) }
    else if v == 12 { Some(OpCode::CallFunc) }
    else if v == 13 { Some(OpCode::PushVariable) }
    else if v == 14 { Some(OpCode::StoreVariable) }
    else if v == 15 { Some(OpCode::Stop) }
    else if v == 16 { Some(OpCode::RunNode) }
    else if v == 17 { Some(OpCode::DetourToNode) }
    else if v == 18 { Some(OpCode::Return) }
    else if v == 19 { Some(OpCode::AddSaliencyCandidate) }
    else if v == 20 { Some(OpCode::SelectSaliencyCandidate) }
    else if v == 21 { Some(OpCode::PeekAndJump) }
    else { None }
}

/// The wire number of an opcode.
pub open spec fn opcode_number(op: OpCode) -> i32 {
    match op {
        OpCode::JumpTo => 0,
        OpCode::Jump => 1,
        OpCode::RunLine => 2,
        OpCode::RunCommand => 3,
        OpCode::AddOption => 4,
        OpCode::ShowOptions => 5,
        OpCode::PushString => 6,
        OpCode::PushFloat => 7,
        OpCode::PushBool => 8,
        OpCode::PushNull => 9,
        OpCode::JumpIfFalse => 10,
        OpCode::Pop => 11,
        OpCode::CallFunc => 12,
        OpCode::PushVariable => 13,
        OpCode::StoreVariable => 14,
        OpCode::Stop => 15,
        OpCode::RunNode => 16,
        OpCode::DetourToNode => 17,
        OpCode::Return => 18,
        OpCode::AddSaliencyCandidate => 19,
        OpCode::SelectSaliencyCandidate => 20,
        OpCode::PeekAndJump => 21,
    }
}

/// Decoding a wire number undoes encoding it.
pub proof fn lemma_opcode_roundtrip(op: OpCode)
    ensures
        opcode_of(opcode_number(op)) == Some(op),
{
}

impl OpCode {
    /// Decodes a wire number into an opcode; `None` for numbers no opcode has.
    pub fn try_from_i32(v: i32) -> (r: Option<OpCode>)
        ensures
            r == opcode_of(v),
    {
        match v {
            0 => Some(OpCode::JumpTo),
            1 => Some(OpCode::Jump),
            2 => Some(OpCode::RunLine),
            3 => Some(OpCode::RunCommand),
            4 => Some(OpCode::AddOption),
            5 => Some(OpCode::ShowOptions),
            6 => Some(OpCode::PushString),
            7 => Some(OpCode::PushFloat),
            8 => Some(OpCode::PushBool),
            9 => Some(OpCode::PushNull),
            10 => Some(OpCode::JumpIfFalse),
            11 => Some(OpCode::Pop),
            12 => Some(OpCode::CallFunc),
            13 => Some(OpCode::PushVariable),
            14 => Some(OpCode::StoreVariable),
            15 => Some(OpCode::Stop),
            16 => Some(OpCode::RunNode),
            17 => Some(OpCode::DetourToNode),
            18 => Some(OpCode::Return),
            19 => Some(OpCode::AddSaliencyCandidate),
            20 => Some(OpCode::SelectSaliencyCandidate),
            21 => Some(OpCode::PeekAndJump),
            _ => None,
        }
    }

    /// The wire number of this opcode.
    pub fn number(self) -> (r: i32)
        ensures
            r == opcode_number(self),
    {
        match self {
            OpCode::JumpTo => 0,
            OpCode::Jump => 1,
            OpCode::RunLine => 2,
            OpCode::RunCommand => 3,
            OpCode::AddOption => 4,
            OpCode::ShowOptions => 5,
            OpCode::PushString => 6,
            OpCode::PushFloat => 7,
            OpCode::PushBool => 8,
            OpCode::PushNull => 9,
            OpCode::JumpIfFalse => 10,
            OpCode::Pop => 11,
            OpCode::CallFunc => 12,
            OpCode::PushVariable => 13,
            OpCode::StoreVariable => 14,
            OpCode::Stop => 15,
            OpCode::RunNode => 16,
            OpCode::DetourToNode => 17,
            OpCode::Return => 18,
            OpCode::AddSaliencyCandidate => 19,
            OpCode::SelectSaliencyCandidate => 20,
            OpCode::PeekAndJump => 21,
        }
    }
}

/// The bit pattern of a 32-bit IEEE-754 number, carried unchanged through the program.
#[derive(Debug, Clone, Copy, PartialEq, Eq, Structural)]
pub struct FloatBits(pub u32);

/// A constant attached to an instruction.
#[derive(Debug, Clone)]
pub enum Operand {
    /// A string (a label, a line id, a node or variable name, ...).
    StringValue(String),
    /// A boolean.
    BoolValue(bool),
    /// A number.
    FloatValue(FloatBits),
}

/// The mathematical form of an [`Operand`].
pub enum OperandView {
    /// A string operand.
    Str(Seq<char>),
    /// A boolean operand.
    Bool(bool),
    /// A number operand, by its bits.
    Float(u32),
}

impl View for Operand {
    type V = OperandView;

    open spec fn view(&self) -> OperandView {
        match self {
            Operand::StringValue(s) => OperandView::Str(s@),
            Operand::BoolValue(b) => OperandView::Bool(*b),
            Operand::FloatValue(f) => OperandView::Float(f.0),
        }
    }
}

impl Operand {
    /// A copy of this operand.
    pub fn duplicate(&self) -> (r: Operand)
        ensures
            r@ == self@,
    {
        match self {
            Operand::StringValue(s) => Operand::StringValue(s.clone()),
            Operand::BoolValue(b) => Operand::BoolValue(*b),
            Operand::FloatValue(f) => Operand::FloatValue(*f),
        }
    }
}

/// A single instruction: an opcode number and its operands.
#[derive(Debug, Clone)]
pub struct Instruction {
    /// The wire number of the opcode.
    pub opcode: i32,
    /// The operands, in order.
    pub operands: Vec<Operand>,
}

/// The mathematical form of an [`Instruction`].
pub struct InstructionView {
    /// The wire number of the opcode.
    pub opcode: i32,
    /// The operands, in order.
    pub operands: Seq<OperandView>,
}

impl View for Instruction {
    type V = InstructionView;

    open spec fn view(&self) -> InstructionView {
        InstructionView { opcode: self.opcode, operands: self.operands@.map_values(|o: Operand| o@) }
    }
}

/// Whether operand `i` of `ins` exists and is a string.
pub open spec fn has_string_operand(ins: InstructionView, i: int) -> bool {
    0 <= i < ins.operands.len() && ins.operands[i] is Str
}

/// The string held by operand `i` of `ins`.
pub open spec fn string_operand(ins: InstructionView, i: int) -> Seq<char> {
    ins.operands[i]->Str_0
}

/// Whether operand `i` of `ins` exists and is a number.
pub open spec fn has_float_operand(ins: InstructionView, i: int) -> bool {
    0 <= i < ins.operands.len() && ins.operands[i] is Float
}

/// The bits of the number held by operand `i` of `ins`.
pub open spec fn float_operand(ins: InstructionView, i: int) -> u32 {
    ins.operands[i]->Float_0
}

/// Whether operand `i` of `ins` exists and is a boolean.
pub open spec fn has_bool_operand(ins: InstructionView, i: int) -> bool {
    0 <= i < ins.operands.len() && ins.operands[i] is Bool
}

/// The boolean held by operand `i` of `ins`.
pub open spec fn bool_operand(ins: InstructionView, i: int) -> bool {
    ins.operands[i]->Bool_0
}

impl Instruction {
    /// A copy of this instruction.
    pub fn duplicate(&self) -> (r: Instruction)
        ensures
            r@ == self@,
    {
        let mut ops: Vec<Operand> = Vec::new();
        let mut i: usize = 0;
        while i < self.operands.len()
            invariant
                i <= self.operands.len(),
                ops@.len() == i,
                forall|j: int| 0 <= j < i ==> #[trigger] ops@[j]@ == self.operands@[j]@,
            decreases self.operands.len() - i,
        {
            ops.push(self.operands[i].duplicate());
            i = i + 1;
        }
        let r = Instruction { opcode: self.opcode, operands: ops };
        assert(r@.operands =~= self@.operands);
        r
    }

    /// Whether operand `i` exists and is a string.
    pub fn has_string(&self, i: usize) -> (r: bool)
        ensures
            r == has_string_operand(self@, i as int),
    {
        if i < self.operands.len() {
            assert(self@.operands[i as int] == self.operands@[i as int]@);
            match &self.operands[i] {
                Operand::StringValue(_) => true,
                _ => false,
            }
        } else {
            false
        }
    }

    /// Whether operand `i` exists and is a number.
    pub fn has_float(&self, i: usize) -> (r: bool)
        ensures
            r == has_float_operand(self@, i as int),
    {
        if i < self.operands.len() {
            assert(self@.operands[i as int] == self.operands@[i as int]@);
            match &self.operands[i] {
                Operand::FloatValue(_) => true,
                _ => false,
            }
        } else {
            false
        }
    }

    /// Whether operand `i` exists and is a boolean.
    pub fn has_bool(&self, i: usize) -> (r: bool)
        ensures
            r == has_bool_operand(self@, i as int),
    {
        if i < self.operands.len() {
            assert(self@.operands[i as int] == self.operands@[i as int]@);
            match &self.operands[i] {
                Operand::BoolValue(_) => true,
                _ => false,
            }
        } else {
            false
        }
    }

    /// The number held by operand `i`.
    pub fn read_float_operand(&self, i: usize) -> (r: FloatBits)
        requires
            has_float_operand(self@, i as int),
        ensures
            r.0 == float_operand(self@, i as int),
    {
        proof {
            assert(self@.operands[i as int] == self.operands@[i as int]@);
        }
        match &self.operands[i] {
            Operand::FloatValue(f) => *f,
            _ => FloatBits(0),
        }
    }

    /// The boolean held by operand `i`.
    pub fn read_bool_operand(&self, i: usize) -> (r: bool)
        requires
            has_bool_operand(self@, i as int),
        ensures
            r == bool_operand(self@, i as int),
    {
        proof {
            assert(self@.operands[i as int] == self.operands@[i as int]@);
        }
        match &self.operands[i] {
            Operand::BoolValue(b) => *b,
            _ => false,
        }
    }

    /// The string held by operand `i`.
    pub fn read_string_operand(&self, i: usize) -> (r: String)
        requires
            has_string_operand(self@, i as int),
        ensures
            r@ == string_operand(self@, i as int),
    {
        match &self.operands[i] {
            Operand::StringValue(s) => s.clone(),
            _ => {
                proof {
                    assert(self@.operands[i as int] == self.operands@[i as int]@);
                }
                String::new()
            },
        }
    }
}

/// A label: a name and the instruction index it marks.
#[derive(Debug, Clone)]
pub struct Label {
    /// The label's name.
    pub name: String,
    /// The instruction index the label marks.
    pub index: i32,
}

/// A compiled node: its name, instructions, labels and tags.
///
/// Label names are looked up by first occurrence.
#[derive(Debug, Clone)]
pub struct Node {
    /// The node's name.
    pub name: String,
    /// The node's instructions.
    pub instructions: Vec<Instruction>,
    /// The node's labels.
    pub labels: Vec<Label>,
    /// The node's tags.
    pub tags: Vec<String>,
}

/// The mathematical form of a [`Node`].
pub struct NodeView {
    /// The node's name.
    pub name: Seq<char>,
    /// The node's instructions.
    pub instructions: Seq<InstructionView>,
    /// The node's labels as (name, instruction index) pairs.
    pub labels: Seq<(Seq<char>, i32)>,
    /// The node's tags.
    pub tags: Seq<Seq<char>>,
}

impl View for Node {
    type V = NodeView;

    open spec fn view(&self) -> NodeView {
        NodeView {
            name: self.name@,
            instructions: self.instructions@.map_values(|i: Instruction| i@),
            labels: self.labels@.map_values(|l: Label| (l.name@, l.index)),
            tags: self.tags@.map_values(|t: String| t@),
        }
    }
}

/// The instruction index that label `name` marks: the first label of that name.
pub open spec fn lookup_label(labels: Seq<(Seq<char>, i32)>, name: Seq<char>) -> Option<i32>
    decreases labels.len(),
{
    if labels.len() == 0 {
        None
    } else if labels[0].0 == name {
        Some(labels[0].1)
    } else {
        lookup_label(labels.drop_first(), name)
    }
}

impl Node {
    /// The instruction index that the label `name` marks.
    pub fn label_index(&self, name: &String) -> (r: Option<i32>)
        ensures
            r == lookup_label(self@.labels, name@),
    {
        let ghost labels = self@.labels;
        let mut i: usize = 0;
        assert(labels.subrange(0, labels.len() as int) =~= labels);
        while i < self.labels.len()
            invariant
                i <= self.labels.len(),
                labels == self@.labels,
                labels.len() == self.labels.len(),
                lookup_label(labels, name@) == lookup_label(labels.subrange(i as int, labels.len() as int), name@),
            decreases self.labels.len() - i,
        {
            let ghost rest = labels.subrange(i as int, labels.len() as int);
            assert(rest[0] == (self.labels@[i as int].name@, self.labels@[i as int].index));
            if self.labels[i].name == *name {
                return Some(self.labels[i].index);
            }
            assert(rest.drop_first() =~= labels.subrange(i + 1, labels.len() as int));
            i = i + 1;
        }
        None
    }
}


/// A copy of `v`, string by string.
pub fn copy_strings(v: &Vec<String>) -> (r: Vec<String>)
    ensures
        r@.map_values(|s: String| s@) == v@.map_values(|s: String| s@),
{
    let mut out: Vec<String> = Vec::new();
    let mut i: usize = 0;
    while i < v.len()
        invariant
            i <= v.len(),
            out@.len() == i,
            forall|j: int| 0 <= j < i ==> #[trigger] out@[j]@ == v@[j]@,
        decreases v.len() - i,
    {
        out.push(v[i].clone());
        i = i + 1;
    }
    assert(out@.map_values(|s: String| s@) =~= v@.map_values(|s: String| s@));
    out
}

impl Node {
    /// A copy of this node.
    pub fn duplicate(&self) -> (r: Node)
        ensures
            r@ == self@,
    {
        let mut instructions: Vec<Instruction> = Vec::new();
        let mut i: usize = 0;
        while i < self.instructions.len()
            invariant
                i <= self.instructions.len(),
                instructions@.len() == i,
                forall|j: int| 0 <= j < i ==> #[trigger] instructions@[j]@ == self.instructions@[j]@,
            decreases self.instructions.len() - i,
        {
            instructions.push(self.instructions[i].duplicate());
            i = i + 1;
        }
        let mut labels: Vec<Label> = Vec::new();
        let mut j: usize = 0;
        while j < self.labels.len()
            invariant
                j <= self.labels.len(),
                labels@.len() == j,
                forall|k: int|
                    0 <= k < j ==> #[trigger] labels@[k].name@ == self.labels@[k].name@ && labels@[k].index
                        == self.labels@[k].index,
            decreases self.labels.len() - j,
        {
            labels.push(Label { name: self.labels[j].name.clone(), index: self.labels[j].index });
            j = j + 1;
        }
        let r = Node { name: self.name.clone(), instructions, labels, tags: copy_strings(&self.tags) };
        assert(r@.instructions =~= self@.instructions);
        assert(r@.labels =~= self@.labels);
        r
    }
}

/// A compiled program: its nodes and the initial values of its variables.
///
/// Nodes and variables are looked up by first occurrence of their name.
#[derive(Debug, Clone)]
pub struct Program {
    /// The program's nodes.
    pub nodes: Vec<Node>,
    /// The initial value of each declared variable, by name.
    pub initial_values: Vec<(String, Operand)>,
}

/// The index of the first node named `name`, if any.
pub open spec fn node_index(nodes: Seq<Node>, name: Seq<char>) -> Option<int> {
    if exists|i: int| 0 <= i < nodes.len() && #[trigger] nodes[i].name@ == name {
        Some(choose|i: int| 0 <= i < nodes.len() && nodes[i].name@ == name
            && forall|j: int| 0 <= j < i ==> #[trigger] nodes[j].name@ != name)
    } else {
        None
    }
}

/// What `node_index` gives: the least position of a node named `name`, or `None`
/// where no node has that name.
pub proof fn lemma_node_index(nodes: Seq<Node>, name: Seq<char>)
    ensures
        node_index(nodes, name) matches Some(i) ==> 0 <= i < nodes.len() && nodes[i].name@ == name && forall|j: int|
            0 <= j < i ==> #[trigger] nodes[j].name@ != name,
        node_index(nodes, name) is None ==> forall|j: int| 0 <= j < nodes.len() ==> #[trigger] nodes[j].name@ != name,
{
    if exists|i: int| 0 <= i < nodes.len() && #[trigger] nodes[i].name@ == name {
        let w = choose|i: int| 0 <= i < nodes.len() && #[trigger] nodes[i].name@ == name;
        lemma_least_named(nodes, name, w);
    }
}

proof fn lemma_least_named(nodes: Seq<Node>, name: Seq<char>, w: int)
    requires
        0 <= w < nodes.len(),
        nodes[w].name@ == name,
    ensures
        exists|i: int| 0 <= i < nodes.len() && nodes[i].name@ == name && forall|j: int| 0 <= j < i ==> #[trigger] nodes[j].name@
            != name,
    decreases w,
{
    if exists|j: int| 0 <= j < w && #[trigger] nodes[j].name@ == name {
        let j = choose|j: int| 0 <= j < w && #[trigger] nodes[j].name@ == name;
        lemma_least_named(nodes, name, j);
    } else {
        assert(forall|j: int| 0 <= j < w ==> #[trigger] nodes[j].name@ != name);
    }
}

/// A node named `name` at `i` with none of that name before it is the first.
pub proof fn lemma_node_index_at(nodes: Seq<Node>, name: Seq<char>, i: int)
    requires
        0 <= i < nodes.len(),
        nodes[i].name@ == name,
        forall|j: int| 0 <= j < i ==> #[trigger] nodes[j].name@ != name,
    ensures
        node_index(nodes, name) == Some(i),
{
    lemma_node_index(nodes, name);
    match node_index(nodes, name) {
        Some(k) => {
            if k < i {
                assert(nodes[k].name@ != name);
            } else if k > i {
                assert(nodes[i].name@ != name);
            }
        },
        None => {
            assert(nodes[i].name@ != name);
        },
    }
}

/// The first node named `name` among `nodes`, by its view.
pub open spec fn node_named(nodes: Seq<Node>, name: Seq<char>) -> Option<NodeView> {
    match node_index(nodes, name) {
        Some(i) => Some(nodes[i]@),
        None => None,
    }
}

/// The initial value declared for the variable `name`: the first entry of that name.
pub open spec fn initial_value(values: Seq<(String, Operand)>, name: Seq<char>) -> Option<OperandView>
    decreases values.len(),
{
    if values.len() == 0 {
        None
    } else if values[0].0@ == name {
        Some(values[0].1@)
    } else {
        initial_value(values.drop_first(), name)
    }
}

impl Program {
    /// The position of the first node named `name`.
    pub fn find_node(&self, name: &str) -> (r: Option<usize>)
        ensures
            r matches Some(i) ==> node_index(self.nodes@, name@) == Some(i as int) && i < self.nodes@.len(),
            r is None ==> node_index(self.nodes@, name@) is None,
    {
        let mut i: usize = 0;
        while i < self.nodes.len()
            invariant
                i <= self.nodes.len(),
                forall|j: int| 0 <= j < i ==> #[trigger] self.nodes@[j].name@ != name@,
            decreases self.nodes.len() - i,
        {
            if crate::text::str_eq(self.nodes[i].name.as_str(), name) {
                proof {
                    let w = i as int;
                    assert(0 <= w < self.nodes@.len() && self.nodes@[w].name@ == name@);
                    let c = choose|k: int| 0 <= k < self.nodes@.len() && self.nodes@[k].name@ == name@
                        && forall|j: int| 0 <= j < k ==> #[trigger] self.nodes@[j].name@ != name@;
                    assert(0 <= w < self.nodes@.len() && self.nodes@[w].name@ == name@
                        && forall|j: int| 0 <= j < w ==> #[trigger] self.nodes@[j].name@ != name@);
                    if c < w {
                        assert(self.nodes@[c].name@ != name@);
                    } else if c > w {
                        assert(self.nodes@[w].name@ != name@);
                    }
                }
                return Some(i);
            }
            i = i + 1;
        }
        None
    }

    /// The initial value declared for the variable `name`.
    pub fn initial_value_of(&self, name: &str) -> (r: Option<Operand>)
        ensures
            r matches Some(v) ==> initial_value(self.initial_values@, name@) == Some(v@),
            r is None ==> initial_value(self.initial_values@, name@) is None,
    {
        let ghost vals = self.initial_values@;
        let mut i: usize = 0;
        assert(vals.subrange(0, vals.len() as int) =~= vals);
        while i < self.initial_values.len()
            invariant
                i <= self.initial_values.len(),
                vals == self.initial_values@,
                initial_value(vals, name@) == initial_value(vals.subrange(i as int, vals.len() as int), name@),
            decreases self.initial_values.len() - i,
        {
            let ghost rest = vals.subrange(i as int, vals.len() as int);
            assert(rest[0] == vals[i as int]);
            if crate::text::str_eq(self.initial_values[i].0.as_str(), name) {
                return Some(self.initial_values[i].1.duplicate());
            }
            assert(rest.drop_first() =~= vals.subrange(i + 1, vals.len() as int));
            i = i + 1;
        }
        None
    }
}
} // verus!
