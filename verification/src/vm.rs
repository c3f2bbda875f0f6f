//! The virtual machine that runs a compiled Yarn program.
//!
//! The machine keeps the state of a dialogue (the current node, the program counter,
//! the value stack, the options on offer) and turns instructions into dialogue events.
//! What it needs from its surroundings (variable storage, line text, markup parsing,
//! function calls, the text of numbers) it asks of a [`DialogueHost`].
use crate::library::{Library, YarnFn};
use crate::markup::{attributes_view, copy_attributes, MarkupAttribute, MarkupAttributeView, MarkupParseError, ParsedMarkup};
use crate::program::{
    bool_operand, float_operand, has_bool_operand, has_float_operand, has_string_operand, lookup_label, node_index,
    node_named, opcode_of, string_operand, FloatBits, Instruction, InstructionView, Node, NodeView, OpCode, Operand,
    OperandView, Program,
};
use crate::saliency::{any_passes, passes};
use crate::saliency::{ContentSaliencyOption, ContentSaliencyStrategy, ContentType};
use crate::smart_eval::{
    content_answer, evaluate_smart_variable, group_kind, has_any_content, host_extended, hub_ends_quietly,
    lemma_host_extended_refl, smart_ends_quietly, smart_value, storage_of, NodeGroupKind,
};
use vstd::prelude::*;
use vstd::arithmetic::power2::pow2;

verus! {

/// A value of the Yarn language.
#[derive(Debug, Clone)]
pub enum YarnValue {
    /// A number, by its 32-bit IEEE-754 bits.
    Number(FloatBits),
    /// A string.
    String(String),
    /// A boolean.
    Boolean(bool),
}

/// The mathematical form of a [`YarnValue`].
pub enum Value {
    /// A number, by its bits.
    Number(u32),
    /// A string.
    Text(Seq<char>),
    /// A boolean.
    Boolean(bool),
}

impl View for YarnValue {
    type V = Value;

    open spec fn view(&self) -> Value {
        match self {
            YarnValue::Number(n) => Value::Number(n.0),
            YarnValue::String(s) => Value::Text(s@),
            YarnValue::Boolean(b) => Value::Boolean(*b),
        }
    }
}

impl YarnValue {
    /// A copy of this value.
    pub fn duplicate(&self) -> (r: YarnValue)
        ensures
            r@ == self@,
    {
        match self {
            YarnValue::Number(n) => YarnValue::Number(*n),
            YarnValue::String(s) => YarnValue::String(s.clone()),
            YarnValue::Boolean(b) => YarnValue::Boolean(*b),
        }
    }

    /// The value of an instruction operand.
    pub fn from_operand(operand: &Operand) -> (r: YarnValue)
        ensures
            r@ == operand_value(operand@),
    {
        match operand {
            Operand::StringValue(s) => YarnValue::String(s.clone()),
            Operand::BoolValue(b) => YarnValue::Boolean(*b),
            Operand::FloatValue(f) => YarnValue::Number(*f),
        }
    }
}

/// The value that an operand holds.
pub open spec fn operand_value(o: OperandView) -> Value {
    match o {
        OperandView::Str(s) => Value::Text(s),
        OperandView::Bool(b) => Value::Boolean(b),
        OperandView::Float(f) => Value::Number(f),
    }
}

/// The views of a list of values.
pub open spec fn values_view(v: Seq<YarnValue>) -> Seq<Value> {
    v.map_values(|x: YarnValue| x@)
}

/// Where a dialogue stands.
#[derive(Debug, Clone, Copy, PartialEq, Eq, Structural)]
pub enum ExecutionState {
    /// Not running.
    Stopped,
    /// Waiting for the user to choose an option.
    WaitingOnOptionSelection,
    /// Waiting to be told to continue.
    WaitingForContinue,
    /// Delivering content.
    DeliveringContent,
    /// Running instructions.
    Running,
}

/// A line of dialogue, ready to be shown.
#[derive(Debug)]
pub struct Line {
    /// The line's id in the string table.
    pub id: String,
    /// The line's text, with substitutions made and markup removed.
    pub text: String,
    /// The markup attributes of the text.
    pub attributes: Vec<MarkupAttribute>,
}

/// The mathematical form of a [`Line`].
pub struct LineView {
    /// The line's id.
    pub id: Seq<char>,
    /// The line's text.
    pub text: Seq<char>,
    /// The markup attributes of the text.
    pub attributes: Seq<MarkupAttributeView>,
}

impl View for Line {
    type V = LineView;

    open spec fn view(&self) -> LineView {
        LineView { id: self.id@, text: self.text@, attributes: attributes_view(self.attributes@) }
    }
}

impl Line {
    /// A copy of this line.
    pub fn duplicate(&self) -> (r: Line)
        ensures
            r@ == self@,
    {
        Line { id: self.id.clone(), text: self.text.clone(), attributes: copy_attributes(&self.attributes) }
    }
}

/// An option that the user may choose.
#[derive(Debug)]
pub struct DialogueOption {
    /// The option's line.
    pub line: Line,
    /// The option's position among the options on offer.
    pub id: usize,
    /// The label that choosing the option jumps to.
    pub destination_node: String,
    /// Whether the option's condition passed.
    pub is_available: bool,
}

/// The mathematical form of a [`DialogueOption`].
pub struct OptionView {
    /// The option's line.
    pub line: LineView,
    /// The option's position.
    pub id: usize,
    /// The label that choosing the option jumps to.
    pub destination: Seq<char>,
    /// Whether the option's condition passed.
    pub is_available: bool,
}

impl View for DialogueOption {
    type V = OptionView;

    open spec fn view(&self) -> OptionView {
        OptionView {
            line: self.line@,
            id: self.id,
            destination: self.destination_node@,
            is_available: self.is_available,
        }
    }
}

/// The views of a list of options.
pub open spec fn options_view(o: Seq<DialogueOption>) -> Seq<OptionView> {
    o.map_values(|x: DialogueOption| x@)
}

/// The line ids of a list of options.
pub open spec fn option_line_ids(o: Seq<OptionView>) -> Seq<Seq<char>> {
    o.map_values(|x: OptionView| x.line.id)
}

/// A copy of a list of options.
pub fn copy_options(o: &Vec<DialogueOption>) -> (r: Vec<DialogueOption>)
    ensures
        options_view(r@) == options_view(o@),
{
    let mut out: Vec<DialogueOption> = Vec::new();
    let mut i: usize = 0;
    while i < o.len()
        invariant
            i <= o.len(),
            out@.len() == i,
            forall|j: int| 0 <= j < i ==> #[trigger] out@[j]@ == o@[j]@,
        decreases o.len() - i,
    {
        out.push(
            DialogueOption {
                line: o[i].line.duplicate(),
                id: o[i].id,
                destination_node: o[i].destination_node.clone(),
                is_available: o[i].is_available,
            },
        );
        i = i + 1;
    }
    assert(options_view(out@) =~= options_view(o@));
    out
}

/// Something that happened in a dialogue, for the embedding program to act on.
#[derive(Debug)]
pub enum DialogueEvent {
    /// A line is to be shown.
    Line(Line),
    /// A command is to be run; its text, substitutions made.
    Command(String),
    /// Options are to be offered.
    Options(Vec<DialogueOption>),
    /// A node started.
    NodeStart(String),
    /// A node completed.
    NodeComplete(String),
    /// The dialogue completed.
    DialogueComplete,
    /// The lines that the current node may show.
    LineHints(Vec<String>),
}

/// The mathematical form of a [`DialogueEvent`].
pub enum EventView {
    /// A line is to be shown.
    Line(LineView),
    /// A command is to be run.
    Command(Seq<char>),
    /// Options are to be offered.
    Options(Seq<OptionView>),
    /// A node started.
    NodeStart(Seq<char>),
    /// A node completed.
    NodeComplete(Seq<char>),
    /// The dialogue completed.
    DialogueComplete,
    /// The lines that the current node may show.
    LineHints(Seq<Seq<char>>),
}

/// The views of a list of strings.
pub open spec fn strings_view(s: Seq<String>) -> Seq<Seq<char>> {
    s.map_values(|x: String| x@)
}

impl View for DialogueEvent {
    type V = EventView;

    open spec fn view(&self) -> EventView {
        match self {
            DialogueEvent::Line(l) => EventView::Line(l@),
            DialogueEvent::Command(c) => EventView::Command(c@),
            DialogueEvent::Options(o) => EventView::Options(options_view(o@)),
            DialogueEvent::NodeStart(n) => EventView::NodeStart(n@),
            DialogueEvent::NodeComplete(n) => EventView::NodeComplete(n@),
            DialogueEvent::DialogueComplete => EventView::DialogueComplete,
            DialogueEvent::LineHints(h) => EventView::LineHints(strings_view(h@)),
        }
    }
}

/// The views of a list of events.
pub open spec fn events_view(e: Seq<DialogueEvent>) -> Seq<EventView> {
    e.map_values(|x: DialogueEvent| x@)
}

/// Why a variable could not be read or written.
#[derive(Debug)]
pub enum VariableStorageError {
    /// The name is not a valid variable name.
    InvalidVariableName {
        /// The name.
        name: String,
    },
    /// No variable of that name is stored.
    VariableNotFound {
        /// The name.
        name: String,
    },
    /// The storage failed.
    InternalError {
        /// A description of the failure.
        error: String,
    },
}

/// Why a dialogue operation failed.
#[derive(Debug)]
pub enum DialogueError {
    /// An error of the markup parser.
    MarkupParseError(MarkupParseError),
    /// The text of a line could not be found.
    LineProviderError {
        /// The line's id.
        id: String,
        /// The language asked for.
        language_code: Option<String>,
    },
    /// A function that the program calls is not in the library.
    FunctionNotFound {
        /// The function's name.
        function_name: String,
    },
    /// An option was selected while none was on offer.
    UnexpectedOptionSelectionError,
    /// The dialogue was continued while it waited for an option selection.
    ContinueOnOptionSelectionError,
    /// The dialogue was continued with no node selected.
    NoNodeSelectedOnContinue,
    /// No node of that name exists.
    InvalidNode {
        /// The node's name.
        node_name: String,
    },
    /// An option id out of range was selected.
    InvalidOptionIdError {
        /// The id selected.
        selected_option_id: usize,
        /// The largest valid id.
        max_id: usize,
    },
    /// An option was selected by a line id that no option has.
    InvalidLineIdError {
        /// The line id selected.
        selected_line_id: String,
        /// The line ids of the options on offer.
        line_ids: Vec<String>,
    },
    /// No program is loaded.
    NoProgramLoaded,
    /// The variable storage failed.
    VariableStorageError(VariableStorageError),
    /// The evaluation of a smart variable, or of the content of a node group, could
    /// not be completed.
    EvaluationFailed {
        /// The smart variable or the node group.
        name: String,
    },
}

/// What a virtual machine asks of the program that embeds it. Besides its methods,
/// a host keeps two records that the machine's contracts speak of: the calls of
/// library functions it made for the machine (the parameters and the result of each)
/// and the writes to its variable storage (the name and the value of each).
pub trait DialogueHost<C> {
    /// The library-function calls made so far, in order: the parameters and the result.
    /// A host that keeps this record defines it; unverified hosts leave it unknown.
    closed spec fn function_calls(&self) -> Seq<(Seq<Value>, Value)> {
        vstd::pervasive::arbitrary()
    }

    /// The writes to variable storage so far, in order: the name and the value.
    closed spec fn variable_writes(&self) -> Seq<(Seq<char>, Value)> {
        vstd::pervasive::arbitrary()
    }

    /// The text of the line `id` that the text provider has in the current language,
    /// as [`DialogueHost::get_text`] reads it.
    closed spec fn line_text(&self, id: Seq<char>) -> Option<Seq<char>> {
        vstd::pervasive::arbitrary()
    }

    /// The text that parsing the markup of `text` leaves, as
    /// [`DialogueHost::parse_markup`] gives it; a parser that reads no markup leaves
    /// `text` itself.
    closed spec fn markup_text(&self, text: Seq<char>) -> Seq<char> {
        vstd::pervasive::arbitrary()
    }

    /// What variable storage holds for `name`, as [`DialogueHost::get_variable`] reads it.
    closed spec fn stored(&self, name: Seq<char>) -> Option<Value> {
        vstd::pervasive::arbitrary()
    }

    /// The value stored for the variable `name`.
    fn get_variable(&self, name: &str) -> (r: Result<YarnValue, VariableStorageError>)
        ensures
            r matches Ok(v) ==> self.stored(name@) == Some(v@),
            r is Err ==> self.stored(name@) is None,
    ;

    /// Stores `value` for the variable `name`.
    /// A stored value is read back; no other variable changes.
    fn set_variable(&mut self, name: String, value: YarnValue) -> (r: Result<(), VariableStorageError>)
        ensures
            final(self).variable_writes() == old(self).variable_writes().push((name@, value@)),
            final(self).function_calls() == old(self).function_calls(),
            r is Ok ==> final(self).stored(name@) == Some(value@),
            forall|n: Seq<char>| n != name@ ==> #[trigger] final(self).stored(n) == old(self).stored(n),
    ;

    /// The text of the line `line_id` in the current language.
    fn get_text(&self, line_id: &str) -> (r: Option<String>)
        ensures
            r matches Some(t) ==> self.line_text(line_id@) == Some(t@),
            r is None ==> self.line_text(line_id@) is None,
    ;

    /// Tells the text provider which lines may be asked for soon.
    fn accept_line_hints(&mut self, line_ids: &Vec<String>)
        ensures
            final(self).variable_writes() == old(self).variable_writes(),
            final(self).function_calls() == old(self).function_calls(),
    ;

    /// Parses the markup of `text`.
    fn parse_markup(&mut self, text: &str) -> (r: Result<ParsedMarkup, MarkupParseError>)
        ensures
            final(self).variable_writes() == old(self).variable_writes(),
            final(self).function_calls() == old(self).function_calls(),
            r matches Ok(m) ==> m.text@ == old(self).markup_text(text@),
    ;

    /// Calls `function` with `parameters`.
    fn call_function(&mut self, function: &YarnFn<C>, parameters: Vec<YarnValue>) -> (r: YarnValue)
        ensures
            final(self).function_calls() == old(self).function_calls().push((values_view(parameters@), r@)),
            final(self).variable_writes() == old(self).variable_writes(),
            forall|n: Seq<char>| #[trigger] final(self).stored(n) == old(self).stored(n),
    ;

    /// The text of a number, as a line shows it.
    fn number_text(&self, number: FloatBits) -> String;

    /// The number that `text` spells, if any.
    fn parse_number(&self, text: &str) -> Option<FloatBits>;

    /// Switches the text provider and the markup parser to another language.
    fn set_language_code(&mut self, language_code: Option<String>)
        ensures
            final(self).variable_writes() == old(self).variable_writes(),
            final(self).function_calls() == old(self).function_calls(),
    ;
}

/// The state of the node being run: the program counter, the value stack and the
/// options gathered so far.
#[derive(Debug)]
pub struct State {
    /// The index of the next instruction.
    pub program_counter: usize,
    /// The value stack.
    pub stack: Vec<YarnValue>,
    /// The options gathered for the next option selection.
    pub current_options: Vec<DialogueOption>,
}

impl State {
    /// A fresh state: at the first instruction, nothing on the stack, no options.
    pub fn new() -> (r: State)
        ensures
            r.program_counter == 0,
            r.stack@.len() == 0,
            r.current_options@.len() == 0,
    {
        State { program_counter: 0, stack: Vec::new(), current_options: Vec::new() }
    }
}

/// The virtual machine.
pub struct VirtualMachine<C, S> {
    /// The functions that programs may call.
    pub library: Library<C>,
    /// The loaded program.
    pub program: Option<Program>,
    /// Whether line hints are sent when a node starts.
    pub line_hints_enabled: bool,
    /// The name of the current node.
    pub current_node_name: Option<String>,
    /// The state of the current node.
    pub state: State,
    /// Where the dialogue stands.
    pub execution_state: ExecutionState,
    /// The current node.
    pub current_node: Option<Node>,
    /// The events not yet handed out.
    pub batched_events: Vec<DialogueEvent>,
    /// The language of the lines.
    pub language_code: Option<String>,
    /// The nodes and instruction indices that detours return to.
    pub call_stack: Vec<(String, usize)>,
    /// Whether a return from a detour has just switched the current node.
    pub node_just_switched: bool,
    /// The saliency candidates gathered so far.
    pub saliency_candidates: Vec<ContentSaliencyOption>,
    /// The strategy that selects among saliency candidates.
    pub content_saliency_strategy: S,
}

/// The view of a call stack.
pub open spec fn calls_view(c: Seq<(String, usize)>) -> Seq<(Seq<char>, usize)> {
    c.map_values(|x: (String, usize)| (x.0@, x.1))
}

/// The view of an optional string.
pub open spec fn opt_view(s: Option<String>) -> Option<Seq<char>> {
    match s {
        Some(x) => Some(x@),
        None => None,
    }
}

impl<C, S> VirtualMachine<C, S> {
    /// The events not yet handed out.
    pub open spec fn events(&self) -> Seq<EventView> {
        events_view(self.batched_events@)
    }

    /// The value stack.
    pub open spec fn stack(&self) -> Seq<Value> {
        values_view(self.state.stack@)
    }

    /// The options gathered.
    pub open spec fn options(&self) -> Seq<OptionView> {
        options_view(self.state.current_options@)
    }

    /// The current node.
    pub open spec fn node(&self) -> Option<NodeView> {
        match self.current_node {
            Some(n) => Some(n@),
            None => None,
        }
    }

    /// Whether everything but the state of the current node and its name is as in `old`.
    pub open spec fn keeps_all_but_state(&self, old: &Self) -> bool {
        &&& self.library == old.library
        &&& self.program == old.program
        &&& self.line_hints_enabled == old.line_hints_enabled
        &&& self.current_node == old.current_node
        &&& self.batched_events == old.batched_events
        &&& self.language_code == old.language_code
        &&& self.call_stack == old.call_stack
        &&& self.node_just_switched == old.node_just_switched
        &&& self.saliency_candidates == old.saliency_candidates
        &&& self.content_saliency_strategy == old.content_saliency_strategy
    }

    /// Creates a stopped machine with no program.
    pub fn new(library: Library<C>, strategy: S) -> (r: Self)
        ensures
            r.library == library,
            r.content_saliency_strategy == strategy,
            r.program is None,
            !r.line_hints_enabled,
            r.current_node_name is None,
            r.state.program_counter == 0,
            r.stack().len() == 0,
            r.options().len() == 0,
            r.execution_state == ExecutionState::Stopped,
            r.current_node is None,
            r.events().len() == 0,
            r.language_code is None,
            r.call_stack@.len() == 0,
            !r.node_just_switched,
            r.saliency_candidates@.len() == 0,
    {
        VirtualMachine {
            library,
            program: None,
            line_hints_enabled: false,
            current_node_name: None,
            state: State::new(),
            execution_state: ExecutionState::Stopped,
            current_node: None,
            batched_events: Vec::new(),
            language_code: None,
            call_stack: Vec::new(),
            node_just_switched: false,
            saliency_candidates: Vec::new(),
            content_saliency_strategy: strategy,
        }
    }

    /// Forgets the state of the current node and its name.
    pub fn reset_state(&mut self)
        ensures
            final(self).state.program_counter == 0,
            final(self).stack().len() == 0,
            final(self).options().len() == 0,
            final(self).current_node_name is None,
            final(self).execution_state == old(self).execution_state,
            final(self).keeps_all_but_state(old(self)),
    {
        self.state = State::new();
        self.current_node_name = None;
    }

    /// Sets where the dialogue stands; stopping also forgets the node's state.
    pub fn set_execution_state(&mut self, execution_state: ExecutionState)
        ensures
            final(self).execution_state == execution_state,
            final(self).keeps_all_but_state(old(self)),
            execution_state == ExecutionState::Stopped ==> {
                &&& final(self).state.program_counter == 0
                &&& final(self).stack().len() == 0
                &&& final(self).options().len() == 0
                &&& final(self).current_node_name is None
            },
            execution_state != ExecutionState::Stopped ==> {
                &&& final(self).state == old(self).state
                &&& final(self).current_node_name == old(self).current_node_name
            },
    {
        self.execution_state = execution_state;
        if execution_state == ExecutionState::Stopped {
            self.reset_state();
        }
    }

    /// Stops the dialogue and hands out the pending events, ending with the
    /// completion of the dialogue.
    pub fn stop(&mut self) -> (r: Vec<DialogueEvent>)
        ensures
            events_view(r@) == old(self).events().push(EventView::DialogueComplete),
            final(self).events().len() == 0,
            final(self).execution_state == ExecutionState::Stopped,
            final(self).state.program_counter == 0,
            final(self).stack().len() == 0,
            final(self).options().len() == 0,
            final(self).current_node_name is None,
            final(self).program == old(self).program,
            final(self).current_node == old(self).current_node,
            final(self).call_stack == old(self).call_stack,
    {
        self.set_execution_state(ExecutionState::Stopped);
        self.batched_events.push(DialogueEvent::DialogueComplete);
        let mut out: Vec<DialogueEvent> = Vec::new();
        core::mem::swap(&mut out, &mut self.batched_events);
        assert(events_view(out@) =~= old(self).events().push(EventView::DialogueComplete));
        out
    }

    /// Hands out the line hints if they are the latest pending event.
    pub fn pop_line_hints(&mut self) -> (r: Option<Vec<String>>)
        ensures
            match old(self).events().last() {
                EventView::LineHints(h) if old(self).events().len() > 0 => {
                    &&& r matches Some(v) && strings_view(v@) == h
                    &&& final(self).events() == old(self).events().drop_last()
                },
                _ => r is None && final(self).events() == old(self).events(),
            },
            final(self).keeps_all_but_events(old(self)),
    {
        match self.batched_events.pop() {
            Some(DialogueEvent::LineHints(ids)) => {
                assert(self.events() =~= old(self).events().drop_last());
                Some(ids)
            },
            Some(event) => {
                self.batched_events.push(event);
                assert(self.events() =~= old(self).events());
                None
            },
            None => None,
        }
    }

    /// Whether everything but the pending events is as in `old`.
    pub open spec fn keeps_all_but_events(&self, old: &Self) -> bool {
        &&& self.library == old.library
        &&& self.program == old.program
        &&& self.line_hints_enabled == old.line_hints_enabled
        &&& self.current_node_name == old.current_node_name
        &&& self.state == old.state
        &&& self.execution_state == old.execution_state
        &&& self.current_node == old.current_node
        &&& self.language_code == old.language_code
        &&& self.call_stack == old.call_stack
        &&& self.node_just_switched == old.node_just_switched
        &&& self.saliency_candidates == old.saliency_candidates
        &&& self.content_saliency_strategy == old.content_saliency_strategy
    }

    /// Checks that the machine can be continued: a node is selected and no option
    /// selection is awaited. The machine must be in such a state (it is a fault to
    /// continue from any other); the check then passes.
    pub fn assert_can_continue(&self) -> (r: Result<(), DialogueError>)
        requires
            self.current_node is Some,
            self.current_node_name is Some,
            self.execution_state != ExecutionState::WaitingOnOptionSelection,
        ensures
            r is Ok,
    {
        if self.current_node.is_none() || self.current_node_name.is_none() {
            Err(DialogueError::NoNodeSelectedOnContinue)
        } else if self.execution_state == ExecutionState::WaitingOnOptionSelection {
            Err(DialogueError::ContinueOnOptionSelectionError)
        } else {
            Ok(())
        }
    }

    /// Whether the machine can be continued: a node is selected and no option
    /// selection is awaited.
    pub fn can_continue_now(&self) -> (r: bool)
        ensures
            r == (self.current_node is Some && self.current_node_name is Some && self.execution_state
                != ExecutionState::WaitingOnOptionSelection),
    {
        self.current_node.is_some() && self.current_node_name.is_some() && self.execution_state
            != ExecutionState::WaitingOnOptionSelection
    }

    /// Unloads the program.
    pub fn unload_programs(&mut self)
        ensures
            final(self).program is None,
            final(self).state == old(self).state,
            final(self).current_node == old(self).current_node,
            final(self).current_node_name == old(self).current_node_name,
            final(self).execution_state == old(self).execution_state,
            final(self).batched_events == old(self).batched_events,
    {
        self.program = None;
    }

    /// Whether the dialogue is running or waiting, as opposed to stopped.
    pub fn is_active(&self) -> (r: bool)
        ensures
            r == (self.execution_state != ExecutionState::Stopped),
    {
        self.execution_state != ExecutionState::Stopped
    }

    /// Whether the dialogue waits for an option to be selected.
    pub fn is_waiting_for_option_selection(&self) -> (r: bool)
        ensures
            r == (self.execution_state == ExecutionState::WaitingOnOptionSelection),
    {
        self.execution_state == ExecutionState::WaitingOnOptionSelection
    }

    /// The name of the current node.
    pub fn current_node(&self) -> (r: Option<String>)
        ensures
            opt_view(r) == opt_view(self.current_node_name),
    {
        match &self.current_node_name {
            Some(n) => Some(n.clone()),
            None => None,
        }
    }
}


/// The boolean that a value converts to, where the machine converts it by itself:
/// numbers are true unless zero, and the strings `true` and `false` are read.
pub open spec fn bool_of(v: Value) -> Option<bool> {
    match v {
        Value::Boolean(b) => Some(b),
        Value::Number(x) => Some(x % 0x8000_0000 != 0),
        Value::Text(s) => if s == "true"@ {
            Some(true)
        } else if s == "false"@ {
            Some(false)
        } else {
            None
        },
    }
}

/// The text that a string or a boolean converts to.
pub open spec fn text_of(v: Value) -> Option<Seq<char>> {
    match v {
        Value::Text(s) => Some(s),
        Value::Boolean(b) => Some(if b { "true"@ } else { "false"@ }),
        Value::Number(_) => None,
    }
}

/// The count that a number or a boolean converts to.
pub open spec fn count_of(v: Value) -> Option<usize> {
    match v {
        Value::Number(x) => Some(crate::number::to_usize(x)),
        Value::Boolean(b) => Some(if b { 1usize } else { 0usize }),
        Value::Text(_) => None,
    }
}

/// The instruction index that a number or a boolean converts to.
pub open spec fn index_of(v: Value) -> Option<i32> {
    match v {
        Value::Number(x) => Some(crate::number::to_i32(x)),
        Value::Boolean(b) => Some(if b { 1i32 } else { 0i32 }),
        Value::Text(_) => None,
    }
}

/// The bits of the number nearest to the integer `v`.
pub open spec fn number_of_int(v: int) -> u32 {
    crate::number::rounded(v < 0, (if v < 0 { -v } else { v }) as nat, 1, 0)
}

/// The boolean of `v`.
pub fn value_bool(v: &YarnValue) -> (r: bool)
    requires
        bool_of(v@) is Some,
    ensures
        bool_of(v@) == Some(r),
{
    match v {
        YarnValue::Boolean(b) => *b,
        YarnValue::Number(x) => x.0 % 0x8000_0000 != 0,
        YarnValue::String(s) => crate::text::str_eq(s.as_str(), "true"),
    }
}

/// The text of a string or a boolean.
pub fn value_text(v: &YarnValue) -> (r: String)
    requires
        text_of(v@) is Some,
    ensures
        text_of(v@) == Some(r@),
{
    match v {
        YarnValue::String(s) => s.clone(),
        YarnValue::Boolean(b) => if *b {
            String::from_str("true")
        } else {
            String::from_str("false")
        },
        YarnValue::Number(_) => String::new(),
    }
}

/// The text of any value: numbers are written by the host.
pub fn display_text<C, H: DialogueHost<C>>(v: &YarnValue, host: &H) -> (r: String)
    ensures
        text_of(v@) is Some ==> text_of(v@) == Some(r@),
{
    match v {
        YarnValue::Number(x) => host.number_text(*x),
        _ => value_text(v),
    }
}

/// The count of a number or a boolean.
pub fn value_count(v: &YarnValue) -> (r: usize)
    requires
        count_of(v@) is Some,
    ensures
        count_of(v@) == Some(r),
{
    match v {
        YarnValue::Number(x) => x.to_usize(),
        YarnValue::Boolean(b) => if *b {
            1
        } else {
            0
        },
        YarnValue::String(_) => 0,
    }
}

/// The instruction index of a number or a boolean.
pub fn value_index(v: &YarnValue) -> (r: i32)
    requires
        index_of(v@) is Some,
    ensures
        index_of(v@) == Some(r),
{
    match v {
        YarnValue::Number(x) => x.to_i32(),
        YarnValue::Boolean(b) => if *b {
            1
        } else {
            0
        },
        YarnValue::String(_) => 0,
    }
}

/// The number that a stored value stands for, as a view count reads it: numbers as
/// they are, booleans as one or zero, strings as the host reads them.
pub fn stored_number<C, H: DialogueHost<C>>(value: Result<YarnValue, VariableStorageError>, host: &H) -> (r: Option<FloatBits>)
    ensures
        value matches Ok(YarnValue::Number(x)) ==> r == Some(x),
        value matches Ok(YarnValue::Boolean(b)) ==> r == Some(FloatBits(if b { 0x3f80_0000u32 } else { 0u32 })),
        value is Err ==> r is None,
{
    match value {
        Ok(YarnValue::Number(x)) => Some(x),
        Ok(YarnValue::Boolean(b)) => Some(FloatBits(if b { 0x3f80_0000 } else { 0 })),
        Ok(YarnValue::String(s)) => host.parse_number(s.as_str()),
        Err(_) => None,
    }
}

/// The view count of content whose view-count variable holds `stored`, where it does
/// not depend on the host's reading of numbers: zero where nothing is stored.
pub open spec fn known_view_count(stored: Option<Value>) -> Option<i32> {
    match stored {
        None => Some(0i32),
        Some(v) => stored_view_count(v),
    }
}

/// Whether `vc` gives, for each of `cands`, the view count that host `h` stores for
/// it, wherever that count does not depend on the host's reading of numbers.
pub open spec fn views_read<C, H: DialogueHost<C>>(h: H, cands: Seq<ContentSaliencyOption>, vc: Seq<i32>) -> bool {
    &&& vc.len() == cands.len()
    &&& forall|i: int|
        0 <= i < cands.len() ==> (known_view_count(
            h.stored(crate::saliency::view_count_prefix() + (#[trigger] cands[i]).content_id@),
        ) matches Some(c) ==> vc[i] == c)
}

/// How often `option` has been viewed, as the host's variable storage records it
/// under [`ContentSaliencyOption::view_count_key`]; zero where nothing is recorded.
pub fn get_view_count<C, H: DialogueHost<C>>(option: &ContentSaliencyOption, host: &H) -> (r: i32)
    ensures
        host.stored(crate::saliency::view_count_prefix() + option.content_id@) matches Some(v) ==> stored_view_count(
            v,
        ) matches Some(c) ==> r == c,
        host.stored(crate::saliency::view_count_prefix() + option.content_id@) is None ==> r == 0,
{
    let key = option.view_count_key();
    view_count_from(host.get_variable(key.as_str()), host)
}

/// The view count that a stored value stands for, where it does not depend on the
/// host's reading of numbers: a number cut to an integer, a boolean as one or zero.
pub open spec fn stored_view_count(v: Value) -> Option<i32> {
    match v {
        Value::Number(x) => Some(crate::number::to_i32(x)),
        Value::Boolean(b) => Some(if b { 1i32 } else { 0i32 }),
        Value::Text(_) => None,
    }
}

/// The number that a stored value stands for as a count, where it does not depend on
/// the host's reading of numbers: the number itself, a boolean as one or zero.
pub open spec fn stored_count_bits(v: Option<Value>) -> Option<u32> {
    match v {
        Some(Value::Number(x)) => Some(x),
        Some(Value::Boolean(b)) => Some(if b { 0x3f80_0000u32 } else { 0u32 }),
        Some(Value::Text(_)) => None,
        None => Some(0u32),
    }
}

/// The view count that a stored value stands for: the number it holds, cut to an
/// integer as `to_i32` does; one or zero for a boolean; zero where nothing is stored;
/// for a string, the number the host reads in it (zero where it reads none).
pub fn view_count_from<C, H: DialogueHost<C>>(value: Result<YarnValue, VariableStorageError>, host: &H) -> (r: i32)
    ensures
        value matches Ok(YarnValue::Number(x)) ==> r == crate::number::to_i32(x.0),
        value matches Ok(YarnValue::Boolean(b)) ==> r == if b { 1i32 } else { 0i32 },
        value is Err ==> r == 0,
{
    match stored_number(value, host) {
        Some(x) => {
            proof {
                vstd::arithmetic::power2::lemma2_to64();
                vstd::arithmetic::power2::lemma_pow2_pos(149);
                assert(crate::number::exponent_field(0x3f80_0000u32) == 127);
                assert(crate::number::fraction_field(0x3f80_0000u32) == 0);
                assert(crate::number::exponent(0x3f80_0000u32) == -23);
                assert(crate::number::significand(0x3f80_0000u32) == 0x80_0000);
                assert(pow2(23) == 0x80_0000);
                assert(((-crate::number::exponent(0x3f80_0000u32)) as nat) == 23);
                assert(pow2((-crate::number::exponent(0x3f80_0000u32)) as nat) == 0x80_0000);
                assert(crate::number::exponent(0x3f80_0000u32) < 0);
                assert(0x80_0000nat / 0x80_0000nat == 1) by (nonlinear_arith);
                assert(crate::number::truncated_magnitude(0x3f80_0000u32) == 1);
                assert(crate::number::to_i32(0x3f80_0000u32) == 1i32);
                assert(crate::number::truncated_magnitude(0u32) == 0);
                assert(crate::number::to_i32(0u32) == 0i32);
            }
            x.to_i32()
        },
        None => 0,
    }
}

/// Counts `option` as viewed once more in the host's variable storage: the recorded
/// count (zero where none is) plus one.
pub fn increment_view_count<C, H: DialogueHost<C>>(option: &ContentSaliencyOption, host: &mut H)
    ensures
        final(host).function_calls() == old(host).function_calls(),
        final(host).variable_writes().len() == old(host).variable_writes().len() + 1,
        final(host).variable_writes().drop_last() == old(host).variable_writes(),
        final(host).variable_writes().last().0 == crate::saliency::view_count_prefix() + option.content_id@,
        final(host).variable_writes().last().1 is Number,
        stored_count_bits(old(host).stored(crate::saliency::view_count_prefix() + option.content_id@)) matches Some(
            c,
        ) ==> final(host).variable_writes().last().1 == Value::Number(crate::number::incremented(c)),
{
    let key = option.view_count_key();
    let next = incremented_view_count(host.get_variable(key.as_str()), host);
    let _ = host.set_variable(key, YarnValue::Number(next));
}

/// The view count to store after one more view, given the stored value: the number it
/// holds plus one; two or one for a boolean (true counting as one); one where nothing
/// is stored; for a string, the number the host reads in it plus one (one where it
/// reads none).
pub fn incremented_view_count<C, H: DialogueHost<C>>(value: Result<YarnValue, VariableStorageError>, host: &H) -> (r:
    FloatBits)
    ensures
        value matches Ok(YarnValue::Number(x)) ==> r.0 == crate::number::incremented(x.0),
        value matches Ok(YarnValue::Boolean(b)) ==> r.0 == crate::number::incremented(
            if b { 0x3f80_0000u32 } else { 0u32 },
        ),
        value is Err ==> r.0 == crate::number::incremented(0u32),
{
    let current = match stored_number(value, host) {
        Some(x) => x,
        None => FloatBits(0),
    };
    current.plus_one()
}

/// `text` with every occurrence of `pattern` replaced by `with`, scanning from the
/// left and not overlapping, as `str::replace` does.
pub open spec fn replace_all(text: Seq<char>, pattern: Seq<char>, with: Seq<char>) -> Seq<char>
    decreases text.len(),
{
    if pattern.len() == 0 || text.len() < pattern.len() {
        text
    } else if text.subrange(0, pattern.len() as int) == pattern {
        with + replace_all(text.subrange(pattern.len() as int, text.len() as int), pattern, with)
    } else {
        seq![text[0]] + replace_all(text.drop_first(), pattern, with)
    }
}

/// A text without the first character of `p` is left as it is by replacing `p`.
proof fn lemma_replace_absent(t: Seq<char>, p: Seq<char>, w: Seq<char>)
    requires
        p.len() > 0,
        forall|k: int| 0 <= k < t.len() ==> t[k] != p[0],
    ensures
        replace_all(t, p, w) == t,
    decreases t.len(),
{
    if t.len() >= p.len() {
        assert(t.subrange(0, p.len() as int)[0] == t[0]);
        lemma_replace_absent(t.drop_first(), p, w);
        assert(seq![t[0]] + t.drop_first() =~= t);
    }
}

/// Replacing `p` in `a + p + rest`, where `a` lacks the first character of `p`,
/// keeps `a`, puts `w` in place of that `p`, and goes on in `rest`.
proof fn lemma_replace_first(a: Seq<char>, p: Seq<char>, rest: Seq<char>, w: Seq<char>)
    requires
        p.len() > 0,
        forall|k: int| 0 <= k < a.len() ==> a[k] != p[0],
    ensures
        replace_all(a + p + rest, p, w) == a + w + replace_all(rest, p, w),
    decreases a.len(),
{
    let t = a + p + rest;
    if a.len() == 0 {
        assert(t =~= p + rest);
        assert(t.subrange(0, p.len() as int) =~= p);
        assert(t.subrange(p.len() as int, t.len() as int) =~= rest);
        assert(a + w + replace_all(rest, p, w) =~= w + replace_all(rest, p, w));
    } else {
        assert(t.subrange(0, p.len() as int)[0] == a[0]);
        assert(t.drop_first() =~= a.drop_first() + p + rest);
        lemma_replace_first(a.drop_first(), p, rest, w);
        assert(seq![a[0]] + (a.drop_first() + w + replace_all(rest, p, w)) =~= a + w + replace_all(rest, p, w));
    }
}

/// Filling the marker `{0}` of a line's text puts the first substitution in its place
/// and keeps the rest of the text, where the text has no other marker.
pub proof fn law_substitution_fills_marker(before: Seq<char>, after: Seq<char>, s: Seq<char>)
    requires
        forall|k: int| 0 <= k < before.len() ==> before[k] != '{',
        forall|k: int| 0 <= k < after.len() ==> after[k] != '{',
    ensures
        substituted(before + marker(0) + after, seq![s], 1) == before + s + after,
{
    reveal_with_fuel(substituted, 2);
    let p = marker(0);
    assert(p[0] == '{');
    lemma_replace_first(before, p, after, s);
    lemma_replace_absent(after, p, s);
}

/// The marker `{i}` that a substitution replaces.
pub open spec fn marker(i: nat) -> Seq<char> {
    seq!['{'] + crate::text::decimal(i) + seq!['}']
}

/// `text` with the markers `{0}` to `{n - 1}` replaced, in that order, by the
/// substitutions.
pub open spec fn substituted(text: Seq<char>, substitutions: Seq<Seq<char>>, n: nat) -> Seq<char>
    decreases n,
{
    if n == 0 {
        text
    } else {
        replace_all(substituted(text, substitutions, (n - 1) as nat), marker((n - 1) as nat), substitutions[n - 1])
    }
}

/// Whether `pattern` occurs in `text` at `i`.
fn occurs_at(text: &Vec<char>, pattern: &Vec<char>, i: usize) -> (r: bool)
    requires
        i + pattern@.len() <= text@.len(),
    ensures
        r == (text@.subrange(i as int, i + pattern@.len()) == pattern@),
{
    let mut j: usize = 0;
    while j < pattern.len()
        invariant
            j <= pattern@.len(),
            i + pattern@.len() <= text@.len(),
            text@.len() == text.len(),
            forall|k: int| 0 <= k < j ==> text@[i + k] == pattern@[k],
        decreases pattern.len() - j,
    {
        if text[i + j] != pattern[j] {
            assert(text@.subrange(i as int, i + pattern@.len())[j as int] != pattern@[j as int]);
            return false;
        }
        j = j + 1;
    }
    assert(text@.subrange(i as int, i + pattern@.len()) =~= pattern@);
    true
}

/// `text` with every occurrence of `pattern` replaced by `with`.
pub fn replace(text: &str, pattern: &str, with: &str) -> (r: String)
    ensures
        r@ == replace_all(text@, pattern@, with@),
{
    let t = crate::text::chars_of(text);
    let p = crate::text::chars_of(pattern);
    let w = crate::text::chars_of(with);
    let mut out: Vec<char> = Vec::new();
    let mut i: usize = 0;
    if p.len() == 0 {
        return String::from_str(text);
    }
    assert(t@.subrange(0, t@.len() as int) =~= t@);
    assert(out@ + replace_all(t@, p@, w@) =~= replace_all(t@, p@, w@));
    while i < t.len()
        invariant
            t@ == text@,
            p@ == pattern@,
            w@ == with@,
            p@.len() > 0,
            i <= t@.len(),
            out@ + replace_all(t@.subrange(i as int, t@.len() as int), p@, w@) == replace_all(t@, p@, w@),
        decreases t.len() - i,
    {
        let ghost rest = t@.subrange(i as int, t@.len() as int);
        if p.len() <= t.len() - i && occurs_at(&t, &p, i) {
            assert(rest.subrange(0, p@.len() as int) =~= t@.subrange(i as int, i + p@.len()));
            assert(rest.subrange(p@.len() as int, rest.len() as int) =~= t@.subrange(i + p@.len(), t@.len() as int));
            let mut k: usize = 0;
            let ghost before = out@;
            while k < w.len()
                invariant
                    k <= w@.len(),
                    out@ == before + w@.subrange(0, k as int),
                decreases w.len() - k,
            {
                out.push(w[k]);
                assert(out@ =~= before + w@.subrange(0, k + 1));
                k = k + 1;
            }
            assert(w@.subrange(0, w@.len() as int) =~= w@);
            assert(out@ + replace_all(t@.subrange(i + p@.len(), t@.len() as int), p@, w@) =~= before + (w@
                + replace_all(rest.subrange(p@.len() as int, rest.len() as int), p@, w@)));
            i = i + p.len();
        } else {
            proof {
                if i + p@.len() <= t@.len() {
                    assert(rest.subrange(0, p@.len() as int) =~= t@.subrange(i as int, i + p@.len()));
                }
                assert(rest.drop_first() =~= t@.subrange(i + 1, t@.len() as int));
            }
            let ghost before = out@;
            out.push(t[i]);
            assert(out@ + replace_all(t@.subrange(i + 1, t@.len() as int), p@, w@) =~= before + (seq![rest[0]]
                + replace_all(rest.drop_first(), p@, w@)));
            i = i + 1;
        }
    }
    assert(t@.subrange(i as int, t@.len() as int) =~= Seq::<char>::empty());
    assert(out@ =~= replace_all(t@, p@, w@));
    crate::text::string_from_chars(&out)
}

/// The marker `{i}`.
fn marker_text(i: usize) -> (r: String)
    ensures
        r@ == marker(i as nat),
{
    let mut s = String::from_str("{");
    let digits = crate::text::decimal_string(i as u64);
    s.append(digits.as_str());
    s.append("}");
    proof {
        reveal_strlit("{");
        reveal_strlit("}");
    }
    assert(s@ =~= marker(i as nat));
    s
}

/// Replaces the substitution markers of `text` (`{0}`, `{1}`, ...) with the
/// corresponding substitutions; markers without a substitution are left alone.
pub fn expand_substitutions(text: &str, substitutions: &Vec<String>) -> (r: String)
    ensures
        r@ == substituted(text@, strings_view(substitutions@), substitutions@.len()),
{
    let mut out = String::from_str(text);
    let mut i: usize = 0;
    while i < substitutions.len()
        invariant
            i <= substitutions@.len(),
            out@ == substituted(text@, strings_view(substitutions@), i as nat),
        decreases substitutions.len() - i,
    {
        let m = marker_text(i);
        out = replace(out.as_str(), m.as_str(), substitutions[i].as_str());
        i = i + 1;
    }
    out
}

/// Adds one to the visit count of node `node_name`, if the host's variable storage
/// holds a number for it.
pub fn increment_visit_count_for_node<C, H: DialogueHost<C>>(node_name: &str, host: &mut H)
    ensures
        final(host).function_calls() == old(host).function_calls(),
        old(host).stored(crate::library::visiting_prefix() + node_name@) matches Some(Value::Number(c))
            ==> final(host).variable_writes() == old(host).variable_writes().push(
            (crate::library::visiting_prefix() + node_name@, Value::Number(crate::number::incremented(c))),
        ),
        !(old(host).stored(crate::library::visiting_prefix() + node_name@) matches Some(Value::Number(_)))
            ==> final(host).variable_writes() == old(host).variable_writes(),
        forall|n: Seq<char>|
            n != crate::library::visiting_prefix() + node_name@ ==> #[trigger] final(host).stored(n) == old(host).stored(n),
{
    let var_name = Library::<C>::generate_unique_visited_variable_for_node(node_name);
    match incremented_visit_count(host.get_variable(var_name.as_str())) {
        Some(next) => {
            let _ = host.set_variable(var_name, next);
        },
        None => {},
    }
}

/// The visit count to store after one more visit, given the stored value: the number
/// plus one where a number is stored; `None` (nothing to store) otherwise, for an
/// untracked node.
pub fn incremented_visit_count(value: Result<YarnValue, VariableStorageError>) -> (r: Option<YarnValue>)
    ensures
        value matches Ok(YarnValue::Number(c)) ==> r matches Some(YarnValue::Number(n)) && n.0
            == crate::number::incremented(c.0),
        !(value matches Ok(YarnValue::Number(_))) ==> r is None,
{
    match value {
        Ok(YarnValue::Number(count)) => Some(YarnValue::Number(count.plus_one())),
        _ => None,
    }
}

/// Whether the writes `w1` extend `w0` by at most one write per frame of `calls`,
/// each a number stored under the visit count of the frame's node, in the order of
/// the frames.
pub open spec fn visit_count_writes(
    calls: Seq<(Seq<char>, usize)>,
    w0: Seq<(Seq<char>, Value)>,
    w1: Seq<(Seq<char>, Value)>,
) -> bool {
    &&& w0.len() <= w1.len() <= w0.len() + calls.len()
    &&& w1.subrange(0, w0.len() as int) == w0
    &&& forall|j: int|
        w0.len() <= j < w1.len() ==> (#[trigger] w1[j]).1 is Number && exists|q: int|
            0 <= q < calls.len() && w1[j].0 == crate::library::visiting_prefix() + (#[trigger] calls[q]).0
}

/// The write that a visit to `node` makes, given what storage holds: the stored
/// visit count plus one where a number is stored, else none.
pub open spec fn visit_write(node: Seq<char>, stored: Option<Value>) -> Seq<(Seq<char>, Value)> {
    match stored {
        Some(Value::Number(c)) => seq![
            (crate::library::visiting_prefix() + node, Value::Number(crate::number::incremented(c))),
        ],
        _ => Seq::empty(),
    }
}

/// The writes that the visits to the frames of `calls` make, in order, given what
/// host `h` stores.
pub open spec fn visit_writes<C, H: DialogueHost<C>>(calls: Seq<(Seq<char>, usize)>, h: H) -> Seq<(Seq<char>, Value)>
    decreases calls.len(),
{
    if calls.len() == 0 {
        Seq::empty()
    } else {
        visit_writes::<C, H>(calls.drop_last(), h) + visit_write(
            calls.last().0,
            h.stored(crate::library::visiting_prefix() + calls.last().0),
        )
    }
}

/// Whether the frames of `calls` are of distinct nodes.
pub open spec fn distinct_nodes(calls: Seq<(Seq<char>, usize)>) -> bool {
    forall|i: int, j: int| 0 <= i < j < calls.len() ==> (#[trigger] calls[i]).0 != (#[trigger] calls[j]).0
}

/// Different nodes have different visit-count variables.
pub proof fn lemma_visiting_names_differ(a: Seq<char>, b: Seq<char>)
    requires
        a != b,
    ensures
        crate::library::visiting_prefix() + a != crate::library::visiting_prefix() + b,
{
    let p = crate::library::visiting_prefix();
    if p + a == p + b {
        assert((p + a).subrange(p.len() as int, (p + a).len() as int) =~= a);
        assert((p + b).subrange(p.len() as int, (p + b).len() as int) =~= b);
    }
}

/// The completions of the nodes of a call stack, in order.
pub open spec fn completions(calls: Seq<(Seq<char>, usize)>) -> Seq<EventView> {
    calls.map_values(|c: (Seq<char>, usize)| EventView::NodeComplete(c.0))
}

/// Whether an instruction is one that shows a line: a line or an option.
pub open spec fn shows_line(ins: InstructionView) -> bool {
    opcode_of(ins.opcode) == Some(OpCode::RunLine) || opcode_of(ins.opcode) == Some(OpCode::AddOption)
}

/// Whether the lines of a node can be hinted: every opcode is known and every line
/// and option instruction names its line.
pub open spec fn hints_readable(node: NodeView) -> bool {
    forall|i: int|
        0 <= i < node.instructions.len() ==> {
            &&& opcode_of(#[trigger] node.instructions[i].opcode) is Some
            &&& shows_line(node.instructions[i]) ==> has_string_operand(node.instructions[i], 0)
        }
}

/// The ids of the lines that the instructions may show, in order.
pub open spec fn line_hints(ins: Seq<InstructionView>) -> Seq<Seq<char>>
    decreases ins.len(),
{
    if ins.len() == 0 {
        seq![]
    } else if shows_line(ins.last()) {
        line_hints(ins.drop_last()).push(string_operand(ins.last(), 0))
    } else {
        line_hints(ins.drop_last())
    }
}

impl<C, S> VirtualMachine<C, S> {
    /// The node of the loaded program named `name`.
    pub open spec fn target(&self, name: Seq<char>) -> Option<NodeView> {
        match self.program {
            Some(p) => node_named(p.nodes@, name),
            None => None,
        }
    }

    /// Whether a loaded program holds nodes, as every compiled program does.
    pub open spec fn program_has_nodes(&self) -> bool {
        self.program matches Some(p) ==> p.nodes@.len() > 0
    }

    /// The instruction index that label `name` of the current node marks.
    pub open spec fn jump_target(&self, name: Seq<char>) -> Option<usize> {
        match self.node() {
            Some(n) => match lookup_label(n.labels, name) {
                Some(i) => if i >= 0 {
                    Some(i as usize)
                } else {
                    None
                },
                None => None,
            },
            None => None,
        }
    }

    /// Whether everything but the events, the stack, the options, the program counter,
    /// the execution state and the saliency candidates is as in `old`.
    pub open spec fn same_context(&self, old: &Self) -> bool {
        &&& self.library == old.library
        &&& self.program == old.program
        &&& self.line_hints_enabled == old.line_hints_enabled
        &&& self.language_code == old.language_code
        &&& self.content_saliency_strategy == old.content_saliency_strategy
        &&& self.current_node == old.current_node
        &&& self.current_node_name == old.current_node_name
        &&& self.call_stack == old.call_stack
        &&& self.node_just_switched == old.node_just_switched
    }

    /// Whether the machine moved from `old` to the given program counter, stack,
    /// options, events and execution state, all else unchanged.
    pub open spec fn moved(
        &self,
        old: &Self,
        pc: int,
        stack: Seq<Value>,
        options: Seq<OptionView>,
        events: Seq<EventView>,
        execution_state: ExecutionState,
    ) -> bool {
        &&& self.same_context(old)
        &&& self.saliency_candidates == old.saliency_candidates
        &&& self.state.program_counter == pc
        &&& self.stack() == stack
        &&& self.options() == options
        &&& self.events() == events
        &&& self.execution_state == execution_state
    }

    /// Whether the option on offer at `index`, if there is one, jumps to a label of
    /// the current node.
    pub open spec fn option_resolvable(&self, index: int) -> bool {
        0 <= index < self.options().len() ==> self.jump_target(self.options()[index].destination) is Some
    }

    /// The position of the first option on offer whose line is `line_id`.
    pub open spec fn first_option_with_line(&self, line_id: Seq<char>) -> Option<int> {
        let opts = self.options();
        if exists|k: int| 0 <= k < opts.len() && opts[k].line.id == line_id {
            Some(choose|k: int|
                0 <= k < opts.len() && opts[k].line.id == line_id && forall|j: int|
                    0 <= j < k ==> opts[j].line.id != line_id)
        } else {
            None
        }
    }

    /// The effect of selecting the option at `index`: the instruction index of its
    /// label and `true` are pushed, the options are cleared, and the dialogue waits to
    /// be continued.
    pub open spec fn selected(&self, old: &Self, index: int) -> bool {
        let target = old.jump_target(old.options()[index].destination)->0;
        self.moved(
            old,
            old.state.program_counter as int,
            old.stack().push(Value::Number(number_of_int(target as i32 as int))).push(Value::Boolean(true)),
            Seq::empty(),
            old.events(),
            ExecutionState::WaitingForContinue,
        )
    }

    /// The node named `node_name` of the loaded program.
    pub fn get_node_from_name(&self, node_name: &str) -> (r: Result<&Node, DialogueError>)
        requires
            self.program_has_nodes(),
        ensures
            self.program is None ==> r matches Err(DialogueError::NoProgramLoaded),
            self.program is Some ==> match self.target(node_name@) {
                Some(n) => r matches Ok(x) && x@ == n,
                None => r matches Err(DialogueError::InvalidNode { node_name: name }) && name@ == node_name@,
            },
    {
        match &self.program {
            None => Err(DialogueError::NoProgramLoaded),
            Some(program) => match program.find_node(node_name) {
                Some(i) => Ok(&program.nodes[i]),
                None => Err(DialogueError::InvalidNode { node_name: String::from_str(node_name) }),
            },
        }
    }

    /// The instruction index that label `label_name` of the current node marks.
    pub fn find_instruction_point_for_label(&self, label_name: &String) -> (r: usize)
        requires
            self.jump_target(label_name@) is Some,
        ensures
            self.jump_target(label_name@) == Some(r),
    {
        match &self.current_node {
            Some(node) => match node.label_index(label_name) {
                Some(i) => i as usize,
                None => 0,
            },
            None => 0,
        }
    }

    /// Tells the host which lines the current node may show, and records them as an
    /// event.
    pub fn send_line_hints<H: DialogueHost<C>>(&mut self, host: &mut H)
        requires
            old(self).node() matches Some(n) && hints_readable(n),
        ensures
            final(self).events() == old(self).events().push(
                EventView::LineHints(line_hints(old(self).node()->0.instructions)),
            ),
            final(self).keeps_all_but_events(old(self)),
            final(host).function_calls() == old(host).function_calls(),
            final(host).variable_writes() == old(host).variable_writes(),
    {
        let mut ids: Vec<String> = Vec::new();
        match &self.current_node {
            Some(node) => {
                let ghost ins = node@.instructions;
                let mut i: usize = 0;
                while i < node.instructions.len()
                    invariant
                        ins == node@.instructions,
                        hints_readable(node@),
                        i <= ins.len(),
                        strings_view(ids@) == line_hints(ins.subrange(0, i as int)),
                    decreases node.instructions.len() - i,
                {
                    let ghost pre = ins.subrange(0, i + 1);
                    assert(pre.drop_last() =~= ins.subrange(0, i as int));
                    assert(pre.last() == ins[i as int]);
                    assert(ins[i as int] == node.instructions@[i as int]@);
                    let op = node.instructions[i].opcode;
                    if op == 2 || op == 4 {
                        assert(shows_line(ins[i as int]));
                        assert(has_string_operand(node.instructions@[i as int]@, 0));
                        ids.push(node.instructions[i].read_string_operand(0));
                        assert(strings_view(ids@) =~= line_hints(pre));
                    } else {
                        assert(strings_view(ids@) =~= line_hints(pre));
                    }
                    i = i + 1;
                }
                assert(ins.subrange(0, ins.len() as int) =~= ins);
            },
            None => {},
        }
        host.accept_line_hints(&ids);
        self.batched_events.push(DialogueEvent::LineHints(ids));
        assert(self.events() =~= old(self).events().push(
            EventView::LineHints(line_hints(old(self).node()->0.instructions)),
        ));
    }

    /// Makes `node_name` the current node: its state starts afresh, a node start is
    /// recorded, and line hints are sent where they are enabled.
    pub fn set_node<H: DialogueHost<C>>(&mut self, node_name: String, host: &mut H) -> (r: Result<(), DialogueError>)
        requires
            old(self).program_has_nodes(),
            old(self).line_hints_enabled ==> (old(self).target(node_name@) matches Some(n) ==> hints_readable(n)),
        ensures
            final(host).function_calls() == old(host).function_calls(),
            final(host).variable_writes() == old(host).variable_writes(),
            old(self).program is None ==> r matches Err(DialogueError::NoProgramLoaded),
            old(self).program is Some && old(self).target(node_name@) is None ==> (r matches Err(
                DialogueError::InvalidNode { node_name: name },
            ) && name@ == node_name@),
            old(self).program is Some && old(self).target(node_name@) is Some ==> r is Ok,
            r is Err ==> *final(self) == *old(self),
            r is Ok ==> {
                &&& old(self).target(node_name@) is Some
                &&& final(self).node() == old(self).target(node_name@)
                &&& final(self).current_node_name matches Some(name) && name@ == node_name@
                &&& final(self).state.program_counter == 0
                &&& final(self).stack().len() == 0
                &&& final(self).options().len() == 0
                &&& final(self).events() == if old(self).line_hints_enabled {
                    old(self).events().push(EventView::NodeStart(node_name@)).push(
                        EventView::LineHints(line_hints(old(self).target(node_name@)->0.instructions)),
                    )
                } else {
                    old(self).events().push(EventView::NodeStart(node_name@))
                }
                &&& final(self).execution_state == old(self).execution_state
                &&& final(self).library == old(self).library
                &&& final(self).program == old(self).program
                &&& final(self).line_hints_enabled == old(self).line_hints_enabled
                &&& final(self).language_code == old(self).language_code
                &&& final(self).call_stack == old(self).call_stack
                &&& final(self).node_just_switched == old(self).node_just_switched
                &&& final(self).saliency_candidates == old(self).saliency_candidates
                &&& final(self).content_saliency_strategy == old(self).content_saliency_strategy
            },
    {
        let node = match self.get_node_from_name(node_name.as_str()) {
            Ok(n) => n.duplicate(),
            Err(e) => {
                return Err(e);
            },
        };
        self.current_node = Some(node);
        self.reset_state();
        let start = node_name.clone();
        self.current_node_name = Some(node_name);
        self.batched_events.push(DialogueEvent::NodeStart(start));
        if self.line_hints_enabled {
            self.send_line_hints(host);
        }
        Ok(())
    }

    /// Selects the option at `selected_option_id`.
    pub fn set_selected_option(&mut self, selected_option_id: usize) -> (r: Result<(), DialogueError>)
        requires
            old(self).execution_state == ExecutionState::WaitingOnOptionSelection ==> old(self).option_resolvable(
                selected_option_id as int,
            ),
        ensures
            old(self).execution_state != ExecutionState::WaitingOnOptionSelection ==> (r matches Err(
                DialogueError::UnexpectedOptionSelectionError,
            ) && *final(self) == *old(self)),
            old(self).execution_state == ExecutionState::WaitingOnOptionSelection && selected_option_id
                >= old(self).options().len() ==> (r matches Err(
                DialogueError::InvalidOptionIdError { selected_option_id: id, max_id: m },
            ) && id == selected_option_id && m == (if old(self).options().len() > 0 {
                old(self).options().len() - 1
            } else {
                0
            }) && *final(self) == *old(self)),
            r is Ok <==> old(self).execution_state == ExecutionState::WaitingOnOptionSelection && selected_option_id
                < old(self).options().len(),
            r is Ok ==> final(self).selected(old(self), selected_option_id as int),
    {
        if self.execution_state != ExecutionState::WaitingOnOptionSelection {
            return Err(DialogueError::UnexpectedOptionSelectionError);
        }
        let count = self.state.current_options.len();
        if selected_option_id >= count {
            let max_id = if count > 0 { count - 1 } else { 0 };
            return Err(DialogueError::InvalidOptionIdError { selected_option_id, max_id });
        }
        assert(self.options()[selected_option_id as int] == self.state.current_options@[selected_option_id as int]@);
        assert(self.jump_target(self.options()[selected_option_id as int].destination) is Some);
        let destination = self.find_instruction_point_for_label(&self.state.current_options[selected_option_id].destination_node);
        let number = FloatBits::from_integer(destination as i32 as i64);
        self.state.stack.push(YarnValue::Number(number));
        self.state.stack.push(YarnValue::Boolean(true));
        self.state.current_options = Vec::new();
        self.execution_state = ExecutionState::WaitingForContinue;
        assert(self.stack() =~= old(self).stack().push(
            Value::Number(number_of_int(destination as i32 as int)),
        ).push(Value::Boolean(true)));
        assert(self.options() =~= Seq::<OptionView>::empty());
        Ok(())
    }

    /// Signals that no option was selected: `false` is pushed, and the dialogue waits
    /// to be continued past the options.
    pub fn set_no_option_selected(&mut self) -> (r: Result<(), DialogueError>)
        ensures
            old(self).execution_state != ExecutionState::WaitingOnOptionSelection ==> (r matches Err(
                DialogueError::UnexpectedOptionSelectionError,
            ) && *final(self) == *old(self)),
            old(self).execution_state == ExecutionState::WaitingOnOptionSelection ==> r is Ok && final(self).moved(
                old(self),
                old(self).state.program_counter as int,
                old(self).stack().push(Value::Boolean(false)),
                Seq::empty(),
                old(self).events(),
                ExecutionState::WaitingForContinue,
            ),
    {
        if self.execution_state != ExecutionState::WaitingOnOptionSelection {
            return Err(DialogueError::UnexpectedOptionSelectionError);
        }
        self.state.stack.push(YarnValue::Boolean(false));
        self.state.current_options = Vec::new();
        self.execution_state = ExecutionState::WaitingForContinue;
        assert(self.stack() =~= old(self).stack().push(Value::Boolean(false)));
        assert(self.options() =~= Seq::<OptionView>::empty());
        Ok(())
    }

    /// Selects the first option whose line is `selected_line_id`, by the id that the
    /// option carries.
    pub fn set_selected_option_by_line_id(&mut self, selected_line_id: String) -> (r: Result<usize, DialogueError>)
        requires
            old(self).execution_state == ExecutionState::WaitingOnOptionSelection ==> (old(
                self,
            ).first_option_with_line(selected_line_id@) matches Some(k) ==> old(self).option_resolvable(
                old(self).options()[k].id as int,
            )),
        ensures
            old(self).execution_state != ExecutionState::WaitingOnOptionSelection ==> (r matches Err(
                DialogueError::UnexpectedOptionSelectionError,
            ) && *final(self) == *old(self)),
            old(self).execution_state == ExecutionState::WaitingOnOptionSelection ==> {
                let opts = old(self).options();
                if exists|k: int| 0 <= k < opts.len() && opts[k].line.id == selected_line_id@ {
                    let k = choose|k: int|
                        0 <= k < opts.len() && opts[k].line.id == selected_line_id@ && forall|j: int|
                            0 <= j < k ==> opts[j].line.id != selected_line_id@;
                    let id = opts[k].id;
                    if id < opts.len() {
                        r == Ok::<usize, DialogueError>(id) && final(self).selected(old(self), id as int)
                    } else {
                        r matches Err(DialogueError::InvalidOptionIdError { selected_option_id: i, max_id: m })
                            && i == id && m == opts.len() - 1 && *final(self) == *old(self)
                    }
                } else {
                    &&& r matches Err(DialogueError::InvalidLineIdError { selected_line_id: l, line_ids: ids })
                    &&& l@ == selected_line_id@
                    &&& strings_view(ids@) == option_line_ids(opts)
                    &&& *final(self) == *old(self)
                }
            },
    {
        if self.execution_state != ExecutionState::WaitingOnOptionSelection {
            return Err(DialogueError::UnexpectedOptionSelectionError);
        }
        let ghost opts = self.options();
        let mut i: usize = 0;
        while i < self.state.current_options.len()
            invariant
                opts == self.options(),
                *self == *old(self),
                self.execution_state == ExecutionState::WaitingOnOptionSelection,
                self.first_option_with_line(selected_line_id@) matches Some(k) ==> self.option_resolvable(
                    self.options()[k].id as int,
                ),
                i <= opts.len(),
                forall|j: int| 0 <= j < i ==> opts[j].line.id != selected_line_id@,
            decreases self.state.current_options.len() - i,
        {
            assert(opts[i as int] == self.state.current_options@[i as int]@);
            if crate::text::str_eq(self.state.current_options[i].line.id.as_str(), selected_line_id.as_str()) {
                let id = self.state.current_options[i].id;
                proof {
                    let w = i as int;
                    let k = choose|k: int|
                        0 <= k < opts.len() && opts[k].line.id == selected_line_id@ && forall|j: int|
                            0 <= j < k ==> opts[j].line.id != selected_line_id@;
                    assert(0 <= w < opts.len() && opts[w].line.id == selected_line_id@ && forall|j: int|
                        0 <= j < w ==> opts[j].line.id != selected_line_id@);
                    if k < w {
                        assert(opts[k].line.id != selected_line_id@);
                    } else if k > w {
                        assert(opts[w].line.id != selected_line_id@);
                    }
                    assert(self.first_option_with_line(selected_line_id@) == Some(w));
                }
                return match self.set_selected_option(id) {
                    Ok(()) => Ok(id),
                    Err(e) => Err(e),
                };
            }
            i = i + 1;
        }
        let mut line_ids: Vec<String> = Vec::new();
        let mut j: usize = 0;
        while j < self.state.current_options.len()
            invariant
                opts == self.options(),
                *self == *old(self),
                j <= opts.len(),
                strings_view(line_ids@) == option_line_ids(opts.subrange(0, j as int)),
            decreases self.state.current_options.len() - j,
        {
            assert(opts[j as int] == self.state.current_options@[j as int]@);
            let ghost before = line_ids@;
            let lid = self.state.current_options[j].line.id.clone();
            assert(lid@ == opts[j as int].line.id);
            line_ids.push(lid);
            assert(line_ids@ == before.push(lid));
            proof {
                let prev = opts.subrange(0, j as int);
                let next = opts.subrange(0, j + 1);
                assert(strings_view(before).len() == before.len());
                assert(option_line_ids(prev).len() == prev.len());
                assert(before.len() == j);
                assert(line_ids@.len() == j + 1);
                assert(strings_view(line_ids@).len() == j + 1);
                assert(option_line_ids(next).len() == j + 1);
                assert forall|k: int| 0 <= k < j + 1 implies strings_view(line_ids@)[k] == option_line_ids(next)[k] by {
                    if k < j {
                        assert(strings_view(before)[k] == option_line_ids(prev)[k]);
                        assert(next[k] == prev[k]);
                    }
                }
                assert(strings_view(line_ids@) =~= option_line_ids(next));
            }
            j = j + 1;
        }
        assert(opts.subrange(0, opts.len() as int) =~= opts);
        Err(DialogueError::InvalidLineIdError { selected_line_id, line_ids })
    }
}

/// Whether every value converts to text by itself.
pub open spec fn all_text(values: Seq<Value>) -> bool {
    forall|i: int| 0 <= i < values.len() ==> (#[trigger] text_of(values[i])) is Some
}

/// The texts of values that all convert to text by themselves.
pub open spec fn texts(values: Seq<Value>) -> Seq<Seq<char>> {
    values.map_values(|v: Value| text_of(v)->0)
}

/// Whether `r` is the error of a line that could not be prepared: its text was missing
/// in the language asked for, or its markup could not be parsed.
pub open spec fn line_error(r: Result<(), DialogueError>, id: Seq<char>, language: Option<String>) -> bool {
    ||| {
        &&& r matches Err(DialogueError::LineProviderError { id: i, language_code: l })
        &&& i@ == id
        &&& l == language
    }
    ||| r matches Err(DialogueError::MarkupParseError(_))
}

/// Whether `r` is an error of the variable storage.
pub open spec fn storage_error(r: Result<(), DialogueError>) -> bool {
    r matches Err(DialogueError::VariableStorageError(_))
}

/// Whether `r` is the error for a missing program.
pub open spec fn no_program_error(r: Result<(), DialogueError>) -> bool {
    r matches Err(DialogueError::NoProgramLoaded)
}

/// Whether `r` is the error for a missing node named `name`.
pub open spec fn invalid_node_error(r: Result<(), DialogueError>, name: Seq<char>) -> bool {
    r matches Err(DialogueError::InvalidNode { node_name: m }) && m@ == name
}

/// The tag that marks the nodes that compute smart variables.
pub open spec fn smart_variable_tag() -> Seq<char> {
    "Yarn.SmartVariable"@
}

/// Whether `name` is a smart variable of `program`: a node of that name carries the tag.
pub open spec fn is_smart_variable(program: Program, name: Seq<char>) -> bool {
    match node_named(program.nodes@, name) {
        Some(n) => n.tags.contains(smart_variable_tag()),
        None => false,
    }
}

/// The value that a variable missing from storage starts with: its declared initial
/// value, or the default of the internal variables of the once and saliency systems.
pub open spec fn default_value(program: Program, name: Seq<char>) -> Option<Value> {
    match crate::program::initial_value(program.initial_values@, name) {
        Some(o) => Some(operand_value(o)),
        None => if crate::library::once_prefix().is_prefix_of(name) {
            Some(Value::Boolean(false))
        } else if crate::saliency::view_count_prefix().is_prefix_of(name) {
            Some(Value::Number(0))
        } else {
            None
        },
    }
}

/// Whether `s` starts with `prefix`.
pub fn starts_with(s: &str, prefix: &str) -> (r: bool)
    ensures
        r == prefix@.is_prefix_of(s@),
{
    let n = prefix.unicode_len();
    if n > s.unicode_len() {
        return false;
    }
    let mut i: usize = 0;
    while i < n
        invariant
            n == prefix@.len(),
            n <= s@.len(),
            i <= n,
            forall|j: int| 0 <= j < i ==> s@[j] == prefix@[j],
        decreases n - i,
    {
        if s.get_char(i) != prefix.get_char(i) {
            return false;
        }
        i = i + 1;
    }
    assert(prefix@ =~= s@.subrange(0, n as int));
    true
}

impl<C, S> VirtualMachine<C, S> {
    /// The program counter.
    pub open spec fn pc(&self) -> int {
        self.state.program_counter as int
    }

    /// The value on top of the stack.
    pub open spec fn top(&self) -> Value {
        self.stack().last()
    }

    /// The stack without its top `k` values.
    pub open spec fn below(&self, k: int) -> Seq<Value> {
        self.stack().subrange(0, self.stack().len() - k)
    }

    /// The top `k` values of the stack, the deepest first.
    pub open spec fn upper(&self, k: int) -> Seq<Value> {
        self.stack().subrange(self.stack().len() - k, self.stack().len() as int)
    }

    /// Whether a value convertible to text is on top of the stack.
    pub open spec fn text_on_top(&self) -> bool {
        self.stack().len() > 0 && text_of(self.top()) is Some
    }

    /// The name of the smart-variable-free part of the frame: everything but the
    /// stack, the program counter, the options, the events, the execution state, the
    /// candidates, and the strategy is as in `old`.
    pub open spec fn keeps_node(&self, old: &Self) -> bool {
        &&& self.library == old.library
        &&& self.program == old.program
        &&& self.line_hints_enabled == old.line_hints_enabled
        &&& self.language_code == old.language_code
        &&& self.current_node == old.current_node
        &&& self.current_node_name == old.current_node_name
        &&& self.call_stack == old.call_stack
        &&& self.node_just_switched == old.node_just_switched
    }

    /// Whether a value is stored in or defaulted for the variable `name`: where storage
    /// lacks it, the program declares it, computes it, or it is internal.
    pub open spec fn resolvable(&self, name: Seq<char>) -> bool {
        self.program matches Some(p) && (default_value(p, name) is Some || is_smart_variable(p, name))
    }

    /// Whether the node that `name` would switch to can have its line hints sent.
    pub open spec fn hintable(&self, name: Seq<char>) -> bool {
        self.line_hints_enabled ==> (self.target(name) matches Some(n) ==> hints_readable(n))
    }

    /// Whether `ins` can run without fault in this state: its operands are of the
    /// kinds its opcode reads, the stack holds the values it pops, and the labels,
    /// nodes and functions it names can be looked up.
    pub open spec fn runnable(&self, ins: InstructionView) -> bool {
        &&& self.state.program_counter < usize::MAX
        &&& self.program_has_nodes()
        &&& match opcode_of(ins.opcode) {
            Some(OpCode::JumpTo) => has_string_operand(ins, 0) && self.jump_target(string_operand(ins, 0)) is Some,
            Some(OpCode::Jump) => self.text_on_top() && self.jump_target(text_of(self.top())->0) is Some,
            Some(OpCode::RunLine) | Some(OpCode::RunCommand) => {
                &&& ins.operands.len() >= 2
                &&& has_string_operand(ins, 0)
                &&& has_float_operand(ins, 1)
                &&& self.stack().len() >= crate::number::to_usize(float_operand(ins, 1))
            },
            Some(OpCode::AddOption) => {
                let n = crate::number::to_usize(float_operand(ins, 2)) as int;
                &&& ins.operands.len() >= 4
                &&& has_string_operand(ins, 0)
                &&& has_string_operand(ins, 1)
                &&& has_float_operand(ins, 2)
                &&& has_bool_operand(ins, 3)
                &&& self.stack().len() >= n + (if bool_operand(ins, 3) { 1int } else { 0int })
                &&& bool_operand(ins, 3) ==> bool_of(self.stack()[self.stack().len() - n - 1]) is Some
            },
            Some(OpCode::ShowOptions) => true,
            Some(OpCode::PushString) => has_string_operand(ins, 0),
            Some(OpCode::PushFloat) => has_float_operand(ins, 0),
            Some(OpCode::PushBool) => has_bool_operand(ins, 0),
            Some(OpCode::PushNull) => false,
            Some(OpCode::JumpIfFalse) => {
                &&& has_string_operand(ins, 0)
                &&& self.stack().len() > 0
                &&& bool_of(self.top()) is Some
                &&& bool_of(self.top()) == Some(false) ==> self.jump_target(string_operand(ins, 0)) is Some
            },
            Some(OpCode::Pop) => self.stack().len() > 0,
            Some(OpCode::CallFunc) => {
                &&& has_string_operand(ins, 0)
                &&& self.stack().len() > 0
                &&& count_of(self.top()) is Some
                &&& self.stack().len() >= count_of(self.top())->0 + 1
                &&& if string_operand(ins, 0) == "has_any_content"@ {
                    count_of(self.top())->0 == 1 && self.program is Some
                } else {
                    self.library@.dom().contains(string_operand(ins, 0)) ==> {
                        let f = self.library@[string_operand(ins, 0)];
                        if f is Variadic {
                            count_of(self.top())->0 >= f.spec_parameter_count()
                        } else {
                            count_of(self.top())->0 == f.spec_parameter_count()
                        }
                    }
                }
            },
            Some(OpCode::PushVariable) => has_string_operand(ins, 0) && self.resolvable(string_operand(ins, 0)),
            Some(OpCode::StoreVariable) => has_string_operand(ins, 0) && self.stack().len() > 0,
            Some(OpCode::Stop) => self.current_node_name is Some,
            Some(OpCode::RunNode) => {
                &&& self.text_on_top()
                &&& self.current_node_name is Some
                &&& self.hintable(text_of(self.top())->0)
            },
            Some(OpCode::DetourToNode) => self.text_on_top() && self.current_node_name is Some,
            Some(OpCode::Return) => self.current_node_name is Some,
            Some(OpCode::AddSaliencyCandidate) => {
                &&& has_string_operand(ins, 0)
                &&& has_float_operand(ins, 1)
                &&& has_string_operand(ins, 2)
                &&& self.stack().len() > 0
                &&& bool_of(self.top()) is Some
                &&& self.jump_target(string_operand(ins, 2)) is Some
            },
            Some(OpCode::SelectSaliencyCandidate) => true,
            Some(OpCode::PeekAndJump) => self.stack().len() > 0 && index_of(self.top()) is Some,
            None => false,
        }
    }

    /// The effect of a jump to `pc`.
    pub open spec fn jumped(&self, old: &Self, pc: int) -> bool {
        self.moved(old, pc, old.stack(), old.options(), old.events(), old.execution_state)
    }

    /// The effect of an instruction that replaces the stack and moves on.
    pub open spec fn stacked(&self, old: &Self, stack: Seq<Value>) -> bool {
        self.moved(old, old.pc() + 1, stack, old.options(), old.events(), old.execution_state)
    }

    /// The effect of running a line: its substitutions are popped and, where its text
    /// could be prepared, a line with its id is delivered and the dialogue waits.
    pub open spec fn ran_line(&self, old: &Self, ins: InstructionView, r: Result<(), DialogueError>) -> bool {
        let n = crate::number::to_usize(float_operand(ins, 1)) as int;
        &&& self.same_context(old)
        &&& self.saliency_candidates == old.saliency_candidates
        &&& self.options() == old.options()
        &&& self.stack() == old.below(n)
        &&& r is Ok ==> {
            &&& self.pc() == old.pc() + 1
            &&& self.execution_state == ExecutionState::WaitingForContinue
            &&& self.events().len() == old.events().len() + 1
            &&& self.events().drop_last() == old.events()
            &&& self.events().last() matches EventView::Line(l) && l.id == string_operand(ins, 0)
        }
        &&& r is Err ==> {
            &&& self.pc() == old.pc()
            &&& self.execution_state == old.execution_state
            &&& self.events() == old.events()
            &&& line_error(r, string_operand(ins, 0), old.language_code)
        }
    }

    /// The effect of running a command: its substitutions are popped and its text, with
    /// the substitutions made, is delivered; the dialogue waits.
    pub open spec fn ran_command(&self, old: &Self, ins: InstructionView, r: Result<(), DialogueError>) -> bool {
        let n = crate::number::to_usize(float_operand(ins, 1)) as int;
        &&& r is Ok
        &&& self.same_context(old)
        &&& self.saliency_candidates == old.saliency_candidates
        &&& self.options() == old.options()
        &&& self.stack() == old.below(n)
        &&& self.pc() == old.pc() + 1
        &&& self.execution_state == ExecutionState::WaitingForContinue
        &&& self.events().len() == old.events().len() + 1
        &&& self.events().drop_last() == old.events()
        &&& self.events().last() matches EventView::Command(c) && (all_text(old.upper(n)) ==> c == substituted(
            string_operand(ins, 0),
            texts(old.upper(n)),
            n as nat,
        ))
    }

    /// The effect of adding an option: its substitutions and condition are popped and,
    /// where its line could be prepared, the option is added.
    pub open spec fn added_option(&self, old: &Self, ins: InstructionView, r: Result<(), DialogueError>) -> bool {
        let n = crate::number::to_usize(float_operand(ins, 2)) as int;
        let conditional = bool_operand(ins, 3);
        &&& self.same_context(old)
        &&& self.saliency_candidates == old.saliency_candidates
        &&& self.events() == old.events()
        &&& self.execution_state == old.execution_state
        &&& r is Ok ==> {
            &&& self.stack() == old.below(n + if conditional { 1int } else { 0int })
            &&& self.pc() == old.pc() + 1
            &&& self.options().len() == old.options().len() + 1
            &&& self.options().drop_last() == old.options()
            &&& self.options().last().line.id == string_operand(ins, 0)
            &&& self.options().last().id == old.options().len()
            &&& self.options().last().destination == string_operand(ins, 1)
            &&& self.options().last().is_available == if conditional {
                bool_of(old.stack()[old.stack().len() - n - 1])->0
            } else {
                true
            }
        }
        &&& r is Err ==> {
            &&& self.stack() == old.below(n)
            &&& self.pc() == old.pc()
            &&& self.options() == old.options()
            &&& line_error(r, string_operand(ins, 0), old.language_code)
        }
    }

    /// The effect of stopping: the dialogue is stopped with the state of its node
    /// forgotten, and the program counter is then moved past the instruction.
    pub open spec fn stopped(&self, old: &Self, events: Seq<EventView>, pc: int) -> bool {
        &&& self.library == old.library
        &&& self.program == old.program
        &&& self.line_hints_enabled == old.line_hints_enabled
        &&& self.language_code == old.language_code
        &&& self.content_saliency_strategy == old.content_saliency_strategy
        &&& self.current_node == old.current_node
        &&& self.call_stack == old.call_stack
        &&& self.node_just_switched == old.node_just_switched
        &&& self.saliency_candidates == old.saliency_candidates
        &&& self.execution_state == ExecutionState::Stopped
        &&& self.current_node_name is None
        &&& self.stack().len() == 0
        &&& self.options().len() == 0
        &&& self.pc() == pc
        &&& self.events() == events
    }

    /// The effect of calling a function: its parameter count and parameters are
    /// popped; `has_any_content` pushes a boolean, a function of the library its
    /// result, and an unknown function is an error.
    pub open spec fn called(&self, old: &Self, ins: InstructionView, r: Result<(), DialogueError>) -> bool {
        let c = count_of(old.top())->0 as int;
        let name = string_operand(ins, 0);
        let rest = old.below(c + 1);
        &&& self.same_context(old)
        &&& self.saliency_candidates == old.saliency_candidates
        &&& self.options() == old.options()
        &&& self.events() == old.events()
        &&& self.execution_state == old.execution_state
        &&& if name == "has_any_content"@ {
            let group = text_of(old.stack()[old.stack().len() - 1 - c]);
            &&& r is Ok ==> {
                &&& self.pc() == old.pc() + 1
                &&& self.stack().len() == rest.len() + 1
                &&& self.stack().drop_last() == rest
                &&& self.stack().last() is Boolean
            }
            &&& r is Err ==> {
                &&& r matches Err(DialogueError::EvaluationFailed { name: x }) && (group matches Some(g) ==> x@ == g)
                &&& self.pc() == old.pc()
                &&& self.stack() == rest
            }
            &&& group matches Some(g) ==> (old.program matches Some(p) ==> (group_kind(p, g) != NodeGroupKind::Hub
                ==> r is Ok))
        } else if old.library@.dom().contains(name) {
            &&& r is Ok
            &&& self.pc() == old.pc() + 1
            &&& self.stack().len() == rest.len() + 1
            &&& self.stack().drop_last() == rest
        } else {
            &&& r matches Err(DialogueError::FunctionNotFound { function_name: f }) && f@ == name
            &&& self.pc() == old.pc()
            &&& self.stack() == rest
        }
    }

    /// The effect of a variable access that the host's storage decides: on success
    /// `grown` values are pushed and the program counter moves on; a storage error, or
    /// a smart variable whose evaluation failed, leaves the machine as it was.
    pub open spec fn accessed(&self, old: &Self, r: Result<(), DialogueError>, grown: int) -> bool {
        &&& self.same_context(old)
        &&& self.saliency_candidates == old.saliency_candidates
        &&& self.options() == old.options()
        &&& self.events() == old.events()
        &&& self.execution_state == old.execution_state
        &&& r is Ok ==> self.pc() == old.pc() + 1 && self.stack().len() == old.stack().len() + grown
            && self.stack().subrange(0, old.stack().len() as int) == old.stack()
        &&& r is Err ==> (storage_error(r) || r matches Err(DialogueError::EvaluationFailed { .. })) && self.pc()
            == old.pc() && self.stack() == old.stack()
    }

    /// The effect of switching from `old` to the node named `name`, with the events
    /// `events` recorded before the node starts.
    pub open spec fn switched(&self, old: &Self, name: Seq<char>, events: Seq<EventView>, r: Result<(), DialogueError>) -> bool {
        &&& self.library == old.library
        &&& self.program == old.program
        &&& self.line_hints_enabled == old.line_hints_enabled
        &&& self.language_code == old.language_code
        &&& self.saliency_candidates == old.saliency_candidates
        &&& self.node_just_switched == old.node_just_switched
        &&& self.execution_state == old.execution_state
        &&& old.program is None ==> no_program_error(r)
        &&& old.program is Some && old.target(name) is None ==> invalid_node_error(r, name)
        &&& old.program is Some && old.target(name) is Some ==> r is Ok
        &&& r is Ok ==> {
            &&& old.target(name) is Some
            &&& self.node() == old.target(name)
            &&& self.current_node_name matches Some(x) && x@ == name
            &&& self.pc() == 0
            &&& self.stack().len() == 0
            &&& self.options().len() == 0
            &&& self.events() == if old.line_hints_enabled {
                events.push(EventView::NodeStart(name)).push(
                    EventView::LineHints(line_hints(old.target(name)->0.instructions)),
                )
            } else {
                events.push(EventView::NodeStart(name))
            }
        }
    }

    /// What running `ins` did to the host's records, from host `h0` to host `h1`: a
    /// library function is handed the popped parameters, deepest first, and its result
    /// is what is pushed; `has_any_content` pushes the answer of the machine's own
    /// evaluation over what the host stores, which it leaves unwritten; a store writes
    /// the value on top of the stack; a read pushes what storage holds, where it holds
    /// nothing a smart variable's evaluated value (storage unwritten), and for another
    /// variable its default (or `false`), which is written and pushed; running a node
    /// counts a visit to each abandoned frame's node that has a number stored.
    pub open spec fn host_stepped<H: DialogueHost<C>>(
        &self,
        old: &Self,
        ins: InstructionView,
        r: Result<(), DialogueError>,
        h0: H,
        h1: H,
    ) -> bool {
        match opcode_of(ins.opcode) {
            Some(OpCode::CallFunc) => {
                let c = count_of(old.top())->0 as int;
                let name = string_operand(ins, 0);
                let n = old.stack().len() as int;
                &&& name != "has_any_content"@ && old.library@.dom().contains(name) ==> h1.function_calls()
                    == h0.function_calls().push((old.stack().subrange(n - 1 - c, n - 1), self.stack().last()))
                    && h1.variable_writes() == h0.variable_writes()
                &&& name != "has_any_content"@ && !old.library@.dom().contains(name) ==> h1 == h0
                &&& name == "has_any_content"@ ==> {
                    let group = text_of(old.stack()[n - 1 - c]);
                    let st = storage_of::<C, H>(h0);
                    &&& host_extended::<C, H>(h0, h1)
                    &&& group matches Some(g) ==> (old.program matches Some(p) ==> {
                        &&& r is Ok ==> (self.stack().last() matches Value::Boolean(b) && content_answer(
                            p,
                            old.library@.dom(),
                            st,
                            g,
                            b,
                        ))
                        &&& hub_ends_quietly(p, old.library@.dom(), st, g, usize::MAX) ==> r is Ok
                    })
                }
            },
            Some(OpCode::StoreVariable) => {
                &&& h1.variable_writes() == h0.variable_writes().push((string_operand(ins, 0), old.top()))
                &&& h1.function_calls() == h0.function_calls()
            },
            Some(OpCode::RunNode) => {
                &&& h1.function_calls() == h0.function_calls()
                &&& visit_count_writes(
                    calls_view(old.call_stack@),
                    h0.variable_writes(),
                    h1.variable_writes(),
                )
                &&& distinct_nodes(calls_view(old.call_stack@)) ==> h1.variable_writes() == h0.variable_writes()
                    + visit_writes::<C, H>(calls_view(old.call_stack@), h0)
            },
            Some(OpCode::PushVariable) => {
                let name = string_operand(ins, 0);
                &&& h0.stored(name) matches Some(v) ==> r is Ok && self.stack().last() == v && h1 == h0
                &&& h0.stored(name) is None ==> (old.program matches Some(p) ==> (is_smart_variable(p, name) ==> {
                    &&& host_extended::<C, H>(h0, h1)
                    &&& r is Ok ==> smart_value(p, old.library@.dom(), storage_of::<C, H>(h0), name, self.stack().last())
                    &&& r matches Err(DialogueError::EvaluationFailed { name: x }) ==> x@ == name && !smart_ends_quietly(
                        p,
                        old.library@.dom(),
                        storage_of::<C, H>(h0),
                        name,
                        usize::MAX,
                    )
                }))
                &&& h0.stored(name) is None ==> (old.program matches Some(p) ==> (!is_smart_variable(p, name)
                    ==> (r is Ok ==> {
                    let d = match default_value(p, name) {
                        Some(v) => v,
                        None => Value::Boolean(false),
                    };
                    &&& self.stack().last() == d
                    &&& h1.variable_writes() == h0.variable_writes().push((name, d))
                })))
            },
            _ => true,
        }
    }

    /// What running `ins` did, from the state `old`, returning `r`.
    pub open spec fn stepped(&self, old: &Self, ins: InstructionView, r: Result<(), DialogueError>) -> bool {
        match opcode_of(ins.opcode) {
            Some(OpCode::JumpTo) => r is Ok && self.jumped(old, old.jump_target(string_operand(ins, 0))->0 as int),
            Some(OpCode::Jump) => r is Ok && self.jumped(old, old.jump_target(text_of(old.top())->0)->0 as int),
            Some(OpCode::RunLine) => self.ran_line(old, ins, r),
            Some(OpCode::RunCommand) => self.ran_command(old, ins, r),
            Some(OpCode::AddOption) => self.added_option(old, ins, r),
            Some(OpCode::ShowOptions) => r is Ok && if old.options().len() == 0 {
                self.stopped(old, old.events().push(EventView::DialogueComplete), 1)
            } else {
                self.moved(
                    old,
                    old.pc() + 1,
                    old.stack(),
                    old.options(),
                    old.events().push(EventView::Options(old.options())),
                    ExecutionState::WaitingOnOptionSelection,
                )
            },
            Some(OpCode::PushString) => r is Ok && self.stacked(old, old.stack().push(Value::Text(string_operand(ins, 0)))),
            Some(OpCode::PushFloat) => r is Ok && self.stacked(old, old.stack().push(Value::Number(float_operand(ins, 0)))),
            Some(OpCode::PushBool) => r is Ok && self.stacked(old, old.stack().push(Value::Boolean(bool_operand(ins, 0)))),
            Some(OpCode::JumpIfFalse) => r is Ok && self.jumped(
                old,
                if bool_of(old.top()) == Some(false) {
                    old.jump_target(string_operand(ins, 0))->0 as int
                } else {
                    old.pc() + 1
                },
            ),
            Some(OpCode::Pop) => r is Ok && self.stacked(old, old.stack().drop_last()),
            Some(OpCode::CallFunc) => self.called(old, ins, r),
            Some(OpCode::PushVariable) => self.accessed(old, r, 1),
            Some(OpCode::StoreVariable) => self.accessed(old, r, 0),
            Some(OpCode::Stop) => r is Ok && self.stopped(
                old,
                old.events().push(EventView::NodeComplete(old.current_node_name->0@)).push(EventView::DialogueComplete),
                1,
            ),
            Some(OpCode::RunNode) => {
                let name = text_of(old.top())->0;
                let events = old.events().push(EventView::NodeComplete(old.current_node_name->0@)) + completions(
                    calls_view(old.call_stack@),
                );
                &&& self.call_stack@.len() == 0
                &&& self.content_saliency_strategy == old.content_saliency_strategy
                &&& self.switched(old, name, events, r)
                &&& r is Err ==> {
                    &&& self.stack() == old.stack().drop_last()
                    &&& self.events() == events
                    &&& self.current_node == old.current_node
                    &&& self.current_node_name == old.current_node_name
                    &&& self.pc() == old.pc()
                    &&& self.options() == old.options()
                }
            },
            Some(OpCode::DetourToNode) => {
                let name = text_of(old.top())->0;
                &&& calls_view(self.call_stack@) == calls_view(old.call_stack@).push(
                    (old.current_node_name->0@, (old.state.program_counter + 1) as usize),
                )
                &&& self.library == old.library
                &&& self.program == old.program
                &&& self.line_hints_enabled == old.line_hints_enabled
                &&& self.language_code == old.language_code
                &&& self.content_saliency_strategy == old.content_saliency_strategy
                &&& self.saliency_candidates == old.saliency_candidates
                &&& self.node_just_switched == old.node_just_switched
                &&& self.execution_state == old.execution_state
                &&& self.stack() == old.stack().drop_last()
                &&& self.options() == old.options()
                &&& old.program is None ==> no_program_error(r)
                &&& old.program is Some && old.target(name) is None ==> invalid_node_error(r, name)
                &&& old.program is Some && old.target(name) is Some ==> r is Ok
                &&& r is Ok ==> {
                    &&& self.node() == old.target(name)
                    &&& self.current_node_name matches Some(x) && x@ == name
                    &&& self.pc() == 0
                    &&& self.events() == old.events().push(EventView::NodeStart(name))
                }
                &&& r is Err ==> {
                    &&& self.current_node == old.current_node
                    &&& self.current_node_name == old.current_node_name
                    &&& self.pc() == old.pc()
                    &&& self.events() == old.events()
                }
            },
            Some(OpCode::Return) => if old.call_stack@.len() > 0 {
                let (name, pc) = calls_view(old.call_stack@).last();
                &&& calls_view(self.call_stack@) == calls_view(old.call_stack@).drop_last()
                &&& self.library == old.library
                &&& self.program == old.program
                &&& self.line_hints_enabled == old.line_hints_enabled
                &&& self.language_code == old.language_code
                &&& self.content_saliency_strategy == old.content_saliency_strategy
                &&& self.saliency_candidates == old.saliency_candidates
                &&& self.execution_state == old.execution_state
                &&& self.stack() == old.stack()
                &&& self.options() == old.options()
                &&& old.program is None ==> no_program_error(r)
                &&& old.program is Some && old.target(name) is None ==> invalid_node_error(r, name)
                &&& old.program is Some && old.target(name) is Some ==> r is Ok
                &&& r is Ok ==> {
                    &&& self.node() == old.target(name)
                    &&& self.current_node_name matches Some(x) && x@ == name
                    &&& self.pc() == pc
                    &&& self.events() == old.events().push(EventView::NodeComplete(old.current_node_name->0@))
                    &&& self.node_just_switched
                }
                &&& r is Err ==> {
                    &&& self.current_node == old.current_node
                    &&& self.current_node_name == old.current_node_name
                    &&& self.pc() == old.pc()
                    &&& self.events() == old.events()
                    &&& self.node_just_switched == old.node_just_switched
                }
            } else {
                r is Ok && self.stopped(
                    old,
                    old.events().push(EventView::NodeComplete(old.current_node_name->0@)).push(
                        EventView::DialogueComplete,
                    ),
                    0,
                )
            },
            Some(OpCode::AddSaliencyCandidate) => {
                let passed = bool_of(old.top())->0;
                &&& r is Ok
                &&& self.same_context(old)
                &&& self.pc() == old.pc() + 1
                &&& self.stack() == old.stack().drop_last()
                &&& self.options() == old.options()
                &&& self.events() == old.events()
                &&& self.execution_state == old.execution_state
                &&& self.content_saliency_strategy == old.content_saliency_strategy
                &&& self.saliency_candidates@.len() == old.saliency_candidates@.len() + 1
                &&& self.saliency_candidates@.drop_last() == old.saliency_candidates@
                &&& self.saliency_candidates@.last().content_id@ == string_operand(ins, 0)
                &&& self.saliency_candidates@.last().passing_condition_count == if passed { 1i32 } else { 0i32 }
                &&& self.saliency_candidates@.last().failing_condition_count == if passed { 0i32 } else { 1i32 }
                &&& self.saliency_candidates@.last().complexity_score == crate::number::to_i32(float_operand(ins, 1))
                &&& self.saliency_candidates@.last().content_type == ContentType::Line
                &&& self.saliency_candidates@.last().destination == old.jump_target(string_operand(ins, 2))->0
            },
            Some(OpCode::SelectSaliencyCandidate) => {
                let cands = old.saliency_candidates@;
                &&& r is Ok
                &&& self.keeps_node(old)
                &&& self.pc() == old.pc() + 1
                &&& self.options() == old.options()
                &&& self.events() == old.events()
                &&& self.execution_state == old.execution_state
                &&& self.saliency_candidates@.len() == 0
                &&& !any_passes(cands) ==> self.stack() == old.stack().push(Value::Boolean(false))
                &&& any_passes(cands) ==> exists|i: int|
                    0 <= i < cands.len() && passes(cands, i) && self.stack() == old.stack().push(
                        Value::Number(number_of_int(cands[i].destination as i32 as int)),
                    ).push(Value::Boolean(true))
            },
            Some(OpCode::PeekAndJump) => r is Ok && self.jumped(old, index_of(old.top())->0 as usize as int),
            _ => false,
        }
    }
}

impl<C, S: ContentSaliencyStrategy> VirtualMachine<C, S> {
    /// Whether everything but the stack is as in `old`.
    pub open spec fn same_but_stack(&self, old: &Self) -> bool {
        &&& self.same_context(old)
        &&& self.saliency_candidates == old.saliency_candidates
        &&& self.state.program_counter == old.state.program_counter
        &&& self.state.current_options == old.state.current_options
        &&& self.batched_events == old.batched_events
        &&& self.execution_state == old.execution_state
    }

    /// Pops the top value of the stack.
    fn pop_value(&mut self) -> (r: YarnValue)
        requires
            old(self).stack().len() > 0,
        ensures
            r@ == old(self).top(),
            final(self).stack() == old(self).stack().drop_last(),
            final(self).same_but_stack(old(self)),
    {
        let r = match self.state.stack.pop() {
            Some(v) => v,
            None => YarnValue::Boolean(false),
        };
        assert(self.stack() =~= old(self).stack().drop_last());
        r
    }

    /// Pops the top `k` values of the stack, the deepest first.
    fn pop_values(&mut self, k: usize) -> (r: Vec<YarnValue>)
        requires
            old(self).stack().len() >= k,
        ensures
            values_view(r@) == old(self).upper(k as int),
            final(self).stack() == old(self).below(k as int),
            final(self).same_but_stack(old(self)),
    {
        let ghost st = old(self).stack();
        let mut reversed: Vec<YarnValue> = Vec::new();
        let mut i: usize = 0;
        while i < k
            invariant
                i <= k,
                k <= st.len(),
                self.stack() == st.subrange(0, st.len() - i),
                reversed@.len() == i,
                forall|j: int| 0 <= j < i ==> #[trigger] reversed@[j]@ == st[st.len() - 1 - j],
                self.same_but_stack(old(self)),
            decreases k - i,
        {
            let v = self.pop_value();
            reversed.push(v);
            assert(self.stack() =~= st.subrange(0, st.len() - (i + 1)));
            i = i + 1;
        }
        let mut out: Vec<YarnValue> = Vec::new();
        let mut j: usize = k;
        while j > 0
            invariant
                j <= k,
                k <= st.len(),
                reversed@.len() == k,
                forall|m: int| 0 <= m < k ==> #[trigger] reversed@[m]@ == st[st.len() - 1 - m],
                out@.len() == k - j,
                forall|m: int| 0 <= m < k - j ==> #[trigger] out@[m]@ == st[st.len() - k + m],
            decreases j,
        {
            j = j - 1;
            assert(reversed@[j as int]@ == st[st.len() - 1 - j]);
            out.push(reversed[j].duplicate());
        }
        assert(values_view(out@) =~= st.subrange(st.len() - k, st.len() as int));
        out
    }

    /// Pops the substitutions of `instruction`, counted by its operand `index`, and
    /// turns them into text.
    fn pop_substitutions_with_count_at_operand<H: DialogueHost<C>>(
        &mut self,
        instruction: &Instruction,
        index: usize,
        host: &H,
    ) -> (r: Vec<String>)
        requires
            has_float_operand(instruction@, index as int),
            old(self).stack().len() >= crate::number::to_usize(float_operand(instruction@, index as int)),
        ensures
            ({
                let k = crate::number::to_usize(float_operand(instruction@, index as int)) as int;
                &&& r@.len() == k
                &&& forall|j: int|
                    0 <= j < k ==> (text_of(old(self).upper(k)[j]) is Some ==> (#[trigger] r@[j])@ == text_of(
                        old(self).upper(k)[j],
                    )->0)
                &&& all_text(old(self).upper(k)) ==> strings_view(r@) == texts(old(self).upper(k))
                &&& final(self).stack() == old(self).below(k)
            }),
            final(self).same_but_stack(old(self)),
    {
        let k = instruction.read_float_operand(index).to_usize();
        let values = self.pop_values(k);
        let ghost up = old(self).upper(k as int);
        assert(values@.len() == values_view(values@).len());
        let mut out: Vec<String> = Vec::new();
        let mut i: usize = 0;
        while i < values.len()
            invariant
                values_view(values@) == up,
                up.len() == k,
                values@.len() == k,
                i <= k,
                out@.len() == i,
                forall|j: int| 0 <= j < i ==> (text_of(up[j]) is Some ==> (#[trigger] out@[j])@ == text_of(up[j])->0),
            decreases values.len() - i,
        {
            assert(up[i as int] == values@[i as int]@);
            out.push(display_text(&values[i], host));
            i = i + 1;
        }
        proof {
            if all_text(up) {
                assert forall|j: int| 0 <= j < k implies strings_view(out@)[j] == texts(up)[j] by {
                    assert(text_of(up[j]) is Some);
                }
                assert(strings_view(out@) =~= texts(up));
            }
        }
        out
    }

    /// The line `string_id` with its substitutions made and its markup parsed: the
    /// text the provider has for it, its markers `{0}`, `{1}`, ... filled in order by
    /// the substitutions, then stripped of its markup.
    fn prepare_line<H: DialogueHost<C>>(&self, string_id: String, substitutions: &Vec<String>, host: &mut H) -> (r: Result<Line, DialogueError>)
        ensures
            r matches Ok(l) ==> l.id@ == string_id@,
            r matches Ok(l) ==> (old(host).line_text(string_id@) matches Some(t) && l.text@ == old(
                host,
            ).markup_text(substituted(t, strings_view(substitutions@), substitutions@.len()))),
            r is Err ==> line_error(match r {
                Ok(_) => Ok(()),
                Err(e) => Err(e),
            }, string_id@, self.language_code),
    {
        let text = match host.get_text(string_id.as_str()) {
            Some(t) => t,
            None => {
                let language_code = match &self.language_code {
                    Some(l) => Some(l.clone()),
                    None => None,
                };
                return Err(DialogueError::LineProviderError { id: string_id, language_code });
            },
        };
        let substituted_text = expand_substitutions(text.as_str(), substitutions);
        match host.parse_markup(substituted_text.as_str()) {
            Ok(markup) => Ok(Line { id: string_id, text: markup.text, attributes: markup.attributes }),
            Err(e) => Err(DialogueError::MarkupParseError(e)),
        }
    }

    fn run_line<H: DialogueHost<C>>(&mut self, instruction: &Instruction, host: &mut H) -> (r: Result<(), DialogueError>)
        requires
            opcode_of(instruction@.opcode) == Some(OpCode::RunLine),
            old(self).runnable(instruction@),
        ensures
            final(self).stepped(old(self), instruction@, r),
    {
        let string_id = instruction.read_string_operand(0);
        let substitutions = self.pop_substitutions_with_count_at_operand(instruction, 1, host);
        let line = match self.prepare_line(string_id, &substitutions, host) {
            Ok(l) => l,
            Err(e) => {
                return Err(e);
            },
        };
        let ghost before = self.events();
        self.batched_events.push(DialogueEvent::Line(line));
        assert(self.events().drop_last() =~= before);
        self.execution_state = ExecutionState::WaitingForContinue;
        self.state.program_counter = self.state.program_counter + 1;
        Ok(())
    }

    fn run_command<H: DialogueHost<C>>(&mut self, instruction: &Instruction, host: &mut H) -> (r: Result<(), DialogueError>)
        requires
            opcode_of(instruction@.opcode) == Some(OpCode::RunCommand),
            old(self).runnable(instruction@),
        ensures
            final(self).stepped(old(self), instruction@, r),
    {
        let command_text = instruction.read_string_operand(0);
        let substitutions = self.pop_substitutions_with_count_at_operand(instruction, 1, host);
        let text = expand_substitutions(command_text.as_str(), &substitutions);
        let ghost before = self.events();
        self.batched_events.push(DialogueEvent::Command(text));
        assert(self.events().drop_last() =~= before);
        self.execution_state = ExecutionState::WaitingForContinue;
        self.state.program_counter = self.state.program_counter + 1;
        Ok(())
    }

    fn add_option<H: DialogueHost<C>>(&mut self, instruction: &Instruction, host: &mut H) -> (r: Result<(), DialogueError>)
        requires
            opcode_of(instruction@.opcode) == Some(OpCode::AddOption),
            old(self).runnable(instruction@),
        ensures
            final(self).stepped(old(self), instruction@, r),
    {
        let string_id = instruction.read_string_operand(0);
        let substitutions = self.pop_substitutions_with_count_at_operand(instruction, 2, host);
        let line = match self.prepare_line(string_id, &substitutions, host) {
            Ok(l) => l,
            Err(e) => {
                return Err(e);
            },
        };
        let ghost mid = self.stack();
        let line_condition_passed = if instruction.read_bool_operand(3) {
            let v = self.pop_value();
            value_bool(&v)
        } else {
            true
        };
        let index = self.state.current_options.len();
        let node_name = instruction.read_string_operand(1);
        let ghost before = self.options();
        self.state.current_options.push(
            DialogueOption { line, id: index, destination_node: node_name, is_available: line_condition_passed },
        );
        assert(self.options().drop_last() =~= before);
        proof {
            if bool_operand(instruction@, 3) {
                let n = crate::number::to_usize(float_operand(instruction@, 2)) as int;
                assert(mid.last() == old(self).stack()[old(self).stack().len() - n - 1]);
                assert(mid.drop_last() =~= old(self).below(n + 1));
            }
        }
        self.state.program_counter = self.state.program_counter + 1;
        Ok(())
    }

    fn show_options(&mut self) -> (r: Result<(), DialogueError>)
        requires
            old(self).state.program_counter < usize::MAX,
        ensures
            r is Ok,
            old(self).options().len() == 0 ==> final(self).stopped(
                old(self),
                old(self).events().push(EventView::DialogueComplete),
                1,
            ),
            old(self).options().len() > 0 ==> final(self).moved(
                old(self),
                old(self).pc() + 1,
                old(self).stack(),
                old(self).options(),
                old(self).events().push(EventView::Options(old(self).options())),
                ExecutionState::WaitingOnOptionSelection,
            ),
    {
        if self.state.current_options.len() == 0 {
            self.batched_events.push(DialogueEvent::DialogueComplete);
            assert(self.events() =~= old(self).events().push(EventView::DialogueComplete));
            self.set_execution_state(ExecutionState::Stopped);
            self.state.program_counter = self.state.program_counter + 1;
            return Ok(());
        }
        self.set_execution_state(ExecutionState::WaitingOnOptionSelection);
        let current_options = copy_options(&self.state.current_options);
        self.batched_events.push(DialogueEvent::Options(current_options));
        assert(self.events() =~= old(self).events().push(EventView::Options(old(self).options())));
        self.state.program_counter = self.state.program_counter + 1;
        Ok(())
    }
}

/// The value that a variable missing from storage starts with, where the program
/// declares one or the variable is internal.
pub fn default_value_of(program: &Program, name: &str) -> (r: Option<YarnValue>)
    ensures
        r matches Some(v) ==> default_value(*program, name@) == Some(v@),
        r is None ==> default_value(*program, name@) is None,
{
    match program.initial_value_of(name) {
        Some(o) => Some(YarnValue::from_operand(&o)),
        None => {
            if starts_with(name, "$Yarn.Internal.Once.") {
                Some(YarnValue::Boolean(false))
            } else if starts_with(name, "$Yarn.Internal.Content.ViewCount.") {
                Some(YarnValue::Number(FloatBits(0)))
            } else {
                None
            }
        },
    }
}

/// Whether `name` is a smart variable of `program`.
pub fn is_smart_variable_in(program: &Program, name: &str) -> (r: bool)
    ensures
        r == is_smart_variable(*program, name@),
{
    match program.find_node(name) {
        Some(i) => {
            assert(node_named(program.nodes@, name@) == Some(program.nodes@[i as int]@));
            let tags = &program.nodes[i].tags;
            let ghost tv = program.nodes@[i as int]@.tags;
            let mut j: usize = 0;
            while j < tags.len()
                invariant
                    tv == tags@.map_values(|t: String| t@),
                    tv == program.nodes@[i as int]@.tags,
                    node_named(program.nodes@, name@) == Some(program.nodes@[i as int]@),
                    j <= tags@.len(),
                    forall|k: int| 0 <= k < j ==> tv[k] != smart_variable_tag(),
                decreases tags.len() - j,
            {
                assert(tv[j as int] == tags@[j as int]@);
                if crate::text::str_eq(tags[j].as_str(), "Yarn.SmartVariable") {
                    assert(tv[j as int] == smart_variable_tag());
                    assert(tv.contains(smart_variable_tag()));
                    return true;
                }
                j = j + 1;
            }
            assert(!tv.contains(smart_variable_tag()));
            false
        },
        None => false,
    }
}

impl<C, S: ContentSaliencyStrategy> VirtualMachine<C, S> {
    #[verifier::rlimit(40)]
    fn call_func<H: DialogueHost<C>>(&mut self, instruction: &Instruction, host: &mut H) -> (r: Result<(), DialogueError>)
        requires
            opcode_of(instruction@.opcode) == Some(OpCode::CallFunc),
            old(self).runnable(instruction@),
        ensures
            final(self).stepped(old(self), instruction@, r),
            final(self).host_stepped(old(self), instruction@, r, *old(host), *final(host)),
    {
        let count_value = self.pop_value();
        let actual_parameter_count = value_count(&count_value);
        let parameters = self.pop_values(actual_parameter_count);
        assert(self.stack() =~= old(self).below(actual_parameter_count + 1));
        let function_name = instruction.read_string_operand(0);
        let ghost params = values_view(parameters@);
        assert(params =~= old(self).stack().subrange(
            old(self).stack().len() - 1 - actual_parameter_count,
            old(self).stack().len() - 1,
        ));
        if crate::text::str_eq(function_name.as_str(), "has_any_content") {
            assert(parameters@.len() == values_view(parameters@).len());
            assert(parameters@[0]@ == params[0]);
            let node_group = display_text(&parameters[0], host);
            let program = match &self.program {
                Some(p) => p,
                None => {
                    return Err(DialogueError::EvaluationFailed { name: node_group });
                },
            };
            let result = match has_any_content(node_group.as_str(), program, &self.library, host, usize::MAX) {
                Some(b) => b,
                None => {
                    return Err(DialogueError::EvaluationFailed { name: node_group });
                },
            };
            let ghost rest = self.stack();
            self.state.stack.push(YarnValue::Boolean(result));
            assert(self.stack().drop_last() =~= rest);
            self.state.program_counter = self.state.program_counter + 1;
            return Ok(());
        }
        let value = match self.library.get(function_name.as_str()) {
            None => {
                return Err(DialogueError::FunctionNotFound { function_name });
            },
            Some(function) => host.call_function(function, parameters),
        };
        let ghost rest = self.stack();
        self.state.stack.push(value);
        assert(self.stack().drop_last() =~= rest);
        self.state.program_counter = self.state.program_counter + 1;
        Ok(())
    }

    #[verifier::rlimit(40)]
    fn push_variable<H: DialogueHost<C>>(&mut self, instruction: &Instruction, host: &mut H) -> (r: Result<(), DialogueError>)
        requires
            opcode_of(instruction@.opcode) == Some(OpCode::PushVariable),
            old(self).runnable(instruction@),
        ensures
            final(self).stepped(old(self), instruction@, r),
            final(self).host_stepped(old(self), instruction@, r, *old(host), *final(host)),
    {
        proof {
            lemma_host_extended_refl::<C, H>(*host);
        }
        let variable_name = instruction.read_string_operand(0);
        let loaded = match host.get_variable(variable_name.as_str()) {
            Ok(v) => v,
            Err(VariableStorageError::VariableNotFound { name }) => {
                let program = match &self.program {
                    Some(p) => p,
                    None => {
                        return Err(DialogueError::NoProgramLoaded);
                    },
                };
                if is_smart_variable_in(program, variable_name.as_str()) {
                    match evaluate_smart_variable(variable_name.as_str(), program, &self.library, host, usize::MAX) {
                        Some(v) => v,
                        None => {
                            return Err(DialogueError::EvaluationFailed { name: variable_name });
                        },
                    }
                } else {
                    let initial = match default_value_of(program, variable_name.as_str()) {
                        Some(v) => v,
                        None => YarnValue::Boolean(false),
                    };
                    match host.set_variable(variable_name.clone(), initial.duplicate()) {
                        Ok(()) => {},
                        Err(e) => {
                            return Err(DialogueError::VariableStorageError(e));
                        },
                    }
                    initial
                }
            },
            Err(e) => {
                return Err(DialogueError::VariableStorageError(e));
            },
        };
        self.state.stack.push(loaded);
        assert(self.stack().subrange(0, old(self).stack().len() as int) =~= old(self).stack());
        self.state.program_counter = self.state.program_counter + 1;
        Ok(())
    }

    fn store_variable<H: DialogueHost<C>>(&mut self, instruction: &Instruction, host: &mut H) -> (r: Result<(), DialogueError>)
        requires
            opcode_of(instruction@.opcode) == Some(OpCode::StoreVariable),
            old(self).runnable(instruction@),
        ensures
            final(self).stepped(old(self), instruction@, r),
            final(self).host_stepped(old(self), instruction@, r, *old(host), *final(host)),
    {
        let last = self.state.stack.len() - 1;
        let top_value = self.state.stack[last].duplicate();
        let variable_name = instruction.read_string_operand(0);
        match host.set_variable(variable_name, top_value) {
            Ok(()) => {},
            Err(e) => {
                return Err(DialogueError::VariableStorageError(e));
            },
        }
        assert(self.stack().subrange(0, old(self).stack().len() as int) =~= old(self).stack());
        self.state.program_counter = self.state.program_counter + 1;
        Ok(())
    }

    /// The name of the current node.
    fn current_name(&self) -> (r: String)
        requires
            self.current_node_name is Some,
        ensures
            r@ == self.current_node_name->0@,
    {
        match &self.current_node_name {
            Some(n) => n.clone(),
            None => String::new(),
        }
    }

    fn stop_node(&mut self) -> (r: Result<(), DialogueError>)
        requires
            old(self).current_node_name is Some,
            old(self).state.program_counter < usize::MAX,
        ensures
            r is Ok,
            final(self).stopped(
                old(self),
                old(self).events().push(EventView::NodeComplete(old(self).current_node_name->0@)).push(
                    EventView::DialogueComplete,
                ),
                1,
            ),
    {
        let name = self.current_name();
        self.batched_events.push(DialogueEvent::NodeComplete(name));
        self.batched_events.push(DialogueEvent::DialogueComplete);
        assert(self.events() =~= old(self).events().push(EventView::NodeComplete(old(self).current_node_name->0@)).push(
            EventView::DialogueComplete,
        ));
        self.set_execution_state(ExecutionState::Stopped);
        self.state.program_counter = self.state.program_counter + 1;
        Ok(())
    }

    #[verifier::rlimit(40)]
    fn run_node<H: DialogueHost<C>>(&mut self, instruction: &Instruction, host: &mut H) -> (r: Result<(), DialogueError>)
        requires
            opcode_of(instruction@.opcode) == Some(OpCode::RunNode),
            old(self).runnable(instruction@),
        ensures
            final(self).stepped(old(self), instruction@, r),
            final(self).host_stepped(old(self), instruction@, r, *old(host), *final(host)),
    {
        let ghost w0 = host.variable_writes();
        let top = self.pop_value();
        let node_name = value_text(&top);
        let current = self.current_name();
        self.batched_events.push(DialogueEvent::NodeComplete(current));
        let mut abandoned: Vec<(String, usize)> = Vec::new();
        core::mem::swap(&mut abandoned, &mut self.call_stack);
        let ghost calls = calls_view(abandoned@);
        let ghost start = self.events();
        assert(start =~= old(self).events().push(EventView::NodeComplete(old(self).current_node_name->0@)));
        assert(host.variable_writes().subrange(0, w0.len() as int) =~= w0);
        let mut i: usize = 0;
        while i < abandoned.len()
            invariant
                calls == calls_view(abandoned@),
                calls == calls_view(old(self).call_stack@),
                i <= abandoned@.len(),
                self.events() == start + completions(calls.subrange(0, i as int)),
                self.call_stack@.len() == 0,
                self.stack() == old(self).stack().drop_last(),
                self.state.program_counter == old(self).state.program_counter,
                self.state.current_options == old(self).state.current_options,
                self.library == old(self).library,
                self.program == old(self).program,
                self.line_hints_enabled == old(self).line_hints_enabled,
                self.language_code == old(self).language_code,
                self.content_saliency_strategy == old(self).content_saliency_strategy,
                self.current_node == old(self).current_node,
                self.current_node_name == old(self).current_node_name,
                self.node_just_switched == old(self).node_just_switched,
                self.saliency_candidates == old(self).saliency_candidates,
                self.execution_state == old(self).execution_state,
                w0 == old(host).variable_writes(),
                host.function_calls() == old(host).function_calls(),
                visit_count_writes(calls.subrange(0, i as int), w0, host.variable_writes()),
                distinct_nodes(calls) ==> host.variable_writes() == w0 + visit_writes::<C, H>(
                    calls.subrange(0, i as int),
                    *old(host),
                ),
                forall|n: Seq<char>|
                    (forall|q: int| 0 <= q < i ==> n != crate::library::visiting_prefix() + (#[trigger] calls[q]).0)
                        ==> #[trigger] host.stored(n) == old(host).stored(n),
            decreases abandoned.len() - i,
        {
            let ghost wa = host.variable_writes();
            let ghost ha = *host;
            increment_visit_count_for_node(abandoned[i].0.as_str(), host);
            proof {
                let p = crate::library::visiting_prefix();
                let name_i = p + calls[i as int].0;
                assert(calls[i as int].0 == abandoned@[i as int].0@);
                if distinct_nodes(calls) {
                    assert forall|q: int| 0 <= q < i implies name_i != p + (#[trigger] calls[q]).0 by {
                        assert(calls[q].0 != calls[i as int].0);
                        lemma_visiting_names_differ(calls[i as int].0, calls[q].0);
                    }
                    assert(ha.stored(name_i) == old(host).stored(name_i));
                    let c0 = calls.subrange(0, i as int);
                    let c1 = calls.subrange(0, i + 1);
                    assert(c1.drop_last() =~= c0);
                    assert(c1.last() == calls[i as int]);
                    assert(host.variable_writes() =~= w0 + visit_writes::<C, H>(c1, *old(host)));
                }
                assert forall|n: Seq<char>|
                    (forall|q: int| 0 <= q < i + 1 ==> n != p + (#[trigger] calls[q]).0) implies #[trigger] host.stored(n)
                    == old(host).stored(n) by {
                    assert(n != p + calls[i as int].0);
                }
            }
            proof {
                let wb = host.variable_writes();
                let c0 = calls.subrange(0, i as int);
                let c1 = calls.subrange(0, i + 1);
                assert(calls[i as int].0 == abandoned@[i as int].0@);
                assert(c1[i as int] == calls[i as int]);
                assert(wb.subrange(0, w0.len() as int) =~= wa.subrange(0, w0.len() as int));
                assert forall|j: int| w0.len() <= j < wb.len() implies (#[trigger] wb[j]).1 is Number && exists|q: int|
                    0 <= q < c1.len() && wb[j].0 == crate::library::visiting_prefix() + (#[trigger] c1[q]).0 by {
                    if j < wa.len() {
                        assert(wb[j] == wa[j]);
                        let q = choose|q: int|
                            0 <= q < c0.len() && wa[j].0 == crate::library::visiting_prefix() + (#[trigger] c0[q]).0;
                        assert(c1[q] == c0[q]);
                    } else {
                        assert(wb[j].0 == crate::library::visiting_prefix() + c1[i as int].0);
                    }
                }
            }
            let ghost before = self.events();
            let done = abandoned[i].0.clone();
            self.batched_events.push(DialogueEvent::NodeComplete(done));
            assert(calls[i as int].0 == abandoned@[i as int].0@);
            assert(self.events() =~= before.push(EventView::NodeComplete(calls[i as int].0)));
            assert(completions(calls.subrange(0, i + 1)) =~= completions(calls.subrange(0, i as int)).push(
                EventView::NodeComplete(calls[i as int].0),
            ));
            assert(self.events() =~= start + completions(calls.subrange(0, i + 1)));
            i = i + 1;
        }
        assert(calls.subrange(0, calls.len() as int) =~= calls);
        let ghost w_visits = host.variable_writes();
        let r = self.set_node(node_name, host);
        assert(host.variable_writes() == w_visits);
        r
    }



    fn detour_to_node(&mut self, instruction: &Instruction) -> (r: Result<(), DialogueError>)
        requires
            opcode_of(instruction@.opcode) == Some(OpCode::DetourToNode),
            old(self).runnable(instruction@),
        ensures
            final(self).stepped(old(self), instruction@, r),
    {
        let top = self.pop_value();
        let node_name = value_text(&top);
        let return_node = self.current_name();
        let return_pc = self.state.program_counter + 1;
        self.call_stack.push((return_node, return_pc));
        assert(calls_view(self.call_stack@) =~= calls_view(old(self).call_stack@).push(
            (old(self).current_node_name->0@, (old(self).state.program_counter + 1) as usize),
        ));
        let new_node = match self.get_node_from_name(node_name.as_str()) {
            Ok(n) => n.duplicate(),
            Err(e) => {
                return Err(e);
            },
        };
        self.current_node_name = Some(node_name.clone());
        self.current_node = Some(new_node);
        self.state.program_counter = 0;
        self.batched_events.push(DialogueEvent::NodeStart(node_name));
        assert(self.events() =~= old(self).events().push(EventView::NodeStart(text_of(old(self).top())->0)));
        Ok(())
    }

    fn return_from_detour(&mut self, instruction: &Instruction) -> (r: Result<(), DialogueError>)
        requires
            opcode_of(instruction@.opcode) == Some(OpCode::Return),
            old(self).runnable(instruction@),
        ensures
            final(self).stepped(old(self), instruction@, r),
    {
        if self.call_stack.len() > 0 {
            let (return_node, return_pc) = match self.call_stack.pop() {
                Some(p) => p,
                None => (String::new(), 0),
            };
            {
                assert(calls_view(self.call_stack@) =~= calls_view(old(self).call_stack@).drop_last());
                let current = self.current_name();
                let node = match self.get_node_from_name(return_node.as_str()) {
                    Ok(n) => n.duplicate(),
                    Err(e) => {
                        return Err(e);
                    },
                };
                self.current_node_name = Some(return_node);
                self.current_node = Some(node);
                self.state.program_counter = return_pc;
                self.batched_events.push(DialogueEvent::NodeComplete(current));
                assert(self.events() =~= old(self).events().push(
                    EventView::NodeComplete(old(self).current_node_name->0@),
                ));
                self.node_just_switched = true;
                Ok(())
            }
        } else {
            {
                let current = self.current_name();
                self.batched_events.push(DialogueEvent::NodeComplete(current));
                self.batched_events.push(DialogueEvent::DialogueComplete);
                assert(self.events() =~= old(self).events().push(
                    EventView::NodeComplete(old(self).current_node_name->0@),
                ).push(EventView::DialogueComplete));
                self.set_execution_state(ExecutionState::Stopped);
                Ok(())
            }
        }
    }

    fn add_saliency_candidate(&mut self, instruction: &Instruction) -> (r: Result<(), DialogueError>)
        requires
            opcode_of(instruction@.opcode) == Some(OpCode::AddSaliencyCandidate),
            old(self).runnable(instruction@),
        ensures
            final(self).stepped(old(self), instruction@, r),
    {
        let top = self.pop_value();
        let condition_passed = value_bool(&top);
        let content_id = instruction.read_string_operand(0);
        let complexity_score = instruction.read_float_operand(1).to_i32();
        let dest_label = instruction.read_string_operand(2);
        let destination = self.find_instruction_point_for_label(&dest_label);
        self.saliency_candidates.push(
            ContentSaliencyOption {
                content_id,
                passing_condition_count: if condition_passed { 1 } else { 0 },
                failing_condition_count: if condition_passed { 0 } else { 1 },
                complexity_score,
                content_type: ContentType::Line,
                destination,
            },
        );
        assert(self.saliency_candidates@.drop_last() =~= old(self).saliency_candidates@);
        self.state.program_counter = self.state.program_counter + 1;
        Ok(())
    }

    fn select_saliency_candidate<H: DialogueHost<C>>(&mut self, instruction: &Instruction, host: &mut H) -> (r: Result<(), DialogueError>)
        requires
            opcode_of(instruction@.opcode) == Some(OpCode::SelectSaliencyCandidate),
            old(self).runnable(instruction@),
        ensures
            final(self).stepped(old(self), instruction@, r),
            final(self).chosen_by_views(old(self), *old(host)),
    {
        let mut view_counts: Vec<i32> = Vec::new();
        let mut i: usize = 0;
        while i < self.saliency_candidates.len()
            invariant
                i <= self.saliency_candidates@.len(),
                view_counts@.len() == i,
                *self == *old(self),
                *host == *old(host),
                forall|j: int|
                    0 <= j < i ==> (known_view_count(
                        host.stored(crate::saliency::view_count_prefix() + (#[trigger] self.saliency_candidates@[j]).content_id@),
                    ) matches Some(c) ==> view_counts@[j] == c),
            decreases self.saliency_candidates.len() - i,
        {
            view_counts.push(get_view_count(&self.saliency_candidates[i], host));
            i = i + 1;
        }
        let ghost cands = self.saliency_candidates@;
        let ghost vc = view_counts@;
        let ghost h0 = *host;
        assert(views_read::<C, H>(h0, cands, vc));
        let ghost strategy0 = self.content_saliency_strategy;
        let selected = self.content_saliency_strategy.query_best_content(&self.saliency_candidates, &view_counts);
        assert(strategy0.chooses(cands, vc, selected));
        match selected {
            Some(idx) => {
                self.content_saliency_strategy.content_was_selected(&self.saliency_candidates[idx], host);
                let destination = self.saliency_candidates[idx].destination;
                let number = FloatBits::from_integer(destination as i32 as i64);
                self.state.stack.push(YarnValue::Number(number));
                self.state.stack.push(YarnValue::Boolean(true));
                assert(self.stack() =~= old(self).stack().push(
                    Value::Number(number_of_int(cands[idx as int].destination as i32 as int)),
                ).push(Value::Boolean(true)));
            },
            None => {
                self.state.stack.push(YarnValue::Boolean(false));
                assert(self.stack() =~= old(self).stack().push(Value::Boolean(false)));
            },
        }
        self.saliency_candidates = Vec::new();
        self.state.program_counter = self.state.program_counter + 1;
        assert(self.pushed_choice(old(self), selected));
        Ok(())
    }
}

impl<C, S: ContentSaliencyStrategy> VirtualMachine<C, S> {
    /// Whether the selection among `old`'s saliency candidates is what the machine's
    /// strategy chooses when given, for each candidate, the view count that host `h0`
    /// stores for it: the chosen candidate's destination and `true` are pushed, or
    /// `false` where none is chosen.
    pub open spec fn chosen_by_views<H: DialogueHost<C>>(&self, old: &Self, h0: H) -> bool {
        exists|vc: Seq<i32>, k: Option<usize>| #[trigger] old.content_saliency_strategy.chooses(
            old.saliency_candidates@,
            vc,
            k,
        ) && views_read::<C, H>(h0, old.saliency_candidates@, vc) && self.pushed_choice(old, k)
    }

    /// Whether `self`'s stack is `old`'s with the choice `k` among `old`'s candidates
    /// pushed: the candidate's destination and `true`, or `false` for no choice.
    pub open spec fn pushed_choice(&self, old: &Self, k: Option<usize>) -> bool {
        let cands = old.saliency_candidates@;
        match k {
            Some(i) => i < cands.len() && self.stack() == old.stack().push(
                Value::Number(number_of_int(cands[i as int].destination as i32 as int)),
            ).push(Value::Boolean(true)),
            None => self.stack() == old.stack().push(Value::Boolean(false)),
        }
    }
}

impl<C> VirtualMachine<C, crate::saliency::BestLeastRecentlyViewedSaliencyStrategy> {
    /// With the default strategy, selecting among saliency candidates pushes the
    /// destination of the first passing candidate of best rank, ranked by the view
    /// counts that storage holds (fewest views first, then most complex), and `true`;
    /// `false` where no candidate passes.
    pub proof fn law_least_viewed_is_selected<H: DialogueHost<C>>(before: Self, after: Self, h0: H)
        requires
            after.chosen_by_views(&before, h0),
        ensures
            exists|vc: Seq<i32>|
                {
                    &&& #[trigger] views_read::<C, H>(h0, before.saliency_candidates@, vc)
                    &&& any_passes(before.saliency_candidates@) ==> exists|i: usize|
                        crate::saliency::is_first_best_ranked(before.saliency_candidates@, vc, i as int)
                            && #[trigger] after.pushed_choice(&before, Some(i))
                    &&& !any_passes(before.saliency_candidates@) ==> after.pushed_choice(&before, None)
                },
    {
        let (vc, k) = choose|vc: Seq<i32>, k: Option<usize>|
            #[trigger] before.content_saliency_strategy.chooses(before.saliency_candidates@, vc, k) && views_read::<
                C,
                H,
            >(h0, before.saliency_candidates@, vc) && after.pushed_choice(&before, k);
        assert(views_read::<C, H>(h0, before.saliency_candidates@, vc));
        if let Some(i) = k {
            assert(after.pushed_choice(&before, Some(i)));
        }
    }
}

impl<C, S: ContentSaliencyStrategy> VirtualMachine<C, S> {
    /// Runs one instruction, asking the host for what only it can provide.
    pub fn run_instruction<H: DialogueHost<C>>(&mut self, instruction: &Instruction, host: &mut H) -> (r: Result<(), DialogueError>)
        requires
            old(self).runnable(instruction@),
        ensures
            final(self).stepped(old(self), instruction@, r),
            final(self).host_stepped(old(self), instruction@, r, *old(host), *final(host)),
            opcode_of(instruction@.opcode) == Some(OpCode::SelectSaliencyCandidate) ==> final(self).chosen_by_views(
                old(self),
                *old(host),
            ),
    {
        match OpCode::try_from_i32(instruction.opcode) {
            Some(OpCode::JumpTo) => {
                let label_name = instruction.read_string_operand(0);
                self.state.program_counter = self.find_instruction_point_for_label(&label_name);
                Ok(())
            },
            Some(OpCode::Jump) => {
                let last = self.state.stack.len() - 1;
                assert(self.state.stack@[last as int]@ == self.top());
                let label_name = value_text(&self.state.stack[last]);
                self.state.program_counter = self.find_instruction_point_for_label(&label_name);
                Ok(())
            },
            Some(OpCode::RunLine) => self.run_line(instruction, host),
            Some(OpCode::RunCommand) => self.run_command(instruction, host),
            Some(OpCode::AddOption) => self.add_option(instruction, host),
            Some(OpCode::ShowOptions) => self.show_options(),
            Some(OpCode::PushString) => {
                let s = instruction.read_string_operand(0);
                self.state.stack.push(YarnValue::String(s));
                assert(self.stack() =~= old(self).stack().push(Value::Text(string_operand(instruction@, 0))));
                self.state.program_counter = self.state.program_counter + 1;
                Ok(())
            },
            Some(OpCode::PushFloat) => {
                let f = instruction.read_float_operand(0);
                self.state.stack.push(YarnValue::Number(f));
                assert(self.stack() =~= old(self).stack().push(Value::Number(float_operand(instruction@, 0))));
                self.state.program_counter = self.state.program_counter + 1;
                Ok(())
            },
            Some(OpCode::PushBool) => {
                let b = instruction.read_bool_operand(0);
                self.state.stack.push(YarnValue::Boolean(b));
                assert(self.stack() =~= old(self).stack().push(Value::Boolean(bool_operand(instruction@, 0))));
                self.state.program_counter = self.state.program_counter + 1;
                Ok(())
            },
            Some(OpCode::JumpIfFalse) => {
                let last = self.state.stack.len() - 1;
                assert(self.state.stack@[last as int]@ == self.top());
                if !value_bool(&self.state.stack[last]) {
                    let label_name = instruction.read_string_operand(0);
                    self.state.program_counter = self.find_instruction_point_for_label(&label_name);
                } else {
                    self.state.program_counter = self.state.program_counter + 1;
                }
                Ok(())
            },
            Some(OpCode::Pop) => {
                self.pop_value();
                self.state.program_counter = self.state.program_counter + 1;
                Ok(())
            },
            Some(OpCode::CallFunc) => self.call_func(instruction, host),
            Some(OpCode::PushVariable) => self.push_variable(instruction, host),
            Some(OpCode::StoreVariable) => self.store_variable(instruction, host),
            Some(OpCode::Stop) => self.stop_node(),
            Some(OpCode::RunNode) => self.run_node(instruction, host),
            Some(OpCode::DetourToNode) => self.detour_to_node(instruction),
            Some(OpCode::Return) => self.return_from_detour(instruction),
            Some(OpCode::AddSaliencyCandidate) => self.add_saliency_candidate(instruction),
            Some(OpCode::SelectSaliencyCandidate) => self.select_saliency_candidate(instruction, host),
            Some(OpCode::PeekAndJump) => {
                let last = self.state.stack.len() - 1;
                assert(self.state.stack@[last as int]@ == self.top());
                let destination = value_index(&self.state.stack[last]);
                self.state.program_counter = destination as usize;
                Ok(())
            },
            _ => Ok(()),
        }
    }
}

/// Whether a value converts to a boolean by itself.
pub fn converts_to_bool(v: &YarnValue) -> (r: bool)
    ensures
        r == (bool_of(v@) is Some),
{
    match v {
        YarnValue::String(s) => crate::text::str_eq(s.as_str(), "true") || crate::text::str_eq(s.as_str(), "false"),
        _ => true,
    }
}

/// Whether the lines of `node` can be hinted.
pub fn node_hints_readable(node: &Node) -> (r: bool)
    ensures
        r == hints_readable(node@),
{
    let ghost ins = node@.instructions;
    let mut i: usize = 0;
    while i < node.instructions.len()
        invariant
            ins == node@.instructions,
            i <= ins.len(),
            forall|j: int|
                0 <= j < i ==> {
                    &&& opcode_of(#[trigger] ins[j].opcode) is Some
                    &&& shows_line(ins[j]) ==> has_string_operand(ins[j], 0)
                },
        decreases node.instructions.len() - i,
    {
        assert(ins[i as int] == node.instructions@[i as int]@);
        let op = node.instructions[i].opcode;
        if OpCode::try_from_i32(op).is_none() {
            assert(opcode_of(node@.instructions[i as int].opcode) is None);
            return false;
        }
        if (op == 2 || op == 4) && !node.instructions[i].has_string(0) {
            assert(opcode_of(node@.instructions[i as int].opcode) is Some);
            assert(shows_line(node@.instructions[i as int]));
            assert(!has_string_operand(node@.instructions[i as int], 0));
            return false;
        }
        i = i + 1;
    }
    true
}

impl<C, S> VirtualMachine<C, S> {
    /// Whether label `name` of the current node marks an instruction.
    pub fn has_jump_target(&self, name: &String) -> (r: bool)
        ensures
            r == (self.jump_target(name@) is Some),
    {
        match &self.current_node {
            Some(node) => match node.label_index(name) {
                Some(i) => i >= 0,
                None => false,
            },
            None => false,
        }
    }

    /// Whether a value convertible to text is on top of the stack.
    fn has_text_on_top(&self) -> (r: bool)
        ensures
            r == self.text_on_top(),
    {
        let n = self.state.stack.len();
        if n == 0 {
            return false;
        }
        assert(self.state.stack@[n - 1]@ == self.top());
        match &self.state.stack[n - 1] {
            YarnValue::Number(_) => false,
            _ => true,
        }
    }

    /// Whether the node that `name` would switch to can have its line hints sent.
    fn can_hint(&self, name: &str) -> (r: bool)
        ensures
            r == self.hintable(name@),
    {
        if !self.line_hints_enabled {
            return true;
        }
        match &self.program {
            Some(program) => match program.find_node(name) {
                Some(i) => node_hints_readable(&program.nodes[i]),
                None => true,
            },
            None => true,
        }
    }

    /// Whether `instruction` can run without fault in this state.
    pub fn can_run(&self, instruction: &Instruction) -> (r: bool)
        ensures
            r == self.runnable(instruction@),
    {
        if self.state.program_counter == usize::MAX {
            return false;
        }
        match &self.program {
            Some(p) => if p.nodes.len() == 0 {
                return false;
            },
            None => {},
        }
        let n = self.state.stack.len();
        let ghost top = self.top();
        proof {
            if n > 0 {
                assert(self.state.stack@[n - 1]@ == top);
            }
        }
        match OpCode::try_from_i32(instruction.opcode) {
            Some(OpCode::JumpTo) => instruction.has_string(0) && self.has_jump_target(&instruction.read_string_operand(0)),
            Some(OpCode::Jump) => self.has_text_on_top() && self.has_jump_target(&value_text(&self.state.stack[n - 1])),
            Some(OpCode::RunLine) | Some(OpCode::RunCommand) => {
                instruction.operands.len() >= 2 && instruction.has_string(0) && instruction.has_float(1) && n
                    >= instruction.read_float_operand(1).to_usize()
            },
            Some(OpCode::AddOption) => {
                if !(instruction.operands.len() >= 4 && instruction.has_string(0) && instruction.has_string(1)
                    && instruction.has_float(2) && instruction.has_bool(3)) {
                    return false;
                }
                let k = instruction.read_float_operand(2).to_usize();
                if instruction.read_bool_operand(3) {
                    if n <= k {
                        return false;
                    }
                    let at = n - k - 1;
                    assert(self.state.stack@[at as int]@ == self.stack()[self.stack().len() - k - 1]);
                    converts_to_bool(&self.state.stack[at])
                } else {
                    n >= k
                }
            },
            Some(OpCode::ShowOptions) => true,
            Some(OpCode::PushString) => instruction.has_string(0),
            Some(OpCode::PushFloat) => instruction.has_float(0),
            Some(OpCode::PushBool) => instruction.has_bool(0),
            Some(OpCode::PushNull) => false,
            Some(OpCode::JumpIfFalse) => {
                if !(instruction.has_string(0) && n > 0 && converts_to_bool(&self.state.stack[n - 1])) {
                    return false;
                }
                if value_bool(&self.state.stack[n - 1]) {
                    true
                } else {
                    self.has_jump_target(&instruction.read_string_operand(0))
                }
            },
            Some(OpCode::Pop) => n > 0,
            Some(OpCode::CallFunc) => {
                if !(instruction.has_string(0) && n > 0) {
                    return false;
                }
                let top_value = &self.state.stack[n - 1];
                if let YarnValue::String(_) = top_value {
                    return false;
                }
                let c = value_count(top_value);
                if c > n - 1 {
                    return false;
                }
                let name = instruction.read_string_operand(0);
                if crate::text::str_eq(name.as_str(), "has_any_content") {
                    c == 1 && self.program.is_some()
                } else {
                    match self.library.get(name.as_str()) {
                        Some(f) => if f.is_variadic() {
                            c >= f.parameter_count()
                        } else {
                            c == f.parameter_count()
                        },
                        None => true,
                    }
                }
            },
            Some(OpCode::PushVariable) => {
                if !instruction.has_string(0) {
                    return false;
                }
                let name = instruction.read_string_operand(0);
                match &self.program {
                    Some(p) => default_value_of(p, name.as_str()).is_some() || is_smart_variable_in(p, name.as_str()),
                    None => false,
                }
            },
            Some(OpCode::StoreVariable) => instruction.has_string(0) && n > 0,
            Some(OpCode::Stop) | Some(OpCode::Return) => self.current_node_name.is_some(),
            Some(OpCode::RunNode) => {
                self.has_text_on_top() && self.current_node_name.is_some() && self.can_hint(
                    value_text(&self.state.stack[n - 1]).as_str(),
                )
            },
            Some(OpCode::DetourToNode) => self.has_text_on_top() && self.current_node_name.is_some(),
            Some(OpCode::AddSaliencyCandidate) => {
                instruction.has_string(0) && instruction.has_float(1) && instruction.has_string(2) && n > 0
                    && converts_to_bool(&self.state.stack[n - 1]) && self.has_jump_target(
                    &instruction.read_string_operand(2),
                )
            },
            Some(OpCode::SelectSaliencyCandidate) => true,
            Some(OpCode::PeekAndJump) => {
                if n == 0 {
                    return false;
                }
                match &self.state.stack[n - 1] {
                    YarnValue::String(_) => false,
                    _ => true,
                }
            },
            None => false,
        }
    }
}

impl<C, S> VirtualMachine<C, S> {
    /// Whether the instruction at the program counter of the current node exists and
    /// can run.
    pub open spec fn ready(&self) -> bool {
        self.node() matches Some(n) && self.pc() < n.instructions.len() && self.runnable(n.instructions[self.pc()])
    }

    /// What reaching the end of a step did, from `mid`, the state after the
    /// instruction ran, where the instruction was taken from `node`: within the node
    /// nothing more happens; past its end, a return that just switched nodes is
    /// acknowledged, a detour returns to its caller, or the dialogue completes.
    pub open spec fn ended(&self, mid: &Self, node: NodeView, r: Result<(), DialogueError>) -> bool {
        if mid.pc() < node.instructions.len() {
            r is Ok && *self == *mid
        } else if mid.node_just_switched {
            &&& r is Ok
            &&& !self.node_just_switched
            &&& self.library == mid.library
            &&& self.program == mid.program
            &&& self.line_hints_enabled == mid.line_hints_enabled
            &&& self.current_node_name == mid.current_node_name
            &&& self.state == mid.state
            &&& self.execution_state == mid.execution_state
            &&& self.current_node == mid.current_node
            &&& self.batched_events == mid.batched_events
            &&& self.language_code == mid.language_code
            &&& self.call_stack == mid.call_stack
            &&& self.saliency_candidates == mid.saliency_candidates
            &&& self.content_saliency_strategy == mid.content_saliency_strategy
        } else if mid.call_stack@.len() > 0 {
            let (name, pc) = calls_view(mid.call_stack@).last();
            &&& calls_view(self.call_stack@) == calls_view(mid.call_stack@).drop_last()
            &&& self.events() == mid.events().push(EventView::NodeComplete(node.name))
            &&& self.library == mid.library
            &&& self.program == mid.program
            &&& self.line_hints_enabled == mid.line_hints_enabled
            &&& self.language_code == mid.language_code
            &&& self.content_saliency_strategy == mid.content_saliency_strategy
            &&& self.saliency_candidates == mid.saliency_candidates
            &&& self.execution_state == mid.execution_state
            &&& self.node_just_switched == mid.node_just_switched
            &&& self.stack() == mid.stack()
            &&& self.options() == mid.options()
            &&& mid.program is None ==> no_program_error(r)
            &&& mid.program is Some && mid.target(name) is None ==> invalid_node_error(r, name)
            &&& r is Ok ==> {
                &&& self.node() == mid.target(name)
                &&& self.current_node_name matches Some(x) && x@ == name
                &&& self.pc() == pc
            }
            &&& r is Err ==> {
                &&& self.current_node == mid.current_node
                &&& self.current_node_name == mid.current_node_name
                &&& self.pc() == mid.pc()
            }
        } else {
            &&& r is Ok
            &&& self.library == mid.library
            &&& self.program == mid.program
            &&& self.line_hints_enabled == mid.line_hints_enabled
            &&& self.language_code == mid.language_code
            &&& self.content_saliency_strategy == mid.content_saliency_strategy
            &&& self.current_node == mid.current_node
            &&& self.call_stack == mid.call_stack
            &&& self.node_just_switched == mid.node_just_switched
            &&& self.saliency_candidates == mid.saliency_candidates
            &&& self.execution_state == ExecutionState::Stopped
            &&& self.current_node_name is None
            &&& self.stack().len() == 0
            &&& self.options().len() == 0
            &&& self.pc() == 0
            &&& self.events() == mid.events().push(EventView::NodeComplete(node.name)).push(
                EventView::DialogueComplete,
            )
        }
    }

    /// Whether the dialogue can be continued: a node is selected and no option
    /// selection is awaited.
    pub open spec fn can_continue(&self) -> bool {
        self.current_node is Some && self.current_node_name is Some && self.execution_state
            != ExecutionState::WaitingOnOptionSelection
    }

    /// Starts continuing the dialogue: checks that it can be continued and sets it
    /// running.
    pub fn begin_continue(&mut self) -> (r: Result<(), DialogueError>)
        requires
            old(self).can_continue(),
        ensures
            r is Ok,
            r is Ok ==> final(self).execution_state == ExecutionState::Running && final(self).keeps_all_but_state(
                old(self),
            ) && final(self).state == old(self).state && final(self).current_node_name == old(self).current_node_name,
    {
        match self.assert_can_continue() {
            Ok(()) => {},
            Err(e) => {
                return Err(e);
            },
        }
        self.set_execution_state(ExecutionState::Running);
        Ok(())
    }

    /// Hands out the pending events.
    pub fn take_events(&mut self) -> (r: Vec<DialogueEvent>)
        ensures
            events_view(r@) == old(self).events(),
            final(self).events().len() == 0,
            final(self).keeps_all_but_events(old(self)),
    {
        let mut out: Vec<DialogueEvent> = Vec::new();
        core::mem::swap(&mut out, &mut self.batched_events);
        out
    }
}

impl<C, S: ContentSaliencyStrategy> VirtualMachine<C, S> {
    /// Whether the instruction at the program counter can run.
    pub fn is_ready(&self) -> (r: bool)
        ensures
            r == self.ready(),
    {
        match &self.current_node {
            Some(node) => {
                let pc = self.state.program_counter;
                if pc < node.instructions.len() {
                    assert(node@.instructions[pc as int] == node.instructions@[pc as int]@);
                    self.can_run(&node.instructions[pc])
                } else {
                    false
                }
            },
            None => false,
        }
    }

    /// One step of a running dialogue: runs the instruction at the program counter,
    /// then handles the end of the node where the step reached it.
    pub fn continue_step<H: DialogueHost<C>>(&mut self, host: &mut H) -> (r: Result<(), DialogueError>)
        requires
            old(self).ready(),
        ensures
            exists|mid: Self, first: Result<(), DialogueError>|
                {
                    &&& #[trigger] mid.stepped(old(self), old(self).node()->0.instructions[old(self).pc()], first)
                    &&& first is Err ==> r == first && *final(self) == mid
                    &&& first is Ok ==> final(self).ended(&mid, old(self).node()->0, r)
                },
    {
        let node = match &self.current_node {
            Some(n) => n.duplicate(),
            None => {
                return Ok(());
            },
        };
        let pc = self.state.program_counter;
        assert(node@.instructions[pc as int] == node.instructions@[pc as int]@);
        let first = self.run_instruction(&node.instructions[pc], host);
        let ghost mid = *self;
        match first {
            Err(e) => {
                return Err(e);
            },
            Ok(()) => {},
        }
        if self.state.program_counter < node.instructions.len() {
            return Ok(());
        }
        if self.node_just_switched {
            self.node_just_switched = false;
            return Ok(());
        }
        self.batched_events.push(DialogueEvent::NodeComplete(node.name.clone()));
        assert(self.events() =~= mid.events().push(EventView::NodeComplete(node@.name)));
        if self.call_stack.len() > 0 {
            let (return_node, return_pc) = match self.call_stack.pop() {
                Some(p) => p,
                None => (String::new(), 0),
            };
            assert(calls_view(self.call_stack@) =~= calls_view(mid.call_stack@).drop_last());
            let target = match self.get_node_from_name(return_node.as_str()) {
                Ok(n) => n.duplicate(),
                Err(e) => {
                    return Err(e);
                },
            };
            self.current_node_name = Some(return_node);
            self.current_node = Some(target);
            self.state.program_counter = return_pc;
            Ok(())
        } else {
            self.set_execution_state(ExecutionState::Stopped);
            self.batched_events.push(DialogueEvent::DialogueComplete);
            assert(self.events() =~= mid.events().push(EventView::NodeComplete(node@.name)).push(
                EventView::DialogueComplete,
            ));
            Ok(())
        }
    }
}

impl<C, S> VirtualMachine<C, S> {
    /// Switches the dialogue to another language, and the host's text provider and
    /// markup parser with it.
    pub fn set_language_code<H: DialogueHost<C>>(&mut self, language_code: Option<String>, host: &mut H)
        ensures
            final(self).language_code == language_code,
            final(self).state == old(self).state,
            final(self).batched_events == old(self).batched_events,
            final(self).execution_state == old(self).execution_state,
            final(self).current_node == old(self).current_node,
            final(self).program == old(self).program,
    {
        let copy = match &language_code {
            Some(l) => Some(l.clone()),
            None => None,
        };
        self.language_code = language_code;
        host.set_language_code(copy);
    }
}
impl<C, S> VirtualMachine<C, S> {
    /// Once an option is selected the machine no longer waits for a selection and
    /// offers no options, so selecting again is refused until new options come.
    pub proof fn law_selection_is_final(after: &Self, before: &Self, index: int)
        requires
            after.selected(before, index),
        ensures
            after.execution_state == ExecutionState::WaitingForContinue,
            after.options().len() == 0,
    {
    }

    /// A detour followed by a return comes back where it left: after `DetourToNode`
    /// succeeded from `a`, and `Return` later succeeded from a state `c` with the call
    /// stack and the program that the detour left, the machine is at the node that `a`
    /// was running, at the instruction after the detour, with `a`'s call stack.
    pub proof fn law_detour_then_return(
        a: Self,
        detour: InstructionView,
        r1: Result<(), DialogueError>,
        b: Self,
        c: Self,
        ret: InstructionView,
        r2: Result<(), DialogueError>,
        d: Self,
    )
        requires
            opcode_of(detour.opcode) == Some(OpCode::DetourToNode),
            a.runnable(detour),
            b.stepped(&a, detour, r1),
            r1 is Ok,
            opcode_of(ret.opcode) == Some(OpCode::Return),
            d.stepped(&c, ret, r2),
            r2 is Ok,
            calls_view(c.call_stack@) == calls_view(b.call_stack@),
            c.program == b.program,
        ensures
            d.current_node_name matches Some(x) && x@ == a.current_node_name->0@,
            d.node() == a.target(a.current_node_name->0@),
            d.pc() == a.pc() + 1,
            calls_view(d.call_stack@) == calls_view(a.call_stack@),
            d.events() == c.events().push(EventView::NodeComplete(c.current_node_name->0@)),
    {
        assert(calls_view(c.call_stack@).drop_last() =~= calls_view(a.call_stack@));
    }
}

} // verus!
