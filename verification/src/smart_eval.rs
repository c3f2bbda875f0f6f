//! Evaluation of smart variables and of the conditions of node groups.
//!
//! A smart variable is computed by the instructions of a node of its name; a node
//! group's hub node holds the conditions of its members. Both are evaluated on a
//! stack of their own, one instruction at a time, without touching the dialogue.
use crate::library::Library;
use crate::program::{
    bool_operand, float_operand, has_bool_operand, has_float_operand, has_string_operand, lookup_label, node_named,
    opcode_of, string_operand, FloatBits, Instruction, InstructionView, Node, NodeView, OpCode, Program,
};
use crate::saliency::{any_passes, ContentSaliencyOption, ContentType, FirstSaliencyStrategy};
use crate::vm::{
    bool_of, count_of, default_value_of, display_text, is_smart_variable, is_smart_variable_in,
    starts_with, text_of, value_bool, value_count, values_view, DialogueHost, Value, VariableStorageError, YarnValue,
};
use vstd::prelude::*;

verus! {

/// The state of an evaluation: the index of the next instruction, the value stack, and
/// the saliency candidates gathered.
#[derive(Debug)]
pub struct Evaluation {
    /// The index of the next instruction.
    pub pc: usize,
    /// The value stack.
    pub stack: Vec<YarnValue>,
    /// The candidates gathered from a hub node.
    pub candidates: Vec<ContentSaliencyOption>,
}

impl Evaluation {
    /// A fresh evaluation: at the first instruction, nothing on the stack, no candidates.
    pub fn new() -> (r: Evaluation)
        ensures
            r.pc == 0,
            r.stack@.len() == 0,
            r.candidates@.len() == 0,
    {
        Evaluation { pc: 0, stack: Vec::new(), candidates: Vec::new() }
    }

    /// The value stack.
    pub open spec fn values(&self) -> Seq<Value> {
        values_view(self.stack@)
    }

    /// The value on top of the stack.
    pub open spec fn top(&self) -> Value {
        self.values().last()
    }
}

/// The tag of the hub nodes of node groups.
pub open spec fn hub_tag() -> Seq<char> {
    "yarn_internal_node_group"@
}

/// The instruction index that label `name` of `node` marks, as an index.
pub open spec fn label_at(node: NodeView, name: Seq<char>) -> Option<usize> {
    match lookup_label(node.labels, name) {
        Some(i) => Some(i as usize),
        None => None,
    }
}

/// Whether a variable can be resolved during an evaluation: where storage lacks it, the
/// program declares it, computes it, or it is internal.
pub open spec fn resolvable(program: Program, name: Seq<char>) -> bool {
    crate::vm::default_value(program, name) is Some || is_smart_variable(program, name)
}

/// Whether `ins` can be evaluated without fault; `hub` tells a hub node's conditions
/// from a smart variable.
pub open spec fn evaluable(
    program: Program,
    functions: Set<Seq<char>>,
    node: NodeView,
    e: Evaluation,
    ins: InstructionView,
    hub: bool,
) -> bool {
    let n = e.values().len();
    &&& e.pc < usize::MAX
    &&& match opcode_of(ins.opcode) {
        Some(OpCode::PushString) => has_string_operand(ins, 0),
        Some(OpCode::PushFloat) => has_float_operand(ins, 0),
        Some(OpCode::PushBool) => has_bool_operand(ins, 0),
        Some(OpCode::Pop) => n > 0,
        Some(OpCode::PushVariable) => has_string_operand(ins, 0) && resolvable(program, string_operand(ins, 0)),
        Some(OpCode::CallFunc) => {
            &&& has_string_operand(ins, 0)
            &&& n > 0
            &&& count_of(e.top()) is Some
            &&& n >= count_of(e.top())->0 + 1
            &&& if string_operand(ins, 0) == "has_any_content"@ {
                count_of(e.top())->0 >= 1
            } else {
                functions.contains(string_operand(ins, 0))
            }
        },
        Some(OpCode::JumpIfFalse) => {
            &&& n > 0
            &&& bool_of(e.top()) is Some
            &&& bool_of(e.top()) == Some(false) ==> has_string_operand(ins, 0) && label_at(
                node,
                string_operand(ins, 0),
            ) is Some
        },
        Some(OpCode::Stop) => true,
        Some(OpCode::AddSaliencyCandidate) => hub && {
            &&& n > 0
            &&& bool_of(e.top()) is Some
            &&& has_string_operand(ins, 0)
            &&& has_float_operand(ins, 1)
        },
        Some(_) => hub,
        None => false,
    }
}

/// What evaluating `ins` did to the evaluation `old`, giving `next` and returning `r`,
/// which is false where the evaluation ends there.
pub open spec fn evaluated(
    program: Program,
    stored: Storage,
    old: Evaluation,
    next: Evaluation,
    node: NodeView,
    ins: InstructionView,
    hub: bool,
    r: bool,
) -> bool {
    let n = old.values().len();
    match opcode_of(ins.opcode) {
        Some(OpCode::PushString) => r && next.pc == old.pc + 1 && next.values() == old.values().push(
            Value::Text(string_operand(ins, 0)),
        ) && next.candidates == old.candidates,
        Some(OpCode::PushFloat) => r && next.pc == old.pc + 1 && next.values() == old.values().push(
            Value::Number(float_operand(ins, 0)),
        ) && next.candidates == old.candidates,
        Some(OpCode::PushBool) => r && next.pc == old.pc + 1 && next.values() == old.values().push(
            Value::Boolean(bool_operand(ins, 0)),
        ) && next.candidates == old.candidates,
        Some(OpCode::Pop) => r && next.pc == old.pc + 1 && next.values() == old.values().drop_last()
            && next.candidates == old.candidates,
        Some(OpCode::PushVariable) => r && next.pc == old.pc + 1 && next.values().len() == n + 1
            && next.values().drop_last() == old.values() && next.candidates == old.candidates && read_value(
            program,
            stored,
            string_operand(ins, 0),
            next.values().last(),
        ),
        Some(OpCode::CallFunc) => {
            let c = count_of(old.top())->0 as int;
            let rest = old.values().subrange(0, n - 1 - c);
            &&& r
            &&& next.pc == old.pc + 1
            &&& next.values().len() == rest.len() + 1
            &&& next.values().drop_last() == rest
            &&& string_operand(ins, 0) == "has_any_content"@ ==> next.values().last() is Boolean
            &&& next.candidates == old.candidates
        },
        Some(OpCode::JumpIfFalse) => r && next.values() == old.values() && next.candidates == old.candidates
            && next.pc == if bool_of(old.top()) == Some(false) {
            label_at(node, string_operand(ins, 0))->0 as int
        } else {
            old.pc + 1
        },
        Some(OpCode::Stop) => if hub {
            r && next.pc == old.pc + 1 && next.values() == old.values() && next.candidates == old.candidates
        } else {
            !r && next == old
        },
        Some(OpCode::AddSaliencyCandidate) => if hub {
            let passed = bool_of(old.top())->0;
            &&& r
            &&& next.pc == old.pc + 1
            &&& next.values() == old.values().drop_last()
            &&& next.candidates@.len() == old.candidates@.len() + 1
            &&& next.candidates@.drop_last() == old.candidates@
            &&& next.candidates@.last().content_id@ == string_operand(ins, 0)
            &&& next.candidates@.last().passing_condition_count == if passed { 1i32 } else { 0i32 }
            &&& next.candidates@.last().failing_condition_count == if passed { 0i32 } else { 1i32 }
            &&& next.candidates@.last().complexity_score == crate::number::to_i32(float_operand(ins, 1))
            &&& next.candidates@.last().content_type == ContentType::Node
            &&& next.candidates@.last().destination == 0
        } else {
            false
        },
        Some(OpCode::SelectSaliencyCandidate) => hub && !r && next == old,
        Some(_) => hub && r && next.pc == old.pc + 1 && next.values() == old.values() && next.candidates == old.candidates,
        None => false,
    }
}

/// The value of the variable `name` during an evaluation: the stored value; else its
/// declared initial value; else, for a smart variable, the value its node computes
/// (with one unit of `fuel` less); else the default of an internal variable. `None`
/// where the smart variable's evaluation fails.
pub fn resolve_variable<C, H: DialogueHost<C>>(
    name: &str,
    program: &Program,
    library: &Library<C>,
    host: &mut H,
    fuel: usize,
) -> (r: Option<YarnValue>)
    requires
        resolvable(*program, name@),
    ensures
        old(host).stored(name@) matches Some(v) ==> (r matches Some(x) && x@ == v),
        old(host).stored(name@) is None ==> match unstored_value(*program, name@) {
            Some(u) => r matches Some(x) && x@ == u,
            None => r matches Some(x) ==> smart_value(*program, library@.dom(), storage_of::<C, H>(*old(host)), name@, x@),
        },
        r is None ==> old(host).stored(name@) is None && unstored_value(*program, name@) is None,
        host_extended::<C, H>(*old(host), *final(host)),
    decreases fuel, 1nat,
{
    proof {
        lemma_host_extended_refl::<C, H>(*host);
    }
    match resolve_without_host(host.get_variable(name), name, program) {
        Some(v) => Some(v),
        None => {
            if fuel == 0 {
                return None;
            }
            evaluate_smart_variable(name, program, library, host, fuel - 1)
        },
    }
}

/// What variable storage holds, by variable name.
pub type Storage = spec_fn(Seq<char>) -> Option<Value>;

/// What host `h` stores, by variable name.
pub open spec fn storage_of<C, H: DialogueHost<C>>(h: H) -> Storage {
    |n: Seq<char>| h.stored(n)
}

/// Whether `v` is what reading the variable `name` gives during an evaluation, where
/// storage holds `stored`: the stored value; else what [`unstored_value`] gives; a
/// smart variable's value is its own evaluation's.
pub open spec fn read_value(program: Program, stored: Storage, name: Seq<char>, v: Value) -> bool {
    match stored(name) {
        Some(s) => v == s,
        None => match unstored_value(program, name) {
            Some(u) => v == u,
            None => true,
        },
    }
}

/// Whether host `h1` followed `h0` without writing to variable storage, so that it
/// stores what it stored, with the record of library-function calls only extended.
pub open spec fn host_extended<C, H: DialogueHost<C>>(h0: H, h1: H) -> bool {
    &&& h1.variable_writes() == h0.variable_writes()
    &&& forall|n: Seq<char>| #[trigger] h1.stored(n) == h0.stored(n)
    &&& h0.function_calls().len() <= h1.function_calls().len()
    &&& h1.function_calls().subrange(0, h0.function_calls().len() as int) == h0.function_calls()
}

/// A host extends itself.
pub proof fn lemma_host_extended_refl<C, H: DialogueHost<C>>(h: H)
    ensures
        host_extended::<C, H>(h, h),
{
    assert(h.function_calls().subrange(0, h.function_calls().len() as int) =~= h.function_calls());
}

/// Extending is transitive.
pub proof fn lemma_host_extended_trans<C, H: DialogueHost<C>>(h0: H, h1: H, h2: H)
    requires
        host_extended::<C, H>(h0, h1),
        host_extended::<C, H>(h1, h2),
    ensures
        host_extended::<C, H>(h0, h2),
{
    let n = h0.function_calls().len() as int;
    assert(h2.function_calls().subrange(0, n) =~= h1.function_calls().subrange(0, n));
}

/// The value a variable missing from storage resolves to: its declared initial value;
/// `None` for a smart variable, whose node computes it; else `false` for a variable of
/// the once system and zero for one of the saliency system.
pub open spec fn unstored_value(program: Program, name: Seq<char>) -> Option<Value> {
    match crate::program::initial_value(program.initial_values@, name) {
        Some(o) => Some(crate::vm::operand_value(o)),
        None => if is_smart_variable(program, name) {
            None
        } else if crate::library::once_prefix().is_prefix_of(name) {
            Some(Value::Boolean(false))
        } else {
            Some(Value::Number(0))
        },
    }
}

/// Resolves `name` from what storage gave for it: the stored value where there is
/// one, else [`unstored_value`]; `None` for a smart variable, whose node computes it.
pub fn resolve_without_host(
    stored: Result<YarnValue, VariableStorageError>,
    name: &str,
    program: &Program,
) -> (r: Option<YarnValue>)
    ensures
        stored matches Ok(v) ==> r == Some(v),
        stored is Err ==> match (r, unstored_value(*program, name@)) {
            (Some(v), Some(u)) => v@ == u,
            (None, None) => true,
            _ => false,
        },
{
    match stored {
        Ok(v) => {
            return Some(v);
        },
        Err(_) => {},
    }
    match program.initial_value_of(name) {
        Some(o) => {
            return Some(YarnValue::from_operand(&o));
        },
        None => {},
    }
    if is_smart_variable_in(program, name) {
        return None;
    }
    proof {
        reveal_strlit("$Yarn.Internal.Once.");
    }
    if starts_with(name, "$Yarn.Internal.Once.") {
        Some(YarnValue::Boolean(false))
    } else {
        Some(YarnValue::Number(FloatBits(0)))
    }
}

/// Pops the top value of an evaluation's stack.
fn pop_top(e: &mut Evaluation) -> (r: YarnValue)
    requires
        old(e).values().len() > 0,
    ensures
        r@ == old(e).top(),
        final(e).values() == old(e).values().drop_last(),
        final(e).pc == old(e).pc,
        final(e).candidates == old(e).candidates,
{
    let r = match e.stack.pop() {
        Some(v) => v,
        None => YarnValue::Boolean(false),
    };
    assert(e.values() =~= old(e).values().drop_last());
    r
}

/// Evaluates one instruction of a smart variable's node (`hub` false) or of a node
/// group's hub node (`hub` true): `Some(false)` where the evaluation ends there, and
/// `None` where a nested evaluation, given one unit of `fuel` less, fails.
pub fn evaluate_step<C, H: DialogueHost<C>>(
    program: &Program,
    library: &Library<C>,
    node: &Node,
    e: &mut Evaluation,
    hub: bool,
    host: &mut H,
    fuel: usize,
) -> (r: Option<bool>)
    requires
        old(e).pc < node.instructions@.len(),
        evaluable(*program, library@.dom(), node@, *old(e), node@.instructions[old(e).pc as int], hub),
    ensures
        r matches Some(b) ==> evaluated(*program, storage_of::<C, H>(*old(host)), *old(e), *final(e), node@, node@.instructions[old(e).pc as int], hub, b),
        r is None ==> nested(*program, node@.instructions[old(e).pc as int]),
        r is Some ==> host_step::<C, H>(
            *program,
            library@.dom(),
            *old(e),
            *final(e),
            node@.instructions[old(e).pc as int],
            *old(host),
            *final(host),
        ),
        host_extended::<C, H>(*old(host), *final(host)),
    decreases fuel, 2nat,
{
    proof {
        lemma_host_extended_refl::<C, H>(*host);
    }
    let instruction = &node.instructions[e.pc];
    assert(node@.instructions[e.pc as int] == instruction@);
    match OpCode::try_from_i32(instruction.opcode) {
        Some(OpCode::PushString) => {
            let s = instruction.read_string_operand(0);
            e.stack.push(YarnValue::String(s));
            assert(e.values() =~= old(e).values().push(Value::Text(string_operand(instruction@, 0))));
            e.pc = e.pc + 1;
            Some(true)
        },
        Some(OpCode::PushFloat) => {
            let f = instruction.read_float_operand(0);
            e.stack.push(YarnValue::Number(f));
            assert(e.values() =~= old(e).values().push(Value::Number(float_operand(instruction@, 0))));
            e.pc = e.pc + 1;
            Some(true)
        },
        Some(OpCode::PushBool) => {
            let b = instruction.read_bool_operand(0);
            e.stack.push(YarnValue::Boolean(b));
            assert(e.values() =~= old(e).values().push(Value::Boolean(bool_operand(instruction@, 0))));
            e.pc = e.pc + 1;
            Some(true)
        },
        Some(OpCode::Pop) => {
            pop_top(e);
            e.pc = e.pc + 1;
            Some(true)
        },
        Some(OpCode::PushVariable) => {
            let name = instruction.read_string_operand(0);
            let value = match resolve_variable(name.as_str(), program, library, host, fuel) {
                Some(v) => v,
                None => {
                    return None;
                },
            };
            e.stack.push(value);
            assert(e.values().drop_last() =~= old(e).values());
            e.pc = e.pc + 1;
            Some(true)
        },
        Some(OpCode::CallFunc) => {
            let count_value = pop_top(e);
            let count = value_count(&count_value);
            let ghost after_count = e.values();
            let mut parameters: Vec<YarnValue> = Vec::new();
            let mut i: usize = 0;
            while i < count
                invariant
                    i <= count,
                    after_count.len() >= count,
                    e.values() == after_count.subrange(0, after_count.len() - i),
                    parameters@.len() == i,
                    forall|j: int| 0 <= j < i ==> #[trigger] parameters@[j]@ == after_count[after_count.len() - 1 - j],
                    e.pc == old(e).pc,
                    e.candidates == old(e).candidates,
                decreases count - i,
            {
                let v = pop_top(e);
                parameters.push(v);
                assert(e.values() =~= after_count.subrange(0, after_count.len() - (i + 1)));
                i = i + 1;
            }
            let mut ordered: Vec<YarnValue> = Vec::new();
            let mut k: usize = parameters.len();
            while k > 0
                invariant
                    k <= parameters@.len(),
                    ordered@.len() == parameters@.len() - k,
                    forall|m: int|
                        0 <= m < ordered@.len() ==> #[trigger] ordered@[m]@ == parameters@[parameters@.len() - 1 - m]@,
                decreases k,
            {
                k = k - 1;
                ordered.push(parameters[k].duplicate());
            }
            let ghost n0 = old(e).values().len();
            assert(values_view(ordered@) =~= old(e).values().subrange(n0 - 1 - count, n0 - 1)) by {
                assert(after_count =~= old(e).values().drop_last());
                assert forall|m: int| 0 <= m < ordered@.len() implies #[trigger] values_view(ordered@)[m] == old(
                    e,
                ).values()[n0 - 1 - count + m] by {
                    assert(ordered@[m]@ == parameters@[count - 1 - m]@);
                }
            }
            assert(e.values() =~= old(e).values().subrange(0, old(e).values().len() - 1 - count));
            let function_name = instruction.read_string_operand(0);
            let ghost rest = e.values();
            if crate::text::str_eq(function_name.as_str(), "has_any_content") {
                let node_group = display_text(&parameters[parameters.len() - 1], host);
                if fuel == 0 {
                    return None;
                }
                let result = match has_any_content(node_group.as_str(), program, library, host, fuel - 1) {
                    Some(b) => b,
                    None => {
                        return None;
                    },
                };
                e.stack.push(YarnValue::Boolean(result));
            } else {
                let value = match library.get(function_name.as_str()) {
                    Some(function) => {
                        let ghost h0 = *host;
                        let v = host.call_function(function, ordered);
                        assert(host.function_calls().subrange(0, h0.function_calls().len() as int) =~= h0.function_calls());
                        v
                    },
                    None => YarnValue::Boolean(false),
                };
                e.stack.push(value);
            }
            assert(e.values().drop_last() =~= rest);
            e.pc = e.pc + 1;
            Some(true)
        },
        Some(OpCode::JumpIfFalse) => {
            let last = e.stack.len() - 1;
            assert(e.stack@[last as int]@ == e.top());
            if !value_bool(&e.stack[last]) {
                let label_name = instruction.read_string_operand(0);
                match node.label_index(&label_name) {
                    Some(i) => {
                        e.pc = i as usize;
                    },
                    None => {},
                }
            } else {
                e.pc = e.pc + 1;
            }
            Some(true)
        },
        Some(OpCode::Stop) => {
            if hub {
                e.pc = e.pc + 1;
                Some(true)
            } else {
                Some(false)
            }
        },
        Some(OpCode::AddSaliencyCandidate) => {
            let top = pop_top(e);
            let passed = value_bool(&top);
            let content_id = instruction.read_string_operand(0);
            let complexity_score = instruction.read_float_operand(1).to_i32();
            e.candidates.push(
                ContentSaliencyOption {
                    content_id,
                    passing_condition_count: if passed { 1 } else { 0 },
                    failing_condition_count: if passed { 0 } else { 1 },
                    complexity_score,
                    content_type: ContentType::Node,
                    destination: 0,
                },
            );
            assert(e.candidates@.drop_last() =~= old(e).candidates@);
            e.pc = e.pc + 1;
            Some(true)
        },
        Some(OpCode::SelectSaliencyCandidate) => Some(false),
        Some(_) => {
            e.pc = e.pc + 1;
            Some(true)
        },
        None => Some(false),
    }
}

/// What evaluating `ins`, from `old` to `next`, handed to the host and took from it,
/// from host `h0` to `h1`: a library function is called with the popped parameters,
/// deepest first, and its result is pushed; a variable read pushes what storage holds,
/// else what [`unstored_value`] gives, else a value of the smart variable; the other
/// instructions leave the host alone.
pub open spec fn host_step<C, H: DialogueHost<C>>(
    program: Program,
    functions: Set<Seq<char>>,
    old: Evaluation,
    next: Evaluation,
    ins: InstructionView,
    h0: H,
    h1: H,
) -> bool {
    match opcode_of(ins.opcode) {
        Some(OpCode::CallFunc) => {
            let n = old.values().len();
            let c = count_of(old.top())->0 as int;
            string_operand(ins, 0) != "has_any_content"@ ==> h1.function_calls() == h0.function_calls().push(
                (old.values().subrange(n - 1 - c, n - 1), next.values().last()),
            )
        },
        Some(OpCode::PushVariable) => {
            let name = string_operand(ins, 0);
            match h0.stored(name) {
                Some(v) => next.values().last() == v,
                None => match unstored_value(program, name) {
                    Some(u) => next.values().last() == u,
                    None => smart_value(program, functions, storage_of::<C, H>(h0), name, next.values().last()),
                },
            }
        },
        _ => h1 == h0,
    }
}

/// Whether the next instruction of an evaluation exists and can be evaluated.
pub fn can_evaluate<C>(program: &Program, library: &Library<C>, node: &Node, e: &Evaluation, hub: bool) -> (r: bool)
    ensures
        r == (e.pc < node.instructions@.len() && evaluable(
            *program,
            library@.dom(),
            node@,
            *e,
            node@.instructions[e.pc as int],
            hub,
        )),
{
    if e.pc >= node.instructions.len() || e.pc == usize::MAX {
        return false;
    }
    let instruction = &node.instructions[e.pc];
    assert(node@.instructions[e.pc as int] == instruction@);
    let n = e.stack.len();
    proof {
        if n > 0 {
            assert(e.stack@[n - 1]@ == e.top());
        }
    }
    match OpCode::try_from_i32(instruction.opcode) {
        Some(OpCode::PushString) => instruction.has_string(0),
        Some(OpCode::PushFloat) => instruction.has_float(0),
        Some(OpCode::PushBool) => instruction.has_bool(0),
        Some(OpCode::Pop) => n > 0,
        Some(OpCode::PushVariable) => {
            if !instruction.has_string(0) {
                return false;
            }
            let name = instruction.read_string_operand(0);
            default_value_of(program, name.as_str()).is_some() || is_smart_variable_in(program, name.as_str())
        },
        Some(OpCode::CallFunc) => {
            if !(instruction.has_string(0) && n > 0) {
                return false;
            }
            if let YarnValue::String(_) = &e.stack[n - 1] {
                return false;
            }
            let c = value_count(&e.stack[n - 1]);
            if c > n - 1 {
                return false;
            }
            let name = instruction.read_string_operand(0);
            if crate::text::str_eq(name.as_str(), "has_any_content") {
                c >= 1
            } else {
                library.contains_function(name.as_str())
            }
        },
        Some(OpCode::JumpIfFalse) => {
            if !(n > 0 && crate::vm::converts_to_bool(&e.stack[n - 1])) {
                return false;
            }
            if value_bool(&e.stack[n - 1]) {
                true
            } else {
                instruction.has_string(0) && node.label_index(&instruction.read_string_operand(0)).is_some()
            }
        },
        Some(OpCode::Stop) => true,
        Some(OpCode::AddSaliencyCandidate) => {
            hub && n > 0 && crate::vm::converts_to_bool(&e.stack[n - 1]) && instruction.has_string(0)
                && instruction.has_float(1)
        },
        Some(_) => hub,
        None => false,
    }
}

/// The value an evaluated smart variable leaves on top of its stack.
pub fn evaluation_result(e: &mut Evaluation) -> (r: YarnValue)
    requires
        old(e).values().len() > 0,
    ensures
        r@ == old(e).top(),
{
    pop_top(e)
}

/// What a node group is, as `has_any_content` sees it.
#[derive(Debug, Clone, Copy, PartialEq, Eq, Structural)]
pub enum NodeGroupKind {
    /// No node of that name exists.
    Missing,
    /// A plain node, which always has content.
    Plain,
    /// A hub node, whose members' conditions decide.
    Hub,
}

/// What the node `name` of `program` is.
pub open spec fn group_kind(program: Program, name: Seq<char>) -> NodeGroupKind {
    match node_named(program.nodes@, name) {
        None => NodeGroupKind::Missing,
        Some(n) => if n.tags.contains(hub_tag()) {
            NodeGroupKind::Hub
        } else {
            NodeGroupKind::Plain
        },
    }
}

/// What the node `name` of `program` is.
pub fn node_group_kind(program: &Program, name: &str) -> (r: NodeGroupKind)
    ensures
        r == group_kind(*program, name@),
{
    match program.find_node(name) {
        Some(i) => {
            assert(node_named(program.nodes@, name@) == Some(program.nodes@[i as int]@));
            let tags = &program.nodes[i].tags;
            let ghost tv = program.nodes@[i as int]@.tags;
            let mut j: usize = 0;
            while j < tags.len()
                invariant
                    tv == tags@.map_values(|t: String| t@),
                    tv == program.nodes@[i as int]@.tags,
                    node_named(program.nodes@, name@) == Some(program.nodes@[i as int]@),
                    j <= tags@.len(),
                    forall|k: int| 0 <= k < j ==> tv[k] != hub_tag(),
                decreases tags.len() - j,
            {
                assert(tv[j as int] == tags@[j as int]@);
                if crate::text::str_eq(tags[j].as_str(), "yarn_internal_node_group") {
                    assert(tv.contains(hub_tag()));
                    return NodeGroupKind::Hub;
                }
                j = j + 1;
            }
            assert(!tv.contains(hub_tag()));
            NodeGroupKind::Plain
        },
        None => NodeGroupKind::Missing,
    }
}

/// Whether `trace` is a run of `node` (a smart variable's node, `hub` false, or a
/// hub node, `hub` true) from a fresh evaluation: each state evaluates its next
/// instruction into the following one.
pub open spec fn valid_run(
    program: Program,
    functions: Set<Seq<char>>,
    stored: Storage,
    node: NodeView,
    trace: Seq<Evaluation>,
    hub: bool,
) -> bool {
    &&& trace.len() >= 1
    &&& trace[0].pc == 0
    &&& trace[0].values().len() == 0
    &&& trace[0].candidates@.len() == 0
    &&& forall|i: int|
        0 <= i < trace.len() - 1 ==> {
            &&& (#[trigger] trace[i]).pc < node.instructions.len()
            &&& evaluable(program, functions, node, trace[i], node.instructions[trace[i].pc as int], hub)
            &&& evaluated(program, stored, trace[i], trace[i + 1], node, node.instructions[trace[i].pc as int], hub, true)
        }
}

/// Whether an evaluation of `node` has ended at `e`: past the last instruction, or at
/// a `Stop` of a smart variable's node, or at the selection of a hub node.
pub open spec fn run_ended(node: NodeView, e: Evaluation, hub: bool) -> bool {
    ||| e.pc >= node.instructions.len()
    ||| !hub && opcode_of(node.instructions[e.pc as int].opcode) == Some(OpCode::Stop)
    ||| hub && opcode_of(node.instructions[e.pc as int].opcode) == Some(OpCode::SelectSaliencyCandidate)
}

/// Whether evaluating `ins` hands work to a nested evaluation: reading a smart
/// variable, or asking for the content of a node group.
pub open spec fn nested(program: Program, ins: InstructionView) -> bool {
    match opcode_of(ins.opcode) {
        Some(OpCode::PushVariable) => unstored_value(program, string_operand(ins, 0)) is None,
        Some(OpCode::CallFunc) => string_operand(ins, 0) == "has_any_content"@,
        _ => false,
    }
}

/// Whether `trace` is a run of `node` that stops short of its end: after `fuel`
/// steps, or at an instruction that cannot be evaluated, or at one whose nested
/// evaluation failed.
pub open spec fn fell_short(
    program: Program,
    functions: Set<Seq<char>>, stored: Storage,
    node: NodeView,
    trace: Seq<Evaluation>,
    hub: bool,
    fuel: usize,
) -> bool {
    let last = trace.last();
    &&& valid_run(program, functions, stored, node, trace, hub)
    &&& !run_ended(node, last, hub)
    &&& trace.len() <= fuel + 1
    &&& {
        ||| trace.len() == fuel + 1
        ||| !evaluable(program, functions, node, last, node.instructions[last.pc as int], hub)
        ||| nested(program, node.instructions[last.pc as int])
    }
}

/// Whether some run of `node` stops short of its end within `fuel` steps.
pub open spec fn falls_short(
    program: Program,
    functions: Set<Seq<char>>,
    stored: Storage,
    node: NodeView,
    hub: bool,
    fuel: usize,
) -> bool {
    exists|trace: Seq<Evaluation>| #[trigger] fell_short(program, functions, stored, node, trace, hub, fuel)
}

/// Whether `e` is where some complete run of `node` ends.
pub open spec fn ends_run(
    program: Program,
    functions: Set<Seq<char>>,
    stored: Storage,
    node: NodeView,
    e: Evaluation,
    hub: bool,
) -> bool {
    exists|trace: Seq<Evaluation>|
        #[trigger] valid_run(program, functions, stored, node, trace, hub) && trace.last() == e && run_ended(node, e, hub)
}

/// Whether evaluating `ins` asks nothing of the host: it neither reads a variable nor
/// calls a function.
pub open spec fn quiet(ins: InstructionView) -> bool {
    opcode_of(ins.opcode) != Some(OpCode::PushVariable) && opcode_of(ins.opcode) != Some(OpCode::CallFunc)
}

/// Whether `trace` is a complete run of `node` within `fuel` steps in which no step
/// asks anything of the host.
pub open spec fn quiet_ending(
    program: Program,
    functions: Set<Seq<char>>, stored: Storage,
    node: NodeView,
    hub: bool,
    fuel: usize,
    trace: Seq<Evaluation>,
) -> bool {
    &&& valid_run(program, functions, stored, node, trace, hub)
    &&& run_ended(node, trace.last(), hub)
    &&& trace.len() <= fuel + 1
    &&& forall|i: int| 0 <= i < trace.len() - 1 ==> quiet(node.instructions[(#[trigger] trace[i]).pc as int])
}

/// Whether some complete run of `node` within `fuel` steps asks nothing of the host.
pub open spec fn ends_quietly(
    program: Program,
    functions: Set<Seq<char>>,
    stored: Storage,
    node: NodeView,
    hub: bool,
    fuel: usize,
) -> bool {
    exists|trace: Seq<Evaluation>| #[trigger] quiet_ending(program, functions, stored, node, hub, fuel, trace)
}

/// An instruction that asks nothing of the host takes two evaluations with the same
/// program counter and stack to the same program counter and stack, with the same
/// answer to whether the run goes on.
pub proof fn lemma_quiet_step(
    program: Program,
    stored: Storage,
    node: NodeView,
    ins: InstructionView,
    hub: bool,
    a: Evaluation,
    a2: Evaluation,
    ra: bool,
    b: Evaluation,
    b2: Evaluation,
    rb: bool,
)
    requires
        quiet(ins),
        evaluated(program, stored, a, a2, node, ins, hub, ra),
        evaluated(program, stored, b, b2, node, ins, hub, rb),
        a.pc == b.pc,
        a.values() == b.values(),
    ensures
        ra == rb,
        a2.pc == b2.pc,
        a2.values() == b2.values(),
{
}

/// Runs `node` from a fresh evaluation, for at most `fuel` steps (nested evaluations
/// get one unit less): the state it ends in, or `None` where it falls short. Where a
/// complete run within `fuel` steps asks nothing of the host, this is that run.
#[verifier::rlimit(80)]
pub fn run_evaluation<C, H: DialogueHost<C>>(
    program: &Program,
    library: &Library<C>,
    node: &Node,
    hub: bool,
    host: &mut H,
    fuel: usize,
) -> (r: Option<Evaluation>)
    ensures
        r matches Some(e) ==> ends_run(*program, library@.dom(), storage_of::<C, H>(*old(host)), node@, e, hub),
        r is None ==> falls_short(*program, library@.dom(), storage_of::<C, H>(*old(host)), node@, hub, fuel),
        forall|t: Seq<Evaluation>| #[trigger]
            quiet_ending(*program, library@.dom(), storage_of::<C, H>(*old(host)), node@, hub, fuel, t) ==> (r matches Some(e) && e.values()
                == t.last().values()),
        host_extended::<C, H>(*old(host), *final(host)),
    decreases fuel, 3nat,
{
    let ghost st = storage_of::<C, H>(*old(host));
    proof {
        lemma_host_extended_refl::<C, H>(*host);
    }
    let ghost functions = library@.dom();
    let mut e = Evaluation::new();
    let ghost mut trace: Seq<Evaluation> = seq![e];
    let mut steps: usize = 0;
    proof {
        assert forall|t: Seq<Evaluation>| #[trigger]
            quiet_ending(*program, functions, st, node@, hub, fuel, t) implies 0 < t.len() && t[0].pc == e.pc
            && t[0].values() == e.values() by {
            assert(t[0].values() =~= e.values());
        }
    }
    loop
        invariant
            functions == library@.dom(),
            st == storage_of::<C, H>(*old(host)),
            valid_run(*program, functions, st, node@, trace, hub),
            trace.last() == e,
            trace.len() == steps + 1,
            steps <= fuel,
            host_extended::<C, H>(*old(host), *host),
            forall|t: Seq<Evaluation>| #[trigger]
                quiet_ending(*program, functions, st, node@, hub, fuel, t) ==> steps < t.len() && t[steps as int].pc
                    == e.pc && t[steps as int].values() == e.values(),
        decreases fuel - steps,
    {
        let ghost k = steps as int;
        if e.pc >= node.instructions.len() {
            assert(ends_run(*program, functions, st, node@, e, hub));
            proof {
                assert forall|t: Seq<Evaluation>| #[trigger]
                    quiet_ending(*program, functions, st, node@, hub, fuel, t) implies e.values() == t.last().values() by {
                    if k < t.len() - 1 {
                        assert(t[k].pc < node@.instructions.len());
                    }
                }
            }
            return Some(e);
        }
        if !can_evaluate(program, library, node, &e, hub) {
            assert(fell_short(*program, functions, st, node@, trace, hub, fuel));
            proof {
                assert forall|t: Seq<Evaluation>| #[trigger]
                    quiet_ending(*program, functions, st, node@, hub, fuel, t) implies false by {
                    if k < t.len() - 1 {
                        assert(evaluable(*program, functions, node@, t[k], node@.instructions[t[k].pc as int], hub));
                    } else {
                        assert(run_ended(node@, t[k], hub));
                    }
                }
            }
            return None;
        }
        let ghost before = e;
        let ghost ins = node@.instructions[e.pc as int];
        let ghost h_before = *host;
        let step = evaluate_step(program, library, node, &mut e, hub, host, fuel);
        proof {
            lemma_host_extended_trans::<C, H>(*old(host), h_before, *host);
            assert(storage_of::<C, H>(h_before) =~= st);
        }
        match step {
            None => {
                assert(fell_short(*program, functions, st, node@, trace, hub, fuel));
                proof {
                    assert forall|t: Seq<Evaluation>| #[trigger]
                        quiet_ending(*program, functions, st, node@, hub, fuel, t) implies false by {
                        if k < t.len() - 1 {
                            assert(quiet(node@.instructions[t[k].pc as int]));
                        } else {
                            assert(run_ended(node@, t[k], hub));
                        }
                    }
                }
                return None;
            },
            Some(false) => {
                assert(e == before);
                assert(ends_run(*program, functions, st, node@, e, hub));
                proof {
                    assert forall|t: Seq<Evaluation>| #[trigger]
                        quiet_ending(*program, functions, st, node@, hub, fuel, t) implies e.values() == t.last().values() by {
                        if k < t.len() - 1 {
                            assert(quiet(node@.instructions[t[k].pc as int]));
                            lemma_quiet_step(*program, st, node@, ins, hub, t[k], t[k + 1], true, before, e, false);
                        }
                    }
                }
                return Some(e);
            },
            Some(true) => {},
        }
        proof {
            assert forall|t: Seq<Evaluation>| #[trigger]
                quiet_ending(*program, functions, st, node@, hub, fuel, t) implies k + 1 < t.len() && t[k + 1].pc == e.pc
                && t[k + 1].values() == e.values() by {
                if k < t.len() - 1 {
                    assert(quiet(node@.instructions[t[k].pc as int]));
                    lemma_quiet_step(*program, st, node@, ins, hub, t[k], t[k + 1], true, before, e, true);
                } else {
                    assert(run_ended(node@, t[k], hub));
                }
            }
        }
        if steps == fuel {
            assert(fell_short(*program, functions, st, node@, trace, hub, fuel));
            return None;
        }
        proof {
            let t2 = trace.push(e);
            assert forall|i: int| 0 <= i < t2.len() - 1 implies {
                &&& (#[trigger] t2[i]).pc < node@.instructions.len()
                &&& evaluable(*program, functions, node@, t2[i], node@.instructions[t2[i].pc as int], hub)
                &&& evaluated(*program, st, t2[i], t2[i + 1], node@, node@.instructions[t2[i].pc as int], hub, true)
            } by {
                if i < trace.len() - 1 {
                    assert(t2[i] == trace[i] && t2[i + 1] == trace[i + 1]);
                } else {
                    assert(t2[i] == before && t2[i + 1] == e);
                }
            }
            trace = t2;
        }
        steps = steps + 1;
    }
}

/// Whether `v` is a value of the smart variable `name`: what some complete run of its
/// node leaves on top of the stack.
pub open spec fn smart_value(
    program: Program,
    functions: Set<Seq<char>>,
    stored: Storage,
    name: Seq<char>,
    v: Value,
) -> bool {
    match node_named(program.nodes@, name) {
        Some(n) => run_value(program, functions, stored, n, v),
        None => false,
    }
}

/// Whether `v` is what some complete run of the smart variable's node `n` leaves on
/// top of the stack.
pub open spec fn run_value(
    program: Program,
    functions: Set<Seq<char>>,
    stored: Storage,
    n: NodeView,
    v: Value,
) -> bool {
    exists|trace: Seq<Evaluation>|
        #[trigger] valid_run(program, functions, stored, n, trace, false) && run_ended(n, trace.last(), false)
            && trace.last().values().len() > 0 && v == trace.last().top()
}

/// Evaluates the smart variable `name` of `program`, for at most `fuel` steps: the
/// value its node leaves on top of the stack. `None` where the program has no node of
/// that name, where its run falls short, or where the run leaves nothing on the stack.
/// Variable storage is not written.
pub fn evaluate_smart_variable<C, H: DialogueHost<C>>(
    name: &str,
    program: &Program,
    library: &Library<C>,
    host: &mut H,
    fuel: usize,
) -> (r: Option<YarnValue>)
    ensures
        node_named(program.nodes@, name@) is None ==> r is None,
        r matches Some(v) ==> smart_value(*program, library@.dom(), storage_of::<C, H>(*old(host)), name@, v@),
        r is None ==> match node_named(program.nodes@, name@) {
            None => true,
            Some(n) => falls_short(*program, library@.dom(), storage_of::<C, H>(*old(host)), n, false, fuel) || empty_end(
                *program,
                library@.dom(), storage_of::<C, H>(*old(host)),
                n,
            ),
        },
        (node_named(program.nodes@, name@) matches Some(n) && ends_quietly_valued(*program, library@.dom(), storage_of::<C, H>(*old(host)), n, fuel))
            ==> r is Some,
        host_extended::<C, H>(*old(host), *final(host)),
    decreases fuel, 4nat,
{
    let ghost st = storage_of::<C, H>(*old(host));
    proof {
        lemma_host_extended_refl::<C, H>(*host);
    }
    let i = match program.find_node(name) {
        Some(i) => i,
        None => {
            return None;
        },
    };
    assert(node_named(program.nodes@, name@) == Some(program.nodes@[i as int]@));
    let node = &program.nodes[i];
    let run = run_evaluation(program, library, node, false, host, fuel);
    proof {
        if ends_quietly_valued(*program, library@.dom(), st, node@, fuel) {
            let t = choose|t: Seq<Evaluation>|
                #[trigger] quiet_ending(*program, library@.dom(), st, node@, false, fuel, t) && t.last().values().len() > 0;
            assert(quiet_ending(*program, library@.dom(), st, node@, false, fuel, t));
        }
    }
    match run {
        Some(mut e) => {
            let ghost last = e;
            if e.stack.len() == 0 {
                proof {
                    let trace = choose|trace: Seq<Evaluation>|
                        #[trigger] valid_run(*program, library@.dom(), st, node@, trace, false) && trace.last() == last
                            && run_ended(node@, last, false);
                    assert(valid_run(*program, library@.dom(), st, node@, trace, false) && run_ended(node@, trace.last(), false)
                        && trace.last().values().len() == 0);
                    assert(empty_end(*program, library@.dom(), st, node@));
                }
                return None;
            }
            assert(last.values().len() > 0);
            let v = evaluation_result(&mut e);
            proof {
                let trace = choose|trace: Seq<Evaluation>|
                    #[trigger] valid_run(*program, library@.dom(), st, node@, trace, false) && trace.last() == last
                        && run_ended(node@, last, false);
                assert(node@ == program.nodes@[i as int]@);
                assert(valid_run(*program, library@.dom(), st, node@, trace, false) && run_ended(node@, trace.last(), false)
                    && trace.last().values().len() > 0 && v@ == trace.last().top());
                assert(run_value(*program, library@.dom(), st, node@, v@));
                assert(smart_value(*program, library@.dom(), st, name@, v@));
            }
            Some(v)
        },
        None => None,
    }
}

/// Whether some complete run of the smart variable's node `n` within `fuel` steps asks
/// nothing of the host and leaves a value on its stack.
pub open spec fn ends_quietly_valued(
    program: Program,
    functions: Set<Seq<char>>,
    stored: Storage,
    n: NodeView,
    fuel: usize,
) -> bool {
    exists|t: Seq<Evaluation>| #[trigger] quiet_ending(program, functions, stored, n, false, fuel, t) && t.last().values().len() > 0
}

/// Whether `name` is a hub node of which some complete run within `fuel` steps asks
/// nothing of the host.
pub open spec fn hub_ends_quietly(
    program: Program,
    functions: Set<Seq<char>>,
    stored: Storage,
    name: Seq<char>,
    fuel: usize,
) -> bool {
    &&& group_kind(program, name) == NodeGroupKind::Hub
    &&& match node_named(program.nodes@, name) {
        Some(n) => ends_quietly(program, functions, stored, n, true, fuel),
        None => false,
    }
}

/// Whether the smart variable `name` has a node of which some complete run within
/// `fuel` steps asks nothing of the host and leaves a value on its stack.
pub open spec fn smart_ends_quietly(
    program: Program,
    functions: Set<Seq<char>>,
    stored: Storage,
    name: Seq<char>,
    fuel: usize,
) -> bool {
    match node_named(program.nodes@, name) {
        Some(n) => ends_quietly_valued(program, functions, stored, n, fuel),
        None => false,
    }
}

/// Whether some complete run of the smart variable's node `n` leaves its stack empty.
pub open spec fn empty_end(
    program: Program,
    functions: Set<Seq<char>>,
    stored: Storage,
    n: NodeView,
) -> bool {
    exists|trace: Seq<Evaluation>|
        #[trigger] valid_run(program, functions, stored, n, trace, false) && run_ended(n, trace.last(), false)
            && trace.last().values().len() == 0
}

/// Whether `c` is what some complete run of the hub node `name` gathers.
pub open spec fn hub_candidates(
    program: Program,
    functions: Set<Seq<char>>, stored: Storage,
    name: Seq<char>,
    c: Seq<ContentSaliencyOption>,
) -> bool {
    node_named(program.nodes@, name) matches Some(n) && exists|e: Evaluation|
        #[trigger] ends_run(program, functions, stored, n, e, true) && c == e.candidates@
}

/// Whether `b` is an answer to whether node group `name` has content: `false` where
/// there is no such node, `true` for a plain node, and for a hub node whether some
/// candidate that a complete run of it gathers passes all its conditions.
pub open spec fn content_answer(
    program: Program,
    functions: Set<Seq<char>>,
    stored: Storage,
    name: Seq<char>,
    b: bool,
) -> bool {
    match group_kind(program, name) {
        NodeGroupKind::Missing => !b,
        NodeGroupKind::Plain => b,
        NodeGroupKind::Hub => exists|c: Seq<ContentSaliencyOption>|
            #[trigger] hub_candidates(program, functions, stored, name, c) && b == any_passes(c),
    }
}

/// The saliency candidates that the hub node of node group `node_group` gathers, for
/// at most `fuel` steps. `None` where there is no such hub node or where its run falls
/// short. Variable storage is not written.
pub fn collect_hub_saliency_candidates<C, H: DialogueHost<C>>(
    node_group: &str,
    program: &Program,
    library: &Library<C>,
    host: &mut H,
    fuel: usize,
) -> (r: Option<Vec<ContentSaliencyOption>>)
    ensures
        group_kind(*program, node_group@) != NodeGroupKind::Hub ==> r is None,
        r matches Some(c) ==> hub_candidates(*program, library@.dom(), storage_of::<C, H>(*old(host)), node_group@, c@),
        r is None && group_kind(*program, node_group@) == NodeGroupKind::Hub ==> (node_named(
            program.nodes@,
            node_group@,
        ) matches Some(n) && falls_short(*program, library@.dom(), storage_of::<C, H>(*old(host)), n, true, fuel)),
        hub_ends_quietly(*program, library@.dom(), storage_of::<C, H>(*old(host)), node_group@, fuel) ==> r is Some,
        host_extended::<C, H>(*old(host), *final(host)),
    decreases fuel, 4nat,
{
    let ghost st = storage_of::<C, H>(*old(host));
    proof {
        lemma_host_extended_refl::<C, H>(*host);
    }
    if node_group_kind(program, node_group) != NodeGroupKind::Hub {
        return None;
    }
    let i = match program.find_node(node_group) {
        Some(i) => i,
        None => {
            return None;
        },
    };
    assert(node_named(program.nodes@, node_group@) == Some(program.nodes@[i as int]@));
    let node = &program.nodes[i];
    let run = run_evaluation(program, library, node, true, host, fuel);
    proof {
        if ends_quietly(*program, library@.dom(), st, node@, true, fuel) {
            let t = choose|t: Seq<Evaluation>| #[trigger] quiet_ending(*program, library@.dom(), st, node@, true, fuel, t);
            assert(quiet_ending(*program, library@.dom(), st, node@, true, fuel, t));
        }
    }
    match run {
        Some(e) => {
            assert(ends_run(*program, library@.dom(), st, node@, e, true));
            Some(e.candidates)
        },
        None => None,
    }
}

/// Whether node group `node_group` has content that could run now, for at most `fuel`
/// steps of its hub: `false` where there is no such node, `true` for a plain node,
/// and for a hub node whether some gathered candidate passes all its conditions, the
/// answer of every saliency strategy. `None` where the hub's run falls short.
/// Variable storage is not written.
pub fn has_any_content<C, H: DialogueHost<C>>(
    node_group: &str,
    program: &Program,
    library: &Library<C>,
    host: &mut H,
    fuel: usize,
) -> (r: Option<bool>)
    ensures
        r matches Some(b) ==> content_answer(*program, library@.dom(), storage_of::<C, H>(*old(host)), node_group@, b),
        group_kind(*program, node_group@) != NodeGroupKind::Hub ==> r is Some,
        r is None ==> (node_named(program.nodes@, node_group@) matches Some(n) && falls_short(
            *program,
            library@.dom(), storage_of::<C, H>(*old(host)),
            n,
            true,
            fuel,
        )),
        hub_ends_quietly(*program, library@.dom(), storage_of::<C, H>(*old(host)), node_group@, fuel) ==> r is Some,
        host_extended::<C, H>(*old(host), *final(host)),
    decreases fuel, 5nat,
{
    let ghost st = storage_of::<C, H>(*old(host));
    proof {
        lemma_host_extended_refl::<C, H>(*host);
    }
    match node_group_kind(program, node_group) {
        NodeGroupKind::Missing => Some(false),
        NodeGroupKind::Plain => Some(true),
        NodeGroupKind::Hub => match collect_hub_saliency_candidates(node_group, program, library, host, fuel) {
            Some(candidates) => {
                let b = FirstSaliencyStrategy.query(&candidates).is_some();
                assert(hub_candidates(*program, library@.dom(), st, node_group@, candidates@));
                Some(b)
            },
            None => None,
        },
    }
}

} // verus!
