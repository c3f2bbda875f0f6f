//! The code of a group of shortcut options, and of a line group.
//!
//! A group of shortcut options offers each option (its condition first, then the
//! expressions of its text), shows them, and jumps to the chosen one's destination.
//! A line group adds each item as a saliency candidate instead, lets the strategy
//! select one, and runs that item's line. The code of conditions, texts and bodies is
//! generated beforehand and handed in, with the labels that the destinations get.
use crate::node_groups::{
    append_code, bare_ins, bare_v, binary_call, code_view, count_bits, ins, push_bool_ins, push_bool_v, push_call,
    push_code, push_var_v, store_var_v, string_ins, unary_call,
};
use crate::program::{FloatBits, Instruction, InstructionView, OpCode, Operand, OperandView};
use vstd::prelude::*;

verus! {

/// How the line of an option, or of a line group's item, is conditioned.
#[derive(Debug)]
pub enum OptionCondition {
    /// Not at all.
    Always,
    /// By `<<if ...>>`: the code of the expression, and how many boolean operators it has.
    If(Vec<Instruction>, usize),
    /// By `<<once>>`.
    Once,
    /// By `<<once if ...>>`: the code of the expression, and how many boolean operators it has.
    OnceIf(Vec<Instruction>, usize),
}

/// An option of a group of shortcut options, or an item of a line group.
#[derive(Debug)]
pub struct OptionItem {
    /// The id of the option's line.
    pub line_id: String,
    /// The line's condition.
    pub condition: OptionCondition,
    /// The code of the expressions in the line's text.
    pub text_code: Vec<Instruction>,
    /// How many expressions the line's text holds.
    pub expression_count: usize,
    /// The code of the statements under the option.
    pub body: Vec<Instruction>,
}

/// The variable that records that the line `line_id` was seen.
pub open spec fn once_variable(line_id: Seq<char>) -> Seq<char> {
    "$Yarn.Internal.Once."@ + line_id
}

/// Whether a condition holds a line to once.
pub open spec fn is_once(c: OptionCondition) -> bool {
    c is Once || c is OnceIf
}

/// Pushes whether the line `line_id` was never seen.
pub open spec fn not_seen_code(line_id: Seq<char>) -> Seq<InstructionView> {
    seq![push_var_v(once_variable(line_id))] + unary_call("Bool.Not"@)
}

/// The code of an item's condition; none where it has none.
pub open spec fn condition_code(item: OptionItem) -> Seq<InstructionView> {
    match item.condition {
        OptionCondition::Always => Seq::empty(),
        OptionCondition::If(c, _) => code_view(c@),
        OptionCondition::Once => not_seen_code(item.line_id@),
        OptionCondition::OnceIf(c, _) => not_seen_code(item.line_id@) + code_view(c@) + binary_call("Bool.And"@),
    }
}

/// Jumps to `label`.
pub open spec fn jump_to_v(label: Seq<char>) -> InstructionView {
    ins(OpCode::JumpTo, seq![OperandView::Str(label)])
}

/// Offers an option whose destination is `label`.
pub open spec fn add_option_v(item: OptionItem, label: Seq<char>) -> InstructionView {
    ins(
        OpCode::AddOption,
        seq![
            OperandView::Str(item.line_id@),
            OperandView::Str(label),
            OperandView::Float(count_bits(item.expression_count as nat)),
            OperandView::Bool(!(item.condition is Always)),
        ],
    )
}

/// The code that offers one option.
pub open spec fn offer_code(item: OptionItem, label: Seq<char>) -> Seq<InstructionView> {
    condition_code(item) + code_view(item.text_code@) + seq![add_option_v(item, label)]
}

/// The code that offers the options `items`, the `i`-th leading to `labels[i]`.
pub open spec fn offers_code(items: Seq<OptionItem>, labels: Seq<Seq<char>>) -> Seq<InstructionView>
    decreases items.len(),
{
    if items.len() == 0 {
        Seq::empty()
    } else {
        offers_code(items.drop_last(), labels) + offer_code(items.last(), labels[items.len() - 1])
    }
}

/// The code that chooses with `choose` and jumps to what was chosen, or to `end`
/// where nothing was.
pub open spec fn choice_code(choose: OpCode, end: Seq<char>) -> Seq<InstructionView> {
    seq![
        bare_v(choose),
        ins(OpCode::JumpIfFalse, seq![OperandView::Str(end)]),
        bare_v(OpCode::Pop),
        bare_v(OpCode::PeekAndJump),
    ]
}

/// Records that an item held to once was seen; nothing for other items.
pub open spec fn mark_seen_code(item: OptionItem) -> Seq<InstructionView> {
    if is_once(item.condition) {
        seq![push_bool_v(true), store_var_v(once_variable(item.line_id@)), bare_v(OpCode::Pop)]
    } else {
        Seq::empty()
    }
}

/// The destination of an option: the chosen destination is popped, the option
/// marked seen, its statements run, and the group left for `end`.
pub open spec fn option_destination_code(item: OptionItem, end: Seq<char>) -> Seq<InstructionView> {
    seq![bare_v(OpCode::Pop)] + mark_seen_code(item) + code_view(item.body@) + seq![jump_to_v(end)]
}

/// The destinations of the options `items`, in order.
pub open spec fn option_destinations_code(items: Seq<OptionItem>, end: Seq<char>) -> Seq<InstructionView>
    decreases items.len(),
{
    if items.len() == 0 {
        Seq::empty()
    } else {
        option_destinations_code(items.drop_last(), end) + option_destination_code(items.last(), end)
    }
}

/// The code of a group of shortcut options.
pub open spec fn standard_options_code(items: Seq<OptionItem>, labels: Seq<Seq<char>>, end: Seq<char>) -> Seq<
    InstructionView,
> {
    offers_code(items, labels) + choice_code(OpCode::ShowOptions, end) + option_destinations_code(items, end)
}

/// The labels of a group of shortcut options whose code starts at instruction `start`:
/// each option's label at its destination, then `end` after the group.
pub open spec fn standard_option_labels(items: Seq<OptionItem>, labels: Seq<Seq<char>>, end: Seq<char>, start: nat) -> Seq<
    (Seq<char>, nat),
> {
    Seq::new(
        items.len(),
        |i: int|
            (
                labels[i],
                (start + offers_code(items, labels).len() + 4 + option_destinations_code(
                    items.subrange(0, i),
                    end,
                ).len()) as nat,
            ),
    ).push((end, start + standard_options_code(items, labels, end).len()))
}

/// The views of a list of labels and their positions.
pub open spec fn labels_view(v: Seq<(String, usize)>) -> Seq<(Seq<char>, nat)> {
    v.map_values(|l: (String, usize)| (l.0@, l.1 as nat))
}

/// The views of a list of strings.
pub open spec fn names_view(v: Seq<String>) -> Seq<Seq<char>> {
    v.map_values(|s: String| s@)
}

/// The complexity of a line group item's condition: one for each condition and each
/// boolean operator in it; none without a condition.
pub open spec fn condition_complexity(c: OptionCondition) -> nat {
    match c {
        OptionCondition::Always => 0,
        OptionCondition::If(_, k) => (k + 1) as nat,
        OptionCondition::Once => 1,
        OptionCondition::OnceIf(_, k) => (k + 2) as nat,
    }
}

/// Adds a line group item as a saliency candidate leading to `label`: its condition
/// (`true` without one), then the candidate.
pub open spec fn candidate_code(item: OptionItem, label: Seq<char>) -> Seq<InstructionView> {
    (if item.condition is Always {
        seq![push_bool_v(true)]
    } else {
        condition_code(item)
    }) + seq![
        ins(
            OpCode::AddSaliencyCandidate,
            seq![
                OperandView::Str(item.line_id@),
                OperandView::Float(count_bits(condition_complexity(item.condition))),
                OperandView::Str(label),
            ],
        ),
    ]
}

/// The code that adds the items of a line group as candidates.
pub open spec fn candidates_code(items: Seq<OptionItem>, labels: Seq<Seq<char>>) -> Seq<InstructionView>
    decreases items.len(),
{
    if items.len() == 0 {
        Seq::empty()
    } else {
        candidates_code(items.drop_last(), labels) + candidate_code(items.last(), labels[items.len() - 1])
    }
}

/// The destination of a line group item: the destination is popped, the item marked
/// seen, its line run, its statements run, and the group left for `end`.
pub open spec fn line_destination_code(item: OptionItem, end: Seq<char>) -> Seq<InstructionView> {
    seq![bare_v(OpCode::Pop)] + mark_seen_code(item) + code_view(item.text_code@) + seq![
        ins(
            OpCode::RunLine,
            seq![OperandView::Str(item.line_id@), OperandView::Float(count_bits(item.expression_count as nat))],
        ),
    ] + code_view(item.body@) + seq![jump_to_v(end)]
}

/// The destinations of the items of a line group, in order.
pub open spec fn line_destinations_code(items: Seq<OptionItem>, end: Seq<char>) -> Seq<InstructionView>
    decreases items.len(),
{
    if items.len() == 0 {
        Seq::empty()
    } else {
        line_destinations_code(items.drop_last(), end) + line_destination_code(items.last(), end)
    }
}

/// The code of a line group.
pub open spec fn line_group_code(items: Seq<OptionItem>, labels: Seq<Seq<char>>, end: Seq<char>) -> Seq<InstructionView> {
    candidates_code(items, labels) + choice_code(OpCode::SelectSaliencyCandidate, end) + line_destinations_code(
        items,
        end,
    )
}

/// The labels of a line group whose code starts at instruction `start`: each item's
/// label at its destination, then `end` after the group.
pub open spec fn line_group_labels(items: Seq<OptionItem>, labels: Seq<Seq<char>>, end: Seq<char>, start: nat) -> Seq<
    (Seq<char>, nat),
> {
    Seq::new(
        items.len(),
        |i: int|
            (
                labels[i],
                (start + candidates_code(items, labels).len() + 4 + line_destinations_code(
                    items.subrange(0, i),
                    end,
                ).len()) as nat,
            ),
    ).push((end, start + line_group_code(items, labels, end).len()))
}

/// The bits of the number `n`.
fn count_float(n: u128) -> (r: u32)
    requires
        n < 0x8000_0000_0000_0000_0000_0000_0000_0000,
    ensures
        r == count_bits(n as nat),
{
    crate::number::round_to_bits(false, n, 1, 0)
}

/// An instruction of opcode `op` with the given operands.
fn make_ins(op: OpCode, operands: Vec<Operand>) -> (r: Instruction)
    ensures
        r@ == ins(op, operands@.map_values(|o: Operand| o@)),
{
    Instruction { opcode: op.number(), operands }
}

/// Appends copies of the instructions of `code` to `out`.
fn append_copy(out: &mut Vec<Instruction>, code: &Vec<Instruction>)
    ensures
        code_view(final(out)@) == code_view(old(out)@) + code_view(code@),
{
    let ghost start = code_view(out@);
    let mut i: usize = 0;
    while i < code.len()
        invariant
            i <= code@.len(),
            code_view(out@) == start + code_view(code@.subrange(0, i as int)),
        decreases code.len() - i,
    {
        let ghost before = code_view(out@);
        push_code(out, code[i].duplicate());
        assert(code_view(code@.subrange(0, i + 1)) =~= code_view(code@.subrange(0, i as int)).push(code@[i as int]@));
        assert(code_view(out@) =~= start + code_view(code@.subrange(0, i + 1)));
        i = i + 1;
    }
    assert(code@.subrange(0, i as int) =~= code@);
}

/// Appends the code of an item's condition.
fn emit_condition(out: &mut Vec<Instruction>, item: &OptionItem)
    ensures
        code_view(final(out)@) == code_view(old(out)@) + condition_code(*item),
{
    let ghost start = code_view(out@);
    match &item.condition {
        OptionCondition::Always => {
            assert(code_view(out@) =~= start + condition_code(*item));
        },
        OptionCondition::If(c, _) => {
            append_copy(out, c);
        },
        OptionCondition::Once => {
            let mut name = String::from_str("$Yarn.Internal.Once.");
            name.append(item.line_id.as_str());
            proof {
                reveal_strlit("$Yarn.Internal.Once.");
            }
            push_code(out, string_ins(OpCode::PushVariable, name));
            push_call(out, 0x3f80_0000, "Bool.Not");
            assert(code_view(out@) =~= start + condition_code(*item));
        },
        OptionCondition::OnceIf(c, _) => {
            let mut name = String::from_str("$Yarn.Internal.Once.");
            name.append(item.line_id.as_str());
            proof {
                reveal_strlit("$Yarn.Internal.Once.");
            }
            push_code(out, string_ins(OpCode::PushVariable, name));
            push_call(out, 0x3f80_0000, "Bool.Not");
            append_copy(out, c);
            push_call(out, 0x4000_0000, "Bool.And");
            assert(code_view(out@) =~= start + condition_code(*item));
        },
    }
}

/// Appends the code that chooses with `choose`.
fn emit_choice(out: &mut Vec<Instruction>, choose: OpCode, end: &str)
    ensures
        code_view(final(out)@) == code_view(old(out)@) + choice_code(choose, end@),
{
    let ghost start = code_view(out@);
    push_code(out, bare_ins(choose));
    push_code(out, string_ins(OpCode::JumpIfFalse, String::from_str(end)));
    push_code(out, bare_ins(OpCode::Pop));
    push_code(out, bare_ins(OpCode::PeekAndJump));
    assert(code_view(out@) =~= start + choice_code(choose, end@));
}

/// Appends the code that marks an item seen, where it is held to once.
fn emit_mark_seen(out: &mut Vec<Instruction>, item: &OptionItem)
    ensures
        code_view(final(out)@) == code_view(old(out)@) + mark_seen_code(*item),
{
    let ghost start = code_view(out@);
    let once = match &item.condition {
        OptionCondition::Once => true,
        OptionCondition::OnceIf(_, _) => true,
        _ => false,
    };
    if once {
        let mut name = String::from_str("$Yarn.Internal.Once.");
        name.append(item.line_id.as_str());
        proof {
            reveal_strlit("$Yarn.Internal.Once.");
        }
        push_code(out, push_bool_ins(true));
        push_code(out, string_ins(OpCode::StoreVariable, name));
        push_code(out, bare_ins(OpCode::Pop));
    }
    assert(code_view(out@) =~= start + mark_seen_code(*item));
}

/// The code of a group of shortcut options whose code starts at instruction `start`,
/// the `i`-th option leading to `labels[i]` and the group ending at `end`; with the
/// labels and the instructions they mark.
pub fn emit_standard_options(items: &Vec<OptionItem>, labels: &Vec<String>, end: &str, start: usize) -> (r: (
    Vec<Instruction>,
    Vec<(String, usize)>,
))
    requires
        labels@.len() == items@.len(),
        start + standard_options_code(items@, names_view(labels@), end@).len() <= usize::MAX,
    ensures
        code_view(r.0@) == standard_options_code(items@, names_view(labels@), end@),
        labels_view(r.1@) == standard_option_labels(items@, names_view(labels@), end@, start as nat),
{
    let ghost lv = names_view(labels@);
    let ghost total = standard_options_code(items@, lv, end@);
    let mut out: Vec<Instruction> = Vec::new();
    let mut i: usize = 0;
    assert(code_view(out@) =~= offers_code(items@.subrange(0, 0), lv));
    while i < items.len()
        invariant
            lv == names_view(labels@),
            labels@.len() == items@.len(),
            i <= items@.len(),
            code_view(out@) == offers_code(items@.subrange(0, i as int), lv),
        decreases items.len() - i,
    {
        let item = &items[i];
        let ghost before = code_view(out@);
        emit_condition(&mut out, item);
        append_copy(&mut out, &item.text_code);
        let count = count_float(item.expression_count as u128);
        let mut operands: Vec<Operand> = Vec::new();
        operands.push(Operand::StringValue(item.line_id.clone()));
        operands.push(Operand::StringValue(labels[i].clone()));
        operands.push(Operand::FloatValue(FloatBits(count)));
        operands.push(Operand::BoolValue(!(match &item.condition {
            OptionCondition::Always => true,
            _ => false,
        })));
        let add = make_ins(OpCode::AddOption, operands);
        assert(add@ == add_option_v(*item, lv[i as int])) by {
            assert(add@.operands =~= seq![
                OperandView::Str(item.line_id@),
                OperandView::Str(lv[i as int]),
                OperandView::Float(count_bits(item.expression_count as nat)),
                OperandView::Bool(!(item.condition is Always)),
            ]);
        }
        push_code(&mut out, add);
        let ghost upto = items@.subrange(0, i + 1);
        assert(upto.drop_last() =~= items@.subrange(0, i as int));
        assert(upto.last() == *item);
        assert(code_view(out@) =~= offers_code(upto, lv));
        i = i + 1;
    }
    assert(items@.subrange(0, i as int) =~= items@);
    let ghost offers = code_view(out@);
    emit_choice(&mut out, OpCode::ShowOptions, end);
    let mut marks: Vec<(String, usize)> = Vec::new();
    let mut j: usize = 0;
    assert(option_destinations_code(items@.subrange(0, 0), end@) =~= Seq::<InstructionView>::empty());
    while j < items.len()
        invariant
            lv == names_view(labels@),
            labels@.len() == items@.len(),
            j <= items@.len(),
            total == standard_options_code(items@, lv, end@),
            offers == offers_code(items@, lv),
            start + total.len() <= usize::MAX,
            code_view(out@) == offers + choice_code(OpCode::ShowOptions, end@) + option_destinations_code(
                items@.subrange(0, j as int),
                end@,
            ),
            marks@.len() == j,
            forall|k: int|
                0 <= k < j ==> #[trigger] labels_view(marks@)[k] == standard_option_labels(items@, lv, end@, start as nat)[k],
        decreases items.len() - j,
    {
        let item = &items[j];
        let ghost before = code_view(out@);
        proof {
            lemma_destinations_prefix(items@, end@, j as int);
        }
        assert(out@.len() == code_view(out@).len());
        assert(choice_code(OpCode::ShowOptions, end@).len() == 4);
        assert(total == offers + choice_code(OpCode::ShowOptions, end@) + option_destinations_code(items@, end@));
        let position = start + out.len();
        let ghost prev_marks = marks@;
        let label = labels[j].clone();
        assert(label@ == lv[j as int]);
        marks.push((label, position));
        assert(labels_view(marks@) =~= labels_view(prev_marks).push((lv[j as int], position as nat)));
        assert(position == start + offers.len() + 4 + option_destinations_code(items@.subrange(0, j as int), end@).len());
        assert(labels_view(marks@)[j as int] == standard_option_labels(items@, lv, end@, start as nat)[j as int]);
        assert forall|k: int| 0 <= k < j + 1 implies #[trigger] labels_view(marks@)[k] == standard_option_labels(
            items@,
            lv,
            end@,
            start as nat,
        )[k] by {
            if k < j {
                assert(labels_view(marks@)[k] == labels_view(prev_marks)[k]);
            }
        }
        push_code(&mut out, bare_ins(OpCode::Pop));
        emit_mark_seen(&mut out, item);
        append_copy(&mut out, &item.body);
        push_code(&mut out, string_ins(OpCode::JumpTo, String::from_str(end)));
        let ghost upto = items@.subrange(0, j + 1);
        assert(upto.drop_last() =~= items@.subrange(0, j as int));
        assert(upto.last() == *item);
        assert(code_view(out@) =~= offers + choice_code(OpCode::ShowOptions, end@) + option_destinations_code(upto, end@));
        j = j + 1;
    }
    assert(items@.subrange(0, j as int) =~= items@);
    assert(code_view(out@) == total);
    assert(out@.len() == code_view(out@).len());
    let end_position = start + out.len();
    let ghost prev_marks = marks@;
    marks.push((String::from_str(end), end_position));
    assert(labels_view(marks@) =~= labels_view(prev_marks).push((end@, end_position as nat)));
    assert(standard_option_labels(items@, lv, end@, start as nat).len() == items@.len() + 1);
    assert forall|k: int| 0 <= k < items@.len() + 1 implies #[trigger] labels_view(marks@)[k] == standard_option_labels(
        items@,
        lv,
        end@,
        start as nat,
    )[k] by {
        if k < items@.len() {
            assert(labels_view(marks@)[k] == labels_view(prev_marks)[k]);
        }
    }
    assert(labels_view(marks@) =~= standard_option_labels(items@, lv, end@, start as nat));
    (out, marks)
}

/// The code of the destinations of the first `j` options is a prefix of that of all.
proof fn lemma_destinations_prefix(items: Seq<OptionItem>, end: Seq<char>, j: int)
    requires
        0 <= j < items.len(),
    ensures
        option_destinations_code(items.subrange(0, j), end).len() + option_destination_code(items[j], end).len()
            <= option_destinations_code(items, end).len(),
        line_destinations_code(items.subrange(0, j), end).len() + line_destination_code(items[j], end).len()
            <= line_destinations_code(items, end).len(),
    decreases items.len(),
{
    if j < items.len() - 1 {
        lemma_destinations_prefix(items.drop_last(), end, j);
        assert(items.drop_last().subrange(0, j) =~= items.subrange(0, j));
        assert(items.drop_last()[j] == items[j]);
    } else {
        assert(items.drop_last() =~= items.subrange(0, j));
    }
}

/// The code of a line group whose code starts at instruction `start`, the `i`-th item
/// leading to `labels[i]` and the group ending at `end`; with the labels and the
/// instructions they mark.
pub fn emit_line_group_saliency(items: &Vec<OptionItem>, labels: &Vec<String>, end: &str, start: usize) -> (r: (
    Vec<Instruction>,
    Vec<(String, usize)>,
))
    requires
        labels@.len() == items@.len(),
        start + line_group_code(items@, names_view(labels@), end@).len() <= usize::MAX,
    ensures
        code_view(r.0@) == line_group_code(items@, names_view(labels@), end@),
        labels_view(r.1@) == line_group_labels(items@, names_view(labels@), end@, start as nat),
{
    let ghost lv = names_view(labels@);
    let ghost total = line_group_code(items@, lv, end@);
    let mut out: Vec<Instruction> = Vec::new();
    let mut i: usize = 0;
    assert(code_view(out@) =~= candidates_code(items@.subrange(0, 0), lv));
    while i < items.len()
        invariant
            lv == names_view(labels@),
            labels@.len() == items@.len(),
            i <= items@.len(),
            code_view(out@) == candidates_code(items@.subrange(0, i as int), lv),
        decreases items.len() - i,
    {
        let item = &items[i];
        let ghost before = code_view(out@);
        let complexity: u128 = match &item.condition {
            OptionCondition::Always => {
                push_code(&mut out, push_bool_ins(true));
                0
            },
            OptionCondition::If(_, k) => {
                emit_condition(&mut out, item);
                (*k as u128) + 1
            },
            OptionCondition::Once => {
                emit_condition(&mut out, item);
                1
            },
            OptionCondition::OnceIf(_, k) => {
                emit_condition(&mut out, item);
                (*k as u128) + 2
            },
        };
        assert(complexity == condition_complexity(item.condition));
        let bits = count_float(complexity);
        let mut operands: Vec<Operand> = Vec::new();
        operands.push(Operand::StringValue(item.line_id.clone()));
        operands.push(Operand::FloatValue(FloatBits(bits)));
        operands.push(Operand::StringValue(labels[i].clone()));
        let add = make_ins(OpCode::AddSaliencyCandidate, operands);
        let ghost candidate = ins(
            OpCode::AddSaliencyCandidate,
            seq![
                OperandView::Str(item.line_id@),
                OperandView::Float(count_bits(condition_complexity(item.condition))),
                OperandView::Str(lv[i as int]),
            ],
        );
        assert(add@ == candidate) by {
            assert(add@.operands =~= candidate.operands);
        }
        push_code(&mut out, add);
        let ghost upto = items@.subrange(0, i + 1);
        assert(upto.drop_last() =~= items@.subrange(0, i as int));
        assert(upto.last() == *item);
        assert(code_view(out@) =~= candidates_code(upto, lv));
        i = i + 1;
    }
    assert(items@.subrange(0, i as int) =~= items@);
    let ghost offers = code_view(out@);
    emit_choice(&mut out, OpCode::SelectSaliencyCandidate, end);
    let mut marks: Vec<(String, usize)> = Vec::new();
    let mut j: usize = 0;
    assert(line_destinations_code(items@.subrange(0, 0), end@) =~= Seq::<InstructionView>::empty());
    while j < items.len()
        invariant
            lv == names_view(labels@),
            labels@.len() == items@.len(),
            j <= items@.len(),
            total == line_group_code(items@, lv, end@),
            offers == candidates_code(items@, lv),
            start + total.len() <= usize::MAX,
            code_view(out@) == offers + choice_code(OpCode::SelectSaliencyCandidate, end@) + line_destinations_code(
                items@.subrange(0, j as int),
                end@,
            ),
            marks@.len() == j,
            forall|k: int|
                0 <= k < j ==> #[trigger] labels_view(marks@)[k] == line_group_labels(items@, lv, end@, start as nat)[k],
        decreases items.len() - j,
    {
        let item = &items[j];
        proof {
            lemma_destinations_prefix(items@, end@, j as int);
        }
        assert(out@.len() == code_view(out@).len());
        assert(choice_code(OpCode::SelectSaliencyCandidate, end@).len() == 4);
        assert(total == offers + choice_code(OpCode::SelectSaliencyCandidate, end@) + line_destinations_code(items@, end@));
        let position = start + out.len();
        let ghost prev_marks = marks@;
        let label = labels[j].clone();
        assert(label@ == lv[j as int]);
        marks.push((label, position));
        assert(labels_view(marks@) =~= labels_view(prev_marks).push((lv[j as int], position as nat)));
        assert(position == start + offers.len() + 4 + line_destinations_code(items@.subrange(0, j as int), end@).len());
        assert(labels_view(marks@)[j as int] == line_group_labels(items@, lv, end@, start as nat)[j as int]);
        assert forall|k: int| 0 <= k < j + 1 implies #[trigger] labels_view(marks@)[k] == line_group_labels(
            items@,
            lv,
            end@,
            start as nat,
        )[k] by {
            if k < j {
                assert(labels_view(marks@)[k] == labels_view(prev_marks)[k]);
            }
        }
        push_code(&mut out, bare_ins(OpCode::Pop));
        emit_mark_seen(&mut out, item);
        append_copy(&mut out, &item.text_code);
        let count = count_float(item.expression_count as u128);
        let mut operands: Vec<Operand> = Vec::new();
        operands.push(Operand::StringValue(item.line_id.clone()));
        operands.push(Operand::FloatValue(FloatBits(count)));
        let run = make_ins(OpCode::RunLine, operands);
        let ghost run_v = ins(
            OpCode::RunLine,
            seq![OperandView::Str(item.line_id@), OperandView::Float(count_bits(item.expression_count as nat))],
        );
        assert(run@ == run_v) by {
            assert(run@.operands =~= run_v.operands);
        }
        push_code(&mut out, run);
        append_copy(&mut out, &item.body);
        push_code(&mut out, string_ins(OpCode::JumpTo, String::from_str(end)));
        let ghost upto = items@.subrange(0, j + 1);
        assert(upto.drop_last() =~= items@.subrange(0, j as int));
        assert(upto.last() == *item);
        assert(code_view(out@) =~= offers + choice_code(OpCode::SelectSaliencyCandidate, end@) + line_destinations_code(
            upto,
            end@,
        ));
        j = j + 1;
    }
    assert(items@.subrange(0, j as int) =~= items@);
    assert(code_view(out@) == total);
    assert(out@.len() == code_view(out@).len());
    let end_position = start + out.len();
    let ghost prev_marks = marks@;
    marks.push((String::from_str(end), end_position));
    assert(labels_view(marks@) =~= labels_view(prev_marks).push((end@, end_position as nat)));
    assert(line_group_labels(items@, lv, end@, start as nat).len() == items@.len() + 1);
    assert forall|k: int| 0 <= k < items@.len() + 1 implies #[trigger] labels_view(marks@)[k] == line_group_labels(
        items@,
        lv,
        end@,
        start as nat,
    )[k] by {
        if k < items@.len() {
            assert(labels_view(marks@)[k] == labels_view(prev_marks)[k]);
        }
    }
    assert(labels_view(marks@) =~= line_group_labels(items@, lv, end@, start as nat));
    (out, marks)
}

} // verus!
