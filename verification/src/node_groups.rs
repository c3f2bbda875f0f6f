//! Node groups: the hub node that the compiler synthesises for every group of nodes
//! sharing a title. The hub evaluates each member's `when:` conditions, offers every
//! member as a saliency candidate, lets the saliency strategy pick one, and detours
//! into the winner.
use vstd::prelude::*;

use crate::number::{power_of_ten, rounded};
use crate::library::{visiting_prefix, Library};
use crate::line_tags::{contains_str, string_set};
use crate::program::{
    lemma_node_index, lemma_node_index_at, node_index, node_named, opcode_number, FloatBits, Instruction, InstructionView,
    Label, Node, NodeView, OpCode, Operand, OperandView, Program,
};
use crate::text::{alphabetic, alphanumeric, is_alphabetic, is_alphanumeric, is_whitespace, trim, whitespace};

verus! {

/// A token of a `when:` condition. Positions are character indices into the text.
#[derive(Debug, Clone, Copy, PartialEq, Eq, Structural)]
pub enum GroupToken {
    /// `true`, `always` or `false`.
    Bool(bool),
    /// A run of digits and dots, from `start` up to `end`.
    Num(usize, usize),
    /// A `$` variable; its name after the `$` runs from `start` up to `end`.
    Var(usize, usize),
    /// A name, from `start` up to `end`.
    Ident(usize, usize),
    /// `not`.
    Not,
    /// `and` or `&&`.
    And,
    /// `or` or `||`.
    Or,
    /// `+`.
    Plus,
    /// `-`.
    Minus,
    /// `*`.
    Star,
    /// `/`.
    Slash,
    /// `==`.
    EqEq,
    /// `!=`.
    Ne,
    /// `<`.
    Lt,
    /// `<=`.
    Le,
    /// `>`.
    Gt,
    /// `>=`.
    Ge,
    /// `(`.
    LParen,
    /// `)`.
    RParen,
    /// `,`.
    Comma,
    /// The end of the text.
    Eof,
}

/// Whether `c` is an ASCII digit.
pub open spec fn is_digit(c: char) -> bool {
    '0' <= c <= '9'
}

/// Whether `c` continues a name: alphanumeric or `_`.
pub open spec fn name_char(c: char) -> bool {
    alphanumeric(c) || c == '_'
}

/// The first position from `i` on whose character does not continue a name.
pub open spec fn name_end(s: Seq<char>, i: int) -> int
    decreases s.len() - i,
{
    if 0 <= i < s.len() && name_char(s[i]) {
        name_end(s, i + 1)
    } else {
        i
    }
}

/// The first position from `i` on whose character is neither a digit nor `.`.
pub open spec fn literal_end(s: Seq<char>, i: int) -> int
    decreases s.len() - i,
{
    if 0 <= i < s.len() && (is_digit(s[i]) || s[i] == '.') {
        literal_end(s, i + 1)
    } else {
        i
    }
}

/// The scans of names and number literals stay within the text.
pub proof fn lemma_scan_bounds(s: Seq<char>, i: int)
    requires
        0 <= i <= s.len(),
    ensures
        i <= name_end(s, i) <= s.len(),
        i <= literal_end(s, i) <= s.len(),
    decreases s.len() - i,
{
    if i < s.len() {
        lemma_scan_bounds(s, i + 1);
    }
}

/// Whether the characters of `s` from `a` to `b` spell `word`.
pub open spec fn spells_at(s: Seq<char>, a: int, b: int, word: Seq<char>) -> bool {
    s.subrange(a, b) == word
}

/// The token that the word from `a` to `b` of `s` makes.
pub open spec fn word_token(s: Seq<char>, a: int, b: int) -> GroupToken {
    if spells_at(s, a, b, seq!['t', 'r', 'u', 'e']) || spells_at(s, a, b, seq!['a', 'l', 'w', 'a', 'y', 's']) {
        GroupToken::Bool(true)
    } else if spells_at(s, a, b, seq!['f', 'a', 'l', 's', 'e']) {
        GroupToken::Bool(false)
    } else if spells_at(s, a, b, seq!['n', 'o', 't']) {
        GroupToken::Not
    } else if spells_at(s, a, b, seq!['a', 'n', 'd']) {
        GroupToken::And
    } else if spells_at(s, a, b, seq!['o', 'r']) {
        GroupToken::Or
    } else {
        GroupToken::Ident(a as usize, b as usize)
    }
}

/// Whether `s` has the character `c` at position `i`.
pub open spec fn char_at(s: Seq<char>, i: int, c: char) -> bool {
    0 <= i < s.len() && s[i] == c
}

/// The token of a single character `c`, where one stands alone.
pub open spec fn single_token(c: char) -> Option<GroupToken> {
    if c == '(' {
        Some(GroupToken::LParen)
    } else if c == ')' {
        Some(GroupToken::RParen)
    } else if c == ',' {
        Some(GroupToken::Comma)
    } else if c == '+' {
        Some(GroupToken::Plus)
    } else if c == '-' {
        Some(GroupToken::Minus)
    } else if c == '*' {
        Some(GroupToken::Star)
    } else if c == '/' {
        Some(GroupToken::Slash)
    } else {
        None
    }
}

/// The token of the two characters at `i`, where they make one.
pub open spec fn pair_token(s: Seq<char>, i: int) -> Option<GroupToken> {
    if char_at(s, i, '=') && char_at(s, i + 1, '=') {
        Some(GroupToken::EqEq)
    } else if char_at(s, i, '!') && char_at(s, i + 1, '=') {
        Some(GroupToken::Ne)
    } else if char_at(s, i, '&') && char_at(s, i + 1, '&') {
        Some(GroupToken::And)
    } else if char_at(s, i, '|') && char_at(s, i + 1, '|') {
        Some(GroupToken::Or)
    } else if char_at(s, i, '<') && char_at(s, i + 1, '=') {
        Some(GroupToken::Le)
    } else if char_at(s, i, '>') && char_at(s, i + 1, '=') {
        Some(GroupToken::Ge)
    } else {
        None
    }
}

/// The tokens of `s` from position `i` on, ending with `Eof`. White space and
/// characters that start no token are skipped. A name's first character is a letter
/// or `_`, and it goes on over alphanumeric characters and `_`.
pub open spec fn group_tokens_from(s: Seq<char>, i: int) -> Seq<GroupToken>
    decreases s.len() - i,
{
    if i < 0 || i >= s.len() {
        seq![GroupToken::Eof]
    } else if is_whitespace(s[i]) {
        group_tokens_from(s, i + 1)
    } else if single_token(s[i]) is Some {
        seq![single_token(s[i])->0] + group_tokens_from(s, i + 1)
    } else if pair_token(s, i) is Some {
        seq![pair_token(s, i)->0] + group_tokens_from(s, i + 2)
    } else if s[i] == '<' {
        seq![GroupToken::Lt] + group_tokens_from(s, i + 1)
    } else if s[i] == '>' {
        seq![GroupToken::Gt] + group_tokens_from(s, i + 1)
    } else if s[i] == '$' {
        let e = name_end(s, i + 1);
        proof {
            lemma_scan_bounds(s, i + 1);
        }
        seq![GroupToken::Var((i + 1) as usize, e as usize)] + group_tokens_from(s, e)
    } else if is_digit(s[i]) || s[i] == '.' {
        let e = literal_end(s, i + 1);
        proof {
            lemma_scan_bounds(s, i + 1);
        }
        seq![GroupToken::Num(i as usize, e as usize)] + group_tokens_from(s, e)
    } else if alphabetic(s[i]) || s[i] == '_' {
        let e = name_end(s, i + 1);
        proof {
            lemma_scan_bounds(s, i + 1);
        }
        seq![word_token(s, i, e)] + group_tokens_from(s, e)
    } else {
        group_tokens_from(s, i + 1)
    }
}

fn scan_name(s: &Vec<char>, i: usize) -> (r: usize)
    requires
        i <= s@.len(),
    ensures
        r == name_end(s@, i as int),
{
    let mut j = i;
    while j < s.len() && (is_alphanumeric(s[j]) || s[j] == '_')
        invariant
            i <= j <= s@.len(),
            name_end(s@, i as int) == name_end(s@, j as int),
        decreases s@.len() - j,
    {
        j = j + 1;
    }
    j
}

fn scan_literal(s: &Vec<char>, i: usize) -> (r: usize)
    requires
        i <= s@.len(),
    ensures
        r == literal_end(s@, i as int),
{
    let mut j = i;
    while j < s.len() && (('0' <= s[j] && s[j] <= '9') || s[j] == '.')
        invariant
            i <= j <= s@.len(),
            literal_end(s@, i as int) == literal_end(s@, j as int),
        decreases s@.len() - j,
    {
        j = j + 1;
    }
    j
}

fn spells_chars(s: &Vec<char>, a: usize, b: usize, word: &str) -> (r: bool)
    requires
        a <= b <= s@.len(),
    ensures
        r == spells_at(s@, a as int, b as int, word@),
{
    let n = word.unicode_len();
    if b - a != n {
        return false;
    }
    let mut k: usize = 0;
    while k < n
        invariant
            n == word@.len(),
            b - a == n,
            a <= b <= s@.len(),
            k <= n,
            forall|j: int| 0 <= j < k ==> s@[a + j] == word@[j],
        decreases n - k,
    {
        if s[a + k] != word.get_char(k) {
            assert(s@.subrange(a as int, b as int)[k as int] != word@[k as int]);
            return false;
        }
        k = k + 1;
    }
    assert(s@.subrange(a as int, b as int) =~= word@);
    true
}

fn classify_word(s: &Vec<char>, a: usize, b: usize) -> (r: GroupToken)
    requires
        a <= b <= s@.len(),
    ensures
        r == word_token(s@, a as int, b as int),
{
    proof {
        reveal_strlit("true");
        reveal_strlit("always");
        reveal_strlit("false");
        reveal_strlit("not");
        reveal_strlit("and");
        reveal_strlit("or");
        assert("true"@ =~= seq!['t', 'r', 'u', 'e']);
        assert("always"@ =~= seq!['a', 'l', 'w', 'a', 'y', 's']);
        assert("false"@ =~= seq!['f', 'a', 'l', 's', 'e']);
        assert("not"@ =~= seq!['n', 'o', 't']);
        assert("and"@ =~= seq!['a', 'n', 'd']);
        assert("or"@ =~= seq!['o', 'r']);
    }
    if spells_chars(s, a, b, "true") || spells_chars(s, a, b, "always") {
        GroupToken::Bool(true)
    } else if spells_chars(s, a, b, "false") {
        GroupToken::Bool(false)
    } else if spells_chars(s, a, b, "not") {
        GroupToken::Not
    } else if spells_chars(s, a, b, "and") {
        GroupToken::And
    } else if spells_chars(s, a, b, "or") {
        GroupToken::Or
    } else {
        GroupToken::Ident(a, b)
    }
}

fn single_of(c: char) -> (r: Option<GroupToken>)
    ensures
        r == single_token(c),
{
    if c == '(' {
        Some(GroupToken::LParen)
    } else if c == ')' {
        Some(GroupToken::RParen)
    } else if c == ',' {
        Some(GroupToken::Comma)
    } else if c == '+' {
        Some(GroupToken::Plus)
    } else if c == '-' {
        Some(GroupToken::Minus)
    } else if c == '*' {
        Some(GroupToken::Star)
    } else if c == '/' {
        Some(GroupToken::Slash)
    } else {
        None
    }
}

fn pair_of(s: &Vec<char>, i: usize) -> (r: Option<GroupToken>)
    requires
        i < s@.len(),
    ensures
        r == pair_token(s@, i as int),
{
    if s.len() - i < 2 {
        return None;
    }
    let c = s[i];
    let d = s[i + 1];
    if c == '=' && d == '=' {
        Some(GroupToken::EqEq)
    } else if c == '!' && d == '=' {
        Some(GroupToken::Ne)
    } else if c == '&' && d == '&' {
        Some(GroupToken::And)
    } else if c == '|' && d == '|' {
        Some(GroupToken::Or)
    } else if c == '<' && d == '=' {
        Some(GroupToken::Le)
    } else if c == '>' && d == '=' {
        Some(GroupToken::Ge)
    } else {
        None
    }
}

/// The tokens of a `when:` condition, ending with `Eof`.
pub fn tokenize(s: &Vec<char>) -> (r: Vec<GroupToken>)
    ensures
        r@ == group_tokens_from(s@, 0),
{
    let mut out: Vec<GroupToken> = Vec::new();
    let mut i: usize = 0;
    let ghost t = s@;
    while i < s.len()
        invariant
            t == s@,
            i <= t.len(),
            out@ + group_tokens_from(t, i as int) == group_tokens_from(t, 0),
        decreases t.len() - i,
    {
        let c = s[i];
        let ghost before = out@;
        proof {
            lemma_scan_bounds(t, i as int + 1);
        }
        if whitespace(c) {
            i = i + 1;
        } else if let Some(tok) = single_of(c) {
            out.push(tok);
            assert(out@ + group_tokens_from(t, i + 1) =~= before + group_tokens_from(t, i as int));
            i = i + 1;
        } else if let Some(tok) = pair_of(s, i) {
            out.push(tok);
            assert(out@ + group_tokens_from(t, i + 2) =~= before + group_tokens_from(t, i as int));
            i = i + 2;
        } else if c == '<' || c == '>' {
            out.push(if c == '<' { GroupToken::Lt } else { GroupToken::Gt });
            assert(out@ + group_tokens_from(t, i + 1) =~= before + group_tokens_from(t, i as int));
            i = i + 1;
        } else if c == '$' {
            let e = scan_name(s, i + 1);
            out.push(GroupToken::Var(i + 1, e));
            assert(out@ + group_tokens_from(t, e as int) =~= before + group_tokens_from(t, i as int));
            i = e;
        } else if ('0' <= c && c <= '9') || c == '.' {
            let e = scan_literal(s, i + 1);
            out.push(GroupToken::Num(i, e));
            assert(out@ + group_tokens_from(t, e as int) =~= before + group_tokens_from(t, i as int));
            i = e;
        } else if is_alphabetic(c) || c == '_' {
            let e = scan_name(s, i + 1);
            out.push(classify_word(s, i, e));
            assert(out@ + group_tokens_from(t, e as int) =~= before + group_tokens_from(t, i as int));
            i = e;
        } else {
            i = i + 1;
        }
    }
    out.push(GroupToken::Eof);
    assert(out@ =~= group_tokens_from(t, 0));
    out
}

// ---------------------------------------------------------------------------
// Number literals
// ---------------------------------------------------------------------------

/// The number of `.` in `s`.
pub open spec fn dot_count(s: Seq<char>) -> nat
    decreases s.len(),
{
    if s.len() == 0 {
        0
    } else {
        dot_count(s.drop_last()) + if s.last() == '.' { 1nat } else { 0nat }
    }
}

/// The value of the digit `c`; zero for any other character.
pub open spec fn digit_value(c: char) -> nat {
    if is_digit(c) {
        (c as nat - '0' as nat) as nat
    } else {
        0
    }
}

/// The value of the digits of `s` read as one decimal number, dots skipped.
pub open spec fn digits_value(s: Seq<char>) -> nat
    decreases s.len(),
{
    if s.len() == 0 {
        0
    } else if s.last() == '.' {
        digits_value(s.drop_last())
    } else {
        digits_value(s.drop_last()) * 10 + digit_value(s.last())
    }
}

/// The number of digits after the last `.` of `s`; none where `s` has no `.`.
pub open spec fn fraction_digits(s: Seq<char>) -> nat
    decreases s.len(),
{
    if s.len() == 0 || s.last() == '.' || dot_count(s.drop_last()) == 0 {
        0
    } else {
        fraction_digits(s.drop_last()) + 1
    }
}

/// Whether a run of digits and dots is a decimal number: at most one dot, and at
/// least one digit.
pub open spec fn well_formed_literal(s: Seq<char>) -> bool {
    dot_count(s) <= 1 && dot_count(s) < s.len()
}

/// The bits of the 32-bit number that a run of digits and dots reads as: the
/// decimal rounded to the nearest number, ties to even; zero where the run is not a
/// decimal number.
pub open spec fn literal_value(s: Seq<char>) -> u32 {
    if well_formed_literal(s) {
        rounded(false, digits_value(s), power_of_ten(fraction_digits(s)), 0)
    } else {
        0
    }
}

/// Whether the literal `s` lies within what this library reads exactly: a decimal
/// whose digits, taken as one integer, stay below `2^127`, with at most nineteen
/// digits after the dot (any run that is not a decimal reads as zero).
pub open spec fn literal_in_range(s: Seq<char>) -> bool {
    well_formed_literal(s) ==> digits_value(s) < 0x8000_0000_0000_0000_0000_0000_0000_0000 && fraction_digits(s) <= 19
}

proof fn lemma_fraction_bound(s: Seq<char>)
    ensures
        fraction_digits(s) <= s.len(),
        dot_count(s) <= s.len(),
    decreases s.len(),
{
    if s.len() > 0 {
        lemma_fraction_bound(s.drop_last());
    }
}

fn ten_power(p: usize) -> (r: u128)
    requires
        p <= 19,
    ensures
        r == power_of_ten(p as nat),
        0 < r < 0x1_0000_0000_0000_0000,
{
    let mut r: u128 = 1;
    let mut i: usize = 0;
    proof {
        reveal_with_fuel(power_of_ten, 20);
        assert(power_of_ten(18) == 1_000_000_000_000_000_000);
        assert(power_of_ten(19) == 10_000_000_000_000_000_000);
    }
    while i < p
        invariant
            i <= p <= 19,
            r == power_of_ten(i as nat),
            power_of_ten(18) == 1_000_000_000_000_000_000,
        decreases p - i,
    {
        proof {
            lemma_power_of_ten_step(i as nat);
            lemma_power_of_ten_monotone(i as nat, 18);
        }
        r = r * 10;
        i = i + 1;
    }
    proof {
        lemma_power_of_ten_step(0);
        lemma_power_of_ten_monotone(p as nat, 19);
        reveal_with_fuel(power_of_ten, 20);
    }
    r
}

proof fn lemma_power_of_ten_step(p: nat)
    ensures
        power_of_ten(p + 1) == 10 * power_of_ten(p),
        power_of_ten(p) >= 1,
    decreases p,
{
    reveal_with_fuel(power_of_ten, 2);
    if p > 0 {
        lemma_power_of_ten_step((p - 1) as nat);
    }
}

proof fn lemma_power_of_ten_monotone(p: nat, q: nat)
    requires
        p <= q,
    ensures
        power_of_ten(p) <= power_of_ten(q),
    decreases q - p,
{
    if p < q {
        lemma_power_of_ten_monotone(p, (q - 1) as nat);
        lemma_power_of_ten_step((q - 1) as nat);
    }
}

/// The bits of the number literal from `a` to `b` of `s`; `None` where the literal
/// lies beyond what is read exactly (see [`literal_in_range`]).
pub fn literal_bits(s: &Vec<char>, a: usize, b: usize) -> (r: Option<u32>)
    requires
        a <= b <= s@.len(),
    ensures
        r is Some <==> literal_in_range(s@.subrange(a as int, b as int)),
        r is Some ==> r->0 == literal_value(s@.subrange(a as int, b as int)),
{
    let ghost lit = s@.subrange(a as int, b as int);
    let mut value: u128 = 0;
    let mut over = false;
    let mut dots: usize = 0;
    let mut frac: usize = 0;
    let mut i: usize = a;
    while i < b
        invariant
            a <= i <= b <= s@.len(),
            lit == s@.subrange(a as int, b as int),
            dots == dot_count(s@.subrange(a as int, i as int)),
            frac == fraction_digits(s@.subrange(a as int, i as int)),
            !over ==> value == digits_value(s@.subrange(a as int, i as int)),
            !over ==> value < 0x8000_0000_0000_0000_0000_0000_0000_0000,
            over ==> digits_value(s@.subrange(a as int, i as int)) >= 0x8000_0000_0000_0000_0000_0000_0000_0000,
        decreases b - i,
    {
        let ghost pre = s@.subrange(a as int, i as int);
        let ghost next = s@.subrange(a as int, i + 1);
        assert(next.drop_last() =~= pre);
        assert(next.last() == s@[i as int]);
        proof {
            lemma_fraction_bound(pre);
        }
        let c = s[i];
        if c == '.' {
            dots = dots + 1;
            frac = 0;
        } else {
            if dots > 0 {
                frac = frac + 1;
            }
            if !over {
                let d: u128 = if '0' <= c && c <= '9' { (c as u32 - '0' as u32) as u128 } else { 0 };
                if value >= 0x1999_9999_9999_9999_9999_9999_9999_9999 {
                    over = true;
                } else {
                    let v = value * 10 + d;
                    if v >= 0x8000_0000_0000_0000_0000_0000_0000_0000 {
                        over = true;
                    } else {
                        value = v;
                    }
                }
            }
        }
        i = i + 1;
    }
    assert(s@.subrange(a as int, b as int) =~= lit);
    if !(dots <= 1 && dots < b - a) {
        return Some(0);
    }
    if over || frac > 19 {
        return None;
    }
    let d = ten_power(frac);
    Some(crate::number::round_to_bits(false, value, d, 0))
}


// ---------------------------------------------------------------------------
// Instructions
// ---------------------------------------------------------------------------

/// The bits of the number 0.
pub open spec fn zero_bits() -> u32 {
    0
}

/// The bits of the number 1.
pub open spec fn one_bits() -> u32 {
    0x3f80_0000
}

/// The bits of the number 2.
pub open spec fn two_bits() -> u32 {
    0x4000_0000
}

/// An instruction of opcode `op` with the given operands.
pub open spec fn ins(op: OpCode, operands: Seq<OperandView>) -> InstructionView {
    InstructionView { opcode: opcode_number(op), operands }
}

/// Pushes the number with the given bits.
pub open spec fn push_float_v(bits: u32) -> InstructionView {
    ins(OpCode::PushFloat, seq![OperandView::Float(bits)])
}

/// Pushes a boolean.
pub open spec fn push_bool_v(b: bool) -> InstructionView {
    ins(OpCode::PushBool, seq![OperandView::Bool(b)])
}

/// Pushes a string.
pub open spec fn push_string_v(text: Seq<char>) -> InstructionView {
    ins(OpCode::PushString, seq![OperandView::Str(text)])
}

/// Pushes the value of a variable.
pub open spec fn push_var_v(name: Seq<char>) -> InstructionView {
    ins(OpCode::PushVariable, seq![OperandView::Str(name)])
}

/// Stores the top of the stack in a variable.
pub open spec fn store_var_v(name: Seq<char>) -> InstructionView {
    ins(OpCode::StoreVariable, seq![OperandView::Str(name)])
}

/// Calls a function.
pub open spec fn call_v(name: Seq<char>) -> InstructionView {
    ins(OpCode::CallFunc, seq![OperandView::Str(name)])
}

/// An instruction of opcode `op` without operands.
pub open spec fn bare_v(op: OpCode) -> InstructionView {
    ins(op, Seq::empty())
}

/// Calls the two-argument function `name`: the argument count, then the call.
pub open spec fn binary_call(name: Seq<char>) -> Seq<InstructionView> {
    seq![push_float_v(two_bits()), call_v(name)]
}

/// Calls the one-argument function `name`.
pub open spec fn unary_call(name: Seq<char>) -> Seq<InstructionView> {
    seq![push_float_v(one_bits()), call_v(name)]
}

/// The views of a list of instructions.
pub open spec fn code_view(v: Seq<Instruction>) -> Seq<InstructionView> {
    v.map_values(|i: Instruction| i@)
}

pub(crate) fn op_ins(op: OpCode, operand: Option<Operand>) -> (r: Instruction)
    ensures
        r@ == ins(
            op,
            match operand {
                Some(o) => seq![o@],
                None => Seq::empty(),
            },
        ),
{
    let mut operands: Vec<Operand> = Vec::new();
    match operand {
        Some(o) => {
            operands.push(o);
        },
        None => {},
    }
    let r = Instruction { opcode: op.number(), operands };
    assert(r@.operands =~= match operand {
        Some(o) => seq![o@],
        None => Seq::<OperandView>::empty(),
    });
    r
}

pub(crate) fn push_float_ins(bits: u32) -> (r: Instruction)
    ensures
        r@ == push_float_v(bits),
{
    op_ins(OpCode::PushFloat, Some(Operand::FloatValue(FloatBits(bits))))
}

pub(crate) fn push_bool_ins(b: bool) -> (r: Instruction)
    ensures
        r@ == push_bool_v(b),
{
    op_ins(OpCode::PushBool, Some(Operand::BoolValue(b)))
}

pub(crate) fn string_ins(op: OpCode, text: String) -> (r: Instruction)
    ensures
        r@ == ins(op, seq![OperandView::Str(text@)]),
{
    op_ins(op, Some(Operand::StringValue(text)))
}

pub(crate) fn bare_ins(op: OpCode) -> (r: Instruction)
    ensures
        r@ == bare_v(op),
{
    op_ins(op, None)
}

/// Appends the instructions of `more` to `out`.
pub(crate) fn append_code(out: &mut Vec<Instruction>, more: Vec<Instruction>)
    ensures
        code_view(final(out)@) == code_view(old(out)@) + code_view(more@),
{
    let mut more = more;
    let ghost m = more@;
    out.append(&mut more);
    assert(code_view(out@) =~= code_view(old(out)@) + code_view(m));
}

pub(crate) fn push_code(out: &mut Vec<Instruction>, i: Instruction)
    ensures
        code_view(final(out)@) == code_view(old(out)@).push(i@),
{
    out.push(i);
    assert(code_view(out@) =~= code_view(old(out)@).push(i@));
}

pub(crate) fn push_call(out: &mut Vec<Instruction>, count_bits: u32, name: &str)
    ensures
        code_view(final(out)@) == code_view(old(out)@) + seq![push_float_v(count_bits), call_v(name@)],
{
    let ghost before = code_view(out@);
    out.push(push_float_ins(count_bits));
    out.push(string_ins(OpCode::CallFunc, String::from_str(name)));
    assert(code_view(out@) =~= before + seq![push_float_v(count_bits), call_v(name@)]);
}


// ---------------------------------------------------------------------------
// Conditions
// ---------------------------------------------------------------------------

/// What a compiled condition is known to leave on the stack.
#[derive(Debug, Clone, Copy, PartialEq, Eq, Structural)]
pub enum ExprType {
    /// A boolean.
    Bool,
    /// A number.
    Number,
    /// Not known.
    Unknown,
}

/// The token at `p`, or `Eof` past the end.
pub open spec fn tok(t: Seq<GroupToken>, p: int) -> GroupToken {
    if 0 <= p < t.len() {
        t[p]
    } else {
        GroupToken::Eof
    }
}

/// The position after taking the token at `p`; the last token is never passed.
pub open spec fn advance(t: Seq<GroupToken>, p: int) -> int {
    if p + 1 < t.len() {
        p + 1
    } else {
        p
    }
}

/// Whether `p` is a position of `t`.
pub open spec fn in_tokens(t: Seq<GroupToken>, p: int) -> bool {
    0 <= p < t.len()
}

/// What a parse gives: where it stopped, the code, and what the code leaves.
pub type Parsed = (int, Seq<InstructionView>, ExprType);

/// The name of the comparison that a token stands for.
pub open spec fn comparison_name(k: GroupToken) -> Option<Seq<char>> {
    match k {
        GroupToken::EqEq => Some("EqualTo"@),
        GroupToken::Ne => Some("NotEqualTo"@),
        GroupToken::Lt => Some("LessThan"@),
        GroupToken::Le => Some("LessThanOrEqualTo"@),
        GroupToken::Gt => Some("GreaterThan"@),
        GroupToken::Ge => Some("GreaterThanOrEqualTo"@),
        _ => None,
    }
}

/// Wherever a condition spells a comparison, the token scanned there compiles to the
/// comparison of that meaning: `<` to `LessThan`, `<=` to `LessThanOrEqualTo`, `>` to
/// `GreaterThan`, `>=` to `GreaterThanOrEqualTo`, `==` to `EqualTo` and `!=` to
/// `NotEqualTo`.
pub proof fn law_comparison_symbols(s: Seq<char>, i: int)
    requires
        0 <= i < s.len(),
    ensures
        s[i] == '<' && !char_at(s, i + 1, '=') ==> comparison_name(group_tokens_from(s, i)[0]) == Some("LessThan"@),
        s[i] == '<' && char_at(s, i + 1, '=') ==> comparison_name(group_tokens_from(s, i)[0]) == Some(
            "LessThanOrEqualTo"@,
        ),
        s[i] == '>' && !char_at(s, i + 1, '=') ==> comparison_name(group_tokens_from(s, i)[0]) == Some(
            "GreaterThan"@,
        ),
        s[i] == '>' && char_at(s, i + 1, '=') ==> comparison_name(group_tokens_from(s, i)[0]) == Some(
            "GreaterThanOrEqualTo"@,
        ),
        s[i] == '=' && char_at(s, i + 1, '=') ==> comparison_name(group_tokens_from(s, i)[0]) == Some("EqualTo"@),
        s[i] == '!' && char_at(s, i + 1, '=') ==> comparison_name(group_tokens_from(s, i)[0]) == Some(
            "NotEqualTo"@,
        ),
{
    let c = s[i];
    if c == '<' || c == '>' || c == '=' || c == '!' {
        assert(!is_whitespace(c));
        assert(single_token(c) is None);
    }
}

/// The function that compares two values: `Number.` where either side is a number,
/// else `Bool.`, then the comparison's name.
pub open spec fn comparison_function(left: ExprType, right: ExprType, name: Seq<char>) -> Seq<char> {
    if left == ExprType::Number || right == ExprType::Number {
        "Number."@ + name
    } else {
        "Bool."@ + name
    }
}

/// The bits of the argument count `n`.
pub open spec fn count_bits(n: nat) -> u32 {
    rounded(false, n, 1, 0)
}

/// A condition at `pos`: `and`-terms joined by `or`.
pub open spec fn parse_or(t: Seq<GroupToken>, s: Seq<char>, pos: int) -> Parsed
    decreases t.len() - pos, 12int,
{
    if !in_tokens(t, pos) {
        (pos, Seq::empty(), ExprType::Unknown)
    } else {
        let (p, out, ty) = parse_and(t, s, pos);
        if p < pos || !in_tokens(t, p) {
            (p, out, ty)
        } else {
            or_tail(t, s, p, out, ty)
        }
    }
}

/// The `or`-terms that follow the code `out` at `p`.
pub open spec fn or_tail(t: Seq<GroupToken>, s: Seq<char>, p: int, out: Seq<InstructionView>, ty: ExprType) -> Parsed
    decreases t.len() - p, 11int,
{
    if !in_tokens(t, p) || tok(t, p) != GroupToken::Or || advance(t, p) <= p {
        (p, out, ty)
    } else {
        let q = advance(t, p);
        let (r, rhs, _) = parse_and(t, s, q);
        let code = out + rhs + binary_call("Bool.Or"@);
        if r < q || !in_tokens(t, r) {
            (r, code, ExprType::Bool)
        } else {
            or_tail(t, s, r, code, ExprType::Bool)
        }
    }
}

/// Comparisons joined by `and`.
pub open spec fn parse_and(t: Seq<GroupToken>, s: Seq<char>, pos: int) -> Parsed
    decreases t.len() - pos, 10int,
{
    if !in_tokens(t, pos) {
        (pos, Seq::empty(), ExprType::Unknown)
    } else {
        let (p, out, ty) = parse_comparison(t, s, pos);
        if p < pos || !in_tokens(t, p) {
            (p, out, ty)
        } else {
            and_tail(t, s, p, out, ty)
        }
    }
}

/// The `and`-terms that follow the code `out` at `p`.
pub open spec fn and_tail(t: Seq<GroupToken>, s: Seq<char>, p: int, out: Seq<InstructionView>, ty: ExprType) -> Parsed
    decreases t.len() - p, 9int,
{
    if !in_tokens(t, p) || tok(t, p) != GroupToken::And || advance(t, p) <= p {
        (p, out, ty)
    } else {
        let q = advance(t, p);
        let (r, rhs, _) = parse_comparison(t, s, q);
        let code = out + rhs + binary_call("Bool.And"@);
        if r < q || !in_tokens(t, r) {
            (r, code, ExprType::Bool)
        } else {
            and_tail(t, s, r, code, ExprType::Bool)
        }
    }
}

/// A sum, compared with a second one where a comparison follows.
pub open spec fn parse_comparison(t: Seq<GroupToken>, s: Seq<char>, pos: int) -> Parsed
    decreases t.len() - pos, 8int,
{
    if !in_tokens(t, pos) {
        (pos, Seq::empty(), ExprType::Unknown)
    } else {
        let (p, out, lty) = parse_add(t, s, pos);
        if p < pos || !in_tokens(t, p) || comparison_name(tok(t, p)) is None || advance(t, p) <= p {
            (p, out, lty)
        } else {
            let q = advance(t, p);
            let (r, rhs, rty) = parse_add(t, s, q);
            (
                r,
                out + rhs + binary_call(comparison_function(lty, rty, comparison_name(tok(t, p))->0)),
                ExprType::Bool,
            )
        }
    }
}

/// Products joined by `+` and `-`.
pub open spec fn parse_add(t: Seq<GroupToken>, s: Seq<char>, pos: int) -> Parsed
    decreases t.len() - pos, 7int,
{
    if !in_tokens(t, pos) {
        (pos, Seq::empty(), ExprType::Unknown)
    } else {
        let (p, out, ty) = parse_mul(t, s, pos);
        if p < pos || !in_tokens(t, p) {
            (p, out, ty)
        } else {
            add_tail(t, s, p, out, ty)
        }
    }
}

/// The terms that follow the code `out` at `p` after `+` or `-`.
pub open spec fn add_tail(t: Seq<GroupToken>, s: Seq<char>, p: int, out: Seq<InstructionView>, ty: ExprType) -> Parsed
    decreases t.len() - p, 6int,
{
    if !in_tokens(t, p) || (tok(t, p) != GroupToken::Plus && tok(t, p) != GroupToken::Minus) || advance(t, p) <= p {
        (p, out, ty)
    } else {
        let q = advance(t, p);
        let (r, rhs, _) = parse_mul(t, s, q);
        let name = if tok(t, p) == GroupToken::Plus { "Number.Add"@ } else { "Number.Subtract"@ };
        let code = out + rhs + binary_call(name);
        if r < q || !in_tokens(t, r) {
            (r, code, ExprType::Number)
        } else {
            add_tail(t, s, r, code, ExprType::Number)
        }
    }
}

/// Unary terms joined by `*` and `/`.
pub open spec fn parse_mul(t: Seq<GroupToken>, s: Seq<char>, pos: int) -> Parsed
    decreases t.len() - pos, 5int,
{
    if !in_tokens(t, pos) {
        (pos, Seq::empty(), ExprType::Unknown)
    } else {
        let (p, out, ty) = parse_unary(t, s, pos);
        if p < pos || !in_tokens(t, p) {
            (p, out, ty)
        } else {
            mul_tail(t, s, p, out, ty)
        }
    }
}

/// The terms that follow the code `out` at `p` after `*` or `/`.
pub open spec fn mul_tail(t: Seq<GroupToken>, s: Seq<char>, p: int, out: Seq<InstructionView>, ty: ExprType) -> Parsed
    decreases t.len() - p, 4int,
{
    if !in_tokens(t, p) || (tok(t, p) != GroupToken::Star && tok(t, p) != GroupToken::Slash) || advance(t, p) <= p {
        (p, out, ty)
    } else {
        let q = advance(t, p);
        let (r, rhs, _) = parse_unary(t, s, q);
        let name = if tok(t, p) == GroupToken::Star { "Number.Multiply"@ } else { "Number.Divide"@ };
        let code = out + rhs + binary_call(name);
        if r < q || !in_tokens(t, r) {
            (r, code, ExprType::Number)
        } else {
            mul_tail(t, s, r, code, ExprType::Number)
        }
    }
}

/// `not` before a unary term, or a primary.
pub open spec fn parse_unary(t: Seq<GroupToken>, s: Seq<char>, pos: int) -> Parsed
    decreases t.len() - pos, 3int,
{
    if !in_tokens(t, pos) {
        (pos, Seq::empty(), ExprType::Unknown)
    } else if tok(t, pos) == GroupToken::Not && advance(t, pos) > pos {
        let (r, out, _) = parse_unary(t, s, advance(t, pos));
        (r, out + unary_call("Bool.Not"@), ExprType::Bool)
    } else {
        parse_primary(t, s, pos)
    }
}

/// A primary: a boolean, a number, a variable, a call, a parenthesised condition,
/// or `-` before a primary. A bare name, and any other token, reads as `true`.
pub open spec fn parse_primary(t: Seq<GroupToken>, s: Seq<char>, pos: int) -> Parsed
    decreases t.len() - pos, 2int,
{
    if !in_tokens(t, pos) {
        (pos, Seq::empty(), ExprType::Unknown)
    } else {
        let q = advance(t, pos);
        match t[pos] {
            GroupToken::Bool(b) => (q, seq![push_bool_v(b)], ExprType::Bool),
            GroupToken::Num(a, b) => (
                q,
                seq![push_float_v(literal_value(s.subrange(a as int, b as int)))],
                ExprType::Number,
            ),
            GroupToken::Var(a, b) => (q, seq![push_var_v(seq!['$'] + s.subrange(a as int, b as int))], ExprType::Unknown),
            GroupToken::Ident(a, b) => if tok(t, q) == GroupToken::LParen && advance(t, q) > q && q > pos {
                let (p, args, n) = parse_args(t, s, advance(t, q), Seq::empty(), 0);
                (
                    advance(t, p),
                    args + seq![push_float_v(count_bits(n)), call_v(s.subrange(a as int, b as int))],
                    ExprType::Unknown,
                )
            } else {
                (q, seq![push_bool_v(true)], ExprType::Bool)
            },
            GroupToken::LParen => if q > pos {
                let (p, out, ty) = parse_or(t, s, q);
                (if tok(t, p) == GroupToken::RParen { advance(t, p) } else { p }, out, ty)
            } else {
                (q, seq![push_bool_v(true)], ExprType::Bool)
            },
            GroupToken::Minus => if q > pos {
                let (r, out, _) = parse_primary(t, s, q);
                (r, out + unary_call("Number.UnaryMinus"@), ExprType::Number)
            } else {
                (q, seq![push_bool_v(true)], ExprType::Bool)
            },
            _ => (q, seq![push_bool_v(true)], ExprType::Bool),
        }
    }
}

/// The arguments of a call from `p` up to `)` or the end, each a condition followed
/// by an optional comma; `code` holds those before, `n` counts them.
pub open spec fn parse_args(t: Seq<GroupToken>, s: Seq<char>, p: int, code: Seq<InstructionView>, n: nat) -> (
    int,
    Seq<InstructionView>,
    nat,
)
    decreases t.len() - p, 13int,
{
    if !in_tokens(t, p) || tok(t, p) == GroupToken::RParen || tok(t, p) == GroupToken::Eof {
        (p, code, n)
    } else {
        let (p1, a, _) = parse_or(t, s, p);
        let p2 = if tok(t, p1) == GroupToken::Comma { advance(t, p1) } else { p1 };
        if p2 <= p || !in_tokens(t, p2) {
            (p2, code + a, n + 1)
        } else {
            parse_args(t, s, p2, code + a, n + 1)
        }
    }
}


/// Whether the tokens `t` hold positions within a text of `len` characters.
#[verifier::opaque]
pub open spec fn tokens_within(t: Seq<GroupToken>, len: int) -> bool {
    forall|i: int|
        0 <= i < t.len() ==> match #[trigger] t[i] {
            GroupToken::Num(a, b) => a <= b <= len,
            GroupToken::Var(a, b) => a <= b <= len,
            GroupToken::Ident(a, b) => a <= b <= len,
            _ => true,
        }
}

/// Whether every number literal among the tokens `t` of `s` lies within what is read
/// exactly.
#[verifier::opaque]
pub open spec fn literals_within(t: Seq<GroupToken>, s: Seq<char>) -> bool {
    forall|i: int|
        0 <= i < t.len() ==> match #[trigger] t[i] {
            GroupToken::Num(a, b) => literal_in_range(s.subrange(a as int, b as int)),
            _ => true,
        }
}

/// What the parsing functions need of their tokens: they end with `Eof`, hold
/// positions within `s`, and their number literals are read exactly.
pub open spec fn parsable(t: Seq<GroupToken>, s: Seq<char>) -> bool {
    &&& t.len() > 0
    &&& t.last() == GroupToken::Eof
    &&& tokens_within(t, s.len() as int)
    &&& literals_within(t, s)
    &&& t.len() < 0x8000_0000_0000_0000
}

fn next_pos(t: &Vec<GroupToken>, p: usize) -> (r: usize)
    requires
        p < t@.len(),
    ensures
        r == advance(t@, p as int),
{
    if t.len() - p > 1 {
        p + 1
    } else {
        p
    }
}

fn token_at(t: &Vec<GroupToken>, p: usize) -> (r: GroupToken)
    ensures
        r == tok(t@, p as int),
{
    if p < t.len() {
        t[p]
    } else {
        GroupToken::Eof
    }
}

#[verifier::spinoff_prover]
fn compile_or(t: &Vec<GroupToken>, s: &Vec<char>, pos: usize) -> (r: (usize, Vec<Instruction>, ExprType))
    requires
        parsable(t@, s@),
        pos < t@.len(),
    ensures
        pos <= r.0 < t@.len(),
        (r.0 as int, code_view(r.1@), r.2) == parse_or(t@, s@, pos as int),
    decreases t@.len() - pos, 12int,
{
    let (p, out, ty) = compile_and(t, s, pos);
    compile_or_tail(t, s, p, out, ty)
}

#[verifier::spinoff_prover]
#[verifier::rlimit(60)]
fn compile_or_tail(t: &Vec<GroupToken>, s: &Vec<char>, p: usize, out: Vec<Instruction>, ty: ExprType) -> (r: (
    usize,
    Vec<Instruction>,
    ExprType,
))
    requires
        parsable(t@, s@),
        p < t@.len(),
    ensures
        p <= r.0 < t@.len(),
        (r.0 as int, code_view(r.1@), r.2) == or_tail(t@, s@, p as int, code_view(out@), ty),
    decreases t@.len() - p, 11int,
{
    let q = next_pos(t, p);
    if t[p] != GroupToken::Or || q <= p {
        return (p, out, ty);
    }
    let (r, rhs, _) = compile_and(t, s, q);
    let mut out = out;
    append_code(&mut out, rhs);
    push_call(&mut out, 0x4000_0000, "Bool.Or");
    compile_or_tail(t, s, r, out, ExprType::Bool)
}

#[verifier::spinoff_prover]
fn compile_and(t: &Vec<GroupToken>, s: &Vec<char>, pos: usize) -> (r: (usize, Vec<Instruction>, ExprType))
    requires
        parsable(t@, s@),
        pos < t@.len(),
    ensures
        pos <= r.0 < t@.len(),
        (r.0 as int, code_view(r.1@), r.2) == parse_and(t@, s@, pos as int),
    decreases t@.len() - pos, 10int,
{
    let (p, out, ty) = compile_comparison(t, s, pos);
    compile_and_tail(t, s, p, out, ty)
}

#[verifier::spinoff_prover]
#[verifier::rlimit(60)]
fn compile_and_tail(t: &Vec<GroupToken>, s: &Vec<char>, p: usize, out: Vec<Instruction>, ty: ExprType) -> (r: (
    usize,
    Vec<Instruction>,
    ExprType,
))
    requires
        parsable(t@, s@),
        p < t@.len(),
    ensures
        p <= r.0 < t@.len(),
        (r.0 as int, code_view(r.1@), r.2) == and_tail(t@, s@, p as int, code_view(out@), ty),
    decreases t@.len() - p, 9int,
{
    let q = next_pos(t, p);
    if t[p] != GroupToken::And || q <= p {
        return (p, out, ty);
    }
    let (r, rhs, _) = compile_comparison(t, s, q);
    let mut out = out;
    append_code(&mut out, rhs);
    push_call(&mut out, 0x4000_0000, "Bool.And");
    compile_and_tail(t, s, r, out, ExprType::Bool)
}

fn comparison_of(k: GroupToken) -> (r: Option<&'static str>)
    ensures
        match r {
            Some(x) => comparison_name(k) == Some(x@),
            None => comparison_name(k) is None,
        },
{
    match k {
        GroupToken::EqEq => Some("EqualTo"),
        GroupToken::Ne => Some("NotEqualTo"),
        GroupToken::Lt => Some("LessThan"),
        GroupToken::Le => Some("LessThanOrEqualTo"),
        GroupToken::Gt => Some("GreaterThan"),
        GroupToken::Ge => Some("GreaterThanOrEqualTo"),
        _ => None,
    }
}

fn comparison_call(lty: ExprType, rty: ExprType, op: &str) -> (r: Vec<Instruction>)
    ensures
        code_view(r@) == binary_call(comparison_function(lty, rty, op@)),
{
    let prefix = if lty == ExprType::Number || rty == ExprType::Number {
        "Number."
    } else {
        "Bool."
    };
    let mut name = String::from_str(prefix);
    name.append(op);
    let mut out: Vec<Instruction> = Vec::new();
    out.push(push_float_ins(0x4000_0000));
    out.push(string_ins(OpCode::CallFunc, name));
    assert(code_view(out@) =~= binary_call(comparison_function(lty, rty, op@)));
    out
}

#[verifier::spinoff_prover]
#[verifier::rlimit(60)]
fn compile_comparison(t: &Vec<GroupToken>, s: &Vec<char>, pos: usize) -> (r: (usize, Vec<Instruction>, ExprType))
    requires
        parsable(t@, s@),
        pos < t@.len(),
    ensures
        pos <= r.0 < t@.len(),
        (r.0 as int, code_view(r.1@), r.2) == parse_comparison(t@, s@, pos as int),
    decreases t@.len() - pos, 8int,
{
    let (p, out, lty) = compile_add(t, s, pos);
    let q = next_pos(t, p);
    match comparison_of(t[p]) {
        Some(op) => {
            if q <= p {
                return (p, out, lty);
            }
            let (r, rhs, rty) = compile_add(t, s, q);
            let mut out = out;
            append_code(&mut out, rhs);
            let call = comparison_call(lty, rty, op);
            append_code(&mut out, call);
            (r, out, ExprType::Bool)
        },
        None => (p, out, lty),
    }
}

#[verifier::spinoff_prover]
fn compile_add(t: &Vec<GroupToken>, s: &Vec<char>, pos: usize) -> (r: (usize, Vec<Instruction>, ExprType))
    requires
        parsable(t@, s@),
        pos < t@.len(),
    ensures
        pos <= r.0 < t@.len(),
        (r.0 as int, code_view(r.1@), r.2) == parse_add(t@, s@, pos as int),
    decreases t@.len() - pos, 7int,
{
    let (p, out, ty) = compile_mul(t, s, pos);
    compile_add_tail(t, s, p, out, ty)
}

#[verifier::spinoff_prover]
fn compile_add_tail(t: &Vec<GroupToken>, s: &Vec<char>, p: usize, out: Vec<Instruction>, ty: ExprType) -> (r: (
    usize,
    Vec<Instruction>,
    ExprType,
))
    requires
        parsable(t@, s@),
        p < t@.len(),
    ensures
        p <= r.0 < t@.len(),
        (r.0 as int, code_view(r.1@), r.2) == add_tail(t@, s@, p as int, code_view(out@), ty),
    decreases t@.len() - p, 6int,
{
    let q = next_pos(t, p);
    let plus = t[p] == GroupToken::Plus;
    if (!plus && t[p] != GroupToken::Minus) || q <= p {
        return (p, out, ty);
    }
    let (r, rhs, _) = compile_mul(t, s, q);
    let mut out = out;
    append_code(&mut out, rhs);
    push_call(&mut out, 0x4000_0000, if plus { "Number.Add" } else { "Number.Subtract" });
    compile_add_tail(t, s, r, out, ExprType::Number)
}

#[verifier::spinoff_prover]
fn compile_mul(t: &Vec<GroupToken>, s: &Vec<char>, pos: usize) -> (r: (usize, Vec<Instruction>, ExprType))
    requires
        parsable(t@, s@),
        pos < t@.len(),
    ensures
        pos <= r.0 < t@.len(),
        (r.0 as int, code_view(r.1@), r.2) == parse_mul(t@, s@, pos as int),
    decreases t@.len() - pos, 5int,
{
    let (p, out, ty) = compile_unary(t, s, pos);
    compile_mul_tail(t, s, p, out, ty)
}

#[verifier::spinoff_prover]
fn compile_mul_tail(t: &Vec<GroupToken>, s: &Vec<char>, p: usize, out: Vec<Instruction>, ty: ExprType) -> (r: (
    usize,
    Vec<Instruction>,
    ExprType,
))
    requires
        parsable(t@, s@),
        p < t@.len(),
    ensures
        p <= r.0 < t@.len(),
        (r.0 as int, code_view(r.1@), r.2) == mul_tail(t@, s@, p as int, code_view(out@), ty),
    decreases t@.len() - p, 4int,
{
    let q = next_pos(t, p);
    let star = t[p] == GroupToken::Star;
    if (!star && t[p] != GroupToken::Slash) || q <= p {
        return (p, out, ty);
    }
    let (r, rhs, _) = compile_unary(t, s, q);
    let mut out = out;
    append_code(&mut out, rhs);
    push_call(&mut out, 0x4000_0000, if star { "Number.Multiply" } else { "Number.Divide" });
    compile_mul_tail(t, s, r, out, ExprType::Number)
}

#[verifier::spinoff_prover]
fn compile_unary(t: &Vec<GroupToken>, s: &Vec<char>, pos: usize) -> (r: (usize, Vec<Instruction>, ExprType))
    requires
        parsable(t@, s@),
        pos < t@.len(),
    ensures
        pos <= r.0 < t@.len(),
        (r.0 as int, code_view(r.1@), r.2) == parse_unary(t@, s@, pos as int),
    decreases t@.len() - pos, 3int,
{
    let q = next_pos(t, pos);
    if t[pos] == GroupToken::Not && q > pos {
        let (r, out, _) = compile_unary(t, s, q);
        let mut out = out;
        push_call(&mut out, 0x3f80_0000, "Bool.Not");
        (r, out, ExprType::Bool)
    } else {
        compile_primary(t, s, pos)
    }
}

fn single_code(i: Instruction) -> (r: Vec<Instruction>)
    ensures
        code_view(r@) == seq![i@],
{
    let mut v: Vec<Instruction> = Vec::new();
    v.push(i);
    assert(code_view(v@) =~= seq![i@]);
    v
}

#[verifier::spinoff_prover]
fn compile_primary(t: &Vec<GroupToken>, s: &Vec<char>, pos: usize) -> (r: (usize, Vec<Instruction>, ExprType))
    requires
        parsable(t@, s@),
        pos < t@.len(),
    ensures
        pos <= r.0 < t@.len(),
        (r.0 as int, code_view(r.1@), r.2) == parse_primary(t@, s@, pos as int),
    decreases t@.len() - pos, 2int,
{
    let q = next_pos(t, pos);
    let k = t[pos];
    proof {
        reveal(tokens_within);
        reveal(literals_within);
    }
    assert(match k {
        GroupToken::Num(a, b) => a <= b <= s@.len() && literal_in_range(s@.subrange(a as int, b as int)),
        GroupToken::Var(a, b) => a <= b <= s@.len(),
        GroupToken::Ident(a, b) => a <= b <= s@.len(),
        _ => true,
    });
    match k {
        GroupToken::Bool(b) => (q, single_code(push_bool_ins(b)), ExprType::Bool),
        GroupToken::Num(a, b) => {
            let bits = match literal_bits(s, a, b) {
                Some(v) => v,
                None => 0,
            };
            (q, single_code(push_float_ins(bits)), ExprType::Number)
        },
        GroupToken::Var(a, b) => {
            let mut name = String::from_str("$");
            let mut i: usize = a;
            proof {
                reveal_strlit("$");
            }
            while i < b
                invariant
                    a <= i <= b <= s@.len(),
                    name@ == seq!['$'] + s@.subrange(a as int, i as int),
                decreases b - i,
            {
                crate::text::push_char(&mut name, s[i]);
                assert(name@ =~= seq!['$'] + s@.subrange(a as int, i + 1));
                i = i + 1;
            }
            (q, single_code(string_ins(OpCode::PushVariable, name)), ExprType::Unknown)
        },
        GroupToken::Ident(a, b) => {
            if token_at(t, q) == GroupToken::LParen && q > pos {
                let q2 = next_pos(t, q);
                if q2 > q {
                    let mut code: Vec<Instruction> = Vec::new();
                    assert(code_view(code@) =~= Seq::empty());
                    let (p, n) = compile_args(t, s, q2, &mut code, 0);
                    let count = FloatBits::from_integer(n as i64);
                    assert(count.0 == count_bits(n as nat));
                    let name = crate::text::string_from_chars(&crate::text::slice_chars(s, a, b));
                    let ghost before = code_view(code@);
                    code.push(push_float_ins(count.0));
                    code.push(string_ins(OpCode::CallFunc, name));
                    assert(code_view(code@) =~= before + seq![
                        push_float_v(count_bits(n as nat)),
                        call_v(s@.subrange(a as int, b as int)),
                    ]);
                    return (next_pos(t, p), code, ExprType::Unknown);
                }
            }
            (q, single_code(push_bool_ins(true)), ExprType::Bool)
        },
        GroupToken::LParen => {
            if q > pos {
                let (p, out, ty) = compile_or(t, s, q);
                let end = if t[p] == GroupToken::RParen {
                    next_pos(t, p)
                } else {
                    p
                };
                (end, out, ty)
            } else {
                (q, single_code(push_bool_ins(true)), ExprType::Bool)
            }
        },
        GroupToken::Minus => {
            if q > pos {
                let (r, out, _) = compile_primary(t, s, q);
                let mut out = out;
                push_call(&mut out, 0x3f80_0000, "Number.UnaryMinus");
                (r, out, ExprType::Number)
            } else {
                (q, single_code(push_bool_ins(true)), ExprType::Bool)
            }
        },
        _ => (q, single_code(push_bool_ins(true)), ExprType::Bool),
    }
}

#[verifier::spinoff_prover]
#[verifier::rlimit(40)]
fn compile_args(t: &Vec<GroupToken>, s: &Vec<char>, p: usize, code: &mut Vec<Instruction>, n: usize) -> (r: (usize, usize))
    requires
        parsable(t@, s@),
        p < t@.len(),
        n <= p,
    ensures
        p <= r.0 < t@.len(),
        r.1 <= n + (r.0 - p) + 1,
        (r.0 as int, code_view(final(code)@), r.1 as nat) == parse_args(t@, s@, p as int, code_view(old(code)@), n as nat),
    decreases t@.len() - p, 13int,
{
    if t[p] == GroupToken::RParen || t[p] == GroupToken::Eof {
        return (p, n);
    }
    let tl = t.len();
    assert(n < tl);
    let n1 = n + 1;
    let (p1, a, _) = compile_or(t, s, p);
    let p2 = if t[p1] == GroupToken::Comma {
        next_pos(t, p1)
    } else {
        p1
    };
    append_code(code, a);
    if p2 <= p {
        return (p2, n1);
    }
    compile_args(t, s, p2, code, n1)
}


/// The tokens of a text end with `Eof`, number at most one more than its characters
/// from `i` on, and hold positions within it.
pub proof fn lemma_group_tokens(s: Seq<char>, i: int)
    requires
        0 <= i <= s.len(),
        s.len() <= usize::MAX,
    ensures
        group_tokens_from(s, i).len() >= 1,
        group_tokens_from(s, i).last() == GroupToken::Eof,
        group_tokens_from(s, i).len() <= s.len() - i + 1,
        tokens_within(group_tokens_from(s, i), s.len() as int),
    decreases s.len() - i,
{
    reveal(tokens_within);
    let t = group_tokens_from(s, i);
    if i < s.len() {
        lemma_scan_bounds(s, i + 1);
        if is_whitespace(s[i]) {
            lemma_group_tokens(s, i + 1);
        } else if single_token(s[i]) is Some {
            lemma_group_tokens(s, i + 1);
            let rest = group_tokens_from(s, i + 1);
            assert(t == seq![single_token(s[i])->0] + rest);
            assert forall|j: int| 0 <= j < t.len() implies match #[trigger] t[j] {
                GroupToken::Num(a, b) => a <= b <= s.len(),
                GroupToken::Var(a, b) => a <= b <= s.len(),
                GroupToken::Ident(a, b) => a <= b <= s.len(),
                _ => true,
            } by {
                if j > 0 {
                    assert(t[j] == rest[j - 1]);
                }
            }
        } else if pair_token(s, i) is Some {
            lemma_group_tokens(s, i + 2);
            let rest = group_tokens_from(s, i + 2);
            assert(t == seq![pair_token(s, i)->0] + rest);
            assert forall|j: int| 0 <= j < t.len() implies match #[trigger] t[j] {
                GroupToken::Num(a, b) => a <= b <= s.len(),
                GroupToken::Var(a, b) => a <= b <= s.len(),
                GroupToken::Ident(a, b) => a <= b <= s.len(),
                _ => true,
            } by {
                if j > 0 {
                    assert(t[j] == rest[j - 1]);
                }
            }
        } else if s[i] == '<' || s[i] == '>' {
            lemma_group_tokens(s, i + 1);
            let rest = group_tokens_from(s, i + 1);
            assert(t == seq![if s[i] == '<' { GroupToken::Lt } else { GroupToken::Gt }] + rest);
            assert forall|j: int| 0 <= j < t.len() implies match #[trigger] t[j] {
                GroupToken::Num(a, b) => a <= b <= s.len(),
                GroupToken::Var(a, b) => a <= b <= s.len(),
                GroupToken::Ident(a, b) => a <= b <= s.len(),
                _ => true,
            } by {
                if j > 0 {
                    assert(t[j] == rest[j - 1]);
                }
            }
        } else if s[i] == '$' || is_digit(s[i]) || s[i] == '.' || alphabetic(s[i]) || s[i] == '_' {
            let e = if s[i] == '$' {
                name_end(s, i + 1)
            } else if is_digit(s[i]) || s[i] == '.' {
                literal_end(s, i + 1)
            } else {
                name_end(s, i + 1)
            };
            let first = if s[i] == '$' {
                GroupToken::Var((i + 1) as usize, e as usize)
            } else if is_digit(s[i]) || s[i] == '.' {
                GroupToken::Num(i as usize, e as usize)
            } else {
                word_token(s, i, e)
            };
            lemma_group_tokens(s, e);
            let rest = group_tokens_from(s, e);
            assert(t == seq![first] + rest);
            assert forall|j: int| 0 <= j < t.len() implies match #[trigger] t[j] {
                GroupToken::Num(a, b) => a <= b <= s.len(),
                GroupToken::Var(a, b) => a <= b <= s.len(),
                GroupToken::Ident(a, b) => a <= b <= s.len(),
                _ => true,
            } by {
                if j > 0 {
                    assert(t[j] == rest[j - 1]);
                }
            }
        } else {
            lemma_group_tokens(s, i + 1);
        }
    }
}

/// The code of the condition `s`: what it leaves on the stack is its value.
#[verifier::opaque]
pub open spec fn condition_code(s: Seq<char>) -> Seq<InstructionView> {
    parse_or(group_tokens_from(s, 0), s, 0).1
}

/// Whether every number literal of the condition `s` is read exactly.
#[verifier::opaque]
pub open spec fn condition_in_range(s: Seq<char>) -> bool {
    literals_within(group_tokens_from(s, 0), s)
}

fn check_literals(t: &Vec<GroupToken>, s: &Vec<char>) -> (r: bool)
    requires
        tokens_within(t@, s@.len() as int),
    ensures
        r == literals_within(t@, s@),
{
    let mut i: usize = 0;
    while i < t.len()
        invariant
            i <= t@.len(),
            tokens_within(t@, s@.len() as int),
            forall|j: int| 0 <= j < i ==> match #[trigger] t@[j] {
                GroupToken::Num(a, b) => literal_in_range(s@.subrange(a as int, b as int)),
                _ => true,
            },
        decreases t@.len() - i,
    {
        proof {
            reveal(tokens_within);
            reveal(literals_within);
        }
        assert(match t@[i as int] {
            GroupToken::Num(a, b) => a <= b <= s@.len(),
            _ => true,
        });
        match t[i] {
            GroupToken::Num(a, b) => {
                if literal_bits(s, a, b).is_none() {
                    return false;
                }
            },
            _ => {},
        }
        i = i + 1;
    }
    proof {
        reveal(literals_within);
    }
    true
}

/// Compiles the `when:` condition `s` into code that leaves its value on the stack;
/// `None` where one of its number literals lies beyond what is read exactly.
pub fn compile_condition(s: &Vec<char>) -> (r: Option<Vec<Instruction>>)
    requires
        s@.len() < 0x7fff_ffff_ffff_ffff,
    ensures
        r is Some <==> condition_in_range(s@),
        r matches Some(code) ==> code_view(code@) == condition_code(s@),
{
    let t = tokenize(s);
    let n = s.len();
    proof {
        lemma_group_tokens(s@, 0);
        reveal(condition_code);
        reveal(condition_in_range);
    }
    if !check_literals(&t, s) {
        return None;
    }
    let (_, code, _) = compile_or(&t, s, 0);
    Some(code)
}


// ---------------------------------------------------------------------------
// `when:` headers
// ---------------------------------------------------------------------------

/// The header value `once`.
pub open spec fn once_word() -> Seq<char> {
    seq!['o', 'n', 'c', 'e']
}

/// The header value `always`.
pub open spec fn always_word() -> Seq<char> {
    seq!['a', 'l', 'w', 'a', 'y', 's']
}

/// What starts a header value `once if <condition>`.
pub open spec fn once_if_prefix() -> Seq<char> {
    seq!['o', 'n', 'c', 'e', ' ', 'i', 'f', ' ']
}

/// Whether the header value `s` is `once if <condition>`.
pub open spec fn is_once_if(s: Seq<char>) -> bool {
    once_if_prefix().is_prefix_of(s)
}

/// The condition of a header value `once if <condition>`, trimmed.
pub open spec fn once_if_condition(s: Seq<char>) -> Seq<char> {
    trim(s.subrange(8, s.len() as int))
}

/// The variable that counts how often the saliency strategy has picked the content
/// `id`.
pub open spec fn view_count_variable(id: Seq<char>) -> Seq<char> {
    "$Yarn.Internal.Content.ViewCount."@ + id
}

/// Leaves whether the content `id` has never been picked.
pub open spec fn once_code(id: Seq<char>) -> Seq<InstructionView> {
    seq![
        push_var_v(view_count_variable(id)),
        push_float_v(zero_bits()),
        push_float_v(two_bits()),
        call_v("Number.EqualTo"@),
    ]
}

/// The code of the trimmed header value `s` of the content `id`: `once`, `once if`
/// and a condition (both must hold), or a condition.
pub open spec fn header_code(s: Seq<char>, id: Seq<char>) -> Seq<InstructionView> {
    if s == once_word() {
        once_code(id)
    } else if is_once_if(s) {
        once_code(id) + condition_code(once_if_condition(s)) + binary_call("Bool.And"@)
    } else {
        condition_code(s)
    }
}

/// Whether the number literals of the trimmed header value `s` are read exactly.
pub open spec fn header_in_range(s: Seq<char>) -> bool {
    if s == once_word() {
        true
    } else if is_once_if(s) {
        condition_in_range(once_if_condition(s))
    } else {
        condition_in_range(s)
    }
}

/// The header values of `headers`, trimmed, that are not `always`.
pub open spec fn conditions_of(headers: Seq<Seq<char>>) -> Seq<Seq<char>>
    decreases headers.len(),
{
    if headers.len() == 0 {
        Seq::empty()
    } else {
        let prev = conditions_of(headers.drop_last());
        if trim(headers.last()) == always_word() {
            prev
        } else {
            prev.push(trim(headers.last()))
        }
    }
}

/// The code of the conditions `conds` of the content `id`, each after the first
/// joined to those before it by `Bool.And`.
pub open spec fn conditions_code(conds: Seq<Seq<char>>, id: Seq<char>) -> Seq<InstructionView>
    decreases conds.len(),
{
    if conds.len() == 0 {
        Seq::empty()
    } else {
        conditions_code(conds.drop_last(), id) + header_code(conds.last(), id) + if conds.len() > 1 {
            binary_call("Bool.And"@)
        } else {
            Seq::empty()
        }
    }
}

/// The code that leaves whether the content `id` with the `when:` header values
/// `headers` may run: `true` where every value is `always` (or there is none), else
/// the conjunction of the others.
pub open spec fn when_code(headers: Seq<Seq<char>>, id: Seq<char>) -> Seq<InstructionView> {
    if conditions_of(headers).len() == 0 {
        seq![push_bool_v(true)]
    } else {
        conditions_code(conditions_of(headers), id)
    }
}

/// Whether the number literals of all the header values are read exactly.
pub open spec fn when_in_range(headers: Seq<Seq<char>>) -> bool {
    forall|i: int| 0 <= i < conditions_of(headers).len() ==> header_in_range(#[trigger] conditions_of(headers)[i])
}

/// The number of `and` and `or` operators among the tokens `t`.
pub open spec fn bool_op_count(t: Seq<GroupToken>) -> nat
    decreases t.len(),
{
    if t.len() == 0 {
        0
    } else {
        bool_op_count(t.drop_last()) + if t.last() == GroupToken::And || t.last() == GroupToken::Or {
            1nat
        } else {
            0nat
        }
    }
}

/// The complexity of the trimmed header value `s`: none for `always`, one for `once`,
/// and for a condition one more than its `and` and `or` operators (with one more
/// for `once if`).
pub open spec fn header_complexity(s: Seq<char>) -> nat {
    if s == always_word() {
        0
    } else if s == once_word() {
        1
    } else if is_once_if(s) {
        2 + bool_op_count(group_tokens_from(once_if_condition(s), 0))
    } else {
        bool_op_count(group_tokens_from(s, 0)) + 1
    }
}

/// The complexity of a member: the sum over its header values, trimmed.
pub open spec fn complexity(headers: Seq<Seq<char>>) -> nat
    decreases headers.len(),
{
    if headers.len() == 0 {
        0
    } else {
        complexity(headers.drop_last()) + header_complexity(trim(headers.last()))
    }
}

/// The views of a list of strings.
pub open spec fn strings_view(v: Seq<String>) -> Seq<Seq<char>> {
    v.map_values(|x: String| x@)
}

fn count_bool_ops(s: &Vec<char>) -> (r: usize)
    ensures
        r == bool_op_count(group_tokens_from(s@, 0)),
{
    let t = tokenize(s);
    let mut n: usize = 0;
    let mut i: usize = 0;
    while i < t.len()
        invariant
            i <= t@.len(),
            n == bool_op_count(t@.subrange(0, i as int)),
            n <= i,
        decreases t@.len() - i,
    {
        assert(t@.subrange(0, i + 1).drop_last() =~= t@.subrange(0, i as int));
        if t[i] == GroupToken::And || t[i] == GroupToken::Or {
            n = n + 1;
        }
        i = i + 1;
    }
    assert(t@.subrange(0, t@.len() as int) =~= t@);
    n
}

fn word_chars(w: &str) -> (r: Vec<char>)
    ensures
        r@ == w@,
{
    crate::text::chars_of(w)
}

/// The complexity of the trimmed header value `s`.
fn header_complexity_of(s: &Vec<char>) -> (r: u64)
    requires
        s@.len() < 0x7fff_ffff_ffff_ffff,
    ensures
        r == header_complexity(s@),
        r <= s@.len() + 3,
{
    let sl = s.len();
    proof {
        reveal_strlit("always");
        reveal_strlit("once");
        reveal_strlit("once if ");
        assert("always"@ =~= always_word());
        assert("once"@ =~= once_word());
        assert("once if "@ =~= once_if_prefix());
        lemma_group_tokens(s@, 0);
    }
    if crate::text::chars_equal(s, "always") {
        return 0;
    }
    if crate::text::chars_equal(s, "once") {
        return 1;
    }
    let prefix = word_chars("once if ");
    if crate::text::starts_with_chars(s, &prefix) {
        let rest = crate::text::slice_chars(s, 8, s.len());
        let cond = crate::text::trim_chars(&rest);
        let n = count_bool_ops(&cond);
        let cl = cond.len();
        proof {
            lemma_bool_ops_bound(group_tokens_from(cond@, 0));
            lemma_group_tokens(cond@, 0);
        }
        return 2 + n as u64;
    }
    let n = count_bool_ops(s);
    proof {
        lemma_bool_ops_bound(group_tokens_from(s@, 0));
    }
    n as u64 + 1
}

proof fn lemma_bool_ops_bound(t: Seq<GroupToken>)
    ensures
        bool_op_count(t) <= t.len(),
        t.len() > 0 && t.last() == GroupToken::Eof ==> bool_op_count(t) < t.len(),
    decreases t.len(),
{
    if t.len() > 0 {
        lemma_bool_ops_bound(t.drop_last());
    }
}

/// The code of the trimmed header value `s` of the content `id`; `None` where a
/// number literal in it lies beyond what is read exactly.
#[verifier::spinoff_prover]
fn compile_header(s: &Vec<char>, id: &str) -> (r: Option<Vec<Instruction>>)
    requires
        s@.len() < 0x7fff_ffff_ffff_ffff,
    ensures
        r is Some <==> header_in_range(s@),
        r matches Some(code) ==> code_view(code@) == header_code(s@, id@),
{
    proof {
        reveal_strlit("once");
        reveal_strlit("once if ");
        assert("once"@ =~= once_word());
        assert("once if "@ =~= once_if_prefix());
    }
    let is_once = crate::text::chars_equal(s, "once");
    let prefix = word_chars("once if ");
    let is_once_if = !is_once && crate::text::starts_with_chars(s, &prefix);
    if !is_once && !is_once_if {
        return compile_condition(s);
    }
    let mut vc = String::from_str("$Yarn.Internal.Content.ViewCount.");
    vc.append(id);
    let mut out: Vec<Instruction> = Vec::new();
    out.push(string_ins(OpCode::PushVariable, vc));
    out.push(push_float_ins(0));
    push_call(&mut out, 0x4000_0000, "Number.EqualTo");
    assert(code_view(out@) =~= once_code(id@));
    if is_once {
        return Some(out);
    }
    let rest = crate::text::slice_chars(s, 8, s.len());
    let cond = crate::text::trim_chars(&rest);
    match compile_condition(&cond) {
        Some(code) => {
            append_code(&mut out, code);
            push_call(&mut out, 0x4000_0000, "Bool.And");
            Some(out)
        },
        None => None,
    }
}


/// Whether a text is short enough for the positions and counts of its tokens to fit
/// in machine integers; every text that fits in memory is.
pub open spec fn text_fits(s: Seq<char>) -> bool {
    s.len() < 0x7fff_ffff_ffff_ffff
}

/// The views of a list of character vectors.
pub open spec fn chars_view(v: Seq<Vec<char>>) -> Seq<Seq<char>> {
    v.map_values(|x: Vec<char>| x@)
}

/// The code that leaves whether the content `id` may run, given its `when:` header
/// values; `None` where a number literal in them lies beyond what is read exactly.
pub fn compile_when(headers: &Vec<String>, id: &str) -> (r: Option<Vec<Instruction>>)
    requires
        forall|i: int| 0 <= i < headers@.len() ==> text_fits(#[trigger] headers@[i]@),
    ensures
        r is Some <==> when_in_range(strings_view(headers@)),
        r matches Some(code) ==> code_view(code@) == when_code(strings_view(headers@), id@),
{
    let ghost hv = strings_view(headers@);
    let mut conds: Vec<Vec<char>> = Vec::new();
    let mut i: usize = 0;
    proof {
        reveal_strlit("always");
        assert("always"@ =~= always_word());
    }
    while i < headers.len()
        invariant
            i <= headers@.len(),
            hv == strings_view(headers@),
            chars_view(conds@) == conditions_of(hv.subrange(0, i as int)),
            forall|k: int| 0 <= k < conds@.len() ==> text_fits(#[trigger] conds@[k]@),
            forall|k: int| 0 <= k < headers@.len() ==> text_fits(#[trigger] headers@[k]@),
            "always"@ == always_word(),
        decreases headers@.len() - i,
    {
        let c = crate::text::trim_chars(&crate::text::chars_of(headers[i].as_str()));
        assert(hv.subrange(0, i + 1).drop_last() =~= hv.subrange(0, i as int));
        assert(hv[i as int] == headers@[i as int]@);
        assert(text_fits(headers@[i as int]@));
        if !crate::text::chars_equal(&c, "always") {
            conds.push(c);
            assert(chars_view(conds@) =~= conditions_of(hv.subrange(0, i + 1)));
        } else {
            assert(chars_view(conds@) =~= conditions_of(hv.subrange(0, i + 1)));
        }
        i = i + 1;
    }
    assert(hv.subrange(0, headers@.len() as int) =~= hv);
    let ghost cv = chars_view(conds@);
    if conds.len() == 0 {
        let mut out: Vec<Instruction> = Vec::new();
        out.push(push_bool_ins(true));
        assert(code_view(out@) =~= seq![push_bool_v(true)]);
        return Some(out);
    }
    let mut out: Vec<Instruction> = Vec::new();
    let mut j: usize = 0;
    assert(code_view(out@) =~= conditions_code(cv.subrange(0, 0), id@));
    while j < conds.len()
        invariant
            j <= conds@.len(),
            cv == chars_view(conds@),
            cv == conditions_of(hv),
            hv == strings_view(headers@),
            forall|k: int| 0 <= k < conds@.len() ==> text_fits(#[trigger] conds@[k]@),
            code_view(out@) == conditions_code(cv.subrange(0, j as int), id@),
            forall|k: int| 0 <= k < j ==> header_in_range(#[trigger] cv[k]),
        decreases conds@.len() - j,
    {
        assert(cv.subrange(0, j + 1).drop_last() =~= cv.subrange(0, j as int));
        assert(cv[j as int] == conds@[j as int]@);
        match compile_header(&conds[j], id) {
            Some(code) => {
                append_code(&mut out, code);
                if j > 0 {
                    push_call(&mut out, 0x4000_0000, "Bool.And");
                }
                assert(code_view(out@) =~= conditions_code(cv.subrange(0, j + 1), id@));
            },
            None => {
                assert(!header_in_range(conditions_of(hv)[j as int]));
                return None;
            },
        }
        j = j + 1;
    }
    assert(cv.subrange(0, conds@.len() as int) =~= cv);
    Some(out)
}

proof fn lemma_complexity_prefix(h: Seq<Seq<char>>, i: int)
    requires
        0 <= i <= h.len(),
    ensures
        complexity(h.subrange(0, i)) <= complexity(h),
    decreases h.len() - i,
{
    if i < h.len() {
        lemma_complexity_prefix(h, i + 1);
        assert(h.subrange(0, i + 1).drop_last() =~= h.subrange(0, i));
    } else {
        assert(h.subrange(0, i) =~= h);
    }
}

/// The bits of the complexity of a member with the `when:` header values `headers`;
/// `None` where the complexity reaches `2^24`, beyond which a sum of 32-bit numbers
/// is no longer exact.
pub fn member_complexity(headers: &Vec<String>) -> (r: Option<u32>)
    requires
        forall|i: int| 0 <= i < headers@.len() ==> text_fits(#[trigger] headers@[i]@),
    ensures
        r is Some <==> complexity(strings_view(headers@)) < 0x100_0000,
        r matches Some(b) ==> b == count_bits(complexity(strings_view(headers@))),
{
    let ghost hv = strings_view(headers@);
    let mut total: u64 = 0;
    let mut i: usize = 0;
    while i < headers.len()
        invariant
            i <= headers@.len(),
            hv == strings_view(headers@),
            total == complexity(hv.subrange(0, i as int)),
            total < 0x100_0000,
            forall|k: int| 0 <= k < headers@.len() ==> text_fits(#[trigger] headers@[k]@),
        decreases headers@.len() - i,
    {
        let c = crate::text::trim_chars(&crate::text::chars_of(headers[i].as_str()));
        assert(hv.subrange(0, i + 1).drop_last() =~= hv.subrange(0, i as int));
        assert(hv[i as int] == headers@[i as int]@);
        assert(text_fits(headers@[i as int]@));
        let k = header_complexity_of(&c);
        if k >= 0x100_0000 - total {
            proof {
                lemma_complexity_prefix(hv, i + 1);
            }
            return None;
        }
        total = total + k;
        i = i + 1;
    }
    assert(hv.subrange(0, headers@.len() as int) =~= hv);
    Some(FloatBits::from_integer(total as i64).0)
}


// ---------------------------------------------------------------------------
// Hub nodes
// ---------------------------------------------------------------------------

/// A member of a node group: its unique node name and its `when:` header values.
#[derive(Debug)]
pub struct NodeGroupMember {
    /// The member's unique node name (`Title.0`, `Title.1`, ...).
    pub unique_name: String,
    /// The values of the member's `when:` headers.
    pub when_expressions: Vec<String>,
}

/// The views of the members: each unique name with its header values.
pub open spec fn members_view(m: Seq<NodeGroupMember>) -> Seq<(Seq<char>, Seq<Seq<char>>)> {
    m.map_values(|x: NodeGroupMember| (x.unique_name@, strings_view(x.when_expressions@)))
}

/// The label of the dispatch block of candidate `i`.
pub open spec fn candidate_label(i: nat) -> Seq<char> {
    "L_Cand_"@ + crate::text::decimal(i)
}

/// The label of the block that runs when no candidate is eligible.
pub open spec fn no_content_label() -> Seq<char> {
    "L_NoContent"@
}

/// Counts a visit to the hub in the variable `var`, where the hub is tracked.
pub open spec fn tracking_code(var: Option<Seq<char>>) -> Seq<InstructionView> {
    match var {
        Some(v) => seq![
            push_var_v(v),
            push_float_v(one_bits()),
            push_float_v(two_bits()),
            call_v("Number.Add"@),
            store_var_v(v),
            bare_v(OpCode::Pop),
        ],
        None => Seq::empty(),
    }
}

/// Offers candidate `i`, the member `id` of complexity `c`, where its condition left
/// `true`.
pub open spec fn candidate_ins(id: Seq<char>, c: nat, i: nat) -> InstructionView {
    ins(
        OpCode::AddSaliencyCandidate,
        seq![OperandView::Str(id), OperandView::Float(count_bits(c)), OperandView::Str(candidate_label(i))],
    )
}

/// For each member in turn: its condition, then its offer as a candidate.
pub open spec fn candidates_code(m: Seq<(Seq<char>, Seq<Seq<char>>)>) -> Seq<InstructionView>
    decreases m.len(),
{
    if m.len() == 0 {
        Seq::empty()
    } else {
        candidates_code(m.drop_last()) + when_code(m.last().1, m.last().0) + seq![
            candidate_ins(m.last().0, complexity(m.last().1), (m.len() - 1) as nat),
        ]
    }
}

/// Selects a candidate; where there is none, jumps to the no-content block;
/// otherwise jumps to the chosen candidate's dispatch block.
pub open spec fn dispatch_code() -> Seq<InstructionView> {
    seq![
        bare_v(OpCode::SelectSaliencyCandidate),
        ins(OpCode::JumpIfFalse, seq![OperandView::Str(no_content_label())]),
        bare_v(OpCode::Pop),
        bare_v(OpCode::PeekAndJump),
    ]
}

/// The dispatch block of a member: detours into it, then returns.
pub open spec fn detour_block(id: Seq<char>) -> Seq<InstructionView> {
    seq![bare_v(OpCode::Pop), push_string_v(id), bare_v(OpCode::DetourToNode), bare_v(OpCode::Return)]
}

/// The dispatch blocks of the members, in order.
pub open spec fn detours_code(m: Seq<(Seq<char>, Seq<Seq<char>>)>) -> Seq<InstructionView>
    decreases m.len(),
{
    if m.len() == 0 {
        Seq::empty()
    } else {
        detours_code(m.drop_last()) + detour_block(m.last().0)
    }
}

/// The block that runs when no candidate is eligible.
pub open spec fn no_content_code() -> Seq<InstructionView> {
    seq![bare_v(OpCode::Pop), bare_v(OpCode::Return)]
}

/// Where the dispatch blocks start.
pub open spec fn detours_start(m: Seq<(Seq<char>, Seq<Seq<char>>)>, var: Option<Seq<char>>) -> int {
    (tracking_code(var).len() + candidates_code(m).len() + dispatch_code().len()) as int
}

/// The instructions of the hub of the members `m`, visits counted in `var`.
pub open spec fn hub_instructions(m: Seq<(Seq<char>, Seq<Seq<char>>)>, var: Option<Seq<char>>) -> Seq<InstructionView> {
    tracking_code(var) + candidates_code(m) + dispatch_code() + detours_code(m) + no_content_code()
}

/// The labels of the hub: `Start` at the first instruction, then each candidate's
/// dispatch block, then the no-content block (indices as 32-bit numbers).
pub open spec fn hub_labels(m: Seq<(Seq<char>, Seq<Seq<char>>)>, var: Option<Seq<char>>) -> Seq<(Seq<char>, i32)> {
    seq![("Start"@, 0i32)] + Seq::new(
        m.len(),
        |i: int| (candidate_label(i as nat), (detours_start(m, var) + 4 * i) as i32),
    ) + seq![(no_content_label(), (detours_start(m, var) + 4 * m.len()) as i32)]
}

/// The tag that marks a hub.
pub open spec fn hub_tag() -> Seq<char> {
    "yarn_internal_node_group"@
}

/// The hub node of the group `title` with the members `m`, visits counted in `var`.
pub open spec fn hub_node(title: Seq<char>, m: Seq<(Seq<char>, Seq<Seq<char>>)>, var: Option<Seq<char>>) -> NodeView {
    NodeView { name: title, instructions: hub_instructions(m, var), labels: hub_labels(m, var), tags: seq![hub_tag()] }
}

/// Whether the hub of the members `m` can be built: every number literal in their
/// conditions is read exactly, and every complexity stays below `2^24`.
pub open spec fn hub_buildable(m: Seq<(Seq<char>, Seq<Seq<char>>)>) -> bool {
    forall|i: int| 0 <= i < m.len() ==> when_in_range(#[trigger] m[i].1) && complexity(m[i].1) < 0x100_0000
}

/// Whether every header value of the members fits in memory.
pub open spec fn members_fit(m: Seq<NodeGroupMember>) -> bool {
    forall|i: int, j: int|
        0 <= i < m.len() && 0 <= j < m[i].when_expressions@.len() ==> text_fits(#[trigger] m[i].when_expressions@[j]@)
}

fn candidate_label_of(i: usize) -> (r: String)
    ensures
        r@ == candidate_label(i as nat),
{
    let mut name = String::from_str("L_Cand_");
    let d = crate::text::decimal_string(i as u64);
    name.append(d.as_str());
    name
}

fn label_at(name: String, index: usize) -> (r: Label)
    ensures
        r.name@ == name@,
        r.index == index as i32,
{
    Label { name, index: #[verifier::truncate] (index as i32) }
}

/// Builds the hub node of the node group `group_title` with the members `members`;
/// where the hub is tracked, it counts its visits in `tracking_var`. `None` where a
/// member's conditions hold a number literal beyond what is read exactly, or its
/// complexity reaches `2^24`.
#[verifier::rlimit(40)]
pub fn generate_hub_node(group_title: &str, members: &Vec<NodeGroupMember>, tracking_var: Option<&str>) -> (r: Option<Node>)
    requires
        members_fit(members@),
    ensures
        r is Some <==> hub_buildable(members_view(members@)),
        r matches Some(n) ==> n@ == hub_node(
            group_title@,
            members_view(members@),
            match tracking_var {
                Some(v) => Some(v@),
                None => None,
            },
        ),
{
    let ghost mv = members_view(members@);
    let ghost var = match tracking_var {
        Some(v) => Some(v@),
        None => None::<Seq<char>>,
    };
    let mut out: Vec<Instruction> = Vec::new();
    match tracking_var {
        Some(v) => {
            push_code(&mut out, string_ins(OpCode::PushVariable, String::from_str(v)));
            push_code(&mut out, push_float_ins(0x3f80_0000));
            push_call(&mut out, 0x4000_0000, "Number.Add");
            push_code(&mut out, string_ins(OpCode::StoreVariable, String::from_str(v)));
            push_code(&mut out, bare_ins(OpCode::Pop));
            assert(code_view(out@) =~= tracking_code(var));
        },
        None => {
            assert(code_view(out@) =~= tracking_code(var));
        },
    }
    let mut i: usize = 0;
    while i < members.len()
        invariant
            i <= members@.len(),
            mv == members_view(members@),
            members_fit(members@),
            code_view(out@) == tracking_code(var) + candidates_code(mv.subrange(0, i as int)),
            forall|k: int| 0 <= k < i ==> when_in_range(#[trigger] mv[k].1) && complexity(mv[k].1) < 0x100_0000,
        decreases members@.len() - i,
    {
        let member = &members[i];
        assert(mv[i as int] == (member.unique_name@, strings_view(member.when_expressions@)));
        assert forall|j: int| 0 <= j < member.when_expressions@.len() implies text_fits(
            #[trigger] member.when_expressions@[j]@,
        ) by {
            assert(text_fits(members@[i as int].when_expressions@[j]@));
        }
        let cond = compile_when(&member.when_expressions, member.unique_name.as_str());
        let bits = member_complexity(&member.when_expressions);
        match (cond, bits) {
            (Some(code), Some(b)) => {
                let ghost before = code_view(out@);
                append_code(&mut out, code);
                let mut operands: Vec<Operand> = Vec::new();
                operands.push(Operand::StringValue(member.unique_name.clone()));
                operands.push(Operand::FloatValue(FloatBits(b)));
                operands.push(Operand::StringValue(candidate_label_of(i)));
                let add = Instruction { opcode: OpCode::AddSaliencyCandidate.number(), operands };
                assert(add@.operands =~= seq![
                    OperandView::Str(mv[i as int].0),
                    OperandView::Float(count_bits(complexity(mv[i as int].1))),
                    OperandView::Str(candidate_label(i as nat)),
                ]);
                assert(add@ == candidate_ins(mv[i as int].0, complexity(mv[i as int].1), i as nat));
                push_code(&mut out, add);
                let ghost sub = mv.subrange(0, i + 1);
                assert(sub.drop_last() =~= mv.subrange(0, i as int));
                assert(sub.last() == mv[i as int]);
                assert(candidates_code(sub) == candidates_code(mv.subrange(0, i as int)) + when_code(mv[i as int].1, mv[i as int].0) + seq![
                    candidate_ins(mv[i as int].0, complexity(mv[i as int].1), i as nat),
                ]);
                assert(code_view(out@) =~= tracking_code(var) + candidates_code(mv.subrange(0, i + 1)));
            },
            _ => {
                assert(!(when_in_range(mv[i as int].1) && complexity(mv[i as int].1) < 0x100_0000));
                return None;
            },
        }
        i = i + 1;
    }
    assert(mv.subrange(0, members@.len() as int) =~= mv);
    let ghost head = code_view(out@);
    push_code(&mut out, bare_ins(OpCode::SelectSaliencyCandidate));
    push_code(&mut out, string_ins(OpCode::JumpIfFalse, String::from_str("L_NoContent")));
    push_code(&mut out, bare_ins(OpCode::Pop));
    push_code(&mut out, bare_ins(OpCode::PeekAndJump));
    assert(code_view(out@) =~= head + dispatch_code());
    let mut labels: Vec<Label> = Vec::new();
    labels.push(label_at(String::from_str("Start"), 0));
    let base = out.len();
    assert(base == detours_start(mv, var));
    let mut k: usize = 0;
    while k < members.len()
        invariant
            k <= members@.len(),
            mv == members_view(members@),
            base == detours_start(mv, var),
            out@.len() == base + 4 * k,
            code_view(out@) == tracking_code(var) + candidates_code(mv) + dispatch_code() + detours_code(
                mv.subrange(0, k as int),
            ),
            labels@.len() == k + 1,
            labels@[0].name@ == "Start"@,
            labels@[0].index == 0,
            forall|j: int|
                0 <= j < k ==> (#[trigger] labels@[j + 1]).name@ == candidate_label(j as nat) && labels@[j + 1].index
                    == (base + 4 * j) as i32,
        decreases members@.len() - k,
    {
        labels.push(label_at(candidate_label_of(k), out.len()));
        let ghost before = code_view(out@);
        push_code(&mut out, bare_ins(OpCode::Pop));
        push_code(&mut out, string_ins(OpCode::PushString, members[k].unique_name.clone()));
        push_code(&mut out, bare_ins(OpCode::DetourToNode));
        push_code(&mut out, bare_ins(OpCode::Return));
        assert(mv[k as int].0 == members@[k as int].unique_name@);
        assert(mv.subrange(0, k + 1).drop_last() =~= mv.subrange(0, k as int));
        assert(code_view(out@) =~= before + detour_block(mv[k as int].0));
        k = k + 1;
    }
    assert(mv.subrange(0, members@.len() as int) =~= mv);
    labels.push(label_at(String::from_str("L_NoContent"), out.len()));
    let ghost before = code_view(out@);
    push_code(&mut out, bare_ins(OpCode::Pop));
    push_code(&mut out, bare_ins(OpCode::Return));
    assert(code_view(out@) =~= before + no_content_code());
    let mut tags: Vec<String> = Vec::new();
    tags.push(String::from_str("yarn_internal_node_group"));
    let ghost n = members@.len();
    assert(labels@.len() == n + 2);
    let node = Node { name: String::from_str(group_title), instructions: out, labels, tags };
    let ghost hl = hub_labels(mv, var);
    assert(hl.len() == n + 2);
    assert forall|j: int| 0 <= j < n + 2 implies #[trigger] node@.labels[j] == hl[j] by {
        if j == 0 {
        } else if j <= n {
            assert(labels@[(j - 1) + 1].name@ == candidate_label((j - 1) as nat));
        } else {
        }
    }
    assert(node@.labels =~= hl);
    assert(node@.tags =~= seq![hub_tag()]);
    Some(node)
}


/// A decimal representation has at least one digit, and at least two from ten on.
proof fn lemma_decimal_len(n: nat)
    ensures
        crate::text::decimal(n).len() >= 1,
        n >= 10 ==> crate::text::decimal(n).len() >= 2,
    decreases n,
{
    if n >= 10 {
        lemma_decimal_len(n / 10);
    }
}

/// Different numbers have different decimal representations.
proof fn lemma_decimal_injective(a: nat, b: nat)
    requires
        crate::text::decimal(a) == crate::text::decimal(b),
    ensures
        a == b,
    decreases a + b,
{
    let da = crate::text::decimal(a);
    let db = crate::text::decimal(b);
    lemma_decimal_len(a);
    lemma_decimal_len(b);
    if a < 10 && b < 10 {
        assert(da[0] == db[0]);
    } else if a < 10 || b < 10 {
        assert(da.len() == db.len());
    } else {
        assert(da.last() == db.last());
        assert(da.drop_last() =~= crate::text::decimal(a / 10));
        assert(db.drop_last() =~= crate::text::decimal(b / 10));
        lemma_decimal_injective(a / 10, b / 10);
        assert(a % 10 == b % 10);
    }
}

/// Different candidates have different labels, none of them `Start` or the
/// no-content label.
proof fn lemma_candidate_labels(i: nat, j: nat)
    ensures
        candidate_label(i) == candidate_label(j) ==> i == j,
        candidate_label(i) != "Start"@,
        candidate_label(i) != no_content_label(),
{
    reveal_strlit("L_Cand_");
    reveal_strlit("Start");
    reveal_strlit("L_NoContent");
    let p = "L_Cand_"@;
    lemma_decimal_len(i);
    if candidate_label(i) == candidate_label(j) {
        assert(crate::text::decimal(i) =~= candidate_label(i).subrange(7, candidate_label(i).len() as int));
        assert(crate::text::decimal(j) =~= candidate_label(j).subrange(7, candidate_label(j).len() as int));
        lemma_decimal_injective(i, j);
    }
    assert(candidate_label(i)[0] == 'L');
    assert("Start"@[0] == 'S');
    assert(candidate_label(i)[2] == 'C');
    assert(no_content_label()[2] == 'N');
}

/// Where the first entry named `name` stands at `k`, the lookup finds its index.
proof fn lemma_lookup_first(labels: Seq<(Seq<char>, i32)>, name: Seq<char>, k: int)
    requires
        0 <= k < labels.len(),
        labels[k].0 == name,
        forall|j: int| 0 <= j < k ==> #[trigger] labels[j].0 != name,
    ensures
        crate::program::lookup_label(labels, name) == Some(labels[k].1),
    decreases k,
{
    if k > 0 {
        assert(labels[0].0 != name);
        let rest = labels.drop_first();
        assert forall|j: int| 0 <= j < k - 1 implies #[trigger] rest[j].0 != name by {
            assert(rest[j] == labels[j + 1]);
        }
        lemma_lookup_first(rest, name, k - 1);
    }
}

/// The dispatch blocks: four instructions per member, in order.
proof fn lemma_detours(m: Seq<(Seq<char>, Seq<Seq<char>>)>, i: int)
    requires
        0 <= i < m.len(),
    ensures
        detours_code(m).len() == 4 * m.len(),
        detours_code(m).subrange(4 * i, 4 * i + 4) == detour_block(m[i].0),
    decreases m.len(),
{
    let prev = m.drop_last();
    if i < m.len() - 1 {
        lemma_detours(prev, i);
        assert(detours_code(m).subrange(4 * i, 4 * i + 4) =~= detours_code(prev).subrange(4 * i, 4 * i + 4));
    } else {
        if m.len() > 1 {
            lemma_detours(prev, 0);
        } else {
            assert(detours_code(prev) =~= Seq::<InstructionView>::empty());
        }
        assert(detours_code(m).subrange(4 * i, 4 * i + 4) =~= detour_block(m[i].0));
    }
}

/// The hub's label of each candidate marks the block that detours into that
/// candidate, and its no-content label marks the block that returns without
/// content (as long as the instruction indices fit in 32 bits).
pub proof fn law_hub_labels_lead_to_their_blocks(
    title: Seq<char>,
    m: Seq<(Seq<char>, Seq<Seq<char>>)>,
    var: Option<Seq<char>>,
    i: int,
)
    requires
        0 <= i < m.len(),
        detours_start(m, var) + 4 * m.len() + 2 <= 0x7fff_ffff,
    ensures
        crate::program::lookup_label(hub_node(title, m, var).labels, candidate_label(i as nat)) == Some(
            (detours_start(m, var) + 4 * i) as i32,
        ),
        hub_instructions(m, var).subrange(detours_start(m, var) + 4 * i, detours_start(m, var) + 4 * i + 4)
            == detour_block(m[i].0),
        crate::program::lookup_label(hub_node(title, m, var).labels, no_content_label()) == Some(
            (detours_start(m, var) + 4 * m.len()) as i32,
        ),
        hub_instructions(m, var).subrange(
            detours_start(m, var) + 4 * m.len(),
            detours_start(m, var) + 4 * m.len() + 2,
        ) == no_content_code(),
{
    let labels = hub_labels(m, var);
    let n = m.len() as int;
    let ds = detours_start(m, var);
    assert(labels[i + 1] == (candidate_label(i as nat), (ds + 4 * i) as i32));
    assert forall|j: int| 0 <= j < i + 1 implies #[trigger] labels[j].0 != candidate_label(i as nat) by {
        if j == 0 {
            lemma_candidate_labels(i as nat, 0);
        } else {
            assert(labels[j].0 == candidate_label((j - 1) as nat));
            lemma_candidate_labels((j - 1) as nat, i as nat);
        }
    }
    lemma_lookup_first(labels, candidate_label(i as nat), i + 1);
    assert(labels[n + 1] == (no_content_label(), (ds + 4 * n) as i32));
    assert forall|j: int| 0 <= j < n + 1 implies #[trigger] labels[j].0 != no_content_label() by {
        if j == 0 {
            reveal_strlit("Start");
            reveal_strlit("L_NoContent");
            assert("Start"@[0] != no_content_label()[0]);
        } else {
            assert(labels[j].0 == candidate_label((j - 1) as nat));
            lemma_candidate_labels((j - 1) as nat, 0);
        }
    }
    lemma_lookup_first(labels, no_content_label(), n + 1);
    lemma_detours(m, i);
    let head = tracking_code(var) + candidates_code(m) + dispatch_code();
    assert(head.len() == ds);
    let all = hub_instructions(m, var);
    assert(all =~= head + detours_code(m) + no_content_code());
    assert(all.subrange(ds + 4 * i, ds + 4 * i + 4) =~= detours_code(m).subrange(4 * i, 4 * i + 4));
    assert(all.subrange(ds + 4 * n, ds + 4 * n + 2) =~= no_content_code());
}

// ---------------------------------------------------------------------------
// Adding the hubs to a program
// ---------------------------------------------------------------------------

/// A node group: the title its members share, and its members.
#[derive(Debug)]
pub struct NodeGroup {
    /// The shared title, which becomes the hub's name.
    pub title: String,
    /// The members, in order.
    pub members: Vec<NodeGroupMember>,
}

/// The variable that counts visits to the hub of `title`, where visits to it are
/// tracked.
pub open spec fn group_tracking(title: Seq<char>, tracking: Seq<String>) -> Option<Seq<char>> {
    if string_set(tracking).contains(title) {
        Some(visiting_prefix() + title)
    } else {
        None
    }
}

/// The hub of the group `g`.
pub open spec fn group_hub(g: NodeGroup, tracking: Seq<String>) -> NodeView {
    hub_node(g.title@, members_view(g.members@), group_tracking(g.title@, tracking))
}

/// Whether the hub of every group can be built.
pub open spec fn groups_buildable(groups: Seq<NodeGroup>) -> bool {
    forall|i: int| 0 <= i < groups.len() ==> hub_buildable(members_view(#[trigger] groups[i].members@))
}

/// Whether every header value of every group fits in memory.
pub open spec fn groups_fit(groups: Seq<NodeGroup>) -> bool {
    forall|i: int| 0 <= i < groups.len() ==> members_fit(#[trigger] groups[i].members@)
}

/// The last of the first `n` groups whose title is `name`.
pub open spec fn last_group_named(groups: Seq<NodeGroup>, name: Seq<char>, n: int) -> Option<int>
    decreases n,
{
    if n <= 0 {
        None
    } else if groups[n - 1].title@ == name {
        Some(n - 1)
    } else {
        last_group_named(groups, name, n - 1)
    }
}

/// The nodes after adding `h`: it replaces the first node of its name, or comes last.
pub open spec fn with_node(nodes: Seq<Node>, h: Node) -> Seq<Node> {
    match node_index(nodes, h.name@) {
        Some(i) => nodes.update(i, h),
        None => nodes.push(h),
    }
}

/// After adding `h`, looking up its name finds it, and looking up any other name
/// finds what it found before.
pub proof fn lemma_with_node(nodes: Seq<Node>, h: Node)
    ensures
        node_named(with_node(nodes, h), h.name@) == Some(h@),
        forall|name: Seq<char>| name != h.name@ ==> #[trigger] node_named(with_node(nodes, h), name) == node_named(nodes, name),
{
    let t = h.name@;
    let new = with_node(nodes, h);
    lemma_node_index(nodes, t);
    match node_index(nodes, t) {
        Some(i) => {
            assert forall|j: int| 0 <= j < i implies #[trigger] new[j].name@ != t by {
                assert(new[j] == nodes[j]);
            }
            lemma_node_index_at(new, t, i);
        },
        None => {
            assert forall|j: int| 0 <= j < nodes.len() implies #[trigger] new[j].name@ != t by {
                assert(new[j] == nodes[j]);
            }
            lemma_node_index_at(new, t, nodes.len() as int);
        },
    }
    assert forall|name: Seq<char>| name != t implies #[trigger] node_named(new, name) == node_named(nodes, name) by {
        lemma_node_index(nodes, name);
        lemma_node_index(new, name);
        assert forall|j: int| 0 <= j < new.len() && new[j].name@ == name implies j < nodes.len() && nodes[j] == new[j] by {
            match node_index(nodes, t) {
                Some(i) => {
                    if j == i {
                        assert(new[j] == h);
                    }
                },
                None => {
                    if j == nodes.len() {
                        assert(new[j] == h);
                    }
                },
            }
        }
        match node_index(nodes, name) {
            Some(k) => {
                assert(new[k] == nodes[k]) by {
                    match node_index(nodes, t) {
                        Some(i) => {
                            if k == i {
                                assert(nodes[i].name@ == t);
                            }
                        },
                        None => {},
                    }
                }
                assert forall|j: int| 0 <= j < k implies #[trigger] new[j].name@ != name by {
                    if new[j].name@ == name {
                        assert(nodes[j] == new[j]);
                    }
                }
                lemma_node_index_at(new, name, k);
            },
            None => {
                match node_index(new, name) {
                    Some(k) => {
                        assert(nodes[k] == new[k]);
                    },
                    None => {},
                }
            },
        }
    }
}

fn insert_node(program: &mut Program, h: Node)
    ensures
        final(program).nodes@ == with_node(old(program).nodes@, h),
        final(program).initial_values@ == old(program).initial_values@,
{
    match program.find_node(h.name.as_str()) {
        Some(i) => {
            program.nodes.set(i, h);
        },
        None => {
            program.nodes.push(h);
        },
    }
}

/// Adds to `program` the hub node of every node group, in order: each replaces the
/// node of its name, so that of groups sharing a title the last one's hub stands.
/// Visits to a hub are counted where its title is among `tracking_nodes`. Where the
/// hub of some group cannot be built (see [`hub_buildable`]), nothing is added and
/// `false` comes back.
pub fn compile_node_groups(program: &mut Program, groups: &Vec<NodeGroup>, tracking_nodes: &Vec<String>) -> (r: bool)
    requires
        groups_fit(groups@),
    ensures
        r == groups_buildable(groups@),
        final(program).initial_values@ == old(program).initial_values@,
        !r ==> final(program).nodes@ == old(program).nodes@,
        r ==> forall|name: Seq<char>|
            #![trigger node_named(final(program).nodes@, name)]
            match last_group_named(groups@, name, groups@.len() as int) {
                Some(k) => node_named(final(program).nodes@, name) == Some(group_hub(groups@[k], tracking_nodes@)),
                None => node_named(final(program).nodes@, name) == node_named(old(program).nodes@, name),
            },
{
    let mut hubs: Vec<Node> = Vec::new();
    let mut i: usize = 0;
    while i < groups.len()
        invariant
            i <= groups@.len(),
            groups_fit(groups@),
            hubs@.len() == i,
            forall|k: int| 0 <= k < i ==> (#[trigger] hubs@[k])@ == group_hub(groups@[k], tracking_nodes@),
            forall|k: int| 0 <= k < i ==> (#[trigger] hubs@[k]).name@ == groups@[k].title@,
            forall|k: int| 0 <= k < i ==> hub_buildable(members_view(#[trigger] groups@[k].members@)),
        decreases groups@.len() - i,
    {
        let g = &groups[i];
        assert(members_fit(groups@[i as int].members@));
        let var = if contains_str(tracking_nodes, g.title.as_str()) {
            Some(Library::<()>::generate_unique_visited_variable_for_node(g.title.as_str()))
        } else {
            None
        };
        let var_ref: Option<&str> = match &var {
            Some(v) => Some(v.as_str()),
            None => None,
        };
        match generate_hub_node(g.title.as_str(), &g.members, var_ref) {
            Some(h) => {
                hubs.push(h);
            },
            None => {
                return false;
            },
        }
        i = i + 1;
    }
    let ghost all = hubs@;
    let ghost old_nodes = program.nodes@;
    let mut k: usize = 0;
    while k < groups.len()
        invariant
            k <= groups@.len(),
            all.len() == groups@.len(),
            hubs@ == all.subrange(k as int, all.len() as int),
            forall|j: int| 0 <= j < all.len() ==> (#[trigger] all[j])@ == group_hub(groups@[j], tracking_nodes@),
            forall|j: int| 0 <= j < all.len() ==> (#[trigger] all[j]).name@ == groups@[j].title@,
            program.initial_values@ == old(program).initial_values@,
            old_nodes == old(program).nodes@,
            forall|name: Seq<char>|
                #![trigger node_named(program.nodes@, name)]
                match last_group_named(groups@, name, k as int) {
                    Some(j) => node_named(program.nodes@, name) == Some(group_hub(groups@[j], tracking_nodes@)),
                    None => node_named(program.nodes@, name) == node_named(old_nodes, name),
                },
        decreases groups@.len() - k,
    {
        let h = hubs.remove(0);
        assert(h == all[k as int]);
        let ghost before = program.nodes@;
        insert_node(program, h);
        proof {
            lemma_with_node(before, h);
            assert forall|name: Seq<char>|
                #![trigger node_named(program.nodes@, name)]
                match last_group_named(groups@, name, k + 1) {
                    Some(j) => node_named(program.nodes@, name) == Some(group_hub(groups@[j], tracking_nodes@)),
                    None => node_named(program.nodes@, name) == node_named(old_nodes, name),
                } by {
                if name == h.name@ {
                    assert(last_group_named(groups@, name, k + 1) == Some(k as int));
                } else {
                    assert(last_group_named(groups@, name, k + 1) == last_group_named(groups@, name, k as int));
                    assert(node_named(program.nodes@, name) == node_named(before, name));
                }
            }
            assert(hubs@ =~= all.subrange(k + 1, all.len() as int));
        }
        k = k + 1;
    }
    true
}

} // verus!
