//! Structured commands: `name arg1 arg2 ...`, where each argument is one expression.
//! Where one argument ends is decided by the expression grammar, not by white space:
//! `$a + $b` is one argument, `$a $b` two.
use vstd::prelude::*;

use crate::diagnostics::{opt_chars, Diagnostic, DiagnosticSeverity, DiagnosticView};
use crate::line_tags::push_str_chars;
use crate::text::push_char;

verus! {

/// The kinds of token that decide where an argument of a structured command ends.
#[derive(Debug, Clone, Copy, PartialEq, Eq, Structural)]
pub enum CommandTokenKind {
    /// An identifier (`FUNC_ID`).
    Identifier,
    /// `(`.
    LeftParen,
    /// `)`.
    RightParen,
    /// `.`.
    Dot,
    /// The logical `!` (or `not`).
    Not,
    /// `-`, a binary and a prefix operator.
    Minus,
    /// Any other binary operator: `+ * / %`, `&& || ^`, `== != < > <= >=`.
    BinaryOperator,
    /// Anything else: variables, numbers, strings, `true`, `false`, invalid tokens.
    Other,
}

/// Whether a token of this kind continues an expression as a binary operator.
pub open spec fn is_binary_operator(k: CommandTokenKind) -> bool {
    k == CommandTokenKind::Minus || k == CommandTokenKind::BinaryOperator
}

/// Where the parenthesised group that is open `depth` deep at `i` ends: just after
/// the `)` that closes it, or at the end of the tokens.
pub open spec fn paren_group_end(types: Seq<CommandTokenKind>, i: int, depth: int) -> int
    decreases types.len() - i,
{
    if i < 0 || i >= types.len() {
        i
    } else if types[i] == CommandTokenKind::LeftParen {
        paren_group_end(types, i + 1, depth + 1)
    } else if types[i] == CommandTokenKind::RightParen {
        if depth - 1 == 0 {
            i + 1
        } else {
            paren_group_end(types, i + 1, depth - 1)
        }
    } else {
        paren_group_end(types, i + 1, depth)
    }
}

/// Where the value that starts at `i` ends: an identifier with its call arguments
/// or its `.Member`, a `.Member`, a parenthesised group, a prefix operator with its
/// operand, or one token.
pub open spec fn value_end(types: Seq<CommandTokenKind>, i: int) -> int
    decreases types.len() - i,
{
    if i < 0 || i >= types.len() {
        i
    } else if types[i] == CommandTokenKind::Identifier {
        let j = i + 1;
        if j < types.len() && types[j] == CommandTokenKind::LeftParen {
            paren_group_end(types, j, 0)
        } else if j < types.len() && types[j] == CommandTokenKind::Dot {
            if j + 1 < types.len() && types[j + 1] == CommandTokenKind::Identifier {
                j + 2
            } else {
                j + 1
            }
        } else {
            j
        }
    } else if types[i] == CommandTokenKind::Dot {
        if i + 1 < types.len() && types[i + 1] == CommandTokenKind::Identifier {
            i + 2
        } else {
            i + 1
        }
    } else if types[i] == CommandTokenKind::LeftParen {
        paren_group_end(types, i, 0)
    } else if types[i] == CommandTokenKind::Not || types[i] == CommandTokenKind::Minus {
        value_end(types, i + 1)
    } else {
        i + 1
    }
}

/// A parenthesised group consumes at least the token it starts at.
pub proof fn lemma_paren_group_end(types: Seq<CommandTokenKind>, i: int, depth: int)
    requires
        0 <= i,
    ensures
        i <= paren_group_end(types, i, depth) <= (if i < types.len() { types.len() as int } else { i }),
        i < types.len() ==> i < paren_group_end(types, i, depth),
    decreases types.len() - i,
{
    if i < types.len() {
        lemma_paren_group_end(types, i + 1, depth + 1);
        lemma_paren_group_end(types, i + 1, depth - 1);
        lemma_paren_group_end(types, i + 1, depth);
    }
}

/// A value consumes at least the token it starts at, and no token past the end.
pub proof fn lemma_value_end(types: Seq<CommandTokenKind>, i: int)
    requires
        0 <= i,
    ensures
        i <= value_end(types, i) <= (if i < types.len() { types.len() as int } else { i }),
        i < types.len() ==> i < value_end(types, i),
    decreases types.len() - i,
{
    if i < types.len() {
        lemma_paren_group_end(types, i + 1, 0);
        lemma_paren_group_end(types, i, 0);
        lemma_value_end(types, i + 1);
    }
}

/// Where the chain of binary operators and operands that goes on at `j` ends.
pub open spec fn operator_chain_end(types: Seq<CommandTokenKind>, j: int) -> int
    decreases types.len() - j,
{
    if 0 <= j < types.len() && is_binary_operator(types[j]) {
        proof {
            lemma_value_end(types, j + 1);
        }
        operator_chain_end(types, value_end(types, j + 1))
    } else {
        j
    }
}

/// Where the expression that starts at `i` ends: a value and the operator chain after it.
pub open spec fn expression_end(types: Seq<CommandTokenKind>, i: int) -> int {
    operator_chain_end(types, value_end(types, i))
}

proof fn lemma_operator_chain_end(types: Seq<CommandTokenKind>, j: int)
    requires
        0 <= j,
    ensures
        j <= operator_chain_end(types, j) <= (if j < types.len() { types.len() as int } else { j }),
    decreases types.len() - j,
{
    if 0 <= j < types.len() && is_binary_operator(types[j]) {
        lemma_value_end(types, j + 1);
        lemma_operator_chain_end(types, value_end(types, j + 1));
    }
}

/// An expression consumes at least the token it starts at, and no token past the end.
pub proof fn lemma_expression_end(types: Seq<CommandTokenKind>, i: int)
    requires
        0 <= i < types.len(),
    ensures
        i < expression_end(types, i) <= types.len(),
{
    lemma_value_end(types, i);
    lemma_operator_chain_end(types, value_end(types, i));
}

/// The number of expressions from `i` to the end of the tokens.
pub open spec fn arguments_from(types: Seq<CommandTokenKind>, i: int) -> nat
    decreases types.len() - i,
{
    if 0 <= i < types.len() {
        proof {
            lemma_expression_end(types, i);
        }
        1 + arguments_from(types, expression_end(types, i))
    } else {
        0
    }
}

/// The number of arguments of a command whose tokens (on the default channel) are
/// `types`: the expressions after the first token, the command's name.
pub open spec fn argument_count(types: Seq<CommandTokenKind>) -> nat {
    arguments_from(types, 1)
}

fn consume_paren_group(types: &Vec<CommandTokenKind>, start: usize) -> (r: usize)
    requires
        start <= types@.len() <= i64::MAX,
    ensures
        r == paren_group_end(types@, start as int, 0),
{
    let mut i = start;
    let mut depth: i64 = 0;
    while i < types.len()
        invariant
            start <= i <= types@.len() <= i64::MAX,
            -(i - start) <= depth <= i - start,
            paren_group_end(types@, start as int, 0) == paren_group_end(types@, i as int, depth as int),
        decreases types@.len() - i,
    {
        match types[i] {
            CommandTokenKind::LeftParen => {
                depth = depth + 1;
                i = i + 1;
            },
            CommandTokenKind::RightParen => {
                depth = depth - 1;
                i = i + 1;
                if depth == 0 {
                    return i;
                }
            },
            _ => {
                i = i + 1;
            },
        }
    }
    i
}

fn consume_value(types: &Vec<CommandTokenKind>, i: usize) -> (r: usize)
    requires
        i <= types@.len() <= i64::MAX,
    ensures
        r == value_end(types@, i as int),
    decreases types@.len() - i,
{
    if i >= types.len() {
        return i;
    }
    match types[i] {
        CommandTokenKind::Identifier => {
            let j = i + 1;
            if j < types.len() {
                if types[j] == CommandTokenKind::LeftParen {
                    consume_paren_group(types, j)
                } else if types[j] == CommandTokenKind::Dot {
                    if j + 1 < types.len() && types[j + 1] == CommandTokenKind::Identifier {
                        j + 2
                    } else {
                        j + 1
                    }
                } else {
                    j
                }
            } else {
                j
            }
        },
        CommandTokenKind::Dot => {
            if i + 1 < types.len() && types[i + 1] == CommandTokenKind::Identifier {
                i + 2
            } else {
                i + 1
            }
        },
        CommandTokenKind::LeftParen => consume_paren_group(types, i),
        CommandTokenKind::Not | CommandTokenKind::Minus => consume_value(types, i + 1),
        _ => i + 1,
    }
}

fn consume_expression(types: &Vec<CommandTokenKind>, start: usize) -> (r: usize)
    requires
        start <= types@.len() <= i64::MAX,
    ensures
        r == expression_end(types@, start as int),
{
    let mut i = consume_value(types, start);
    proof {
        lemma_value_end(types@, start as int);
    }
    let ghost v = i;
    while i < types.len() && (types[i] == CommandTokenKind::Minus || types[i] == CommandTokenKind::BinaryOperator)
        invariant
            i <= types@.len() <= i64::MAX,
            operator_chain_end(types@, v as int) == operator_chain_end(types@, i as int),
        decreases types@.len() - i,
    {
        proof {
            lemma_value_end(types@, i + 1);
        }
        i = consume_value(types, i + 1);
    }
    i
}

/// The number of arguments of a command with the token kinds `types` (see [`argument_count`]).
pub fn count_arguments(types: &Vec<CommandTokenKind>) -> (r: usize)
    requires
        types@.len() <= i64::MAX,
    ensures
        r == argument_count(types@),
{
    let mut i: usize = 1;
    let mut count: usize = 0;
    if types.len() == 0 {
        return 0;
    }
    while i < types.len()
        invariant
            1 <= i <= types@.len() <= i64::MAX,
            count <= i - 1,
            count + arguments_from(types@, i as int) == arguments_from(types@, 1),
        decreases types@.len() - i,
    {
        proof {
            lemma_expression_end(types@, i as int);
        }
        count = count + 1;
        i = consume_expression(types, i);
    }
    count
}

/// What parsing a structured command found.
#[derive(Debug)]
pub struct StructuredCommandParseResult {
    /// The command's name (its first token), if it has any token.
    pub command_name: Option<String>,
    /// The number of arguments after the name.
    pub argument_count: usize,
    /// The diagnostics parsing produced (such as for old-style `{expr}` braces).
    pub diagnostics: Vec<Diagnostic>,
}

/// Reads a structured command from its tokens on the default channel, in order (each
/// with its kind and text), and the diagnostics met while lexing.
pub fn parse_structured_command_tokens(tokens: &Vec<(CommandTokenKind, String)>, diagnostics: Vec<Diagnostic>) -> (r:
    StructuredCommandParseResult)
    requires
        tokens@.len() <= i64::MAX,
    ensures
        tokens@.len() == 0 ==> r.command_name is None && r.argument_count == 0,
        tokens@.len() > 0 ==> opt_chars(r.command_name) == Some(tokens@[0].1@),
        r.argument_count == argument_count(tokens@.map_values(|t: (CommandTokenKind, String)| t.0)),
        r.diagnostics@ == diagnostics@,
{
    let mut kinds: Vec<CommandTokenKind> = Vec::new();
    let mut i: usize = 0;
    while i < tokens.len()
        invariant
            i <= tokens@.len(),
            kinds@ == tokens@.map_values(|t: (CommandTokenKind, String)| t.0).take(i as int),
        decreases tokens@.len() - i,
    {
        kinds.push(tokens[i].0);
        assert(kinds@ =~= tokens@.map_values(|t: (CommandTokenKind, String)| t.0).take(i + 1));
        i = i + 1;
    }
    assert(kinds@ =~= tokens@.map_values(|t: (CommandTokenKind, String)| t.0));
    if tokens.len() == 0 {
        return StructuredCommandParseResult { command_name: None, argument_count: 0, diagnostics };
    }
    let argument_count = count_arguments(&kinds);
    StructuredCommandParseResult { command_name: Some(tokens[0].1.clone()), argument_count, diagnostics }
}

/// The message of the diagnostic for a character the lexer skipped.
pub open spec fn recognition_error_message(c: char) -> Seq<char> {
    "token recognition error at: '"@ + seq![c] + "'"@
}

/// The file name given to diagnostics about structured commands.
pub open spec fn structured_command_file() -> Seq<char> {
    "<structured_command>"@
}

/// The diagnostic for a character the lexer skipped.
pub fn recognition_error(c: char) -> (r: Diagnostic)
    ensures
        r@ == (DiagnosticView {
            file_name: Some(structured_command_file()),
            range: None,
            message: recognition_error_message(c),
            context: None,
            severity: DiagnosticSeverity::Error,
            code: None,
        }),
{
    let mut m = String::from_str("token recognition error at: '");
    push_char(&mut m, c);
    push_char(&mut m, '\'');
    proof {
        reveal_strlit("token recognition error at: '");
        reveal_strlit("'");
        assert(m@ =~= recognition_error_message(c));
    }
    let d = Diagnostic::from_message(m);
    d.with_file_name(String::from_str("<structured_command>"))
}

/// A command never has more arguments than tokens after its name.
pub proof fn law_arguments_bounded(types: Seq<CommandTokenKind>, i: int)
    requires
        0 <= i <= types.len(),
    ensures
        arguments_from(types, i) <= types.len() - i,
    decreases types.len() - i,
{
    if i < types.len() {
        lemma_expression_end(types, i);
        law_arguments_bounded(types, expression_end(types, i));
    }
}

/// Binary operators join their operands into one argument: a command whose tokens
/// after the name are a value, a binary operator and a value has one argument.
pub proof fn law_operator_joins_operands(name: CommandTokenKind, op: CommandTokenKind)
    requires
        is_binary_operator(op),
    ensures
        argument_count(seq![name, CommandTokenKind::Other, op, CommandTokenKind::Other]) == 1,
{
    let t = seq![name, CommandTokenKind::Other, op, CommandTokenKind::Other];
    assert(value_end(t, 1) == 2);
    assert(value_end(t, 3) == 4);
    assert(operator_chain_end(t, 4) == 4);
    assert(operator_chain_end(t, 2) == 4);
    assert(expression_end(t, 1) == 4);
    assert(arguments_from(t, 4) == 0);
    assert(arguments_from(t, 1) == 1);
}

} // verus!
