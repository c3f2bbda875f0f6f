//! Type checking of the function calls in `when:` headers, which the compiler reads
//! apart from node bodies: a call with the wrong number of arguments, or with an
//! argument of the wrong type, is reported.
use vstd::prelude::*;

use crate::diagnostics::{diagnostics_view, report, Diagnostic, DiagnosticSeverity, DiagnosticView, Position};
use crate::line_tags::push_str_chars;
use crate::text::{
    byte_len, chars_equal, chars_of, decimal, decimal_string, leading_whitespace, lines, lines_of, push_char, skip_whitespace,
    slice_chars, starts_with_chars, trim_start, utf8_len,
};
use crate::types::{FunctionType, Type};

verus! {

/// A token of a `when:` expression. Positions are character indices into the expression.
#[derive(Debug, Clone, Copy, PartialEq, Eq, Structural)]
pub enum WhenToken {
    /// A name or a `$variable`, from `start` up to `end`.
    Ident(usize, usize),
    /// A string literal starting at the position.
    Str(usize),
    /// A number literal starting at the position.
    Num(usize),
    /// `true` or `false` at the position.
    Bool(usize),
    /// `(`.
    LParen,
    /// `)`.
    RParen,
    /// `,`.
    Comma,
    /// Any other character.
    Op,
    /// The end of the expression.
    Eof,
}

/// Whether `c` is ASCII white space: space, tab, line feed, form feed or carriage return.
pub open spec fn ascii_whitespace(c: char) -> bool {
    c == ' ' || c == '\t' || c == '\n' || c == '\x0C' || c == '\r'
}

/// Whether `c` is an ASCII digit.
pub open spec fn ascii_digit(c: char) -> bool {
    '0' <= c <= '9'
}

/// Whether `c` is an ASCII letter.
pub open spec fn ascii_alpha(c: char) -> bool {
    ('a' <= c <= 'z') || ('A' <= c <= 'Z')
}

/// Whether `c` may continue a name: an ASCII letter or digit, or `_`.
pub open spec fn word_char(c: char) -> bool {
    ascii_alpha(c) || ascii_digit(c) || c == '_'
}

/// The first position from `i` on whose character does not continue a name.
pub open spec fn word_end(s: Seq<char>, i: int) -> int
    decreases s.len() - i,
{
    if 0 <= i < s.len() && word_char(s[i]) {
        word_end(s, i + 1)
    } else {
        i
    }
}

/// The first position from `i` on whose character is not a digit or `.`.
pub open spec fn number_end(s: Seq<char>, i: int) -> int
    decreases s.len() - i,
{
    if 0 <= i < s.len() && (ascii_digit(s[i]) || s[i] == '.') {
        number_end(s, i + 1)
    } else {
        i
    }
}

/// The first position from `i` on whose character is `"`, or the end.
pub open spec fn quote_at_or_end(s: Seq<char>, i: int) -> int
    decreases s.len() - i,
{
    if 0 <= i < s.len() && s[i] != '"' {
        quote_at_or_end(s, i + 1)
    } else {
        i
    }
}

/// The scans of names, numbers and strings stay within the text.
pub proof fn lemma_scan_ends(s: Seq<char>, i: int)
    requires
        0 <= i <= s.len(),
    ensures
        i <= word_end(s, i) <= s.len(),
        i <= number_end(s, i) <= s.len(),
        i <= quote_at_or_end(s, i) <= s.len(),
    decreases s.len() - i,
{
    if i < s.len() {
        lemma_scan_ends(s, i + 1);
    }
}

/// Whether the characters of `s` from `a` to `b` spell `word`.
pub open spec fn spells(s: Seq<char>, a: int, b: int, word: Seq<char>) -> bool {
    s.subrange(a, b) == word
}

/// The tokens of `s` from position `i` on, ending with `Eof`.
pub open spec fn tokens_from(s: Seq<char>, i: int) -> Seq<WhenToken>
    decreases s.len() - i,
{
    if i < 0 || i >= s.len() {
        seq![WhenToken::Eof]
    } else if ascii_whitespace(s[i]) {
        tokens_from(s, i + 1)
    } else if s[i] == '"' {
        let q = quote_at_or_end(s, i + 1);
        proof {
            lemma_scan_ends(s, i + 1);
        }
        seq![WhenToken::Str(i as usize)] + tokens_from(s, if q < s.len() { q + 1 } else { q })
    } else if ascii_digit(s[i]) || (s[i] == '-' && i + 1 < s.len() && ascii_digit(s[i + 1])) {
        proof {
            lemma_scan_ends(s, i + 1);
        }
        seq![WhenToken::Num(i as usize)] + tokens_from(s, number_end(s, i + 1))
    } else if ascii_alpha(s[i]) || s[i] == '_' {
        let e = word_end(s, i);
        proof {
            lemma_scan_ends(s, i + 1);
        }
        if spells(s, i, e, seq!['t', 'r', 'u', 'e']) || spells(s, i, e, seq!['f', 'a', 'l', 's', 'e']) {
            seq![WhenToken::Bool(i as usize)] + tokens_from(s, e)
        } else {
            seq![WhenToken::Ident(i as usize, e as usize)] + tokens_from(s, e)
        }
    } else if s[i] == '$' {
        let e = word_end(s, i + 1);
        proof {
            lemma_scan_ends(s, i + 1);
        }
        seq![WhenToken::Ident(i as usize, e as usize)] + tokens_from(s, e)
    } else if s[i] == '(' {
        seq![WhenToken::LParen] + tokens_from(s, i + 1)
    } else if s[i] == ')' {
        seq![WhenToken::RParen] + tokens_from(s, i + 1)
    } else if s[i] == ',' {
        seq![WhenToken::Comma] + tokens_from(s, i + 1)
    } else {
        seq![WhenToken::Op] + tokens_from(s, i + 1)
    }
}

fn is_word_char(c: char) -> (r: bool)
    ensures
        r == word_char(c),
{
    ('a' <= c && c <= 'z') || ('A' <= c && c <= 'Z') || ('0' <= c && c <= '9') || c == '_'
}

fn scan_word(s: &Vec<char>, i: usize) -> (r: usize)
    requires
        i <= s@.len(),
    ensures
        r == word_end(s@, i as int),
{
    let mut j = i;
    while j < s.len() && is_word_char(s[j])
        invariant
            i <= j <= s@.len(),
            word_end(s@, i as int) == word_end(s@, j as int),
        decreases s@.len() - j,
    {
        j = j + 1;
    }
    j
}

fn scan_number(s: &Vec<char>, i: usize) -> (r: usize)
    requires
        i <= s@.len(),
    ensures
        r == number_end(s@, i as int),
{
    let mut j = i;
    while j < s.len() && (('0' <= s[j] && s[j] <= '9') || s[j] == '.')
        invariant
            i <= j <= s@.len(),
            number_end(s@, i as int) == number_end(s@, j as int),
        decreases s@.len() - j,
    {
        j = j + 1;
    }
    j
}

fn scan_to_quote(s: &Vec<char>, i: usize) -> (r: usize)
    requires
        i <= s@.len(),
    ensures
        r == quote_at_or_end(s@, i as int),
{
    let mut j = i;
    while j < s.len() && s[j] != '"'
        invariant
            i <= j <= s@.len(),
            quote_at_or_end(s@, i as int) == quote_at_or_end(s@, j as int),
        decreases s@.len() - j,
    {
        j = j + 1;
    }
    j
}

fn spells_word(s: &Vec<char>, a: usize, b: usize, word: &str) -> (r: bool)
    requires
        a <= b <= s@.len(),
    ensures
        r == spells(s@, a as int, b as int, word@),
{
    let n = word.unicode_len();
    if b - a != n {
        return false;
    }
    let mut k: usize = 0;
    while k < n
        invariant
            n == word@.len(),
            b - a == n,
            a <= b <= s@.len(),
            k <= n,
            forall|j: int| 0 <= j < k ==> s@[a + j] == word@[j],
        decreases n - k,
    {
        if s[a + k] != word.get_char(k) {
            assert(s@.subrange(a as int, b as int)[k as int] != word@[k as int]);
            return false;
        }
        k = k + 1;
    }
    assert(s@.subrange(a as int, b as int) =~= word@);
    true
}

/// The tokens of a `when:` expression, ending with `Eof`.
pub fn tokenize_when(expr: &Vec<char>) -> (r: Vec<WhenToken>)
    ensures
        r@ == tokens_from(expr@, 0),
{
    let mut out: Vec<WhenToken> = Vec::new();
    let mut i: usize = 0;
    let ghost s = expr@;
    while i < expr.len()
        invariant
            s == expr@,
            i <= s.len(),
            out@ + tokens_from(s, i as int) == tokens_from(s, 0),
        decreases s.len() - i,
    {
        let c = expr[i];
        let ghost before = out@;
        proof {
            lemma_scan_ends(s, i as int + 1);
            lemma_scan_ends(s, i as int);
        }
        if c == ' ' || c == '\t' || c == '\n' || c == '\x0C' || c == '\r' {
            i = i + 1;
        } else if c == '"' {
            let q = scan_to_quote(expr, i + 1);
            out.push(WhenToken::Str(i));
            assert(out@ + tokens_from(s, if q < s.len() { q + 1 } else { q as int }) =~= before + tokens_from(s, i as int));
            i = if q < expr.len() { q + 1 } else { q };
        } else if ('0' <= c && c <= '9') || (c == '-' && i + 1 < expr.len() && '0' <= expr[i + 1] && expr[i + 1] <= '9') {
            let e = scan_number(expr, i + 1);
            out.push(WhenToken::Num(i));
            assert(out@ + tokens_from(s, e as int) =~= before + tokens_from(s, i as int));
            i = e;
        } else if ('a' <= c && c <= 'z') || ('A' <= c && c <= 'Z') || c == '_' {
            let e = scan_word(expr, i);
            proof {
                reveal_strlit("true");
                reveal_strlit("false");
                assert("true"@ =~= seq!['t', 'r', 'u', 'e']);
                assert("false"@ =~= seq!['f', 'a', 'l', 's', 'e']);
            }
            let is_bool = spells_word(expr, i, e, "true") || spells_word(expr, i, e, "false");
            if is_bool {
                out.push(WhenToken::Bool(i));
            } else {
                out.push(WhenToken::Ident(i, e));
            }
            assert(out@ + tokens_from(s, e as int) =~= before + tokens_from(s, i as int));
            i = e;
        } else if c == '$' {
            let e = scan_word(expr, i + 1);
            out.push(WhenToken::Ident(i, e));
            assert(out@ + tokens_from(s, e as int) =~= before + tokens_from(s, i as int));
            i = e;
        } else {
            if c == '(' {
                out.push(WhenToken::LParen);
            } else if c == ')' {
                out.push(WhenToken::RParen);
            } else if c == ',' {
                out.push(WhenToken::Comma);
            } else {
                out.push(WhenToken::Op);
            }
            assert(out@ + tokens_from(s, i + 1) =~= before + tokens_from(s, i as int));
            i = i + 1;
        }
    }
    out.push(WhenToken::Eof);
    assert(out@ =~= tokens_from(s, 0));
    out
}

/// Whether every position the tokens hold lies within a text of `len` characters,
/// and the tokens end with `Eof`.
pub open spec fn tokens_valid(t: Seq<WhenToken>, len: int) -> bool {
    &&& t.len() > 0
    &&& t.last() == WhenToken::Eof
    &&& forall|i: int|
        0 <= i < t.len() ==> match #[trigger] t[i] {
            WhenToken::Ident(a, b) => a < b <= len,
            WhenToken::Str(a) => a < len,
            WhenToken::Num(a) => a < len,
            WhenToken::Bool(a) => a < len,
            _ => true,
        }
}

/// The tokens of an expression are valid for it.
pub proof fn lemma_tokens_valid(s: Seq<char>, i: int)
    requires
        0 <= i,
        s.len() <= usize::MAX,
    ensures
        tokens_valid(tokens_from(s, i), s.len() as int),
    decreases s.len() - i,
{
    if i < s.len() {
        lemma_scan_ends(s, i + 1);
        lemma_scan_ends(s, i);
        let t = tokens_from(s, i);
        if ascii_whitespace(s[i]) {
            lemma_tokens_valid(s, i + 1);
        } else {
            let (head, next): (WhenToken, int) = if s[i] == '"' {
                (WhenToken::Str(i as usize), string_literal_end(s, i))
            } else if ascii_digit(s[i]) || (s[i] == '-' && i + 1 < s.len() && ascii_digit(s[i + 1])) {
                (WhenToken::Num(i as usize), number_end(s, i + 1))
            } else if ascii_alpha(s[i]) || s[i] == '_' {
                (t[0], word_end(s, i))
            } else if s[i] == '$' {
                (WhenToken::Ident(i as usize, word_end(s, i + 1) as usize), word_end(s, i + 1))
            } else {
                (t[0], i + 1)
            };
            assert(i < next);
            lemma_tokens_valid(s, next);
            assert(t =~= seq![head] + tokens_from(s, next));
            let rest = tokens_from(s, next);
            assert forall|k: int| 0 <= k < t.len() implies match #[trigger] t[k] {
                WhenToken::Ident(a, b) => a < b <= s.len(),
                WhenToken::Str(a) => a < s.len(),
                WhenToken::Num(a) => a < s.len(),
                WhenToken::Bool(a) => a < s.len(),
                _ => true,
            } by {
                if k > 0 {
                    assert(t[k] == rest[k - 1]);
                }
            }
        }
    }
}

/// The kind of value an expression has, as far as the checker can tell.
#[derive(Debug, Clone, Copy, PartialEq, Eq, Structural)]
pub enum ExprKind {
    /// A number.
    Number,
    /// A string.
    String,
    /// A boolean.
    Bool,
    /// Not known.
    Unknown,
}

/// What the checker of one expression works with: the expression, where it stands
/// (its line, and the byte column it starts at), the declared functions and the file.
pub struct WhenSpec {
    /// The expression.
    pub expr: Seq<char>,
    /// The zero-based line.
    pub line: usize,
    /// The byte column where the expression starts.
    pub col: usize,
    /// The declared functions, by name.
    pub decls: Seq<(String, FunctionType)>,
    /// The file.
    pub file: Seq<char>,
}

/// Whether the token at `p` is `LParen`.
pub open spec fn is_lparen(t: Seq<WhenToken>, p: int) -> bool {
    0 <= p < t.len() && t[p] == WhenToken::LParen
}

/// Whether the token at `p` is `RParen`.
pub open spec fn is_rparen(t: Seq<WhenToken>, p: int) -> bool {
    0 <= p < t.len() && t[p] == WhenToken::RParen
}

/// Whether the token at `p` is `Comma`.
pub open spec fn is_comma(t: Seq<WhenToken>, p: int) -> bool {
    0 <= p < t.len() && t[p] == WhenToken::Comma
}

/// Whether the token at `p` ends an argument list: `RParen` or `Eof`.
pub open spec fn ends_arguments(t: Seq<WhenToken>, p: int) -> bool {
    0 <= p < t.len() && (t[p] == WhenToken::RParen || t[p] == WhenToken::Eof)
}

/// Whether the characters from `a` to `b` are one of the keywords `and`, `or`, `not`.
pub open spec fn is_keyword(s: Seq<char>, a: int, b: int) -> bool {
    spells(s, a, b, seq!['a', 'n', 'd']) || spells(s, a, b, seq!['o', 'r']) || spells(s, a, b, seq!['n', 'o', 't'])
}

/// Whether the token at `p` continues an expression: an operator, or `and`, `or`, `not`.
pub open spec fn continues_expression(t: Seq<WhenToken>, s: Seq<char>, p: int) -> bool {
    0 <= p < t.len() && match t[p] {
        WhenToken::Op => true,
        WhenToken::Ident(a, b) => is_keyword(s, a as int, b as int),
        _ => false,
    }
}

/// The index of the first declaration named `name`.
pub open spec fn decl_index_from(decls: Seq<(String, FunctionType)>, name: Seq<char>, i: int) -> Option<int>
    decreases decls.len() - i,
{
    if i < 0 || i >= decls.len() {
        None
    } else if decls[i].0@ == name {
        Some(i)
    } else {
        decl_index_from(decls, name, i + 1)
    }
}

/// Whether an argument of `kind` cannot be passed for a parameter of type `t`.
pub open spec fn mismatch(kind: ExprKind, t: Type) -> bool {
    match (kind, t) {
        (ExprKind::Number, Type::Number) => false,
        (ExprKind::String, Type::String) => false,
        (ExprKind::Bool, Type::Boolean) => false,
        (ExprKind::Unknown, _) => false,
        (_, Type::Any) => false,
        _ => true,
    }
}

/// An argument mismatches a declared parameter type exactly where both are known and
/// their names differ: a number, a string or a boolean matches the parameter of its
/// own type, an unknown argument and a parameter of any type match everything.
pub proof fn law_mismatch_is_differing_types(kind: ExprKind, t: Type)
    ensures
        mismatch(kind, t) <==> (kind != ExprKind::Unknown && !(t is Any) && kind_name(kind) != parameter_type_name(t)),
        kind_name(kind) == parameter_type_name(t) ==> !mismatch(kind, t),
{
    reveal_strlit("Number");
    reveal_strlit("String");
    reveal_strlit("Bool");
    reveal_strlit("Unknown");
    assert("Number"@[0] == 'N' && "String"@[0] == 'S' && "Bool"@[0] == 'B' && "Unknown"@[0] == 'U');
    assert("Number"@ != "String"@ && "Number"@ != "Bool"@ && "Number"@ != "Unknown"@);
    assert("String"@ != "Bool"@ && "String"@ != "Unknown"@ && "Bool"@ != "Unknown"@);
}

/// The name of an argument kind in messages.
pub open spec fn kind_name(kind: ExprKind) -> Seq<char> {
    match kind {
        ExprKind::Number => "Number"@,
        ExprKind::String => "String"@,
        ExprKind::Bool => "Bool"@,
        ExprKind::Unknown => "Unknown"@,
    }
}

/// The name of a parameter type in messages.
pub open spec fn parameter_type_name(t: Type) -> Seq<char> {
    match t {
        Type::Number => "Number"@,
        Type::String => "String"@,
        Type::Boolean => "Bool"@,
        _ => "Unknown"@,
    }
}

/// The number of bytes the first `k` characters of `s` take.
pub open spec fn byte_offset(s: Seq<char>, k: int) -> nat {
    utf8_len(s.take(k))
}

/// The end of the string literal starting at `start`: after its closing quote, or the end.
pub open spec fn string_literal_end(s: Seq<char>, start: int) -> int {
    let q = quote_at_or_end(s, start + 1);
    if q < s.len() {
        q + 1
    } else {
        q
    }
}

/// The text and the byte offset of the token at `i`, as an argument is reported.
pub open spec fn token_text(t: Seq<WhenToken>, s: Seq<char>, i: int) -> (Seq<char>, nat) {
    match t[i] {
        WhenToken::Ident(a, b) => (s.subrange(a as int, b as int), byte_offset(s, a as int)),
        WhenToken::Num(a) => (s.subrange(a as int, number_end(s, a as int)), byte_offset(s, a as int)),
        WhenToken::Bool(a) => (if seq!['t', 'r', 'u', 'e'].is_prefix_of(s.subrange(a as int, s.len() as int)) {
            seq!['t', 'r', 'u', 'e']
        } else {
            seq!['f', 'a', 'l', 's', 'e']
        }, byte_offset(s, a as int)),
        WhenToken::Str(a) => (s.subrange(a as int, string_literal_end(s, a as int)), byte_offset(s, a as int)),
        _ => (Seq::empty(), 0),
    }
}

/// The text and offset of the `n`-th argument of the call opened at the first
/// `(`, scanning from `i` at parenthesis depth `depth` and argument `arg`.
pub open spec fn scan_argument(t: Seq<WhenToken>, s: Seq<char>, n: int, i: int, depth: int, arg: int) -> (Seq<char>, nat)
    decreases t.len() - i,
{
    if i < 0 || i >= t.len() || depth <= 0 {
        (Seq::empty(), 0)
    } else if t[i] == WhenToken::LParen {
        scan_argument(t, s, n, i + 1, depth + 1, arg)
    } else if t[i] == WhenToken::RParen {
        if depth - 1 == 0 {
            (Seq::empty(), 0)
        } else {
            scan_argument(t, s, n, i + 1, depth - 1, arg)
        }
    } else if t[i] == WhenToken::Comma && depth == 1 {
        scan_argument(t, s, n, i + 1, depth, arg + 1)
    } else if depth == 1 && arg == n {
        token_text(t, s, i)
    } else {
        scan_argument(t, s, n, i + 1, depth, arg)
    }
}

/// The index of the first `(` from `i` on.
pub open spec fn first_lparen_from(t: Seq<WhenToken>, i: int) -> Option<int>
    decreases t.len() - i,
{
    if i < 0 || i >= t.len() {
        None
    } else if t[i] == WhenToken::LParen {
        Some(i)
    } else {
        first_lparen_from(t, i + 1)
    }
}

/// The text and byte offset reported for the `n`-th argument: that of the first
/// token of the `n`-th argument of the call opened by the first `(` of the whole
/// expression; empty and 0 where there is none.
pub open spec fn nth_argument(t: Seq<WhenToken>, s: Seq<char>, n: int) -> (Seq<char>, nat) {
    match first_lparen_from(t, 0) {
        Some(f) => scan_argument(t, s, n, f + 1, 1, 0),
        None => (Seq::empty(), 0),
    }
}

/// The diagnostic for a call of `name` (at byte offset `offset`) with `supplied`
/// arguments where `expected` were expected.
pub open spec fn count_diagnostic(c: WhenSpec, name: Seq<char>, offset: nat, expected: nat, supplied: nat) -> DiagnosticView {
    report(
        "Function \""@ + name + "\" expects "@ + decimal(expected) + " "@ + (if expected == 1 {
            "parameter"@
        } else {
            "parameters"@
        }) + ", but received "@ + decimal(supplied),
        c.file,
        Some(
            (
                Position { line: c.line, character: (c.col + offset) as usize },
                Position { line: c.line, character: (c.col + offset + utf8_len(name)) as usize },
            ),
        ),
        DiagnosticSeverity::Error,
        "YS0013"@,
    )
}

/// The diagnostic for argument text `text` (at byte offset `offset`) of `kind`,
/// passed for a parameter of type `t`.
pub open spec fn type_diagnostic(c: WhenSpec, text: Seq<char>, offset: nat, kind: ExprKind, t: Type) -> DiagnosticView {
    report(
        text + " ("@ + kind_name(kind) + ") is not convertible to "@ + parameter_type_name(t),
        c.file,
        Some(
            (
                Position { line: c.line, character: (c.col + offset) as usize },
                Position { line: c.line, character: (c.col + offset + utf8_len(text)) as usize },
            ),
        ),
        DiagnosticSeverity::Error,
        "YS0050"@,
    )
}

/// The diagnostics for the argument types from the `i`-th on.
pub open spec fn type_diagnostics(t: Seq<WhenToken>, c: WhenSpec, args: Seq<ExprKind>, params: Seq<Option<Type>>, i: int) -> Seq<
    DiagnosticView,
>
    decreases args.len() - i,
{
    if i < 0 || i >= args.len() || i >= params.len() {
        Seq::empty()
    } else {
        let rest = type_diagnostics(t, c, args, params, i + 1);
        match params[i] {
            Some(pt) => if mismatch(args[i], pt) {
                seq![type_diagnostic(c, nth_argument(t, c.expr, i).0, nth_argument(t, c.expr, i).1, args[i], pt)] + rest
            } else {
                rest
            },
            None => rest,
        }
    }
}

/// What checking a call of the function `name` (whose name starts at character
/// `a`) with arguments of `args` reports.
pub open spec fn call_diagnostics(t: Seq<WhenToken>, c: WhenSpec, a: int, name: Seq<char>, args: Seq<ExprKind>) -> Seq<
    DiagnosticView,
> {
    match decl_index_from(c.decls, name, 0) {
        None => Seq::empty(),
        Some(k) => {
            let ft = c.decls[k].1;
            let expected = ft.parameters@.len();
            let count_ok = if ft.variadic_parameter_type is Some {
                args.len() >= expected
            } else {
                args.len() == expected
            };
            if !count_ok {
                seq![count_diagnostic(c, name, byte_offset(c.expr, a), expected, args.len())]
            } else {
                type_diagnostics(t, c, args, ft.parameters@, 0)
            }
        },
    }
}

/// Checks the expression that starts at `pos`: a primary, then the operators and
/// primaries that continue it. Gives where it ended, its kind, and the
/// diagnostics `d` with the new ones after them.
pub open spec fn parse_expr(t: Seq<WhenToken>, c: WhenSpec, pos: int, d: Seq<DiagnosticView>) -> (int, ExprKind, Seq<
    DiagnosticView,
>)
    decreases t.len() - pos, 2int,
{
    let (p, k, d1) = parse_primary(t, c, pos, d);
    if p < pos || p > t.len() {
        (p, k, d1)
    } else {
        parse_operators(t, c, p, k, d1)
    }
}

/// The operators and primaries that continue an expression at `p`.
pub open spec fn parse_operators(t: Seq<WhenToken>, c: WhenSpec, p: int, k: ExprKind, d: Seq<DiagnosticView>) -> (
    int,
    ExprKind,
    Seq<DiagnosticView>,
)
    decreases t.len() - p, 0int,
{
    if p >= 0 && continues_expression(t, c.expr, p) {
        let (q, k2, d1) = parse_primary(t, c, p + 1, d);
        if q < p + 1 || q > t.len() {
            (q, ExprKind::Unknown, d1)
        } else {
            parse_operators(t, c, q, ExprKind::Unknown, d1)
        }
    } else {
        (p, k, d)
    }
}

/// Checks the primary at `pos`: a parenthesised expression, a literal, or a name,
/// which with `(` after it is a call whose arguments are checked.
pub open spec fn parse_primary(t: Seq<WhenToken>, c: WhenSpec, pos: int, d: Seq<DiagnosticView>) -> (int, ExprKind, Seq<
    DiagnosticView,
>)
    decreases t.len() - pos, 1int,
{
    if pos < 0 || pos >= t.len() {
        (pos, ExprKind::Unknown, d)
    } else {
        match t[pos] {
            WhenToken::LParen => {
                let (p, k, d1) = parse_expr(t, c, pos + 1, d);
                (if is_rparen(t, p) { p + 1 } else { p }, k, d1)
            },
            WhenToken::Num(_) => (pos + 1, ExprKind::Number, d),
            WhenToken::Str(_) => (pos + 1, ExprKind::String, d),
            WhenToken::Bool(_) => (pos + 1, ExprKind::Bool, d),
            WhenToken::Ident(a, b) => if is_keyword(c.expr, a as int, b as int) {
                (pos, ExprKind::Unknown, d)
            } else if is_lparen(t, pos + 1) {
                let (p, args, d1) = parse_arguments(t, c, pos + 2, Seq::empty(), d);
                (
                    if is_rparen(t, p) { p + 1 } else { p },
                    ExprKind::Unknown,
                    d1 + call_diagnostics(t, c, a as int, c.expr.subrange(a as int, b as int), args),
                )
            } else {
                (pos + 1, ExprKind::Unknown, d)
            },
            _ => (pos, ExprKind::Unknown, d),
        }
    }
}

/// Checks the arguments of a call from `p` up to its `)` (or the end), each one
/// expression followed by an optional comma; `args` are the kinds of those before.
pub open spec fn parse_arguments(t: Seq<WhenToken>, c: WhenSpec, p: int, args: Seq<ExprKind>, d: Seq<DiagnosticView>) -> (
    int,
    Seq<ExprKind>,
    Seq<DiagnosticView>,
)
    decreases t.len() - p, 3int,
{
    if p < 0 || ends_arguments(t, p) || p >= t.len() {
        (p, args, d)
    } else {
        let (p1, k, d1) = parse_expr(t, c, p, d);
        let p2 = if is_comma(t, p1) { p1 + 1 } else { p1 };
        if p2 <= p || p2 > t.len() {
            (p2, args.push(k), d1)
        } else {
            parse_arguments(t, c, p2, args.push(k), d1)
        }
    }
}

/// Checks the function calls of one `when:` expression.
pub struct WhenChecker<'a> {
    /// The expression.
    pub expr: &'a Vec<char>,
    /// The zero-based line of the expression.
    pub line: usize,
    /// The byte column where the expression starts.
    pub col: usize,
    /// The declared functions, by name.
    pub decls: &'a Vec<(String, FunctionType)>,
    /// The file of the expression.
    pub file: &'a str,
}

proof fn lemma_utf8_prefix(s: Seq<char>, k: int)
    requires
        0 <= k <= s.len(),
    ensures
        utf8_len(s.take(k)) <= utf8_len(s),
        utf8_len(s) <= 4 * s.len(),
{
    crate::text::lemma_utf8_len_split(s, k);
    crate::text::lemma_utf8_len_at_least(s);
    assert(s.take(k) =~= s.subrange(0, k));
}

proof fn lemma_utf8_range(s: Seq<char>, a: int, b: int)
    requires
        0 <= a <= b <= s.len(),
    ensures
        utf8_len(s.take(a)) + utf8_len(s.subrange(a, b)) == utf8_len(s.take(b)),
        utf8_len(s.take(b)) <= utf8_len(s),
        utf8_len(s) <= 4 * s.len(),
{
    let w = s.take(b);
    crate::text::lemma_utf8_len_split(w, a);
    assert(w.subrange(0, a) =~= s.take(a));
    assert(w.subrange(a, b) =~= s.subrange(a, b));
    assert(w.subrange(0, b) =~= w);
    lemma_utf8_prefix(s, b);
}

impl<'a> WhenChecker<'a> {
    /// The mathematical form of this checker.
    pub open spec fn spec(&self) -> WhenSpec {
        WhenSpec { expr: self.expr@, line: self.line, col: self.col, decls: self.decls@, file: self.file@ }
    }

    /// Whether every byte column the checker may report fits a `usize`.
    pub open spec fn columns_fit(&self) -> bool {
        self.col + 4 * self.expr@.len() + 20 <= usize::MAX
    }

    fn diagnostic(&self, message: String, start: usize, end: usize, code: &str) -> (r: Diagnostic)
        ensures
            r@ == report(
                message@,
                self.file@,
                Some((Position { line: self.line, character: start }, Position { line: self.line, character: end })),
                DiagnosticSeverity::Error,
                code@,
            ),
    {
        Diagnostic::from_message(message).with_file_name(String::from_str(self.file)).with_range(
            Position { line: self.line, character: start },
            Position { line: self.line, character: end },
        ).with_code(code)
    }

    fn find_decl(&self, name: &Vec<char>) -> (r: Option<usize>)
        ensures
            r matches Some(k) ==> decl_index_from(self.decls@, name@, 0) == Some(k as int) && k < self.decls@.len(),
            r is None ==> decl_index_from(self.decls@, name@, 0) is None,
    {
        let mut i: usize = 0;
        while i < self.decls.len()
            invariant
                i <= self.decls@.len(),
                decl_index_from(self.decls@, name@, 0) == decl_index_from(self.decls@, name@, i as int),
            decreases self.decls@.len() - i,
        {
            if chars_equal(name, self.decls[i].0.as_str()) {
                return Some(i);
            }
            i = i + 1;
        }
        None
    }

    fn token_text_of(&self, t: &Vec<WhenToken>, i: usize) -> (r: (Vec<char>, usize))
        requires
            tokens_valid(t@, self.expr@.len() as int),
            i < t@.len(),
            self.columns_fit(),
        ensures
            r.0@ == token_text(t@, self.expr@, i as int).0,
            r.1 == token_text(t@, self.expr@, i as int).1,
            r.1 + utf8_len(r.0@) <= utf8_len(self.expr@) + 5,
            r.0@.len() <= self.expr@.len() + 5,
    {
        let s = self.expr;
        proof {
            lemma_utf8_prefix(s@, 0);
        }
        match t[i] {
            WhenToken::Ident(a, b) => {
                proof {
                    lemma_utf8_range(s@, a as int, b as int);
                }
                let head = slice_chars(s, 0, a);
                assert(head@ =~= s@.take(a as int));
                (slice_chars(s, a, b), byte_len(&head))
            },
            WhenToken::Num(a) => {
                let e = scan_number(s, a);
                proof {
                    lemma_scan_ends(s@, a as int);
                    lemma_utf8_range(s@, a as int, e as int);
                }
                let head = slice_chars(s, 0, a);
                assert(head@ =~= s@.take(a as int));
                (slice_chars(s, a, e), byte_len(&head))
            },
            WhenToken::Bool(a) => {
                let head = slice_chars(s, 0, a);
                assert(head@ =~= s@.take(a as int));
                let rest_len = s.len() - a;
                let is_true = rest_len >= 4 && s[a] == 't' && s[a + 1] == 'r' && s[a + 2] == 'u' && s[a + 3] == 'e';
                let ghost tail = s@.subrange(a as int, s@.len() as int);
                let mut word: Vec<char> = Vec::new();
                if is_true {
                    word.push('t');
                    word.push('r');
                    word.push('u');
                    word.push('e');
                    assert(seq!['t', 'r', 'u', 'e'].is_prefix_of(tail));
                } else {
                    word.push('f');
                    word.push('a');
                    word.push('l');
                    word.push('s');
                    word.push('e');
                    assert(!seq!['t', 'r', 'u', 'e'].is_prefix_of(tail)) by {
                        if seq!['t', 'r', 'u', 'e'].is_prefix_of(tail) {
                            assert(tail[0] == 't');
                            assert(tail[1] == 'r');
                            assert(tail[2] == 'u');
                            assert(tail[3] == 'e');
                        }
                    }
                }
                proof {
                    let w = token_text(t@, s@, i as int).0;
                    assert(word@ =~= w);
                    lemma_utf8_range(s@, a as int, a as int);
                    // the word is ASCII, five bytes at most, and follows at least one character
                    assert(utf8_len(word@) <= 5) by {
                        reveal_with_fuel(utf8_len, 6);
                    }
                }
                (word, byte_len(&head))
            },
            WhenToken::Str(a) => {
                let q = scan_to_quote(s, a + 1);
                let e = if q < s.len() { q + 1 } else { q };
                proof {
                    lemma_scan_ends(s@, a as int + 1);
                    lemma_utf8_range(s@, a as int, e as int);
                }
                let head = slice_chars(s, 0, a);
                assert(head@ =~= s@.take(a as int));
                (slice_chars(s, a, e), byte_len(&head))
            },
            _ => (Vec::new(), 0),
        }
    }
}

impl<'a> WhenChecker<'a> {
    fn nth_argument_of(&self, t: &Vec<WhenToken>, n: usize) -> (r: (Vec<char>, usize))
        requires
            tokens_valid(t@, self.expr@.len() as int),
            self.columns_fit(),
        ensures
            r.0@ == nth_argument(t@, self.expr@, n as int).0,
            r.1 == nth_argument(t@, self.expr@, n as int).1,
            r.1 + utf8_len(r.0@) <= utf8_len(self.expr@) + 5,
            r.0@.len() <= self.expr@.len() + 5,
    {
        let mut f: usize = 0;
        while f < t.len() && t[f] != WhenToken::LParen
            invariant
                f <= t@.len(),
                first_lparen_from(t@, 0) == first_lparen_from(t@, f as int),
            decreases t@.len() - f,
        {
            f = f + 1;
        }
        if f >= t.len() {
            return (Vec::new(), 0);
        }
        let mut i: usize = f + 1;
        let mut depth: usize = 1;
        let mut arg: usize = 0;
        while i < t.len() && depth > 0
            invariant
                f < i <= t@.len(),
                depth <= i - f,
                arg <= i - f,
                first_lparen_from(t@, 0) == Some(f as int),
                nth_argument(t@, self.expr@, n as int) == scan_argument(t@, self.expr@, n as int, i as int, depth as int, arg as int),
                tokens_valid(t@, self.expr@.len() as int),
                self.columns_fit(),
            decreases t@.len() - i,
        {
            match t[i] {
                WhenToken::LParen => {
                    depth = depth + 1;
                },
                WhenToken::RParen => {
                    depth = depth - 1;
                    if depth == 0 {
                        return (Vec::new(), 0);
                    }
                },
                WhenToken::Comma => {
                    if depth == 1 {
                        arg = arg + 1;
                    }
                },
                _ => {
                    if depth == 1 && arg == n {
                        return self.token_text_of(t, i);
                    }
                },
            }
            i = i + 1;
        }
        (Vec::new(), 0)
    }

    fn is_mismatch(kind: ExprKind, t: &Type) -> (r: bool)
        ensures
            r == mismatch(kind, *t),
    {
        match (kind, t) {
            (ExprKind::Number, Type::Number) => false,
            (ExprKind::String, Type::String) => false,
            (ExprKind::Bool, Type::Boolean) => false,
            (ExprKind::Unknown, _) => false,
            (_, Type::Any) => false,
            _ => true,
        }
    }

    fn kind_text(kind: ExprKind) -> (r: &'static str)
        ensures
            r@ == kind_name(kind),
    {
        match kind {
            ExprKind::Number => "Number",
            ExprKind::String => "String",
            ExprKind::Bool => "Bool",
            ExprKind::Unknown => "Unknown",
        }
    }

    fn type_text(t: &Type) -> (r: &'static str)
        ensures
            r@ == parameter_type_name(*t),
    {
        match t {
            Type::Number => "Number",
            Type::String => "String",
            Type::Boolean => "Bool",
            _ => "Unknown",
        }
    }

    fn check_argument_types(
        &self,
        t: &Vec<WhenToken>,
        args: &Vec<ExprKind>,
        params: &Vec<Option<Type>>,
        d: &mut Vec<Diagnostic>,
    )
        requires
            tokens_valid(t@, self.expr@.len() as int),
            self.columns_fit(),
        ensures
            diagnostics_view(final(d)@) == diagnostics_view(old(d)@) + type_diagnostics(t@, self.spec(), args@, params@, 0),
    {
        let mut i: usize = 0;
        while i < args.len() && i < params.len()
            invariant
                i <= args@.len(),
                tokens_valid(t@, self.expr@.len() as int),
                self.columns_fit(),
                diagnostics_view(d@) + type_diagnostics(t@, self.spec(), args@, params@, i as int) == diagnostics_view(
                    old(d)@,
                ) + type_diagnostics(t@, self.spec(), args@, params@, 0),
            decreases args@.len() - i,
        {
            let ghost before = diagnostics_view(d@);
            let ghost rest = type_diagnostics(t@, self.spec(), args@, params@, i + 1);
            match &params[i] {
                Some(pt) => {
                    if Self::is_mismatch(args[i], pt) {
                        let (text, offset) = self.nth_argument_of(t, i);
                        let mut m = string_of(&text);
                        push_str_chars(&mut m, " (");
                        push_str_chars(&mut m, Self::kind_text(args[i]));
                        push_str_chars(&mut m, ") is not convertible to ");
                        push_str_chars(&mut m, Self::type_text(pt));
                        proof {
                            reveal_strlit(" (");
                            reveal_strlit(") is not convertible to ");
                            crate::text::lemma_utf8_len_at_least(self.expr@);
                        }
                        let start = self.col + offset;
                        let text_bytes = byte_len(&text);
                        let x = self.diagnostic(m, start, start + text_bytes, "YS0050");
                        proof {
                            reveal_strlit("YS0050");
                            assert(x@ == type_diagnostic(self.spec(), text@, offset as nat, args@[i as int], *pt));
                        }
                        d.push(x);
                        assert(diagnostics_view(d@) =~= before.push(x@));
                        assert(seq![x@] + rest =~= type_diagnostics(t@, self.spec(), args@, params@, i as int));
                        assert(diagnostics_view(d@) + rest =~= before + type_diagnostics(
                            t@,
                            self.spec(),
                            args@,
                            params@,
                            i as int,
                        ));
                    }
                },
                None => {},
            }
            i = i + 1;
        }
    }

    fn check_call(&self, t: &Vec<WhenToken>, a: usize, b: usize, args: &Vec<ExprKind>, d: &mut Vec<Diagnostic>)
        requires
            tokens_valid(t@, self.expr@.len() as int),
            a < b <= self.expr@.len(),
            self.columns_fit(),
        ensures
            diagnostics_view(final(d)@) == diagnostics_view(old(d)@) + call_diagnostics(
                t@,
                self.spec(),
                a as int,
                self.expr@.subrange(a as int, b as int),
                args@,
            ),
    {
        let name = slice_chars(self.expr, a, b);
        match self.find_decl(&name) {
            None => {
                assert(diagnostics_view(d@) + Seq::<DiagnosticView>::empty() =~= diagnostics_view(d@));
            },
            Some(k) => {
                let ft = &self.decls[k].1;
                let expected = ft.parameters.len();
                let count_ok = match &ft.variadic_parameter_type {
                    Some(_) => args.len() >= expected,
                    None => args.len() == expected,
                };
                if !count_ok {
                    let mut m = String::from_str("Function \"");
                    push_str_chars(&mut m, string_of(&name).as_str());
                    push_str_chars(&mut m, "\" expects ");
                    push_str_chars(&mut m, decimal_string(expected as u64).as_str());
                    push_str_chars(&mut m, " ");
                    push_str_chars(&mut m, if expected == 1 { "parameter" } else { "parameters" });
                    push_str_chars(&mut m, ", but received ");
                    push_str_chars(&mut m, decimal_string(args.len() as u64).as_str());
                    proof {
                        reveal_strlit("Function \"");
                        reveal_strlit("\" expects ");
                        reveal_strlit(" ");
                        reveal_strlit("parameter");
                        reveal_strlit("parameters");
                        reveal_strlit(", but received ");
                        lemma_utf8_range(self.expr@, a as int, b as int);
                    }
                    let head = slice_chars(self.expr, 0, a);
                    assert(head@ =~= self.expr@.take(a as int));
                    let offset = byte_len(&head);
                    let start = self.col + offset;
                    let end = start + byte_len(&name);
                    let x = self.diagnostic(m, start, end, "YS0013");
                    proof {
                        reveal_strlit("YS0013");
                        assert(x@ == count_diagnostic(self.spec(), name@, offset as nat, expected as nat, args@.len()));
                    }
                    let ghost before = diagnostics_view(d@);
                    d.push(x);
                    assert(diagnostics_view(d@) =~= before + seq![x@]);
                } else {
                    self.check_argument_types(t, args, &ft.parameters, d);
                }
            },
        }
    }
}

/// A string of the characters `v`.
fn string_of(v: &Vec<char>) -> (r: String)
    ensures
        r@ == v@,
{
    crate::text::string_from_chars(v)
}

impl<'a> WhenChecker<'a> {
    fn keyword_at(&self, a: usize, b: usize) -> (r: bool)
        requires
            a <= b <= self.expr@.len(),
        ensures
            r == is_keyword(self.expr@, a as int, b as int),
    {
        proof {
            reveal_strlit("and");
            reveal_strlit("or");
            reveal_strlit("not");
            assert("and"@ =~= seq!['a', 'n', 'd']);
            assert("or"@ =~= seq!['o', 'r']);
            assert("not"@ =~= seq!['n', 'o', 't']);
        }
        spells_word(self.expr, a, b, "and") || spells_word(self.expr, a, b, "or") || spells_word(self.expr, a, b, "not")
    }

    /// Checks the expression at `pos` (see [`parse_expr`]).
    pub fn check_expr(&self, t: &Vec<WhenToken>, pos: usize, d: &mut Vec<Diagnostic>) -> (r: (usize, ExprKind))
        requires
            tokens_valid(t@, self.expr@.len() as int),
            pos <= t@.len(),
            self.columns_fit(),
        ensures
            pos <= r.0 <= t@.len(),
            (r.0 as int, r.1, diagnostics_view(final(d)@)) == parse_expr(
                t@,
                self.spec(),
                pos as int,
                diagnostics_view(old(d)@),
            ),
        decreases t@.len() - pos, 2int,
    {
        let (p, k) = self.check_primary(t, pos, d);
        self.check_operators(t, p, k, d)
    }

    fn check_operators(&self, t: &Vec<WhenToken>, p: usize, k: ExprKind, d: &mut Vec<Diagnostic>) -> (r: (usize, ExprKind))
        requires
            tokens_valid(t@, self.expr@.len() as int),
            p <= t@.len(),
            self.columns_fit(),
        ensures
            p <= r.0 <= t@.len(),
            (r.0 as int, r.1, diagnostics_view(final(d)@)) == parse_operators(
                t@,
                self.spec(),
                p as int,
                k,
                diagnostics_view(old(d)@),
            ),
        decreases t@.len() - p, 0int,
    {
        if p >= t.len() {
            return (p, k);
        }
        let continues = match t[p] {
            WhenToken::Op => true,
            WhenToken::Ident(a, b) => self.keyword_at(a, b),
            _ => false,
        };
        if continues {
            let (q, _) = self.check_primary(t, p + 1, d);
            self.check_operators(t, q, ExprKind::Unknown, d)
        } else {
            (p, k)
        }
    }

    fn check_primary(&self, t: &Vec<WhenToken>, pos: usize, d: &mut Vec<Diagnostic>) -> (r: (usize, ExprKind))
        requires
            tokens_valid(t@, self.expr@.len() as int),
            pos <= t@.len(),
            self.columns_fit(),
        ensures
            pos <= r.0 <= t@.len(),
            (r.0 as int, r.1, diagnostics_view(final(d)@)) == parse_primary(
                t@,
                self.spec(),
                pos as int,
                diagnostics_view(old(d)@),
            ),
        decreases t@.len() - pos, 1int,
    {
        if pos >= t.len() {
            return (pos, ExprKind::Unknown);
        }
        match t[pos] {
            WhenToken::LParen => {
                let (p, k) = self.check_expr(t, pos + 1, d);
                if p < t.len() && t[p] == WhenToken::RParen {
                    (p + 1, k)
                } else {
                    (p, k)
                }
            },
            WhenToken::Num(_) => (pos + 1, ExprKind::Number),
            WhenToken::Str(_) => (pos + 1, ExprKind::String),
            WhenToken::Bool(_) => (pos + 1, ExprKind::Bool),
            WhenToken::Ident(a, b) => {
                if self.keyword_at(a, b) {
                    (pos, ExprKind::Unknown)
                } else if pos + 1 < t.len() && t[pos + 1] == WhenToken::LParen {
                    let mut args: Vec<ExprKind> = Vec::new();
                    let p = self.check_arguments(t, pos + 2, &mut args, d);
                    let end = if p < t.len() && t[p] == WhenToken::RParen {
                        p + 1
                    } else {
                        p
                    };
                    self.check_call(t, a, b, &args, d);
                    (end, ExprKind::Unknown)
                } else {
                    (pos + 1, ExprKind::Unknown)
                }
            },
            _ => (pos, ExprKind::Unknown),
        }
    }

    fn check_arguments(&self, t: &Vec<WhenToken>, p: usize, args: &mut Vec<ExprKind>, d: &mut Vec<Diagnostic>) -> (r:
        usize)
        requires
            tokens_valid(t@, self.expr@.len() as int),
            p <= t@.len(),
            self.columns_fit(),
        ensures
            p <= r <= t@.len(),
            (r as int, final(args)@, diagnostics_view(final(d)@)) == parse_arguments(
                t@,
                self.spec(),
                p as int,
                old(args)@,
                diagnostics_view(old(d)@),
            ),
        decreases t@.len() - p, 3int,
    {
        if p >= t.len() || t[p] == WhenToken::RParen || t[p] == WhenToken::Eof {
            return p;
        }
        let (p1, k) = self.check_expr(t, p, d);
        args.push(k);
        let p2 = if p1 < t.len() && t[p1] == WhenToken::Comma {
            p1 + 1
        } else {
            p1
        };
        if p2 <= p {
            p2
        } else {
            self.check_arguments(t, p2, args, d)
        }
    }
}

/// What checking the expression `expr` on line `line`, at byte column `col`, adds
/// to the diagnostics `d`.
pub open spec fn checked_expression(
    expr: Seq<char>,
    line: usize,
    col: usize,
    decls: Seq<(String, FunctionType)>,
    file: Seq<char>,
    d: Seq<DiagnosticView>,
) -> Seq<DiagnosticView> {
    parse_expr(tokens_from(expr, 0), WhenSpec { expr, line, col, decls, file }, 0, d).2
}

/// Checks the function calls of the `when:` expression `expr`, which stands on line
/// `line` from byte column `col` of `file_name`, against the declared functions.
pub fn validate_when_expression(
    expr: &Vec<char>,
    line: usize,
    col: usize,
    decls: &Vec<(String, FunctionType)>,
    file_name: &str,
    diagnostics: &mut Vec<Diagnostic>,
)
    requires
        col + 4 * expr@.len() + 20 <= usize::MAX,
    ensures
        diagnostics_view(final(diagnostics)@) == checked_expression(
            expr@,
            line,
            col,
            decls@,
            file_name@,
            diagnostics_view(old(diagnostics)@),
        ),
{
    let tokens = tokenize_when(expr);
    proof {
        lemma_tokens_valid(expr@, 0);
    }
    let checker = WhenChecker { expr, line, col, decls, file: file_name };
    checker.check_expr(&tokens, 0, diagnostics);
}

/// The `when:` expression of a line, and the byte column it starts at: the text
/// after `when:` (the line's first non-blank text), where that is not blank.
pub open spec fn when_expression(line: Seq<char>) -> Option<(Seq<char>, int)> {
    let trimmed = trim_start(line);
    if !seq!['w', 'h', 'e', 'n', ':'].is_prefix_of(trimmed) {
        None
    } else {
        let expr = trim_start(trimmed.subrange(5, trimmed.len() as int));
        if expr.len() == 0 {
            None
        } else {
            Some((expr, utf8_len(line) - utf8_len(expr)))
        }
    }
}

/// What checking the `when:` headers among the first `k` lines of a file adds to `d`.
pub open spec fn checked_lines(
    ls: Seq<Seq<char>>,
    k: int,
    decls: Seq<(String, FunctionType)>,
    file: Seq<char>,
    d: Seq<DiagnosticView>,
) -> Seq<DiagnosticView>
    decreases k,
{
    if k <= 0 {
        d
    } else {
        let before = checked_lines(ls, k - 1, decls, file, d);
        match when_expression(ls[k - 1]) {
            None => before,
            Some((expr, col)) => checked_expression(expr, (k - 1) as usize, col as usize, decls, file, before),
        }
    }
}

/// What checking the `when:` headers of the first `k` files adds to `d`.
pub open spec fn checked_files(
    files: Seq<(String, String)>,
    k: int,
    decls: Seq<(String, FunctionType)>,
    d: Seq<DiagnosticView>,
) -> Seq<DiagnosticView>
    decreases k,
{
    if k <= 0 {
        d
    } else {
        let before = checked_files(files, k - 1, decls, d);
        checked_lines(lines(files[k - 1].1@), lines(files[k - 1].1@).len() as int, decls, files[k - 1].0@, before)
    }
}

fn check_line(line: &str, line_index: usize, decls: &Vec<(String, FunctionType)>, file_name: &str, diagnostics: &mut Vec<Diagnostic>)
    requires
        8 * line@.len() + 20 <= usize::MAX,
    ensures
        diagnostics_view(final(diagnostics)@) == match when_expression(line@) {
            None => diagnostics_view(old(diagnostics)@),
            Some((expr, col)) => checked_expression(
                expr,
                line_index,
                col as usize,
                decls@,
                file_name@,
                diagnostics_view(old(diagnostics)@),
            ),
        },
{
    let v = chars_of(line);
    let start = leading_whitespace(&v);
    let mut when: Vec<char> = Vec::new();
    when.push('w');
    when.push('h');
    when.push('e');
    when.push('n');
    when.push(':');
    let trimmed = slice_chars(&v, start, v.len());
    if !starts_with_chars(&trimmed, &when) {
        assert(when@ =~= seq!['w', 'h', 'e', 'n', ':']);
        return;
    }
    assert(when@ =~= seq!['w', 'h', 'e', 'n', ':']);
    let e = skip_whitespace(&v, start + 5);
    assert(trimmed@.subrange(5, trimmed@.len() as int) =~= v@.subrange(start + 5, v@.len() as int));
    if e == v.len() {
        assert(v@.subrange(e as int, v@.len() as int).len() == 0);
        return;
    }
    let expr = slice_chars(&v, e, v.len());
    proof {
        crate::text::lemma_utf8_len_split(v@, e as int);
        crate::text::lemma_utf8_len_at_least(v@);
        crate::text::lemma_utf8_len_at_least(expr@);
        assert(v@.subrange(0, e as int) =~= v@.take(e as int));
    }
    let head = slice_chars(&v, 0, e);
    let col = byte_len(&head);
    validate_when_expression(&expr, line_index, col, decls, file_name, diagnostics);
}

/// Checks the function calls of the `when:` headers of every file (given by name
/// and source) against the declared functions, adding what it finds to `diagnostics`.
/// Nothing is checked where no function is declared.
pub fn type_check_when_headers(
    files: &Vec<(String, String)>,
    decls: &Vec<(String, FunctionType)>,
    diagnostics: &mut Vec<Diagnostic>,
)
    requires
        forall|i: int| 0 <= i < files@.len() ==> 8 * (#[trigger] files@[i]).1@.len() + 20 <= usize::MAX,
    ensures
        decls@.len() == 0 ==> final(diagnostics)@ == old(diagnostics)@,
        decls@.len() > 0 ==> diagnostics_view(final(diagnostics)@) == checked_files(
            files@,
            files@.len() as int,
            decls@,
            diagnostics_view(old(diagnostics)@),
        ),
{
    if decls.len() == 0 {
        return;
    }
    let mut f: usize = 0;
    while f < files.len()
        invariant
            f <= files@.len(),
            forall|i: int| 0 <= i < files@.len() ==> 8 * (#[trigger] files@[i]).1@.len() + 20 <= usize::MAX,
            diagnostics_view(diagnostics@) == checked_files(
                files@,
                f as int,
                decls@,
                diagnostics_view(old(diagnostics)@),
            ),
        decreases files@.len() - f,
    {
        let ls = lines_of(files[f].1.as_str());
        let ghost lv = lines(files@[f as int].1@);
        let ghost start = diagnostics_view(diagnostics@);
        proof {
            crate::text::lemma_lines_short(files@[f as int].1@);
        }
        let mut k: usize = 0;
        while k < ls.len()
            invariant
                k <= ls@.len(),
                ls@.map_values(|l: String| l@) == lv,
                lv == lines(files@[f as int].1@),
                forall|j: int| 0 <= j < lv.len() ==> (#[trigger] lv[j]).len() <= files@[f as int].1@.len(),
                f < files@.len(),
                8 * files@[f as int].1@.len() + 20 <= usize::MAX,
                diagnostics_view(diagnostics@) == checked_lines(lv, k as int, decls@, files@[f as int].0@, start),
            decreases ls@.len() - k,
        {
            assert(ls@[k as int]@ == lv[k as int]);
            check_line(ls[k].as_str(), k, decls, files[f].0.as_str(), diagnostics);
            k = k + 1;
        }
        f = f + 1;
    }
}

} // verus!
