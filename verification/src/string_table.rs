//! The text of lines as the string table holds it: expressions replaced by their
//! positions, hashtags trimmed, and markup checked for balance.
use crate::text::{decimal, decimal_string, trim, trim_string};
use vstd::string::StringSliceAdditionalSpecFns;
use vstd::prelude::*;

verus! {

/// A part of the formatted text of a line: literal text, or an expression between
/// braces (whose braces belong to the surrounding text parts).
#[derive(Debug)]
pub enum FormattedTextPart {
    /// Literal text.
    Text(String),
    /// An expression.
    Expression,
}

/// The text of the first `n` parts, each expression replaced by its position among
/// the expressions; `count` is how many expressions came before.
pub open spec fn composed(parts: Seq<FormattedTextPart>, n: int) -> Seq<char>
    decreases n,
{
    if n <= 0 {
        seq![]
    } else {
        composed(parts, n - 1) + match parts[n - 1] {
            FormattedTextPart::Text(t) => t@,
            FormattedTextPart::Expression => decimal(expressions_before(parts, n - 1)),
        }
    }
}

/// The number of expressions among the first `n` parts.
pub open spec fn expressions_before(parts: Seq<FormattedTextPart>, n: int) -> nat
    decreases n,
{
    if n <= 0 {
        0
    } else {
        expressions_before(parts, n - 1) + if parts[n - 1] is Expression {
            1nat
        } else {
            0nat
        }
    }
}

/// The text of a line with each expression replaced by its position, as in
/// `Hi {0}, how are you {1}?`, trimmed.
pub fn generate_formatted_text(parts: &Vec<FormattedTextPart>) -> (r: String)
    requires
        parts@.len() < 0x1_0000_0000,
    ensures
        r@ == trim(composed(parts@, parts@.len() as int)),
{
    let mut expression_count: u64 = 0;
    let mut composed_string = String::new();
    let mut i: usize = 0;
    while i < parts.len()
        invariant
            i <= parts@.len() < 0x1_0000_0000,
            expression_count == expressions_before(parts@, i as int),
            expression_count <= i,
            composed_string@ == composed(parts@, i as int),
        decreases parts.len() - i,
    {
        match &parts[i] {
            FormattedTextPart::Text(t) => {
                composed_string.append(t.as_str());
            },
            FormattedTextPart::Expression => {
                let d = decimal_string(expression_count);
                composed_string.append(d.as_str());
                expression_count = expression_count + 1;
            },
        }
        i = i + 1;
    }
    trim_string(composed_string.as_str())
}

/// The texts of hashtags, trimmed.
pub fn get_hashtag_texts(hashtags: &Vec<String>) -> (r: Vec<String>)
    ensures
        r@.len() == hashtags@.len(),
        forall|i: int| 0 <= i < r@.len() ==> (#[trigger] r@[i])@ == trim(hashtags@[i]@),
{
    let mut out: Vec<String> = Vec::new();
    let mut i: usize = 0;
    while i < hashtags.len()
        invariant
            i <= hashtags@.len(),
            out@.len() == i,
            forall|j: int| 0 <= j < i ==> (#[trigger] out@[j])@ == trim(hashtags@[j]@),
        decreases hashtags.len() - i,
    {
        out.push(trim_string(hashtags[i].as_str()));
        i = i + 1;
    }
    out
}

/// The index at which a `[[link]]` that starts before `k` ends: the first `]]` at
/// or after `k`, or the last byte.
pub open spec fn link_end(b: Seq<u8>, k: int) -> int
    decreases b.len() - k,
{
    if k + 1 >= b.len() || (b[k] == 93u8 && b[k + 1] == 93u8) {
        k
    } else {
        link_end(b, k + 1)
    }
}

/// The index of the first `]` at or after `k`, or the length.
pub open spec fn close_bracket(b: Seq<u8>, k: int) -> int
    decreases b.len() - k,
{
    if k >= b.len() || b[k] == 93u8 {
        k
    } else {
        close_bracket(b, k + 1)
    }
}

/// [`link_end`] and [`close_bracket`] do not go back, nor past the end.
pub proof fn lemma_bracket_ends(b: Seq<u8>, k: int)
    ensures
        link_end(b, k) >= k,
        close_bracket(b, k) >= k,
        k <= b.len() ==> close_bracket(b, k) <= b.len(),
        k <= b.len() ==> link_end(b, k) <= b.len(),
    decreases b.len() - k,
{
    if k < b.len() {
        lemma_bracket_ends(b, k + 1);
    }
}

/// The markup problem of `b` from byte `i` on, with `depth` tags open: a `[` without
/// `]`, a closing tag with none open, or tags left open at the end. `[[links]]`,
/// `\[`, `\]` and self-closing `[tags/]` do not count.
pub open spec fn markup_problem(b: Seq<u8>, i: int, depth: int) -> Option<Seq<char>>
    decreases b.len() + 2 - i,
{
    if i < 0 || i >= b.len() {
        if depth > 0 {
            Some(decimal(depth as nat) + " unclosed markup tag(s)"@)
        } else {
            None
        }
    } else if i + 1 < b.len() && b[i] == 91u8 && b[i + 1] == 91u8 {
        proof {
            lemma_bracket_ends(b, i + 2);
        }
        markup_problem(b, link_end(b, i + 2) + 2, depth)
    } else if b[i] == 92u8 && i + 1 < b.len() && (b[i + 1] == 91u8 || b[i + 1] == 93u8) {
        markup_problem(b, i + 2, depth)
    } else if b[i] == 91u8 {
        let j = close_bracket(b, i + 1);
        proof {
            lemma_bracket_ends(b, i + 1);
        }
        if j >= b.len() {
            Some("Unmatched '[' at position "@ + decimal(i as nat))
        } else if j > i + 1 && b[j - 1] == 47u8 {
            markup_problem(b, j + 1, depth)
        } else if j > i + 1 && b[i + 1] == 47u8 {
            if depth - 1 < 0 {
                Some("Unexpected closing tag at position "@ + decimal(i as nat))
            } else {
                markup_problem(b, j + 1, depth - 1)
            }
        } else {
            markup_problem(b, j + 1, depth + 1)
        }
    } else {
        markup_problem(b, i + 1, depth)
    }
}

/// The problem with the markup of a line's text, if any.
pub fn check_markup(text: &str) -> (r: Option<String>)
    requires
        text.spec_bytes().len() + 2 <= usize::MAX,
    ensures
        match r {
            Some(m) => markup_problem(text.spec_bytes(), 0, 0) == Some(m@),
            None => markup_problem(text.spec_bytes(), 0, 0) is None,
        },
{
    let bytes = text.as_bytes();
    let ghost b = text.spec_bytes();
    let len = bytes.len();
    let mut depth: usize = 0;
    let mut i: usize = 0;
    while i < len
        invariant
            bytes@ == b,
            b == text.spec_bytes(),
            len == b.len(),
            len + 2 <= usize::MAX,
            depth <= i,
            i <= len + 2,
            markup_problem(b, 0, 0) == markup_problem(b, i as int, depth as int),
        decreases len + 2 - i,
    {
        if i + 1 < len && bytes[i] == 91u8 && bytes[i + 1] == 91u8 {
            let mut k = i + 2;
            proof {
                lemma_bracket_ends(b, (i + 2) as int);
            }
            while k + 1 < len && !(bytes[k] == 93u8 && bytes[k + 1] == 93u8)
                invariant
                    bytes@ == b,
                    len == b.len(),
                    len + 2 <= usize::MAX,
                    i + 2 <= k <= len,
                    link_end(b, (i + 2) as int) == link_end(b, k as int),
                decreases len - k,
            {
                k = k + 1;
            }
            i = k + 2;
            continue;
        }
        if bytes[i] == 92u8 && i + 1 < len && bytes[i + 1] == 91u8 {
            i = i + 2;
            continue;
        }
        if bytes[i] == 92u8 && i + 1 < len && bytes[i + 1] == 93u8 {
            i = i + 2;
            continue;
        }
        if bytes[i] == 91u8 {
            let start = i;
            let mut j = i + 1;
            while j < len && bytes[j] != 93u8
                invariant
                    bytes@ == b,
                    len == b.len(),
                    start + 1 <= j <= len,
                    close_bracket(b, (start + 1) as int) == close_bracket(b, j as int),
                decreases len - j,
            {
                j = j + 1;
            }
            if j >= len {
                assert(close_bracket(b, (start + 1) as int) >= b.len());
                assert(markup_problem(b, i as int, depth as int) == Some(
                    "Unmatched '[' at position "@ + decimal(i as nat),
                ));
                let mut m = String::from_str("Unmatched '[' at position ");
                let d = decimal_string(start as u64);
                m.append(d.as_str());
                return Some(m);
            }
            let last_before_close: u8 = if j > start + 1 { bytes[j - 1] } else { 0 };
            let first_after_open: u8 = if j > start + 1 { bytes[start + 1] } else { 0 };
            if last_before_close == 47u8 {
            } else if first_after_open == 47u8 {
                if depth == 0 {
                    let mut m = String::from_str("Unexpected closing tag at position ");
                    let d = decimal_string(start as u64);
                    m.append(d.as_str());
                    return Some(m);
                }
                depth = depth - 1;
            } else {
                depth = depth + 1;
            }
            i = j + 1;
            continue;
        }
        i = i + 1;
    }
    if depth > 0 {
        let mut m = decimal_string(depth as u64);
        m.append(" unclosed markup tag(s)");
        Some(m)
    } else {
        None
    }
}


// ---------------------------------------------------------------------------
// Shadow lines
// ---------------------------------------------------------------------------

/// What the string table holds of a line.
#[derive(Debug)]
pub struct StringInfo {
    /// The line's text.
    pub text: String,
    /// The file the line is in.
    pub file_name: String,
    /// The line whose text this one shadows (`#shadow:<id>`), if any.
    pub shadow_line_id: Option<String>,
}

/// The index of the first entry of `table` with the id `id`.
pub open spec fn entry_index(table: Seq<(String, StringInfo)>, id: Seq<char>, n: int) -> Option<int>
    decreases n,
{
    if n <= 0 {
        None
    } else {
        match entry_index(table, id, n - 1) {
            Some(i) => Some(i),
            None => if table[n - 1].0@ == id {
                Some(n - 1)
            } else {
                None
            },
        }
    }
}

/// Whether `s` holds `{` followed by a digit: the trace of an expression in a line's
/// formatted text.
pub open spec fn has_expression_marker(s: Seq<char>) -> bool {
    exists|i: int| 0 <= i < s.len() - 1 && s[i] == '{' && '0' <= #[trigger] s[i + 1] <= '9'
}

/// The diagnostic for a shadow line in `file`, saying `message`, with `code`.
pub open spec fn shadow_report(message: Seq<char>, file: Seq<char>, code: Seq<char>) -> crate::diagnostics::DiagnosticView {
    crate::diagnostics::DiagnosticView {
        file_name: Some(file),
        range: None,
        message,
        context: None,
        severity: crate::diagnostics::DiagnosticSeverity::Error,
        code: Some(code),
    }
}

/// What is reported of the shadow line `e` that shadows `source`: an unknown source
/// line (YS0042); otherwise a source line with expressions (YS0043), and a text
/// that differs from the source line's (YS0044).
pub open spec fn shadow_reports(table: Seq<(String, StringInfo)>, e: StringInfo, source: Seq<char>) -> Seq<
    crate::diagnostics::DiagnosticView,
> {
    match entry_index(table, source, table.len() as int) {
        None => seq![shadow_report("\""@ + source + "\" is not a known line ID."@, e.file_name@, "YS0042"@)],
        Some(k) => {
            let text = table[k].1.text@;
            (if has_expression_marker(text) {
                seq![shadow_report("Shadow lines must not have expressions"@, e.file_name@, "YS0043"@)]
            } else {
                Seq::empty()
            }) + (if text != e.text@ {
                seq![shadow_report(
                    "Shadow lines must have the same text as their source lines"@,
                    e.file_name@,
                    "YS0044"@,
                )]
            } else {
                Seq::empty()
            })
        },
    }
}

/// The reports about the shadow lines among the first `n` entries, in order.
pub open spec fn shadow_line_reports(table: Seq<(String, StringInfo)>, n: int) -> Seq<crate::diagnostics::DiagnosticView>
    decreases n,
{
    if n <= 0 {
        Seq::empty()
    } else {
        shadow_line_reports(table, n - 1) + match table[n - 1].1.shadow_line_id {
            Some(source) => shadow_reports(table, table[n - 1].1, source@),
            None => Seq::empty(),
        }
    }
}

fn find_entry(table: &Vec<(String, StringInfo)>, id: &str) -> (r: Option<usize>)
    ensures
        match r {
            Some(i) => entry_index(table@, id@, table@.len() as int) == Some(i as int) && i < table@.len(),
            None => entry_index(table@, id@, table@.len() as int) is None,
        },
{
    let mut i: usize = 0;
    while i < table.len()
        invariant
            i <= table@.len(),
            entry_index(table@, id@, i as int) is None,
        decreases table@.len() - i,
    {
        if crate::text::str_eq(table[i].0.as_str(), id) {
            proof {
                lemma_entry_index_keeps(table@, id@, i + 1, table@.len() as int);
            }
            return Some(i);
        }
        i = i + 1;
    }
    None
}

proof fn lemma_entry_index_keeps(table: Seq<(String, StringInfo)>, id: Seq<char>, m: int, n: int)
    requires
        0 <= m <= n <= table.len(),
        entry_index(table, id, m) is Some,
    ensures
        entry_index(table, id, n) == entry_index(table, id, m),
    decreases n - m,
{
    if m < n {
        lemma_entry_index_keeps(table, id, m, n - 1);
    }
}

fn has_expression_text(s: &str) -> (r: bool)
    ensures
        r == has_expression_marker(s@),
{
    let v = crate::text::chars_of(s);
    let mut i: usize = 0;
    while i < v.len() && v.len() - i > 1
        invariant
            v@ == s@,
            forall|j: int| 0 <= j < i && j < v@.len() - 1 ==> !(v@[j] == '{' && '0' <= #[trigger] v@[j + 1] <= '9'),
        decreases v@.len() - i,
    {
        if v[i] == '{' && '0' <= v[i + 1] && v[i + 1] <= '9' {
            return true;
        }
        i = i + 1;
    }
    false
}

fn shadow_diagnostic(message: String, file: &String, code: &str) -> (r: crate::diagnostics::Diagnostic)
    ensures
        r@ == shadow_report(message@, file@, code@),
{
    crate::diagnostics::Diagnostic::from_message(message).with_file_name(file.clone()).with_code(code)
}

/// Checks every shadow line of the string table: the line it shadows must exist
/// (YS0042), must hold no expressions (YS0043), and must have the same text (YS0044).
pub fn validate_shadow_lines(table: &Vec<(String, StringInfo)>) -> (r: Vec<crate::diagnostics::Diagnostic>)
    ensures
        crate::diagnostics::diagnostics_view(r@) == shadow_line_reports(table@, table@.len() as int),
{
    let mut out: Vec<crate::diagnostics::Diagnostic> = Vec::new();
    let mut i: usize = 0;
    while i < table.len()
        invariant
            i <= table@.len(),
            crate::diagnostics::diagnostics_view(out@) == shadow_line_reports(table@, i as int),
        decreases table@.len() - i,
    {
        let e = &table[i].1;
        let ghost before = crate::diagnostics::diagnostics_view(out@);
        match &e.shadow_line_id {
            Some(source) => match find_entry(table, source.as_str()) {
                None => {
                    let mut m = String::from_str("\"");
                    m.append(source.as_str());
                    m.append("\" is not a known line ID.");
                    out.push(shadow_diagnostic(m, &e.file_name, "YS0042"));
                    assert(crate::diagnostics::diagnostics_view(out@) =~= before + shadow_reports(table@, *e, source@));
                },
                Some(k) => {
                    let text = &table[k].1.text;
                    if has_expression_text(text.as_str()) {
                        out.push(
                            shadow_diagnostic(String::from_str("Shadow lines must not have expressions"), &e.file_name, "YS0043"),
                        );
                    }
                    if !crate::text::str_eq(text.as_str(), e.text.as_str()) {
                        out.push(
                            shadow_diagnostic(
                                String::from_str("Shadow lines must have the same text as their source lines"),
                                &e.file_name,
                                "YS0044",
                            ),
                        );
                    }
                    assert(crate::diagnostics::diagnostics_view(out@) =~= before + shadow_reports(table@, *e, source@));
                },
            },
            None => {
                assert(crate::diagnostics::diagnostics_view(out@) =~= before);
            },
        }
        i = i + 1;
    }
    out
}

} // verus!
