//! Syntax validation: warnings about lines of a node body that parse but are
//! probably not what their author meant.
//!
//! - YS0021: a trailing `>>` without a `<<` on a text line;
//! - YS0022: a `set`, `declare`, `jump` or `detour` keyword outside `<< >>`;
//! - YS0048: text wrapped in single `<` and `>`;
//! - YS0020: text before a command that does not control flow;
//! - YS0019: text after such a command;
//! - YS0064: stray chevrons before or after a command.
use crate::diagnostics::{diagnostics_view, report, Diagnostic, DiagnosticSeverity, DiagnosticView, Position};
use crate::text::{
    alphabetic, byte_len, chars_equal, chars_of, end_before_whitespace, find_chars, first_word, is_alphabetic,
    is_whitespace, leading_whitespace, lemma_lines_short, lemma_utf8_len_at_least, lemma_utf8_len_split, lines, lines_of,
    skip_whitespace, slice_chars, starts_with_chars, string_from_chars, trim, trim_chars, trim_end, trim_start, utf8_len,
    whitespace, word_at,
};
use vstd::prelude::*;

verus! {

/// Whether `word` names a command that controls flow.
pub open spec fn is_flow_control(word: Seq<char>) -> bool {
    word == "if"@ || word == "elseif"@ || word == "else"@ || word == "endif"@ || word == "once"@ || word == "endonce"@
}

/// The number of `c` characters that `s` starts with.
pub open spec fn leading_count(s: Seq<char>, c: char) -> nat
    decreases s.len(),
{
    if s.len() > 0 && s[0] == c {
        1 + leading_count(s.drop_first(), c)
    } else {
        0
    }
}

/// The number of `c` characters that `s` ends with.
pub open spec fn trailing_count(s: Seq<char>, c: char) -> nat
    decreases s.len(),
{
    if s.len() > 0 && s.last() == c {
        1 + trailing_count(s.drop_last(), c)
    } else {
        0
    }
}

/// The range of line `n` from column `a` to column `b`.
pub open spec fn span(n: nat, a: int, b: int) -> Option<(Position, Position)> {
    Some((Position { line: n as usize, character: a as usize }, Position { line: n as usize, character: b as usize }))
}

/// The keyword that a trimmed text line starts with, followed by white space and a
/// target that fits it: a variable for `set` and `declare`, an identifier for `jump`
/// and `detour`.
pub open spec fn unenclosed_keyword(trimmed: Seq<char>, keyword: Seq<char>) -> bool {
    &&& keyword.is_prefix_of(trimmed)
    &&& trimmed.len() > keyword.len()
    &&& is_whitespace(trimmed[keyword.len() as int])
    &&& ({
        let after = trim_start(trimmed.subrange(keyword.len() as int, trimmed.len() as int));
        if keyword == "set"@ || keyword == "declare"@ {
            after.len() > 0 && after[0] == '$'
        } else {
            after.len() > 0 && (alphabetic(after[0]) || after[0] == '_')
        }
    })
}

/// The YS0022 diagnostic of a keyword.
pub open spec fn unenclosed_report(keyword: Seq<char>, n: nat, file_name: Seq<char>) -> DiagnosticView {
    report(
        "'"@ + keyword + "' command must be enclosed in '<<' and '>>'. Did you mean '<<"@ + keyword + " ...'?"@,
        file_name,
        span(n, 0, keyword.len() as int),
        DiagnosticSeverity::Warning,
        "YS0022"@,
    )
}

/// The diagnostics of a trimmed text line that starts with an unenclosed command
/// keyword: one, for the first keyword that fits.
pub open spec fn unenclosed_diagnostics(trimmed: Seq<char>, n: nat, file_name: Seq<char>) -> Seq<DiagnosticView> {
    if unenclosed_keyword(trimmed, "set"@) {
        seq![unenclosed_report("set"@, n, file_name)]
    } else if unenclosed_keyword(trimmed, "declare"@) {
        seq![unenclosed_report("declare"@, n, file_name)]
    } else if unenclosed_keyword(trimmed, "jump"@) {
        seq![unenclosed_report("jump"@, n, file_name)]
    } else if unenclosed_keyword(trimmed, "detour"@) {
        seq![unenclosed_report("detour"@, n, file_name)]
    } else {
        seq![]
    }
}

/// The diagnostics of a text line without `<<`: single angle brackets around it
/// (YS0048), a stray `>>` at its end (YS0021), or an unenclosed command (YS0022).
pub open spec fn malformed_diagnostics(line: Seq<char>, trimmed: Seq<char>, n: nat, file_name: Seq<char>) -> Seq<DiagnosticView> {
    let col = utf8_len(line) - utf8_len(trim_start(line));
    let end = col + utf8_len(trimmed);
    let leading = leading_count(trimmed, '<');
    let trailing = trailing_count(trimmed, '>');
    if leading == 1 && trailing == 1 {
        seq![
            report(
                "Line "@ + trimmed + " has single '<' and '>' wrapping it. Did you mean to make this a command?"@,
                file_name,
                span(n, col, end),
                DiagnosticSeverity::Warning,
                "YS0048"@,
            ),
        ]
    } else if leading <= 1 && trailing == 2 {
        seq![
            report(
                "Stray '>>' without matching '<<'. Did you forget to open the command?"@,
                file_name,
                span(n, end - 2, end),
                DiagnosticSeverity::Warning,
                "YS0021"@,
            ),
        ]
    } else if leading + trailing == 0 {
        unenclosed_diagnostics(trimmed, n, file_name)
    } else {
        seq![]
    }
}

/// The diagnostics of a command line that starts with more than two `<`: YS0064,
/// naming the command.
pub open spec fn leading_chevron_diagnostics(trimmed: Seq<char>, n: nat, file_name: Seq<char>) -> Seq<DiagnosticView> {
    let leading = leading_count(trimmed, '<');
    if leading > 2 {
        let inner = trimmed.subrange(leading as int, trimmed.len() as int);
        let word = first_word(trim_start(inner));
        let name = word.subrange(0, word.len() - trailing_count(word, '>'));
        seq![
            report(
                "Stray '<' found before command '"@ + name + "'. Did you accidentally add extra chevrons?"@,
                file_name,
                span(n, 0, leading - 2),
                DiagnosticSeverity::Warning,
                "YS0064"@,
            ),
        ]
    } else {
        seq![]
    }
}

/// What a scan of a line for commands has seen so far: text before the first command
/// that does not control flow, text after the last one, whether that text is only
/// `>`, and the first and last such commands.
pub struct Scan {
    /// Text came before the first command.
    pub before: bool,
    /// Text came after the last command.
    pub after: bool,
    /// The text after the last command is only `>`.
    pub only_chevrons: bool,
    /// The first command.
    pub first: Option<Seq<char>>,
    /// The last command.
    pub last: Option<Seq<char>>,
}

/// The index of the first `>` of `line` at or after `i`, or its length.
pub open spec fn command_end(line: Seq<char>, i: int) -> int
    decreases line.len() - i,
{
    if i >= line.len() || line[i] == '>' {
        i
    } else {
        command_end(line, i + 1)
    }
}

/// The index just after the `>>` that closes a command, scanning from `j`, or the
/// length of `line`.
pub open spec fn closing_end(line: Seq<char>, j: int) -> int
    decreases line.len() - j,
{
    if j >= line.len() {
        j
    } else if line[j] == '>' && j + 1 < line.len() && line[j + 1] == '>' {
        j + 2
    } else {
        closing_end(line, j + 1)
    }
}

/// [`command_end`] and [`closing_end`] do not go back, nor past the end.
pub proof fn lemma_ends_advance(line: Seq<char>, i: int)
    ensures
        command_end(line, i) >= i,
        closing_end(line, i) >= i,
        i <= line.len() ==> command_end(line, i) <= line.len(),
        i <= line.len() ==> closing_end(line, i) <= line.len(),
    decreases line.len() - i,
{
    if i < line.len() {
        lemma_ends_advance(line, i + 1);
    }
}

/// The scan of `line` from `i` on, having seen `st`.
pub open spec fn scan(line: Seq<char>, i: int, st: Scan) -> Scan
    decreases line.len() + 2 - i,
{
    if i < 0 || i >= line.len() {
        st
    } else if line[i] == '\\' {
        scan(line, i + 2, st)
    } else if line[i] == '<' && i + 1 < line.len() && line[i + 1] == '<' {
        let b = command_end(line, i + 2);
        let next = closing_end(line, b);
        let name = trim(line.subrange(i + 2, b));
        proof {
            lemma_ends_advance(line, i + 2);
            lemma_ends_advance(line, b);
        }
        if name.len() == 0 || is_flow_control(first_word(name)) {
            scan(line, next, st)
        } else {
            scan(
                line,
                next,
                Scan {
                    first: if st.first is None { Some(name) } else { st.first },
                    last: Some(name),
                    after: false,
                    only_chevrons: true,
                    ..st
                },
            )
        }
    } else if !is_whitespace(line[i]) {
        if st.first is None {
            scan(line, i + 1, Scan { before: true, ..st })
        } else {
            scan(line, i + 1, Scan { after: true, only_chevrons: st.only_chevrons && line[i] == '>', ..st })
        }
    } else {
        scan(line, i + 1, st)
    }
}

/// The state before a scan.
pub open spec fn scan_start() -> Scan {
    Scan { before: false, after: false, only_chevrons: true, first: None, last: None }
}

/// The diagnostics of a line that holds commands: text before the first command that
/// does not control flow (YS0020), and text after the last one (YS0064 where it is
/// only `>`, YS0019 otherwise).
pub open spec fn mixed_diagnostics(line: Seq<char>, n: nat, file_name: Seq<char>) -> Seq<DiagnosticView> {
    let st = scan(line, 0, scan_start());
    let range = span(n, 0, utf8_len(line) as int);
    match st.first {
        None => seq![],
        Some(first) => {
            let last = st.last->0;
            (if st.before {
                seq![
                    report(
                        "Command \""@ + first
                            + "\" found following a line of dialogue. Commands should start on a new line."@,
                        file_name,
                        range,
                        DiagnosticSeverity::Error,
                        "YS0020"@,
                    ),
                ]
            } else {
                seq![]
            }) + (if st.after && st.only_chevrons {
                seq![
                    report(
                        "Stray '>' found following command '"@ + last
                            + "'. Did you accidentally add extra chevrons?"@,
                        file_name,
                        range,
                        DiagnosticSeverity::Warning,
                        "YS0064"@,
                    ),
                ]
            } else if st.after {
                seq![
                    report(
                        "Dialogue \""@ + last
                            + "\" content found following a command. Commands should be on their own line."@,
                        file_name,
                        range,
                        DiagnosticSeverity::Warning,
                        "YS0019"@,
                    ),
                ]
            } else {
                seq![]
            })
        },
    }
}

/// Whether `s` contains `pattern`.
pub open spec fn contains(s: Seq<char>, pattern: Seq<char>) -> bool {
    crate::text::find(s, pattern) is Some
}

/// Whether line `k` of `ls` lies in a node body: the last `---` or `===` before it
/// was `---`.
pub open spec fn in_body(ls: Seq<Seq<char>>, k: int) -> bool
    decreases k,
{
    if k <= 0 {
        false
    } else {
        let t = trim(ls[k - 1]);
        if t == "---"@ {
            true
        } else if t == "==="@ {
            false
        } else {
            in_body(ls, k - 1)
        }
    }
}

/// The diagnostics of line `k` of `ls`.
pub open spec fn line_diagnostics(ls: Seq<Seq<char>>, k: int, file_name: Seq<char>) -> Seq<DiagnosticView> {
    let line = ls[k];
    let t = trim(line);
    if t == "---"@ || t == "==="@ || !in_body(ls, k) || t.len() == 0 || "//"@.is_prefix_of(t) || "->"@.is_prefix_of(t) {
        seq![]
    } else if "<<"@.is_prefix_of(t) {
        leading_chevron_diagnostics(t, k as nat, file_name) + mixed_diagnostics(line, k as nat, file_name)
    } else if contains(t, "<<"@) {
        mixed_diagnostics(line, k as nat, file_name)
    } else {
        malformed_diagnostics(line, t, k as nat, file_name)
    }
}

/// The diagnostics of the first `k` lines of `ls`.
pub open spec fn lines_diagnostics(ls: Seq<Seq<char>>, k: int, file_name: Seq<char>) -> Seq<DiagnosticView>
    decreases k,
{
    if k <= 0 {
        seq![]
    } else {
        lines_diagnostics(ls, k - 1, file_name) + line_diagnostics(ls, k - 1, file_name)
    }
}

/// The syntax diagnostics of a file.
pub open spec fn file_syntax_diagnostics(source: Seq<char>, file_name: Seq<char>) -> Seq<DiagnosticView> {
    lines_diagnostics(lines(source), lines(source).len() as int, file_name)
}


/// The number of `c` characters that `s` starts with.
fn count_leading(s: &Vec<char>, c: char) -> (r: usize)
    ensures
        r == leading_count(s@, c),
        r <= s@.len(),
        forall|j: int| 0 <= j < r ==> s@[j] == c,
{
    let mut i: usize = 0;
    assert(s@.subrange(0, s@.len() as int) =~= s@);
    while i < s.len() && s[i] == c
        invariant
            i <= s@.len(),
            leading_count(s@, c) == i + leading_count(s@.subrange(i as int, s@.len() as int), c),
            forall|j: int| 0 <= j < i ==> s@[j] == c,
        decreases s.len() - i,
    {
        assert(s@.subrange(i as int, s@.len() as int).drop_first() =~= s@.subrange(i + 1, s@.len() as int));
        i = i + 1;
    }
    i
}

/// The number of `c` characters that `s` ends with.
fn count_trailing(s: &Vec<char>, c: char) -> (r: usize)
    ensures
        r == trailing_count(s@, c),
        r <= s@.len(),
{
    let mut j: usize = s.len();
    assert(s@.subrange(0, s@.len() as int) =~= s@);
    while j > 0 && s[j - 1] == c
        invariant
            j <= s@.len(),
            trailing_count(s@, c) == (s@.len() - j) + trailing_count(s@.subrange(0, j as int), c),
        decreases j,
    {
        assert(s@.subrange(0, j as int).drop_last() =~= s@.subrange(0, j - 1));
        j = j - 1;
    }
    s.len() - j
}

/// Records a diagnostic.
fn push_report(
    diagnostics: &mut Vec<Diagnostic>,
    message: String,
    file_name: &str,
    n: usize,
    a: usize,
    b: usize,
    severity: DiagnosticSeverity,
    code: &str,
)
    ensures
        diagnostics_view(final(diagnostics)@) == diagnostics_view(old(diagnostics)@).push(
            report(message@, file_name@, span(n as nat, a as int, b as int), severity, code@),
        ),
{
    let d = Diagnostic::from_message(message).with_file_name(String::from_str(file_name)).with_range(
        Position { line: n, character: a },
        Position { line: n, character: b },
    ).with_severity(severity).with_code(code);
    diagnostics.push(d);
    assert(diagnostics_view(diagnostics@) =~= diagnostics_view(old(diagnostics)@).push(
        report(message@, file_name@, span(n as nat, a as int, b as int), severity, code@),
    ));
}

/// Whether `trimmed` starts with the unenclosed keyword `keyword`.
fn fits_keyword(trimmed: &Vec<char>, keyword: &str) -> (r: bool)
    ensures
        r == unenclosed_keyword(trimmed@, keyword@),
{
    let k = chars_of(keyword);
    if !starts_with_chars(trimmed, &k) || trimmed.len() <= k.len() || !whitespace(trimmed[k.len()]) {
        return false;
    }
    let j = skip_whitespace(trimmed, k.len());
    if j >= trimmed.len() {
        return false;
    }
    assert(trimmed@.subrange(j as int, trimmed@.len() as int)[0] == trimmed@[j as int]);
    if chars_equal(&k, "set") || chars_equal(&k, "declare") {
        trimmed[j] == '$'
    } else {
        is_alphabetic(trimmed[j]) || trimmed[j] == '_'
    }
}

/// Records the YS0022 diagnostic of a keyword.
fn push_unenclosed(keyword: &str, line_num: usize, file_name: &str, diagnostics: &mut Vec<Diagnostic>)
    requires
        keyword@.len() < 10,
    ensures
        diagnostics_view(final(diagnostics)@) == diagnostics_view(old(diagnostics)@).push(
            unenclosed_report(keyword@, line_num as nat, file_name@),
        ),
{
    let mut m = String::from_str("'");
    m.append(keyword);
    m.append("' command must be enclosed in '<<' and '>>'. Did you mean '<<");
    m.append(keyword);
    m.append(" ...'?");
    let n = keyword.unicode_len();
    push_report(diagnostics, m, file_name, line_num, 0, n, DiagnosticSeverity::Warning, "YS0022");
}

/// Reports a `set`, `declare`, `jump` or `detour` keyword that starts a text line
/// outside `<< >>` (YS0022).
pub fn check_unenclosed_command(trimmed: &Vec<char>, line_num: usize, file_name: &str, diagnostics: &mut Vec<Diagnostic>)
    ensures
        diagnostics_view(final(diagnostics)@) == diagnostics_view(old(diagnostics)@) + unenclosed_diagnostics(
            trimmed@,
            line_num as nat,
            file_name@,
        ),
{
    let ghost before = diagnostics_view(diagnostics@);
    proof {
        reveal_strlit("set");
        reveal_strlit("declare");
        reveal_strlit("jump");
        reveal_strlit("detour");
    }
    if fits_keyword(trimmed, "set") {
        push_unenclosed("set", line_num, file_name, diagnostics);
    } else if fits_keyword(trimmed, "declare") {
        push_unenclosed("declare", line_num, file_name, diagnostics);
    } else if fits_keyword(trimmed, "jump") {
        push_unenclosed("jump", line_num, file_name, diagnostics);
    } else if fits_keyword(trimmed, "detour") {
        push_unenclosed("detour", line_num, file_name, diagnostics);
    }
    assert(diagnostics_view(diagnostics@) =~= before + unenclosed_diagnostics(trimmed@, line_num as nat, file_name@));
}

/// Reports malformed chevrons on a text line without `<<` (YS0048, YS0021), or an
/// unenclosed command keyword (YS0022).
pub fn check_malformed_text_line(
    line: &Vec<char>,
    trimmed: &Vec<char>,
    line_num: usize,
    file_name: &str,
    diagnostics: &mut Vec<Diagnostic>,
)
    requires
        trimmed@ == trim(line@),
        4 * line@.len() <= usize::MAX,
    ensures
        diagnostics_view(final(diagnostics)@) == diagnostics_view(old(diagnostics)@) + malformed_diagnostics(
            line@,
            trimmed@,
            line_num as nat,
            file_name@,
        ),
{
    let ghost before = diagnostics_view(diagnostics@);
    let a = leading_whitespace(line);
    let b = end_before_whitespace(line, a);
    let tail = slice_chars(line, a, line.len());
    let whole = byte_len(line);
    let rest = byte_len(&tail);
    let inner = byte_len(trimmed);
    proof {
        lemma_utf8_len_split(line@, a as int);
        lemma_utf8_len_split(tail@, (b - a) as int);
        assert(tail@.subrange(0, (b - a) as int) =~= trimmed@);
        lemma_utf8_len_at_least(trimmed@);
    }
    let col = whole - rest;
    let end = col + inner;
    let leading = count_leading(trimmed, '<');
    let trailing = count_trailing(trimmed, '>');
    if leading == 1 && trailing == 1 {
        let mut m = String::from_str("Line ");
        let t = string_from_chars(trimmed);
        m.append(t.as_str());
        m.append(" has single '<' and '>' wrapping it. Did you mean to make this a command?");
        push_report(diagnostics, m, file_name, line_num, col, end, DiagnosticSeverity::Warning, "YS0048");
    } else if leading <= 1 && trailing == 2 {
        push_report(
            diagnostics,
            String::from_str("Stray '>>' without matching '<<'. Did you forget to open the command?"),
            file_name,
            line_num,
            end - 2,
            end,
            DiagnosticSeverity::Warning,
            "YS0021",
        );
    } else if leading + trailing == 0 {
        check_unenclosed_command(trimmed, line_num, file_name, diagnostics);
    }
    assert(diagnostics_view(diagnostics@) =~= before + malformed_diagnostics(line@, trimmed@, line_num as nat, file_name@));
}

/// Reports more than two `<` before a command (YS0064).
pub fn check_rogue_leading_chevrons(trimmed: &Vec<char>, line_num: usize, file_name: &str, diagnostics: &mut Vec<Diagnostic>)
    ensures
        diagnostics_view(final(diagnostics)@) == diagnostics_view(old(diagnostics)@) + leading_chevron_diagnostics(
            trimmed@,
            line_num as nat,
            file_name@,
        ),
{
    let ghost before = diagnostics_view(diagnostics@);
    let leading = count_leading(trimmed, '<');
    if leading > 2 {
        let j = skip_whitespace(trimmed, leading);
        let word = word_at(trimmed, j);
        let t = count_trailing(&word, '>');
        let name = slice_chars(&word, 0, word.len() - t);
        let mut m = String::from_str("Stray '<' found before command '");
        let name_text = string_from_chars(&name);
        m.append(name_text.as_str());
        m.append("'. Did you accidentally add extra chevrons?");
        push_report(diagnostics, m, file_name, line_num, 0, leading - 2, DiagnosticSeverity::Warning, "YS0064");
    }
    assert(diagnostics_view(diagnostics@) =~= before + leading_chevron_diagnostics(trimmed@, line_num as nat, file_name@));
}

/// [`command_end`].
fn command_end_at(line: &Vec<char>, i: usize) -> (r: usize)
    requires
        i <= line@.len(),
    ensures
        r == command_end(line@, i as int),
        i <= r <= line@.len(),
{
    let mut j: usize = i;
    while j < line.len() && line[j] != '>'
        invariant
            i <= j <= line@.len(),
            command_end(line@, i as int) == command_end(line@, j as int),
        decreases line.len() - j,
    {
        j = j + 1;
    }
    j
}

/// [`closing_end`].
fn closing_end_at(line: &Vec<char>, j: usize) -> (r: usize)
    requires
        j <= line@.len(),
    ensures
        r == closing_end(line@, j as int),
        j <= r <= line@.len(),
{
    let mut k: usize = j;
    while k < line.len()
        invariant
            j <= k <= line@.len(),
            closing_end(line@, j as int) == closing_end(line@, k as int),
        decreases line.len() - k,
    {
        if line[k] == '>' && k + 1 < line.len() && line[k + 1] == '>' {
            return k + 2;
        }
        k = k + 1;
    }
    k
}

/// Whether `word` names a command that controls flow.
fn is_flow(word: &Vec<char>) -> (r: bool)
    ensures
        r == is_flow_control(word@),
{
    chars_equal(word, "if") || chars_equal(word, "elseif") || chars_equal(word, "else") || chars_equal(word, "endif")
        || chars_equal(word, "once") || chars_equal(word, "endonce")
}

/// The view of an optional character list.
pub open spec fn opt_seq(o: Option<Vec<char>>) -> Option<Seq<char>> {
    match o {
        Some(v) => Some(v@),
        None => None,
    }
}

/// Reports text before (YS0020) or after (YS0019, YS0064) the commands of a line that
/// do not control flow.
pub fn check_text_mixed_with_command(line: &Vec<char>, line_num: usize, file_name: &str, diagnostics: &mut Vec<Diagnostic>)
    requires
        4 * line@.len() <= usize::MAX,
    ensures
        diagnostics_view(final(diagnostics)@) == diagnostics_view(old(diagnostics)@) + mixed_diagnostics(
            line@,
            line_num as nat,
            file_name@,
        ),
{
    let ghost start = diagnostics_view(diagnostics@);
    let mut before = false;
    let mut after = false;
    let mut only = true;
    let mut first: Option<Vec<char>> = None;
    let mut last: Option<Vec<char>> = None;
    let mut i: usize = 0;
    while i < line.len()
        invariant
            i <= line@.len(),
            scan(line@, 0, scan_start()) == scan(
                line@,
                i as int,
                Scan { before, after, only_chevrons: only, first: opt_seq(first), last: opt_seq(last) },
            ),
            first is Some ==> last is Some,
        decreases line.len() - i,
    {
        let ghost st = Scan { before, after, only_chevrons: only, first: opt_seq(first), last: opt_seq(last) };
        if line[i] == '\\' {
            assert(scan(line@, i as int, st) == scan(line@, i + 2, st));
            if line.len() - i >= 2 {
                i = i + 2;
            } else {
                assert(scan(line@, i + 2, st) == st);
                assert(scan(line@, line@.len() as int, st) == st);
                i = line.len();
            }
        } else if line[i] == '<' && i + 1 < line.len() && line[i + 1] == '<' {
            let b = command_end_at(line, i + 2);
            let next = closing_end_at(line, b);
            let raw = slice_chars(line, i + 2, b);
            let name = trim_chars(&raw);
            let word = word_at(&name, 0);
            assert(name@.subrange(0, name@.len() as int) =~= name@);
            proof {
                lemma_ends_advance(line@, i + 2);
                lemma_ends_advance(line@, b as int);
                assert(name@ == trim(line@.subrange(i + 2, b as int)));
            }
            if name.len() == 0 || is_flow(&word) {
                assert(scan(line@, i as int, st) == scan(line@, next as int, st));
                i = next;
            } else {
                if first.is_none() {
                    first = Some(slice_chars(&name, 0, name.len()));
                    assert(name@.subrange(0, name@.len() as int) =~= name@);
                }
                let ghost nm = name@;
                last = Some(name);
                after = false;
                only = true;
                assert(opt_seq(last) == Some(nm));
                assert(opt_seq(first) == if st.first is None { Some(nm) } else { st.first });
                assert(scan(line@, i as int, st) == scan(
                    line@,
                    next as int,
                    Scan { before, after, only_chevrons: only, first: opt_seq(first), last: opt_seq(last) },
                ));
                i = next;
            }
        } else if !whitespace(line[i]) {
            if first.is_none() {
                before = true;
            } else {
                after = true;
                only = only && line[i] == '>';
            }
            assert(scan(line@, i as int, st) == scan(
                line@,
                i + 1,
                Scan { before, after, only_chevrons: only, first: opt_seq(first), last: opt_seq(last) },
            ));
            i = i + 1;
        } else {
            assert(scan(line@, i as int, st) == scan(line@, i + 1, st));
            i = i + 1;
        }
    }
    match (&first, &last) {
        (Some(f), Some(l)) => {
            let width = byte_len(line);
            if before {
                let mut m = String::from_str("Command \"");
                m.append(string_from_chars(f).as_str());
                m.append("\" found following a line of dialogue. Commands should start on a new line.");
                push_report(diagnostics, m, file_name, line_num, 0, width, DiagnosticSeverity::Error, "YS0020");
            }
            if after && only {
                let mut m = String::from_str("Stray '>' found following command '");
                m.append(string_from_chars(l).as_str());
                m.append("'. Did you accidentally add extra chevrons?");
                push_report(diagnostics, m, file_name, line_num, 0, width, DiagnosticSeverity::Warning, "YS0064");
            } else if after {
                let mut m = String::from_str("Dialogue \"");
                m.append(string_from_chars(l).as_str());
                m.append("\" content found following a command. Commands should be on their own line.");
                push_report(diagnostics, m, file_name, line_num, 0, width, DiagnosticSeverity::Warning, "YS0019");
            }
        },
        _ => {},
    }
    assert(diagnostics_view(diagnostics@) =~= start + mixed_diagnostics(line@, line_num as nat, file_name@));
}

/// The syntax diagnostics of a file: each line of a node body is checked for
/// commands mixed with text, stray chevrons and unenclosed commands.
pub fn check_file_syntax(source: &str, file_name: &str) -> (r: Vec<Diagnostic>)
    requires
        4 * source@.len() <= usize::MAX,
    ensures
        diagnostics_view(r@) == file_syntax_diagnostics(source@, file_name@),
{
    let mut diagnostics: Vec<Diagnostic> = Vec::new();
    let ls = lines_of(source);
    let ghost lv = ls@.map_values(|l: String| l@);
    proof {
        lemma_lines_short(source@);
    }
    let mut in_node_body = false;
    let mut k: usize = 0;
    let dashes = chars_of("//");
    let arrow = chars_of("->");
    let open = chars_of("<<");
    while k < ls.len()
        invariant
            lv == ls@.map_values(|l: String| l@),
            lv == lines(source@),
            4 * source@.len() <= usize::MAX,
            forall|j: int| 0 <= j < lv.len() ==> (#[trigger] lv[j]).len() <= source@.len(),
            k <= lv.len(),
            in_node_body == in_body(lv, k as int),
            diagnostics_view(diagnostics@) == lines_diagnostics(lv, k as int, file_name@),
            dashes@ == "//"@,
            arrow@ == "->"@,
            open@ == "<<"@,
        decreases ls.len() - k,
    {
        let line = chars_of(ls[k].as_str());
        assert(line@ == lv[k as int]);
        let trimmed = trim_chars(&line);
        let ghost before = diagnostics_view(diagnostics@);
        if chars_equal(&trimmed, "---") {
            in_node_body = true;
        } else if chars_equal(&trimmed, "===") {
            in_node_body = false;
        } else if in_node_body && trimmed.len() > 0 && !starts_with_chars(&trimmed, &dashes) && !starts_with_chars(
            &trimmed,
            &arrow,
        ) {
            if starts_with_chars(&trimmed, &open) {
                check_rogue_leading_chevrons(&trimmed, k, file_name, &mut diagnostics);
                check_text_mixed_with_command(&line, k, file_name, &mut diagnostics);
            } else if find_chars(&trimmed, &open).is_some() {
                check_text_mixed_with_command(&line, k, file_name, &mut diagnostics);
            } else {
                check_malformed_text_line(&line, &trimmed, k, file_name, &mut diagnostics);
            }
        }
        assert(diagnostics_view(diagnostics@) =~= before + line_diagnostics(lv, k as int, file_name@));
        k = k + 1;
    }
    diagnostics
}
} // verus!
