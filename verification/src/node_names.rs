//! Node names: every node title must be unique, except among the members of a node
//! group, which all carry `when:` headers and must differ in their subtitles.
use vstd::prelude::*;

use crate::diagnostics::{diagnostics_view, Diagnostic, DiagnosticSeverity, DiagnosticView, Position};
use crate::line_tags::{contains_str, string_set};
use crate::text::str_eq;

verus! {

/// The title header of a node, where it stands, and whether the node has a `when:`
/// header.
#[derive(Debug)]
pub struct TitledNode {
    /// The node's title.
    pub title: String,
    /// The file the node is in.
    pub file_name: String,
    /// Whether the node has a `when:` header.
    pub has_when: bool,
    /// Where the title header starts.
    pub start: Position,
    /// Where the title header ends.
    pub end: Position,
    /// The text of the title header.
    pub context: String,
}

/// The subtitle header of a node, where it stands, and the node's title.
#[derive(Debug)]
pub struct SubtitledNode {
    /// The node's title.
    pub title: String,
    /// The node's subtitle, trimmed.
    pub subtitle: String,
    /// The file the node is in.
    pub file_name: String,
    /// Where the subtitle header starts.
    pub start: Position,
    /// Where the subtitle header ends.
    pub end: Position,
    /// The text of the subtitle header.
    pub context: String,
}

/// The view of a diagnostic about a header from `start` to `end` of `file`.
pub open spec fn header_report(
    message: Seq<char>,
    file: Seq<char>,
    start: Position,
    end: Position,
    context: Seq<char>,
    code: Seq<char>,
) -> DiagnosticView {
    DiagnosticView {
        file_name: Some(file),
        range: Some((start, end)),
        message,
        context: Some(context),
        severity: DiagnosticSeverity::Error,
        code: Some(code),
    }
}

/// The number of nodes among the first `n` titled `t`.
pub open spec fn title_count(e: Seq<TitledNode>, t: Seq<char>, n: int) -> nat
    decreases n,
{
    if n <= 0 {
        0
    } else {
        title_count(e, t, n - 1) + if e[n - 1].title@ == t { 1nat } else { 0nat }
    }
}

/// Whether some node titled `t` has a `when:` header.
pub open spec fn some_has_when(e: Seq<TitledNode>, t: Seq<char>) -> bool {
    exists|i: int| 0 <= i < e.len() && #[trigger] e[i].title@ == t && e[i].has_when
}

/// The message for a node of a group that lacks a `when:` header.
pub open spec fn missing_when_message(name: Seq<char>) -> Seq<char> {
    "All nodes in the group '"@ + name
        + "' must have a 'when' clause (use 'when: always' if you want this node to not have any conditions)."@
}

/// The message for a title that more than one node has.
pub open spec fn duplicate_title_message(name: Seq<char>) -> Seq<char> {
    "More than one node is named "@ + name
}

/// What is reported of the node `x`, whose title more than one node has: where some
/// of them have `when:` headers, that it lacks one (YS0031) if it does; where none
/// has, that its title is taken (YS0011).
pub open spec fn duplicate_reports(e: Seq<TitledNode>, x: TitledNode) -> Seq<DiagnosticView> {
    if some_has_when(e, x.title@) {
        if !x.has_when {
            seq![header_report(missing_when_message(x.title@), x.file_name@, x.start, x.end, x.context@, "YS0031"@)]
        } else {
            Seq::empty()
        }
    } else {
        seq![header_report(duplicate_title_message(x.title@), x.file_name@, x.start, x.end, x.context@, "YS0011"@)]
    }
}

/// The reports for the first `n` nodes titled `t`.
pub open spec fn reports_for_title(e: Seq<TitledNode>, t: Seq<char>, n: int) -> Seq<DiagnosticView>
    decreases n,
{
    if n <= 0 {
        Seq::empty()
    } else if e[n - 1].title@ == t {
        reports_for_title(e, t, n - 1) + duplicate_reports(e, e[n - 1])
    } else {
        reports_for_title(e, t, n - 1)
    }
}

/// Whether node `i` is the first with its title.
pub open spec fn first_titled(e: Seq<TitledNode>, i: int) -> bool {
    forall|j: int| 0 <= j < i ==> #[trigger] e[j].title@ != e[i].title@
}

/// The reports about duplicate titles among the first `n` nodes: for each title more
/// than one node has and that is no node group's, in the order the titles first
/// occur, the reports for its nodes in order.
pub open spec fn duplicate_title_reports(e: Seq<TitledNode>, groups: Set<Seq<char>>, n: int) -> Seq<DiagnosticView>
    decreases n,
{
    if n <= 0 {
        Seq::empty()
    } else {
        let prev = duplicate_title_reports(e, groups, n - 1);
        let t = e[n - 1].title@;
        if first_titled(e, n - 1) && title_count(e, t, e.len() as int) > 1 && !groups.contains(t) {
            prev + reports_for_title(e, t, e.len() as int)
        } else {
            prev
        }
    }
}

fn header_diagnostic(message: String, file: &String, start: Position, end: Position, context: &String, code: &str) -> (r:
    Diagnostic)
    ensures
        r@ == header_report(message@, file@, start, end, context@, code@),
{
    Diagnostic {
        file_name: Some(file.clone()),
        range: Some((start, end)),
        message,
        context: Some(context.clone()),
        severity: DiagnosticSeverity::Error,
        code: Some(String::from_str(code)),
    }
}

fn append_reports(out: &mut Vec<Diagnostic>, more: Vec<Diagnostic>)
    ensures
        diagnostics_view(final(out)@) == diagnostics_view(old(out)@) + diagnostics_view(more@),
{
    let mut more = more;
    let ghost m = more@;
    out.append(&mut more);
    assert(diagnostics_view(out@) =~= diagnostics_view(old(out)@) + diagnostics_view(m));
}

fn any_when(e: &Vec<TitledNode>, t: &str) -> (r: bool)
    ensures
        r == some_has_when(e@, t@),
{
    let mut i: usize = 0;
    while i < e.len()
        invariant
            i <= e@.len(),
            forall|j: int| 0 <= j < i ==> !(#[trigger] e@[j].title@ == t@ && e@[j].has_when),
        decreases e@.len() - i,
    {
        if e[i].has_when && str_eq(e[i].title.as_str(), t) {
            return true;
        }
        i = i + 1;
    }
    false
}

fn count_titled(e: &Vec<TitledNode>, t: &str) -> (r: usize)
    ensures
        r == title_count(e@, t@, e@.len() as int),
{
    let mut c: usize = 0;
    let mut i: usize = 0;
    while i < e.len()
        invariant
            i <= e@.len(),
            c == title_count(e@, t@, i as int),
            c <= i,
        decreases e@.len() - i,
    {
        if str_eq(e[i].title.as_str(), t) {
            c = c + 1;
        }
        i = i + 1;
    }
    c
}

fn title_seen_before(e: &Vec<TitledNode>, i: usize) -> (r: bool)
    requires
        i < e@.len(),
    ensures
        r == !first_titled(e@, i as int),
{
    let mut j: usize = 0;
    while j < i
        invariant
            j <= i < e@.len(),
            forall|k: int| 0 <= k < j ==> #[trigger] e@[k].title@ != e@[i as int].title@,
        decreases i - j,
    {
        if str_eq(e[j].title.as_str(), e[i].title.as_str()) {
            return true;
        }
        j = j + 1;
    }
    false
}

fn reports_for(e: &Vec<TitledNode>, t: &str) -> (r: Vec<Diagnostic>)
    ensures
        diagnostics_view(r@) == reports_for_title(e@, t@, e@.len() as int),
{
    let with_when = any_when(e, t);
    let mut out: Vec<Diagnostic> = Vec::new();
    let mut i: usize = 0;
    while i < e.len()
        invariant
            i <= e@.len(),
            with_when == some_has_when(e@, t@),
            diagnostics_view(out@) == reports_for_title(e@, t@, i as int),
        decreases e@.len() - i,
    {
        let x = &e[i];
        if str_eq(x.title.as_str(), t) {
            let ghost before = out@;
            if with_when {
                if !x.has_when {
                    let mut m = String::from_str("All nodes in the group '");
                    m.append(t);
                    m.append(
                        "' must have a 'when' clause (use 'when: always' if you want this node to not have any conditions).",
                    );
                    out.push(header_diagnostic(m, &x.file_name, x.start, x.end, &x.context, "YS0031"));
                }
            } else {
                let mut m = String::from_str("More than one node is named ");
                m.append(t);
                out.push(header_diagnostic(m, &x.file_name, x.start, x.end, &x.context, "YS0011"));
            }
            assert(diagnostics_view(out@) =~= diagnostics_view(before) + duplicate_reports(e@, e@[i as int]));
        }
        i = i + 1;
    }
    out
}

/// Reports the titles that more than one node has (YS0011), unless they are node
/// group titles (`group_titles`). Where some but not all nodes of such a title carry
/// `when:` headers, each one without reads as a group member missing its condition
/// (YS0031) instead.
pub fn validate_unique_node_names(nodes: &Vec<TitledNode>, group_titles: &Vec<String>) -> (r: Vec<Diagnostic>)
    ensures
        diagnostics_view(r@) == duplicate_title_reports(nodes@, string_set(group_titles@), nodes@.len() as int),
{
    let ghost groups = string_set(group_titles@);
    let mut out: Vec<Diagnostic> = Vec::new();
    let mut i: usize = 0;
    while i < nodes.len()
        invariant
            i <= nodes@.len(),
            groups == string_set(group_titles@),
            diagnostics_view(out@) == duplicate_title_reports(nodes@, groups, i as int),
        decreases nodes@.len() - i,
    {
        let t = nodes[i].title.as_str();
        if !title_seen_before(nodes, i) && count_titled(nodes, t) > 1 && !contains_str(group_titles, t) {
            let more = reports_for(nodes, t);
            append_reports(&mut out, more);
        }
        i = i + 1;
    }
    out
}

// ---------------------------------------------------------------------------
// Subtitles
// ---------------------------------------------------------------------------

/// Whether two subtitle headers are in the same file, of the same title, with the
/// same subtitle.
pub open spec fn same_key(a: SubtitledNode, b: SubtitledNode) -> bool {
    a.file_name@ == b.file_name@ && a.title@ == b.title@ && a.subtitle@ == b.subtitle@
}

/// The number of headers among the first `n` with the key of `x`.
pub open spec fn key_count(e: Seq<SubtitledNode>, x: SubtitledNode, n: int) -> nat
    decreases n,
{
    if n <= 0 {
        0
    } else {
        key_count(e, x, n - 1) + if same_key(e[n - 1], x) { 1nat } else { 0nat }
    }
}

/// The message for a subtitle that more than one member of a group has.
pub open spec fn duplicate_subtitle_message(title: Seq<char>, subtitle: Seq<char>) -> Seq<char> {
    "Node group '"@ + title + "' has more than one node with the subtitle '"@ + subtitle + "'."@
}

/// The report about the subtitle header `x`.
pub open spec fn subtitle_report(x: SubtitledNode) -> DiagnosticView {
    header_report(duplicate_subtitle_message(x.title@, x.subtitle@), x.file_name@, x.start, x.end, x.context@, "YS0032"@)
}

/// The reports for the headers among the first `n` with the key of `x`.
pub open spec fn reports_for_key(e: Seq<SubtitledNode>, x: SubtitledNode, n: int) -> Seq<DiagnosticView>
    decreases n,
{
    if n <= 0 {
        Seq::empty()
    } else if same_key(e[n - 1], x) {
        reports_for_key(e, x, n - 1).push(subtitle_report(e[n - 1]))
    } else {
        reports_for_key(e, x, n - 1)
    }
}

/// Whether header `i` is the first with its key.
pub open spec fn first_keyed(e: Seq<SubtitledNode>, i: int) -> bool {
    forall|j: int| 0 <= j < i ==> !same_key(#[trigger] e[j], e[i])
}

/// The reports about subtitles among the first `n` headers: for each file, group
/// title and subtitle that more than one member of a node group (`groups`) shares, in
/// the order they first occur, a report for each such header in order.
pub open spec fn duplicate_subtitle_reports(e: Seq<SubtitledNode>, groups: Set<Seq<char>>, n: int) -> Seq<
    DiagnosticView,
>
    decreases n,
{
    if n <= 0 {
        Seq::empty()
    } else {
        let prev = duplicate_subtitle_reports(e, groups, n - 1);
        let x = e[n - 1];
        if first_keyed(e, n - 1) && groups.contains(x.title@) && key_count(e, x, e.len() as int) > 1 {
            prev + reports_for_key(e, x, e.len() as int)
        } else {
            prev
        }
    }
}

fn same_key_exec(a: &SubtitledNode, b: &SubtitledNode) -> (r: bool)
    ensures
        r == same_key(*a, *b),
{
    str_eq(a.file_name.as_str(), b.file_name.as_str()) && str_eq(a.title.as_str(), b.title.as_str()) && str_eq(
        a.subtitle.as_str(),
        b.subtitle.as_str(),
    )
}

fn subtitle_diagnostic(x: &SubtitledNode) -> (r: Diagnostic)
    ensures
        r@ == subtitle_report(*x),
{
    let mut m = String::from_str("Node group '");
    m.append(x.title.as_str());
    m.append("' has more than one node with the subtitle '");
    m.append(x.subtitle.as_str());
    m.append("'.");
    header_diagnostic(m, &x.file_name, x.start, x.end, &x.context, "YS0032")
}

/// Reports, within each file, the subtitles that more than one member of the same
/// node group (`group_titles`) shares (YS0032), once for each such member.
pub fn validate_unique_node_subtitles(headers: &Vec<SubtitledNode>, group_titles: &Vec<String>) -> (r: Vec<Diagnostic>)
    ensures
        diagnostics_view(r@) == duplicate_subtitle_reports(headers@, string_set(group_titles@), headers@.len() as int),
{
    let ghost groups = string_set(group_titles@);
    let ghost e = headers@;
    let mut out: Vec<Diagnostic> = Vec::new();
    let mut i: usize = 0;
    while i < headers.len()
        invariant
            i <= e.len(),
            e == headers@,
            groups == string_set(group_titles@),
            diagnostics_view(out@) == duplicate_subtitle_reports(e, groups, i as int),
        decreases e.len() - i,
    {
        let x = &headers[i];
        let mut first = true;
        let mut j: usize = 0;
        while j < i
            invariant
                j <= i < e.len(),
                e == headers@,
                x == e[i as int],
                first == forall|k: int| 0 <= k < j ==> !same_key(#[trigger] e[k], e[i as int]),
            decreases i - j,
        {
            if same_key_exec(&headers[j], x) {
                first = false;
            }
            j = j + 1;
        }
        if first && contains_str(group_titles, x.title.as_str()) {
            let mut count: usize = 0;
            let mut reports: Vec<Diagnostic> = Vec::new();
            let mut k: usize = 0;
            while k < headers.len()
                invariant
                    k <= e.len(),
                    e == headers@,
                    x == e[i as int],
                    count == key_count(e, *x, k as int),
                    count <= k,
                    diagnostics_view(reports@) == reports_for_key(e, *x, k as int),
                decreases e.len() - k,
            {
                if same_key_exec(&headers[k], x) {
                    count = count + 1;
                    let d = subtitle_diagnostic(&headers[k]);
                    let ghost before = reports@;
                    reports.push(d);
                    assert(diagnostics_view(reports@) =~= diagnostics_view(before).push(d@));
                }
                k = k + 1;
            }
            if count > 1 {
                append_reports(&mut out, reports);
            }
        }
        i = i + 1;
    }
    out
}

} // verus!
