//! References between nodes in the source text: `<<jump>>` and `<<detour>>` to a
//! node that does not exist, and nodes that nothing refers to. The source is
//! searched with regular expressions.
use vstd::prelude::*;

use crate::diagnostics::{diagnostics_view, report, Diagnostic, DiagnosticDescriptor, DiagnosticSeverity, DiagnosticView, Position};
use crate::line_tags::{contains_str, string_set};
use crate::source_text::{line_col, offset_to_line_col};
use crate::text::{str_eq, trim};

verus! {

/// A group of a regular-expression match: its byte range in the text and its text.
pub type Group = Option<(usize, usize, String)>;

/// The mathematical form of a group.
pub type GroupView = Option<(int, int, Seq<char>)>;

/// The view of a group.
pub open spec fn group_view(g: Group) -> GroupView {
    match g {
        Some((a, b, t)) => Some((a as int, b as int, t@)),
        None => None,
    }
}

/// The view of the groups of a match.
pub open spec fn groups_view(m: Seq<Group>) -> Seq<GroupView> {
    m.map_values(|g: Group| group_view(g))
}

/// The view of a list of matches.
pub open spec fn matches_view(v: Seq<Vec<Group>>) -> Seq<Seq<GroupView>> {
    v.map_values(|m: Vec<Group>| groups_view(m@))
}

/// The successive non-overlapping matches of the regular expression `pattern` in
/// `text`, each with its groups (group 0 is the whole match); `None` where `pattern`
/// is no valid regular expression. This is what the `regex` crate computes.
pub uninterp spec fn regex_captures_of(pattern: Seq<char>, text: Seq<char>) -> Option<Seq<Seq<GroupView>>>;

/// Trusted: `regex::Regex::new(pattern)` and, where it succeeds, `captures_iter(text)`,
/// each match given as its groups' byte ranges and texts. The result is named by
/// [`regex_captures_of`]; nothing further is claimed of it.
#[verifier::external_body]
pub(crate) fn regex_captures(pattern: &str, text: &str) -> (r: Option<Vec<Vec<Group>>>)
    ensures
        match r {
            Some(v) => regex_captures_of(pattern@, text@) == Some(matches_view(v@)),
            None => regex_captures_of(pattern@, text@) is None,
        },
{
    match regex::Regex::new(pattern) {
        Ok(re) => Some(
            re.captures_iter(text).map(
                |cap| cap.iter().map(|m| m.map(|m| (m.start(), m.end(), m.as_str().to_string()))).collect(),
            ).collect(),
        ),
        Err(_) => None,
    }
}

/// The group `k` of a match, where it took part.
pub open spec fn group_of(m: Seq<GroupView>, k: int) -> GroupView {
    if 0 <= k < m.len() {
        m[k]
    } else {
        None
    }
}

/// Where group `k` of a match starts.
pub open spec fn group_start(m: Seq<GroupView>, k: int) -> int {
    match group_of(m, k) {
        Some((a, _, _)) => a,
        None => 0,
    }
}

/// Where group `k` of a match ends.
pub open spec fn group_end(m: Seq<GroupView>, k: int) -> int {
    match group_of(m, k) {
        Some((_, b, _)) => b,
        None => 0,
    }
}

/// The text of group `k` of a match.
pub open spec fn group_text(m: Seq<GroupView>, k: int) -> Seq<char> {
    match group_of(m, k) {
        Some((_, _, t)) => t,
        None => Seq::empty(),
    }
}

fn group_at(m: &Vec<Group>, k: usize) -> (r: Option<(usize, usize, String)>)
    ensures
        group_view(r) == group_of(groups_view(m@), k as int),
{
    if k < m.len() {
        match &m[k] {
            Some((a, b, t)) => Some((*a, *b, t.clone())),
            None => None,
        }
    } else {
        None
    }
}

/// The position of byte `offset` of `source`.
pub open spec fn position_at(source: Seq<char>, offset: int) -> Position {
    Position { line: line_col(source, offset).0 as usize, character: line_col(source, offset).1 as usize }
}

fn position_of(source: &str, offset: usize) -> (r: Position)
    ensures
        r == position_at(source@, offset as int),
{
    let (line, character) = offset_to_line_col(source, offset);
    Position { line, character }
}

/// Whether the matches of every file's source are known.
pub open spec fn all_scanned(pattern: Seq<char>, files: Seq<(String, String)>) -> bool {
    forall|i: int| 0 <= i < files.len() ==> regex_captures_of(pattern, #[trigger] files[i].1@) is Some
}

// ---------------------------------------------------------------------------
// Jumps to undefined nodes
// ---------------------------------------------------------------------------

/// `<<jump Name>>` or `<<detour Name>>` with a plain node name.
pub open spec fn jump_pattern() -> Seq<char> {
    "<<\\s*(?:jump|detour)\\s+([A-Za-z_][A-Za-z0-9_.]*)\\s*>>"@
}

/// The report of a jump in `file` of `source` to the undefined node of the match `m`.
pub open spec fn undefined_report(file: Seq<char>, source: Seq<char>, m: Seq<GroupView>) -> DiagnosticView {
    report(
        "Jump to undefined node: '"@ + group_text(m, 1) + "'"@,
        file,
        Some((position_at(source, group_start(m, 0)), position_at(source, group_end(m, 0)))),
        DiagnosticSeverity::Warning,
        "YS0012"@,
    )
}

/// The reports for the first `n` matches `ms` in `file` of `source`: one for each
/// whose target is not among `known`.
pub open spec fn undefined_in_matches(
    known: Set<Seq<char>>,
    file: Seq<char>,
    source: Seq<char>,
    ms: Seq<Seq<GroupView>>,
    n: int,
) -> Seq<DiagnosticView>
    decreases n,
{
    if n <= 0 {
        Seq::empty()
    } else {
        let prev = undefined_in_matches(known, file, source, ms, n - 1);
        let m = ms[n - 1];
        if group_of(m, 0) is Some && group_of(m, 1) is Some && !known.contains(group_text(m, 1)) {
            prev.push(undefined_report(file, source, m))
        } else {
            prev
        }
    }
}

/// The reports for the first `n` files.
pub open spec fn undefined_reports(known: Set<Seq<char>>, files: Seq<(String, String)>, n: int) -> Seq<DiagnosticView>
    decreases n,
{
    if n <= 0 {
        Seq::empty()
    } else {
        let ms = regex_captures_of(jump_pattern(), files[n - 1].1@)->0;
        undefined_reports(known, files, n - 1) + undefined_in_matches(
            known,
            files[n - 1].0@,
            files[n - 1].1@,
            ms,
            ms.len() as int,
        )
    }
}

/// The reports for the matches `caps` of the jump pattern in `file` of `source`: one
/// for each jump whose target is not among the program's nodes `known` (YS0012), in
/// the order of the matches.
pub fn undefined_references(known: &Vec<String>, file: &String, source: &str, caps: &Vec<Vec<Group>>) -> (r: Vec<
    Diagnostic,
>)
    ensures
        diagnostics_view(r@) == undefined_in_matches(
            string_set(known@),
            file@,
            source@,
            matches_view(caps@),
            caps@.len() as int,
        ),
{
    let ghost k = string_set(known@);
    let ghost ms = matches_view(caps@);
    let mut out: Vec<Diagnostic> = Vec::new();
    let mut j: usize = 0;
    while j < caps.len()
        invariant
            j <= caps@.len(),
            ms == matches_view(caps@),
            diagnostics_view(out@) == undefined_in_matches(k, file@, source@, ms, j as int),
            k == string_set(known@),
        decreases caps@.len() - j,
    {
        let m = &caps[j];
        assert(ms[j as int] == groups_view(m@));
        let whole = group_at(m, 0);
        let target = group_at(m, 1);
        match (whole, target) {
            (Some((a, b, _)), Some((_, _, name))) => {
                if !contains_str(known, name.as_str()) {
                    let mut message = String::from_str("Jump to undefined node: '");
                    message.append(name.as_str());
                    message.append("'");
                    let d = Diagnostic::from_message(message).with_file_name(file.clone()).with_range(
                        position_of(source, a),
                        position_of(source, b),
                    ).with_severity(DiagnosticSeverity::Warning).with_code("YS0012");
                    let ghost before = out@;
                    out.push(d);
                    assert(diagnostics_view(out@) =~= diagnostics_view(before).push(d@));
                }
            },
            _ => {},
        }
        j = j + 1;
    }
    out
}

/// Appends `more` to `out`.
fn append_diagnostics(out: &mut Vec<Diagnostic>, more: Vec<Diagnostic>)
    ensures
        diagnostics_view(final(out)@) == diagnostics_view(old(out)@) + diagnostics_view(more@),
{
    let mut more = more;
    let ghost m = more@;
    out.append(&mut more);
    assert(diagnostics_view(out@) =~= diagnostics_view(old(out)@) + diagnostics_view(m));
}

/// Reports every `<<jump>>` and `<<detour>>` to a node name that is not among the
/// program's nodes `known` (YS0012), for the files `files` (name and source) in order.
/// `None` where the search could not run.
pub fn validate_undefined_node_references(known: &Vec<String>, files: &Vec<(String, String)>) -> (r: Option<
    Vec<Diagnostic>,
>)
    ensures
        r is Some <==> all_scanned(jump_pattern(), files@),
        r matches Some(d) ==> diagnostics_view(d@) == undefined_reports(string_set(known@), files@, files@.len() as int),
{
    let ghost k = string_set(known@);
    let pattern = "<<\\s*(?:jump|detour)\\s+([A-Za-z_][A-Za-z0-9_.]*)\\s*>>";
    let mut out: Vec<Diagnostic> = Vec::new();
    let mut i: usize = 0;
    while i < files.len()
        invariant
            i <= files@.len(),
            pattern@ == jump_pattern(),
            k == string_set(known@),
            forall|j: int| 0 <= j < i ==> regex_captures_of(jump_pattern(), #[trigger] files@[j].1@) is Some,
            diagnostics_view(out@) == undefined_reports(k, files@, i as int),
        decreases files@.len() - i,
    {
        let file = &files[i].0;
        let source = files[i].1.as_str();
        let caps = match regex_captures(pattern, source) {
            Some(c) => c,
            None => {
                return None;
            },
        };
        let ghost ms = matches_view(caps@);
        let ghost base = diagnostics_view(out@);
        let found = undefined_references(known, file, source, &caps);
        append_diagnostics(&mut out, found);
        assert(diagnostics_view(out@) =~= base + undefined_in_matches(k, file@, source@, ms, ms.len() as int));
        proof {
            assert(files@[i as int].1@ == source@);
            assert(undefined_reports(k, files@, i + 1) == undefined_reports(k, files@, i as int) + undefined_in_matches(
                k,
                file@,
                source@,
                ms,
                ms.len() as int,
            ));
        }
        i = i + 1;
    }
    Some(out)
}

// ---------------------------------------------------------------------------
// Nodes nothing refers to
// ---------------------------------------------------------------------------

/// `<<jump Name>>`, `<<detour Name>>` or an option's `[[Name]]`.
pub open spec fn reference_pattern() -> Seq<char> {
    "<<\\s*(?:jump|detour)\\s+([A-Za-z_][A-Za-z0-9_.]*)\\s*>>|\\[\\[([A-Za-z_][A-Za-z0-9_.]*)\\]\\]"@
}

/// A `title:` header line; its value is group 2.
pub open spec fn title_pattern() -> Seq<char> {
    "(?m)^(title:[ \\t]*)([^\\r\\n#/]+?)[ \\t]*(?://[^\\r\\n]*)?$"@
}

/// The node a reference match names: its jump target, else its option target.
pub open spec fn reference_target(m: Seq<GroupView>) -> Option<Seq<char>> {
    if group_of(m, 1) is Some {
        Some(group_text(m, 1))
    } else if group_of(m, 2) is Some {
        Some(group_text(m, 2))
    } else {
        None
    }
}

/// Whether some reference in the sources of `files` names `name`.
pub open spec fn is_referenced(files: Seq<(String, String)>, name: Seq<char>) -> bool {
    exists|i: int, j: int|
        0 <= i < files.len() && 0 <= j < regex_captures_of(reference_pattern(), files[i].1@)->0.len()
            && reference_target(#[trigger] regex_captures_of(reference_pattern(), files[i].1@)->0[j]) == Some(name)
}

/// Whether some node named among `nodes` is referenced.
pub open spec fn any_referenced(nodes: Seq<String>, files: Seq<(String, String)>) -> bool {
    exists|k: int| 0 <= k < nodes.len() && is_referenced(files, #[trigger] nodes[k]@)
}

/// The first match of `pattern`, over the sources of the first `n` files in order,
/// whose group `g` (trimmed) is `name`: its file, and the byte range of that group.
pub open spec fn header_location(pattern: Seq<char>, g: int, files: Seq<(String, String)>, name: Seq<char>, n: int) -> Option<
    (int, int, int),
>
    decreases n,
{
    if n <= 0 {
        None
    } else {
        match header_location(pattern, g, files, name, n - 1) {
            Some(l) => Some(l),
            None => {
                let ms = regex_captures_of(pattern, files[n - 1].1@)->0;
                match header_in(ms, g, name, ms.len() as int) {
                    Some((a, b)) => Some((n - 1, a, b)),
                    None => None,
                }
            },
        }
    }
}

/// The first title header, over the files in order, whose value (trimmed) is
/// `name`: its file, and the byte range of its value.
pub open spec fn title_location(files: Seq<(String, String)>, name: Seq<char>, n: int) -> Option<(int, int, int)> {
    header_location(title_pattern(), 2, files, name, n)
}

/// The byte range of group `g` of the first of the first `n` matches `ms` whose
/// group `g` (trimmed) is `name`.
pub open spec fn header_in(ms: Seq<Seq<GroupView>>, g: int, name: Seq<char>, n: int) -> Option<(int, int)>
    decreases n,
{
    if n <= 0 {
        None
    } else {
        match header_in(ms, g, name, n - 1) {
            Some(r) => Some(r),
            None => match group_of(ms[n - 1], g) {
                Some((a, b, t)) => if trim(t) == name {
                    Some((a, b))
                } else {
                    None
                },
                None => None,
            },
        }
    }
}

/// The message about a node nothing refers to.
pub open spec fn unreferenced_message(name: Seq<char>) -> Seq<char> {
    "Node '"@ + name + "' is never referenced"@
}

/// The report about the node `name` that nothing refers to: at its title header
/// where one is found, else about `<input>`.
pub open spec fn unreferenced_report(files: Seq<(String, String)>, name: Seq<char>) -> DiagnosticView {
    match title_location(files, name, files.len() as int) {
        Some((f, a, b)) => report(
            unreferenced_message(name),
            files[f].0@,
            Some((position_at(files[f].1@, a), position_at(files[f].1@, b))),
            DiagnosticSeverity::Warning,
            "YS0009"@,
        ),
        None => report(unreferenced_message(name), "<input>"@, None, DiagnosticSeverity::Warning, "YS0009"@),
    }
}

/// The reports for the first `n` of `nodes` that nothing refers to.
pub open spec fn unreferenced_reports(nodes: Seq<String>, files: Seq<(String, String)>, n: int) -> Seq<DiagnosticView>
    decreases n,
{
    if n <= 0 {
        Seq::empty()
    } else if is_referenced(files, nodes[n - 1]@) {
        unreferenced_reports(nodes, files, n - 1)
    } else {
        unreferenced_reports(nodes, files, n - 1).push(unreferenced_report(files, nodes[n - 1]@))
    }
}

/// Whether some match of the reference pattern among `caps` refers to `name`.
pub fn references_name(caps: &Vec<Vec<Group>>, name: &str) -> (r: bool)
    ensures
        r == exists|q: int|
            0 <= q < caps@.len() && reference_target(#[trigger] matches_view(caps@)[q]) == Some(name@),
{
    let ghost ms = matches_view(caps@);
    let mut found = false;
    let mut j: usize = 0;
    while j < caps.len()
        invariant
            j <= caps@.len(),
            ms == matches_view(caps@),
            found == exists|q: int| 0 <= q < j && reference_target(#[trigger] ms[q]) == Some(name@),
        decreases caps@.len() - j,
    {
        assert(ms[j as int] == groups_view(caps@[j as int]@));
        let first = group_at(&caps[j], 1);
        let second = group_at(&caps[j], 2);
        let target = match first {
            Some((_, _, t)) => Some(t),
            None => match second {
                Some((_, _, t)) => Some(t),
                None => None,
            },
        };
        match target {
            Some(t) => {
                if str_eq(t.as_str(), name) {
                    found = true;
                }
            },
            None => {},
        }
        j = j + 1;
    }
    found
}

/// The byte range of group `g` of the first match among `caps` whose group `g`
/// (trimmed) is `name`.
pub fn header_match(caps: &Vec<Vec<Group>>, g: usize, name: &str) -> (r: Option<(usize, usize)>)
    ensures
        match r {
            Some((a, b)) => header_in(matches_view(caps@), g as int, name@, caps@.len() as int) == Some(
                (a as int, b as int),
            ),
            None => header_in(matches_view(caps@), g as int, name@, caps@.len() as int) is None,
        },
{
    let ghost ms = matches_view(caps@);
    let mut j: usize = 0;
    let mut hit: Option<(usize, usize)> = None;
    while j < caps.len()
        invariant
            j <= caps@.len(),
            ms == matches_view(caps@),
            match hit {
                Some((a, b)) => header_in(ms, g as int, name@, j as int) == Some((a as int, b as int)),
                None => header_in(ms, g as int, name@, j as int) is None,
            },
        decreases caps@.len() - j,
    {
        assert(ms[j as int] == groups_view(caps@[j as int]@));
        if hit.is_none() {
            match group_at(&caps[j], g) {
                Some((a, b, t)) => {
                    let tt = crate::text::trim_string(t.as_str());
                    if str_eq(tt.as_str(), name) {
                        hit = Some((a, b));
                    }
                },
                None => {},
            }
        }
        j = j + 1;
    }
    hit
}

fn referenced_in(files: &Vec<(String, String)>, name: &str) -> (r: Option<bool>)
    ensures
        r is Some <==> all_scanned(reference_pattern(), files@),
        r matches Some(b) ==> b == is_referenced(files@, name@),
{
    let pattern = "<<\\s*(?:jump|detour)\\s+([A-Za-z_][A-Za-z0-9_.]*)\\s*>>|\\[\\[([A-Za-z_][A-Za-z0-9_.]*)\\]\\]";
    let mut found = false;
    let mut i: usize = 0;
    while i < files.len()
        invariant
            i <= files@.len(),
            pattern@ == reference_pattern(),
            forall|j: int| 0 <= j < i ==> regex_captures_of(reference_pattern(), #[trigger] files@[j].1@) is Some,
            found == exists|f: int, j: int|
                0 <= f < i && 0 <= j < regex_captures_of(reference_pattern(), files@[f].1@)->0.len() && reference_target(
                    #[trigger] regex_captures_of(reference_pattern(), files@[f].1@)->0[j],
                ) == Some(name@),
        decreases files@.len() - i,
    {
        let caps = match regex_captures(pattern, files[i].1.as_str()) {
            Some(c) => c,
            None => {
                return None;
            },
        };
        let ghost ms = matches_view(caps@);
        let ghost prior = found;
        let here = references_name(&caps, name);
        if here {
            found = true;
        }
        proof {
            assert(ms == regex_captures_of(reference_pattern(), files@[i as int].1@)->0);
            if here {
                let q = choose|q: int| 0 <= q < caps@.len() && reference_target(#[trigger] matches_view(caps@)[q]) == Some(name@);
                assert(reference_target(regex_captures_of(reference_pattern(), files@[i as int].1@)->0[q]) == Some(name@));
            }
            assert forall|f: int, q: int|
                0 <= f < i + 1 && 0 <= q < regex_captures_of(reference_pattern(), files@[f].1@)->0.len()
                    && #[trigger] reference_target(regex_captures_of(reference_pattern(), files@[f].1@)->0[q]) == Some(
                    name@,
                ) implies found by {
                if f == i {
                    assert(reference_target(ms[q]) == Some(name@));
                    assert(reference_target(matches_view(caps@)[q]) == Some(name@));
                } else {
                    assert(exists|f2: int, q2: int|
                        0 <= f2 < i && 0 <= q2 < regex_captures_of(reference_pattern(), files@[f2].1@)->0.len()
                            && reference_target(#[trigger] regex_captures_of(reference_pattern(), files@[f2].1@)->0[q2])
                            == Some(name@));
                }
            }
        }
        i = i + 1;
    }
    Some(found)
}

/// Where the first match of `pattern` over the sources of `files` whose group `g`
/// (trimmed) is `name` stands: its file and the byte range of the group. `None`
/// where a search could not run.
pub(crate) fn header_range(pattern: &str, g: usize, files: &Vec<(String, String)>, name: &str) -> (r: Option<
    Option<(usize, usize, usize)>,
>)
    ensures
        r is Some <==> all_scanned(pattern@, files@),
        r matches Some(l) ==> match l {
            Some((f, a, b)) => header_location(pattern@, g as int, files@, name@, files@.len() as int) == Some(
                (f as int, a as int, b as int),
            ) && f < files@.len(),
            None => header_location(pattern@, g as int, files@, name@, files@.len() as int) is None,
        },
{
    let mut i: usize = 0;
    let mut found: Option<(usize, usize, usize)> = None;
    while i < files.len()
        invariant
            i <= files@.len(),
            forall|j: int| 0 <= j < i ==> regex_captures_of(pattern@, #[trigger] files@[j].1@) is Some,
            match found {
                Some((f, a, b)) => header_location(pattern@, g as int, files@, name@, i as int) == Some(
                    (f as int, a as int, b as int),
                ) && f < i,
                None => header_location(pattern@, g as int, files@, name@, i as int) is None,
            },
        decreases files@.len() - i,
    {
        let caps = match regex_captures(pattern, files[i].1.as_str()) {
            Some(c) => c,
            None => {
                return None;
            },
        };
        let ghost ms = matches_view(caps@);
        if found.is_none() {
            let hit = header_match(&caps, g, name);
            match hit {
                Some((a, b)) => {
                    found = Some((i, a, b));
                },
                None => {},
            }
        }
        i = i + 1;
    }
    Some(found)
}

/// Reports every node of the program (`nodes`, by name) that no `<<jump>>`,
/// `<<detour>>` or option in the sources refers to (YS0009), at its title header
/// where one is found. Nothing is reported where there are no nodes, or where no
/// node is referenced at all (then every node may be an entry point). `None` where
/// the search could not run.
pub fn detect_unreferenced_nodes(nodes: &Vec<String>, files: &Vec<(String, String)>) -> (r: Option<Vec<Diagnostic>>)
    ensures
        r is None ==> !all_scanned(reference_pattern(), files@) || !all_scanned(title_pattern(), files@),
        all_scanned(reference_pattern(), files@) && all_scanned(title_pattern(), files@) ==> r is Some,
        r matches Some(d) ==> diagnostics_view(d@) == if any_referenced(nodes@, files@) {
            unreferenced_reports(nodes@, files@, nodes@.len() as int)
        } else {
            Seq::empty()
        },
{
    let mut flags: Vec<bool> = Vec::new();
    let mut any = false;
    let mut k: usize = 0;
    while k < nodes.len()
        invariant
            k <= nodes@.len(),
            flags@.len() == k,
            k > 0 ==> all_scanned(reference_pattern(), files@),
            forall|q: int| 0 <= q < k ==> flags@[q] == is_referenced(files@, #[trigger] nodes@[q]@),
            any == exists|q: int| 0 <= q < k && is_referenced(files@, #[trigger] nodes@[q]@),
        decreases nodes@.len() - k,
    {
        let b = match referenced_in(files, nodes[k].as_str()) {
            Some(b) => b,
            None => {
                return None;
            },
        };
        flags.push(b);
        if b {
            any = true;
        }
        k = k + 1;
    }
    if !any {
        return Some(Vec::new());
    }
    let descriptor = DiagnosticDescriptor::unreferenced_node();
    let mut out: Vec<Diagnostic> = Vec::new();
    let mut k: usize = 0;
    while k < nodes.len()
        invariant
            k <= nodes@.len(),
            flags@.len() == nodes@.len(),
            forall|q: int| 0 <= q < nodes@.len() ==> flags@[q] == is_referenced(files@, #[trigger] nodes@[q]@),
            descriptor.code@ == "YS0009"@,
            descriptor.default_severity == DiagnosticSeverity::Warning,
            diagnostics_view(out@) == unreferenced_reports(nodes@, files@, k as int),
        decreases nodes@.len() - k,
    {
        if !flags[k] {
            let name = nodes[k].as_str();
            let mut message = String::from_str("Node '");
            message.append(name);
            message.append("' is never referenced");
            let d = match header_range("(?m)^(title:[ \\t]*)([^\\r\\n#/]+?)[ \\t]*(?://[^\\r\\n]*)?$", 2, files, name) {
                None => {
                    return None;
                },
                Some(Some((f, a, b))) => {
                    let source = files[f].1.as_str();
                    descriptor.create_with_range(files[f].0.clone(), position_of(source, a), position_of(source, b), message)
                },
                Some(None) => descriptor.create(String::from_str("<input>"), message),
            };
            let ghost before = out@;
            out.push(d);
            assert(diagnostics_view(out@) =~= diagnostics_view(before).push(d@));
        }
        k = k + 1;
    }
    Some(out)
}

} // verus!
