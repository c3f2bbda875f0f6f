//! Variables that are declared but never used anywhere in the sources.
use vstd::prelude::*;

use crate::diagnostics::{diagnostics_view, Diagnostic, DiagnosticSeverity, DiagnosticView, Position};
use crate::node_groups::NodeGroup;
use crate::node_references::{group_of, group_start, groups_view, matches_view, regex_captures, regex_captures_of, Group, GroupView};
use crate::text::str_eq;

verus! {

/// The successive non-overlapping matches of the regular expression `pattern` in
/// `text`, each as its byte range and its text; `None` where `pattern` is no valid
/// regular expression. This is what the `regex` crate computes.
pub uninterp spec fn regex_found_of(pattern: Seq<char>, text: Seq<char>) -> Option<Seq<(int, int, Seq<char>)>>;

/// The view of a list of matches.
pub open spec fn found_view(v: Seq<(usize, usize, String)>) -> Seq<(int, int, Seq<char>)> {
    v.map_values(|m: (usize, usize, String)| (m.0 as int, m.1 as int, m.2@))
}

/// Trusted: `regex::Regex::new(pattern)` and, where it succeeds, `find_iter(text)`,
/// each match given as its byte range and text. The result is named by
/// [`regex_found_of`]; nothing further is claimed of it.
#[verifier::external_body]
pub(crate) fn regex_find_all(pattern: &str, text: &str) -> (r: Option<Vec<(usize, usize, String)>>)
    ensures
        match r {
            Some(v) => regex_found_of(pattern@, text@) == Some(found_view(v@)),
            None => regex_found_of(pattern@, text@) is None,
        },
{
    match regex::Regex::new(pattern) {
        Ok(re) => Some(re.find_iter(text).map(|m| (m.start(), m.end(), m.as_str().to_string())).collect()),
        Err(_) => None,
    }
}

/// A `$variable` name.
pub open spec fn variable_pattern() -> Seq<char> {
    "\\$[A-Za-z_][A-Za-z0-9_.]*"@
}

/// The variable that a `<<declare>>` command declares is group 1.
pub open spec fn declare_pattern() -> Seq<char> {
    "<<\\s*declare\\s+(\\$[A-Za-z_][A-Za-z0-9_.]*)"@
}

/// A variable that the compiler derived a declaration for.
#[derive(Debug)]
pub struct DeclaredVariable {
    /// The variable's name.
    pub name: String,
    /// Whether it was declared implicitly, by use.
    pub is_implicit: bool,
    /// Whether it is a smart variable, expanded where it is used.
    pub is_inline_expansion: bool,
    /// Whether it is a function rather than a variable.
    pub is_function: bool,
    /// The file that declares it, where one does.
    pub source_file: Option<String>,
    /// Where the declaration stands.
    pub range: Option<(Position, Position)>,
}

/// Whether byte `start` is where some `<<declare>>` match of `source` has its group 1.
pub open spec fn declared_at(source: Seq<char>, start: int) -> bool {
    exists|j: int|
        0 <= j < regex_captures_of(declare_pattern(), source)->0.len() && group_of(
            #[trigger] regex_captures_of(declare_pattern(), source)->0[j],
            1,
        ) is Some && group_start(regex_captures_of(declare_pattern(), source)->0[j], 1) == start
}

/// Whether `source` uses the variable `v` other than as the target of a `<<declare>>`.
pub open spec fn used_in_source(source: Seq<char>, v: Seq<char>) -> bool {
    exists|j: int|
        0 <= j < regex_found_of(variable_pattern(), source)->0.len() && (#[trigger] regex_found_of(
            variable_pattern(),
            source,
        )->0[j]).2 == v && !declared_at(source, regex_found_of(variable_pattern(), source)->0[j].0)
}

/// Whether the text `t` mentions the variable `v`.
pub open spec fn mentioned_in(t: Seq<char>, v: Seq<char>) -> bool {
    exists|j: int|
        0 <= j < regex_found_of(variable_pattern(), t)->0.len() && (#[trigger] regex_found_of(variable_pattern(), t)->0[j]).2
            == v
}

/// Whether the variable `v` is used: in some source other than as the target of a
/// `<<declare>>`, or in some `when:` header value of a node group member.
pub open spec fn variable_used(files: Seq<(String, String)>, groups: Seq<NodeGroup>, v: Seq<char>) -> bool {
    ||| exists|i: int| 0 <= i < files.len() && used_in_source(#[trigger] files[i].1@, v)
    ||| exists|g: int, m: int, h: int|
        0 <= g < groups.len() && 0 <= m < groups[g].members@.len() && 0 <= h
            < groups[g].members@[m].when_expressions@.len() && mentioned_in(
            #[trigger] groups[g].members@[m].when_expressions@[h]@,
            v,
        )
}

/// Whether every search that deciding use needs could run.
pub open spec fn searches_run(files: Seq<(String, String)>, groups: Seq<NodeGroup>) -> bool {
    &&& forall|i: int|
        0 <= i < files.len() ==> regex_found_of(variable_pattern(), #[trigger] files[i].1@) is Some && regex_captures_of(
            declare_pattern(),
            files[i].1@,
        ) is Some
    &&& forall|g: int, m: int, h: int|
        0 <= g < groups.len() && 0 <= m < groups[g].members@.len() && 0 <= h
            < groups[g].members@[m].when_expressions@.len() ==> regex_found_of(
            variable_pattern(),
            #[trigger] groups[g].members@[m].when_expressions@[h]@,
        ) is Some
}

/// Whether the declaration `d` is one whose use is checked: explicit, of a plain
/// variable from a source file, and not internal to Yarn Spinner.
pub open spec fn checked_declaration(d: DeclaredVariable) -> bool {
    &&& !d.is_implicit
    &&& !d.is_inline_expansion
    &&& !("$Yarn.Internal"@.is_prefix_of(d.name@))
    &&& !d.is_function
    &&& d.source_file is Some
}

/// The report about the unused variable declared by `d`.
pub open spec fn unused_report(d: DeclaredVariable) -> DiagnosticView {
    DiagnosticView {
        file_name: Some(d.source_file->0@),
        range: d.range,
        message: "Variable '"@ + d.name@ + "' is declared but never used"@,
        context: None,
        severity: DiagnosticSeverity::Warning,
        code: Some("YS0010"@),
    }
}

/// The reports for the first `n` declarations: one for each checked one whose
/// variable is not used.
pub open spec fn unused_reports(
    decls: Seq<DeclaredVariable>,
    files: Seq<(String, String)>,
    groups: Seq<NodeGroup>,
    n: int,
) -> Seq<DiagnosticView>
    decreases n,
{
    if n <= 0 {
        Seq::empty()
    } else if checked_declaration(decls[n - 1]) && !variable_used(files, groups, decls[n - 1].name@) {
        unused_reports(decls, files, groups, n - 1).push(unused_report(decls[n - 1]))
    } else {
        unused_reports(decls, files, groups, n - 1)
    }
}

fn declare_start_in(caps: &Vec<Vec<Group>>, start: usize) -> (r: bool)
    ensures
        r == exists|j: int|
            0 <= j < matches_view(caps@).len() && group_of(#[trigger] matches_view(caps@)[j], 1) is Some && group_start(
                matches_view(caps@)[j],
                1,
            ) == start,
{
    let ghost ms = matches_view(caps@);
    let mut j: usize = 0;
    while j < caps.len()
        invariant
            j <= caps@.len(),
            ms == matches_view(caps@),
            forall|q: int| 0 <= q < j ==> !(group_of(#[trigger] ms[q], 1) is Some && group_start(ms[q], 1) == start),
        decreases caps@.len() - j,
    {
        assert(ms[j as int] == groups_view(caps@[j as int]@));
        if caps[j].len() > 1 {
            match &caps[j][1] {
                Some((a, _, _)) => {
                    if *a == start {
                        return true;
                    }
                },
                None => {},
            }
        }
        j = j + 1;
    }
    false
}

/// Whether some match among `found` of the variable pattern is `name` and does not
/// start where group 1 of a `<<declare>>` match among `caps` starts.
pub fn used_outside_declarations(found: &Vec<(usize, usize, String)>, caps: &Vec<Vec<Group>>, name: &str) -> (r: bool)
    ensures
        r == exists|q: int|
            0 <= q < found@.len() && (#[trigger] found_view(found@)[q]).2 == name@ && !(exists|j: int|
                0 <= j < matches_view(caps@).len() && group_of(#[trigger] matches_view(caps@)[j], 1) is Some
                    && group_start(matches_view(caps@)[j], 1) == found_view(found@)[q].0),
{
    let ghost fv = found_view(found@);
    let mut j: usize = 0;
    while j < found.len()
        invariant
            j <= found@.len(),
            fv == found_view(found@),
            forall|q: int|
                0 <= q < j ==> !((#[trigger] fv[q]).2 == name@ && !(exists|jj: int|
                    0 <= jj < matches_view(caps@).len() && group_of(#[trigger] matches_view(caps@)[jj], 1) is Some
                        && group_start(matches_view(caps@)[jj], 1) == fv[q].0)),
        decreases found@.len() - j,
    {
        let (start, _, text) = &found[j];
        assert(fv[j as int] == (*start as int, found@[j as int].1 as int, text@));
        if str_eq(text.as_str(), name) && !declare_start_in(caps, *start) {
            return true;
        }
        j = j + 1;
    }
    false
}

/// Whether some match among `found` of the variable pattern is `name`.
pub fn mentions_name(found: &Vec<(usize, usize, String)>, name: &str) -> (r: bool)
    ensures
        r == exists|q: int| 0 <= q < found@.len() && (#[trigger] found_view(found@)[q]).2 == name@,
{
    let ghost fv = found_view(found@);
    let mut j: usize = 0;
    while j < found.len()
        invariant
            j <= found@.len(),
            fv == found_view(found@),
            forall|q: int| 0 <= q < j ==> (#[trigger] fv[q]).2 != name@,
        decreases found@.len() - j,
    {
        assert(fv[j as int].2 == found@[j as int].2@);
        if str_eq(found[j].2.as_str(), name) {
            return true;
        }
        j = j + 1;
    }
    false
}

fn used_in_file(source: &str, name: &str) -> (r: Option<bool>)
    ensures
        r is Some <==> regex_found_of(variable_pattern(), source@) is Some && regex_captures_of(declare_pattern(), source@) is Some,
        r matches Some(b) ==> b == used_in_source(source@, name@),
{
    let found = match regex_find_all("\\$[A-Za-z_][A-Za-z0-9_.]*", source) {
        Some(f) => f,
        None => {
            return None;
        },
    };
    let caps = match regex_captures("<<\\s*declare\\s+(\\$[A-Za-z_][A-Za-z0-9_.]*)", source) {
        Some(c) => c,
        None => {
            return None;
        },
    };
    let ghost fv = found_view(found@);
    let r = used_outside_declarations(&found, &caps, name);
    proof {
        assert(fv == regex_found_of(variable_pattern(), source@)->0);
        assert(matches_view(caps@) == regex_captures_of(declare_pattern(), source@)->0);
        if r {
            let q = choose|q: int|
                0 <= q < found@.len() && (#[trigger] found_view(found@)[q]).2 == name@ && !(exists|j: int|
                    0 <= j < matches_view(caps@).len() && group_of(#[trigger] matches_view(caps@)[j], 1) is Some
                        && group_start(matches_view(caps@)[j], 1) == found_view(found@)[q].0);
            assert(fv[q].2 == name@ && !declared_at(source@, fv[q].0));
        } else {
            assert forall|q: int| 0 <= q < fv.len() && (#[trigger] fv[q]).2 == name@ implies declared_at(source@, fv[q].0) by {
                assert(found_view(found@)[q] == fv[q]);
            }
        }
    }
    Some(r)
}

fn mentioned(t: &str, name: &str) -> (r: Option<bool>)
    ensures
        r is Some <==> regex_found_of(variable_pattern(), t@) is Some,
        r matches Some(b) ==> b == mentioned_in(t@, name@),
{
    let found = match regex_find_all("\\$[A-Za-z_][A-Za-z0-9_.]*", t) {
        Some(f) => f,
        None => {
            return None;
        },
    };
    let r = mentions_name(&found, name);
    proof {
        assert(found_view(found@) == regex_found_of(variable_pattern(), t@)->0);
    }
    Some(r)
}

fn is_used(files: &Vec<(String, String)>, groups: &Vec<NodeGroup>, name: &str) -> (r: Option<bool>)
    ensures
        r is None ==> !searches_run(files@, groups@),
        r matches Some(b) ==> b == variable_used(files@, groups@, name@),
{
    let mut i: usize = 0;
    while i < files.len()
        invariant
            i <= files@.len(),
            forall|q: int| 0 <= q < i ==> !used_in_source(#[trigger] files@[q].1@, name@),
        decreases files@.len() - i,
    {
        match used_in_file(files[i].1.as_str(), name) {
            None => {
                assert(!(regex_found_of(variable_pattern(), files@[i as int].1@) is Some && regex_captures_of(
                    declare_pattern(),
                    files@[i as int].1@,
                ) is Some));
                return None;
            },
            Some(true) => {
                assert(used_in_source(files@[i as int].1@, name@));
                return Some(true);
            },
            Some(false) => {},
        }
        i = i + 1;
    }
    let mut g: usize = 0;
    while g < groups.len()
        invariant
            g <= groups@.len(),
            forall|q: int| 0 <= q < files@.len() ==> !used_in_source(#[trigger] files@[q].1@, name@),
            forall|gi: int, mi: int, hi: int|
                0 <= gi < g && 0 <= mi < groups@[gi].members@.len() && 0 <= hi
                    < groups@[gi].members@[mi].when_expressions@.len() ==> !mentioned_in(
                    #[trigger] groups@[gi].members@[mi].when_expressions@[hi]@,
                    name@,
                ),
        decreases groups@.len() - g,
    {
        let members = &groups[g].members;
        let mut m: usize = 0;
        while m < members.len()
            invariant
                g < groups@.len(),
                members == groups@[g as int].members,
                m <= members@.len(),
                forall|q: int| 0 <= q < files@.len() ==> !used_in_source(#[trigger] files@[q].1@, name@),
                forall|gi: int, mi: int, hi: int|
                    0 <= gi < groups@.len() && 0 <= mi < groups@[gi].members@.len() && 0 <= hi
                        < groups@[gi].members@[mi].when_expressions@.len() && (gi < g || (gi == g && mi < m)) ==> !mentioned_in(
                        #[trigger] groups@[gi].members@[mi].when_expressions@[hi]@,
                        name@,
                    ),
            decreases members@.len() - m,
        {
            let exprs = &members[m].when_expressions;
            let mut h: usize = 0;
            while h < exprs.len()
                invariant
                    g < groups@.len(),
                    members == groups@[g as int].members,
                    m < members@.len(),
                    exprs == members@[m as int].when_expressions,
                    h <= exprs@.len(),
                    forall|q: int| 0 <= q < files@.len() ==> !used_in_source(#[trigger] files@[q].1@, name@),
                    forall|gi: int, mi: int, hi: int|
                        0 <= gi < groups@.len() && 0 <= mi < groups@[gi].members@.len() && 0 <= hi
                            < groups@[gi].members@[mi].when_expressions@.len() && (gi < g || (gi == g && (mi < m || (mi
                            == m && hi < h)))) ==> !mentioned_in(
                            #[trigger] groups@[gi].members@[mi].when_expressions@[hi]@,
                            name@,
                        ),
                decreases exprs@.len() - h,
            {
                match mentioned(exprs[h].as_str(), name) {
                    None => {
                        assert(regex_found_of(variable_pattern(), groups@[g as int].members@[m as int].when_expressions@[h as int]@) is None);
                        return None;
                    },
                    Some(true) => {
                        assert(mentioned_in(groups@[g as int].members@[m as int].when_expressions@[h as int]@, name@));
                        return Some(true);
                    },
                    Some(false) => {},
                }
                h = h + 1;
            }
            m = m + 1;
        }
        g = g + 1;
    }
    Some(false)
}

fn checked(d: &DeclaredVariable) -> (r: bool)
    ensures
        r == checked_declaration(*d),
{
    proof {
        reveal_strlit("$Yarn.Internal");
    }
    let prefix = crate::text::chars_of("$Yarn.Internal");
    let name = crate::text::chars_of(d.name.as_str());
    !d.is_implicit && !d.is_inline_expansion && !crate::text::starts_with_chars(&name, &prefix) && !d.is_function
        && d.source_file.is_some()
}

/// Reports every explicitly declared variable of a source file that no source uses,
/// other than as the target of its `<<declare>>`, and that no `when:` header of a node
/// group member mentions (YS0010). Implicit declarations, smart variables, functions
/// and Yarn Spinner's internal variables are not checked. `None` where a search
/// could not run.
pub fn check_unused_variables(
    decls: &Vec<DeclaredVariable>,
    files: &Vec<(String, String)>,
    groups: &Vec<NodeGroup>,
) -> (r: Option<Vec<Diagnostic>>)
    ensures
        searches_run(files@, groups@) ==> r is Some,
        r matches Some(d) ==> diagnostics_view(d@) == unused_reports(decls@, files@, groups@, decls@.len() as int),
{
    let mut out: Vec<Diagnostic> = Vec::new();
    let mut i: usize = 0;
    while i < decls.len()
        invariant
            i <= decls@.len(),
            diagnostics_view(out@) == unused_reports(decls@, files@, groups@, i as int),
        decreases decls@.len() - i,
    {
        let d = &decls[i];
        if checked(d) {
            match is_used(files, groups, d.name.as_str()) {
                None => {
                    return None;
                },
                Some(true) => {},
                Some(false) => {
                    let file = match &d.source_file {
                        Some(f) => f.clone(),
                        None => String::new(),
                    };
                    let mut message = String::from_str("Variable '");
                    message.append(d.name.as_str());
                    message.append("' is declared but never used");
                    let diag = Diagnostic {
                        file_name: Some(file),
                        range: d.range,
                        message,
                        context: None,
                        severity: DiagnosticSeverity::Warning,
                        code: Some(String::from_str("YS0010")),
                    };
                    let ghost before = out@;
                    out.push(diag);
                    assert(diagnostics_view(out@) =~= diagnostics_view(before).push(diag@));
                },
            }
        }
        i = i + 1;
    }
    Some(out)
}

} // verus!
