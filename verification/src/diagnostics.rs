//! Compiler diagnostics: what the compiler reports about a Yarn script, and the
//! stable descriptors that classify its reports.
use vstd::prelude::*;

verus! {

/// A position in a source file: a zero-based line, and a zero-based column counted
/// in bytes.
#[derive(Debug, Clone, Copy, PartialEq, Eq, Structural)]
pub struct Position {
    /// The line.
    pub line: usize,
    /// The column.
    pub character: usize,
}

/// How severe a diagnostic is.
#[derive(Debug, Clone, Copy, PartialEq, Eq, Structural)]
pub enum DiagnosticSeverity {
    /// An error: compilation fails.
    Error,
    /// A warning.
    Warning,
    /// Information.
    Info,
}

/// Something the compiler reports about a script.
#[derive(Debug, Clone)]
pub struct Diagnostic {
    /// The file the diagnostic is about.
    pub file_name: Option<String>,
    /// The range of the file the diagnostic is about: its start and its end.
    pub range: Option<(Position, Position)>,
    /// What the diagnostic says.
    pub message: String,
    /// The source text the diagnostic is about.
    pub context: Option<String>,
    /// How severe the diagnostic is.
    pub severity: DiagnosticSeverity,
    /// The stable code that classifies the diagnostic.
    pub code: Option<String>,
}

/// The view of an optional string.
pub open spec fn opt_chars(s: Option<String>) -> Option<Seq<char>> {
    match s {
        Some(x) => Some(x@),
        None => None,
    }
}

/// The mathematical form of a [`Diagnostic`].
pub struct DiagnosticView {
    /// The file.
    pub file_name: Option<Seq<char>>,
    /// The range.
    pub range: Option<(Position, Position)>,
    /// The message.
    pub message: Seq<char>,
    /// The context.
    pub context: Option<Seq<char>>,
    /// The severity.
    pub severity: DiagnosticSeverity,
    /// The code.
    pub code: Option<Seq<char>>,
}

impl View for Diagnostic {
    type V = DiagnosticView;

    open spec fn view(&self) -> DiagnosticView {
        DiagnosticView {
            file_name: opt_chars(self.file_name),
            range: self.range,
            message: self.message@,
            context: opt_chars(self.context),
            severity: self.severity,
            code: opt_chars(self.code),
        }
    }
}

/// The views of a list of diagnostics.
pub open spec fn diagnostics_view(d: Seq<Diagnostic>) -> Seq<DiagnosticView> {
    d.map_values(|x: Diagnostic| x@)
}

/// The view of a diagnostic with the given parts and no context.
pub open spec fn report(
    message: Seq<char>,
    file_name: Seq<char>,
    range: Option<(Position, Position)>,
    severity: DiagnosticSeverity,
    code: Seq<char>,
) -> DiagnosticView {
    DiagnosticView {
        file_name: Some(file_name),
        range,
        message,
        context: None,
        severity,
        code: Some(code),
    }
}

impl Diagnostic {
    /// An error diagnostic that says `message`, with nothing else set.
    pub fn from_message(message: String) -> (r: Diagnostic)
        ensures
            r@ == (DiagnosticView {
                file_name: None,
                range: None,
                message: message@,
                context: None,
                severity: DiagnosticSeverity::Error,
                code: None,
            }),
    {
        Diagnostic { file_name: None, range: None, message, context: None, severity: DiagnosticSeverity::Error, code: None }
    }

    /// This diagnostic, about the file `file_name`.
    pub fn with_file_name(self, file_name: String) -> (r: Diagnostic)
        ensures
            r@ == (DiagnosticView { file_name: Some(file_name@), ..self@ }),
    {
        Diagnostic { file_name: Some(file_name), ..self }
    }

    /// This diagnostic, about the range from `start` to `end`.
    pub fn with_range(self, start: Position, end: Position) -> (r: Diagnostic)
        ensures
            r@ == (DiagnosticView { range: Some((start, end)), ..self@ }),
    {
        Diagnostic { range: Some((start, end)), ..self }
    }

    /// This diagnostic, with the severity `severity`.
    pub fn with_severity(self, severity: DiagnosticSeverity) -> (r: Diagnostic)
        ensures
            r@ == (DiagnosticView { severity, ..self@ }),
    {
        Diagnostic { severity, ..self }
    }

    /// This diagnostic, with the code `code`.
    pub fn with_code(self, code: &str) -> (r: Diagnostic)
        ensures
            r@ == (DiagnosticView { code: Some(code@), ..self@ }),
    {
        Diagnostic { code: Some(String::from_str(code)), ..self }
    }
}

/// A class of compiler diagnostic: a stable code, a message template, a default
/// severity, and a description.
#[derive(Debug, Clone, Copy)]
pub struct DiagnosticDescriptor {
    /// The stable code.
    pub code: &'static str,
    /// A template for the diagnostic's message.
    pub message_template: &'static str,
    /// The default severity.
    pub default_severity: DiagnosticSeverity,
    /// What the diagnostic means.
    pub description: &'static str,
}

impl DiagnosticDescriptor {
    /// A descriptor with the given parts.
    pub fn new(
        code: &'static str,
        message_template: &'static str,
        default_severity: DiagnosticSeverity,
        description: &'static str,
    ) -> (r: Self)
        ensures
            r.code == code,
            r.message_template == message_template,
            r.default_severity == default_severity,
            r.description == description,
    {
        DiagnosticDescriptor { code, message_template, default_severity, description }
    }

    /// A diagnostic of this class about the file `file_name`, saying `message`.
    pub fn create(&self, file_name: String, message: String) -> (r: Diagnostic)
        ensures
            r@ == report(message@, file_name@, None, self.default_severity, self.code@),
    {
        Diagnostic::from_message(message).with_file_name(file_name).with_severity(self.default_severity).with_code(self.code)
    }

    /// A diagnostic of this class about the range from `start` to `end` of the file
    /// `file_name`, saying `message`.
    pub fn create_with_range(&self, file_name: String, start: Position, end: Position, message: String) -> (r: Diagnostic)
        ensures
            r@ == report(message@, file_name@, Some((start, end)), self.default_severity, self.code@),
    {
        Diagnostic::from_message(message).with_file_name(file_name).with_severity(self.default_severity).with_range(
            start,
            end,
        ).with_code(self.code)
    }

    /// YS0008: code that can never run.
    pub fn unreachable_code() -> (r: Self)
        ensures
            r.code@ == "YS0008"@,
            r.default_severity == DiagnosticSeverity::Warning,
    {
        DiagnosticDescriptor::new(
            "YS0008",
            "Unreachable code",
            DiagnosticSeverity::Warning,
            "Code after a jump or return statement can never be reached.",
        )
    }

    /// YS0009: a node is never referenced.
    pub fn unreferenced_node() -> (r: Self)
        ensures
            r.code@ == "YS0009"@,
            r.default_severity == DiagnosticSeverity::Warning,
    {
        proof {
            reveal_strlit("YS0009");
        }
        DiagnosticDescriptor::new(
            "YS0009",
            "Node '{0}' is never referenced",
            DiagnosticSeverity::Warning,
            "A node is defined but never referenced by any other node.",
        )
    }

    /// YS0015: a cyclic dependency.
    pub fn cyclic_dependency() -> (r: Self)
        ensures
            r.code@ == "YS0015"@,
            r.default_severity == DiagnosticSeverity::Warning,
    {
        DiagnosticDescriptor::new(
            "YS0015",
            "Cyclic dependency detected",
            DiagnosticSeverity::Warning,
            "A cyclic dependency was detected between variables.",
        )
    }

    /// YS0063: malformed markup in a line.
    pub fn markup_failed_to_parse() -> (r: Self)
        ensures
            r.code@ == "YS0063"@,
            r.default_severity == DiagnosticSeverity::Warning,
    {
        DiagnosticDescriptor::new(
            "YS0063",
            "Dialogue has malformed or invalid markup. {0}",
            DiagnosticSeverity::Warning,
            "Dialogue has malformed or invalid markup.",
        )
    }
}

/// The views of a list of severity overrides.
pub open spec fn overrides_view(o: Seq<(String, Option<DiagnosticSeverity>)>) -> Seq<(Seq<char>, Option<DiagnosticSeverity>)> {
    o.map_values(|x: (String, Option<DiagnosticSeverity>)| (x.0@, x.1))
}

/// What `overrides` says of diagnostics with code `code`: `Some(Some(s))` to give
/// them severity `s`, `Some(None)` to suppress them, `None` where the code is not
/// listed. A code listed twice takes its first entry.
pub open spec fn override_for(overrides: Seq<(Seq<char>, Option<DiagnosticSeverity>)>, code: Seq<char>) -> Option<
    Option<DiagnosticSeverity>,
>
    decreases overrides.len(),
{
    if overrides.len() == 0 {
        None
    } else if overrides[0].0 == code {
        Some(overrides[0].1)
    } else {
        override_for(overrides.drop_first(), code)
    }
}

/// What becomes of diagnostic `d` under `overrides`: `d` with the severity its code
/// is given, `d` itself where its code is not listed or it has none, `None` where it
/// is suppressed.
pub open spec fn overridden(d: DiagnosticView, overrides: Seq<(Seq<char>, Option<DiagnosticSeverity>)>) -> Option<DiagnosticView> {
    match d.code {
        Some(c) => match override_for(overrides, c) {
            Some(Some(s)) => Some(
                DiagnosticView {
                    file_name: d.file_name,
                    range: d.range,
                    message: d.message,
                    context: d.context,
                    severity: s,
                    code: d.code,
                },
            ),
            Some(None) => None,
            None => Some(d),
        },
        None => Some(d),
    }
}

/// The diagnostics `ds` under `overrides`, in order, the suppressed ones left out.
pub open spec fn apply_overrides(ds: Seq<DiagnosticView>, overrides: Seq<(Seq<char>, Option<DiagnosticSeverity>)>) -> Seq<
    DiagnosticView,
>
    decreases ds.len(),
{
    if ds.len() == 0 {
        Seq::empty()
    } else {
        let rest = apply_overrides(ds.drop_last(), overrides);
        match overridden(ds.last(), overrides) {
            Some(d) => rest.push(d),
            None => rest,
        }
    }
}

/// The override that `overrides` lists for `code`.
fn find_override(overrides: &Vec<(String, Option<DiagnosticSeverity>)>, code: &str) -> (r: Option<Option<DiagnosticSeverity>>)
    ensures
        r == override_for(overrides_view(overrides@), code@),
{
    let ghost ov = overrides_view(overrides@);
    let mut i: usize = 0;
    assert(ov.subrange(0, ov.len() as int) =~= ov);
    while i < overrides.len()
        invariant
            ov == overrides_view(overrides@),
            i <= overrides@.len(),
            override_for(ov, code@) == override_for(ov.subrange(i as int, ov.len() as int), code@),
        decreases overrides.len() - i,
    {
        let ghost rest = ov.subrange(i as int, ov.len() as int);
        assert(rest[0] == (overrides@[i as int].0@, overrides@[i as int].1));
        assert(rest.drop_first() =~= ov.subrange(i + 1, ov.len() as int));
        if crate::text::str_eq(overrides[i].0.as_str(), code) {
            return Some(overrides[i].1);
        }
        i = i + 1;
    }
    assert(ov.subrange(i as int, ov.len() as int) =~= Seq::<(Seq<char>, Option<DiagnosticSeverity>)>::empty());
    None
}

/// Applies user-supplied severity overrides to `diagnostics`: a diagnostic whose code
/// `overrides` lists takes the severity given for it, or is left out where the
/// override suppresses it; the others are kept as they are, in order.
pub fn override_severities(
    diagnostics: Vec<Diagnostic>,
    overrides: &Vec<(String, Option<DiagnosticSeverity>)>,
) -> (r: Vec<Diagnostic>)
    ensures
        diagnostics_view(r@) == apply_overrides(diagnostics_view(diagnostics@), overrides_view(overrides@)),
{
    let ghost ov = overrides_view(overrides@);
    let ghost dv = diagnostics_view(diagnostics@);
    let mut pending = diagnostics;
    let mut reversed: Vec<Diagnostic> = Vec::new();
    while pending.len() > 0
        invariant
            diagnostics_view(pending@) + diagnostics_view(reversed@).reverse() == dv,
        decreases pending@.len(),
    {
        let ghost p_before = pending@;
        let ghost r_before = reversed@;
        let d = pending.pop().unwrap();
        reversed.push(d);
        assert(p_before =~= pending@.push(d));
        assert(diagnostics_view(p_before) =~= diagnostics_view(pending@).push(d@));
        assert(diagnostics_view(reversed@) =~= diagnostics_view(r_before).push(d@));
        assert(diagnostics_view(reversed@).reverse() =~= seq![d@] + diagnostics_view(r_before).reverse());
        assert(diagnostics_view(pending@) + diagnostics_view(reversed@).reverse() =~= diagnostics_view(p_before)
            + diagnostics_view(r_before).reverse());
    }
    assert(diagnostics_view(reversed@).reverse() =~= dv);
    let mut out: Vec<Diagnostic> = Vec::new();
    let mut done: usize = 0;
    let total = reversed.len();
    assert(dv.subrange(0, 0) =~= Seq::<DiagnosticView>::empty());
    while reversed.len() > 0
        invariant
            ov == overrides_view(overrides@),
            total == dv.len(),
            done + reversed@.len() == total,
            diagnostics_view(reversed@).reverse() == dv.subrange(done as int, total as int),
            diagnostics_view(out@) == apply_overrides(dv.subrange(0, done as int), ov),
        decreases reversed@.len(),
    {
        let ghost r_before = reversed@;
        let mut d = reversed.pop().unwrap();
        assert(r_before =~= reversed@.push(d));
        assert(diagnostics_view(r_before) =~= diagnostics_view(reversed@).push(d@));
        assert(diagnostics_view(r_before).reverse() =~= seq![d@] + diagnostics_view(reversed@).reverse());
        let ghost tail = dv.subrange(done as int, total as int);
        assert(tail == seq![d@] + diagnostics_view(reversed@).reverse());
        assert(tail[0] == d@);
        assert(dv[done as int] == tail[0]);
        assert(tail.drop_first() =~= diagnostics_view(reversed@).reverse());
        assert(tail.drop_first() =~= dv.subrange(done + 1, total as int));
        let ghost upto = dv.subrange(0, done + 1);
        assert(upto.drop_last() =~= dv.subrange(0, done as int));
        assert(upto.last() == d@);
        let ghost d_view = d@;
        let keep = match &d.code {
            Some(code) => match find_override(overrides, code.as_str()) {
                Some(Some(severity)) => {
                    d.severity = severity;
                    true
                },
                Some(None) => false,
                None => true,
            },
            None => true,
        };
        if keep {
            let ghost o_before = out@;
            out.push(d);
            assert(diagnostics_view(out@) =~= diagnostics_view(o_before).push(d@));
            assert(overridden(d_view, ov) == Some(d@));
        } else {
            assert(overridden(d_view, ov) is None);
        }
        done = done + 1;
    }
    assert(dv.subrange(0, total as int) =~= dv);
    out
}

} // verus!
