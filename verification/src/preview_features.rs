//! Detection of the language features that need language version 3: enums, line
//! groups, `once` conditions and statements, and smart variables. Where a project
//! declares an earlier version, each is reported with YS0036.
use crate::diagnostics::{diagnostics_view, report, Diagnostic, DiagnosticSeverity, DiagnosticView};
use crate::text::{
    alphanumeric, chars_equal, chars_of, decimal, decimal_string, end_before_whitespace, ends_with, ends_with_chars,
    find, find_chars, is_alphanumeric, leading_whitespace, lines, lines_of, skip_whitespace, slice_chars,
    starts_with_chars, string_from_chars, trim, trim_chars, trim_end, trim_start, utf8_len,
};
use crate::validate_syntax::in_body;
use vstd::prelude::*;

verus! {

/// The language version from which the features are available.
pub const YARNSPINNER_PROJECT_VERSION_3: u32 = 3;

/// Whether a trimmed line of a node body is a block-level `once` statement:
/// `<<once>>`, or `<<once ...>>`, the block form with a condition
/// (`<<once if ...>>`) included.
pub open spec fn once_statement(t: Seq<char>) -> bool {
    t == "<<once>>"@ || ("<<once "@.is_prefix_of(t) && ends_with(t, ">>"@))
}

/// Whether `source` holds a block-level `once` statement in a node body.
pub open spec fn block_once_in(source: Seq<char>) -> bool {
    let ls = lines(source);
    exists|k: int|
        0 <= k < ls.len() && in_body(ls, k) && #[trigger] trim(ls[k]) != "---"@ && trim(ls[k]) != "==="@
            && once_statement(trim(ls[k]))
}

/// Whether `source` holds a block-level `once` statement in a node body.
pub fn has_block_once_statement(source: &str) -> (r: bool)
    ensures
        r == block_once_in(source@),
{
    let ls = lines_of(source);
    let ghost lv = ls@.map_values(|l: String| l@);
    let mut in_node_body = false;
    let mut k: usize = 0;
    let once_space = chars_of("<<once ");
    let close = chars_of(">>");
    while k < ls.len()
        invariant
            lv == ls@.map_values(|l: String| l@),
            lv == lines(source@),
            k <= lv.len(),
            in_node_body == in_body(lv, k as int),
            forall|j: int|
                0 <= j < k ==> !(in_body(lv, j) && #[trigger] trim(lv[j]) != "---"@ && trim(lv[j]) != "==="@
                    && once_statement(trim(lv[j]))),
            once_space@ == "<<once "@,
            close@ == ">>"@,
        decreases ls.len() - k,
    {
        let line = chars_of(ls[k].as_str());
        assert(line@ == lv[k as int]);
        let trimmed = trim_chars(&line);
        if chars_equal(&trimmed, "---") {
            in_node_body = true;
        } else if chars_equal(&trimmed, "===") {
            in_node_body = false;
        } else if in_node_body {
            if chars_equal(&trimmed, "<<once>>") || (starts_with_chars(&trimmed, &once_space) && ends_with_chars(
                &trimmed,
                &close,
            )) {
                assert(in_body(lv, k as int) && trim(lv[k as int]) != "---"@ && trim(lv[k as int]) != "==="@
                    && once_statement(trim(lv[k as int])));
                return true;
            }
        }
        k = k + 1;
    }
    false
}

/// The text of `line` after the first occurrence of `prefix`.
pub open spec fn after_prefix(line: Seq<char>, prefix: Seq<char>) -> Option<Seq<char>> {
    match find(line, prefix) {
        Some(p) => Some(line.subrange(p + prefix.len(), line.len() as int)),
        None => None,
    }
}

/// The text of `line` after the first occurrence of `prefix`, if `prefix` occurs.
pub fn find_after_prefix(line: &Vec<char>, prefix: &Vec<char>) -> (r: Option<Vec<char>>)
    ensures
        match r {
            Some(v) => after_prefix(line@, prefix@) == Some(v@) && v@.len() <= line@.len(),
            None => after_prefix(line@, prefix@) is None,
        },
{
    let n = line.len();
    match find_chars(line, prefix) {
        Some(p) => Some(slice_chars(line, p + prefix.len(), n)),
        None => None,
    }
}

/// The code of `c` in lower case where it is an ASCII letter.
pub open spec fn ascii_lower(c: char) -> u32 {
    if 'A' <= c && c <= 'Z' {
        ((c as u32) + 32) as u32
    } else {
        c as u32
    }
}

/// Whether `s` ends with `suffix`, ignoring the case of ASCII letters.
pub open spec fn ends_with_ignoring_case(s: Seq<char>, suffix: Seq<char>) -> bool {
    &&& suffix.len() <= s.len()
    &&& forall|i: int|
        0 <= i < suffix.len() ==> ascii_lower(#[trigger] s[s.len() - suffix.len() + i]) == ascii_lower(suffix[i])
}

/// `expr` without a `as number`, `as string` or `as bool` annotation at its end (the
/// type in any case of ASCII letters), and without the white space before it.
pub open spec fn stripped_annotation(expr: Seq<char>) -> Seq<char> {
    if ends_with_ignoring_case(expr, " as number"@) {
        trim_end(expr.subrange(0, expr.len() - 10))
    } else if ends_with_ignoring_case(expr, " as string"@) {
        trim_end(expr.subrange(0, expr.len() - 10))
    } else if ends_with_ignoring_case(expr, " as bool"@) {
        trim_end(expr.subrange(0, expr.len() - 8))
    } else {
        expr
    }
}

/// Whether `b` is the UTF-8 offset of a character of `s` (or of its end).
pub open spec fn byte_boundary(s: Seq<char>, b: int) -> bool {
    exists|k: int| 0 <= k <= s.len() && #[trigger] utf8_len(s.subrange(0, k)) == b
}

/// Whether the annotation check can look at the last bytes of `expr`: the offsets it
/// slices at are character boundaries.
pub open spec fn annotation_checkable(expr: Seq<char>) -> bool {
    let n = utf8_len(expr) as int;
    &&& n >= 10 ==> byte_boundary(expr, n - 10)
    &&& (n >= 8 && !ends_with_ignoring_case(expr, " as number"@) && !ends_with_ignoring_case(expr, " as string"@))
        ==> byte_boundary(expr, n - 8)
}

/// Whether `s` ends with `suffix`, ignoring the case of ASCII letters.
fn ends_ignoring_case(s: &Vec<char>, suffix: &str) -> (r: bool)
    ensures
        r == ends_with_ignoring_case(s@, suffix@),
{
    let x = chars_of(suffix);
    if x.len() > s.len() {
        return false;
    }
    let base = s.len() - x.len();
    let mut i: usize = 0;
    while i < x.len()
        invariant
            x@ == suffix@,
            s@.len() <= usize::MAX,
            base + x@.len() == s@.len(),
            i <= x@.len(),
            forall|j: int| 0 <= j < i ==> ascii_lower(#[trigger] s@[s@.len() - x@.len() + j]) == ascii_lower(x@[j]),
        decreases x.len() - i,
    {
        let a = s[base + i];
        let b = x[i];
        let la: u32 = if 'A' <= a && a <= 'Z' { (a as u32) + 32 } else { a as u32 };
        let lb: u32 = if 'A' <= b && b <= 'Z' { (b as u32) + 32 } else { b as u32 };
        if la != lb {
            assert(ascii_lower(s@[s@.len() - x@.len() + i]) != ascii_lower(x@[i as int]));
            return false;
        }
        i = i + 1;
    }
    true
}

/// `expr` without its type annotation.
pub fn strip_type_annotation(expr: &Vec<char>) -> (r: Vec<char>)
    requires
        annotation_checkable(expr@),
    ensures
        r@ == stripped_annotation(expr@),
{
    if ends_ignoring_case(expr, " as number") || ends_ignoring_case(expr, " as string") {
        proof {
            reveal_strlit(" as number");
            reveal_strlit(" as string");
        }
        let end = expr.len() - 10;
        let head = slice_chars(expr, 0, end);
        let b = end_before_whitespace(&head, 0);
        assert(head@.subrange(0, head@.len() as int) =~= head@);
        slice_chars(&head, 0, b)
    } else if ends_ignoring_case(expr, " as bool") {
        proof {
            reveal_strlit(" as bool");
        }
        let end = expr.len() - 8;
        let head = slice_chars(expr, 0, end);
        let b = end_before_whitespace(&head, 0);
        assert(head@.subrange(0, head@.len() as int) =~= head@);
        slice_chars(&head, 0, b)
    } else {
        slice_chars(expr, 0, expr.len())
    }
}

/// The number of `c` in `s`.
pub open spec fn count_char(s: Seq<char>, c: char) -> nat
    decreases s.len(),
{
    if s.len() == 0 {
        0
    } else {
        count_char(s.drop_last(), c) + if s.last() == c { 1nat } else { 0nat }
    }
}

/// Whether `expr` is a plain literal: nothing, a boolean, a double-quoted string, or
/// a number (an optional `-`, then ASCII digits with at most one `.`).
pub open spec fn is_literal(expr: Seq<char>) -> bool {
    let e = trim(expr);
    ||| e.len() == 0
    ||| e == "true"@
    ||| e == "false"@
    ||| e.len() >= 2 && e[0] == '"' && e.last() == '"'
    ||| is_number_literal(unsigned_part(e))
}

/// `e` without a leading `-`.
pub open spec fn unsigned_part(e: Seq<char>) -> Seq<char> {
    if e.len() > 0 && e[0] == '-' {
        e.drop_first()
    } else {
        e
    }
}

/// Whether `d` is made of ASCII digits with at most one `.`.
pub open spec fn is_number_literal(d: Seq<char>) -> bool {
    &&& d.len() > 0
    &&& forall|i: int| 0 <= i < d.len() ==> ('0' <= #[trigger] d[i] <= '9' || d[i] == '.')
    &&& count_char(d, '.') <= 1
}

/// Whether `expr` is a plain literal.
pub fn is_literal_expression(expr: &Vec<char>) -> (r: bool)
    ensures
        r == is_literal(expr@),
{
    let e = trim_chars(expr);
    if e.len() == 0 || chars_equal(&e, "true") || chars_equal(&e, "false") {
        return true;
    }
    if e.len() >= 2 && e[0] == '"' && e[e.len() - 1] == '"' {
        return true;
    }
    let start: usize = if e[0] == '-' { 1 } else { 0 };
    let d = slice_chars(&e, start, e.len());
    assert(start == 1 ==> d@ =~= e@.drop_first());
    assert(start == 0 ==> d@ =~= e@);
    if d.len() == 0 {
        return false;
    }
    let mut dots: usize = 0;
    let mut i: usize = 0;
    while i < d.len()
        invariant
            e@ == trim(expr@),
            !(e@.len() == 0 || e@ == "true"@ || e@ == "false"@ || (e@.len() >= 2 && e@[0] == '"' && e@.last() == '"')),
            d@ == unsigned_part(e@),
            i <= d@.len(),
            forall|j: int| 0 <= j < i ==> ('0' <= #[trigger] d@[j] <= '9' || d@[j] == '.'),
            dots == count_char(d@.subrange(0, i as int), '.'),
            dots <= i,
        decreases d.len() - i,
    {
        let c = d[i];
        assert(d@.subrange(0, i + 1).drop_last() =~= d@.subrange(0, i as int));
        if !(('0' <= c && c <= '9') || c == '.') {
            assert(!('0' <= d@[i as int] <= '9' || d@[i as int] == '.'));
            return false;
        }
        if c == '.' {
            dots = dots + 1;
        }
        i = i + 1;
    }
    assert(d@.subrange(0, d@.len() as int) =~= d@);
    dots <= 1
}

/// The index of the first character of `a` (from `from`) that cannot be part of a
/// variable name, or the length of `a`.
pub open spec fn name_end(a: Seq<char>, from: int) -> int
    decreases a.len() - from,
{
    if from >= a.len() || !(alphanumeric(a[from]) || a[from] == '_' || a[from] == '$') {
        from
    } else {
        name_end(a, from + 1)
    }
}

/// The index of the last occurrence of `pattern` in `s`, if any.
pub open spec fn rfind(s: Seq<char>, pattern: Seq<char>) -> Option<int> {
    if exists|i: int| 0 <= i && i + pattern.len() <= s.len() && #[trigger] s.subrange(i, i + pattern.len()) == pattern {
        Some(choose|i: int|
            0 <= i && i + pattern.len() <= s.len() && #[trigger] s.subrange(i, i + pattern.len()) == pattern
                && forall|j: int|
                i < j && j + pattern.len() <= s.len() ==> #[trigger] s.subrange(j, j + pattern.len()) != pattern)
    } else {
        None
    }
}

/// The expression of a `<<declare $name = expression>>` that a trimmed line holds,
/// before its type annotation is removed: the text after `=` up to the last `>>`,
/// without the white space around it.
pub open spec fn declared_expression(t: Seq<char>) -> Option<Seq<char>> {
    match after_prefix(t, "<<declare "@) {
        None => None,
        Some(rest) => {
            let a = trim_start(rest);
            if a.len() == 0 || a[0] != '$' {
                None
            } else {
                let after_var = trim_start(a.subrange(name_end(a, 0), a.len() as int));
                if after_var.len() == 0 || after_var[0] != '=' {
                    None
                } else {
                    let raw = trim_start(after_var.drop_first());
                    let raw = match rfind(raw, ">>"@) {
                        Some(q) => raw.subrange(0, q),
                        None => raw,
                    };
                    Some(trim_end(raw))
                }
            }
        },
    }
}

/// Whether a trimmed line declares a smart variable: a declaration whose value is
/// not a plain literal.
pub open spec fn smart_declaration(t: Seq<char>) -> bool {
    match declared_expression(t) {
        Some(raw) => !is_literal(stripped_annotation(raw)),
        None => false,
    }
}

/// Whether the declaration of a trimmed line, if any, can be checked.
pub open spec fn declaration_checkable(t: Seq<char>) -> bool {
    match declared_expression(t) {
        Some(raw) => annotation_checkable(raw),
        None => true,
    }
}

/// Whether every declaration of `source` can be checked.
pub open spec fn declarations_checkable(source: Seq<char>) -> bool {
    forall|k: int| 0 <= k < lines(source).len() ==> declaration_checkable(#[trigger] trim(lines(source)[k]))
}

/// Whether `source` declares a smart variable on some line.
pub open spec fn smart_variable_in(source: Seq<char>) -> bool {
    exists|k: int| 0 <= k < lines(source).len() && smart_declaration(#[trigger] trim(lines(source)[k]))
}


/// [`name_end`].
fn name_end_at(a: &Vec<char>, from: usize) -> (r: usize)
    requires
        from <= a@.len(),
    ensures
        r == name_end(a@, from as int),
        from <= r <= a@.len(),
{
    let mut j: usize = from;
    while j < a.len() && (is_alphanumeric(a[j]) || a[j] == '_' || a[j] == '$')
        invariant
            from <= j <= a@.len(),
            name_end(a@, from as int) == name_end(a@, j as int),
        decreases a.len() - j,
    {
        j = j + 1;
    }
    j
}

/// The index of the last occurrence of `pattern` in `s`.
fn rfind_chars(s: &Vec<char>, pattern: &Vec<char>) -> (r: Option<usize>)
    ensures
        r matches Some(q) ==> rfind(s@, pattern@) == Some(q as int) && q + pattern@.len() <= s@.len(),
        r is None ==> rfind(s@, pattern@) is None,
{
    if pattern.len() > s.len() {
        return None;
    }
    let mut i: usize = s.len() - pattern.len();
    loop
        invariant
            i + pattern@.len() <= s@.len(),
            forall|j: int| i < j && j + pattern@.len() <= s@.len() ==> #[trigger] s@.subrange(j, j + pattern@.len()) != pattern@,
        decreases i,
    {
        if crate::text::occurs_at(s, pattern, i) {
            proof {
                let w = i as int;
                let c = choose|k: int|
                    0 <= k && k + pattern@.len() <= s@.len() && #[trigger] s@.subrange(k, k + pattern@.len()) == pattern@
                        && forall|j: int|
                        k < j && j + pattern@.len() <= s@.len() ==> #[trigger] s@.subrange(j, j + pattern@.len())
                            != pattern@;
                assert(0 <= w && w + pattern@.len() <= s@.len() && s@.subrange(w, w + pattern@.len()) == pattern@
                    && forall|j: int|
                    w < j && j + pattern@.len() <= s@.len() ==> #[trigger] s@.subrange(j, j + pattern@.len()) != pattern@);
                if c < w {
                    assert(s@.subrange(w, w + pattern@.len()) != pattern@);
                } else if c > w {
                    assert(s@.subrange(c, c + pattern@.len()) != pattern@);
                }
            }
            return Some(i);
        }
        if i == 0 {
            return None;
        }
        i = i - 1;
    }
}

/// The view of an optional character list.
pub open spec fn opt_chars(o: Option<Vec<char>>) -> Option<Seq<char>> {
    match o {
        Some(v) => Some(v@),
        None => None,
    }
}

/// The expression that a trimmed line declares, if any.
pub fn declared_expression_of(t: &Vec<char>) -> (r: Option<Vec<char>>)
    ensures
        opt_chars(r) == declared_expression(t@),
        r matches Some(v) ==> v@.len() <= t@.len(),
{
    let keyword = chars_of("<<declare ");
    let rest = match find_after_prefix(t, &keyword) {
        Some(x) => x,
        None => {
            return None;
        },
    };
    let a0 = skip_whitespace(&rest, 0);
    assert(rest@.subrange(0, rest@.len() as int) =~= rest@);
    let a = slice_chars(&rest, a0, rest.len());
    if a.len() == 0 || a[0] != '$' {
        return None;
    }
    let e = name_end_at(&a, 0);
    let v0 = skip_whitespace(&a, e);
    let after_var = slice_chars(&a, v0, a.len());
    if after_var.len() == 0 || after_var[0] != '=' {
        return None;
    }
    let r0 = skip_whitespace(&after_var, 1);
    assert(after_var@.drop_first() =~= after_var@.subrange(1, after_var@.len() as int));
    let raw = slice_chars(&after_var, r0, after_var.len());
    let close = chars_of(">>");
    let cut = match rfind_chars(&raw, &close) {
        Some(q) => slice_chars(&raw, 0, q),
        None => raw,
    };
    let b = end_before_whitespace(&cut, 0);
    assert(cut@.subrange(0, cut@.len() as int) =~= cut@);
    Some(slice_chars(&cut, 0, b))
}

/// Whether `b` is the UTF-8 offset of a character of `s`.
fn is_byte_boundary(s: &Vec<char>, b: usize) -> (r: bool)
    ensures
        r == byte_boundary(s@, b as int),
{
    let mut acc: usize = 0;
    let mut k: usize = 0;
    while k < s.len() && acc < b
        invariant
            k <= s@.len(),
            acc == utf8_len(s@.subrange(0, k as int)),
            acc <= b || k == 0,
            forall|j: int| 0 <= j < k ==> #[trigger] utf8_len(s@.subrange(0, j)) < acc,
        decreases s.len() - k,
    {
        assert(s@.subrange(0, k + 1).drop_last() =~= s@.subrange(0, k as int));
        let u = s[k] as u32;
        let w: usize = if u < 0x80 {
            1
        } else if u < 0x800 {
            2
        } else if u < 0x10000 {
            3
        } else {
            4
        };
        if w > b - acc {
            proof {
                assert forall|j: int| 0 <= j <= s@.len() implies #[trigger] utf8_len(s@.subrange(0, j)) != b by {
                    if j > k {
                        crate::text::lemma_utf8_len_split(s@.subrange(0, j), k + 1);
                        assert(s@.subrange(0, j).subrange(0, k + 1) =~= s@.subrange(0, k + 1));
                    }
                }
            }
            return false;
        }
        acc = acc + w;
        k = k + 1;
    }
    if acc == b {
        assert(0 <= k <= s@.len() && utf8_len(s@.subrange(0, k as int)) == b);
        return true;
    }
    proof {
        assert forall|j: int| 0 <= j <= s@.len() implies #[trigger] utf8_len(s@.subrange(0, j)) != b by {
            if j > k {
                crate::text::lemma_utf8_len_split(s@.subrange(0, j), k as int);
                assert(s@.subrange(0, j).subrange(0, k as int) =~= s@.subrange(0, k as int));
                if k < s@.len() {
                    crate::text::lemma_utf8_len_at_least(s@.subrange(0, j).subrange(k as int, j));
                }
            }
        }
    }
    false
}

/// Whether the annotation check can look at the last bytes of `expr`.
pub fn annotation_is_checkable(expr: &Vec<char>) -> (r: bool)
    requires
        4 * expr@.len() <= usize::MAX,
    ensures
        r == annotation_checkable(expr@),
{
    let n = crate::text::byte_len(expr);
    if n >= 10 && !is_byte_boundary(expr, n - 10) {
        return false;
    }
    if n >= 8 && !ends_ignoring_case(expr, " as number") && !ends_ignoring_case(expr, " as string") {
        return is_byte_boundary(expr, n - 8);
    }
    true
}

/// Whether a trimmed line declares a smart variable.
pub fn is_smart_declaration(t: &Vec<char>) -> (r: bool)
    requires
        declaration_checkable(t@),
    ensures
        r == smart_declaration(t@),
{
    match declared_expression_of(t) {
        Some(raw) => !is_literal_expression(&strip_type_annotation(&raw)),
        None => false,
    }
}

/// Whether `source` declares a smart variable: a `<<declare $name = expression>>`
/// whose expression, without its type annotation, is not a plain literal.
pub fn has_smart_variable_declaration(source: &str) -> (r: bool)
    requires
        declarations_checkable(source@),
    ensures
        r == smart_variable_in(source@),
{
    let ls = lines_of(source);
    let ghost lv = ls@.map_values(|l: String| l@);
    let mut k: usize = 0;
    while k < ls.len()
        invariant
            lv == ls@.map_values(|l: String| l@),
            lv == lines(source@),
            declarations_checkable(source@),
            k <= lv.len(),
            forall|j: int| 0 <= j < k ==> !smart_declaration(#[trigger] trim(lv[j])),
        decreases ls.len() - k,
    {
        let line = chars_of(ls[k].as_str());
        assert(line@ == lv[k as int]);
        let trimmed = trim_chars(&line);
        assert(declaration_checkable(trim(lines(source@)[k as int])));
        if is_smart_declaration(&trimmed) {
            return true;
        }
        k = k + 1;
    }
    false
}

/// Whether every declaration of `source` can be checked.
pub fn declarations_are_checkable(source: &str) -> (r: bool)
    requires
        4 * source@.len() <= usize::MAX,
    ensures
        r == declarations_checkable(source@),
{
    let ls = lines_of(source);
    let ghost lv = ls@.map_values(|l: String| l@);
    proof {
        crate::text::lemma_lines_short(source@);
    }
    let mut k: usize = 0;
    while k < ls.len()
        invariant
            lv == ls@.map_values(|l: String| l@),
            lv == lines(source@),
            4 * source@.len() <= usize::MAX,
            forall|j: int| 0 <= j < lv.len() ==> (#[trigger] lv[j]).len() <= source@.len(),
            k <= lv.len(),
            forall|j: int| 0 <= j < k ==> declaration_checkable(#[trigger] trim(lv[j])),
        decreases ls.len() - k,
    {
        let line = chars_of(ls[k].as_str());
        assert(line@ == lv[k as int]);
        let trimmed = trim_chars(&line);
        match declared_expression_of(&trimmed) {
            Some(raw) => {
                if !annotation_is_checkable(&raw) {
                    return false;
                }
            },
            None => {},
        }
        k = k + 1;
    }
    true
}

/// The YS0036 diagnostic of a feature used below its language version.
pub open spec fn preview_report(feature: Seq<char>, language_version: u32, file_name: Seq<char>) -> DiagnosticView {
    DiagnosticView {
        file_name: Some(file_name),
        range: None,
        message: "Language feature \""@ + feature + "\" is not available at language version "@ + decimal(
            language_version as nat,
        ) + "; it requires version "@ + decimal(YARNSPINNER_PROJECT_VERSION_3 as nat) + " or later"@,
        context: None,
        severity: DiagnosticSeverity::Error,
        code: Some("YS0036"@),
    }
}

/// The YS0036 diagnostics of a file: one per enum, one for line groups, one for
/// `once` conditions, one for block-level `once` statements, and one for smart
/// variables, each where the file uses the feature.
pub open spec fn preview_diagnostics(
    enum_count: nat,
    has_line_groups: bool,
    has_once_conditions: bool,
    source: Seq<char>,
    file_name: Seq<char>,
    language_version: u32,
) -> Seq<DiagnosticView> {
    Seq::new(enum_count, |i: int| preview_report("enums"@, language_version, file_name)) + (if has_line_groups {
        seq![preview_report("line groups"@, language_version, file_name)]
    } else {
        seq![]
    }) + (if has_once_conditions {
        seq![preview_report("'once' conditions"@, language_version, file_name)]
    } else {
        seq![]
    }) + (if block_once_in(source) {
        seq![preview_report("'once' statements"@, language_version, file_name)]
    } else {
        seq![]
    }) + (if smart_variable_in(source) {
        seq![preview_report("smart variables"@, language_version, file_name)]
    } else {
        seq![]
    })
}

/// Records the YS0036 diagnostic of a feature.
fn push_preview(feature: &str, language_version: u32, file_name: &str, diagnostics: &mut Vec<Diagnostic>)
    ensures
        diagnostics_view(final(diagnostics)@) == diagnostics_view(old(diagnostics)@).push(
            preview_report(feature@, language_version, file_name@),
        ),
{
    let mut m = String::from_str("Language feature \"");
    m.append(feature);
    m.append("\" is not available at language version ");
    m.append(decimal_string(language_version as u64).as_str());
    m.append("; it requires version ");
    m.append(decimal_string(YARNSPINNER_PROJECT_VERSION_3 as u64).as_str());
    m.append(" or later");
    let d = Diagnostic::from_message(m).with_file_name(String::from_str(file_name)).with_severity(
        DiagnosticSeverity::Error,
    ).with_code("YS0036");
    diagnostics.push(d);
    assert(diagnostics_view(diagnostics@) =~= diagnostics_view(old(diagnostics)@).push(
        preview_report(feature@, language_version, file_name@),
    ));
}

/// Reports each language feature of version 3 that a file uses: `enum_count` enums,
/// line groups, `once` conditions (both known from parsing), and block-level `once`
/// statements and smart variables (found in the source).
pub fn emit_preview_feature_diagnostics(
    enum_count: usize,
    has_line_groups: bool,
    has_once_conditions: bool,
    source: &str,
    file_name: &str,
    language_version: u32,
    diagnostics: &mut Vec<Diagnostic>,
)
    requires
        declarations_checkable(source@),
    ensures
        diagnostics_view(final(diagnostics)@) == diagnostics_view(old(diagnostics)@) + preview_diagnostics(
            enum_count as nat,
            has_line_groups,
            has_once_conditions,
            source@,
            file_name@,
            language_version,
        ),
{
    let ghost start = diagnostics_view(diagnostics@);
    let mut i: usize = 0;
    while i < enum_count
        invariant
            i <= enum_count,
            diagnostics_view(diagnostics@) == start + Seq::new(
                i as nat,
                |j: int| preview_report("enums"@, language_version, file_name@),
            ),
        decreases enum_count - i,
    {
        push_preview("enums", language_version, file_name, diagnostics);
        assert(Seq::new((i + 1) as nat, |j: int| preview_report("enums"@, language_version, file_name@)) =~= Seq::new(
            i as nat,
            |j: int| preview_report("enums"@, language_version, file_name@),
        ).push(preview_report("enums"@, language_version, file_name@)));
        i = i + 1;
    }
    let ghost after_enums = diagnostics_view(diagnostics@);
    if has_line_groups {
        push_preview("line groups", language_version, file_name, diagnostics);
    }
    let ghost after_groups = diagnostics_view(diagnostics@);
    if has_once_conditions {
        push_preview("'once' conditions", language_version, file_name, diagnostics);
    }
    let ghost after_once = diagnostics_view(diagnostics@);
    if has_block_once_statement(source) {
        push_preview("'once' statements", language_version, file_name, diagnostics);
    }
    let ghost after_block = diagnostics_view(diagnostics@);
    if has_smart_variable_declaration(source) {
        push_preview("smart variables", language_version, file_name, diagnostics);
    }
    assert(diagnostics_view(diagnostics@) =~= start + preview_diagnostics(
        enum_count as nat,
        has_line_groups,
        has_once_conditions,
        source@,
        file_name@,
        language_version,
    ));
}
} // verus!
