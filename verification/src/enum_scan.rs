//! The scan of Yarn source for `<<enum>>` blocks, which must happen before the
//! source is tokenised: each block's name, its cases with their raw values as
//! written, and where it stands. Reading the raw values as numbers is left to the
//! caller.
use vstd::prelude::*;

use crate::text::{
    byte_len, chars_equal, chars_of, find, find_chars, lines, lines_of, slice_chars, slice_string, starts_with_chars,
    string_from_chars, trim, trim_chars, utf8_len,
};

verus! {

/// The raw value of a case, as written.
#[derive(Debug)]
pub enum RawValue {
    /// No `= value`.
    Unset,
    /// A value in double quotes: the text between them.
    Quoted(String),
    /// Any other value: its text, a number or not.
    Literal(String),
}

/// The mathematical form of a [`RawValue`].
pub enum RawValueView {
    /// No `= value`.
    Unset,
    /// A quoted value's text.
    Quoted(Seq<char>),
    /// Any other value's text.
    Literal(Seq<char>),
}

impl View for RawValue {
    type V = RawValueView;

    open spec fn view(&self) -> RawValueView {
        match self {
            RawValue::Unset => RawValueView::Unset,
            RawValue::Quoted(s) => RawValueView::Quoted(s@),
            RawValue::Literal(s) => RawValueView::Literal(s@),
        }
    }
}

/// A case of an enum block: its name and raw value.
#[derive(Debug)]
pub struct EnumCaseScan {
    /// The case's name.
    pub name: String,
    /// Its raw value.
    pub raw: RawValue,
}

/// An enum block: its name, its cases in order, and where it stands (zero-based
/// lines, byte columns; the end column is just past `<<endenum>>`).
#[derive(Debug)]
pub struct EnumBlockScan {
    /// The enum's name.
    pub name: String,
    /// Its cases.
    pub cases: Vec<EnumCaseScan>,
    /// The line of `<<enum>>`.
    pub start_line: usize,
    /// The column of `<<enum>>`.
    pub start_col: usize,
    /// The line of `<<endenum>>`.
    pub end_line: usize,
    /// The column just past `<<endenum>>`.
    pub end_col: usize,
}

/// The mathematical form of an [`EnumBlockScan`].
pub struct EnumBlockView {
    /// The enum's name.
    pub name: Seq<char>,
    /// Its cases: name and raw value.
    pub cases: Seq<(Seq<char>, RawValueView)>,
    /// The line of `<<enum>>`.
    pub start_line: int,
    /// The column of `<<enum>>`.
    pub start_col: int,
    /// The line of `<<endenum>>`.
    pub end_line: int,
    /// The column just past `<<endenum>>`.
    pub end_col: int,
}

/// The cases of a block, as name and raw value.
pub open spec fn cases_view(cases: Seq<EnumCaseScan>) -> Seq<(Seq<char>, RawValueView)> {
    cases.map_values(|c: EnumCaseScan| (c.name@, c.raw@))
}

impl View for EnumBlockScan {
    type V = EnumBlockView;

    open spec fn view(&self) -> EnumBlockView {
        EnumBlockView {
            name: self.name@,
            cases: cases_view(self.cases@),
            start_line: self.start_line as int,
            start_col: self.start_col as int,
            end_line: self.end_line as int,
            end_col: self.end_col as int,
        }
    }
}

/// The blocks, in their mathematical form.
pub open spec fn blocks_view(v: Seq<EnumBlockScan>) -> Seq<EnumBlockView> {
    v.map_values(|b: EnumBlockScan| b@)
}

/// The command a line holds: the text between a leading `<<` (after white space)
/// and the first `>>` after it, trimmed.
pub open spec fn command_text(line: Seq<char>) -> Option<Seq<char>> {
    let t = trim(line);
    if "<<"@.is_prefix_of(t) {
        let rest = t.subrange(2, t.len() as int);
        match find(rest, ">>"@) {
            Some(p) => Some(trim(rest.subrange(0, p))),
            None => None,
        }
    } else {
        None
    }
}

/// The raw value written as `raw`: quoted where it is at least two characters
/// between double quotes.
pub open spec fn raw_value(raw: Seq<char>) -> RawValueView {
    if raw.len() >= 2 && raw[0] == '"' && raw[raw.len() - 1] == '"' {
        RawValueView::Quoted(raw.subrange(1, raw.len() - 1))
    } else {
        RawValueView::Literal(raw)
    }
}

/// The case that `rest` (what follows `case `, trimmed) declares: the name before the
/// first `=` and the raw value after it, both trimmed; or the whole of `rest` as the
/// name, with no value.
pub open spec fn case_of(rest: Seq<char>) -> (Seq<char>, RawValueView) {
    match find(rest, "="@) {
        Some(p) => (trim(rest.subrange(0, p)), raw_value(trim(rest.subrange(p + 1, rest.len() as int)))),
        None => (rest, RawValueView::Unset),
    }
}

/// The byte column at which `<<` first occurs in `line`, or 0.
pub open spec fn command_column(line: Seq<char>) -> int {
    match find(line, "<<"@) {
        Some(p) => utf8_len(line.subrange(0, p)) as int,
        None => 0,
    }
}

/// An enum block that has been opened and not yet closed.
pub struct OpenBlock {
    /// The enum's name.
    pub name: Seq<char>,
    /// Its cases so far.
    pub cases: Seq<(Seq<char>, RawValueView)>,
    /// The line of `<<enum>>`.
    pub start_line: int,
    /// The column of `<<enum>>`.
    pub start_col: int,
}

/// The scan of the first `k` lines: the block still open, if any, and the blocks
/// closed so far. `<<enum Name>>` opens a block (dropping one left open),
/// `<<case ...>>` adds a case to the open block, and `<<endenum>>` closes it; other
/// lines, and cases or ends outside a block, change nothing.
pub open spec fn scan_lines(ls: Seq<Seq<char>>, k: int) -> (Option<OpenBlock>, Seq<EnumBlockView>)
    decreases k,
{
    if k <= 0 {
        (None, Seq::empty())
    } else {
        let (open, blocks) = scan_lines(ls, k - 1);
        let line = ls[k - 1];
        match command_text(line) {
            None => (open, blocks),
            Some(c) => if "enum "@.is_prefix_of(c) {
                (
                    Some(
                        OpenBlock {
                            name: trim(c.subrange(5, c.len() as int)),
                            cases: Seq::empty(),
                            start_line: k - 1,
                            start_col: command_column(line),
                        },
                    ),
                    blocks,
                )
            } else if c == "endenum"@ {
                match open {
                    Some(o) => (
                        None,
                        blocks.push(
                            EnumBlockView {
                                name: o.name,
                                cases: o.cases,
                                start_line: o.start_line,
                                start_col: o.start_col,
                                end_line: k - 1,
                                end_col: command_column(line) + 11,
                            },
                        ),
                    ),
                    None => (None, blocks),
                }
            } else if "case "@.is_prefix_of(c) {
                match open {
                    Some(o) => (
                        Some(
                            OpenBlock {
                                name: o.name,
                                cases: o.cases.push(case_of(trim(c.subrange(5, c.len() as int)))),
                                start_line: o.start_line,
                                start_col: o.start_col,
                            },
                        ),
                        blocks,
                    ),
                    None => (None, blocks),
                }
            } else {
                (open, blocks)
            },
        }
    }
}

/// The enum blocks of `source`, in order.
pub open spec fn enum_blocks(source: Seq<char>) -> Seq<EnumBlockView> {
    scan_lines(lines(source), lines(source).len() as int).1
}

proof fn lemma_lines_short(s: Seq<char>)
    ensures
        forall|k: int| 0 <= k < lines(s).len() ==> (#[trigger] lines(s)[k]).len() <= s.len(),
    decreases s.len(),
{
    crate::text::lemma_newline_at(s);
    if s.len() > 0 && newline_at_lt(s) {
        let i = crate::text::newline_at(s) as int;
        let rest = s.subrange(i + 1, s.len() as int);
        lemma_lines_short(rest);
        assert forall|k: int| 0 <= k < lines(s).len() implies (#[trigger] lines(s)[k]).len() <= s.len() by {
            if k > 0 {
                assert(lines(s)[k] == lines(rest)[k - 1]);
            }
        }
    }
}

spec fn newline_at_lt(s: Seq<char>) -> bool {
    crate::text::newline_at(s) < s.len()
}

/// The raw value written as `raw`.
fn read_raw_value(raw: &Vec<char>) -> (r: RawValue)
    ensures
        r@ == raw_value(raw@),
{
    let n = raw.len();
    if n >= 2 && raw[0] == '"' && raw[n - 1] == '"' {
        RawValue::Quoted(slice_string(raw, 1, n - 1))
    } else {
        RawValue::Literal(string_from_chars(raw))
    }
}

/// The case declared by `rest`.
#[verifier::spinoff_prover]
#[verifier::rlimit(40)]
fn read_case(rest: &Vec<char>) -> (r: EnumCaseScan)
    ensures
        (r.name@, r.raw@) == case_of(rest@),
{
    let eq = chars_of("=");
    proof {
        reveal_strlit("=");
    }
    assert(eq@.len() == 1);
    let n = rest.len();
    match find_chars(rest, &eq) {
        Some(p) => {
            assert(p + eq@.len() <= rest@.len());
            assert(p + 1 <= n);
            let name = trim_chars(&slice_chars(rest, 0, p));
            let raw = trim_chars(&slice_chars(rest, p + 1, n));
            let name_string = string_from_chars(&name);
            let value = read_raw_value(&raw);
            assert(name_string@ == trim(rest@.subrange(0, p as int)));
            assert(value@ == raw_value(trim(rest@.subrange(p + 1, rest@.len() as int))));
            EnumCaseScan { name: name_string, raw: value }
        },
        None => EnumCaseScan { name: string_from_chars(rest), raw: RawValue::Unset },
    }
}

/// The command a line holds.
fn read_command(line: &Vec<char>) -> (r: Option<Vec<char>>)
    ensures
        match r {
            Some(c) => command_text(line@) == Some(c@),
            None => command_text(line@) is None,
        },
{
    let t = trim_chars(line);
    let open = chars_of("<<");
    proof {
        reveal_strlit("<<");
        reveal_strlit(">>");
    }
    if !starts_with_chars(&t, &open) {
        return None;
    }
    let rest = slice_chars(&t, 2, t.len());
    let close = chars_of(">>");
    match find_chars(&rest, &close) {
        Some(p) => Some(trim_chars(&slice_chars(&rest, 0, p))),
        None => None,
    }
}

/// The byte column of the first `<<` of `line`, or 0.
fn read_column(line: &Vec<char>) -> (r: usize)
    requires
        4 * line@.len() <= usize::MAX,
    ensures
        r == command_column(line@),
        r <= 4 * line@.len(),
{
    let open = chars_of("<<");
    match find_chars(line, &open) {
        Some(p) => {
            let prefix = slice_chars(line, 0, p);
            proof {
                lemma_utf8_len_bound(prefix@);
            }
            byte_len(&prefix)
        },
        None => 0,
    }
}

proof fn lemma_utf8_len_bound(s: Seq<char>)
    ensures
        utf8_len(s) <= 4 * s.len(),
    decreases s.len(),
{
    if s.len() > 0 {
        lemma_utf8_len_bound(s.drop_last());
    }
}

/// Scans `source` for its `<<enum>>` blocks: each block closed by `<<endenum>>`, with
/// its name, its cases and their raw values, and where it stands.
#[verifier::spinoff_prover]
#[verifier::rlimit(80)]
pub fn scan_enum_blocks(source: &str) -> (r: Vec<EnumBlockScan>)
    requires
        4 * source@.len() + 11 <= usize::MAX,
    ensures
        blocks_view(r@) == enum_blocks(source@),
{
    let ls = lines_of(source);
    let ghost lv = ls@.map_values(|l: String| l@);
    proof {
        lemma_lines_short(source@);
    }
    let mut blocks: Vec<EnumBlockScan> = Vec::new();
    let mut open: Option<EnumBlockScan> = None;
    let mut k: usize = 0;
    let enum_word = chars_of("enum ");
    let case_word = chars_of("case ");
    proof {
        reveal_strlit("enum ");
        reveal_strlit("case ");
        reveal_strlit("endenum");
    }
    while k < ls.len()
        invariant
            lv == ls@.map_values(|l: String| l@),
            lv == lines(source@),
            forall|j: int| 0 <= j < lv.len() ==> (#[trigger] lv[j]).len() <= source@.len(),
            4 * source@.len() + 11 <= usize::MAX,
            k <= lv.len(),
            enum_word@ == "enum "@,
            case_word@ == "case "@,
            blocks_view(blocks@) == scan_lines(lv, k as int).1,
            match (open, scan_lines(lv, k as int).0) {
                (Some(b), Some(o)) => b.name@ == o.name && cases_view(b.cases@) == o.cases && b.start_line
                    == o.start_line && b.start_col == o.start_col,
                (None, None) => true,
                _ => false,
            },
        decreases lv.len() - k,
    {
        proof {
            reveal_strlit("enum ");
            reveal_strlit("case ");
            reveal_strlit("endenum");
        }
        let line = chars_of(ls[k].as_str());
        assert(line@ == lv[k as int]);
        let ghost before_blocks = blocks@;
        match read_command(&line) {
            None => {},
            Some(c) => {
                if starts_with_chars(&c, &enum_word) {
                    let name = trim_chars(&slice_chars(&c, 5, c.len()));
                    let col = read_column(&line);
                    open = Some(
                        EnumBlockScan {
                            name: string_from_chars(&name),
                            cases: Vec::new(),
                            start_line: k,
                            start_col: col,
                            end_line: 0,
                            end_col: 0,
                        },
                    );
                    assert(cases_view(Seq::<EnumCaseScan>::empty()) =~= Seq::<(Seq<char>, RawValueView)>::empty());
                } else if chars_equal(&c, "endenum") {
                    match open.take() {
                        Some(b) => {
                            let col = read_column(&line);
                            let done = EnumBlockScan {
                                name: b.name,
                                cases: b.cases,
                                start_line: b.start_line,
                                start_col: b.start_col,
                                end_line: k,
                                end_col: col + 11,
                            };
                            blocks.push(done);
                            assert(blocks_view(blocks@) =~= blocks_view(before_blocks).push(blocks@.last()@));
                        },
                        None => {},
                    }
                } else if starts_with_chars(&c, &case_word) {
                    match open.take() {
                        Some(b) => {
                            let rest = trim_chars(&slice_chars(&c, 5, c.len()));
                            let case = read_case(&rest);
                            let mut cases = b.cases;
                            let ghost before_cases = cases@;
                            cases.push(case);
                            assert(cases_view(cases@) =~= cases_view(before_cases).push((cases@.last().name@, cases@.last().raw@)));
                            open = Some(
                                EnumBlockScan {
                                    name: b.name,
                                    cases,
                                    start_line: b.start_line,
                                    start_col: b.start_col,
                                    end_line: 0,
                                    end_col: 0,
                                },
                            );
                        },
                        None => {},
                    }
                }
            },
        }
        k = k + 1;
    }
    blocks
}

/// The name of the first case, in order, whose name an earlier case already has.
pub open spec fn first_repeated_name(cases: Seq<(Seq<char>, RawValueView)>, n: int) -> Option<Seq<char>>
    decreases n,
{
    if n <= 0 {
        None
    } else {
        match first_repeated_name(cases, n - 1) {
            Some(x) => Some(x),
            None => if exists|i: int| 0 <= i < n - 1 && (#[trigger] cases[i]).0 == cases[n - 1].0 {
                Some(cases[n - 1].0)
            } else {
                None
            },
        }
    }
}

/// The text of the first quoted value, in order, that an earlier case already has.
pub open spec fn first_repeated_quote(cases: Seq<(Seq<char>, RawValueView)>, n: int) -> Option<Seq<char>>
    decreases n,
{
    if n <= 0 {
        None
    } else {
        match first_repeated_quote(cases, n - 1) {
            Some(x) => Some(x),
            None => match cases[n - 1].1 {
                RawValueView::Quoted(q) => if exists|i: int| 0 <= i < n - 1 && (#[trigger] cases[i]).1 == RawValueView::Quoted(q) {
                    Some(q)
                } else {
                    None
                },
                _ => None,
            },
        }
    }
}

/// Whether some case has a quoted value.
pub open spec fn any_quoted(cases: Seq<(Seq<char>, RawValueView)>) -> bool {
    exists|i: int| 0 <= i < cases.len() && (#[trigger] cases[i]).1 is Quoted
}

/// Whether some case has an unquoted value.
pub open spec fn any_literal(cases: Seq<(Seq<char>, RawValueView)>) -> bool {
    exists|i: int| 0 <= i < cases.len() && (#[trigger] cases[i]).1 is Literal
}

/// Whether some case has no value.
pub open spec fn any_unset(cases: Seq<(Seq<char>, RawValueView)>) -> bool {
    exists|i: int| 0 <= i < cases.len() && (#[trigger] cases[i]).1 is Unset
}

/// The error that the structure of block `b` decides, where one does, checked in
/// order: a value that is not a constant (`non_constant`, which the caller decides by
/// reading the unquoted values as numbers), no cases, quoted values beside unquoted
/// ones, cases without a value beside quoted ones, a repeated case name, a repeated
/// quoted value.
pub open spec fn structural_error(b: EnumBlockView, non_constant: bool) -> Option<Seq<char>> {
    let prefix = "Enum '"@ + b.name;
    if non_constant {
        Some("Expected a constant type"@)
    } else if b.cases.len() == 0 {
        Some(prefix + "' must not be empty"@)
    } else if any_quoted(b.cases) && any_literal(b.cases) {
        Some(prefix + "': raw values must all be of the same type"@)
    } else if any_quoted(b.cases) && any_unset(b.cases) {
        Some(prefix + "': all cases must have a string raw value if any do"@)
    } else {
        match first_repeated_name(b.cases, b.cases.len() as int) {
            Some(x) => Some(prefix + "': duplicate case name '"@ + x + "'"@),
            None => match first_repeated_quote(b.cases, b.cases.len() as int) {
                Some(q) => Some(prefix + "': duplicate raw value '"@ + q + "'"@),
                None => None,
            },
        }
    }
}

fn same_raw(a: &RawValue, b: &RawValue) -> (r: bool)
    ensures
        r == (a@ == b@),
{
    match (a, b) {
        (RawValue::Unset, RawValue::Unset) => true,
        (RawValue::Quoted(x), RawValue::Quoted(y)) => crate::text::str_eq(x.as_str(), y.as_str()),
        (RawValue::Literal(x), RawValue::Literal(y)) => crate::text::str_eq(x.as_str(), y.as_str()),
        _ => false,
    }
}

/// The first repeated case name of `cases`.
fn repeated_name(cases: &Vec<EnumCaseScan>) -> (r: Option<String>)
    ensures
        match r {
            Some(x) => first_repeated_name(cases_view(cases@), cases@.len() as int) == Some(x@),
            None => first_repeated_name(cases_view(cases@), cases@.len() as int) is None,
        },
{
    let ghost cv = cases_view(cases@);
    let mut j: usize = 0;
    while j < cases.len()
        invariant
            j <= cases@.len(),
            cv == cases_view(cases@),
            first_repeated_name(cv, j as int) is None,
        decreases cases@.len() - j,
    {
        let mut i: usize = 0;
        while i < j
            invariant
                i <= j < cases@.len(),
                cv == cases_view(cases@),
                first_repeated_name(cv, j as int) is None,
                forall|q: int| 0 <= q < i ==> (#[trigger] cv[q]).0 != cv[j as int].0,
            decreases j - i,
        {
            if crate::text::str_eq(cases[i].name.as_str(), cases[j].name.as_str()) {
                assert(cv[i as int].0 == cv[j as int].0);
                assert(first_repeated_name(cv, j + 1) == Some(cv[j as int].0));
                proof {
                    lemma_repeated_name_stays(cv, j + 1, cases@.len() as int);
                }
                return Some(cases[j].name.clone());
            }
            i = i + 1;
        }
        assert(first_repeated_name(cv, j + 1) is None);
        j = j + 1;
    }
    None
}

proof fn lemma_repeated_name_stays(cases: Seq<(Seq<char>, RawValueView)>, a: int, b: int)
    requires
        0 <= a <= b,
        first_repeated_name(cases, a) is Some,
    ensures
        first_repeated_name(cases, b) == first_repeated_name(cases, a),
    decreases b - a,
{
    if a < b {
        lemma_repeated_name_stays(cases, a, b - 1);
    }
}

proof fn lemma_repeated_quote_stays(cases: Seq<(Seq<char>, RawValueView)>, a: int, b: int)
    requires
        0 <= a <= b,
        first_repeated_quote(cases, a) is Some,
    ensures
        first_repeated_quote(cases, b) == first_repeated_quote(cases, a),
    decreases b - a,
{
    if a < b {
        lemma_repeated_quote_stays(cases, a, b - 1);
    }
}

/// The first repeated quoted value of `cases`.
fn repeated_quote(cases: &Vec<EnumCaseScan>) -> (r: Option<String>)
    ensures
        match r {
            Some(x) => first_repeated_quote(cases_view(cases@), cases@.len() as int) == Some(x@),
            None => first_repeated_quote(cases_view(cases@), cases@.len() as int) is None,
        },
{
    let ghost cv = cases_view(cases@);
    let mut j: usize = 0;
    while j < cases.len()
        invariant
            j <= cases@.len(),
            cv == cases_view(cases@),
            first_repeated_quote(cv, j as int) is None,
        decreases cases@.len() - j,
    {
        match &cases[j].raw {
            RawValue::Quoted(q) => {
                let mut i: usize = 0;
                while i < j
                    invariant
                        i <= j < cases@.len(),
                        cv == cases_view(cases@),
                        first_repeated_quote(cv, j as int) is None,
                        cases@[j as int].raw@ == RawValueView::Quoted(q@),
                        forall|k: int| 0 <= k < i ==> (#[trigger] cv[k]).1 != RawValueView::Quoted(q@),
                    decreases j - i,
                {
                    if same_raw(&cases[i].raw, &cases[j].raw) {
                        assert(cv[i as int].1 == RawValueView::Quoted(q@));
                        assert(first_repeated_quote(cv, j + 1) == Some(q@));
                        proof {
                            lemma_repeated_quote_stays(cv, j + 1, cases@.len() as int);
                        }
                        return Some(q.clone());
                    }
                    i = i + 1;
                }
                assert(first_repeated_quote(cv, j + 1) is None);
            },
            _ => {
                assert(first_repeated_quote(cv, j + 1) is None);
            },
        }
        j = j + 1;
    }
    None
}

/// Whether some case's raw value is of the kind `kind` (0 unset, 1 quoted, 2 unquoted).
fn any_of_kind(cases: &Vec<EnumCaseScan>, kind: u8) -> (r: bool)
    ensures
        kind == 0 ==> r == any_unset(cases_view(cases@)),
        kind == 1 ==> r == any_quoted(cases_view(cases@)),
        kind == 2 ==> r == any_literal(cases_view(cases@)),
{
    let ghost cv = cases_view(cases@);
    let mut i: usize = 0;
    while i < cases.len()
        invariant
            i <= cases@.len(),
            cv == cases_view(cases@),
            forall|q: int|
                0 <= q < i ==> !((kind == 0 && (#[trigger] cv[q]).1 is Unset) || (kind == 1 && cv[q].1 is Quoted) || (kind == 2
                    && cv[q].1 is Literal)),
        decreases cases@.len() - i,
    {
        assert(cv[i as int].1 == cases@[i as int].raw@);
        let hit = match &cases[i].raw {
            RawValue::Unset => kind == 0,
            RawValue::Quoted(_) => kind == 1,
            RawValue::Literal(_) => kind == 2,
        };
        if hit {
            return true;
        }
        i = i + 1;
    }
    false
}

/// The error that the structure of `block` decides, where one does (see
/// [`structural_error`]); `non_constant` tells whether some unquoted value is not a
/// number.
pub fn block_structure_error(block: &EnumBlockScan, non_constant: bool) -> (r: Option<String>)
    ensures
        match r {
            Some(m) => structural_error(block@, non_constant) == Some(m@),
            None => structural_error(block@, non_constant) is None,
        },
{
    proof {
        reveal_strlit("Expected a constant type");
        reveal_strlit("Enum '");
        reveal_strlit("' must not be empty");
        reveal_strlit("': raw values must all be of the same type");
        reveal_strlit("': all cases must have a string raw value if any do");
        reveal_strlit("': duplicate case name '");
        reveal_strlit("': duplicate raw value '");
        reveal_strlit("'");
    }
    if non_constant {
        return Some(String::from_str("Expected a constant type"));
    }
    let mut m = String::from_str("Enum '");
    m.append(block.name.as_str());
    if block.cases.len() == 0 {
        m.append("' must not be empty");
        return Some(m);
    }
    let quoted = any_of_kind(&block.cases, 1);
    if quoted && any_of_kind(&block.cases, 2) {
        m.append("': raw values must all be of the same type");
        return Some(m);
    }
    if quoted && any_of_kind(&block.cases, 0) {
        m.append("': all cases must have a string raw value if any do");
        return Some(m);
    }
    match repeated_name(&block.cases) {
        Some(x) => {
            m.append("': duplicate case name '");
            m.append(x.as_str());
            m.append("'");
            return Some(m);
        },
        None => {},
    }
    match repeated_quote(&block.cases) {
        Some(q) => {
            m.append("': duplicate raw value '");
            m.append(q.as_str());
            m.append("'");
            Some(m)
        },
        None => None,
    }
}

} // verus!
