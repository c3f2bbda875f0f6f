//! Small scans of Yarn source text: variable names, positions, header comments.
use crate::text::{chars_of, find, find_chars, slice_chars, string_from_chars, trim_end, utf8_width};
use vstd::prelude::*;

verus! {

/// Whether `c` is an ASCII letter.
pub open spec fn ascii_alpha(c: char) -> bool {
    ('a' <= c && c <= 'z') || ('A' <= c && c <= 'Z')
}

/// Whether `c` is an ASCII letter or digit.
pub open spec fn ascii_alnum(c: char) -> bool {
    ascii_alpha(c) || ('0' <= c && c <= '9')
}

/// The end of the identifier characters (ASCII letters, digits, `_`) of `s` from `k`.
pub open spec fn identifier_end(s: Seq<char>, k: int) -> int
    decreases s.len() - k,
{
    if k < 0 || k >= s.len() || !(ascii_alnum(s[k]) || s[k] == '_') {
        k
    } else {
        identifier_end(s, k + 1)
    }
}

/// [`identifier_end`] does not go back, nor past the end.
pub proof fn lemma_identifier_end(s: Seq<char>, k: int)
    ensures
        identifier_end(s, k) >= k,
        0 <= k <= s.len() ==> identifier_end(s, k) <= s.len(),
    decreases s.len() - k,
{
    if 0 <= k < s.len() {
        lemma_identifier_end(s, k + 1);
    }
}

/// The `$name` tokens of `s` from `i` on, in order: a `$`, an ASCII letter or `_`,
/// then ASCII letters, digits and `_`.
pub open spec fn variable_names(s: Seq<char>, i: int) -> Seq<Seq<char>>
    decreases s.len() - i,
{
    if i < 0 || i >= s.len() {
        seq![]
    } else if s[i] == '$' && i + 1 < s.len() && (ascii_alpha(s[i + 1]) || s[i + 1] == '_') {
        let e = identifier_end(s, i + 2);
        proof {
            lemma_identifier_end(s, i + 2);
        }
        seq![s.subrange(i, e)] + variable_names(s, e)
    } else {
        variable_names(s, i + 1)
    }
}

/// The `$name` tokens of `input`, in order.
pub fn extract_var_names(input: &str) -> (r: Vec<String>)
    ensures
        r@.map_values(|x: String| x@) == variable_names(input@, 0),
{
    let s = chars_of(input);
    let mut out: Vec<String> = Vec::new();
    let mut i: usize = 0;
    while i < s.len()
        invariant
            s@ == input@,
            i <= s@.len(),
            out@.map_values(|x: String| x@) + variable_names(s@, i as int) == variable_names(s@, 0),
        decreases s.len() - i,
    {
        let ghost before = out@.map_values(|x: String| x@);
        if s[i] == '$' && i + 1 < s.len() && (('a' <= s[i + 1] && s[i + 1] <= 'z') || ('A' <= s[i + 1] && s[i + 1] <= 'Z')
            || s[i + 1] == '_') {
            let start = i;
            let mut k = i + 2;
            while k < s.len() && (('a' <= s[k] && s[k] <= 'z') || ('A' <= s[k] && s[k] <= 'Z') || ('0' <= s[k] && s[k]
                <= '9') || s[k] == '_')
                invariant
                    start + 2 <= k <= s@.len(),
                    identifier_end(s@, start + 2) == identifier_end(s@, k as int),
                decreases s.len() - k,
            {
                k = k + 1;
            }
            let name = slice_chars(&s, start, k);
            out.push(string_from_chars(&name));
            assert(out@.map_values(|x: String| x@) =~= before.push(name@));
            assert(before.push(name@) + variable_names(s@, k as int) =~= before + variable_names(s@, i as int));
            i = k;
        } else {
            i = i + 1;
        }
    }
    assert(variable_names(s@, i as int) =~= Seq::<Seq<char>>::empty());
    assert(out@.map_values(|x: String| x@) =~= variable_names(s@, 0));
    out
}

/// The zero-based line and column (in characters) of the character of `s` at byte
/// `offset`, scanning from the `j`-th character, which starts at byte `pos`.
pub open spec fn line_col_from(s: Seq<char>, offset: int, j: int, pos: int, line: nat, col: nat) -> (nat, nat)
    decreases s.len() - j,
{
    if j < 0 || j >= s.len() || pos >= offset {
        (line, col)
    } else if s[j] == '\n' {
        line_col_from(s, offset, j + 1, pos + utf8_width(s[j]), line + 1, 0)
    } else {
        line_col_from(s, offset, j + 1, pos + utf8_width(s[j]), line, col + 1)
    }
}

/// The zero-based line and column (in characters) of byte `offset` of `s`.
pub open spec fn line_col(s: Seq<char>, offset: int) -> (nat, nat) {
    line_col_from(s, offset, 0, 0, 0, 0)
}

/// The zero-based line and column of byte `offset` of `source`.
pub fn offset_to_line_col(source: &str, offset: usize) -> (r: (usize, usize))
    ensures
        (r.0 as nat, r.1 as nat) == line_col(source@, offset as int),
{
    let s = chars_of(source);
    let mut line: usize = 0;
    let mut col: usize = 0;
    let mut pos: usize = 0;
    let mut j: usize = 0;
    while j < s.len() && pos < offset
        invariant
            s@ == source@,
            j <= s@.len(),
            line <= j,
            col <= j,
            pos <= offset,
            line_col(s@, offset as int) == line_col_from(s@, offset as int, j as int, pos as int, line as nat, col as nat),
        decreases s.len() - j,
    {
        let u = s[j] as u32;
        let w: usize = if u < 0x80 {
            1
        } else if u < 0x800 {
            2
        } else if u < 0x10000 {
            3
        } else {
            4
        };
        if s[j] == '\n' {
            line = line + 1;
            col = 0;
        } else {
            col = col + 1;
        }
        if w > offset - pos {
            proof {
                assert(line_col_from(s@, offset as int, j + 1, pos + w, line as nat, col as nat) == (
                line as nat, col as nat));
            }
            return (line, col);
        }
        pos = pos + w;
        j = j + 1;
    }
    (line, col)
}

/// A header value without the `//` comment at its end, and without the white space
/// before the comment.
pub open spec fn without_header_comment(s: Seq<char>) -> Seq<char> {
    match find(s, "//"@) {
        Some(i) => trim_end(s.subrange(0, i)),
        None => s,
    }
}

/// A header value without its comment.
pub fn strip_header_comment(s: &str) -> (r: String)
    ensures
        r@ == without_header_comment(s@),
{
    let v = chars_of(s);
    let pattern = chars_of("//");
    match find_chars(&v, &pattern) {
        Some(i) => {
            let head = slice_chars(&v, 0, i);
            let b = crate::text::end_before_whitespace(&head, 0);
            assert(head@.subrange(0, head@.len() as int) =~= head@);
            crate::text::slice_string(&head, 0, b)
        },
        None => String::from_str(s),
    }
}

} // verus!
