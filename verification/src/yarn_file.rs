//! A Yarn file that declares variables: one node whose body holds a `<<declare>>`
//! for each variable, with its description as a comment above it.
use vstd::prelude::*;

verus! {

/// The default value of a declared variable, as it is written in Yarn.
#[derive(Debug)]
pub enum DefaultValue {
    /// A number, by its text (whole numbers without a decimal point).
    Number(String),
    /// A string.
    Text(String),
    /// A boolean.
    Boolean(bool),
}

/// A variable declaration, as the file needs it.
#[derive(Debug)]
pub struct DeclarationEntry {
    /// The variable's name.
    pub name: String,
    /// Its description, if any.
    pub description: Option<String>,
    /// Whether it is a function, which a Yarn file cannot declare.
    pub is_function: bool,
    /// Its default value, if any.
    pub default_value: Option<DefaultValue>,
}

/// The text of a default value.
pub open spec fn default_text(v: Option<DefaultValue>) -> Seq<char> {
    match v {
        Some(DefaultValue::Number(n)) => n@,
        Some(DefaultValue::Text(s)) => seq!['"'] + s@ + seq!['"'],
        Some(DefaultValue::Boolean(b)) => if b { "true"@ } else { "false"@ },
        None => Seq::empty(),
    }
}

/// The number of declarations among the first `n` that the file holds (all but functions).
pub open spec fn declared_count(ds: Seq<DeclarationEntry>, n: int) -> nat
    decreases n,
{
    if n <= 0 {
        0
    } else {
        declared_count(ds, n - 1) + if ds[n - 1].is_function { 0nat } else { 1nat }
    }
}

/// The lines for declaration `d`, the `count`-th that the file holds: its description
/// as a comment (after a blank line, unless it is the first), then its `<<declare>>`.
pub open spec fn declaration_text(d: DeclarationEntry, count: nat) -> Seq<char> {
    let comment = match d.description {
        Some(desc) => if desc@.len() > 0 {
            (if count > 0 { seq!['\n'] } else { Seq::empty() }) + "/// "@ + desc@ + seq!['\n']
        } else {
            Seq::empty()
        },
        None => Seq::empty(),
    };
    comment + "<<declare "@ + d.name@ + " = "@ + default_text(d.default_value) + ">>\n"@
}

/// The lines for the first `n` declarations.
pub open spec fn declarations_text(ds: Seq<DeclarationEntry>, n: int) -> Seq<char>
    decreases n,
{
    if n <= 0 {
        Seq::empty()
    } else if ds[n - 1].is_function {
        declarations_text(ds, n - 1)
    } else {
        declarations_text(ds, n - 1) + declaration_text(ds[n - 1], declared_count(ds, n - 1))
    }
}

/// The first `n` strings of `v`, joined by single spaces.
pub open spec fn spaced(v: Seq<String>, n: int) -> Seq<char>
    decreases n,
{
    if n <= 0 {
        Seq::empty()
    } else if n == 1 {
        v[0]@
    } else {
        spaced(v, n - 1) + seq![' '] + v[n - 1]@
    }
}

/// The first `n` headers, each `key: value` on a line.
pub open spec fn header_lines(h: Seq<(String, String)>, n: int) -> Seq<char>
    decreases n,
{
    if n <= 0 {
        Seq::empty()
    } else {
        header_lines(h, n - 1) + h[n - 1].0@ + ": "@ + h[n - 1].1@ + seq!['\n']
    }
}

/// The file: the title, the tags where there are any, the other headers, `---`, the
/// declarations, and `===`.
pub open spec fn yarn_file(ds: Seq<DeclarationEntry>, title: Seq<char>, tags: Seq<String>, headers: Seq<(String, String)>) -> Seq<char> {
    "title: "@ + title + seq!['\n'] + (if tags.len() > 0 {
        "tags: "@ + spaced(tags, tags.len() as int) + seq!['\n']
    } else {
        Seq::empty()
    }) + header_lines(headers, headers.len() as int) + "---\n"@ + declarations_text(ds, ds.len() as int) + "===\n"@
}

fn append_text(out: &mut String, t: &str)
    ensures
        final(out)@ == old(out)@ + t@,
{
    out.append(t);
}

/// Writes a Yarn file that declares `declarations` (functions are left out), in a
/// node titled `title` with the tags `tags` and the further headers `headers`.
pub fn generate_yarn_file_with_declarations(
    declarations: &Vec<DeclarationEntry>,
    title: &str,
    tags: &Vec<String>,
    headers: &Vec<(String, String)>,
) -> (r: String)
    ensures
        r@ == yarn_file(declarations@, title@, tags@, headers@),
{
    proof {
        reveal_strlit("title: ");
        reveal_strlit("\n");
        reveal_strlit("tags: ");
        reveal_strlit(" ");
        reveal_strlit(": ");
        reveal_strlit("---\n");
        reveal_strlit("===\n");
    }
    let mut out = String::from_str("title: ");
    append_text(&mut out, title);
    append_text(&mut out, "\n");
    let ghost head = out@;
    if tags.len() > 0 {
        append_text(&mut out, "tags: ");
        let mut i: usize = 0;
        while i < tags.len()
            invariant
                i <= tags@.len(),
                tags@.len() > 0,
                out@ == head + "tags: "@ + spaced(tags@, i as int),
            decreases tags.len() - i,
        {
            if i > 0 {
                append_text(&mut out, " ");
            }
            append_text(&mut out, tags[i].as_str());
            proof {
                reveal_strlit(" ");
            }
            assert(out@ =~= head + "tags: "@ + spaced(tags@, i + 1));
            i = i + 1;
        }
        append_text(&mut out, "\n");
    }
    let ghost with_tags = out@;
    let mut h: usize = 0;
    assert(with_tags + header_lines(headers@, 0) =~= with_tags);
    while h < headers.len()
        invariant
            h <= headers@.len(),
            out@ == with_tags + header_lines(headers@, h as int),
        decreases headers.len() - h,
    {
        append_text(&mut out, headers[h].0.as_str());
        append_text(&mut out, ": ");
        append_text(&mut out, headers[h].1.as_str());
        append_text(&mut out, "\n");
        proof {
            reveal_strlit(": ");
            reveal_strlit("\n");
        }
        assert(out@ =~= with_tags + header_lines(headers@, h + 1));
        h = h + 1;
    }
    append_text(&mut out, "---\n");
    let ghost body_start = out@;
    let mut count: usize = 0;
    let mut k: usize = 0;
    assert(body_start + declarations_text(declarations@, 0) =~= body_start);
    while k < declarations.len()
        invariant
            k <= declarations@.len(),
            count == declared_count(declarations@, k as int),
            count <= k,
            out@ == body_start + declarations_text(declarations@, k as int),
        decreases declarations.len() - k,
    {
        proof {
            reveal_strlit("\n");
            reveal_strlit("/// ");
            reveal_strlit("<<declare ");
            reveal_strlit(" = ");
            reveal_strlit("\"");
            reveal_strlit("true");
            reveal_strlit("false");
            reveal_strlit(">>\n");
        }
        let d = &declarations[k];
        if !d.is_function {
            let ghost before = out@;
            match &d.description {
                Some(desc) => {
                    if desc.as_str().unicode_len() > 0 {
                        if count > 0 {
                            append_text(&mut out, "\n");
                        }
                        append_text(&mut out, "/// ");
                        append_text(&mut out, desc.as_str());
                        append_text(&mut out, "\n");
                    }
                },
                None => {},
            }
            append_text(&mut out, "<<declare ");
            append_text(&mut out, d.name.as_str());
            append_text(&mut out, " = ");
            match &d.default_value {
                Some(DefaultValue::Number(n)) => {
                    append_text(&mut out, n.as_str());
                },
                Some(DefaultValue::Text(s)) => {
                    append_text(&mut out, "\"");
                    append_text(&mut out, s.as_str());
                    append_text(&mut out, "\"");
                },
                Some(DefaultValue::Boolean(b)) => {
                    if *b {
                        append_text(&mut out, "true");
                    } else {
                        append_text(&mut out, "false");
                    }
                },
                None => {},
            }
            append_text(&mut out, ">>\n");
            assert(out@ =~= before + declaration_text(declarations@[k as int], count as nat));
            count = count + 1;
        }
        assert(out@ =~= body_start + declarations_text(declarations@, k + 1));
        k = k + 1;
    }
    append_text(&mut out, "===\n");
    assert(out@ =~= yarn_file(declarations@, title@, tags@, headers@));
    out
}

} // verus!
