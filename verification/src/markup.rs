//! The result of parsing the markup of a line.
use vstd::prelude::*;

verus! {

/// A type of markup marker.
#[derive(Debug, Clone, Copy, PartialEq, Eq, Structural)]
pub enum TagType {
    /// An open marker. For example, `[a]`.
    Open,
    /// A closing marker. For example, `[/a]`.
    Close,
    /// A self-closing marker. For example, `[a/]`.
    SelfClosing,
    /// The close-all marker, `[/]`.
    CloseAll,
}

/// A range of the plain text of a line that a markup attribute covers.
#[derive(Debug)]
pub struct MarkupAttribute {
    /// The attribute's name.
    pub name: String,
    /// Where the range starts in the plain text.
    pub position: usize,
    /// The length of the range.
    pub length: usize,
    /// Where the attribute's opening marker stands in the marked-up text.
    pub source_position: usize,
}

/// The mathematical form of a [`MarkupAttribute`].
pub struct MarkupAttributeView {
    /// The attribute's name.
    pub name: Seq<char>,
    /// Where the range starts in the plain text.
    pub position: usize,
    /// The length of the range.
    pub length: usize,
    /// Where the attribute's opening marker stands in the marked-up text.
    pub source_position: usize,
}

impl View for MarkupAttribute {
    type V = MarkupAttributeView;

    open spec fn view(&self) -> MarkupAttributeView {
        MarkupAttributeView {
            name: self.name@,
            position: self.position,
            length: self.length,
            source_position: self.source_position,
        }
    }
}

/// The views of a list of attributes.
pub open spec fn attributes_view(a: Seq<MarkupAttribute>) -> Seq<MarkupAttributeView> {
    a.map_values(|x: MarkupAttribute| x@)
}

/// A copy of a list of attributes.
pub fn copy_attributes(a: &Vec<MarkupAttribute>) -> (r: Vec<MarkupAttribute>)
    ensures
        attributes_view(r@) == attributes_view(a@),
{
    let mut out: Vec<MarkupAttribute> = Vec::new();
    let mut i: usize = 0;
    while i < a.len()
        invariant
            i <= a.len(),
            out@.len() == i,
            forall|j: int| 0 <= j < i ==> #[trigger] out@[j]@ == a@[j]@,
        decreases a.len() - i,
    {
        out.push(
            MarkupAttribute {
                name: a[i].name.clone(),
                position: a[i].position,
                length: a[i].length,
                source_position: a[i].source_position,
            },
        );
        i = i + 1;
    }
    assert(attributes_view(out@) =~= attributes_view(a@));
    out
}

/// The result of parsing a line of marked-up text: the text without its markers,
/// and the attributes that the markers delimit.
#[derive(Debug)]
pub struct ParsedMarkup {
    /// The original text, with all parsed markers removed.
    pub text: String,
    /// The attributes of the text.
    pub attributes: Vec<MarkupAttribute>,
}

impl ParsedMarkup {
    /// An empty parse result: no text, no attributes.
    pub fn new() -> (r: Self)
        ensures
            r.text@ == Seq::<char>::empty(),
            r.attributes@.len() == 0,
    {
        ParsedMarkup { text: String::new(), attributes: Vec::new() }
    }
}

/// Why marked-up text could not be parsed.
#[derive(Debug)]
pub struct MarkupParseError {
    /// A description of the problem.
    pub message: String,
}

} // verus!
