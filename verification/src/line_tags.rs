//! Line tags: the errors and contexts of line tagging, the generator trait, and the
//! generator that draws random hexadecimal line IDs.
use rand::rngs::SmallRng;
use rand::RngExt;
use rand::SeedableRng;
use vstd::prelude::*;

use crate::text::{decimal, decimal_string, push_char, str_eq, string_from_chars};

verus! {

/// The prefix every line ID starts with.
pub open spec fn line_id_prefix() -> Seq<char> {
    seq!['l', 'i', 'n', 'e', ':']
}

/// The characters of the line ID prefix.
pub fn line_id_prefix_chars() -> (r: Vec<char>)
    ensures
        r@ == line_id_prefix(),
{
    let mut v: Vec<char> = Vec::new();
    v.push('l');
    v.push('i');
    v.push('n');
    v.push('e');
    v.push(':');
    assert(v@ =~= line_id_prefix());
    v
}

/// How line tagging goes on after a line could not be tagged.
#[derive(Debug, Clone, Copy, PartialEq, Eq, Structural)]
pub enum TagAbortBehaviour {
    /// Abort the entire tagging operation; every tag generated in the run is discarded.
    EntireTagging,
    /// Abort tagging the current node; tags of the other nodes are kept.
    CurrentNode,
    /// Skip the current line; every other line is still tagged.
    CurrentLine,
}

impl Default for TagAbortBehaviour {
    fn default() -> (r: Self)
        ensures
            r == TagAbortBehaviour::CurrentNode,
    {
        TagAbortBehaviour::CurrentNode
    }
}

/// An error that occurred while generating line tags.
#[derive(Debug, Clone)]
pub struct LineTaggingError {
    /// A description of the error.
    pub message: String,
    /// The source file the error occurred in, if known.
    pub source_file_name: Option<String>,
    /// The line the error occurred on, if known.
    pub line_number: Option<usize>,
}

/// The text of an error: its message, then the file and line where known.
pub open spec fn tagging_error_text(message: Seq<char>, file: Option<Seq<char>>, line: Option<usize>) -> Seq<char> {
    match file {
        None => message,
        Some(f) => match line {
            None => message + seq![' ', '(', 'i', 'n', ' '] + f + seq![')'],
            Some(n) => message + seq![' ', '(', 'i', 'n', ' '] + f + seq![',', ' ', 'l', 'i', 'n', 'e', ' ']
                + decimal(n as nat) + seq![')'],
        },
    }
}

/// Appends the characters of `t` to `s`.
pub fn push_str_chars(s: &mut String, t: &str)
    ensures
        final(s)@ == old(s)@ + t@,
{
    let n = t.unicode_len();
    let mut i: usize = 0;
    while i < n
        invariant
            n == t@.len(),
            i <= n,
            s@ == old(s)@ + t@.subrange(0, i as int),
        decreases n - i,
    {
        push_char(s, t.get_char(i));
        assert(t@.subrange(0, i as int + 1) =~= t@.subrange(0, i as int).push(t@[i as int]));
        i = i + 1;
    }
    assert(t@.subrange(0, n as int) =~= t@);
}

impl LineTaggingError {
    /// An error with a message alone.
    pub fn new(message: String) -> (r: Self)
        ensures
            r.message@ == message@,
            r.source_file_name is None,
            r.line_number is None,
    {
        LineTaggingError { message, source_file_name: None, line_number: None }
    }

    /// An error with a message, the source file and the line number.
    pub fn with_location(message: String, source_file_name: String, line_number: usize) -> (r: Self)
        ensures
            r.message@ == message@,
            r.source_file_name matches Some(f) && f@ == source_file_name@,
            r.line_number == Some(line_number),
    {
        LineTaggingError { message, source_file_name: Some(source_file_name), line_number: Some(line_number) }
    }

    /// The error as text: `message (in file, line n)`.
    pub fn to_text(&self) -> (r: String)
        ensures
            r@ == tagging_error_text(
                self.message@,
                match self.source_file_name {
                    Some(f) => Some(f@),
                    None => None,
                },
                self.line_number,
            ),
    {
        let mut out = self.message.clone();
        match &self.source_file_name {
            None => {},
            Some(f) => {
                push_str_chars(&mut out, " (in ");
                push_str_chars(&mut out, f.as_str());
                match self.line_number {
                    None => {},
                    Some(n) => {
                        push_str_chars(&mut out, ", line ");
                        let d = decimal_string(n as u64);
                        push_str_chars(&mut out, d.as_str());
                    },
                }
                push_char(&mut out, ')');
            },
        }
        proof {
            reveal_strlit(" (in ");
            reveal_strlit(", line ");
        }
        out
    }
}

/// What is known of a line that may need a tag.
#[derive(Debug, Clone)]
pub struct LineTagContext {
    /// The zero-based line number in the source file.
    pub line_number: usize,
    /// The source file name, if known.
    pub source_file_name: Option<String>,
    /// The text of the line, without markup.
    pub line_text: String,
    /// The line ID the line already has, if any.
    pub line_id: Option<String>,
}

/// Generates line tags for the untagged lines of Yarn source.
pub trait LineTagGenerator {
    /// Called before any tag is generated, with the lines of every node (by node
    /// name) and the IDs that must not be generated.
    fn prepare_for_lines(&mut self, line_contexts: &Vec<(String, Vec<LineTagContext>)>, excluded_ids: &Vec<String>)
        ensures
            final(self).answers() == old(self).answers(),
    ;

    /// A new tag, starting with `line:`, for the line at `line_index` of `node`.
    fn generate_line_tag(&mut self, node: &str, line_index: usize) -> (r: Result<String, LineTaggingError>)
        ensures
            final(self).answers() == old(self).answers().push((node@, line_index, answer_view(r))),
    ;

    /// The requests answered so far, in order: the node, the line index and the
    /// answer. A generator that keeps this record defines it; others leave it unknown.
    closed spec fn answers(&self) -> Seq<(Seq<char>, usize, Result<Seq<char>, Seq<char>>)> {
        vstd::pervasive::arbitrary()
    }
}

/// A generator's answer as its record keeps it: the tag, or the error's message.
pub open spec fn answer_view(r: Result<String, LineTaggingError>) -> Result<Seq<char>, Seq<char>> {
    match r {
        Ok(t) => Ok(t@),
        Err(e) => Err(e.message@),
    }
}

/// The hexadecimal digit for `d < 16`, in lower case.
pub open spec fn hex_digit(d: nat) -> char {
    if d == 0 { '0' } else if d == 1 { '1' } else if d == 2 { '2' } else if d == 3 { '3' }
    else if d == 4 { '4' } else if d == 5 { '5' } else if d == 6 { '6' } else if d == 7 { '7' }
    else if d == 8 { '8' } else if d == 9 { '9' } else if d == 10 { 'a' } else if d == 11 { 'b' }
    else if d == 12 { 'c' } else if d == 13 { 'd' } else if d == 14 { 'e' } else { 'f' }
}

/// The last `n` hexadecimal digits of `v`, most significant first, zero-padded.
pub open spec fn hex_digits(v: nat, n: nat) -> Seq<char>
    decreases n,
{
    if n == 0 {
        Seq::empty()
    } else {
        hex_digits(v / 16, (n - 1) as nat).push(hex_digit(v % 16))
    }
}

/// The line ID that a random value below 16^7 stands for: `line:` and seven
/// lower-case hexadecimal digits.
pub open spec fn random_line_tag(v: nat) -> Seq<char> {
    line_id_prefix() + hex_digits(v, 7)
}

fn hex_char(d: usize) -> (r: char)
    requires
        d < 16,
    ensures
        r == hex_digit(d as nat),
{
    if d == 0 { '0' } else if d == 1 { '1' } else if d == 2 { '2' } else if d == 3 { '3' }
    else if d == 4 { '4' } else if d == 5 { '5' } else if d == 6 { '6' } else if d == 7 { '7' }
    else if d == 8 { '8' } else if d == 9 { '9' } else if d == 10 { 'a' } else if d == 11 { 'b' }
    else if d == 12 { 'c' } else if d == 13 { 'd' } else if d == 14 { 'e' } else { 'f' }
}

pub(crate) fn push_hex_digits(out: &mut Vec<char>, v: usize, n: usize)
    ensures
        final(out)@ == old(out)@ + hex_digits(v as nat, n as nat),
    decreases n,
{
    if n == 0 {
        assert(old(out)@ + hex_digits(v as nat, 0) =~= old(out)@);
    } else {
        push_hex_digits(out, v / 16, n - 1);
        out.push(hex_char(v % 16));
        assert(old(out)@ + hex_digits(v as nat, n as nat) =~= old(out)@ + hex_digits((v / 16) as nat, (n - 1) as nat)
            + seq![hex_digit((v % 16) as nat)]);
    }
}

/// The line ID for a random value: `line:` and the value in seven lower-case
/// hexadecimal digits.
pub fn hex_line_tag(value: usize) -> (r: String)
    requires
        value < 0x1000000,
    ensures
        r@ == random_line_tag(value as nat),
{
    let mut chars = line_id_prefix_chars();
    push_hex_digits(&mut chars, value, 7);
    string_from_chars(&chars)
}

/// The message of the error that ends a search that found no free ID.
pub open spec fn no_unique_id_message() -> Seq<char> {
    "Failed to find a unique line ID within the maximum number of attempts"@
}

/// The message of the error given when no random number generator could be seeded.
pub open spec fn no_random_source_message() -> Seq<char> {
    "Failed to seed the random number generator for line IDs"@
}

/// The number of random values tried before tagging gives up.
pub const MAX_TAG_ATTEMPTS: usize = 100000;

/// The small, fast random number generator of the `rand` crate, held opaquely.
#[verifier::external_type_specification]
#[verifier::external_body]
pub struct ExSmallRng(rand::rngs::SmallRng);

/// Trusted: `SmallRng::try_from_rng` from the `rand` crate, seeded from the
/// operating system's random source (`SysRng`). `None` where that source failed;
/// nothing is claimed of the generator's state.
#[verifier::external_body]
fn seeded_small_rng() -> (r: Option<SmallRng>) {
    SmallRng::try_from_rng(&mut rand::rngs::SysRng).ok()
}

/// Trusted: `RngExt::random_range(0..bound)` from the `rand` crate on a `usize`
/// range. Its documentation promises a value in the range; which one is up to
/// chance.
#[verifier::external_body]
fn random_below(rng: &mut SmallRng, bound: usize) -> (r: usize)
    requires
        bound > 0,
    ensures
        r < bound,
{
    rng.random_range(0..bound)
}

/// Generates line IDs made of `line:` and a random seven-digit hexadecimal number,
/// never one it has seen or generated before.
pub struct RandomLineTagGenerator {
    all_keys: Vec<String>,
    answered: Ghost<Seq<(Seq<char>, usize, Result<Seq<char>, Seq<char>>)>>,
}

/// The set of the strings of `v`.
pub open spec fn string_set(v: Seq<String>) -> Set<Seq<char>> {
    Set::new(|k: Seq<char>| exists|i: int| 0 <= i < v.len() && (#[trigger] v[i])@ == k)
}

/// The IDs the contexts already carry.
pub open spec fn context_ids(contexts: Seq<(String, Vec<LineTagContext>)>) -> Set<Seq<char>> {
    Set::new(
        |k: Seq<char>|
            exists|n: int, i: int|
                0 <= n < contexts.len() && 0 <= i < contexts[n].1@.len() && carries_id(
                    #[trigger] contexts[n].1@[i],
                    k,
                ),
    )
}

/// Whether the line carries the ID `k`.
pub open spec fn carries_id(ctx: LineTagContext, k: Seq<char>) -> bool {
    ctx.line_id matches Some(id) && id@ == k
}

/// Whether the ID of the line, if it has one, is in `keys`.
pub open spec fn id_listed(ctx: LineTagContext, keys: Seq<String>) -> bool {
    ctx.line_id matches Some(id) ==> string_set(keys).contains(id@)
}

/// Whether some string of `v` holds the characters of `s`.
pub fn contains_str(v: &Vec<String>, s: &str) -> (r: bool)
    ensures
        r == string_set(v@).contains(s@),
{
    let mut i: usize = 0;
    while i < v.len()
        invariant
            i <= v.len(),
            forall|j: int| 0 <= j < i ==> (#[trigger] v@[j])@ != s@,
        decreases v.len() - i,
    {
        if str_eq(v[i].as_str(), s) {
            return true;
        }
        i = i + 1;
    }
    false
}

/// The excluded IDs, then the IDs the lines already carry.
pub fn known_ids(line_contexts: &Vec<(String, Vec<LineTagContext>)>, excluded_ids: &Vec<String>) -> (r: Vec<String>)
    ensures
        string_set(r@) == string_set(excluded_ids@).union(context_ids(line_contexts@)),
    {
        let mut keys: Vec<String> = Vec::new();
        let mut i: usize = 0;
        while i < excluded_ids.len()
            invariant
                i <= excluded_ids@.len(),
                keys@.len() == i,
                forall|j: int| 0 <= j < i ==> (#[trigger] keys@[j])@ == excluded_ids@[j]@,
            decreases excluded_ids@.len() - i,
        {
            keys.push(excluded_ids[i].clone());
            i = i + 1;
        }
        let ghost base = keys@;
        assert(string_set(base) =~= string_set(excluded_ids@)) by {
            assert forall|k: Seq<char>| #[trigger] string_set(base).contains(k) implies string_set(
                excluded_ids@,
            ).contains(k) by {
                let j = choose|j: int| 0 <= j < base.len() && (#[trigger] base[j])@ == k;
                assert(excluded_ids@[j]@ == k);
            }
            assert forall|k: Seq<char>| #[trigger] string_set(excluded_ids@).contains(k) implies string_set(
                base,
            ).contains(k) by {
                let j = choose|j: int| 0 <= j < excluded_ids@.len() && (#[trigger] excluded_ids@[j])@ == k;
                assert(base[j]@ == k);
            }
        }
        let mut n: usize = 0;
        while n < line_contexts.len()
            invariant
                n <= line_contexts@.len(),
                base.len() <= keys@.len(),
                forall|j: int| 0 <= j < base.len() ==> #[trigger] keys@[j] == base[j],
                string_set(base) == string_set(excluded_ids@),
                forall|j: int|
                    base.len() <= j < keys@.len() ==> context_ids(line_contexts@).contains(#[trigger] keys@[j]@),
                forall|m: int, l: int|
                    0 <= m < n && 0 <= l < line_contexts@[m].1@.len() ==> id_listed(
                        #[trigger] line_contexts@[m].1@[l],
                        keys@,
                    ),
            decreases line_contexts@.len() - n,
        {
            let lines = &line_contexts[n].1;
            let mut l: usize = 0;
            while l < lines.len()
                invariant
                    n < line_contexts@.len(),
                    *lines == line_contexts@[n as int].1,
                    l <= lines@.len(),
                    base.len() <= keys@.len(),
                    forall|j: int| 0 <= j < base.len() ==> #[trigger] keys@[j] == base[j],
                    forall|j: int|
                        base.len() <= j < keys@.len() ==> context_ids(line_contexts@).contains(#[trigger] keys@[j]@),
                    forall|m: int, q: int|
                        0 <= m < n && 0 <= q < line_contexts@[m].1@.len() ==> id_listed(
                            #[trigger] line_contexts@[m].1@[q],
                            keys@,
                        ),
                    forall|q: int| 0 <= q < l ==> id_listed(#[trigger] lines@[q], keys@),
                decreases lines@.len() - l,
            {
                let ghost prev = keys@;
                match &lines[l].line_id {
                    Some(id) => {
                        keys.push(id.clone());
                        proof {
                            assert(keys@[prev.len() as int]@ == id@);
                            assert(line_contexts@[n as int].1@[l as int] == lines@[l as int]);
                            assert(context_ids(line_contexts@).contains(id@));
                            assert forall|k: Seq<char>| string_set(prev).contains(k) implies #[trigger] string_set(
                                keys@,
                            ).contains(k) by {
                                let j = choose|j: int| 0 <= j < prev.len() && (#[trigger] prev[j])@ == k;
                                assert(keys@[j] == prev[j]);
                            }
                        }
                    },
                    None => {},
                }
                l = l + 1;
            }
            n = n + 1;
        }
        proof {
            assert forall|k: Seq<char>| #[trigger] string_set(keys@).contains(k) implies string_set(excluded_ids@).union(
                context_ids(line_contexts@),
            ).contains(k) by {
                let j = choose|j: int| 0 <= j < keys@.len() && (#[trigger] keys@[j])@ == k;
                if j < base.len() {
                    assert(keys@[j] == base[j]);
                    assert(string_set(base).contains(k));
                }
            }
            assert forall|k: Seq<char>| #[trigger] string_set(excluded_ids@).union(context_ids(line_contexts@)).contains(
                k,
            ) implies string_set(keys@).contains(k) by {
                if string_set(base).contains(k) {
                    let j = choose|j: int| 0 <= j < base.len() && (#[trigger] base[j])@ == k;
                    assert(keys@[j] == base[j]);
                } else {
                    let (m, q) = choose|m: int, q: int|
                        0 <= m < line_contexts@.len() && 0 <= q < line_contexts@[m].1@.len() && carries_id(
                            #[trigger] line_contexts@[m].1@[q],
                            k,
                        );
                    assert(id_listed(line_contexts@[m].1@[q], keys@));
                }
            }
            assert(string_set(keys@) =~= string_set(excluded_ids@).union(context_ids(line_contexts@)));
        }
        keys
}

impl RandomLineTagGenerator {
    /// A generator that knows no IDs yet.
    pub fn new() -> (r: Self)
        ensures
            r.known() == Set::<Seq<char>>::empty(),
    {
        let r = RandomLineTagGenerator { all_keys: Vec::new(), answered: Ghost(Seq::empty()) };
        assert(r.known() =~= Set::<Seq<char>>::empty());
        r
    }

    /// The IDs this generator will not hand out: those it was told of and those it generated.
    pub closed spec fn known(&self) -> Set<Seq<char>> {
        string_set(self.all_keys@)
    }

    /// Claims the ID that `value` stands for: where nobody has it yet it is recorded
    /// and returned, else `None` and nothing changes.
    pub fn claim_tag_for_value(&mut self, value: usize) -> (r: Option<String>)
        requires
            value < 0x1000000,
        ensures
            !old(self).known().contains(random_line_tag(value as nat)) ==> (r matches Some(tag) && tag@
                == random_line_tag(value as nat) && final(self).known() == old(self).known().insert(tag@)),
            old(self).known().contains(random_line_tag(value as nat)) ==> (r is None && final(self).known()
                == old(self).known()),
            final(self).answers() == old(self).answers(),
    {
        let tag = hex_line_tag(value);
        if contains_str(&self.all_keys, tag.as_str()) {
            None
        } else {
            let ghost before = self.all_keys@;
            self.all_keys.push(tag.clone());
            proof {
                assert(string_set(self.all_keys@) =~= string_set(before).insert(tag@)) by {
                    assert forall|k: Seq<char>| #[trigger] string_set(self.all_keys@).contains(k) implies string_set(
                        before,
                    ).insert(tag@).contains(k) by {
                        let i = choose|i: int| 0 <= i < self.all_keys@.len() && (#[trigger] self.all_keys@[i])@ == k;
                        if i < before.len() {
                            assert(before[i] == self.all_keys@[i]);
                        }
                    }
                    assert forall|k: Seq<char>| #[trigger] string_set(before).insert(tag@).contains(k) implies string_set(
                        self.all_keys@,
                    ).contains(k) by {
                        if k == tag@ {
                            assert(self.all_keys@[before.len() as int] == tag);
                        } else {
                            let i = choose|i: int| 0 <= i < before.len() && (#[trigger] before[i])@ == k;
                            assert(self.all_keys@[i] == before[i]);
                        }
                    }
                }
            }
            Some(tag)
        }
    }
}

impl RandomLineTagGenerator {
    fn make_tag(&mut self, node: &str, line_index: usize) -> (r: Result<String, LineTaggingError>)
        ensures
            r matches Ok(tag) ==> (exists|v: nat| v < 0x1000000 && #[trigger] random_line_tag(v) == tag@)
                && !old(self).known().contains(tag@) && final(self).known() == old(self).known().insert(tag@),
            r matches Err(e) ==> final(self).known() == old(self).known() && e.source_file_name is None
                && e.line_number is None && (e.message@ == no_unique_id_message() || e.message@
                == no_random_source_message()),
            final(self).answered == old(self).answered,
    {
        let mut rng = match seeded_small_rng() {
            Some(rng) => rng,
            None => {
                let m = String::from_str("Failed to seed the random number generator for line IDs");
                proof {
                    reveal_strlit("Failed to seed the random number generator for line IDs");
                }
                return Err(LineTaggingError::new(m));
            },
        };
        let mut attempt: usize = 0;
        while attempt < MAX_TAG_ATTEMPTS
            invariant
                self.known() == old(self).known(),
                self.answered == old(self).answered,
            decreases MAX_TAG_ATTEMPTS - attempt,
        {
            let value = random_below(&mut rng, 0x1000000);
            match self.claim_tag_for_value(value) {
                Some(tag) => {
                    return Ok(tag);
                },
                None => {},
            }
            attempt = attempt + 1;
        }
        let m = String::from_str("Failed to find a unique line ID within the maximum number of attempts");
        proof {
            reveal_strlit("Failed to find a unique line ID within the maximum number of attempts");
        }
        Err(LineTaggingError::new(m))
    }
}

impl LineTagGenerator for RandomLineTagGenerator {
    fn prepare_for_lines(&mut self, line_contexts: &Vec<(String, Vec<LineTagContext>)>, excluded_ids: &Vec<String>)
        ensures
            final(self).known() == string_set(excluded_ids@).union(context_ids(line_contexts@)),
    {
        self.all_keys = known_ids(line_contexts, excluded_ids);
    }

    closed spec fn answers(&self) -> Seq<(Seq<char>, usize, Result<Seq<char>, Seq<char>>)> {
        self.answered@
    }

    fn generate_line_tag(&mut self, node: &str, line_index: usize) -> (r: Result<String, LineTaggingError>)
        ensures
            r matches Ok(tag) ==> (exists|v: nat| v < 0x1000000 && #[trigger] random_line_tag(v) == tag@)
                && !old(self).known().contains(tag@) && final(self).known() == old(self).known().insert(tag@),
            r matches Err(e) ==> final(self).known() == old(self).known() && e.source_file_name is None
                && e.line_number is None && (e.message@ == no_unique_id_message() || e.message@
                == no_random_source_message()),
    {
        let ghost before = self.answered@;
        let r = self.make_tag(node, line_index);
        self.answered = Ghost(before.push((node@, line_index, answer_view(r))));
        r
    }
}

/// A line found in a node, that may need a tag.
#[derive(Debug, Clone)]
pub struct CollectedLineInfo {
    /// The zero-based line index in the source.
    pub line_index: usize,
    /// The index of the token after which a new tag is inserted.
    pub insertion_token_index: isize,
    /// The `line:` or `shadow:` ID the line already has, if any.
    pub line_id: Option<String>,
    /// The text of the line.
    pub line_text: String,
}

/// A tag to insert into the source: on which line, after which token, and the tag.
#[derive(Debug, Clone)]
pub struct LineRewrite {
    /// The zero-based line index in the source.
    pub line_index: usize,
    /// The index of the token after which the tag goes.
    pub insertion_token_index: isize,
    /// The new line ID.
    pub tag: String,
}

/// What a tagging run produced: the tags to insert, and the errors met.
#[derive(Debug)]
pub struct LineTaggingOutcome {
    /// The tags to insert, node by node, in the order of the lines.
    pub rewrites: Vec<LineRewrite>,
    /// The errors, in the order they occurred.
    pub errors: Vec<LineTaggingError>,
}

/// Whether the context describes the collected line of file `file`.
pub open spec fn context_of(ctx: LineTagContext, info: CollectedLineInfo, file: Seq<char>) -> bool {
    &&& ctx.line_number == info.line_index
    &&& ctx.source_file_name matches Some(f) && f@ == file
    &&& ctx.line_text@ == info.line_text@
    &&& match (ctx.line_id, info.line_id) {
        (Some(a), Some(b)) => a@ == b@,
        (None, None) => true,
        _ => false,
    }
}

/// Whether `contexts` describe the collected lines node by node, line by line.
pub open spec fn contexts_of(
    contexts: Seq<(String, Vec<LineTagContext>)>,
    lines: Seq<(String, Vec<CollectedLineInfo>)>,
    file: Seq<char>,
) -> bool {
    &&& contexts.len() == lines.len()
    &&& forall|n: int|
        0 <= n < lines.len() ==> (#[trigger] contexts[n]).0@ == lines[n].0@ && contexts[n].1@.len()
            == lines[n].1@.len() && forall|i: int|
            0 <= i < lines[n].1@.len() ==> context_of(#[trigger] contexts[n].1@[i], lines[n].1@[i], file)
}

/// The IDs the collected lines already carry.
pub open spec fn collected_ids(lines: Seq<(String, Vec<CollectedLineInfo>)>) -> Set<Seq<char>> {
    Set::new(
        |k: Seq<char>|
            exists|n: int, i: int|
                0 <= n < lines.len() && 0 <= i < lines[n].1@.len() && carried_id(#[trigger] lines[n].1@[i], k),
    )
}

/// Whether the collected line carries the ID `k`.
pub open spec fn carried_id(info: CollectedLineInfo, k: Seq<char>) -> bool {
    info.line_id matches Some(id) && id@ == k
}

proof fn lemma_context_ids(
    contexts: Seq<(String, Vec<LineTagContext>)>,
    lines: Seq<(String, Vec<CollectedLineInfo>)>,
    file: Seq<char>,
)
    requires
        contexts_of(contexts, lines, file),
    ensures
        context_ids(contexts) == collected_ids(lines),
{
    assert forall|k: Seq<char>| #[trigger] context_ids(contexts).contains(k) implies collected_ids(lines).contains(k) by {
        let (n, i) = choose|n: int, i: int|
            0 <= n < contexts.len() && 0 <= i < contexts[n].1@.len() && carries_id(#[trigger] contexts[n].1@[i], k);
        assert(context_of(contexts[n].1@[i], lines[n].1@[i], file));
        assert(carried_id(lines[n].1@[i], k));
    }
    assert forall|k: Seq<char>| #[trigger] collected_ids(lines).contains(k) implies context_ids(contexts).contains(k) by {
        let (n, i) = choose|n: int, i: int|
            0 <= n < lines.len() && 0 <= i < lines[n].1@.len() && carried_id(#[trigger] lines[n].1@[i], k);
        assert(context_of(contexts[n].1@[i], lines[n].1@[i], file));
        assert(carries_id(contexts[n].1@[i], k));
    }
    assert(context_ids(contexts) =~= collected_ids(lines));
}

/// A copy of an optional string.
pub fn copy_optional(s: &Option<String>) -> (r: Option<String>)
    ensures
        match (r, *s) {
            (Some(a), Some(b)) => a@ == b@,
            (None, None) => true,
            _ => false,
        },
{
    match s {
        Some(t) => Some(t.clone()),
        None => None,
    }
}

/// The contexts handed to a generator for the collected lines of file `source_file_name`.
pub fn tag_contexts(line_contexts: &Vec<(String, Vec<CollectedLineInfo>)>, source_file_name: &str) -> (r: Vec<
    (String, Vec<LineTagContext>),
>)
    ensures
        contexts_of(r@, line_contexts@, source_file_name@),
{
    let mut out: Vec<(String, Vec<LineTagContext>)> = Vec::new();
    let mut n: usize = 0;
    while n < line_contexts.len()
        invariant
            n <= line_contexts@.len(),
            out@.len() == n,
            forall|m: int|
                0 <= m < n ==> (#[trigger] out@[m]).0@ == line_contexts@[m].0@ && out@[m].1@.len()
                    == line_contexts@[m].1@.len() && forall|i: int|
                    0 <= i < line_contexts@[m].1@.len() ==> context_of(
                        #[trigger] out@[m].1@[i],
                        line_contexts@[m].1@[i],
                        source_file_name@,
                    ),
        decreases line_contexts@.len() - n,
    {
        let lines = &line_contexts[n].1;
        let mut ctxs: Vec<LineTagContext> = Vec::new();
        let mut i: usize = 0;
        while i < lines.len()
            invariant
                i <= lines@.len(),
                ctxs@.len() == i,
                forall|j: int| 0 <= j < i ==> context_of(#[trigger] ctxs@[j], lines@[j], source_file_name@),
            decreases lines@.len() - i,
        {
            let info = &lines[i];
            ctxs.push(
                LineTagContext {
                    line_number: info.line_index,
                    source_file_name: Some(String::from_str(source_file_name)),
                    line_text: info.line_text.clone(),
                    line_id: copy_optional(&info.line_id),
                },
            );
            i = i + 1;
        }
        out.push((line_contexts[n].0.clone(), ctxs));
        n = n + 1;
    }
    out
}

/// The message given when a generator returns an empty ID.
pub open spec fn empty_id_message() -> Seq<char> {
    "Line ID generator returned an empty line ID"@
}

/// The message given when a generated ID does not start with `line:`.
pub open spec fn missing_prefix_message(id: Seq<char>) -> Seq<char> {
    "Line IDs must start with 'line:' - generator returned '"@ + id + "'"@
}

/// The message given when a generated ID is taken already.
pub open spec fn duplicate_id_message(id: Seq<char>) -> Seq<char> {
    "Line ID generator returned a duplicate line tag '"@ + id + "'"@
}

/// Whether `e` is the error `message` at line `line` of `file`.
pub open spec fn error_at(e: LineTaggingError, message: Seq<char>, file: Seq<char>, line: usize) -> bool {
    &&& e.message@ == message
    &&& e.source_file_name matches Some(f) && f@ == file
    &&& e.line_number == Some(line)
}

/// Whether `r` is the error `message` at line `line` of `file`.
pub open spec fn fails_with(r: Result<String, LineTaggingError>, message: Seq<char>, file: Seq<char>, line: usize) -> bool {
    r matches Err(e) && error_at(e, message, file, line)
}

/// Whether `r` is the ID `id`.
pub open spec fn accepts(r: Result<String, LineTaggingError>, id: Seq<char>) -> bool {
    r matches Ok(t) && t@ == id
}

/// Whether `tag` may be given to a new line: not empty, starting with `line:`,
/// and not in `taken`.
pub open spec fn fresh_tag(tag: Seq<char>, taken: Set<Seq<char>>) -> bool {
    &&& tag.len() > 0
    &&& line_id_prefix().is_prefix_of(tag)
    &&& !taken.contains(tag)
}

/// Judges what a generator returned for the line at `line_index` of `source_file_name`:
/// an error passes through; an ID that is empty, lacks the `line:` prefix, or is in
/// `known` or `node_ids` becomes the matching error; any other ID is accepted.
pub fn check_generated_tag(
    generated: Result<String, LineTaggingError>,
    known: &Vec<String>,
    node_ids: &Vec<String>,
    source_file_name: &str,
    line_index: usize,
) -> (r: Result<String, LineTaggingError>)
    ensures
        generated is Err ==> r == generated,
        generated matches Ok(id) ==> {
            let taken = string_set(known@).union(string_set(node_ids@));
            &&& id@.len() == 0 ==> fails_with(r, empty_id_message(), source_file_name@, line_index)
            &&& id@.len() > 0 && !line_id_prefix().is_prefix_of(id@) ==> fails_with(
                r,
                missing_prefix_message(id@),
                source_file_name@,
                line_index,
            )
            &&& id@.len() > 0 && line_id_prefix().is_prefix_of(id@) && taken.contains(id@) ==> fails_with(
                r,
                duplicate_id_message(id@),
                source_file_name@,
                line_index,
            )
            &&& fresh_tag(id@, taken) ==> accepts(r, id@)
        },
{
    match generated {
        Err(e) => Err(e),
        Ok(id) => {
            let file = String::from_str(source_file_name);
            if id.as_str().unicode_len() == 0 {
                let m = String::from_str("Line ID generator returned an empty line ID");
                proof {
                    reveal_strlit("Line ID generator returned an empty line ID");
                }
                return Err(LineTaggingError::with_location(m, file, line_index));
            }
            let chars = crate::text::chars_of(id.as_str());
            let prefix = line_id_prefix_chars();
            if !crate::text::starts_with_chars(&chars, &prefix) {
                let mut m = String::from_str("Line IDs must start with 'line:' - generator returned '");
                push_str_chars(&mut m, id.as_str());
                push_char(&mut m, '\'');
                proof {
                    reveal_strlit("Line IDs must start with 'line:' - generator returned '");
                    reveal_strlit("'");
                    assert(m@ =~= missing_prefix_message(id@));
                }
                return Err(LineTaggingError::with_location(m, file, line_index));
            }
            if contains_str(known, id.as_str()) || contains_str(node_ids, id.as_str()) {
                let mut m = String::from_str("Line ID generator returned a duplicate line tag '");
                push_str_chars(&mut m, id.as_str());
                push_char(&mut m, '\'');
                proof {
                    reveal_strlit("Line ID generator returned a duplicate line tag '");
                    reveal_strlit("'");
                    assert(m@ =~= duplicate_id_message(id@));
                }
                return Err(LineTaggingError::with_location(m, file, line_index));
            }
            Ok(id)
        },
    }
}

/// Pushing a string adds its characters to the set of strings.
pub proof fn lemma_string_set_push(v: Seq<String>, x: String)
    ensures
        string_set(v.push(x)) == string_set(v).insert(x@),
{
    let w = v.push(x);
    assert forall|k: Seq<char>| #[trigger] string_set(w).contains(k) implies string_set(v).insert(x@).contains(k) by {
        let i = choose|i: int| 0 <= i < w.len() && (#[trigger] w[i])@ == k;
        if i < v.len() {
            assert(v[i] == w[i]);
        }
    }
    assert forall|k: Seq<char>| #[trigger] string_set(v).insert(x@).contains(k) implies string_set(w).contains(k) by {
        if k == x@ {
            assert(w[v.len() as int] == x);
        } else {
            let i = choose|i: int| 0 <= i < v.len() && (#[trigger] v[i])@ == k;
            assert(w[i] == v[i]);
        }
    }
    assert(string_set(w) =~= string_set(v).insert(x@));
}

/// Whether `rw` tags the collected line `info`, which had no ID.
pub open spec fn tags_line(info: CollectedLineInfo, rw: LineRewrite) -> bool {
    &&& info.line_id is None
    &&& info.line_index == rw.line_index
    &&& info.insertion_token_index == rw.insertion_token_index
}

/// Whether `rw` tags one of `lines` that had no ID.
pub open spec fn tags_untagged_line(rw: LineRewrite, lines: Seq<CollectedLineInfo>) -> bool {
    exists|i: int| 0 <= i < lines.len() && tags_line(#[trigger] lines[i], rw)
}

/// Whether `rw` tags a line, without an ID, of one of the nodes.
pub open spec fn tags_untagged_line_of(rw: LineRewrite, nodes: Seq<(String, Vec<CollectedLineInfo>)>) -> bool {
    exists|n: int| 0 <= n < nodes.len() && tags_untagged_line(rw, (#[trigger] nodes[n]).1@)
}

/// Whether no two rewrites carry the same tag.
pub open spec fn distinct_tags(rws: Seq<LineRewrite>) -> bool {
    forall|a: int, b: int| 0 <= a < b < rws.len() ==> (#[trigger] rws[a]).tag@ != (#[trigger] rws[b]).tag@
}

/// The lines among `lines` that have no ID, in order.
pub open spec fn untagged_lines(lines: Seq<CollectedLineInfo>) -> Seq<CollectedLineInfo>
    decreases lines.len(),
{
    if lines.len() == 0 {
        Seq::empty()
    } else {
        let rest = untagged_lines(lines.drop_last());
        if lines.last().line_id is None {
            rest.push(lines.last())
        } else {
            rest
        }
    }
}

/// The lines without an ID of all nodes, node by node, each node's in order.
pub open spec fn all_untagged_lines(nodes: Seq<(String, Vec<CollectedLineInfo>)>) -> Seq<CollectedLineInfo>
    decreases nodes.len(),
{
    if nodes.len() == 0 {
        Seq::empty()
    } else {
        all_untagged_lines(nodes.drop_last()) + untagged_lines(nodes.last().1@)
    }
}

/// Whether the rewrites tag `lines` one for one, in order.
pub open spec fn tags_in_order(lines: Seq<CollectedLineInfo>, rws: Seq<LineRewrite>) -> bool {
    &&& rws.len() == lines.len()
    &&& forall|k: int| 0 <= k < rws.len() ==> tags_line(#[trigger] lines[k], rws[k])
}

proof fn lemma_untagged_prefix(lines: Seq<CollectedLineInfo>, i: int)
    requires
        0 <= i <= lines.len(),
    ensures
        untagged_lines(lines.take(i)).len() <= untagged_lines(lines).len(),
    decreases lines.len() - i,
{
    if i < lines.len() {
        assert(lines.take(i + 1).drop_last() =~= lines.take(i));
        lemma_untagged_prefix(lines, i + 1);
    } else {
        assert(lines.take(i) =~= lines);
    }
}

proof fn lemma_all_untagged_prefix(nodes: Seq<(String, Vec<CollectedLineInfo>)>, n: int)
    requires
        0 <= n <= nodes.len(),
    ensures
        all_untagged_lines(nodes.take(n)).len() <= all_untagged_lines(nodes).len(),
    decreases nodes.len() - n,
{
    if n < nodes.len() {
        assert(nodes.take(n + 1).drop_last() =~= nodes.take(n));
        lemma_all_untagged_prefix(nodes, n + 1);
    } else {
        assert(nodes.take(n) =~= nodes);
    }
}

/// The requests a run makes for the lines of node `node`: the index of each line
/// without an ID, in order.
pub open spec fn line_requests(node: Seq<char>, lines: Seq<CollectedLineInfo>) -> Seq<(Seq<char>, usize)>
    decreases lines.len(),
{
    if lines.len() == 0 {
        Seq::empty()
    } else {
        let rest = line_requests(node, lines.drop_last());
        if lines.last().line_id is None {
            rest.push((node, (lines.len() - 1) as usize))
        } else {
            rest
        }
    }
}

/// The requests a run makes for every node, node by node.
pub open spec fn all_line_requests(nodes: Seq<(String, Vec<CollectedLineInfo>)>) -> Seq<(Seq<char>, usize)>
    decreases nodes.len(),
{
    if nodes.len() == 0 {
        Seq::empty()
    } else {
        all_line_requests(nodes.drop_last()) + line_requests(nodes.last().0@, nodes.last().1@)
    }
}

/// The requests that a generator's record of answers answers: node and line index.
pub open spec fn requests_of(answers: Seq<(Seq<char>, usize, Result<Seq<char>, Seq<char>>)>) -> Seq<(Seq<char>, usize)> {
    answers.map_values(|a: (Seq<char>, usize, Result<Seq<char>, Seq<char>>)| (a.0, a.1))
}

/// Whether `rw` carries the tag that `answers` give for a line of `lines` that it tags.
pub open spec fn answered_in_node(
    rw: LineRewrite,
    answers: Seq<(Seq<char>, usize, Result<Seq<char>, Seq<char>>)>,
    lines: Seq<CollectedLineInfo>,
) -> bool {
    exists|j: int|
        0 <= j < answers.len() && (#[trigger] answers[j]).2 == Ok::<Seq<char>, Seq<char>>(rw.tag@) && answers[j].1
            < lines.len() && tags_line(lines[answers[j].1 as int], rw)
}

/// Whether `rw` carries the tag that `answers` give for the line of a node that it tags.
pub open spec fn answered_in(
    rw: LineRewrite,
    answers: Seq<(Seq<char>, usize, Result<Seq<char>, Seq<char>>)>,
    nodes: Seq<(String, Vec<CollectedLineInfo>)>,
) -> bool {
    exists|n: int, j: int|
        0 <= n < nodes.len() && 0 <= j < answers.len() && (#[trigger] answers[j]).0 == (#[trigger] nodes[n]).0@
            && answers[j].2 == Ok::<Seq<char>, Seq<char>>(rw.tag@) && answers[j].1 < nodes[n].1@.len() && tags_line(
            nodes[n].1@[answers[j].1 as int],
            rw,
        )
}

proof fn lemma_answered_extend(
    rw: LineRewrite,
    a: Seq<(Seq<char>, usize, Result<Seq<char>, Seq<char>>)>,
    b: Seq<(Seq<char>, usize, Result<Seq<char>, Seq<char>>)>,
    nodes: Seq<(String, Vec<CollectedLineInfo>)>,
)
    requires
        answered_in(rw, a, nodes),
    ensures
        answered_in(rw, a + b, nodes),
{
    let (n, j) = choose|n: int, j: int|
        0 <= n < nodes.len() && 0 <= j < a.len() && (#[trigger] a[j]).0 == (#[trigger] nodes[n]).0@ && a[j].2
            == Ok::<Seq<char>, Seq<char>>(rw.tag@) && a[j].1 < nodes[n].1@.len() && tags_line(
            nodes[n].1@[a[j].1 as int],
            rw,
        );
    assert((a + b)[j] == a[j]);
}

proof fn lemma_answered_from_node(
    node_rw: LineRewrite,
    rw: LineRewrite,
    a: Seq<(Seq<char>, usize, Result<Seq<char>, Seq<char>>)>,
    node_new: Seq<(Seq<char>, usize, Result<Seq<char>, Seq<char>>)>,
    nodes: Seq<(String, Vec<CollectedLineInfo>)>,
    n: int,
)
    requires
        0 <= n < nodes.len(),
        answered_in_node(node_rw, node_new, nodes[n].1@),
        forall|j: int| 0 <= j < node_new.len() ==> (#[trigger] node_new[j]).0 == nodes[n].0@,
        rw.tag@ == node_rw.tag@,
        rw.line_index == node_rw.line_index,
        rw.insertion_token_index == node_rw.insertion_token_index,
    ensures
        answered_in(rw, a + node_new, nodes),
{
    let j = choose|j: int|
        0 <= j < node_new.len() && (#[trigger] node_new[j]).2 == Ok::<Seq<char>, Seq<char>>(node_rw.tag@)
            && node_new[j].1 < nodes[n].1@.len() && tags_line(nodes[n].1@[node_new[j].1 as int], node_rw);
    let w = a.len() + j;
    assert((a + node_new)[w] == node_new[j]);
    assert(tags_line(nodes[n].1@[node_new[j].1 as int], rw));
}

/// Whether an error with message `m` is how a run rejects the generator's answer
/// `a`: the answer's own error, or the error for a returned tag that is empty, lacks
/// the `line:` prefix, or is taken.
pub open spec fn rejects(a: Result<Seq<char>, Seq<char>>, m: Seq<char>) -> bool {
    match a {
        Err(x) => x == m,
        Ok(id) => m == empty_id_message() || m == missing_prefix_message(id) || m == duplicate_id_message(id),
    }
}

/// Whether an error with message `m` rejects some answer of `answers`.
pub open spec fn rejected_answer(answers: Seq<(Seq<char>, usize, Result<Seq<char>, Seq<char>>)>, m: Seq<char>) -> bool {
    exists|j: int| 0 <= j < answers.len() && rejects((#[trigger] answers[j]).2, m)
}

/// Whether every error among `errors` from `from` on rejects some answer of `answers`.
pub open spec fn errors_reject(
    errors: Seq<LineTaggingError>,
    from: int,
    answers: Seq<(Seq<char>, usize, Result<Seq<char>, Seq<char>>)>,
) -> bool {
    forall|e: int| from <= e < errors.len() ==> rejected_answer(answers, (#[trigger] errors[e]).message@)
}

/// Tags the untagged lines of one node. `None` where the node was abandoned, which
/// happens only on an error when the abort behaviour is not `CurrentLine`.
fn tag_node<G: LineTagGenerator>(
    generator: &mut G,
    node: &String,
    lines: &Vec<CollectedLineInfo>,
    known: &Vec<String>,
    source_file_name: &str,
    abort_behaviour: TagAbortBehaviour,
    errors: &mut Vec<LineTaggingError>,
) -> (r: Option<Vec<LineRewrite>>)
    ensures
        old(errors)@.len() <= final(errors)@.len(),
        r is None ==> abort_behaviour != TagAbortBehaviour::CurrentLine && old(errors)@.len() < final(errors)@.len(),
        r is Some && abort_behaviour != TagAbortBehaviour::CurrentLine ==> final(errors)@ == old(errors)@,
        r matches Some(rws) ==> distinct_tags(rws@) && forall|k: int|
            0 <= k < rws@.len() ==> fresh_tag((#[trigger] rws@[k]).tag@, string_set(known@)) && tags_untagged_line(
                rws@[k],
                lines@,
            ),
        r matches Some(rws) ==> rws@.len() + (final(errors)@.len() - old(errors)@.len()) == untagged_lines(
            lines@,
        ).len(),
        r matches Some(rws) ==> (final(errors)@.len() == old(errors)@.len() ==> tags_in_order(
            untagged_lines(lines@),
            rws@,
        )),
        r is None ==> final(errors)@.len() == old(errors)@.len() + 1 && untagged_lines(lines@).len() >= 1,
        final(generator).answers().len() >= old(generator).answers().len(),
        final(generator).answers().subrange(0, old(generator).answers().len() as int) == old(generator).answers(),
        forall|j: int|
            old(generator).answers().len() <= j < final(generator).answers().len() ==> (#[trigger] final(generator).answers()[j]).0 == node@,
        r is Some ==> requests_of(
            final(generator).answers().subrange(
                old(generator).answers().len() as int,
                final(generator).answers().len() as int,
            ),
        ) == line_requests(node@, lines@),
        r matches Some(rws) ==> forall|k: int|
            0 <= k < rws@.len() ==> answered_in_node(
                #[trigger] rws@[k],
                final(generator).answers().subrange(
                    old(generator).answers().len() as int,
                    final(generator).answers().len() as int,
                ),
                lines@,
            ),
        final(errors)@.subrange(0, old(errors)@.len() as int) == old(errors)@,
        errors_reject(
            final(errors)@,
            old(errors)@.len() as int,
            final(generator).answers().subrange(
                old(generator).answers().len() as int,
                final(generator).answers().len() as int,
            ),
        ),
{
    let ghost a0 = generator.answers();
    let mut rws: Vec<LineRewrite> = Vec::new();
    let mut node_ids: Vec<String> = Vec::new();
    let mut i: usize = 0;
    while i < lines.len()
        invariant
            i <= lines@.len(),
            rws@.len() == node_ids@.len(),
            forall|k: int| 0 <= k < rws@.len() ==> (#[trigger] rws@[k]).tag@ == node_ids@[k]@,
            distinct_tags(rws@),
            forall|k: int|
                0 <= k < rws@.len() ==> fresh_tag((#[trigger] rws@[k]).tag@, string_set(known@)) && tags_untagged_line(
                    rws@[k],
                    lines@,
                ),
            old(errors)@.len() <= errors@.len(),
            abort_behaviour != TagAbortBehaviour::CurrentLine ==> errors@ == old(errors)@,
            rws@.len() + (errors@.len() - old(errors)@.len()) == untagged_lines(lines@.take(i as int)).len(),
            errors@.len() == old(errors)@.len() ==> tags_in_order(untagged_lines(lines@.take(i as int)), rws@),
            a0 == old(generator).answers(),
            generator.answers().len() >= a0.len(),
            generator.answers().subrange(0, a0.len() as int) == a0,
            forall|j: int| a0.len() <= j < generator.answers().len() ==> (#[trigger] generator.answers()[j]).0 == node@,
            requests_of(generator.answers().subrange(a0.len() as int, generator.answers().len() as int))
                == line_requests(node@, lines@.take(i as int)),
            forall|k: int|
                0 <= k < rws@.len() ==> answered_in_node(
                    #[trigger] rws@[k],
                    generator.answers().subrange(a0.len() as int, generator.answers().len() as int),
                    lines@,
                ),
            errors@.subrange(0, old(errors)@.len() as int) == old(errors)@,
            errors_reject(
                errors@,
                old(errors)@.len() as int,
                generator.answers().subrange(a0.len() as int, generator.answers().len() as int),
            ),
        decreases lines@.len() - i,
    {
        proof {
            assert(lines@.take(i + 1).drop_last() =~= lines@.take(i as int));
            assert(lines@.take(i + 1).last() == lines@[i as int]);
            assert(lines@.take(i + 1).len() - 1 == i);
        }
        let ghost u0 = untagged_lines(lines@.take(i as int));
        let ghost before = generator.answers();
        let ghost new0 = before.subrange(a0.len() as int, before.len() as int);
        if lines[i].line_id.is_none() {
            let generated = generator.generate_line_tag(node.as_str(), i);
            proof {
                let after = generator.answers();
                let new1 = after.subrange(a0.len() as int, after.len() as int);
                assert(new1 =~= new0.push((node@, i, answer_view(generated))));
                assert(after.subrange(0, a0.len() as int) =~= before.subrange(0, a0.len() as int));
                assert(requests_of(new1) =~= requests_of(new0).push((node@, i)));
                assert forall|k: int| 0 <= k < rws@.len() implies answered_in_node(#[trigger] rws@[k], new1, lines@) by {
                    let j = choose|j: int|
                        0 <= j < new0.len() && (#[trigger] new0[j]).2 == Ok::<Seq<char>, Seq<char>>(rws@[k].tag@)
                            && new0[j].1 < lines@.len() && tags_line(lines@[new0[j].1 as int], rws@[k]);
                    assert(new1[j] == new0[j]);
                }
                assert forall|j: int| a0.len() <= j < after.len() implies (#[trigger] after[j]).0 == node@ by {
                    if j < before.len() {
                        assert(after[j] == before[j]);
                    }
                }
                assert forall|e: int| old(errors)@.len() <= e < errors@.len() implies rejected_answer(
                    new1,
                    (#[trigger] errors@[e]).message@,
                ) by {
                    assert(rejected_answer(new0, errors@[e].message@));
                    let j = choose|j: int| 0 <= j < new0.len() && rejects((#[trigger] new0[j]).2, errors@[e].message@);
                    assert(new1[j] == new0[j]);
                }
            }
            match check_generated_tag(generated, known, &node_ids, source_file_name, lines[i].line_index) {
                Ok(tag) => {
                    let ghost g = generated;
                    proof {
                        assert(g matches Ok(id) && fresh_tag(id@, string_set(known@).union(string_set(node_ids@)))
                            && tag@ == id@);
                        lemma_string_set_push(node_ids@, tag);
                    }
                    let rw = LineRewrite {
                        line_index: lines[i].line_index,
                        insertion_token_index: lines[i].insertion_token_index,
                        tag: tag.clone(),
                    };
                    proof {
                        assert(tags_line(lines@[i as int], rw));
                        assert forall|k: int| 0 <= k < rws@.len() implies (#[trigger] rws@[k]).tag@ != rw.tag@ by {
                            assert(string_set(node_ids@).contains(node_ids@[k]@));
                        }
                        let new1 = generator.answers().subrange(a0.len() as int, generator.answers().len() as int);
                        let w = new0.len() as int;
                        assert(new1[w] == (node@, i, answer_view(g)));
                        assert(answered_in_node(rw, new1, lines@));
                    }
                    node_ids.push(tag);
                    rws.push(rw);
                },
                Err(e) => {
                    let ghost eb = errors@;
                    proof {
                        let new1 = generator.answers().subrange(a0.len() as int, generator.answers().len() as int);
                        let w = new0.len() as int;
                        assert(new1[w] == (node@, i, answer_view(generated)));
                        assert(rejects(new1[w].2, e.message@));
                    }
                    errors.push(e);
                    proof {
                        let new1 = generator.answers().subrange(a0.len() as int, generator.answers().len() as int);
                        assert(errors@.subrange(0, old(errors)@.len() as int) =~= eb.subrange(0, old(errors)@.len() as int));
                        assert forall|x: int| old(errors)@.len() <= x < errors@.len() implies rejected_answer(
                            new1,
                            (#[trigger] errors@[x]).message@,
                        ) by {
                            if x < eb.len() {
                                assert(errors@[x] == eb[x]);
                            } else {
                                assert(rejects(new1[new0.len() as int].2, errors@[x].message@));
                            }
                        }
                    }
                    if abort_behaviour != TagAbortBehaviour::CurrentLine {
                        proof {
                            lemma_untagged_prefix(lines@, i + 1);
                        }
                        return None;
                    }
                },
            }
        }
        i = i + 1;
    }
    assert(lines@.take(lines@.len() as int) =~= lines@);
    Some(rws)
}

/// Runs `generator` over the collected lines of every node: each line without an
/// ID is handed to it, and what it returns is checked (see [`check_generated_tag`]).
/// On an error, `abort_behaviour` decides whether the line, its node, or the whole
/// run is given up.
pub fn run_line_tagger<G: LineTagGenerator>(
    line_contexts: &Vec<(String, Vec<CollectedLineInfo>)>,
    source_file_name: &str,
    generator: &mut G,
    excluded_ids: &Vec<String>,
    abort_behaviour: TagAbortBehaviour,
) -> (r: LineTaggingOutcome)
    ensures
        distinct_tags(r.rewrites@),
        forall|k: int|
            0 <= k < r.rewrites@.len() ==> fresh_tag(
                (#[trigger] r.rewrites@[k]).tag@,
                string_set(excluded_ids@).union(collected_ids(line_contexts@)),
            ) && tags_untagged_line_of(r.rewrites@[k], line_contexts@),
        abort_behaviour == TagAbortBehaviour::EntireTagging && r.errors@.len() > 0 ==> r.rewrites@.len() == 0
            && r.errors@.len() == 1,
        r.errors@.len() == 0 ==> tags_in_order(all_untagged_lines(line_contexts@), r.rewrites@),
        abort_behaviour == TagAbortBehaviour::CurrentLine ==> r.rewrites@.len() + r.errors@.len()
            == all_untagged_lines(line_contexts@).len(),
        r.rewrites@.len() + r.errors@.len() <= all_untagged_lines(line_contexts@).len(),
        final(generator).answers().len() >= old(generator).answers().len(),
        final(generator).answers().subrange(0, old(generator).answers().len() as int) == old(generator).answers(),
        r.errors@.len() == 0 || abort_behaviour == TagAbortBehaviour::CurrentLine ==> requests_of(
            final(generator).answers().subrange(
                old(generator).answers().len() as int,
                final(generator).answers().len() as int,
            ),
        ) == all_line_requests(line_contexts@),
        forall|k: int|
            0 <= k < r.rewrites@.len() ==> answered_in(
                #[trigger] r.rewrites@[k],
                final(generator).answers().subrange(
                    old(generator).answers().len() as int,
                    final(generator).answers().len() as int,
                ),
                line_contexts@,
            ),
        errors_reject(
            r.errors@,
            0,
            final(generator).answers().subrange(
                old(generator).answers().len() as int,
                final(generator).answers().len() as int,
            ),
        ),
{
    let contexts = tag_contexts(line_contexts, source_file_name);
    generator.prepare_for_lines(&contexts, excluded_ids);
    let ghost a0 = generator.answers();
    assert(generator.answers().subrange(0, a0.len() as int) =~= a0);
    assert(requests_of(generator.answers().subrange(a0.len() as int, a0.len() as int)) =~= all_line_requests(
        line_contexts@.take(0),
    ));
    let mut all_known = known_ids(&contexts, excluded_ids);
    proof {
        lemma_context_ids(contexts@, line_contexts@, source_file_name@);
    }
    let ghost known0 = string_set(all_known@);
    let mut rewrites: Vec<LineRewrite> = Vec::new();
    let mut errors: Vec<LineTaggingError> = Vec::new();
    let mut n: usize = 0;
    while n < line_contexts.len()
        invariant
            n <= line_contexts@.len(),
            known0 == string_set(excluded_ids@).union(collected_ids(line_contexts@)),
            forall|x: Seq<char>| known0.contains(x) ==> #[trigger] string_set(all_known@).contains(x),
            forall|k: int| 0 <= k < rewrites@.len() ==> string_set(all_known@).contains((#[trigger] rewrites@[k]).tag@),
            distinct_tags(rewrites@),
            forall|k: int|
                0 <= k < rewrites@.len() ==> fresh_tag((#[trigger] rewrites@[k]).tag@, known0) && tags_untagged_line_of(
                    rewrites@[k],
                    line_contexts@,
                ),
            abort_behaviour == TagAbortBehaviour::EntireTagging ==> errors@.len() == 0,
            rewrites@.len() + errors@.len() <= all_untagged_lines(line_contexts@.take(n as int)).len(),
            abort_behaviour == TagAbortBehaviour::CurrentLine ==> rewrites@.len() + errors@.len()
                == all_untagged_lines(line_contexts@.take(n as int)).len(),
            errors@.len() == 0 ==> tags_in_order(all_untagged_lines(line_contexts@.take(n as int)), rewrites@),
            a0 == old(generator).answers(),
            generator.answers().len() >= a0.len(),
            generator.answers().subrange(0, a0.len() as int) == a0,
            errors@.len() == 0 || abort_behaviour == TagAbortBehaviour::CurrentLine ==> requests_of(
                generator.answers().subrange(a0.len() as int, generator.answers().len() as int),
            ) == all_line_requests(line_contexts@.take(n as int)),
            forall|k: int|
                0 <= k < rewrites@.len() ==> answered_in(
                    #[trigger] rewrites@[k],
                    generator.answers().subrange(a0.len() as int, generator.answers().len() as int),
                    line_contexts@,
                ),
            errors_reject(errors@, 0, generator.answers().subrange(a0.len() as int, generator.answers().len() as int)),
        decreases line_contexts@.len() - n,
    {
        let ghost errors0 = errors@;
        let ghost ans0 = generator.answers();
        let ghost new0 = ans0.subrange(a0.len() as int, ans0.len() as int);
        proof {
            assert(line_contexts@.take(n + 1).drop_last() =~= line_contexts@.take(n as int));
            assert(line_contexts@.take(n + 1).last() == line_contexts@[n as int]);
            assert(all_line_requests(line_contexts@.take(n + 1)) == all_line_requests(line_contexts@.take(n as int))
                + line_requests(line_contexts@[n as int].0@, line_contexts@[n as int].1@));
        }
        let ghost done = all_untagged_lines(line_contexts@.take(n as int));
        let ghost here = untagged_lines(line_contexts@[n as int].1@);
        proof {
            assert(line_contexts@.take(n + 1).drop_last() =~= line_contexts@.take(n as int));
            assert(line_contexts@.take(n + 1).last() == line_contexts@[n as int]);
            assert(all_untagged_lines(line_contexts@.take(n + 1)) == done + here);
        }
        let ghost e_before = errors@.len();
        let node_result = tag_node(
            generator,
            &line_contexts[n].0,
            &line_contexts[n].1,
            &all_known,
            source_file_name,
            abort_behaviour,
            &mut errors,
        );
        let ghost ans1 = generator.answers();
        let ghost node_new = ans1.subrange(ans0.len() as int, ans1.len() as int);
        let ghost new1 = ans1.subrange(a0.len() as int, ans1.len() as int);
        proof {
            assert(new1 =~= new0 + node_new);
            assert(ans1.subrange(0, a0.len() as int) =~= ans0.subrange(0, a0.len() as int));
            assert(requests_of(new1) =~= requests_of(new0) + requests_of(node_new));
            assert forall|j: int| 0 <= j < node_new.len() implies (#[trigger] node_new[j]).0 == line_contexts@[n as int].0@ by {
                assert(node_new[j] == ans1[ans0.len() + j]);
            }
            assert forall|k: int| 0 <= k < rewrites@.len() implies answered_in(#[trigger] rewrites@[k], new1, line_contexts@) by {
                lemma_answered_extend(rewrites@[k], new0, node_new, line_contexts@);
            }
            assert forall|x: int| 0 <= x < errors@.len() implies rejected_answer(new1, (#[trigger] errors@[x]).message@) by {
                if x < errors0.len() {
                    assert(errors@[x] == errors@.subrange(0, errors0.len() as int)[x]);
                    assert(errors@[x] == errors0[x]);
                    assert(rejected_answer(new0, errors0[x].message@));
                    let j = choose|j: int| 0 <= j < new0.len() && rejects((#[trigger] new0[j]).2, errors0[x].message@);
                    assert(new1[j] == new0[j]);
                } else {
                    assert(rejected_answer(node_new, errors@[x].message@));
                    let j = choose|j: int| 0 <= j < node_new.len() && rejects((#[trigger] node_new[j]).2, errors@[x].message@);
                    assert(new1[new0.len() + j] == node_new[j]);
                }
            }
            assert(errors_reject(errors@, 0, new1));
        }
        match node_result {
            Some(rws) => {
                let ghost start = all_known@;
                let ghost r0 = rewrites@;
                let ghost e_len = errors@.len();
                let mut j: usize = 0;
                while j < rws.len()
                    invariant
                        n < line_contexts@.len(),
                        j <= rws@.len(),
                        errors@.len() == e_len,
                        e_before <= e_len,
                        rws@.len() + (e_len - e_before) == here.len(),
                        e_len == e_before ==> tags_in_order(here, rws@),
                        r0.len() + e_before <= done.len(),
                        abort_behaviour == TagAbortBehaviour::CurrentLine ==> r0.len() + e_before == done.len(),
                        e_before == 0 ==> tags_in_order(done, r0),
                        abort_behaviour == TagAbortBehaviour::EntireTagging ==> e_len == 0,
                        rewrites@.len() == r0.len() + j,
                        forall|q: int| 0 <= q < r0.len() ==> #[trigger] rewrites@[q] == r0[q],
                        forall|q: int|
                            0 <= q < j ==> (#[trigger] rewrites@[r0.len() + q]).line_index == rws@[q].line_index
                                && rewrites@[r0.len() + q].insertion_token_index == rws@[q].insertion_token_index,
                        generator.answers() == ans1,
                        forall|q: int|
                            0 <= q < rws@.len() ==> answered_in_node(
                                #[trigger] rws@[q],
                                node_new,
                                line_contexts@[n as int].1@,
                            ),
                        forall|q: int| 0 <= q < node_new.len() ==> (#[trigger] node_new[q]).0 == line_contexts@[n as int].0@,
                        new1 == new0 + node_new,
                        forall|k: int|
                            0 <= k < rewrites@.len() ==> answered_in(#[trigger] rewrites@[k], new1, line_contexts@),
                        distinct_tags(rws@),
                        forall|k: int|
                            0 <= k < rws@.len() ==> fresh_tag((#[trigger] rws@[k]).tag@, string_set(start))
                                && tags_untagged_line(rws@[k], line_contexts@[n as int].1@),
                        all_known@.len() == start.len() + j,
                        forall|q: int| 0 <= q < start.len() ==> #[trigger] all_known@[q] == start[q],
                        forall|q: int| 0 <= q < j ==> (#[trigger] all_known@[start.len() + q])@ == rws@[q].tag@,
                        known0 == string_set(excluded_ids@).union(collected_ids(line_contexts@)),
                        forall|x: Seq<char>| known0.contains(x) ==> #[trigger] string_set(start).contains(x),
                        forall|x: Seq<char>| string_set(start).contains(x) ==> #[trigger] string_set(all_known@).contains(x),
                        forall|k: int|
                            0 <= k < rewrites@.len() ==> string_set(all_known@).contains((#[trigger] rewrites@[k]).tag@),
                        distinct_tags(rewrites@),
                        forall|k: int|
                            0 <= k < rewrites@.len() ==> fresh_tag((#[trigger] rewrites@[k]).tag@, known0)
                                && tags_untagged_line_of(rewrites@[k], line_contexts@),
                    decreases rws@.len() - j,
                {
                    let ghost tag = rws@[j as int].tag@;
                    proof {
                        assert(!string_set(all_known@).contains(tag)) by {
                            if string_set(all_known@).contains(tag) {
                                let q = choose|q: int| 0 <= q < all_known@.len() && (#[trigger] all_known@[q])@ == tag;
                                if q < start.len() {
                                    assert(string_set(start).contains(start[q]@));
                                } else {
                                    let p = q - start.len();
                                    assert(all_known@[start.len() + p]@ == rws@[p].tag@);
                                }
                            }
                        }
                        assert(tags_untagged_line_of(rws@[j as int], line_contexts@));
                    }
                    let rw = LineRewrite {
                        line_index: rws[j].line_index,
                        insertion_token_index: rws[j].insertion_token_index,
                        tag: rws[j].tag.clone(),
                    };
                    proof {
                        lemma_answered_from_node(rws@[j as int], rw, new0, node_new, line_contexts@, n as int);
                        lemma_string_set_push(all_known@, rw.tag);
                        assert forall|k: int| 0 <= k < rewrites@.len() implies (#[trigger] rewrites@[k]).tag@ != rw.tag@ by {
                        }
                    }
                    all_known.push(rws[j].tag.clone());
                    rewrites.push(rw);
                    j = j + 1;
                }
                proof {
                    if errors@.len() == 0 {
                        assert forall|k: int| 0 <= k < rewrites@.len() implies tags_line(
                            #[trigger] (done + here)[k],
                            rewrites@[k],
                        ) by {
                            if k < r0.len() {
                                assert(tags_line(done[k], r0[k]));
                            } else {
                                let q = k - r0.len();
                                assert(tags_line(here[q], rws@[q]));
                                assert(rewrites@[r0.len() + q].line_index == rws@[q].line_index);
                            }
                        }
                    }
                }
            },
            None => {
                if abort_behaviour == TagAbortBehaviour::EntireTagging {
                    proof {
                        lemma_all_untagged_prefix(line_contexts@, n + 1);
                    }
                    let empty: Vec<LineRewrite> = Vec::new();
                    return LineTaggingOutcome { rewrites: empty, errors };
                }
            },
        }
        n = n + 1;
    }
    assert(line_contexts@.take(line_contexts@.len() as int) =~= line_contexts@);
    LineTaggingOutcome { rewrites, errors }
}

/// A random tag, once claimed, is never handed out again: claiming adds it to the
/// known IDs, and a claim of a known ID gives nothing.
pub proof fn law_claimed_tag_is_known(known: Set<Seq<char>>, value: nat)
    requires
        !known.contains(random_line_tag(value)),
    ensures
        known.insert(random_line_tag(value)).contains(random_line_tag(value)),
{
}

/// Different random values stand for different tags.
pub proof fn law_random_tags_distinct(a: nat, b: nat)
    requires
        a < 0x1000000,
        b < 0x1000000,
        a != b,
    ensures
        random_line_tag(a) != random_line_tag(b),
{
    assert(pow16(7) == 0x1000_0000) by {
        reveal_with_fuel(pow16, 8);
    }
    if random_line_tag(a) == random_line_tag(b) {
        assert(hex_digits(a, 7) =~= random_line_tag(a).subrange(5, random_line_tag(a).len() as int));
        assert(hex_digits(b, 7) =~= random_line_tag(b).subrange(5, random_line_tag(b).len() as int));
        lemma_hex_digits_injective(a, b, 7);
    }
}

/// `16` to the power `n`.
pub open spec fn pow16(n: nat) -> nat
    decreases n,
{
    if n == 0 {
        1
    } else {
        16 * pow16((n - 1) as nat)
    }
}

proof fn lemma_hex_digit_injective(x: nat, y: nat)
    requires
        x < 16,
        y < 16,
        hex_digit(x) == hex_digit(y),
    ensures
        x == y,
{
}

proof fn lemma_hex_digits_injective(a: nat, b: nat, n: nat)
    requires
        a < pow16(n),
        b < pow16(n),
        hex_digits(a, n) == hex_digits(b, n),
    ensures
        a == b,
    decreases n,
{
    if n > 0 {
        let p = pow16((n - 1) as nat);
        assert(hex_digits(a, n).last() == hex_digit(a % 16));
        assert(hex_digits(b, n).last() == hex_digit(b % 16));
        lemma_hex_digit_injective(a % 16, b % 16);
        assert(hex_digits(a, n).drop_last() =~= hex_digits(a / 16, (n - 1) as nat));
        assert(hex_digits(b, n).drop_last() =~= hex_digits(b / 16, (n - 1) as nat));
        assert(a / 16 < p && b / 16 < p) by (nonlinear_arith)
            requires
                a < 16 * p,
                b < 16 * p,
        ;
        lemma_hex_digits_injective(a / 16, b / 16, (n - 1) as nat);
        assert(a == 16 * (a / 16) + a % 16) by (nonlinear_arith);
        assert(b == 16 * (b / 16) + b % 16) by (nonlinear_arith);
    }
}

} // verus!
