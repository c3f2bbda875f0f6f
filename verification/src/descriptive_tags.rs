//! A line tag generator that makes IDs the way a person tagging lines by hand
//! would: the node's name, a number that keeps the lines in order, and the speaker.
use vstd::prelude::*;

use crate::line_tags::{
    answer_view,
    contains_str, copy_optional, line_id_prefix, line_id_prefix_chars, push_str_chars, string_set, LineTagContext, LineTagGenerator,
    LineTaggingError,
};
use crate::text::{
    alphanumeric, chars_of, decimal, decimal_chars, decimal_string, find, find_chars, is_alphanumeric, push_char,
    string_from_chars, trim, trim_chars,
};

verus! {

/// Whether `name` may be a speaker's name: not empty, and without spaces.
pub open spec fn plain_name(name: Seq<char>) -> bool {
    name.len() > 0 && !name.contains(' ')
}

/// Whether every character of `name` is alphanumeric or `_`.
pub open spec fn word_name(name: Seq<char>) -> bool {
    forall|i: int| 0 <= i < name.len() ==> alphanumeric(#[trigger] name[i]) || name[i] == '_'
}

/// The speaker named before the first `\:` of `text`, where that is a plain name.
pub open spec fn escaped_speaker(text: Seq<char>) -> Option<Seq<char>> {
    match find(text, seq!['\\', ':']) {
        Some(p) => if plain_name(trim(text.take(p))) {
            Some(trim(text.take(p)))
        } else {
            None
        },
        None => None,
    }
}

/// The speaker of a line of text: the plain name before its first `\:`, else the
/// plain name of letters, digits and `_` before its first `: `.
pub open spec fn character_name(text: Seq<char>) -> Option<Seq<char>> {
    match escaped_speaker(text) {
        Some(n) => Some(n),
        None => match find(text, seq![':', ' ']) {
            Some(p) => if plain_name(trim(text.take(p))) && word_name(trim(text.take(p))) {
                Some(trim(text.take(p)))
            } else {
                None
            },
            None => None,
        },
    }
}

fn has_space(v: &Vec<char>) -> (r: bool)
    ensures
        r == v@.contains(' '),
{
    let mut i: usize = 0;
    while i < v.len()
        invariant
            i <= v@.len(),
            forall|j: int| 0 <= j < i ==> v@[j] != ' ',
        decreases v@.len() - i,
    {
        if v[i] == ' ' {
            assert(v@[i as int] == ' ');
            return true;
        }
        i = i + 1;
    }
    false
}

fn is_word_name(v: &Vec<char>) -> (r: bool)
    ensures
        r == word_name(v@),
{
    let mut i: usize = 0;
    while i < v.len()
        invariant
            i <= v@.len(),
            forall|j: int| 0 <= j < i ==> alphanumeric(#[trigger] v@[j]) || v@[j] == '_',
        decreases v@.len() - i,
    {
        if !(is_alphanumeric(v[i]) || v[i] == '_') {
            return false;
        }
        i = i + 1;
    }
    true
}

/// The speaker after the escaped colon, if any.
fn escaped_speaker_of(text: &Vec<char>) -> (r: Option<Vec<char>>)
    ensures
        match (r, escaped_speaker(text@)) {
            (Some(a), Some(b)) => a@ == b,
            (None, None) => true,
            _ => false,
        },
{
    let mut escaped: Vec<char> = Vec::new();
    escaped.push('\\');
    escaped.push(':');
    assert(escaped@ =~= seq!['\\', ':']);
    match find_chars(text, &escaped) {
        Some(p) => {
            let head = crate::text::slice_chars(text, 0, p);
            assert(head@ =~= text@.take(p as int));
            let name = trim_chars(&head);
            if name.len() > 0 && !has_space(&name) {
                Some(name)
            } else {
                None
            }
        },
        None => None,
    }
}

/// The speaker before `: `, if it is a plain word.
fn colon_speaker_of(text: &Vec<char>) -> (r: Option<Vec<char>>)
    ensures
        match (r, find(text@, seq![':', ' '])) {
            (Some(a), Some(p)) => a@ == trim(text@.take(p)) && plain_name(a@) && word_name(a@),
            (None, Some(p)) => !(plain_name(trim(text@.take(p))) && word_name(trim(text@.take(p)))),
            (None, None) => true,
            _ => false,
        },
{
    let mut colon: Vec<char> = Vec::new();
    colon.push(':');
    colon.push(' ');
    assert(colon@ =~= seq![':', ' ']);
    match find_chars(text, &colon) {
        Some(p) => {
            let head = crate::text::slice_chars(text, 0, p);
            assert(head@ =~= text@.take(p as int));
            let name = trim_chars(&head);
            if name.len() > 0 && !has_space(&name) && is_word_name(&name) {
                Some(name)
            } else {
                None
            }
        },
        None => None,
    }
}

/// The speaker of a line of text (see [`character_name`]).
pub fn extract_character_name(line_text: &str) -> (r: Option<String>)
    ensures
        match (r, character_name(line_text@)) {
            (Some(a), Some(b)) => a@ == b,
            (None, None) => true,
            _ => false,
        },
{
    let text = chars_of(line_text);
    match escaped_speaker_of(&text) {
        Some(name) => Some(string_from_chars(&name)),
        None => match colon_speaker_of(&text) {
            Some(name) => Some(string_from_chars(&name)),
            None => None,
        },
    }
}

/// The value of a string of decimal digits.
pub open spec fn digits_value(s: Seq<char>) -> nat
    decreases s.len(),
{
    if s.len() == 0 {
        0
    } else {
        digits_value(s.drop_last()) * 10 + ((s.last() as u32) - ('0' as u32)) as nat
    }
}

/// Whether `s` is a non-empty string of the digits `0` to `9`.
pub open spec fn all_digits(s: Seq<char>) -> bool {
    s.len() > 0 && forall|i: int| 0 <= i < s.len() ==> '0' <= #[trigger] s[i] <= '9'
}

/// Whether `s` is `g` followed by one or more digits.
pub open spec fn generation_piece(s: Seq<char>) -> bool {
    s.len() > 1 && s[0] == 'g' && all_digits(s.drop_first())
}

/// The pattern of a piece of an ID that is a number.
pub open spec fn number_pattern() -> Seq<char> {
    "^[0-9]+$"@
}

/// The pattern of a piece of an ID that is a generation.
pub open spec fn generation_pattern() -> Seq<char> {
    "^g[0-9]+$"@
}

/// Trusted: `regex::Regex::new(pattern)` and then `Regex::is_match(text)`; `None`
/// where the pattern does not compile. Of the two anchored patterns this library
/// uses, the crate's syntax documentation gives the meaning: `^[0-9]+$` matches
/// exactly the non-empty strings of ASCII digits, and `^g[0-9]+$` exactly `g`
/// followed by such a string. Of any other pattern nothing is claimed.
#[verifier::external_body]
fn regex_matches(pattern: &str, text: &str) -> (r: Option<bool>)
    ensures
        pattern@ == number_pattern() ==> r == Some(all_digits(text@)),
        pattern@ == generation_pattern() ==> r == Some(generation_piece(text@)),
{
    match regex::Regex::new(pattern) {
        Ok(re) => Some(re.is_match(text)),
        Err(_) => None,
    }
}

/// The value of the digits of `s` from `from` on, where it fits in an `i32`;
/// `None` where it does not (as `str::parse::<i32>` gives an error).
pub fn parse_digits(s: &Vec<char>, from: usize) -> (r: Option<i32>)
    requires
        from <= s@.len(),
        all_digits(s@.subrange(from as int, s@.len() as int)),
    ensures
        digits_value(s@.subrange(from as int, s@.len() as int)) <= i32::MAX ==> r == Some(
            digits_value(s@.subrange(from as int, s@.len() as int)) as i32,
        ),
        digits_value(s@.subrange(from as int, s@.len() as int)) > i32::MAX ==> r is None,
{
    let mut value: i32 = 0;
    let mut i: usize = from;
    while i < s.len()
        invariant
            from <= i <= s@.len(),
            all_digits(s@.subrange(from as int, s@.len() as int)),
            value == digits_value(s@.subrange(from as int, i as int)),
        decreases s@.len() - i,
    {
        assert(s@.subrange(from as int, i + 1).drop_last() =~= s@.subrange(from as int, i as int));
        assert(s@.subrange(from as int, s@.len() as int)[i - from] == s@[i as int]);
        let d = (s[i] as u32) - ('0' as u32);
        if value > (i32::MAX - 9) / 10 && (value > i32::MAX / 10 || d as i32 > i32::MAX - value * 10) {
            proof {
                lemma_digits_value_grows(s@, from as int, i + 1);
            }
            return None;
        }
        value = value * 10 + d as i32;
        i = i + 1;
    }
    Some(value)
}

proof fn lemma_digits_value_grows(s: Seq<char>, from: int, k: int)
    requires
        0 <= from <= k <= s.len(),
        all_digits(s.subrange(from, s.len() as int)),
    ensures
        digits_value(s.subrange(from, k)) <= digits_value(s.subrange(from, s.len() as int)),
    decreases s.len() - k,
{
    if k < s.len() {
        lemma_digits_value_grows(s, from, k + 1);
        assert(s.subrange(from, k + 1).drop_last() =~= s.subrange(from, k));
        assert(s.subrange(from, s.len() as int)[k - from] == s[k]);
    }
}

/// `n` in decimal, padded with zeros on the left to at least `width` digits.
pub open spec fn padded_decimal(n: nat, width: nat) -> Seq<char> {
    Seq::new((if decimal(n).len() < width { width - decimal(n).len() } else { 0 }) as nat, |i: int| '0') + decimal(n)
}

fn padded_chars(n: u64, width: usize) -> (r: Vec<char>)
    ensures
        r@ == padded_decimal(n as nat, width as nat),
{
    let digits = decimal_chars(n);
    let mut out: Vec<char> = Vec::new();
    let pad: usize = if digits.len() < width { width - digits.len() } else { 0 };
    let mut i: usize = 0;
    while i < pad
        invariant
            i <= pad,
            out@ == Seq::new(i as nat, |k: int| '0'),
        decreases pad - i,
    {
        out.push('0');
        assert(out@ =~= Seq::new((i + 1) as nat, |k: int| '0'));
        i = i + 1;
    }
    let mut j: usize = 0;
    while j < digits.len()
        invariant
            j <= digits@.len(),
            out@ == Seq::new(pad as nat, |k: int| '0') + digits@.subrange(0, j as int),
        decreases digits@.len() - j,
    {
        out.push(digits[j]);
        assert(digits@.subrange(0, j + 1) =~= digits@.subrange(0, j as int).push(digits@[j as int]));
        assert(out@ =~= Seq::new(pad as nat, |k: int| '0') + digits@.subrange(0, j + 1));
        j = j + 1;
    }
    assert(digits@.subrange(0, digits@.len() as int) =~= digits@);
    out
}

/// The first index from `from` on whose number is not -1, or -1.
pub open spec fn next_tagged(numbers: Seq<i32>, from: int) -> int
    decreases numbers.len() - from,
{
    if from < 0 || from >= numbers.len() {
        -1
    } else if numbers[from] != -1 {
        from
    } else {
        next_tagged(numbers, from + 1)
    }
}

/// The last index before `before` whose number is not -1, or -1.
pub open spec fn prev_tagged(numbers: Seq<i32>, before: int) -> int
    decreases before,
{
    if before <= 0 || before > numbers.len() {
        -1
    } else if numbers[before - 1] != -1 {
        before - 1
    } else {
        prev_tagged(numbers, before - 1)
    }
}

/// The number at `index`, or -1 where `index` is -1.
pub open spec fn number_at(numbers: Seq<i32>, index: int) -> int {
    if index == -1 {
        -1
    } else {
        numbers[index] as int
    }
}

/// The number a new line at `line_index` gets, before rounding, and the step
/// between numbers there; `None` where the tagged line before has a greater number
/// than the tagged line after.
pub open spec fn unrounded_index(numbers: Seq<i32>, line_index: int) -> Option<(int, int)> {
    let ri = next_tagged(numbers, line_index + 1);
    let li = prev_tagged(numbers, line_index);
    let rc = number_at(numbers, ri);
    let lc = number_at(numbers, li);
    if lc == -1 && rc == -1 {
        Some(((line_index + 1) * 100, 100))
    } else if lc != -1 && rc != -1 {
        if lc > rc {
            None
        } else {
            let diff = rc - lc;
            let insertions = ri - 1 - li;
            let increment = if insertions > 0 { diff / (insertions + 1) } else { diff / 2 };
            let relative = line_index - li;
            if increment > 0 {
                Some((lc + relative * increment, increment))
            } else {
                Some((if lc + relative < rc { lc + relative } else { rc }, increment))
            }
        }
    } else if li == -1 {
        let increment = rc / (ri + 1);
        if increment > 0 {
            Some((increment * (1 + line_index), increment))
        } else {
            Some((if line_index < rc { line_index } else { rc }, increment))
        }
    } else {
        let next_multiple = lc + 99 - (lc + 99) % 100;
        Some(((line_index - li) * 100 + next_multiple, 100))
    }
}

/// The number a new line at `line_index` gets: [`unrounded_index`], rounded up to
/// a multiple of 5 where the step is greater than 5.
pub open spec fn planned_index(numbers: Seq<i32>, line_index: int) -> Option<int> {
    match unrounded_index(numbers, line_index) {
        None => None,
        Some((f, increment)) => Some(if increment > 5 { f + 4 - (f + 4) % 5 } else { f }),
    }
}

/// Whether every number is -1 or not negative.
pub open spec fn numbers_valid(numbers: Seq<i32>) -> bool {
    forall|i: int| 0 <= i < numbers.len() ==> #[trigger] numbers[i] >= -1
}

fn next_tagged_index(numbers: &Vec<i32>, from: usize) -> (r: i64)
    requires
        numbers@.len() <= i32::MAX,
    ensures
        r == next_tagged(numbers@, from as int),
{
    let mut i: usize = from;
    while i < numbers.len()
        invariant
            from <= i,
            numbers@.len() <= i32::MAX,
            next_tagged(numbers@, from as int) == next_tagged(numbers@, i as int),
        decreases numbers@.len() - i,
    {
        if numbers[i] != -1 {
            return i as i64;
        }
        i = i + 1;
    }
    -1
}

fn prev_tagged_index(numbers: &Vec<i32>, before: usize) -> (r: i64)
    requires
        before <= numbers@.len() <= i32::MAX,
    ensures
        r == prev_tagged(numbers@, before as int),
{
    let mut i: usize = before;
    while i > 0
        invariant
            i <= before <= numbers@.len() <= i32::MAX,
            prev_tagged(numbers@, before as int) == prev_tagged(numbers@, i as int),
        decreases i,
    {
        if numbers[i - 1] != -1 {
            return (i - 1) as i64;
        }
        i = i - 1;
    }
    -1
}

proof fn lemma_tagged_bounds(numbers: Seq<i32>, line_index: int)
    requires
        0 <= line_index < numbers.len(),
        numbers_valid(numbers),
    ensures
        next_tagged(numbers, line_index + 1) == -1 || (line_index < next_tagged(numbers, line_index + 1) < numbers.len()
            && numbers[next_tagged(numbers, line_index + 1)] >= 0),
        prev_tagged(numbers, line_index) == -1 || (0 <= prev_tagged(numbers, line_index) < line_index
            && numbers[prev_tagged(numbers, line_index)] >= 0),
{
    lemma_next_tagged(numbers, line_index + 1);
    lemma_prev_tagged(numbers, line_index);
}

proof fn lemma_next_tagged(numbers: Seq<i32>, from: int)
    requires
        0 <= from,
        numbers_valid(numbers),
    ensures
        next_tagged(numbers, from) == -1 || (from <= next_tagged(numbers, from) < numbers.len()
            && numbers[next_tagged(numbers, from)] >= 0),
    decreases numbers.len() - from,
{
    if from < numbers.len() && numbers[from] == -1 {
        lemma_next_tagged(numbers, from + 1);
    }
}

proof fn lemma_prev_tagged(numbers: Seq<i32>, before: int)
    requires
        before <= numbers.len(),
        numbers_valid(numbers),
    ensures
        prev_tagged(numbers, before) == -1 || (0 <= prev_tagged(numbers, before) < before
            && numbers[prev_tagged(numbers, before)] >= 0),
    decreases before,
{
    if before > 0 && numbers[before - 1] == -1 {
        lemma_prev_tagged(numbers, before - 1);
    }
}

/// The number a new line at `line_index` gets (see [`planned_index`]).
fn plan_index(numbers: &Vec<i32>, line_index: usize) -> (r: Option<u64>)
    requires
        line_index < numbers@.len() <= i32::MAX,
        numbers_valid(numbers@),
    ensures
        match (r, planned_index(numbers@, line_index as int)) {
            (Some(a), Some(b)) => a == b,
            (None, None) => true,
            _ => false,
        },
{
    let ri = next_tagged_index(numbers, line_index + 1);
    let li = prev_tagged_index(numbers, line_index);
    proof {
        lemma_tagged_bounds(numbers@, line_index as int);
    }
    let rc: i64 = if ri == -1 { -1 } else { numbers[ri as usize] as i64 };
    let lc: i64 = if li == -1 { -1 } else { numbers[li as usize] as i64 };
    let l = line_index as u64;
    let f: u64;
    let increment: u64;
    if lc == -1 && rc == -1 {
        f = (l + 1) * 100;
        increment = 100;
    } else if lc != -1 && rc != -1 {
        if lc > rc {
            return None;
        }
        let diff = (rc - lc) as u64;
        let insertions = (ri - 1 - li) as u64;
        increment = if insertions > 0 { diff / (insertions + 1) } else { diff / 2 };
        let relative = l - li as u64;
        assert(increment <= diff) by (nonlinear_arith)
            requires
                increment == (if insertions > 0 { diff as int / (insertions + 1) } else { diff as int / 2 }),
        ;
        if increment > 0 {
            assert(relative * increment <= 0x8000_0000 * 0x8000_0000) by (nonlinear_arith)
                requires
                    relative <= 0x8000_0000,
                    increment <= 0x8000_0000,
            ;
            f = lc as u64 + relative * increment;
        } else {
            f = if lc as u64 + relative < rc as u64 { lc as u64 + relative } else { rc as u64 };
        }
    } else if li == -1 {
        increment = rc as u64 / (ri as u64 + 1);
        assert(increment <= rc as u64) by (nonlinear_arith)
            requires
                increment == rc as int / (ri + 1),
                ri >= 0,
        ;
        if increment > 0 {
            assert(increment * (1 + l) <= 0x8000_0000 * 0x8000_0000) by (nonlinear_arith)
                requires
                    l < 0x8000_0000,
                    increment <= 0x8000_0000,
            ;
            f = increment * (1 + l);
        } else {
            f = if l < rc as u64 { l } else { rc as u64 };
        }
    } else {
        let next_multiple = lc as u64 + 99 - (lc as u64 + 99) % 100;
        f = (l - li as u64) * 100 + next_multiple;
        increment = 100;
    }
    assert(f <= 0x8000_0000 * 0x8000_0000 + 0x1_0000_0000);
    if increment > 5 {
        Some(f + 4 - (f + 4) % 5)
    } else {
        Some(f)
    }
}

/// The pieces of `s` between its underscores, as `str::split('_')` gives them.
pub open spec fn split_pieces(s: Seq<char>) -> Seq<Seq<char>>
    decreases s.len(),
{
    if s.len() == 0 {
        seq![Seq::<char>::empty()]
    } else {
        let rest = split_pieces(s.drop_last());
        if s.last() == '_' {
            rest.push(Seq::<char>::empty())
        } else {
            rest.update(rest.len() - 1, rest.last().push(s.last()))
        }
    }
}

proof fn lemma_split_pieces_len(s: Seq<char>)
    ensures
        split_pieces(s).len() >= 1,
    decreases s.len(),
{
    if s.len() > 0 {
        lemma_split_pieces_len(s.drop_last());
    }
}

/// The number a piece of an ID stands for: its value where it is all digits and fits an `i32`.
pub open spec fn piece_number(p: Seq<char>) -> Option<i32> {
    if all_digits(p) && digits_value(p) <= i32::MAX {
        Some(digits_value(p) as i32)
    } else {
        None
    }
}

/// The generation a piece of an ID stands for: the value after its `g`, where it
/// is `g` and digits and the value fits an `i32`.
pub open spec fn piece_generation(p: Seq<char>) -> Option<i32> {
    if !all_digits(p) && generation_piece(p) && digits_value(p.drop_first()) <= i32::MAX {
        Some(digits_value(p.drop_first()) as i32)
    } else {
        None
    }
}

/// The number of an ID: that of its last piece that is a number, or -1.
pub open spec fn id_number(pieces: Seq<Seq<char>>) -> i32
    decreases pieces.len(),
{
    if pieces.len() == 0 {
        -1i32
    } else {
        match piece_number(pieces.last()) {
            Some(v) => v,
            None => id_number(pieces.drop_last()),
        }
    }
}

/// The generation of an ID: that of its last piece that is a generation, or 0.
pub open spec fn id_generation(pieces: Seq<Seq<char>>) -> i32
    decreases pieces.len(),
{
    if pieces.len() == 0 {
        0i32
    } else {
        match piece_generation(pieces.last()) {
            Some(v) => v,
            None => id_generation(pieces.drop_last()),
        }
    }
}

fn piece_values(piece: &Vec<char>) -> (r: (Option<i32>, Option<i32>))
    ensures
        r.0 == piece_number(piece@),
        r.1 == piece_generation(piece@),
{
    let text = string_from_chars(piece);
    assert(piece@.subrange(0, piece@.len() as int) =~= piece@);
    match regex_matches("^[0-9]+$", text.as_str()) {
        Some(true) => {
            return (parse_digits(piece, 0), None);
        },
        _ => {},
    }
    match regex_matches("^g[0-9]+$", text.as_str()) {
        Some(true) => {
            assert(piece@.subrange(1, piece@.len() as int) =~= piece@.drop_first());
            (None, parse_digits(piece, 1))
        },
        _ => (None, None),
    }
}

/// The number and the generation of a line ID (see [`id_number`] and [`id_generation`]).
pub fn parse_line_id(id: &str) -> (r: (i32, i32))
    ensures
        r.0 == id_number(split_pieces(id@)),
        r.1 == id_generation(split_pieces(id@)),
{
    let chars = chars_of(id);
    let mut number: i32 = -1;
    let mut generation: i32 = 0;
    let mut current: Vec<char> = Vec::new();
    let ghost mut done: Seq<Seq<char>> = Seq::empty();
    let mut i: usize = 0;
    assert(chars@.take(0) =~= Seq::<char>::empty());
    assert(done.push(current@) =~= seq![Seq::<char>::empty()]);
    while i < chars.len()
        invariant
            i <= chars@.len(),
            split_pieces(chars@.take(i as int)) == done.push(current@),
            number == id_number(done),
            generation == id_generation(done),
        decreases chars@.len() - i,
    {
        assert(chars@.take(i + 1).drop_last() =~= chars@.take(i as int));
        if chars[i] == '_' {
            let (n, g) = piece_values(&current);
            proof {
                assert(done.push(current@).drop_last() =~= done);
            }
            match n {
                Some(v) => {
                    number = v;
                },
                None => {},
            }
            match g {
                Some(v) => {
                    generation = v;
                },
                None => {},
            }
            proof {
                done = done.push(current@);
            }
            current = Vec::new();
            assert(split_pieces(chars@.take(i + 1)) =~= done.push(current@));
        } else {
            let ghost before = current@;
            current.push(chars[i]);
            assert(split_pieces(chars@.take(i + 1)) =~= done.push(current@)) by {
                let rest = split_pieces(chars@.take(i as int));
                assert(rest == done.push(before));
                assert(rest.update(rest.len() - 1, rest.last().push(chars@[i as int])) =~= done.push(current@));
            }
        }
        i = i + 1;
    }
    assert(chars@.take(chars@.len() as int) =~= chars@);
    let (n, g) = piece_values(&current);
    assert(done.push(current@).drop_last() =~= done);
    match n {
        Some(v) => {
            number = v;
        },
        None => {},
    }
    match g {
        Some(v) => {
            generation = v;
        },
        None => {},
    }
    (number, generation)
}

/// The first index from `i` on of an entry named `name`.
pub open spec fn first_named_from<T>(v: Seq<(String, T)>, name: Seq<char>, i: int) -> Option<int>
    decreases v.len() - i,
{
    if i < 0 || i >= v.len() {
        None
    } else if v[i].0@ == name {
        Some(i)
    } else {
        first_named_from(v, name, i + 1)
    }
}

/// The index of the first entry named `name`.
pub open spec fn first_named<T>(v: Seq<(String, T)>, name: Seq<char>) -> Option<int> {
    first_named_from(v, name, 0)
}

proof fn lemma_first_named_from<T>(v: Seq<(String, T)>, name: Seq<char>, i: int)
    requires
        0 <= i,
    ensures
        first_named_from(v, name, i) matches Some(k) ==> i <= k < v.len() && v[k].0@ == name,
    decreases v.len() - i,
{
    if i < v.len() && v[i].0@ != name {
        lemma_first_named_from(v, name, i + 1);
    }
}

/// The index of the first entry named `name`.
pub fn find_named<T>(v: &Vec<(String, T)>, name: &str) -> (r: Option<usize>)
    ensures
        r matches Some(i) ==> first_named(v@, name@) == Some(i as int) && i < v@.len(),
        r is None ==> first_named(v@, name@) is None,
{
    let mut i: usize = 0;
    while i < v.len()
        invariant
            i <= v@.len(),
            first_named(v@, name@) == first_named_from(v@, name@, i as int),
        decreases v@.len() - i,
    {
        if crate::text::str_eq(v[i].0.as_str(), name) {
            return Some(i);
        }
        i = i + 1;
    }
    None
}

/// The first index from `i` on of the generation of `number` in `node`.
pub open spec fn generation_index_from(v: Seq<(String, i32, i32)>, node: Seq<char>, number: i32, i: int) -> Option<int>
    decreases v.len() - i,
{
    if i < 0 || i >= v.len() {
        None
    } else if v[i].0@ == node && v[i].1 == number {
        Some(i)
    } else {
        generation_index_from(v, node, number, i + 1)
    }
}

proof fn lemma_generation_index_from(v: Seq<(String, i32, i32)>, node: Seq<char>, number: i32, i: int)
    requires
        0 <= i,
    ensures
        generation_index_from(v, node, number, i) matches Some(k) ==> i <= k < v.len() && v[k].0@ == node && v[k].1
            == number,
    decreases v.len() - i,
{
    if i < v.len() && !(v[i].0@ == node && v[i].1 == number) {
        lemma_generation_index_from(v, node, number, i + 1);
    }
}

proof fn lemma_generation_index_set(
    v: Seq<(String, i32, i32)>,
    w: Seq<(String, i32, i32)>,
    node: Seq<char>,
    number: i32,
    k: int,
    i: int,
)
    requires
        0 <= i <= k < v.len(),
        w.len() == v.len(),
        generation_index_from(v, node, number, i) == Some(k),
        w[k].0@ == node && w[k].1 == number,
        forall|j: int| 0 <= j < v.len() && j != k ==> w[j] == v[j],
    ensures
        generation_index_from(w, node, number, i) == Some(k),
    decreases k - i,
{
    if i < k {
        lemma_generation_index_set(v, w, node, number, k, i + 1);
    }
}

proof fn lemma_generation_index_push(v: Seq<(String, i32, i32)>, x: (String, i32, i32), node: Seq<char>, number: i32, i: int)
    requires
        0 <= i <= v.len(),
        generation_index_from(v, node, number, i) is None,
        x.0@ == node && x.1 == number,
    ensures
        generation_index_from(v.push(x), node, number, i) == Some(v.len() as int),
    decreases v.len() - i,
{
    if i < v.len() {
        lemma_generation_index_push(v, x, node, number, i + 1);
    }
}

proof fn lemma_generation_index_push_any(
    v: Seq<(String, i32, i32)>,
    x: (String, i32, i32),
    node: Seq<char>,
    number: i32,
    i: int,
)
    requires
        0 <= i <= v.len(),
    ensures
        generation_index_from(v.push(x), node, number, i) == match generation_index_from(v, node, number, i) {
            Some(k) => Some(k),
            None => if x.0@ == node && x.1 == number {
                Some(v.len() as int)
            } else {
                None
            },
        },
    decreases v.len() - i,
{
    if i < v.len() {
        assert(v.push(x)[i] == v[i]);
        lemma_generation_index_push_any(v, x, node, number, i + 1);
    } else {
        assert(v.push(x)[i] == x);
        assert(generation_index_from(v.push(x), node, number, i + 1) is None);
    }
}

proof fn lemma_generation_index_same_keys(
    v: Seq<(String, i32, i32)>,
    w: Seq<(String, i32, i32)>,
    node: Seq<char>,
    number: i32,
    i: int,
)
    requires
        0 <= i,
        w.len() == v.len(),
        forall|j: int| 0 <= j < v.len() ==> (#[trigger] w[j]).0@ == v[j].0@ && w[j].1 == v[j].1,
    ensures
        generation_index_from(w, node, number, i) == generation_index_from(v, node, number, i),
    decreases v.len() - i,
{
    if i < v.len() {
        lemma_generation_index_same_keys(v, w, node, number, i + 1);
    }
}

fn find_generation(v: &Vec<(String, i32, i32)>, node: &str, number: i32) -> (r: Option<usize>)
    ensures
        r matches Some(i) ==> generation_index_from(v@, node@, number, 0) == Some(i as int) && i < v@.len(),
        r is None ==> generation_index_from(v@, node@, number, 0) is None,
{
    let mut i: usize = 0;
    while i < v.len()
        invariant
            i <= v@.len(),
            generation_index_from(v@, node@, number, 0) == generation_index_from(v@, node@, number, i as int),
        decreases v@.len() - i,
    {
        if v[i].1 == number && crate::text::str_eq(v[i].0.as_str(), node) {
            return Some(i);
        }
        i = i + 1;
    }
    None
}

/// The generation recorded for `number` in `node`, if any.
pub open spec fn generation_in(v: Seq<(String, i32, i32)>, node: Seq<char>, number: i32) -> Option<i32> {
    match generation_index_from(v, node, number, 0) {
        Some(k) => Some(v[k].2),
        None => None,
    }
}

/// The generation a new ID with `number` in `node` gets, after `recorded`: 0 where
/// none is recorded, else one more than the recorded one.
pub open spec fn next_generation(recorded: Option<i32>) -> int {
    match recorded {
        Some(g) => g + 1,
        None => 0,
    }
}

/// The ID `line:node_NNNN`, with `_gG` where the generation is not 0 and
/// `_Speaker` where the line has a speaker.
pub open spec fn descriptive_id(node: Seq<char>, index: nat, generation: int, speaker: Option<Seq<char>>) -> Seq<char> {
    line_id_prefix() + node + seq!['_'] + padded_decimal(index, 4) + (if generation != 0 {
        seq!['_', 'g'] + decimal(generation as nat)
    } else {
        Seq::empty()
    }) + match speaker {
        Some(n) => seq!['_'] + n,
        None => Seq::empty(),
    }
}

/// The start of the messages about a request the generator cannot serve.
pub open spec fn asked_message(line_index: usize, node: Seq<char>, tail: Seq<char>) -> Seq<char> {
    "Asked to generate a line at index "@ + decimal(line_index as nat) + " for "@ + node + " node but "@ + tail
}

/// The message given where the tagged line before has a greater number than the tagged line after.
pub open spec fn misordered_message(left: int, right: int) -> Seq<char> {
    "The preceding dialogue has a greater tagged value ("@ + decimal(left as nat) + ") than the following ("@
        + decimal(right as nat) + ")."@
}

/// The message given where a generated ID is excluded.
pub open spec fn excluded_id_message(id: Seq<char>) -> Seq<char> {
    "The generated id '"@ + id + "' conflicts with an id we were excluded from using."@
}

fn asked_error(line_index: usize, node: &str, tail: &str) -> (r: LineTaggingError)
    ensures
        r.message@ == asked_message(line_index, node@, tail@),
        r.source_file_name is None,
        r.line_number is None,
{
    let mut m = String::from_str("Asked to generate a line at index ");
    let d = decimal_string(line_index as u64);
    push_str_chars(&mut m, d.as_str());
    push_str_chars(&mut m, " for ");
    push_str_chars(&mut m, node);
    push_str_chars(&mut m, " node but ");
    push_str_chars(&mut m, tail);
    proof {
        reveal_strlit("Asked to generate a line at index ");
        reveal_strlit(" for ");
        reveal_strlit(" node but ");
    }
    LineTaggingError::new(m)
}

/// Makes IDs of the form `line:Node_0100_Speaker`: the node's name, a number that
/// keeps the lines in order (put between the numbers of the tagged lines around
/// it), a generation where the number was used before, and the speaker.
pub struct DescriptiveLineTagGenerator {
    line_contexts: Option<Vec<(String, Vec<LineTagContext>)>>,
    generations: Vec<(String, i32, i32)>,
    numbers: Vec<(String, Vec<i32>)>,
    exclusions: Vec<String>,
    answered: Ghost<Seq<(Seq<char>, usize, Result<Seq<char>, Seq<char>>)>>,
}

impl DescriptiveLineTagGenerator {
    #[verifier::type_invariant]
    spec fn numbers_are_valid(self) -> bool {
        &&& forall|n: int| 0 <= n < self.numbers@.len() ==> numbers_valid((#[trigger] self.numbers@[n]).1@)
        &&& generations_valid(self.generations@)
    }

    /// The lines it was prepared with, by node.
    pub closed spec fn contexts(&self) -> Option<Seq<(String, Vec<LineTagContext>)>> {
        match self.line_contexts {
            Some(c) => Some(c@),
            None => None,
        }
    }

    /// The numbers of the lines of `node` (-1 for a line without one).
    pub closed spec fn numbers_for(&self, node: Seq<char>) -> Option<Seq<i32>> {
        match first_named(self.numbers@, node) {
            Some(i) => Some(self.numbers@[i].1@),
            None => None,
        }
    }

    /// The last generation used for `number` in `node`, if any.
    pub closed spec fn generation_for(&self, node: Seq<char>, number: i32) -> Option<i32> {
        generation_in(self.generations@, node, number)
    }

    /// The IDs it must not generate.
    pub closed spec fn excluded(&self) -> Set<Seq<char>> {
        string_set(self.exclusions@)
    }

    /// A generator that has not been prepared.
    pub fn new() -> (r: Self)
        ensures
            r.contexts() is None,
            r.excluded() == Set::<Seq<char>>::empty(),
            forall|node: Seq<char>| #[trigger] r.numbers_for(node) is None,
            forall|node: Seq<char>, number: i32| #[trigger] r.generation_for(node, number) is None,
    {
        let r = DescriptiveLineTagGenerator {
            line_contexts: None,
            generations: Vec::new(),
            numbers: Vec::new(),
            exclusions: Vec::new(),
            answered: Ghost(Seq::empty()),
        };
        assert(r.excluded() =~= Set::<Seq<char>>::empty());
        r
    }

    /// Takes the next generation of `number` in `node` and records it; `None`
    /// where the recorded one is already `i32::MAX`.
    fn get_generation(&mut self, node: &str, number: i32) -> (r: Option<i32>)
        ensures
            final(self).answered == old(self).answered,
            final(self).contexts() == old(self).contexts(),
            final(self).excluded() == old(self).excluded(),
            forall|n: Seq<char>| #[trigger] final(self).numbers_for(n) == old(self).numbers_for(n),
            r matches Some(g) ==> g >= 0,
            match old(self).generation_for(node@, number) {
                Some(g) => if g < i32::MAX {
                    r == Some((g + 1) as i32) && final(self).generation_for(node@, number) == Some((g + 1) as i32)
                } else {
                    r is None
                },
                None => r == Some(0i32) && final(self).generation_for(node@, number) == Some(0i32),
            },
    {
        proof {
            use_type_invariant(&*self);
        }
        let mut gens: Vec<(String, i32, i32)> = Vec::new();
        std::mem::swap(&mut gens, &mut self.generations);
        let ghost before = gens@;
        let r = match find_generation(&gens, node, number) {
            Some(k) => {
                let g = gens[k].2;
                if g == i32::MAX {
                    None
                } else {
                    assert(gens@[k as int].2 >= 0);
                    let entry = (gens[k].0.clone(), number, g + 1);
                    gens.set(k, entry);
                    proof {
                        lemma_generation_index_from(before, node@, number, 0);
                        lemma_generation_index_set(before, gens@, node@, number, k as int, 0);
                    }
                    Some(g + 1)
                }
            },
            None => {
                let entry = (String::from_str(node), number, 0i32);
                gens.push(entry);
                proof {
                    lemma_generation_index_push(before, gens@.last(), node@, number, 0);
                    assert(before.push(gens@.last()) =~= gens@);
                }
                Some(0)
            },
        };
        self.generations = gens;
        r
    }
}

/// Whether two optional strings hold the same characters.
pub open spec fn same_optional(a: Option<String>, b: Option<String>) -> bool {
    match (a, b) {
        (Some(x), Some(y)) => x@ == y@,
        (None, None) => true,
        _ => false,
    }
}

/// Whether two line contexts hold the same values.
pub open spec fn same_context(a: LineTagContext, b: LineTagContext) -> bool {
    &&& a.line_number == b.line_number
    &&& same_optional(a.source_file_name, b.source_file_name)
    &&& a.line_text@ == b.line_text@
    &&& same_optional(a.line_id, b.line_id)
}

/// Whether two lists of contexts by node hold the same values.
pub open spec fn same_contexts(a: Seq<(String, Vec<LineTagContext>)>, b: Seq<(String, Vec<LineTagContext>)>) -> bool {
    &&& a.len() == b.len()
    &&& forall|n: int|
        0 <= n < a.len() ==> (#[trigger] a[n]).0@ == b[n].0@ && a[n].1@.len() == b[n].1@.len() && forall|i: int|
            0 <= i < a[n].1@.len() ==> same_context(#[trigger] a[n].1@[i], b[n].1@[i])
}

fn copy_contexts(v: &Vec<(String, Vec<LineTagContext>)>) -> (r: Vec<(String, Vec<LineTagContext>)>)
    ensures
        same_contexts(r@, v@),
{
    let mut out: Vec<(String, Vec<LineTagContext>)> = Vec::new();
    let mut n: usize = 0;
    while n < v.len()
        invariant
            n <= v@.len(),
            out@.len() == n,
            forall|m: int|
                0 <= m < n ==> (#[trigger] out@[m]).0@ == v@[m].0@ && out@[m].1@.len() == v@[m].1@.len() && forall|i: int|
                    0 <= i < out@[m].1@.len() ==> same_context(#[trigger] out@[m].1@[i], v@[m].1@[i]),
        decreases v@.len() - n,
    {
        let lines = &v[n].1;
        let mut copies: Vec<LineTagContext> = Vec::new();
        let mut i: usize = 0;
        while i < lines.len()
            invariant
                i <= lines@.len(),
                copies@.len() == i,
                forall|j: int| 0 <= j < i ==> same_context(#[trigger] copies@[j], lines@[j]),
            decreases lines@.len() - i,
        {
            let c = &lines[i];
            copies.push(
                LineTagContext {
                    line_number: c.line_number,
                    source_file_name: copy_optional(&c.source_file_name),
                    line_text: c.line_text.clone(),
                    line_id: copy_optional(&c.line_id),
                },
            );
            i = i + 1;
        }
        out.push((v[n].0.clone(), copies));
        n = n + 1;
    }
    out
}

/// The number a line's ID gives it: that of its ID where the ID is not blank, else -1.
pub open spec fn line_id_number(ctx: LineTagContext) -> i32 {
    match ctx.line_id {
        Some(id) => if trim(id@).len() > 0 {
            id_number(split_pieces(id@))
        } else {
            -1i32
        },
        None => -1i32,
    }
}

/// The numbers of a node's lines.
pub open spec fn line_numbers(lines: Seq<LineTagContext>) -> Seq<i32> {
    Seq::new(lines.len(), |i: int| line_id_number(lines[i]))
}

/// The generation a line's ID gives it: that of its ID, 0 without one.
pub open spec fn line_id_generation(ctx: LineTagContext) -> i32 {
    match ctx.line_id {
        Some(id) => id_generation(split_pieces(id@)),
        None => 0i32,
    }
}

/// The lines of every node, in order, each with its node's name.
pub open spec fn node_lines(cs: Seq<(String, Vec<LineTagContext>)>) -> Seq<(Seq<char>, LineTagContext)>
    decreases cs.len(),
{
    if cs.len() == 0 {
        Seq::empty()
    } else {
        node_lines(cs.drop_last()) + cs.last().1@.map_values(|c: LineTagContext| (cs.last().0@, c))
    }
}

/// The generation of `number` in `node` once `lines` have been read after
/// `recorded`: the greatest of the recorded one and those of the lines of `node`
/// whose ID has that number (never below 0 once one is recorded).
pub open spec fn generation_after(
    recorded: Option<i32>,
    lines: Seq<(Seq<char>, LineTagContext)>,
    node: Seq<char>,
    number: i32,
) -> Option<i32>
    decreases lines.len(),
{
    if lines.len() == 0 {
        recorded
    } else {
        let before = generation_after(recorded, lines.drop_last(), node, number);
        let last = lines.last();
        if last.0 == node && number != -1 && line_id_number(last.1) == number {
            Some(raised(before, line_id_generation(last.1)))
        } else {
            before
        }
    }
}

proof fn lemma_id_number_valid(pieces: Seq<Seq<char>>)
    ensures
        id_number(pieces) >= -1,
    decreases pieces.len(),
{
    if pieces.len() > 0 {
        lemma_id_number_valid(pieces.drop_last());
    }
}

proof fn lemma_same_names<S, T>(v: Seq<(String, S)>, w: Seq<(String, T)>, name: Seq<char>, i: int)
    requires
        v.len() == w.len(),
        forall|k: int| 0 <= k < v.len() ==> (#[trigger] v[k]).0@ == w[k].0@,
    ensures
        first_named_from(v, name, i) == first_named_from(w, name, i),
    decreases v.len() - i,
{
    if 0 <= i < v.len() {
        lemma_same_names(v, w, name, i + 1);
    }
}

/// Whether no generation is negative.
pub open spec fn generations_valid(gens: Seq<(String, i32, i32)>) -> bool {
    forall|i: int| 0 <= i < gens.len() ==> (#[trigger] gens[i]).2 >= 0
}

/// The greater of `generation` and the one recorded before (0 where none was).
pub open spec fn raised(recorded: Option<i32>, generation: i32) -> i32 {
    let base = match recorded {
        Some(a) => a,
        None => 0i32,
    };
    if generation > base {
        generation
    } else {
        base
    }
}

/// Records that `number` of `node` has been used up to `generation`.
fn record_generation(gens: &mut Vec<(String, i32, i32)>, node: &String, number: i32, generation: i32)
    requires
        generations_valid(old(gens)@),
    ensures
        generations_valid(final(gens)@),
        forall|nd: Seq<char>, nb: i32|
            #[trigger] generation_in(final(gens)@, nd, nb) == if nd == node@ && nb == number {
                Some(raised(generation_in(old(gens)@, nd, nb), generation))
            } else {
                generation_in(old(gens)@, nd, nb)
            },
{
    let ghost before = gens@;
    match find_generation(gens, node.as_str(), number) {
        Some(k) => {
            proof {
                lemma_generation_index_from(before, node@, number, 0);
            }
            if generation > gens[k].2 {
                let entry = (gens[k].0.clone(), number, generation);
                gens.set(k, entry);
                proof {
                    assert forall|nd: Seq<char>, nb: i32|
                        #[trigger] generation_in(gens@, nd, nb) == if nd == node@ && nb == number {
                            Some(raised(generation_in(before, nd, nb), generation))
                        } else {
                            generation_in(before, nd, nb)
                        } by {
                        lemma_generation_index_same_keys(before, gens@, nd, nb, 0);
                        lemma_generation_index_from(before, nd, nb, 0);
                    }
                }
            } else {
                assert forall|nd: Seq<char>, nb: i32|
                    #[trigger] generation_in(gens@, nd, nb) == if nd == node@ && nb == number {
                        Some(raised(generation_in(before, nd, nb), generation))
                    } else {
                        generation_in(before, nd, nb)
                    } by {}
            }
        },
        None => {
            let entry = (node.clone(), number, if generation > 0 { generation } else { 0 });
            gens.push(entry);
            proof {
                assert forall|nd: Seq<char>, nb: i32|
                    #[trigger] generation_in(gens@, nd, nb) == if nd == node@ && nb == number {
                        Some(raised(generation_in(before, nd, nb), generation))
                    } else {
                        generation_in(before, nd, nb)
                    } by {
                    assert(before.push(gens@.last()) =~= gens@);
                    lemma_generation_index_push_any(before, gens@.last(), nd, nb, 0);
                    lemma_generation_index_from(before, nd, nb, 0);
                }
            }
        },
    }
}

/// Whether the generator can make an ID for the line at `line_index` of `node`.
pub open spec fn can_plan(g: DescriptiveLineTagGenerator, node: Seq<char>, line_index: usize) -> bool {
    &&& g.contexts() matches Some(cs)
    &&& first_named(cs, node) matches Some(n)
    &&& line_index < cs[n].1@.len()
    &&& g.numbers_for(node) matches Some(nums)
    &&& line_index < nums.len() <= i32::MAX
    &&& planned_index(nums, line_index as int) matches Some(f)
    &&& f <= i32::MAX
    &&& next_generation(g.generation_for(node, f as i32)) <= i32::MAX
}

/// The ID the generator makes for the line at `line_index` of `node`.
pub open spec fn planned_id(g: DescriptiveLineTagGenerator, node: Seq<char>, line_index: usize) -> Seq<char> {
    let cs = g.contexts().unwrap();
    let n = first_named(cs, node).unwrap();
    let f = planned_index(g.numbers_for(node).unwrap(), line_index as int).unwrap();
    descriptive_id(
        node,
        f as nat,
        next_generation(g.generation_for(node, f as i32)),
        character_name(cs[n].1@[line_index as int].line_text@),
    )
}

/// Whether `r` is an error with the message `message`.
pub open spec fn fails_with_message(r: Result<String, LineTaggingError>, message: Seq<char>) -> bool {
    r matches Err(e) && e.message@ == message
}

/// The tail of the message given before the generator was prepared.
pub open spec fn no_context_tail() -> Seq<char> {
    "we haven't been given a context"@
}

/// The tail of the message given for a node it has no lines of.
pub open spec fn no_node_tail() -> Seq<char> {
    "we have no node with this name"@
}

/// The tail of the message given for a node without lines.
pub open spec fn empty_node_tail() -> Seq<char> {
    "this list is empty"@
}

/// The tail of the message given for a line index past the node's lines.
pub open spec fn out_of_bounds_tail() -> Seq<char> {
    "the index is out of bounds"@
}

fn append_strings(dst: &mut Vec<String>, src: &Vec<String>)
    ensures
        string_set(final(dst)@) == string_set(old(dst)@).union(string_set(src@)),
{
    let mut i: usize = 0;
    while i < src.len()
        invariant
            i <= src@.len(),
            string_set(dst@) == string_set(old(dst)@).union(string_set(src@.take(i as int))),
        decreases src@.len() - i,
    {
        proof {
            crate::line_tags::lemma_string_set_push(dst@, src@[i as int]);
            assert(src@.take(i + 1) =~= src@.take(i as int).push(src@[i as int]));
            crate::line_tags::lemma_string_set_push(src@.take(i as int), src@[i as int]);
        }
        dst.push(src[i].clone());
        i = i + 1;
        assert(string_set(dst@) =~= string_set(old(dst)@).union(string_set(src@.take(i as int))));
    }
    assert(src@.take(src@.len() as int) =~= src@);
}

impl DescriptiveLineTagGenerator {
    #[verifier::spinoff_prover]
    #[verifier::rlimit(30)]
    fn make_tag(&mut self, node: &str, line_index: usize) -> (r: Result<String, LineTaggingError>)
        ensures
            (r is Ok) == (can_plan(*old(self), node@, line_index) && !old(self).excluded().contains(
                planned_id(*old(self), node@, line_index),
            )),
            r matches Ok(id) ==> id@ == planned_id(*old(self), node@, line_index),
            old(self).contexts() is None ==> fails_with_message(r, asked_message(line_index, node@, no_context_tail())),
            old(self).contexts() matches Some(cs) && first_named(cs, node@) is None ==> fails_with_message(
                r,
                asked_message(line_index, node@, no_node_tail()),
            ),
            old(self).contexts() matches Some(cs) && first_named(cs, node@) matches Some(n) && cs[n].1@.len() == 0
                ==> fails_with_message(r, asked_message(line_index, node@, empty_node_tail())),
            old(self).contexts() matches Some(cs) && first_named(cs, node@) matches Some(n) && 0 < cs[n].1@.len()
                <= line_index ==> fails_with_message(r, asked_message(line_index, node@, out_of_bounds_tail())),
            final(self).answered == old(self).answered,
    {
        proof {
            use_type_invariant(&*self);
        }
        let (line_text, source_file_name, line_number) = match &self.line_contexts {
            None => {
                return Err(asked_error(line_index, node, "we haven't been given a context"));
            },
            Some(contexts) => {
                match find_named(contexts, node) {
                    None => {
                        return Err(asked_error(line_index, node, "we have no node with this name"));
                    },
                    Some(n) => {
                        let lines = &contexts[n].1;
                        if lines.len() == 0 {
                            return Err(asked_error(line_index, node, "this list is empty"));
                        }
                        if line_index >= lines.len() {
                            return Err(asked_error(line_index, node, "the index is out of bounds"));
                        }
                        let c = &lines[line_index];
                        let file = match &c.source_file_name {
                            Some(f) => f.clone(),
                            None => String::from_str("<unknown>"),
                        };
                        (c.line_text.clone(), file, c.line_number)
                    },
                }
            },
        };
        let ghost cs = self.contexts().unwrap();
        let ghost n = first_named(cs, node@).unwrap();
        assert(line_text@ == cs[n].1@[line_index as int].line_text@);
        let k = match find_named(&self.numbers, node) {
            None => {
                return Err(
                    LineTaggingError::new(
                        String::from_str("Asked to generate a line tag but haven't been given the context"),
                    ),
                );
            },
            Some(k) => k,
        };
        let ranges = &self.numbers[k].1;
        if line_index >= ranges.len() || ranges.len() > i32::MAX as usize {
            return Err(asked_error(line_index, node, "the line numbers do not cover this line"));
        }
        assert(numbers_valid(self.numbers@[k as int].1@));
        let f = match plan_index(ranges, line_index) {
            Some(f) => f,
            None => {
                let li = prev_tagged_index(ranges, line_index);
                let ri = next_tagged_index(ranges, line_index + 1);
                proof {
                    lemma_tagged_bounds(ranges@, line_index as int);
                }
                let lc = if li == -1 { -1 } else { ranges[li as usize] };
                let rc = if ri == -1 { -1 } else { ranges[ri as usize] };
                let mut m = String::from_str("The preceding dialogue has a greater tagged value (");
                let d = decimal_string(lc as u64);
                push_str_chars(&mut m, d.as_str());
                push_str_chars(&mut m, ") than the following (");
                let e = decimal_string(rc as u64);
                push_str_chars(&mut m, e.as_str());
                push_str_chars(&mut m, ").");
                return Err(LineTaggingError::with_location(m, source_file_name, line_number));
            },
        };
        if f > i32::MAX as u64 {
            return Err(asked_error(line_index, node, "the number it would get is out of range"));
        }
        let ghost nums = self.numbers@[k as int].1@;
        assert(old(self).numbers_for(node@) == Some(nums));
        assert(planned_index(nums, line_index as int) == Some(f as int));
        let generation = match self.get_generation(node, f as i32) {
            Some(g) => g,
            None => {
                return Err(asked_error(line_index, node, "its number has no generation left"));
            },
        };
        assert(generation == next_generation(old(self).generation_for(node@, f as i32)));
        let mut id = string_from_chars(&line_id_prefix_chars());
        push_str_chars(&mut id, node);
        push_char(&mut id, '_');
        let digits = padded_chars(f, 4);
        let digits_text = string_from_chars(&digits);
        push_str_chars(&mut id, digits_text.as_str());
        let ghost base = id@;
        assert(base == line_id_prefix() + node@ + seq!['_'] + padded_decimal(f as nat, 4));
        let ghost gen_part = if generation != 0 {
            seq!['_', 'g'] + decimal(generation as nat)
        } else {
            Seq::<char>::empty()
        };
        if generation != 0 {
            push_str_chars(&mut id, "_g");
            let g = decimal_string(generation as u64);
            push_str_chars(&mut id, g.as_str());
            proof {
                reveal_strlit("_g");
                assert(id@ =~= base + gen_part);
            }
        } else {
            assert(id@ =~= base + gen_part);
        }
        let ghost with_gen = id@;
        let speaker = extract_character_name(line_text.as_str());
        let ghost name_part = match character_name(line_text@) {
            Some(nm) => seq!['_'] + nm,
            None => Seq::<char>::empty(),
        };
        match speaker {
            Some(name) => {
                push_char(&mut id, '_');
                push_str_chars(&mut id, name.as_str());
                assert(id@ =~= with_gen + name_part);
            },
            None => {
                assert(id@ =~= with_gen + name_part);
            },
        }
        proof {
            assert(id@ =~= descriptive_id(node@, f as nat, generation as int, character_name(line_text@)));
            assert(id@ =~= planned_id(*old(self), node@, line_index));
        }
        if contains_str(&self.exclusions, id.as_str()) {
            let mut m = String::from_str("The generated id '");
            push_str_chars(&mut m, id.as_str());
            push_str_chars(&mut m, "' conflicts with an id we were excluded from using.");
            return Err(LineTaggingError::with_location(m, source_file_name, line_number));
        }
        Ok(id)
    }
}

impl LineTagGenerator for DescriptiveLineTagGenerator {
    fn prepare_for_lines(&mut self, line_contexts: &Vec<(String, Vec<LineTagContext>)>, excluded_ids: &Vec<String>)
        ensures
            final(self).contexts() matches Some(cs) && same_contexts(cs, line_contexts@),
            final(self).excluded() == old(self).excluded().union(string_set(excluded_ids@)),
            forall|node: Seq<char>|
                #[trigger] final(self).numbers_for(node) == match first_named(line_contexts@, node) {
                    Some(n) => Some(line_numbers(line_contexts@[n].1@)),
                    None => None,
                },
            forall|node: Seq<char>, number: i32|
                #[trigger] final(self).generation_for(node, number) == generation_after(
                    old(self).generation_for(node, number),
                    node_lines(line_contexts@),
                    node,
                    number,
                ),
    {
        proof {
            use_type_invariant(&*self);
        }
        let contexts = copy_contexts(line_contexts);
        let mut gens: Vec<(String, i32, i32)> = Vec::new();
        std::mem::swap(&mut gens, &mut self.generations);
        let ghost g_start = gens@;
        let mut numbers: Vec<(String, Vec<i32>)> = Vec::new();
        let mut n: usize = 0;
        while n < line_contexts.len()
            invariant
                n <= line_contexts@.len(),
                generations_valid(gens@),
                numbers@.len() == n,
                forall|m: int|
                    0 <= m < n ==> (#[trigger] numbers@[m]).0@ == line_contexts@[m].0@ && numbers@[m].1@ == line_numbers(
                        line_contexts@[m].1@,
                    ),
                forall|nd: Seq<char>, nb: i32|
                    #[trigger] generation_in(gens@, nd, nb) == generation_after(
                        generation_in(g_start, nd, nb),
                        node_lines(line_contexts@.take(n as int)),
                        nd,
                        nb,
                    ),
            decreases line_contexts@.len() - n,
        {
            let lines = &line_contexts[n].1;
            let ghost name = line_contexts@[n as int].0@;
            let ghost done = node_lines(line_contexts@.take(n as int));
            let ghost tagged = lines@.map_values(|c: LineTagContext| (name, c));
            let mut elements: Vec<i32> = Vec::new();
            let mut i: usize = 0;
            assert(tagged.take(0) =~= Seq::<(Seq<char>, LineTagContext)>::empty());
            assert(done + tagged.take(0) =~= done);
            while i < lines.len()
                invariant
                    n < line_contexts@.len(),
                    generations_valid(gens@),
                    i <= lines@.len(),
                    elements@ == line_numbers(lines@).take(i as int),
                    name == line_contexts@[n as int].0@,
                    tagged == lines@.map_values(|c: LineTagContext| (name, c)),
                    forall|nd: Seq<char>, nb: i32|
                        #[trigger] generation_in(gens@, nd, nb) == generation_after(
                            generation_in(g_start, nd, nb),
                            done + tagged.take(i as int),
                            nd,
                            nb,
                        ),
                decreases lines@.len() - i,
            {
                let ghost g0 = gens@;
                let (num, generation) = match &lines[i].line_id {
                    Some(id) => {
                        let trimmed = crate::text::trim_string(id.as_str());
                        if trimmed.as_str().unicode_len() > 0 {
                            parse_line_id(id.as_str())
                        } else {
                            (-1, 0)
                        }
                    },
                    None => (-1, 0),
                };
                if num != -1 {
                    record_generation(&mut gens, &line_contexts[n].0, num, generation);
                }
                elements.push(num);
                assert(elements@ =~= line_numbers(lines@).take(i + 1));
                proof {
                    let s0 = done + tagged.take(i as int);
                    let s1 = done + tagged.take(i + 1);
                    assert(s1.drop_last() =~= s0);
                    assert(s1.last() == (name, lines@[i as int]));
                    assert(num == line_id_number(lines@[i as int]));
                    assert forall|nd: Seq<char>, nb: i32|
                        #[trigger] generation_in(gens@, nd, nb) == generation_after(
                            generation_in(g_start, nd, nb),
                            s1,
                            nd,
                            nb,
                        ) by {
                        assert(generation_in(g0, nd, nb) == generation_after(generation_in(g_start, nd, nb), s0, nd, nb));
                    }
                }
                i = i + 1;
            }
            assert(line_numbers(lines@).take(lines@.len() as int) =~= line_numbers(lines@));
            proof {
                assert(tagged.take(lines@.len() as int) =~= tagged);
                assert(line_contexts@.take(n + 1).drop_last() =~= line_contexts@.take(n as int));
                assert(line_contexts@.take(n + 1).last() == line_contexts@[n as int]);
                assert(node_lines(line_contexts@.take(n + 1)) == done + tagged);
            }
            numbers.push((line_contexts[n].0.clone(), elements));
            n = n + 1;
        }
        assert(line_contexts@.take(line_contexts@.len() as int) =~= line_contexts@);
        proof {
            assert forall|m: int| 0 <= m < numbers@.len() implies numbers_valid((#[trigger] numbers@[m]).1@) by {
                assert forall|i: int| 0 <= i < numbers@[m].1@.len() implies #[trigger] numbers@[m].1@[i] >= -1 by {
                    let ctx = line_contexts@[m].1@[i];
                    match ctx.line_id {
                        Some(id) => lemma_id_number_valid(split_pieces(id@)),
                        None => {},
                    }
                }
            }
            assert forall|node: Seq<char>| true implies first_named(numbers@, node) == first_named(
                line_contexts@,
                node,
            ) by {
                lemma_same_names(numbers@, line_contexts@, node, 0);
            }
        }
        self.numbers = numbers;
        self.generations = gens;
        self.line_contexts = Some(contexts);
        let mut exclusions: Vec<String> = Vec::new();
        std::mem::swap(&mut exclusions, &mut self.exclusions);
        append_strings(&mut exclusions, excluded_ids);
        self.exclusions = exclusions;
        proof {
            assert forall|node: Seq<char>|
                #[trigger] self.numbers_for(node) == match first_named(line_contexts@, node) {
                    Some(n) => Some(line_numbers(line_contexts@[n].1@)),
                    None => None,
                } by {
                lemma_same_names(self.numbers@, line_contexts@, node, 0);
                lemma_first_named_from(line_contexts@, node, 0);
            }
        }
    }

    fn generate_line_tag(&mut self, node: &str, line_index: usize) -> (r: Result<String, LineTaggingError>)
        ensures
            (r is Ok) == (can_plan(*old(self), node@, line_index) && !old(self).excluded().contains(
                planned_id(*old(self), node@, line_index),
            )),
            r matches Ok(id) ==> id@ == planned_id(*old(self), node@, line_index),
            old(self).contexts() is None ==> fails_with_message(r, asked_message(line_index, node@, no_context_tail())),
            old(self).contexts() matches Some(cs) && first_named(cs, node@) is None ==> fails_with_message(
                r,
                asked_message(line_index, node@, no_node_tail()),
            ),
            old(self).contexts() matches Some(cs) && first_named(cs, node@) matches Some(n) && cs[n].1@.len() == 0
                ==> fails_with_message(r, asked_message(line_index, node@, empty_node_tail())),
            old(self).contexts() matches Some(cs) && first_named(cs, node@) matches Some(n) && 0 < cs[n].1@.len()
                <= line_index ==> fails_with_message(r, asked_message(line_index, node@, out_of_bounds_tail())),
    {
        let ghost before = self.answered@;
        let r = self.make_tag(node, line_index);
        proof {
            use_type_invariant(&*self);
        }
        self.answered = Ghost(before.push((node@, line_index, answer_view(r))));
        r
    }

    closed spec fn answers(&self) -> Seq<(Seq<char>, usize, Result<Seq<char>, Seq<char>>)> {
        self.answered@
    }
}


/// Where the tagged lines before and after a line leave room for the untagged
/// lines between them, the number planned for the line lies strictly between theirs.
pub proof fn law_planned_between_neighbours(numbers: Seq<i32>, line_index: int)
    requires
        0 <= line_index < numbers.len(),
        numbers_valid(numbers),
        prev_tagged(numbers, line_index) != -1,
        next_tagged(numbers, line_index + 1) != -1,
        numbers[prev_tagged(numbers, line_index)] < numbers[next_tagged(numbers, line_index + 1)],
        numbers[next_tagged(numbers, line_index + 1)] - numbers[prev_tagged(numbers, line_index)] >= next_tagged(
            numbers,
            line_index + 1,
        ) - prev_tagged(numbers, line_index),
    ensures
        planned_index(numbers, line_index) matches Some(f) && numbers[prev_tagged(numbers, line_index)] < f
            < numbers[next_tagged(numbers, line_index + 1)],
{
    lemma_tagged_bounds(numbers, line_index);
    let li = prev_tagged(numbers, line_index);
    let ri = next_tagged(numbers, line_index + 1);
    let lc = numbers[li] as int;
    let rc = numbers[ri] as int;
    let diff = rc - lc;
    let insertions = ri - 1 - li;
    let relative = line_index - li;
    assert(insertions >= 1);
    assert(1 <= relative <= insertions);
    let inc = diff / (insertions + 1);
    assert(inc >= 1 && (insertions + 1) * inc <= diff) by (nonlinear_arith)
        requires
            diff >= insertions + 1,
            insertions >= 1,
            inc == diff / (insertions + 1),
    ;
    let f0 = lc + relative * inc;
    assert(lc < f0 && f0 + inc <= rc) by (nonlinear_arith)
        requires
            1 <= relative <= insertions,
            inc >= 1,
            (insertions + 1) * inc <= diff,
            diff == rc - lc,
            f0 == lc + relative * inc,
    ;
    assert(unrounded_index(numbers, line_index) == Some((f0, inc)));
}

} // verus!
