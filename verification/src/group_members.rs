//! Finding node groups: the titles that every node bearing them marks with a `when:`
//! header, and the unique name each member of such a group gets.
use vstd::prelude::*;

use crate::library::{crc32_of_text, crc32_text};
use crate::line_tags::{hex_digits, push_hex_digits};
use crate::node_groups::{strings_view, NodeGroup, NodeGroupMember};
use crate::line_tags::{contains_str, string_set};
use crate::source_text::{extract_var_names, variable_names};
use crate::text::{decimal, decimal_string, push_char, str_eq, string_from_chars};

verus! {

/// What the compiler reads of a node to find node groups.
#[derive(Debug)]
pub struct NodeEntry {
    /// The file the node is in.
    pub file_name: String,
    /// The node's title.
    pub title: String,
    /// The values of the node's `when:` headers.
    pub when_expressions: Vec<String>,
    /// The value of the node's `subtitle:` header, if it has one.
    pub subtitle: Option<String>,
    /// The line the node starts on.
    pub start_line: isize,
}

/// The unique names that the members of a group get in one file, in order.
#[derive(Debug)]
pub struct NameOverride {
    /// The file.
    pub file_name: String,
    /// The group's title.
    pub title: String,
    /// The unique names of the group's members in that file, in document order.
    pub unique_names: Vec<String>,
}

/// The decimal representation of `v`, with a `-` before it where it is negative.
pub open spec fn signed_decimal(v: int) -> Seq<char> {
    if v < 0 {
        seq!['-'] + decimal((-v) as nat)
    } else {
        decimal(v as nat)
    }
}

/// The checksum `c` in hexadecimal, its least significant byte first, two lower-case
/// digits per byte.
pub open spec fn checksum_hex(c: u32) -> Seq<char> {
    hex_digits(c as nat % 256, 2) + hex_digits((c as nat / 256) % 256, 2) + hex_digits((c as nat / 65536) % 256, 2)
        + hex_digits(c as nat / 16777216, 2)
}

/// The unique name of a group member: its title, `.` and its subtitle where it has a
/// non-empty one; otherwise its title, `.` and the checksum of its file name, title
/// and start line.
pub open spec fn unique_name_of(file_name: Seq<char>, title: Seq<char>, subtitle: Option<Seq<char>>, start_line: int) -> Seq<
    char,
> {
    match subtitle {
        Some(sub) if sub.len() > 0 => title + seq!['.'] + sub,
        _ => title + seq!['.'] + checksum_hex(crc32_of_text(file_name + title + signed_decimal(start_line))),
    }
}

/// The unique name of the member that the entry `e` describes.
pub open spec fn entry_unique_name(e: NodeEntry) -> Seq<char> {
    unique_name_of(
        e.file_name@,
        e.title@,
        match e.subtitle {
            Some(s) => Some(s@),
            None => None,
        },
        e.start_line as int,
    )
}

/// Whether `t` is the title of a node group: some node has it, and every node that
/// has it has a `when:` header.
pub open spec fn is_group_title(e: Seq<NodeEntry>, t: Seq<char>) -> bool {
    &&& exists|i: int| 0 <= i < e.len() && #[trigger] e[i].title@ == t
    &&& forall|i: int| 0 <= i < e.len() && #[trigger] e[i].title@ == t ==> e[i].when_expressions@.len() > 0
}

/// The member that the entry `e` describes: its unique name and its `when:` header
/// values (`always` where it has none).
pub open spec fn entry_member(e: NodeEntry) -> (Seq<char>, Seq<Seq<char>>) {
    (
        entry_unique_name(e),
        if e.when_expressions@.len() == 0 {
            seq!["always"@]
        } else {
            strings_view(e.when_expressions@)
        },
    )
}

/// The members among the first `n` entries whose title is `t`, in order.
pub open spec fn members_titled(e: Seq<NodeEntry>, t: Seq<char>, n: int) -> Seq<(Seq<char>, Seq<Seq<char>>)>
    decreases n,
{
    if n <= 0 {
        Seq::empty()
    } else if e[n - 1].title@ == t {
        members_titled(e, t, n - 1).push(entry_member(e[n - 1]))
    } else {
        members_titled(e, t, n - 1)
    }
}

/// Whether entry `i` is the first with its title.
pub open spec fn first_of_title(e: Seq<NodeEntry>, i: int) -> bool {
    forall|j: int| 0 <= j < i ==> #[trigger] e[j].title@ != e[i].title@
}

/// The group titles among the first `n` entries, each where it first occurs.
pub open spec fn group_titles(e: Seq<NodeEntry>, n: int) -> Seq<Seq<char>>
    decreases n,
{
    if n <= 0 {
        Seq::empty()
    } else if first_of_title(e, n - 1) && is_group_title(e, e[n - 1].title@) {
        group_titles(e, n - 1).push(e[n - 1].title@)
    } else {
        group_titles(e, n - 1)
    }
}

/// The unique names of the entries among the first `n` in the file `f` with title `t`.
pub open spec fn names_in_file(e: Seq<NodeEntry>, f: Seq<char>, t: Seq<char>, n: int) -> Seq<Seq<char>>
    decreases n,
{
    if n <= 0 {
        Seq::empty()
    } else if e[n - 1].file_name@ == f && e[n - 1].title@ == t {
        names_in_file(e, f, t, n - 1).push(entry_unique_name(e[n - 1]))
    } else {
        names_in_file(e, f, t, n - 1)
    }
}

/// Whether entry `i` is the first with its file and title.
pub open spec fn first_of_file_title(e: Seq<NodeEntry>, i: int) -> bool {
    forall|j: int| 0 <= j < i ==> !(#[trigger] e[j].file_name@ == e[i].file_name@ && e[j].title@ == e[i].title@)
}

/// The (file, title) pairs of group members among the first `n` entries, each where
/// it first occurs.
pub open spec fn override_keys(e: Seq<NodeEntry>, n: int) -> Seq<(Seq<char>, Seq<char>)>
    decreases n,
{
    if n <= 0 {
        Seq::empty()
    } else if first_of_file_title(e, n - 1) && is_group_title(e, e[n - 1].title@) {
        override_keys(e, n - 1).push((e[n - 1].file_name@, e[n - 1].title@))
    } else {
        override_keys(e, n - 1)
    }
}

fn signed_decimal_string(v: isize) -> (r: String)
    ensures
        r@ == signed_decimal(v as int),
{
    if v < 0 {
        let m: u64 = (0i128 - v as i128) as u64;
        let d = decimal_string(m);
        let mut s = String::new();
        push_char(&mut s, '-');
        s.append(d.as_str());
        assert(s@ =~= seq!['-'] + decimal((-(v as int)) as nat));
        s
    } else {
        decimal_string(v as u64)
    }
}

/// The unique name of a group member (see [`unique_name_of`]).
pub fn get_node_unique_name(source_file_name: &str, title: &str, subtitle: Option<&str>, start_line: isize) -> (r: String)
    ensures
        r@ == unique_name_of(
            source_file_name@,
            title@,
            match subtitle {
                Some(s) => Some(s@),
                None => None,
            },
            start_line as int,
        ),
{
    let mut name = String::from_str(title);
    push_char(&mut name, '.');
    match subtitle {
        Some(sub) => {
            if sub.unicode_len() > 0 {
                name.append(sub);
                return name;
            }
        },
        None => {},
    }
    let mut description = String::from_str(source_file_name);
    description.append(title);
    let line = signed_decimal_string(start_line);
    description.append(line.as_str());
    let c = crc32_text(description.as_str());
    let mut digits: Vec<char> = Vec::new();
    push_hex_digits(&mut digits, (c % 256) as usize, 2);
    push_hex_digits(&mut digits, ((c / 256) % 256) as usize, 2);
    push_hex_digits(&mut digits, ((c / 65536) % 256) as usize, 2);
    push_hex_digits(&mut digits, (c / 16777216) as usize, 2);
    let hex = string_from_chars(&digits);
    name.append(hex.as_str());
    name
}

fn copy_strings(v: &Vec<String>) -> (r: Vec<String>)
    ensures
        strings_view(r@) == strings_view(v@),
{
    let mut out: Vec<String> = Vec::new();
    let mut i: usize = 0;
    while i < v.len()
        invariant
            i <= v@.len(),
            strings_view(out@) == strings_view(v@).subrange(0, i as int),
        decreases v@.len() - i,
    {
        let c = v[i].clone();
        assert(c@ == v@[i as int]@);
        let ghost before = out@;
        out.push(c);
        assert(strings_view(out@) =~= strings_view(before).push(c@));
        assert(strings_view(v@).subrange(0, i + 1) =~= strings_view(v@).subrange(0, i as int).push(v@[i as int]@));
        i = i + 1;
    }
    assert(strings_view(v@).subrange(0, v@.len() as int) =~= strings_view(v@));
    out
}

fn member_of_entry(e: &NodeEntry) -> (r: NodeGroupMember)
    ensures
        (r.unique_name@, strings_view(r.when_expressions@)) == entry_member(*e),
{
    let sub: Option<&str> = match &e.subtitle {
        Some(s) => Some(s.as_str()),
        None => None,
    };
    let unique_name = get_node_unique_name(e.file_name.as_str(), e.title.as_str(), sub, e.start_line);
    let when_expressions = if e.when_expressions.len() == 0 {
        let mut v: Vec<String> = Vec::new();
        v.push(String::from_str("always"));
        assert(strings_view(v@) =~= seq!["always"@]);
        v
    } else {
        copy_strings(&e.when_expressions)
    };
    NodeGroupMember { unique_name, when_expressions }
}

/// Whether `t` is a group title of the entries.
fn group_title_check(entries: &Vec<NodeEntry>, t: &str) -> (r: bool)
    ensures
        r == is_group_title(entries@, t@),
{
    let mut found = false;
    let mut i: usize = 0;
    while i < entries.len()
        invariant
            i <= entries@.len(),
            found == exists|j: int| 0 <= j < i && #[trigger] entries@[j].title@ == t@,
            forall|j: int| 0 <= j < i && #[trigger] entries@[j].title@ == t@ ==> entries@[j].when_expressions@.len() > 0,
        decreases entries@.len() - i,
    {
        if str_eq(entries[i].title.as_str(), t) {
            if entries[i].when_expressions.len() == 0 {
                assert(!is_group_title(entries@, t@));
                return false;
            }
            found = true;
        }
        i = i + 1;
    }
    found
}

/// Whether some entry before `i` has the title of entry `i`.
fn seen_title(entries: &Vec<NodeEntry>, i: usize) -> (r: bool)
    requires
        i < entries@.len(),
    ensures
        r == !first_of_title(entries@, i as int),
{
    let mut j: usize = 0;
    while j < i
        invariant
            j <= i < entries@.len(),
            forall|k: int| 0 <= k < j ==> #[trigger] entries@[k].title@ != entries@[i as int].title@,
        decreases i - j,
    {
        if str_eq(entries[j].title.as_str(), entries[i].title.as_str()) {
            return true;
        }
        j = j + 1;
    }
    false
}

/// Whether some entry before `i` has the file and title of entry `i`.
fn seen_file_title(entries: &Vec<NodeEntry>, i: usize) -> (r: bool)
    requires
        i < entries@.len(),
    ensures
        r == !first_of_file_title(entries@, i as int),
{
    let mut j: usize = 0;
    while j < i
        invariant
            j <= i < entries@.len(),
            forall|k: int|
                0 <= k < j ==> !(#[trigger] entries@[k].file_name@ == entries@[i as int].file_name@ && entries@[k].title@
                    == entries@[i as int].title@),
        decreases i - j,
    {
        if str_eq(entries[j].file_name.as_str(), entries[i].file_name.as_str()) && str_eq(
            entries[j].title.as_str(),
            entries[i].title.as_str(),
        ) {
            return true;
        }
        j = j + 1;
    }
    false
}

fn members_with_title(entries: &Vec<NodeEntry>, t: &str) -> (r: Vec<NodeGroupMember>)
    ensures
        crate::node_groups::members_view(r@) == members_titled(entries@, t@, entries@.len() as int),
{
    let mut out: Vec<NodeGroupMember> = Vec::new();
    let mut i: usize = 0;
    while i < entries.len()
        invariant
            i <= entries@.len(),
            crate::node_groups::members_view(out@) == members_titled(entries@, t@, i as int),
        decreases entries@.len() - i,
    {
        if str_eq(entries[i].title.as_str(), t) {
            let m = member_of_entry(&entries[i]);
            out.push(m);
            assert(crate::node_groups::members_view(out@) =~= members_titled(entries@, t@, i + 1));
        }
        i = i + 1;
    }
    out
}

fn names_with_file_title(entries: &Vec<NodeEntry>, f: &str, t: &str) -> (r: Vec<String>)
    ensures
        strings_view(r@) == names_in_file(entries@, f@, t@, entries@.len() as int),
{
    let mut out: Vec<String> = Vec::new();
    let mut i: usize = 0;
    while i < entries.len()
        invariant
            i <= entries@.len(),
            strings_view(out@) == names_in_file(entries@, f@, t@, i as int),
        decreases entries@.len() - i,
    {
        if str_eq(entries[i].file_name.as_str(), f) && str_eq(entries[i].title.as_str(), t) {
            let m = member_of_entry(&entries[i]);
            out.push(m.unique_name);
            assert(strings_view(out@) =~= names_in_file(entries@, f@, t@, i + 1));
        }
        i = i + 1;
    }
    out
}

/// Finds the node groups among the nodes `entries` (in document order): a title forms
/// a group where every node that has it has a `when:` header. The groups come in the
/// order their titles first occur, each with its members in document order; the
/// overrides list, for each file and group title in the order they first occur, the
/// unique names of the group's members in that file.
pub fn find_node_groups(entries: &Vec<NodeEntry>) -> (r: (Vec<NodeGroup>, Vec<NameOverride>))
    ensures
        r.0@.len() == group_titles(entries@, entries@.len() as int).len(),
        forall|k: int|
            0 <= k < r.0@.len() ==> (#[trigger] r.0@[k]).title@ == group_titles(entries@, entries@.len() as int)[k]
                && crate::node_groups::members_view(r.0@[k].members@) == members_titled(
                entries@,
                r.0@[k].title@,
                entries@.len() as int,
            ),
        r.1@.len() == override_keys(entries@, entries@.len() as int).len(),
        forall|k: int|
            0 <= k < r.1@.len() ==> ((#[trigger] r.1@[k]).file_name@, r.1@[k].title@) == override_keys(
                entries@,
                entries@.len() as int,
            )[k] && strings_view(r.1@[k].unique_names@) == names_in_file(
                entries@,
                r.1@[k].file_name@,
                r.1@[k].title@,
                entries@.len() as int,
            ),
{
    let mut groups: Vec<NodeGroup> = Vec::new();
    let mut overrides: Vec<NameOverride> = Vec::new();
    let ghost e = entries@;
    let ghost n = entries@.len() as int;
    let mut i: usize = 0;
    while i < entries.len()
        invariant
            i <= entries@.len(),
            e == entries@,
            n == e.len(),
            groups@.len() == group_titles(e, i as int).len(),
            forall|k: int|
                0 <= k < groups@.len() ==> (#[trigger] groups@[k]).title@ == group_titles(e, i as int)[k]
                    && crate::node_groups::members_view(groups@[k].members@) == members_titled(e, groups@[k].title@, n),
            overrides@.len() == override_keys(e, i as int).len(),
            forall|k: int|
                0 <= k < overrides@.len() ==> ((#[trigger] overrides@[k]).file_name@, overrides@[k].title@)
                    == override_keys(e, i as int)[k] && strings_view(overrides@[k].unique_names@) == names_in_file(
                    e,
                    overrides@[k].file_name@,
                    overrides@[k].title@,
                    n,
                ),
        decreases entries@.len() - i,
    {
        let entry = &entries[i];
        let is_group = group_title_check(entries, entry.title.as_str());
        let ghost gt = group_titles(e, i as int);
        let ghost ok = override_keys(e, i as int);
        if is_group && !seen_title(entries, i) {
            let members = members_with_title(entries, entry.title.as_str());
            groups.push(NodeGroup { title: entry.title.clone(), members });
            assert(group_titles(e, i + 1) == gt.push(e[i as int].title@));
        } else {
            assert(group_titles(e, i + 1) == gt);
        }
        if is_group && !seen_file_title(entries, i) {
            let names = names_with_file_title(entries, entry.file_name.as_str(), entry.title.as_str());
            overrides.push(
                NameOverride { file_name: entry.file_name.clone(), title: entry.title.clone(), unique_names: names },
            );
            assert(override_keys(e, i + 1) == ok.push((e[i as int].file_name@, e[i as int].title@)));
        } else {
            assert(override_keys(e, i + 1) == ok);
        }
        i = i + 1;
    }
    (groups, overrides)
}


/// Whether the variable `v` occurs in a `when:` header value of a member of one of
/// the groups.
pub open spec fn occurs_in_groups(groups: Seq<NodeGroup>, v: Seq<char>) -> bool {
    exists|g: int, m: int, h: int|
        0 <= g < groups.len() && 0 <= m < groups[g].members@.len() && 0 <= h
            < groups[g].members@[m].when_expressions@.len() && variable_names(
            #[trigger] groups[g].members@[m].when_expressions@[h]@,
            0,
        ).contains(v)
}

/// The variables that the `when:` header values of the groups use and that are not
/// among `existing`: each once, in the order they first occur. Each is declared
/// implicitly, as a boolean that starts out false.
pub fn declare_when_expression_variables(groups: &Vec<NodeGroup>, existing: &Vec<String>) -> (r: Vec<String>)
    ensures
        forall|a: int, b: int| 0 <= a < b < r@.len() ==> r@[a]@ != r@[b]@,
        forall|v: Seq<char>|
            #![trigger crate::line_tags::string_set(r@).contains(v)]
            crate::line_tags::string_set(r@).contains(v) <==> occurs_in_groups(groups@, v)
                && !crate::line_tags::string_set(existing@).contains(v),
{
    let mut out: Vec<String> = Vec::new();
    let mut g: usize = 0;
    while g < groups.len()
        invariant
            g <= groups@.len(),
            forall|a: int, b: int| 0 <= a < b < out@.len() ==> out@[a]@ != out@[b]@,
            forall|v: Seq<char>|
                #![trigger crate::line_tags::string_set(out@).contains(v)]
                crate::line_tags::string_set(out@).contains(v) <==> occurs_before(groups@, v, g as int, 0, 0)
                    && !crate::line_tags::string_set(existing@).contains(v),
        decreases groups@.len() - g,
    {
        let members = &groups[g].members;
        let mut m: usize = 0;
        while m < members.len()
            invariant
                g < groups@.len(),
                members == groups@[g as int].members,
                m <= members@.len(),
                forall|a: int, b: int| 0 <= a < b < out@.len() ==> out@[a]@ != out@[b]@,
                forall|v: Seq<char>|
                    #![trigger crate::line_tags::string_set(out@).contains(v)]
                    crate::line_tags::string_set(out@).contains(v) <==> occurs_before(groups@, v, g as int, m as int, 0)
                        && !crate::line_tags::string_set(existing@).contains(v),
            decreases members@.len() - m,
        {
            let exprs = &members[m].when_expressions;
            let mut h: usize = 0;
            while h < exprs.len()
                invariant
                    g < groups@.len(),
                    members == groups@[g as int].members,
                    m < members@.len(),
                    exprs == members@[m as int].when_expressions,
                    h <= exprs@.len(),
                    forall|a: int, b: int| 0 <= a < b < out@.len() ==> out@[a]@ != out@[b]@,
                    forall|v: Seq<char>|
                        #![trigger crate::line_tags::string_set(out@).contains(v)]
                        crate::line_tags::string_set(out@).contains(v) <==> occurs_before(
                            groups@,
                            v,
                            g as int,
                            m as int,
                            h as int,
                        ) && !crate::line_tags::string_set(existing@).contains(v),
                decreases exprs@.len() - h,
            {
                let names = extract_var_names(exprs[h].as_str());
                assert(strings_view(names@) =~= names@.map_values(|x: String| x@));
                let mut k: usize = 0;
                while k < names.len()
                    invariant
                        g < groups@.len(),
                        members == groups@[g as int].members,
                        m < members@.len(),
                        exprs == members@[m as int].when_expressions,
                        h < exprs@.len(),
                        strings_view(names@) == variable_names(exprs@[h as int]@, 0),
                        k <= names@.len(),
                        forall|a: int, b: int| 0 <= a < b < out@.len() ==> out@[a]@ != out@[b]@,
                        forall|v: Seq<char>|
                            #![trigger crate::line_tags::string_set(out@).contains(v)]
                            crate::line_tags::string_set(out@).contains(v) <==> (occurs_before(
                                groups@,
                                v,
                                g as int,
                                m as int,
                                h as int,
                            ) || strings_view(names@).subrange(0, k as int).contains(v))
                                && !crate::line_tags::string_set(existing@).contains(v),
                    decreases names@.len() - k,
                {
                    let name = &names[k];
                    let known = crate::line_tags::contains_str(existing, name.as_str());
                    let seen = crate::line_tags::contains_str(&out, name.as_str());
                    let ghost before = out@;
                    if !known && !seen {
                        out.push(name.clone());
                        proof {
                            crate::line_tags::lemma_string_set_push(before, *name);
                        }
                    }
                    proof {
                        let sv = strings_view(names@);
                        let s1 = sv.subrange(0, k + 1);
                        let s0 = sv.subrange(0, k as int);
                        assert(s1 =~= s0.push(name@));
                        assert(sv[k as int] == name@);
                        assert forall|v: Seq<char>|
                            #![trigger crate::line_tags::string_set(out@).contains(v)]
                            crate::line_tags::string_set(out@).contains(v) <==> (occurs_before(
                                groups@,
                                v,
                                g as int,
                                m as int,
                                h as int,
                            ) || s1.contains(v)) && !crate::line_tags::string_set(existing@).contains(v) by {
                            if s1.contains(v) && !s0.contains(v) {
                                let w = choose|w: int| 0 <= w < s1.len() && s1[w] == v;
                                if w < s0.len() {
                                    assert(s0[w] == v);
                                }
                                assert(v == name@);
                            }
                            if s0.contains(v) {
                                let w = choose|w: int| 0 <= w < s0.len() && s0[w] == v;
                                assert(s1[w] == v);
                            }
                            if v == name@ {
                                assert(s1[s0.len() as int] == v);
                            }
                        }
                        if !known && !seen {
                            assert forall|a: int, b: int| 0 <= a < b < out@.len() implies out@[a]@ != out@[b]@ by {
                                if b == out@.len() - 1 {
                                    assert(crate::line_tags::string_set(before).contains(out@[a]@));
                                }
                            }
                        }
                    }
                    k = k + 1;
                }
                proof {
                    assert(strings_view(names@).subrange(0, names@.len() as int) =~= strings_view(names@));
                    assert forall|v: Seq<char>|
                        #![trigger crate::line_tags::string_set(out@).contains(v)]
                        crate::line_tags::string_set(out@).contains(v) <==> occurs_before(
                            groups@,
                            v,
                            g as int,
                            m as int,
                            h + 1,
                        ) && !crate::line_tags::string_set(existing@).contains(v) by {
                        lemma_occurs_step_expr(groups@, v, g as int, m as int, h as int);
                    }
                }
                h = h + 1;
            }
            proof {
                assert forall|v: Seq<char>|
                    #![trigger crate::line_tags::string_set(out@).contains(v)]
                    crate::line_tags::string_set(out@).contains(v) <==> occurs_before(groups@, v, g as int, m + 1, 0)
                        && !crate::line_tags::string_set(existing@).contains(v) by {
                    lemma_occurs_step_member(groups@, v, g as int, m as int);
                }
            }
            m = m + 1;
        }
        proof {
            assert forall|v: Seq<char>|
                #![trigger crate::line_tags::string_set(out@).contains(v)]
                crate::line_tags::string_set(out@).contains(v) <==> occurs_before(groups@, v, g + 1, 0, 0)
                    && !crate::line_tags::string_set(existing@).contains(v) by {
                lemma_occurs_step_group(groups@, v, g as int);
            }
        }
        g = g + 1;
    }
    proof {
        assert forall|v: Seq<char>|
            #![trigger crate::line_tags::string_set(out@).contains(v)]
            crate::line_tags::string_set(out@).contains(v) <==> occurs_in_groups(groups@, v)
                && !crate::line_tags::string_set(existing@).contains(v) by {
            lemma_occurs_all(groups@, v);
        }
    }
    out
}

/// Whether `v` occurs in a header value before value `h` of member `m` of group `g`,
/// in the order groups, members and values come.
pub open spec fn occurs_before(groups: Seq<NodeGroup>, v: Seq<char>, g: int, m: int, h: int) -> bool {
    exists|gi: int, mi: int, hi: int|
        0 <= gi < groups.len() && 0 <= mi < groups[gi].members@.len() && 0 <= hi
            < groups[gi].members@[mi].when_expressions@.len() && (gi < g || (gi == g && (mi < m || (mi == m && hi < h))))
            && variable_names(#[trigger] groups[gi].members@[mi].when_expressions@[hi]@, 0).contains(v)
}

proof fn lemma_occurs_step_expr(groups: Seq<NodeGroup>, v: Seq<char>, g: int, m: int, h: int)
    requires
        0 <= g < groups.len(),
        0 <= m < groups[g].members@.len(),
        0 <= h < groups[g].members@[m].when_expressions@.len(),
    ensures
        occurs_before(groups, v, g, m, h + 1) <==> occurs_before(groups, v, g, m, h) || variable_names(
            groups[g].members@[m].when_expressions@[h]@,
            0,
        ).contains(v),
{
    if variable_names(groups[g].members@[m].when_expressions@[h]@, 0).contains(v) {
        assert(0 <= g < groups.len() && 0 <= m < groups[g].members@.len() && 0 <= h
            < groups[g].members@[m].when_expressions@.len() && variable_names(
            groups[g].members@[m].when_expressions@[h]@,
            0,
        ).contains(v));
    }
    if occurs_before(groups, v, g, m, h + 1) {
        let (gi, mi, hi) = choose|gi: int, mi: int, hi: int|
            0 <= gi < groups.len() && 0 <= mi < groups[gi].members@.len() && 0 <= hi
                < groups[gi].members@[mi].when_expressions@.len() && (gi < g || (gi == g && (mi < m || (mi == m && hi
                < h + 1)))) && variable_names(#[trigger] groups[gi].members@[mi].when_expressions@[hi]@, 0).contains(v);
        if !(gi == g && mi == m && hi == h) {
            assert(occurs_before(groups, v, g, m, h));
        }
    }
}

proof fn lemma_occurs_step_member(groups: Seq<NodeGroup>, v: Seq<char>, g: int, m: int)
    requires
        0 <= g < groups.len(),
        0 <= m < groups[g].members@.len(),
    ensures
        occurs_before(groups, v, g, m + 1, 0) <==> occurs_before(
            groups,
            v,
            g,
            m,
            groups[g].members@[m].when_expressions@.len() as int,
        ),
{
    let n = groups[g].members@[m].when_expressions@.len() as int;
    if occurs_before(groups, v, g, m + 1, 0) {
        let (gi, mi, hi) = choose|gi: int, mi: int, hi: int|
            0 <= gi < groups.len() && 0 <= mi < groups[gi].members@.len() && 0 <= hi
                < groups[gi].members@[mi].when_expressions@.len() && (gi < g || (gi == g && (mi < m + 1 || (mi == m + 1
                && hi < 0)))) && variable_names(#[trigger] groups[gi].members@[mi].when_expressions@[hi]@, 0).contains(v);
        assert(occurs_before(groups, v, g, m, n));
    }
    if occurs_before(groups, v, g, m, n) {
        let (gi, mi, hi) = choose|gi: int, mi: int, hi: int|
            0 <= gi < groups.len() && 0 <= mi < groups[gi].members@.len() && 0 <= hi
                < groups[gi].members@[mi].when_expressions@.len() && (gi < g || (gi == g && (mi < m || (mi == m && hi
                < n)))) && variable_names(#[trigger] groups[gi].members@[mi].when_expressions@[hi]@, 0).contains(v);
        assert(occurs_before(groups, v, g, m + 1, 0));
    }
}

proof fn lemma_occurs_step_group(groups: Seq<NodeGroup>, v: Seq<char>, g: int)
    requires
        0 <= g < groups.len(),
    ensures
        occurs_before(groups, v, g + 1, 0, 0) <==> occurs_before(groups, v, g, groups[g].members@.len() as int, 0),
{
    let n = groups[g].members@.len() as int;
    if occurs_before(groups, v, g + 1, 0, 0) {
        let (gi, mi, hi) = choose|gi: int, mi: int, hi: int|
            0 <= gi < groups.len() && 0 <= mi < groups[gi].members@.len() && 0 <= hi
                < groups[gi].members@[mi].when_expressions@.len() && (gi < g + 1 || (gi == g + 1 && (mi < 0 || (mi == 0
                && hi < 0)))) && variable_names(#[trigger] groups[gi].members@[mi].when_expressions@[hi]@, 0).contains(v);
        assert(occurs_before(groups, v, g, n, 0));
    }
    if occurs_before(groups, v, g, n, 0) {
        let (gi, mi, hi) = choose|gi: int, mi: int, hi: int|
            0 <= gi < groups.len() && 0 <= mi < groups[gi].members@.len() && 0 <= hi
                < groups[gi].members@[mi].when_expressions@.len() && (gi < g || (gi == g && (mi < n || (mi == n && hi
                < 0)))) && variable_names(#[trigger] groups[gi].members@[mi].when_expressions@[hi]@, 0).contains(v);
        assert(occurs_before(groups, v, g + 1, 0, 0));
    }
}

proof fn lemma_occurs_all(groups: Seq<NodeGroup>, v: Seq<char>)
    ensures
        occurs_before(groups, v, groups.len() as int, 0, 0) <==> occurs_in_groups(groups, v),
{
    if occurs_in_groups(groups, v) {
        let (gi, mi, hi) = choose|gi: int, mi: int, hi: int|
            0 <= gi < groups.len() && 0 <= mi < groups[gi].members@.len() && 0 <= hi
                < groups[gi].members@[mi].when_expressions@.len() && variable_names(
                #[trigger] groups[gi].members@[mi].when_expressions@[hi]@,
                0,
            ).contains(v);
        assert(occurs_before(groups, v, groups.len() as int, 0, 0));
    }
}


// ---------------------------------------------------------------------------
// Tracked nodes
// ---------------------------------------------------------------------------

/// Whether the strings of `v` are pairwise distinct.
pub open spec fn distinct_strings(v: Seq<String>) -> bool {
    forall|a: int, b: int| 0 <= a < b < v.len() ==> v[a]@ != v[b]@
}

/// The unique names of the members of `g`.
pub open spec fn member_names(g: NodeGroup) -> Set<Seq<char>> {
    Set::new(|n: Seq<char>| exists|m: int| 0 <= m < g.members@.len() && #[trigger] g.members@[m].unique_name@ == n)
}

/// The tracked nodes after taking the group `g` into account: where its title is
/// tracked, so are all its members; where one of its members is, so is its title.
pub open spec fn expand_group(r: Set<Seq<char>>, g: NodeGroup) -> Set<Seq<char>> {
    let r1 = if r.contains(g.title@) {
        r.union(member_names(g))
    } else {
        r
    };
    if exists|m: int| 0 <= m < g.members@.len() && r1.contains(#[trigger] g.members@[m].unique_name@) {
        r1.insert(g.title@)
    } else {
        r1
    }
}

/// The tracked nodes: those the visitors found tracked and not ignored, expanded by
/// the first `n` groups in turn.
pub open spec fn tracked_set(tracking: Seq<String>, ignoring: Seq<String>, groups: Seq<NodeGroup>, n: int) -> Set<Seq<char>>
    decreases n,
{
    if n <= 0 {
        string_set(tracking).difference(string_set(ignoring))
    } else {
        expand_group(tracked_set(tracking, ignoring, groups, n - 1), groups[n - 1])
    }
}

fn add_name(out: &mut Vec<String>, name: &String)
    requires
        distinct_strings(old(out)@),
    ensures
        distinct_strings(final(out)@),
        string_set(final(out)@) == string_set(old(out)@).insert(name@),
{
    if !contains_str(out, name.as_str()) {
        let ghost before = out@;
        let c = name.clone();
        out.push(c);
        proof {
            crate::line_tags::lemma_string_set_push(before, c);
            assert forall|a: int, b: int| 0 <= a < b < out@.len() implies out@[a]@ != out@[b]@ by {
                if b == out@.len() - 1 {
                    assert(string_set(before).contains(out@[a]@));
                }
            }
        }
    } else {
        assert(string_set(out@).insert(name@) =~= string_set(out@));
    }
}

/// The nodes whose visits are counted: those found tracked and not found ignored;
/// then, group by group, every member of a group whose title is tracked, and the
/// title of a group one of whose members is tracked. Each comes once.
pub fn find_tracking_nodes(tracking: &Vec<String>, ignoring: &Vec<String>, groups: &Vec<NodeGroup>) -> (r: Vec<String>)
    ensures
        distinct_strings(r@),
        string_set(r@) == tracked_set(tracking@, ignoring@, groups@, groups@.len() as int),
{
    let mut out: Vec<String> = Vec::new();
    let mut i: usize = 0;
    assert(string_set(out@) =~= Set::<Seq<char>>::empty());
    while i < tracking.len()
        invariant
            i <= tracking@.len(),
            distinct_strings(out@),
            string_set(out@) == string_set(tracking@.subrange(0, i as int)).difference(string_set(ignoring@)),
        decreases tracking@.len() - i,
    {
        let ghost before = string_set(out@);
        if !contains_str(ignoring, tracking[i].as_str()) {
            add_name(&mut out, &tracking[i]);
        }
        proof {
            crate::line_tags::lemma_string_set_push(tracking@.subrange(0, i as int), tracking@[i as int]);
            assert(tracking@.subrange(0, i + 1) =~= tracking@.subrange(0, i as int).push(tracking@[i as int]));
            assert(string_set(out@) =~= string_set(tracking@.subrange(0, i + 1)).difference(string_set(ignoring@)));
        }
        i = i + 1;
    }
    assert(tracking@.subrange(0, tracking@.len() as int) =~= tracking@);
    let mut g: usize = 0;
    while g < groups.len()
        invariant
            g <= groups@.len(),
            distinct_strings(out@),
            string_set(out@) == tracked_set(tracking@, ignoring@, groups@, g as int),
        decreases groups@.len() - g,
    {
        let group = &groups[g];
        let ghost r0 = string_set(out@);
        if contains_str(&out, group.title.as_str()) {
            let mut m: usize = 0;
            while m < group.members.len()
                invariant
                    m <= group.members@.len(),
                    distinct_strings(out@),
                    string_set(out@) == r0.union(
                        Set::new(
                            |n: Seq<char>|
                                exists|k: int| 0 <= k < m && #[trigger] group.members@[k].unique_name@ == n,
                        ),
                    ),
                decreases group.members@.len() - m,
            {
                add_name(&mut out, &group.members[m].unique_name);
                proof {
                    let prev = Set::new(
                        |n: Seq<char>| exists|k: int| 0 <= k < m && #[trigger] group.members@[k].unique_name@ == n,
                    );
                    let next = Set::new(
                        |n: Seq<char>| exists|k: int| 0 <= k < m + 1 && #[trigger] group.members@[k].unique_name@ == n,
                    );
                    assert(next =~= prev.insert(group.members@[m as int].unique_name@));
                    assert(string_set(out@) =~= r0.union(next));
                }
                m = m + 1;
            }
            assert(string_set(out@) =~= r0.union(member_names(*group)));
        } else {
            assert(string_set(out@) =~= r0);
        }
        let ghost r1 = string_set(out@);
        let mut found = false;
        let mut m: usize = 0;
        while m < group.members.len()
            invariant
                m <= group.members@.len(),
                string_set(out@) == r1,
                found == exists|k: int| 0 <= k < m && r1.contains(#[trigger] group.members@[k].unique_name@),
            decreases group.members@.len() - m,
        {
            if contains_str(&out, group.members[m].unique_name.as_str()) {
                found = true;
            }
            m = m + 1;
        }
        if found {
            add_name(&mut out, &group.title);
        }
        proof {
            let r = tracked_set(tracking@, ignoring@, groups@, g as int);
            assert(r == r0);
            assert(groups@[g as int] == *group);
            assert(string_set(out@) =~= expand_group(r0, *group));
        }
        g = g + 1;
    }
    out
}

} // verus!
