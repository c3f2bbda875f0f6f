//! The dependencies between smart variables: which smart variables reference
//! themselves through a chain of others (an error), and which variables each smart
//! variable depends on, directly or through other smart variables.
use vstd::prelude::*;

use crate::diagnostics::{diagnostics_view, report, Diagnostic, DiagnosticSeverity, DiagnosticView};
use crate::line_tags::{contains_str, lemma_string_set_push, push_str_chars, string_set};

verus! {

/// A smart variable's declaration: its name, the variables its expression
/// references (itself excluded), and the file it is declared in.
#[derive(Debug)]
pub struct DeclaredSmartVariable {
    /// The variable's name.
    pub name: String,
    /// The variables its expression references.
    pub references: Vec<String>,
    /// The file it is declared in.
    pub file_name: String,
}

/// The index of the last declaration of `v` among the first `k`.
pub open spec fn entry_below(entries: Seq<DeclaredSmartVariable>, v: Seq<char>, k: int) -> Option<int>
    decreases k,
{
    if k <= 0 || k > entries.len() {
        None
    } else if entries[k - 1].name@ == v {
        Some(k - 1)
    } else {
        entry_below(entries, v, k - 1)
    }
}

/// The index of the last declaration of `v`: the one that counts.
pub open spec fn entry_index(entries: Seq<DeclaredSmartVariable>, v: Seq<char>) -> Option<int> {
    entry_below(entries, v, entries.len() as int)
}

/// Whether the references of `x` are followed: `x` is a smart variable with a declaration.
pub open spec fn expands(smart: Seq<String>, entries: Seq<DeclaredSmartVariable>, x: Seq<char>) -> bool {
    string_set(smart).contains(x) && entry_index(entries, x) is Some
}

/// Whether `a` references `b` and the references of `a` are followed.
pub open spec fn step(smart: Seq<String>, entries: Seq<DeclaredSmartVariable>, a: Seq<char>, b: Seq<char>) -> bool {
    expands(smart, entries, a) && string_set(entries[entry_index(entries, a).unwrap()].references@).contains(b)
}

/// Whether the `i`-th name of `p` references the next one.
pub open spec fn link(smart: Seq<String>, entries: Seq<DeclaredSmartVariable>, p: Seq<Seq<char>>, i: int) -> bool {
    step(smart, entries, p[i], p[i + 1])
}

/// Whether `p` is a chain of at least one reference, each followed from a smart variable.
pub open spec fn is_chain(smart: Seq<String>, entries: Seq<DeclaredSmartVariable>, p: Seq<Seq<char>>) -> bool {
    p.len() >= 2 && forall|i: int| 0 <= i < p.len() - 1 ==> #[trigger] link(smart, entries, p, i)
}

/// Whether `b` is reached from `a` through a chain of one or more references.
pub open spec fn reaches(smart: Seq<String>, entries: Seq<DeclaredSmartVariable>, a: Seq<char>, b: Seq<char>) -> bool {
    exists|p: Seq<Seq<char>>| #[trigger] is_chain(smart, entries, p) && p[0] == a && p.last() == b
}

/// The names every declaration references, in order.
pub open spec fn all_references(entries: Seq<DeclaredSmartVariable>) -> Seq<Seq<char>>
    decreases entries.len(),
{
    if entries.len() == 0 {
        Seq::empty()
    } else {
        all_references(entries.drop_last()) + entries.last().references@.map_values(|s: String| s@)
    }
}

proof fn lemma_references_listed(entries: Seq<DeclaredSmartVariable>, k: int, i: int)
    requires
        0 <= k < entries.len(),
        0 <= i < entries[k].references@.len(),
    ensures
        all_references(entries).contains(entries[k].references@[i]@),
    decreases entries.len(),
{
    let refs = entries.last().references@.map_values(|s: String| s@);
    let rest = all_references(entries.drop_last());
    if k == entries.len() - 1 {
        assert((rest + refs)[rest.len() + i] == refs[i]);
    } else {
        lemma_references_listed(entries.drop_last(), k, i);
        let j = choose|j: int| 0 <= j < rest.len() && rest[j] == entries[k].references@[i]@;
        assert((rest + refs)[j] == rest[j]);
    }
}

proof fn lemma_entry_below(entries: Seq<DeclaredSmartVariable>, v: Seq<char>, k: int)
    ensures
        entry_below(entries, v, k) matches Some(i) ==> 0 <= i < k && i < entries.len() && entries[i].name@ == v,
    decreases k,
{
    if 0 < k <= entries.len() && entries[k - 1].name@ != v {
        lemma_entry_below(entries, v, k - 1);
    }
}

/// The index of the declaration of `name` that counts (see [`entry_index`]).
pub fn find_entry(entries: &Vec<DeclaredSmartVariable>, name: &str) -> (r: Option<usize>)
    ensures
        r matches Some(i) ==> entry_index(entries@, name@) == Some(i as int) && i < entries@.len(),
        r is None ==> entry_index(entries@, name@) is None,
{
    let mut k: usize = entries.len();
    while k > 0
        invariant
            k <= entries@.len(),
            entry_index(entries@, name@) == entry_below(entries@, name@, k as int),
        decreases k,
    {
        if crate::text::str_eq(entries[k - 1].name.as_str(), name) {
            return Some(k - 1);
        }
        k = k - 1;
    }
    None
}

/// Whether no two strings hold the same characters.
pub open spec fn distinct_views(v: Seq<String>) -> bool {
    forall|a: int, b: int| 0 <= a < b < v.len() ==> (#[trigger] v[a])@ != (#[trigger] v[b])@
}

proof fn lemma_reaches_extend(
    smart: Seq<String>,
    entries: Seq<DeclaredSmartVariable>,
    a: Seq<char>,
    b: Seq<char>,
    c: Seq<char>,
)
    requires
        reaches(smart, entries, a, b),
        step(smart, entries, b, c),
    ensures
        reaches(smart, entries, a, c),
{
    let p = choose|p: Seq<Seq<char>>| #[trigger] is_chain(smart, entries, p) && p[0] == a && p.last() == b;
    let q = p.push(c);
    assert forall|i: int| 0 <= i < q.len() - 1 implies #[trigger] link(smart, entries, q, i) by {
        if i < p.len() - 1 {
            assert(link(smart, entries, p, i));
            assert(q[i] == p[i] && q[i + 1] == p[i + 1]);
        }
    }
    assert(is_chain(smart, entries, q));
}

proof fn lemma_reaches_first(smart: Seq<String>, entries: Seq<DeclaredSmartVariable>, a: Seq<char>, c: Seq<char>)
    requires
        step(smart, entries, a, c),
    ensures
        reaches(smart, entries, a, c),
{
    let q = seq![a, c];
    assert(link(smart, entries, q, 0));
    assert(is_chain(smart, entries, q));
}

/// Every name of a chain after its start is in `closed`, where `closed` holds what
/// the start references and what every member whose references are followed references.
proof fn lemma_chain_closed(
    smart: Seq<String>,
    entries: Seq<DeclaredSmartVariable>,
    p: Seq<Seq<char>>,
    closed: Set<Seq<char>>,
    i: int,
)
    requires
        is_chain(smart, entries, p),
        1 <= i < p.len(),
        forall|d: Seq<char>| step(smart, entries, p[0], d) ==> #[trigger] closed.contains(d),
        forall|x: Seq<char>, d: Seq<char>| closed.contains(x) && #[trigger] step(smart, entries, x, d) ==> closed.contains(d),
    ensures
        closed.contains(p[i]),
    decreases i,
{
    assert(link(smart, entries, p, i - 1));
    if i > 1 {
        lemma_chain_closed(smart, entries, p, closed, i - 1);
    }
}

fn copy_strings_into(dst: &mut Vec<String>, src: &Vec<String>)
    ensures
        final(dst)@.len() == old(dst)@.len() + src@.len(),
        forall|i: int| 0 <= i < old(dst)@.len() ==> #[trigger] final(dst)@[i] == old(dst)@[i],
        forall|i: int|
            old(dst)@.len() <= i < final(dst)@.len() ==> (#[trigger] final(dst)@[i])@ == src@[i - old(dst)@.len()]@,
{
    let mut i: usize = 0;
    let ghost start = dst@;
    while i < src.len()
        invariant
            i <= src@.len(),
            dst@.len() == start.len() + i,
            forall|j: int| 0 <= j < start.len() ==> #[trigger] dst@[j] == start[j],
            forall|j: int| start.len() <= j < dst@.len() ==> (#[trigger] dst@[j])@ == src@[j - start.len()]@,
        decreases src@.len() - i,
    {
        dst.push(src[i].clone());
        i = i + 1;
    }
}

/// What the smart variable `start` depends on: every name reached from it through
/// chains of references (see [`reaches`]), each once.
pub fn dependency_closure(smart: &Vec<String>, entries: &Vec<DeclaredSmartVariable>, start: &str) -> (r: Vec<String>)
    ensures
        distinct_views(r@),
        forall|x: Seq<char>| #[trigger] string_set(r@).contains(x) <==> reaches(smart@, entries@, start@, x),
{
    let mut result: Vec<String> = Vec::new();
    let mut work: Vec<String> = Vec::new();
    let ghost s = smart@;
    let ghost es = entries@;
    let ghost universe = all_references(es);
    let expands_start = contains_str(smart, start);
    let start_entry = find_entry(entries, start);
    match start_entry {
        Some(k) => {
            if expands_start {
                copy_strings_into(&mut work, &entries[k].references);
            }
        },
        None => {},
    }
    proof {
        assert forall|d: Seq<char>| step(s, es, start@, d) implies #[trigger] string_set(work@).contains(d) by {
            let k = entry_index(es, start@).unwrap();
            let i = choose|i: int| 0 <= i < es[k].references@.len() && (#[trigger] es[k].references@[i])@ == d;
            assert(work@[i]@ == es[k].references@[i]@);
        }
        assert forall|w: int| 0 <= w < work@.len() implies reaches(s, es, start@, (#[trigger] work@[w])@) by {
            let k = entry_index(es, start@).unwrap();
            assert(es[k].references@[w]@ == work@[w]@);
            lemma_reaches_first(s, es, start@, work@[w]@);
        }
    }
    while work.len() > 0
        invariant
            s == smart@,
            es == entries@,
            universe == all_references(es),
            distinct_views(result@),
            forall|j: int| 0 <= j < result@.len() ==> reaches(s, es, start@, (#[trigger] result@[j])@),
            forall|j: int| 0 <= j < result@.len() ==> universe.contains((#[trigger] result@[j])@),
            forall|w: int| 0 <= w < work@.len() ==> reaches(s, es, start@, (#[trigger] work@[w])@),
            forall|d: Seq<char>|
                step(s, es, start@, d) ==> #[trigger] string_set(result@).contains(d) || string_set(work@).contains(d),
            forall|x: Seq<char>, d: Seq<char>|
                string_set(result@).contains(x) && #[trigger] step(s, es, x, d) ==> string_set(result@).contains(d)
                    || string_set(work@).contains(d),
        decreases universe.len() - result@.len(), work@.len(),
    {
        let ghost before_work = work@;
        let ghost before_result = result@;
        let x = work.pop().unwrap();
        proof {
            assert(before_work == work@.push(x));
            assert forall|k: Seq<char>| string_set(before_work).contains(k) && k != x@ implies #[trigger] string_set(
                work@,
            ).contains(k) by {
                let w = choose|w: int| 0 <= w < before_work.len() && (#[trigger] before_work[w])@ == k;
                assert(w < work@.len());
                assert(work@[w] == before_work[w]);
            }
            assert(reaches(s, es, start@, x@)) by {
                assert(before_work[before_work.len() - 1] == x);
            }
        }
        if contains_str(&result, x.as_str()) {
            proof {
                universe_bound(result@, universe);
                assert forall|d: Seq<char>| step(s, es, start@, d) implies #[trigger] string_set(result@).contains(d)
                    || string_set(work@).contains(d) by {
                    if !string_set(result@).contains(d) {
                        assert(string_set(before_work).contains(d));
                    }
                }
                assert forall|y: Seq<char>, d: Seq<char>|
                    string_set(result@).contains(y) && #[trigger] step(s, es, y, d) implies string_set(result@).contains(d)
                        || string_set(work@).contains(d) by {
                    if !string_set(result@).contains(d) {
                        assert(string_set(before_work).contains(d));
                    }
                }
            }
        } else {
            let ghost k0 = entry_index(es, x@);
            let is_smart = contains_str(smart, x.as_str());
            let entry = find_entry(entries, x.as_str());
            let ghost work_mid = work@;
            match entry {
                Some(k) => {
                    if is_smart {
                        copy_strings_into(&mut work, &entries[k].references);
                    }
                },
                None => {},
            }
            proof {
                // x is referenced by something, so it is among all references
                assert(universe.contains(x@)) by {
                    if step(s, es, start@, x@) {
                        let k = entry_index(es, start@).unwrap();
                        lemma_entry_below(es, start@, es.len() as int);
                        let i = choose|i: int| 0 <= i < es[k].references@.len() && (#[trigger] es[k].references@[i])@ == x@;
                        lemma_references_listed(es, k, i);
                    } else {
                        let p = choose|p: Seq<Seq<char>>| #[trigger] is_chain(s, es, p) && p[0] == start@ && p.last() == x@;
                        assert(link(s, es, p, p.len() - 2));
                        let y = p[p.len() - 2];
                        let k = entry_index(es, y).unwrap();
                        lemma_entry_below(es, y, es.len() as int);
                        let i = choose|i: int| 0 <= i < es[k].references@.len() && (#[trigger] es[k].references@[i])@ == x@;
                        lemma_references_listed(es, k, i);
                    }
                }
                assert forall|w: int| 0 <= w < work@.len() implies reaches(s, es, start@, (#[trigger] work@[w])@) by {
                    if w >= work_mid.len() {
                        let k = entry_index(es, x@).unwrap();
                        lemma_entry_below(es, x@, es.len() as int);
                        assert(es[k].references@[w - work_mid.len()]@ == work@[w]@);
                        assert(step(s, es, x@, work@[w]@));
                        lemma_reaches_extend(s, es, start@, x@, work@[w]@);
                    } else {
                        assert(work@[w] == work_mid[w]);
                    }
                }
                assert forall|d: Seq<char>| step(s, es, x@, d) implies #[trigger] string_set(work@).contains(d) by {
                    let k = entry_index(es, x@).unwrap();
                    let i = choose|i: int| 0 <= i < es[k].references@.len() && (#[trigger] es[k].references@[i])@ == d;
                    assert(work@[work_mid.len() + i]@ == es[k].references@[i]@);
                }
                assert forall|k: Seq<char>| #[trigger] string_set(work_mid).contains(k) implies string_set(work@).contains(
                    k,
                ) by {
                    let w = choose|w: int| 0 <= w < work_mid.len() && (#[trigger] work_mid[w])@ == k;
                    assert(work@[w] == work_mid[w]);
                }
                lemma_string_set_push(result@, x);
            }
            result.push(x);
            proof {
                assert forall|a: int, b: int| 0 <= a < b < result@.len() implies (#[trigger] result@[a])@ != (#[trigger] result@[b])@ by {
                    if b == result@.len() - 1 {
                        assert(string_set(before_result).contains(result@[a]@));
                    } else {
                        assert(result@[a] == before_result[a] && result@[b] == before_result[b]);
                    }
                }
                assert forall|j: int| 0 <= j < result@.len() implies universe.contains((#[trigger] result@[j])@) by {
                    if j < before_result.len() {
                        assert(result@[j] == before_result[j]);
                    }
                }
                assert forall|j: int| 0 <= j < result@.len() implies reaches(s, es, start@, (#[trigger] result@[j])@) by {
                    if j < before_result.len() {
                        assert(result@[j] == before_result[j]);
                    }
                }
                universe_bound(result@, universe);
                assert forall|d: Seq<char>| #[trigger] string_set(before_result).contains(d) implies string_set(
                    result@,
                ).contains(d) by {
                    let j = choose|j: int| 0 <= j < before_result.len() && (#[trigger] before_result[j])@ == d;
                    assert(result@[j] == before_result[j]);
                }
                assert(string_set(result@).contains(x@)) by {
                    assert(result@[before_result.len() as int] == x);
                }
                assert forall|d: Seq<char>| step(s, es, start@, d) implies #[trigger] string_set(result@).contains(d)
                    || string_set(work@).contains(d) by {
                    if !string_set(before_result).contains(d) {
                        assert(string_set(before_work).contains(d));
                        if d != x@ {
                            assert(string_set(work_mid).contains(d));
                        }
                    }
                }
                assert forall|y: Seq<char>, d: Seq<char>|
                    string_set(result@).contains(y) && #[trigger] step(s, es, y, d) implies string_set(result@).contains(d)
                        || string_set(work@).contains(d) by {
                    if y != x@ {
                        assert(string_set(before_result).contains(y)) by {
                            let j = choose|j: int| 0 <= j < result@.len() && (#[trigger] result@[j])@ == y;
                            assert(j < before_result.len());
                            assert(result@[j] == before_result[j]);
                        }
                        if !string_set(before_result).contains(d) {
                            assert(string_set(before_work).contains(d));
                            if d != x@ {
                                assert(string_set(work_mid).contains(d));
                            }
                        }
                    }
                }
            }
        }
    }
    proof {
        assert forall|x: Seq<char>| #[trigger] string_set(result@).contains(x) <==> reaches(s, es, start@, x) by {
            if string_set(result@).contains(x) {
                let j = choose|j: int| 0 <= j < result@.len() && (#[trigger] result@[j])@ == x;
            }
            if reaches(s, es, start@, x) {
                let p = choose|p: Seq<Seq<char>>| #[trigger] is_chain(s, es, p) && p[0] == start@ && p.last() == x;
                lemma_chain_closed(s, es, p, string_set(result@), p.len() - 1);
            }
        }
    }
    result
}

/// Distinct names drawn from a list are no more than the list.
proof fn universe_bound(result: Seq<String>, universe: Seq<Seq<char>>)
    requires
        distinct_views(result),
        forall|j: int| 0 <= j < result.len() ==> universe.contains((#[trigger] result[j])@),
    ensures
        result.len() <= universe.len(),
{
    let views = result.map_values(|s: String| s@);
    assert(views.no_duplicates()) by {
        assert forall|a: int, b: int| 0 <= a < views.len() && 0 <= b < views.len() && a != b implies views[a]
            != views[b] by {
            if a < b {
                assert(result[a]@ != result[b]@);
            } else {
                assert(result[b]@ != result[a]@);
            }
        }
    }
    views.unique_seq_to_set();
    universe.lemma_cardinality_of_set();
    assert(views.to_set().subset_of(universe.to_set())) by {
        assert forall|v: Seq<char>| views.to_set().contains(v) implies universe.to_set().contains(v) by {
            let j = choose|j: int| 0 <= j < views.len() && views[j] == v;
            assert(universe.contains(result[j]@));
        }
    }
    vstd::seq_lib::seq_to_set_is_finite(universe);
    vstd::set_lib::lemma_len_subset(views.to_set(), universe.to_set());
}

/// Whether the smart variable `v` references itself through a chain of others.
pub open spec fn has_loop(smart: Seq<String>, entries: Seq<DeclaredSmartVariable>, v: Seq<char>) -> bool {
    entry_index(entries, v) is Some && reaches(smart, entries, v, v)
}

/// Whether the `i`-th smart name is not listed before.
pub open spec fn first_listing(smart: Seq<String>, i: int) -> bool {
    forall|j: int| 0 <= j < i ==> (#[trigger] smart[j])@ != smart[i]@
}

/// The message of the error about a smart variable that references itself.
pub open spec fn loop_message(v: Seq<char>) -> Seq<char> {
    "Smart variables cannot contain reference loops (the smart variable "@ + v
        + " references itself through a chain of other smart variables)"@
}

/// The errors about the first `k` smart names, in order: one for each (listed for
/// the first time) that references itself, in the file of its declaration.
pub open spec fn loop_diagnostics(smart: Seq<String>, entries: Seq<DeclaredSmartVariable>, k: int) -> Seq<DiagnosticView>
    decreases k,
{
    if k <= 0 || k > smart.len() {
        Seq::empty()
    } else {
        let before = loop_diagnostics(smart, entries, k - 1);
        let v = smart[k - 1]@;
        if first_listing(smart, k - 1) && has_loop(smart, entries, v) {
            before.push(
                report(
                    loop_message(v),
                    entries[entry_index(entries, v).unwrap()].file_name@,
                    None,
                    DiagnosticSeverity::Error,
                    "YS0045"@,
                ),
            )
        } else {
            before
        }
    }
}

/// What the dependencies between smart variables show.
#[derive(Debug)]
pub struct SmartVariableLoops {
    /// An error for each smart variable that references itself.
    pub diagnostics: Vec<Diagnostic>,
    /// Whether any did, so that compilation stops.
    pub early_break: bool,
    /// For each declared smart variable, every variable it depends on.
    pub dependencies: Vec<(String, Vec<String>)>,
    /// For each variable some smart variable depends on, the smart variables that do.
    pub dependents: Vec<(String, Vec<String>)>,
}

/// The names among `v` other than `x`, in order.
fn without(v: &Vec<String>, x: &str) -> (r: Vec<String>)
    ensures
        string_set(r@) == string_set(v@).remove(x@),
        distinct_views(v@) ==> distinct_views(r@),
{
    let mut out: Vec<String> = Vec::new();
    let mut i: usize = 0;
    while i < v.len()
        invariant
            i <= v@.len(),
            string_set(out@) == string_set(v@.take(i as int)).remove(x@),
            distinct_views(v@) ==> distinct_views(out@),
            forall|j: int| 0 <= j < out@.len() ==> string_set(v@.take(i as int)).contains((#[trigger] out@[j])@),
        decreases v@.len() - i,
    {
        let ghost before = out@;
        proof {
            assert(v@.take(i + 1) =~= v@.take(i as int).push(v@[i as int]));
            lemma_string_set_push(v@.take(i as int), v@[i as int]);
        }
        if !crate::text::str_eq(v[i].as_str(), x) {
            proof {
                lemma_string_set_push(out@, v@[i as int]);
            }
            out.push(v[i].clone());
            proof {
                assert forall|a: int, b: int| distinct_views(v@) && 0 <= a < b < out@.len() implies (#[trigger] out@[a])@
                    != (#[trigger] out@[b])@ by {
                    if b == out@.len() - 1 {
                        let j = choose|j: int| 0 <= j < i && (#[trigger] v@.take(i as int)[j])@ == out@[a]@;
                        assert(v@[j] == v@.take(i as int)[j]);
                    } else {
                        assert(out@[a] == before[a] && out@[b] == before[b]);
                    }
                }
                assert forall|j: int| 0 <= j < out@.len() implies string_set(v@.take(i + 1)).contains(
                    (#[trigger] out@[j])@,
                ) by {
                    if j < before.len() {
                        assert(out@[j] == before[j]);
                    }
                }
            }
        } else {
            assert(string_set(v@.take(i + 1)).remove(x@) =~= string_set(v@.take(i as int)).remove(x@));
        }
        assert(string_set(out@) =~= string_set(v@.take(i + 1)).remove(x@));
        i = i + 1;
    }
    assert(v@.take(v@.len() as int) =~= v@);
    out
}

/// Whether `e` lists, for the declared smart variable `e.0`, exactly the names it
/// depends on (itself excluded), each once.
pub open spec fn dependencies_listed(smart: Seq<String>, entries: Seq<DeclaredSmartVariable>, e: (String, Vec<String>)) -> bool {
    &&& string_set(smart).contains(e.0@)
    &&& entry_index(entries, e.0@) is Some
    &&& distinct_views(e.1@)
    &&& forall|x: Seq<char>| #[trigger] string_set(e.1@).contains(x) <==> (x != e.0@ && reaches(smart, entries, e.0@, x))
}

/// The error about the smart variable `v`, declared in `file`, that references itself.
pub open spec fn loop_report(v: Seq<char>, file: Seq<char>) -> DiagnosticView {
    report(loop_message(v), file, None, DiagnosticSeverity::Error, "YS0045"@)
}

fn handle_smart_variable(
    smart: &Vec<String>,
    entries: &Vec<DeclaredSmartVariable>,
    i: usize,
    diagnostics: &mut Vec<Diagnostic>,
    dependencies: &mut Vec<(String, Vec<String>)>,
) -> (found: bool)
    requires
        i < smart@.len(),
    ensures
        found == has_loop(smart@, entries@, smart@[i as int]@),
        diagnostics_view(final(diagnostics)@) == if found {
            diagnostics_view(old(diagnostics)@).push(
                loop_report(smart@[i as int]@, entries@[entry_index(entries@, smart@[i as int]@).unwrap()].file_name@),
            )
        } else {
            diagnostics_view(old(diagnostics)@)
        },
        entry_index(entries@, smart@[i as int]@) is None ==> final(dependencies)@ == old(dependencies)@,
        entry_index(entries@, smart@[i as int]@) is Some ==> final(dependencies)@.len() == old(dependencies)@.len() + 1
            && final(dependencies)@.drop_last() == old(dependencies)@ && final(dependencies)@.last().0@ == smart@[i as int]@
            && dependencies_listed(smart@, entries@, final(dependencies)@.last()),
{
    let name = &smart[i];
    match find_entry(entries, name.as_str()) {
        Some(k) => {
            let closure = dependency_closure(smart, entries, name.as_str());
            proof {
                assert(string_set(smart@).contains(name@)) by {
                    assert(smart@[i as int]@ == name@);
                }
            }
            let found = contains_str(&closure, name.as_str());
            if found {
                let mut m = String::from_str("Smart variables cannot contain reference loops (the smart variable ");
                push_str_chars(&mut m, name.as_str());
                push_str_chars(&mut m, " references itself through a chain of other smart variables)");
                proof {
                    reveal_strlit("Smart variables cannot contain reference loops (the smart variable ");
                    reveal_strlit(" references itself through a chain of other smart variables)");
                }
                let d = Diagnostic::from_message(m).with_file_name(entries[k].file_name.clone()).with_code("YS0045");
                proof {
                    reveal_strlit("YS0045");
                }
                let ghost before = diagnostics_view(diagnostics@);
                diagnostics.push(d);
                assert(diagnostics_view(diagnostics@) =~= before.push(d@));
            }
            let deps = without(&closure, name.as_str());
            let ghost before_deps = dependencies@;
            dependencies.push((name.clone(), deps));
            assert(dependencies@.drop_last() =~= before_deps);
            found
        },
        None => false,
    }
}

fn listed_before(smart: &Vec<String>, i: usize) -> (seen: bool)
    requires
        i < smart@.len(),
    ensures
        seen == exists|k: int| 0 <= k < i && (#[trigger] smart@[k])@ == smart@[i as int]@,
        seen == !first_listing(smart@, i as int),
{
    let mut seen = false;
    let mut j: usize = 0;
    while j < i
        invariant
            j <= i < smart@.len(),
            seen == exists|k: int| 0 <= k < j && (#[trigger] smart@[k])@ == smart@[i as int]@,
        decreases i - j,
    {
        if crate::text::str_eq(smart[j].as_str(), smart[i].as_str()) {
            seen = true;
        }
        j = j + 1;
    }
    seen
}

/// Whether `deps` lists the dependencies of exactly the declared smart variables
/// among the first `n` smart names, each once.
#[verifier::opaque]
pub open spec fn dependencies_cover(
    smart: Seq<String>,
    entries: Seq<DeclaredSmartVariable>,
    deps: Seq<(String, Vec<String>)>,
    n: int,
) -> bool {
    &&& forall|j: int| 0 <= j < deps.len() ==> dependencies_listed(smart, entries, #[trigger] deps[j])
    &&& forall|a: int, b: int| 0 <= a < b < deps.len() ==> (#[trigger] deps[a]).0@ != (#[trigger] deps[b]).0@
    &&& forall|j: int| 0 <= j < deps.len() ==> exists|k: int| 0 <= k < n && (#[trigger] smart[k])@ == (#[trigger] deps[j]).0@
    &&& forall|k: int|
        0 <= k < n && entry_index(entries, (#[trigger] smart[k])@) is Some ==> exists|j: int|
            0 <= j < deps.len() && (#[trigger] deps[j]).0@ == smart[k]@
}

proof fn lemma_cover_step(
    smart: Seq<String>,
    entries: Seq<DeclaredSmartVariable>,
    before: Seq<(String, Vec<String>)>,
    after: Seq<(String, Vec<String>)>,
    i: int,
    seen: bool,
)
    requires
        0 <= i < smart.len(),
        dependencies_cover(smart, entries, before, i),
        seen == !first_listing(smart, i),
        seen ==> after == before,
        !seen && entry_index(entries, smart[i]@) is None ==> after == before,
        !seen && entry_index(entries, smart[i]@) is Some ==> after.len() == before.len() + 1 && after.drop_last() == before
            && after.last().0@ == smart[i]@ && dependencies_listed(smart, entries, after.last()),
    ensures
        dependencies_cover(smart, entries, after, i + 1),
{
    reveal(dependencies_cover);
    if seen {
        assert(exists|k: int| 0 <= k < i && (#[trigger] smart[k])@ == smart[i]@);
        let k3 = choose|k: int| 0 <= k < i && (#[trigger] smart[k])@ == smart[i]@;
        assert forall|j: int| 0 <= j < after.len() implies exists|k: int|
            0 <= k < i + 1 && (#[trigger] smart[k])@ == (#[trigger] after[j]).0@ by {
            let k = choose|k: int| 0 <= k < i && (#[trigger] smart[k])@ == after[j].0@;
        }
        if entry_index(entries, smart[i]@) is Some {
            assert(entry_index(entries, smart[k3]@) is Some);
        }
    } else if entry_index(entries, smart[i]@) is None {
        assert forall|j: int| 0 <= j < after.len() implies exists|k: int|
            0 <= k < i + 1 && (#[trigger] smart[k])@ == (#[trigger] after[j]).0@ by {
            let k = choose|k: int| 0 <= k < i && (#[trigger] smart[k])@ == after[j].0@;
        }
    } else {
        assert forall|jj: int| 0 <= jj < before.len() implies after[jj] == before[jj] by {
            assert(after.drop_last()[jj] == before[jj]);
        }
        assert forall|a: int, b: int| 0 <= a < b < after.len() implies (#[trigger] after[a]).0@ != (#[trigger] after[b]).0@ by {
            if b == after.len() - 1 {
                assert(after[a] == before[a]);
                let k2 = choose|k2: int| 0 <= k2 < i && (#[trigger] smart[k2])@ == before[a].0@;
            } else {
                assert(after[a] == before[a] && after[b] == before[b]);
            }
        }
        assert forall|jj: int| 0 <= jj < after.len() implies exists|k2: int|
            0 <= k2 < i + 1 && (#[trigger] smart[k2])@ == (#[trigger] after[jj]).0@ by {
            if jj == after.len() - 1 {
                assert(smart[i]@ == after[jj].0@);
            } else {
                assert(after[jj] == before[jj]);
                let k2 = choose|k2: int| 0 <= k2 < i && (#[trigger] smart[k2])@ == before[jj].0@;
                assert(smart[k2]@ == after[jj].0@);
            }
        }
        assert forall|kk: int| 0 <= kk < i + 1 && entry_index(entries, (#[trigger] smart[kk])@) is Some implies exists|jj: int|
            0 <= jj < after.len() && (#[trigger] after[jj]).0@ == smart[kk]@ by {
            if kk == i {
                assert(after[after.len() - 1].0@ == smart[kk]@);
            } else {
                let jj = choose|jj: int| 0 <= jj < before.len() && (#[trigger] before[jj]).0@ == smart[kk]@;
                assert(after[jj] == before[jj]);
            }
        }
        assert forall|jj: int| 0 <= jj < after.len() implies dependencies_listed(smart, entries, #[trigger] after[jj]) by {
            if jj < before.len() {
                assert(after[jj] == before[jj]);
            }
        }
    }
}

/// Whether some entry of `v` has the key `key`.
pub open spec fn keyed(v: Seq<(String, Vec<String>)>, key: Seq<char>) -> bool {
    exists|j: int| 0 <= j < v.len() && (#[trigger] v[j]).0@ == key
}

/// Finds the smart variables that reference themselves through a chain of others,
/// what each declared smart variable depends on, and which smart variables depend on
/// each variable.
pub fn detect_smart_variable_loops(smart: &Vec<String>, entries: &Vec<DeclaredSmartVariable>) -> (r: SmartVariableLoops)
    ensures
        diagnostics_view(r.diagnostics@) == loop_diagnostics(smart@, entries@, smart@.len() as int),
        r.early_break == exists|i: int| 0 <= i < smart@.len() && has_loop(smart@, entries@, (#[trigger] smart@[i])@),
        dependencies_cover(smart@, entries@, r.dependencies@, smart@.len() as int),
        forall|a: int, b: int|
            0 <= a < b < r.dependents@.len() ==> (#[trigger] r.dependents@[a]).0@ != (#[trigger] r.dependents@[b]).0@,
        forall|j: int, v: Seq<char>|
            0 <= j < r.dependents@.len() ==> (#[trigger] string_set(r.dependents@[j].1@).contains(v) <==> depends_on(
                r.dependencies@,
                v,
                r.dependents@[j].0@,
            )),
        forall|v: Seq<char>, d: Seq<char>| #[trigger] depends_on(r.dependencies@, v, d) ==> keyed(r.dependents@, d),
{
    let mut diagnostics: Vec<Diagnostic> = Vec::new();
    let mut early_break = false;
    let mut dependencies: Vec<(String, Vec<String>)> = Vec::new();
    let mut i: usize = 0;
    proof {
        reveal(dependencies_cover);
    }
    while i < smart.len()
        invariant
            i <= smart@.len(),
            diagnostics_view(diagnostics@) == loop_diagnostics(smart@, entries@, i as int),
            early_break == exists|k: int| 0 <= k < i && has_loop(smart@, entries@, (#[trigger] smart@[k])@),
            dependencies_cover(smart@, entries@, dependencies@, i as int),
        decreases smart@.len() - i,
    {
        let seen = listed_before(smart, i);
        let ghost before_deps = dependencies@;
        if !seen {
            let found = handle_smart_variable(smart, entries, i, &mut diagnostics, &mut dependencies);
            if found {
                early_break = true;
            }
        }
        proof {
            lemma_cover_step(smart@, entries@, before_deps, dependencies@, i as int, seen);
            if seen {
                let k2 = choose|k2: int| 0 <= k2 < i && (#[trigger] smart@[k2])@ == smart@[i as int]@;
                if has_loop(smart@, entries@, smart@[i as int]@) {
                    assert(has_loop(smart@, entries@, smart@[k2]@));
                }
            }
            assert(early_break == exists|k: int| 0 <= k < i + 1 && has_loop(smart@, entries@, (#[trigger] smart@[k])@));
        }
        i = i + 1;
    }
    let dependents = dependents_of(&dependencies);
    assert forall|v: Seq<char>, d: Seq<char>| #[trigger] depends_on(dependencies@, v, d) implies keyed(dependents@, d) by {
        let j = choose|j: int| 0 <= j < dependents@.len() && (#[trigger] dependents@[j]).0@ == d;
    }
    SmartVariableLoops { diagnostics, early_break, dependencies, dependents }
}

/// Whether the smart variable `v` is listed in `deps` as depending on `d`.
pub open spec fn depends_on(deps: Seq<(String, Vec<String>)>, v: Seq<char>, d: Seq<char>) -> bool {
    exists|j: int| 0 <= j < deps.len() && (#[trigger] deps[j]).0@ == v && string_set(deps[j].1@).contains(d)
}

fn find_key(v: &Vec<(String, Vec<String>)>, key: &str) -> (r: Option<usize>)
    ensures
        r matches Some(i) ==> i < v@.len() && v@[i as int].0@ == key@,
        r is None ==> forall|i: int| 0 <= i < v@.len() ==> (#[trigger] v@[i]).0@ != key@,
{
    let mut i: usize = 0;
    while i < v.len()
        invariant
            i <= v@.len(),
            forall|j: int| 0 <= j < i ==> (#[trigger] v@[j]).0@ != key@,
        decreases v@.len() - i,
    {
        if crate::text::str_eq(v[i].0.as_str(), key) {
            return Some(i);
        }
        i = i + 1;
    }
    None
}

/// The inverse of `deps`: for each name some smart variable depends on, the smart
/// variables that depend on it.
pub fn dependents_of(deps: &Vec<(String, Vec<String>)>) -> (r: Vec<(String, Vec<String>)>)
    ensures
        forall|a: int, b: int| 0 <= a < b < r@.len() ==> (#[trigger] r@[a]).0@ != (#[trigger] r@[b]).0@,
        forall|j: int, v: Seq<char>|
            0 <= j < r@.len() ==> (#[trigger] string_set(r@[j].1@).contains(v) <==> depends_on(deps@, v, r@[j].0@)),
        forall|v: Seq<char>, d: Seq<char>|
            #[trigger] depends_on(deps@, v, d) ==> exists|j: int| 0 <= j < r@.len() && (#[trigger] r@[j]).0@ == d,
{
    let mut out: Vec<(String, Vec<String>)> = Vec::new();
    let mut n: usize = 0;
    while n < deps.len()
        invariant
            n <= deps@.len(),
            forall|a: int, b: int| 0 <= a < b < out@.len() ==> (#[trigger] out@[a]).0@ != (#[trigger] out@[b]).0@,
            forall|j: int, v: Seq<char>|
                0 <= j < out@.len() ==> (#[trigger] string_set(out@[j].1@).contains(v) <==> depends_on(
                    deps@.take(n as int),
                    v,
                    out@[j].0@,
                )),
            forall|v: Seq<char>, d: Seq<char>|
                #[trigger] depends_on(deps@.take(n as int), v, d) ==> exists|j: int| 0 <= j < out@.len() && (#[trigger] out@[j]).0@ == d,
        decreases deps@.len() - n,
    {
        let v = &deps[n].0;
        let ds = &deps[n].1;
        let mut i: usize = 0;
        let ghost base = out@;
        while i < ds.len()
            invariant
                n < deps@.len(),
                *v == deps@[n as int].0,
                *ds == deps@[n as int].1,
                i <= ds@.len(),
                forall|a: int, b: int| 0 <= a < b < out@.len() ==> (#[trigger] out@[a]).0@ != (#[trigger] out@[b]).0@,
                forall|j: int, w: Seq<char>|
                    0 <= j < out@.len() ==> (#[trigger] string_set(out@[j].1@).contains(w) <==> (depends_on(
                        deps@.take(n as int),
                        w,
                        out@[j].0@,
                    ) || (w == v@ && string_set(ds@.take(i as int)).contains(out@[j].0@)))),
                forall|w: Seq<char>, d: Seq<char>|
                    #[trigger] depends_on(deps@.take(n as int), w, d) ==> exists|j: int| 0 <= j < out@.len() && (#[trigger] out@[j]).0@ == d,
                forall|d: Seq<char>|
                    #[trigger] string_set(ds@.take(i as int)).contains(d) ==> exists|j: int| 0 <= j < out@.len() && (#[trigger] out@[j]).0@ == d,
            decreases ds@.len() - i,
        {
            let d = &ds[i];
            let ghost prev = out@;
            proof {
                assert(ds@.take(i + 1) =~= ds@.take(i as int).push(ds@[i as int]));
                lemma_string_set_push(ds@.take(i as int), ds@[i as int]);
            }
            match find_key(&out, d.as_str()) {
                Some(j) => {
                    let mut vs: Vec<String> = Vec::new();
                    std::mem::swap(&mut vs, &mut out[j].1);
                    proof {
                        lemma_string_set_push(vs@, *v);
                    }
                    vs.push(v.clone());
                    let ghost vs_view = vs@;
                    let key = out[j].0.clone();
                    out.set(j, (key, vs));
                    proof {
                        assert forall|a: int, b: int| 0 <= a < b < out@.len() implies (#[trigger] out@[a]).0@ != (#[trigger] out@[b]).0@ by {
                            assert(out@[a].0@ == prev[a].0@ && out@[b].0@ == prev[b].0@);
                        }
                        assert forall|jj: int, w: Seq<char>| 0 <= jj < out@.len() implies (#[trigger] string_set(out@[jj].1@).contains(w) <==> (depends_on(
                            deps@.take(n as int),
                            w,
                            out@[jj].0@,
                        ) || (w == v@ && string_set(ds@.take(i + 1)).contains(out@[jj].0@)))) by {
                            if jj != j {
                                assert(out@[jj] == prev[jj]);
                            }
                        }
                        assert forall|w: Seq<char>, dd: Seq<char>| #[trigger] depends_on(deps@.take(n as int), w, dd) implies exists|jj: int| 0 <= jj < out@.len() && (#[trigger] out@[jj]).0@ == dd by {
                            let jj = choose|jj: int| 0 <= jj < prev.len() && (#[trigger] prev[jj]).0@ == dd;
                            assert(out@[jj].0@ == prev[jj].0@);
                        }
                        assert forall|dd: Seq<char>| #[trigger] string_set(ds@.take(i + 1)).contains(dd) implies exists|jj: int| 0 <= jj < out@.len() && (#[trigger] out@[jj]).0@ == dd by {
                            if dd == d@ {
                                assert(out@[j as int].0@ == dd);
                            } else {
                                let jj = choose|jj: int| 0 <= jj < prev.len() && (#[trigger] prev[jj]).0@ == dd;
                                assert(out@[jj].0@ == prev[jj].0@);
                            }
                        }
                    }
                },
                None => {
                    let mut vs: Vec<String> = Vec::new();
                    vs.push(v.clone());
                    proof {
                        lemma_string_set_push(Seq::<String>::empty(), vs@[0]);
                        assert(Seq::<String>::empty().push(vs@[0]) =~= vs@);
                    }
                    out.push((d.clone(), vs));
                    proof {
                        assert forall|a: int, b: int| 0 <= a < b < out@.len() implies (#[trigger] out@[a]).0@ != (#[trigger] out@[b]).0@ by {
                            if b == out@.len() - 1 {
                                assert(out@[a] == prev[a]);
                            } else {
                                assert(out@[a] == prev[a] && out@[b] == prev[b]);
                            }
                        }
                        assert forall|jj: int, w: Seq<char>| 0 <= jj < out@.len() implies (#[trigger] string_set(out@[jj].1@).contains(w) <==> (depends_on(
                            deps@.take(n as int),
                            w,
                            out@[jj].0@,
                        ) || (w == v@ && string_set(ds@.take(i + 1)).contains(out@[jj].0@)))) by {
                            if jj < prev.len() {
                                assert(out@[jj] == prev[jj]);
                            } else {
                                assert(string_set(Seq::<String>::empty()) =~= Set::<Seq<char>>::empty());
                                if depends_on(deps@.take(n as int), w, out@[jj].0@) {
                                    let j2 = choose|j2: int| 0 <= j2 < prev.len() && (#[trigger] prev[j2]).0@ == out@[jj].0@;
                                }
                                if string_set(ds@.take(i as int)).contains(out@[jj].0@) {
                                    let j2 = choose|j2: int| 0 <= j2 < prev.len() && (#[trigger] prev[j2]).0@ == out@[jj].0@;
                                }
                            }
                        }
                        assert forall|w: Seq<char>, dd: Seq<char>| #[trigger] depends_on(deps@.take(n as int), w, dd) implies exists|jj: int| 0 <= jj < out@.len() && (#[trigger] out@[jj]).0@ == dd by {
                            let jj = choose|jj: int| 0 <= jj < prev.len() && (#[trigger] prev[jj]).0@ == dd;
                            assert(out@[jj] == prev[jj]);
                        }
                        assert forall|dd: Seq<char>| #[trigger] string_set(ds@.take(i + 1)).contains(dd) implies exists|jj: int| 0 <= jj < out@.len() && (#[trigger] out@[jj]).0@ == dd by {
                            if dd == d@ {
                                assert(out@[out@.len() - 1].0@ == dd);
                            } else {
                                let jj = choose|jj: int| 0 <= jj < prev.len() && (#[trigger] prev[jj]).0@ == dd;
                                assert(out@[jj] == prev[jj]);
                            }
                        }
                    }
                },
            }
            i = i + 1;
        }
        proof {
            assert(ds@.take(ds@.len() as int) =~= ds@);
            assert(deps@.take(n + 1) =~= deps@.take(n as int).push(deps@[n as int]));
            assert forall|w: Seq<char>, dd: Seq<char>| depends_on(deps@.take(n + 1), w, dd) <==> (depends_on(deps@.take(n as int), w, dd)
                || (w == v@ && string_set(ds@).contains(dd))) by {
                if depends_on(deps@.take(n + 1), w, dd) {
                    let j = choose|j: int| 0 <= j < n + 1 && (#[trigger] deps@.take(n + 1)[j]).0@ == w && string_set(deps@.take(n + 1)[j].1@).contains(dd);
                    if j < n {
                        assert(deps@.take(n as int)[j] == deps@.take(n + 1)[j]);
                    }
                }
                if depends_on(deps@.take(n as int), w, dd) {
                    let j = choose|j: int| 0 <= j < n && (#[trigger] deps@.take(n as int)[j]).0@ == w && string_set(deps@.take(n as int)[j].1@).contains(dd);
                    assert(deps@.take(n as int)[j] == deps@.take(n + 1)[j]);
                }
                if w == v@ && string_set(ds@).contains(dd) {
                    assert(deps@.take(n + 1)[n as int] == deps@[n as int]);
                }
            }
            assert forall|w: Seq<char>, dd: Seq<char>| #[trigger] depends_on(deps@.take(n + 1), w, dd) implies exists|j: int|
                0 <= j < out@.len() && (#[trigger] out@[j]).0@ == dd by {
                if !depends_on(deps@.take(n as int), w, dd) {
                    assert(string_set(ds@.take(ds@.len() as int)).contains(dd));
                }
            }
        }
        n = n + 1;
    }
    assert(deps@.take(deps@.len() as int) =~= deps@);
    out
}

} // verus!
