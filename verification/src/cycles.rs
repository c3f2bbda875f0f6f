//! Cycles among nodes: a depth-first search over the static jumps and detours
//! between nodes, which reports each cycle once.
use vstd::prelude::*;
use vstd::set_lib::{lemma_int_range, lemma_len_subset, set_int_range};

use crate::diagnostics::{diagnostics_view, report, Diagnostic, DiagnosticDescriptor, DiagnosticSeverity, DiagnosticView, Position};
use crate::node_references::{all_scanned, header_location, header_range, position_at};
use crate::program::{has_string_operand, node_index, opcode_number, string_operand, Node, NodeView, OpCode, Operand, Program};
use crate::text::{lemma_lex_le_antisymmetric, lemma_lex_le_refl, lemma_lex_le_total, lemma_lex_le_trans, lex_le, string_lex_le, str_eq};

verus! {

/// What the search has found so far: the nodes it has finished, and the cycles it
/// has recorded, each rotated to start at its least node.
pub struct Search {
    /// The nodes whose search has finished.
    pub visited: Set<usize>,
    /// The cycles, in the order they were found.
    pub cycles: Seq<Seq<usize>>,
}

/// The position of the least element of the non-empty `c`, the first where several
/// are least.
pub open spec fn least_at(c: Seq<usize>, upto: int) -> int
    decreases upto,
{
    if upto <= 1 {
        0
    } else {
        let k = least_at(c, upto - 1);
        if c[upto - 1] < c[k] {
            upto - 1
        } else {
            k
        }
    }
}

proof fn lemma_least_at_bounds(c: Seq<usize>, upto: int)
    requires
        1 <= upto,
    ensures
        0 <= least_at(c, upto) < upto,
    decreases upto,
{
    if upto > 1 {
        lemma_least_at_bounds(c, upto - 1);
    }
}

/// The cycle `c` rotated to start at its least element.
pub open spec fn rotated(c: Seq<usize>) -> Seq<usize> {
    let m = least_at(c, c.len() as int);
    c.subrange(m, c.len() as int) + c.subrange(0, m)
}

/// The position of `t` in `p`: the first where it occurs.
pub open spec fn position_in(p: Seq<usize>, t: usize) -> int
    decreases p.len(),
{
    if p.len() == 0 {
        0
    } else if p.last() == t && !p.drop_last().contains(t) {
        p.len() - 1
    } else {
        position_in(p.drop_last(), t)
    }
}

/// The search after the edge from the end of the path `p` back to `t` on it: the
/// cycle from `t` to the end of the path, rotated, is recorded unless it was before.
pub open spec fn record_cycle(s: Search, p: Seq<usize>, t: usize) -> Search {
    let c = rotated(p.subrange(position_in(p, t), p.len() as int));
    if s.cycles.contains(c) {
        s
    } else {
        Search { visited: s.visited, cycles: s.cycles.push(c) }
    }
}

/// The search from node `x`, reached by the path `path`, among `n` nodes whose
/// successors `adj` lists: each successor on the path closes a cycle; each one
/// neither on the path nor finished is searched in turn; then `x` is finished.
pub open spec fn search_from(adj: Seq<Seq<usize>>, n: int, x: usize, path: Seq<usize>, s: Search) -> Search
    decreases n - path.len(), 1int, 0int,
{
    if path.len() >= n || x >= adj.len() {
        s
    } else {
        let s1 = search_targets(adj, n, path.push(x), adj[x as int], 0, s);
        Search { visited: s1.visited.insert(x), cycles: s1.cycles }
    }
}

/// The search over the successors `ts` from the `k`-th on of the last node of `p`.
pub open spec fn search_targets(adj: Seq<Seq<usize>>, n: int, p: Seq<usize>, ts: Seq<usize>, k: int, s: Search) -> Search
    decreases n - p.len() + 1, 0int, ts.len() - k,
{
    if k < 0 || k >= ts.len() || p.len() > n {
        s
    } else {
        let t = ts[k];
        let s1 = if p.contains(t) {
            record_cycle(s, p, t)
        } else if !s.visited.contains(t) {
            search_from(adj, n, t, p, s)
        } else {
            s
        };
        search_targets(adj, n, p, ts, k + 1, s1)
    }
}

/// The search from each node in order from the `k`-th on that no earlier search has
/// finished.
pub open spec fn search_all(adj: Seq<Seq<usize>>, k: int, s: Search) -> Search
    decreases adj.len() - k,
{
    if k < 0 || k >= adj.len() {
        s
    } else {
        let s1 = if s.visited.contains(k as usize) {
            s
        } else {
            search_from(adj, adj.len() as int, k as usize, Seq::empty(), s)
        };
        search_all(adj, k + 1, s1)
    }
}

/// The cycles that a search of the whole graph `adj` reports, in order.
pub open spec fn graph_cycles(adj: Seq<Seq<usize>>) -> Seq<Seq<usize>> {
    search_all(adj, 0, Search { visited: Set::empty(), cycles: Seq::empty() }).cycles
}

/// Whether every successor in `adj` is a node of it.
pub open spec fn well_formed_graph(adj: Seq<Seq<usize>>) -> bool {
    forall|i: int, j: int| 0 <= i < adj.len() && 0 <= j < adj[i].len() ==> #[trigger] adj[i][j] < adj.len()
}

/// The set of nodes marked in `v`.
pub open spec fn marked(v: Seq<bool>) -> Set<usize> {
    Set::new(|i: usize| i < v.len() && v[i as int])
}

/// The view of a list of cycles.
pub open spec fn cycles_view(c: Seq<Vec<usize>>) -> Seq<Seq<usize>> {
    c.map_values(|x: Vec<usize>| x@)
}

proof fn lemma_path_short(path: Seq<usize>, n: int, t: usize)
    requires
        path.no_duplicates(),
        forall|i: int| 0 <= i < path.len() ==> #[trigger] path[i] < n,
        t < n,
        !path.contains(t),
    ensures
        path.len() < n,
{
    let pi = path.map_values(|u: usize| u as int);
    assert(pi.no_duplicates()) by {
        assert forall|a: int, b: int| 0 <= a < b < pi.len() implies pi[a] != pi[b] by {
            assert(path[a] != path[b]);
        }
    }
    pi.unique_seq_to_set();
    lemma_int_range(0, n);
    let s = pi.to_set().insert(t as int);
    assert(!pi.to_set().contains(t as int)) by {
        if pi.to_set().contains(t as int) {
            let j = choose|j: int| 0 <= j < pi.len() && pi[j] == t as int;
            assert(path[j] == t);
        }
    }
    assert(s.subset_of(set_int_range(0, n)));
    lemma_len_subset(s, set_int_range(0, n));
}

fn least_position(c: &Vec<usize>) -> (r: usize)
    requires
        c@.len() > 0,
    ensures
        r as int == least_at(c@, c@.len() as int),
        r < c@.len(),
{
    let mut k: usize = 0;
    let mut i: usize = 1;
    while i < c.len()
        invariant
            1 <= i <= c@.len(),
            k as int == least_at(c@, i as int),
            k < i,
        decreases c@.len() - i,
    {
        if c[i] < c[k] {
            k = i;
        }
        i = i + 1;
    }
    k
}

fn rotate(c: &Vec<usize>) -> (r: Vec<usize>)
    requires
        c@.len() > 0,
    ensures
        r@ == rotated(c@),
        r@.len() == c@.len(),
        least_at(c@, c@.len() as int) < c@.len(),
{
    let m = least_position(c);
    let mut out: Vec<usize> = Vec::new();
    let mut i: usize = m;
    while i < c.len()
        invariant
            m <= i <= c@.len(),
            out@ == c@.subrange(m as int, i as int),
        decreases c@.len() - i,
    {
        out.push(c[i]);
        assert(out@ =~= c@.subrange(m as int, i + 1));
        i = i + 1;
    }
    let mut j: usize = 0;
    while j < m
        invariant
            j <= m < c@.len(),
            out@ == c@.subrange(m as int, c@.len() as int) + c@.subrange(0, j as int),
        decreases m - j,
    {
        out.push(c[j]);
        assert(out@ =~= c@.subrange(m as int, c@.len() as int) + c@.subrange(0, j + 1));
        j = j + 1;
    }
    out
}

fn position_of(p: &Vec<usize>, t: usize) -> (r: Option<usize>)
    requires
        p@.no_duplicates(),
    ensures
        r is Some <==> p@.contains(t),
        r matches Some(i) ==> i as int == position_in(p@, t) && i < p@.len() && p@[i as int] == t,
{
    let mut i: usize = 0;
    while i < p.len()
        invariant
            i <= p@.len(),
            p@.no_duplicates(),
            forall|j: int| 0 <= j < i ==> p@[j] != t,
        decreases p@.len() - i,
    {
        if p[i] == t {
            proof {
                lemma_position_in(p@, t, i as int);
            }
            return Some(i);
        }
        i = i + 1;
    }
    None
}

proof fn lemma_position_in(p: Seq<usize>, t: usize, i: int)
    requires
        0 <= i < p.len(),
        p[i] == t,
        p.no_duplicates(),
    ensures
        position_in(p, t) == i,
    decreases p.len(),
{
    if i < p.len() - 1 {
        assert(p.last() != t);
        assert(p.drop_last()[i] == t);
        lemma_position_in(p.drop_last(), t, i);
    } else {
        assert forall|j: int| 0 <= j < p.drop_last().len() implies p.drop_last()[j] != t by {
            assert(p[j] != p[i]);
        }
    }
}

fn same_cycle(a: &Vec<usize>, b: &Vec<usize>) -> (r: bool)
    ensures
        r == (a@ == b@),
{
    if a.len() != b.len() {
        return false;
    }
    let mut i: usize = 0;
    while i < a.len()
        invariant
            a@.len() == b@.len(),
            i <= a@.len(),
            forall|j: int| 0 <= j < i ==> a@[j] == b@[j],
        decreases a@.len() - i,
    {
        if a[i] != b[i] {
            return false;
        }
        i = i + 1;
    }
    assert(a@ =~= b@);
    true
}

fn contains_cycle(cycles: &Vec<Vec<usize>>, c: &Vec<usize>) -> (r: bool)
    ensures
        r == cycles_view(cycles@).contains(c@),
{
    let mut i: usize = 0;
    while i < cycles.len()
        invariant
            i <= cycles@.len(),
            forall|j: int| 0 <= j < i ==> cycles@[j]@ != c@,
        decreases cycles@.len() - i,
    {
        if same_cycle(&cycles[i], c) {
            assert(cycles_view(cycles@)[i as int] == c@);
            return true;
        }
        i = i + 1;
    }
    proof {
        if cycles_view(cycles@).contains(c@) {
            let j = choose|j: int| 0 <= j < cycles_view(cycles@).len() && cycles_view(cycles@)[j] == c@;
            assert(cycles@[j]@ == c@);
        }
    }
    false
}

/// Whether every cycle of `cs` is non-empty and made of nodes below `n`.
pub open spec fn cycles_ok(cs: Seq<Seq<usize>>, n: int) -> bool {
    forall|i: int| 0 <= i < cs.len() ==> (#[trigger] cs[i]).len() > 0 && forall|j: int| 0 <= j < cs[i].len() ==> cs[i][j] < n
}

/// Whether `p` is a path of distinct nodes of a graph of `n` nodes.
pub open spec fn simple_path(p: Seq<usize>, n: int) -> bool {
    p.no_duplicates() && forall|i: int| 0 <= i < p.len() ==> #[trigger] p[i] < n
}

fn search_node(adj: &Vec<Vec<usize>>, x: usize, path: &mut Vec<usize>, visited: &mut Vec<bool>, cycles: &mut Vec<Vec<usize>>)
    requires
        well_formed_graph(adj@.map_values(|v: Vec<usize>| v@)),
        old(visited)@.len() == adj@.len(),
        simple_path(old(path)@, adj@.len() as int),
        x < adj@.len(),
        !old(path)@.contains(x),
        cycles_ok(cycles_view(old(cycles)@), adj@.len() as int),
    ensures
        final(path)@ == old(path)@,
        final(visited)@.len() == adj@.len(),
        cycles_ok(cycles_view(final(cycles)@), adj@.len() as int),
        (Search { visited: marked(final(visited)@), cycles: cycles_view(final(cycles)@) }) == search_from(
            adj@.map_values(|v: Vec<usize>| v@),
            adj@.len() as int,
            x,
            old(path)@,
            Search { visited: marked(old(visited)@), cycles: cycles_view(old(cycles)@) },
        ),
    decreases adj@.len() - old(path)@.len(),
{
    let ghost g = adj@.map_values(|v: Vec<usize>| v@);
    let ghost n = adj@.len() as int;
    let ghost p0 = path@;
    proof {
        lemma_path_short(p0, n, x);
    }
    path.push(x);
    assert(path@.no_duplicates()) by {
        assert forall|a: int, b: int| 0 <= a < b < path@.len() implies path@[a] != path@[b] by {
            if b == path@.len() - 1 {
                assert(p0.contains(p0[a]));
            }
        }
    }
    let ghost p = path@;
    let ghost s_start = Search { visited: marked(visited@), cycles: cycles_view(cycles@) };
    let ts = &adj[x];
    assert(g[x as int] == ts@);
    let mut k: usize = 0;
    while k < ts.len()
        invariant
            g == adj@.map_values(|v: Vec<usize>| v@),
            n == adj@.len(),
            well_formed_graph(g),
            visited@.len() == n,
            path@ == p,
            p == p0.push(x),
            p0 == old(path)@,
            simple_path(p, n),
            p.len() <= n,
            ts@ == g[x as int],
            x < n,
            k <= ts@.len(),
            cycles_ok(cycles_view(cycles@), n),
            search_targets(g, n, p, ts@, 0, s_start) == search_targets(
                g,
                n,
                p,
                ts@,
                k as int,
                Search { visited: marked(visited@), cycles: cycles_view(cycles@) },
            ),
        decreases ts@.len() - k,
    {
        let t = ts[k];
        assert(t < n) by {
            assert(g[x as int][k as int] == t);
        }
        let ghost before = Search { visited: marked(visited@), cycles: cycles_view(cycles@) };
        match position_of(path, t) {
            Some(i) => {
                let mut c: Vec<usize> = Vec::new();
                let mut q: usize = i;
                while q < path.len()
                    invariant
                        i <= q <= path@.len(),
                        c@ == path@.subrange(i as int, q as int),
                    decreases path@.len() - q,
                {
                    c.push(path[q]);
                    assert(c@ =~= path@.subrange(i as int, q + 1));
                    q = q + 1;
                }
                let r = rotate(&c);
                proof {
                    lemma_least_at_bounds(c@, c@.len() as int);
                    assert forall|j: int| 0 <= j < r@.len() implies r@[j] < n by {
                        let m = least_at(c@, c@.len() as int);
                        if j < c@.len() - m {
                            assert(r@[j] == c@[m + j]);
                            assert(c@[m + j] == path@[i + m + j]);
                        } else {
                            assert(r@[j] == c@[j - (c@.len() - m)]);
                            assert(c@[j - (c@.len() - m)] == path@[i + j - (c@.len() - m)]);
                        }
                    }
                }
                if !contains_cycle(cycles, &r) {
                    let ghost cb = cycles@;
                    cycles.push(r);
                    assert(cycles_view(cycles@) =~= cycles_view(cb).push(r@));
                }
                assert(Search { visited: marked(visited@), cycles: cycles_view(cycles@) } == record_cycle(before, p, t));
            },
            None => {
                if !visited[t] {
                    search_node(adj, t, path, visited, cycles);
                } else {
                    assert(before.visited.contains(t));
                }
            },
        }
        k = k + 1;
    }
    path.pop();
    assert(path@ =~= p0);
    let ghost s_end = Search { visited: marked(visited@), cycles: cycles_view(cycles@) };
    visited.set(x, true);
    assert(marked(visited@) =~= s_end.visited.insert(x));
}

/// The cycles that a depth-first search of the graph `adj` (each node's successors
/// in increasing order) finds, each rotated to start at its least node, each once,
/// in the order found. The nodes are searched in increasing order, each from the
/// first that no earlier search reached.
pub fn find_cycles(adj: &Vec<Vec<usize>>) -> (r: Vec<Vec<usize>>)
    requires
        well_formed_graph(adj@.map_values(|v: Vec<usize>| v@)),
    ensures
        cycles_view(r@) == graph_cycles(adj@.map_values(|v: Vec<usize>| v@)),
        cycles_ok(cycles_view(r@), adj@.len() as int),
{
    let ghost g = adj@.map_values(|v: Vec<usize>| v@);
    let mut visited: Vec<bool> = Vec::new();
    let mut i: usize = 0;
    while i < adj.len()
        invariant
            i <= adj@.len(),
            visited@.len() == i,
            forall|j: int| 0 <= j < i ==> !visited@[j],
        decreases adj@.len() - i,
    {
        visited.push(false);
        i = i + 1;
    }
    assert(marked(visited@) =~= Set::<usize>::empty());
    let mut cycles: Vec<Vec<usize>> = Vec::new();
    assert(cycles_view(cycles@) =~= Seq::<Seq<usize>>::empty());
    let mut path: Vec<usize> = Vec::new();
    let mut k: usize = 0;
    while k < adj.len()
        invariant
            g == adj@.map_values(|v: Vec<usize>| v@),
            well_formed_graph(g),
            k <= adj@.len(),
            visited@.len() == adj@.len(),
            path@ == Seq::<usize>::empty(),
            cycles_ok(cycles_view(cycles@), adj@.len() as int),
            graph_cycles(g) == search_all(g, k as int, Search { visited: marked(visited@), cycles: cycles_view(cycles@) }).cycles,
        decreases adj@.len() - k,
    {
        if !visited[k] {
            search_node(adj, k, &mut path, &mut visited, &mut cycles);
        } else {
            assert(marked(visited@).contains(k));
        }
        k = k + 1;
    }
    cycles
}


/// Whether `g` has an edge from `a` to `b`.
pub open spec fn has_edge_in(g: Seq<Seq<usize>>, a: usize, b: usize) -> bool {
    a < g.len() && g[a as int].contains(b)
}

/// The position after `j` in a cycle of `len` positions.
pub open spec fn next_position(len: int, j: int) -> int {
    if j + 1 < len {
        j + 1
    } else {
        0
    }
}

/// Whether `c` is a cycle of `g`: each node has an edge to the next, and the last
/// to the first.
pub open spec fn is_cycle_in(g: Seq<Seq<usize>>, c: Seq<usize>) -> bool {
    c.len() > 0 && forall|j: int| 0 <= j < c.len() ==> #[trigger] has_edge_in(g, c[j], c[next_position(c.len() as int, j)])
}

/// Whether `c` starts at its least node.
pub open spec fn least_first(c: Seq<usize>) -> bool {
    forall|j: int| 0 <= j < c.len() ==> c[0] <= #[trigger] c[j]
}

/// Whether every cycle of `cs` is a cycle of `g` starting at its least node, and no
/// cycle occurs twice.
pub open spec fn cycles_sound(g: Seq<Seq<usize>>, cs: Seq<Seq<usize>>) -> bool {
    &&& cs.no_duplicates()
    &&& forall|i: int| 0 <= i < cs.len() ==> is_cycle_in(g, #[trigger] cs[i]) && least_first(cs[i])
}

/// Whether `p` follows edges of `g`.
pub open spec fn path_in(g: Seq<Seq<usize>>, p: Seq<usize>) -> bool {
    forall|j: int| 0 <= j < p.len() - 1 ==> #[trigger] has_edge_in(g, p[j], p[j + 1])
}

proof fn lemma_position_found(p: Seq<usize>, t: usize)
    requires
        p.contains(t),
    ensures
        0 <= position_in(p, t) < p.len(),
        p[position_in(p, t)] == t,
    decreases p.len(),
{
    if !(p.last() == t && !p.drop_last().contains(t)) {
        if p.drop_last().contains(t) {
            lemma_position_found(p.drop_last(), t);
        } else {
            let j = choose|j: int| 0 <= j < p.len() && p[j] == t;
            if j < p.len() - 1 {
                assert(p.drop_last()[j] == t);
            }
        }
    }
}

proof fn lemma_least_at(c: Seq<usize>, upto: int)
    requires
        1 <= upto <= c.len(),
    ensures
        0 <= least_at(c, upto) < upto,
        forall|j: int| 0 <= j < upto ==> c[least_at(c, upto)] <= #[trigger] c[j],
    decreases upto,
{
    if upto > 1 {
        lemma_least_at(c, upto - 1);
    }
}

proof fn lemma_rotated_cycle(g: Seq<Seq<usize>>, c: Seq<usize>)
    requires
        is_cycle_in(g, c),
    ensures
        is_cycle_in(g, rotated(c)),
        least_first(rotated(c)),
{
    let len = c.len() as int;
    let m = least_at(c, len);
    lemma_least_at(c, len);
    let r = rotated(c);
    assert(r.len() == len);
    assert forall|j: int| 0 <= j < len implies r[j] == c[if m + j < len { m + j } else { m + j - len }] by {}
    assert forall|j: int| 0 <= j < len implies #[trigger] has_edge_in(g, r[j], r[next_position(len, j)]) by {
        let i = if m + j < len { m + j } else { m + j - len };
        assert(has_edge_in(g, c[i], c[next_position(len, i)]));
        let nj = next_position(len, j);
        let ni = if m + nj < len { m + nj } else { m + nj - len };
        assert(ni == next_position(len, i));
    }
    assert forall|j: int| 0 <= j < len implies r[0] <= #[trigger] r[j] by {
        assert(r[0] == c[m]);
    }
}

proof fn lemma_closing_cycle(g: Seq<Seq<usize>>, p: Seq<usize>, t: usize)
    requires
        path_in(g, p),
        p.len() > 0,
        p.contains(t),
        has_edge_in(g, p.last(), t),
    ensures
        is_cycle_in(g, p.subrange(position_in(p, t), p.len() as int)),
{
    lemma_position_found(p, t);
    let pos = position_in(p, t);
    let c = p.subrange(pos, p.len() as int);
    assert forall|j: int| 0 <= j < c.len() implies #[trigger] has_edge_in(g, c[j], c[next_position(c.len() as int, j)]) by {
        if j + 1 < c.len() {
            assert(has_edge_in(g, p[pos + j], p[pos + j + 1]));
        } else {
            assert(c[j] == p.last());
            assert(c[0] == t);
        }
    }
}

proof fn lemma_search_from_sound(g: Seq<Seq<usize>>, n: int, x: usize, path: Seq<usize>, s: Search)
    requires
        cycles_sound(g, s.cycles),
        path_in(g, path),
        path.len() > 0 ==> has_edge_in(g, path.last(), x),
    ensures
        cycles_sound(g, search_from(g, n, x, path, s).cycles),
    decreases n - path.len(), 1int, 0int,
{
    if !(path.len() >= n || x >= g.len()) {
        let p = path.push(x);
        assert(path_in(g, p)) by {
            assert forall|j: int| 0 <= j < p.len() - 1 implies #[trigger] has_edge_in(g, p[j], p[j + 1]) by {
                if j + 1 < path.len() {
                    assert(has_edge_in(g, path[j], path[j + 1]));
                }
            }
        }
        lemma_search_targets_sound(g, n, p, g[x as int], 0, s);
    }
}

proof fn lemma_search_targets_sound(g: Seq<Seq<usize>>, n: int, p: Seq<usize>, ts: Seq<usize>, k: int, s: Search)
    requires
        cycles_sound(g, s.cycles),
        path_in(g, p),
        p.len() > 0,
        p.last() < g.len(),
        ts == g[p.last() as int],
    ensures
        cycles_sound(g, search_targets(g, n, p, ts, k, s).cycles),
    decreases n - p.len() + 1, 0int, ts.len() - k,
{
    if !(k < 0 || k >= ts.len() || p.len() > n) {
        let t = ts[k];
        assert(has_edge_in(g, p.last(), t));
        let s1 = if p.contains(t) {
            record_cycle(s, p, t)
        } else if !s.visited.contains(t) {
            search_from(g, n, t, p, s)
        } else {
            s
        };
        if p.contains(t) {
            lemma_closing_cycle(g, p, t);
            let c = rotated(p.subrange(position_in(p, t), p.len() as int));
            lemma_rotated_cycle(g, p.subrange(position_in(p, t), p.len() as int));
            if !s.cycles.contains(c) {
                let cs = s.cycles.push(c);
                assert(cs.no_duplicates()) by {
                    assert forall|a: int, b: int| 0 <= a < b < cs.len() implies cs[a] != cs[b] by {
                        if b == cs.len() - 1 {
                            assert(s.cycles.contains(cs[a]));
                        }
                    }
                }
                assert forall|i: int| 0 <= i < cs.len() implies is_cycle_in(g, #[trigger] cs[i]) && least_first(cs[i]) by {
                    if i < s.cycles.len() {
                        assert(cs[i] == s.cycles[i]);
                    }
                }
            }
        } else if !s.visited.contains(t) {
            lemma_search_from_sound(g, n, t, p, s);
        }
        lemma_search_targets_sound(g, n, p, ts, k + 1, s1);
    }
}

proof fn lemma_search_all_sound(g: Seq<Seq<usize>>, k: int, s: Search)
    requires
        cycles_sound(g, s.cycles),
    ensures
        cycles_sound(g, search_all(g, k, s).cycles),
    decreases g.len() - k,
{
    if !(k < 0 || k >= g.len()) {
        let s1 = if s.visited.contains(k as usize) {
            s
        } else {
            search_from(g, g.len() as int, k as usize, Seq::empty(), s)
        };
        if !s.visited.contains(k as usize) {
            lemma_search_from_sound(g, g.len() as int, k as usize, Seq::empty(), s);
        }
        lemma_search_all_sound(g, k + 1, s1);
    }
}

/// Every cycle the search reports is a cycle of the graph and starts at its least
/// node, and no cycle is reported twice.
pub proof fn law_reported_cycles_are_cycles(g: Seq<Seq<usize>>)
    ensures
        cycles_sound(g, graph_cycles(g)),
{
    let s = Search { visited: Set::empty(), cycles: Seq::empty() };
    assert(cycles_sound(g, s.cycles));
    lemma_search_all_sound(g, 0, s);
}

// ---------------------------------------------------------------------------
// The graph of a program
// ---------------------------------------------------------------------------

/// Whether `a` comes strictly before `b`, by code point.
pub open spec fn lex_lt(a: Seq<char>, b: Seq<char>) -> bool {
    lex_le(a, b) && a != b
}

/// Whether `s` ascends strictly, by code point.
pub open spec fn strictly_sorted(s: Seq<Seq<char>>) -> bool {
    forall|i: int, j: int| 0 <= i < j < s.len() ==> lex_lt(#[trigger] s[i], #[trigger] s[j])
}

/// The names of the nodes.
pub open spec fn name_set(nodes: Seq<Node>) -> Set<Seq<char>> {
    Set::new(|x: Seq<char>| exists|i: int| 0 <= i < nodes.len() && #[trigger] nodes[i].name@ == x)
}

/// Whether `s` lists the names of the nodes once each, in ascending order.
pub open spec fn lists_names(s: Seq<Seq<char>>, nodes: Seq<Node>) -> bool {
    strictly_sorted(s) && s.to_set() == name_set(nodes)
}

/// The names of the nodes, once each, in ascending order.
pub open spec fn sorted_node_names(nodes: Seq<Node>) -> Seq<Seq<char>> {
    choose|s: Seq<Seq<char>>| lists_names(s, nodes)
}

proof fn lemma_lt_trans(a: Seq<char>, b: Seq<char>, c: Seq<char>)
    requires
        lex_lt(a, b),
        lex_lt(b, c),
    ensures
        lex_lt(a, c),
{
    lemma_lex_le_trans(a, b, c);
    if a == c {
        lemma_lex_le_antisymmetric(a, b);
    }
}

proof fn lemma_sorted_prefix_equal(a: Seq<Seq<char>>, b: Seq<Seq<char>>, m: int)
    requires
        strictly_sorted(a),
        strictly_sorted(b),
        a.to_set() == b.to_set(),
        0 <= m <= a.len(),
        m <= b.len(),
    ensures
        forall|i: int| 0 <= i < m ==> #[trigger] a[i] == b[i],
    decreases m,
{
    if m > 0 {
        lemma_sorted_prefix_equal(a, b, m - 1);
        let i = m - 1;
        assert(a.to_set().contains(a[i]));
        let j = choose|j: int| 0 <= j < b.len() && b[j] == a[i];
        assert(b.to_set().contains(b[i]));
        let j2 = choose|j2: int| 0 <= j2 < a.len() && a[j2] == b[i];
        if j < i {
            assert(b[j] == a[j]);
            assert(lex_lt(a[j], a[i]));
        }
        if j2 < i {
            assert(a[j2] == b[j2]);
            assert(lex_lt(b[j2], b[i]));
        }
        if j > i && j2 > i {
            assert(lex_lt(b[i], b[j]));
            assert(lex_lt(a[i], a[j2]));
            lemma_lex_le_antisymmetric(a[i], b[i]);
        }
    }
}

/// Two ascending lists of the same names are the same list.
proof fn lemma_sorted_unique(a: Seq<Seq<char>>, b: Seq<Seq<char>>)
    requires
        strictly_sorted(a),
        strictly_sorted(b),
        a.to_set() == b.to_set(),
    ensures
        a == b,
{
    let m = if a.len() < b.len() { a.len() as int } else { b.len() as int };
    lemma_sorted_prefix_equal(a, b, m);
    if a.len() > b.len() {
        assert(a.to_set().contains(a[m]));
        let j = choose|j: int| 0 <= j < b.len() && b[j] == a[m];
        assert(b[j] == a[j]);
        assert(lex_lt(a[j], a[m]));
    } else if b.len() > a.len() {
        assert(b.to_set().contains(b[m]));
        let j = choose|j: int| 0 <= j < a.len() && a[j] == b[m];
        assert(b[j] == a[j]);
        assert(lex_lt(b[j], b[m]));
    }
    assert(a =~= b);
}

/// The names of the nodes, once each, in ascending order.
pub fn sorted_names(nodes: &Vec<Node>) -> (r: Vec<String>)
    ensures
        r@.map_values(|x: String| x@) == sorted_node_names(nodes@),
        lists_names(r@.map_values(|x: String| x@), nodes@),
{
    let mut out: Vec<String> = Vec::new();
    let mut i: usize = 0;
    while i < nodes.len()
        invariant
            i <= nodes@.len(),
            strictly_sorted(out@.map_values(|x: String| x@)),
            out@.map_values(|x: String| x@).to_set() == name_set(nodes@.subrange(0, i as int)),
        decreases nodes@.len() - i,
    {
        let ghost ov = out@.map_values(|x: String| x@);
        let name = &nodes[i].name;
        let ghost nv = name@;
        assert(name_set(nodes@.subrange(0, i + 1)) =~= name_set(nodes@.subrange(0, i as int)).insert(nv)) by {
            assert(nodes@.subrange(0, i + 1)[i as int] == nodes@[i as int]);
            assert forall|x: Seq<char>| name_set(nodes@.subrange(0, i as int)).contains(x) implies name_set(
                nodes@.subrange(0, i + 1),
            ).contains(x) by {
                let j = choose|j: int| 0 <= j < i && #[trigger] nodes@.subrange(0, i as int)[j].name@ == x;
                assert(nodes@.subrange(0, i + 1)[j] == nodes@.subrange(0, i as int)[j]);
            }
            assert forall|x: Seq<char>| name_set(nodes@.subrange(0, i + 1)).contains(x) implies name_set(
                nodes@.subrange(0, i as int),
            ).insert(nv).contains(x) by {
                let j = choose|j: int| 0 <= j < i + 1 && #[trigger] nodes@.subrange(0, i + 1)[j].name@ == x;
                if j < i {
                    assert(nodes@.subrange(0, i as int)[j] == nodes@.subrange(0, i + 1)[j]);
                }
            }
        }
        let mut pos: usize = 0;
        let mut present = false;
        while pos < out.len()
            invariant_except_break
                !present,
            invariant
                pos <= out@.len(),
                ov == out@.map_values(|x: String| x@),
                strictly_sorted(ov),
                nv == name@,
                forall|j: int| 0 <= j < pos ==> lex_lt(#[trigger] ov[j], nv),
            ensures
                present ==> pos < ov.len() && ov[pos as int] == nv,
                !present ==> pos == ov.len() || (lex_le(nv, ov[pos as int]) && nv != ov[pos as int]),
            decreases out@.len() - pos,
        {
            assert(ov[pos as int] == out@[pos as int]@);
            if str_eq(out[pos].as_str(), name.as_str()) {
                present = true;
                break;
            }
            if string_lex_le(name, &out[pos]) {
                break;
            }
            proof {
                lemma_lex_le_total(nv, ov[pos as int]);
            }
            pos = pos + 1;
        }
        if present {
            proof {
                assert(ov[pos as int] == nv);
                assert(ov.to_set().contains(nv));
                assert(ov.to_set().insert(nv) =~= ov.to_set());
            }
        } else {
            out.insert(pos, name.clone());
            proof {
                let nw = out@.map_values(|x: String| x@);
                assert(nw =~= ov.insert(pos as int, nv));
                assert forall|a: int, b: int| 0 <= a < b < nw.len() implies lex_lt(#[trigger] nw[a], #[trigger] nw[b]) by {
                    if b < pos {
                    } else if b == pos {
                        assert(nw[a] == ov[a]);
                    } else if a == pos {
                        assert(nw[b] == ov[b - 1]);
                        if b - 1 > pos {
                            assert(lex_lt(ov[pos as int], ov[b - 1]));
                            lemma_lt_trans(nv, ov[pos as int], ov[b - 1]);
                        }
                    } else if a < pos {
                        assert(nw[a] == ov[a] && nw[b] == ov[b - 1]);
                        if a < b - 1 {
                        } else {
                        }
                    } else {
                        assert(nw[a] == ov[a - 1] && nw[b] == ov[b - 1]);
                    }
                }
                assert(nw.to_set() =~= ov.to_set().insert(nv)) by {
                    assert forall|x: Seq<char>| nw.to_set().contains(x) implies ov.to_set().insert(nv).contains(x) by {
                        let j = choose|j: int| 0 <= j < nw.len() && nw[j] == x;
                        if j < pos {
                            assert(nw[j] == ov[j]);
                        } else if j > pos {
                            assert(nw[j] == ov[j - 1]);
                        }
                    }
                    assert forall|x: Seq<char>| ov.to_set().insert(nv).contains(x) implies nw.to_set().contains(x) by {
                        if x == nv {
                            assert(nw[pos as int] == nv);
                        } else {
                            let j = choose|j: int| 0 <= j < ov.len() && ov[j] == x;
                            if j < pos {
                                assert(nw[j] == x);
                            } else {
                                assert(nw[j + 1] == x);
                            }
                        }
                    }
                }
            }
        }
        i = i + 1;
    }
    proof {
        assert(nodes@.subrange(0, nodes@.len() as int) =~= nodes@);
        let v = out@.map_values(|x: String| x@);
        assert(lists_names(v, nodes@));
        let c = sorted_node_names(nodes@);
        assert(lists_names(c, nodes@));
        lemma_sorted_unique(v, c);
    }
    out
}


/// Whether instruction `i` of `node` pushes the name `y`, and the next one runs or
/// detours into the node of that name: a static jump or detour to `y`.
pub open spec fn jumps_to_at(node: NodeView, i: int, y: Seq<char>) -> bool {
    &&& 0 <= i
    &&& i + 1 < node.instructions.len()
    &&& node.instructions[i].opcode == opcode_number(OpCode::PushString)
    &&& (node.instructions[i + 1].opcode == opcode_number(OpCode::RunNode) || node.instructions[i + 1].opcode
        == opcode_number(OpCode::DetourToNode))
    &&& has_string_operand(node.instructions[i], 0)
    &&& string_operand(node.instructions[i], 0) == y
}

/// Whether `node` jumps or detours statically to `y`.
pub open spec fn jumps_to(node: NodeView, y: Seq<char>) -> bool {
    exists|i: int| #[trigger] jumps_to_at(node, i, y)
}

/// The node that the name `x` finds among `nodes`.
pub open spec fn node_of(nodes: Seq<Node>, x: Seq<char>) -> NodeView {
    nodes[node_index(nodes, x)->0]@
}

/// The positions among the first `m` of `names` of the names that the node named
/// `names[k]` jumps or detours to, ascending.
pub open spec fn successors(nodes: Seq<Node>, names: Seq<Seq<char>>, k: int, m: int) -> Seq<usize>
    decreases m,
{
    if m <= 0 {
        Seq::empty()
    } else {
        successors(nodes, names, k, m - 1) + if jumps_to(node_of(nodes, names[k]), names[m - 1]) {
            seq![(m - 1) as usize]
        } else {
            Seq::empty()
        }
    }
}

/// The graph of static jumps and detours among the nodes, over their names in
/// ascending order.
pub open spec fn program_graph(nodes: Seq<Node>) -> Seq<Seq<usize>> {
    let names = sorted_node_names(nodes);
    Seq::new(names.len(), |k: int| successors(nodes, names, k, names.len() as int))
}

proof fn lemma_successors_bounded(nodes: Seq<Node>, names: Seq<Seq<char>>, k: int, m: int)
    ensures
        forall|j: int| 0 <= j < successors(nodes, names, k, m).len() ==> #[trigger] successors(nodes, names, k, m)[j] < m,
    decreases m,
{
    if m > 0 {
        lemma_successors_bounded(nodes, names, k, m - 1);
        let prev = successors(nodes, names, k, m - 1);
        let cur = successors(nodes, names, k, m);
        assert forall|j: int| 0 <= j < cur.len() implies #[trigger] cur[j] < m by {
            if j < prev.len() {
                assert(cur[j] == prev[j]);
            }
        }
    }
}

fn index_of_name(names: &Vec<String>, t: &str) -> (r: Option<usize>)
    ensures
        r matches Some(q) ==> q < names@.len() && names@[q as int]@ == t@,
        r is None ==> forall|q: int| 0 <= q < names@.len() ==> names@[q]@ != t@,
{
    let mut q: usize = 0;
    while q < names.len()
        invariant
            q <= names@.len(),
            forall|q2: int| 0 <= q2 < q ==> names@[q2]@ != t@,
        decreases names@.len() - q,
    {
        if str_eq(names[q].as_str(), t) {
            return Some(q);
        }
        q = q + 1;
    }
    None
}

fn successors_of(program: &Program, names: &Vec<String>, k: usize) -> (r: Vec<usize>)
    requires
        names@.map_values(|x: String| x@) == sorted_node_names(program.nodes@),
        lists_names(names@.map_values(|x: String| x@), program.nodes@),
        k < names@.len(),
    ensures
        r@ == successors(program.nodes@, names@.map_values(|x: String| x@), k as int, names@.len() as int),
{
    let ghost nv = names@.map_values(|x: String| x@);
    let ghost nodes = program.nodes@;
    proof {
        assert(nv.to_set().contains(nv[k as int]));
        crate::program::lemma_node_index(nodes, nv[k as int]);
        if node_index(nodes, nv[k as int]) is None {
            let j = choose|j: int| 0 <= j < nodes.len() && #[trigger] nodes[j].name@ == nv[k as int];
            assert(nodes[j].name@ != nv[k as int]);
        }
    }
    let idx = match program.find_node(names[k].as_str()) {
        Some(i) => i,
        None => 0,
    };
    let node = &program.nodes[idx];
    let ghost nview = node@;
    assert(nview == node_of(nodes, nv[k as int]));
    let n = names.len();
    let mut flags: Vec<bool> = Vec::new();
    let mut j: usize = 0;
    while j < n
        invariant
            j <= n,
            n == names@.len(),
            flags@.len() == j,
            forall|q: int| 0 <= q < j ==> !flags@[q],
        decreases n - j,
    {
        flags.push(false);
        j = j + 1;
    }
    let len = node.instructions.len();
    let mut i: usize = 0;
    while len > 0 && i < len - 1
        invariant
            len == nview.instructions.len(),
            node@ == nview,
            n == names@.len(),
            nv == names@.map_values(|x: String| x@),
            flags@.len() == n,
            strictly_sorted(nv),
            i <= len || len == 0,
            forall|q: int| 0 <= q < n ==> flags@[q] == exists|i2: int| 0 <= i2 < i && #[trigger] jumps_to_at(nview, i2, nv[q]),
        decreases len - i,
    {
        let ins = &node.instructions[i];
        let next = &node.instructions[i + 1];
        assert(nview.instructions[i as int] == ins@);
        assert(nview.instructions[i + 1] == next@);
        let mut target: Option<usize> = None;
        if ins.opcode == OpCode::PushString.number() && (next.opcode == OpCode::RunNode.number() || next.opcode
            == OpCode::DetourToNode.number()) && ins.operands.len() > 0 {
            match &ins.operands[0] {
                Operand::StringValue(t) => {
                    target = index_of_name(names, t.as_str());
                    proof {
                        assert(has_string_operand(ins@, 0));
                        assert(string_operand(ins@, 0) == t@);
                    }
                },
                _ => {},
            }
        }
        proof {
            match target {
                Some(q0) => {
                    assert(jumps_to_at(nview, i as int, nv[q0 as int]));
                },
                None => {
                    assert forall|q: int| 0 <= q < n implies !jumps_to_at(nview, i as int, nv[q]) by {
                        if jumps_to_at(nview, i as int, nv[q]) {
                            assert(ins@.opcode == ins.opcode);
                            assert(ins@.operands.len() == ins.operands@.len());
                            assert(ins@.operands[0] == ins.operands@[0]@);
                        }
                    }
                },
            }
        }
        let ghost before = flags@;
        match target {
            Some(q) => {
                flags.set(q, true);
            },
            None => {},
        }
        proof {
            assert forall|q: int| 0 <= q < n implies flags@[q] == exists|i2: int|
                0 <= i2 < i + 1 && #[trigger] jumps_to_at(nview, i2, nv[q]) by {
                match target {
                    Some(q0) => {
                        if q != q0 {
                            assert(lex_lt(nv[q], nv[q0 as int]) || lex_lt(nv[q0 as int], nv[q]));
                            assert(!jumps_to_at(nview, i as int, nv[q]));
                        }
                    },
                    None => {
                        assert(!jumps_to_at(nview, i as int, nv[q]));
                    },
                }
            }
        }
        i = i + 1;
    }
    proof {
        assert forall|q: int| 0 <= q < n implies flags@[q] == jumps_to(nview, nv[q]) by {
            if jumps_to(nview, nv[q]) {
                let i2 = choose|i2: int| #[trigger] jumps_to_at(nview, i2, nv[q]);
                assert(0 <= i2 < i);
            }
        }
    }
    let mut out: Vec<usize> = Vec::new();
    let mut j: usize = 0;
    while j < n
        invariant
            j <= n,
            n == names@.len(),
            nv == names@.map_values(|x: String| x@),
            flags@.len() == n,
            forall|q: int| 0 <= q < n ==> flags@[q] == jumps_to(nview, nv[q]),
            nview == node_of(nodes, nv[k as int]),
            out@ == successors(nodes, nv, k as int, j as int),
        decreases n - j,
    {
        if flags[j] {
            out.push(j);
        }
        assert(out@ =~= successors(nodes, nv, k as int, j + 1));
        j = j + 1;
    }
    out
}

/// A `title:` header line; its value is group 1.
pub open spec fn cycle_title_pattern() -> Seq<char> {
    "(?m)^title:[ \\t]*([^\\r\\n#/]+?)[ \\t]*(?://[^\\r\\n]*)?$"@
}

/// The names of the nodes of the cycle `c`, joined by ` -> `.
pub open spec fn joined(names: Seq<Seq<char>>, c: Seq<usize>) -> Seq<char>
    decreases c.len(),
{
    if c.len() == 0 {
        Seq::empty()
    } else if c.len() == 1 {
        names[c[0] as int]
    } else {
        joined(names, c.drop_last()) + " -> "@ + names[c.last() as int]
    }
}

/// The report about the cycle `c` (YS0015): at the title header of its first node
/// where one is found, else about `<input>`.
pub open spec fn cycle_report(files: Seq<(String, String)>, names: Seq<Seq<char>>, c: Seq<usize>) -> DiagnosticView {
    let message = "Cyclic dependency detected: "@ + joined(names, c);
    match header_location(cycle_title_pattern(), 1, files, names[c[0] as int], files.len() as int) {
        Some((f, a, b)) => report(
            message,
            files[f].0@,
            Some((position_at(files[f].1@, a), position_at(files[f].1@, b))),
            DiagnosticSeverity::Warning,
            "YS0015"@,
        ),
        None => report(message, "<input>"@, None, DiagnosticSeverity::Warning, "YS0015"@),
    }
}

/// The reports about the cycles of the program's nodes: none where it has fewer than
/// two nodes; else one for each cycle that the search of its graph finds, in order.
pub open spec fn cycle_reports(nodes: Seq<Node>, files: Seq<(String, String)>) -> Seq<DiagnosticView> {
    let names = sorted_node_names(nodes);
    if names.len() < 2 {
        Seq::empty()
    } else {
        graph_cycles(program_graph(nodes)).map_values(|c: Seq<usize>| cycle_report(files, names, c))
    }
}

/// Reports each cycle of static jumps and detours among the program's nodes once
/// (YS0015), found by a depth-first search over the nodes and their successors in
/// ascending order of name, each cycle named from its least node. `None` where the
/// search for a title header could not run.
pub fn detect_cyclic_nodes(program: &Program, files: &Vec<(String, String)>) -> (r: Option<Vec<Diagnostic>>)
    ensures
        r is None ==> !all_scanned(cycle_title_pattern(), files@),
        r matches Some(d) ==> diagnostics_view(d@) == cycle_reports(program.nodes@, files@),
{
    let names = sorted_names(&program.nodes);
    let ghost nv = names@.map_values(|x: String| x@);
    if names.len() < 2 {
        let none: Vec<Diagnostic> = Vec::new();
        assert(diagnostics_view(none@) =~= Seq::<DiagnosticView>::empty());
        return Some(none);
    }
    let n = names.len();
    let mut adj: Vec<Vec<usize>> = Vec::new();
    let mut k: usize = 0;
    while k < n
        invariant
            k <= n,
            n == names@.len(),
            nv == names@.map_values(|x: String| x@),
            nv == sorted_node_names(program.nodes@),
            lists_names(nv, program.nodes@),
            adj@.len() == k,
            forall|q: int| 0 <= q < k ==> (#[trigger] adj@[q])@ == successors(program.nodes@, nv, q, n as int),
        decreases n - k,
    {
        let s = successors_of(program, &names, k);
        adj.push(s);
        k = k + 1;
    }
    let ghost g = adj@.map_values(|v: Vec<usize>| v@);
    assert(g =~= program_graph(program.nodes@));
    assert(well_formed_graph(g)) by {
        assert forall|i: int, j: int| 0 <= i < g.len() && 0 <= j < g[i].len() implies #[trigger] g[i][j] < g.len() by {
            lemma_successors_bounded(program.nodes@, nv, i, n as int);
        }
    }
    let cycles = find_cycles(&adj);
    let ghost cv = cycles_view(cycles@);
    let descriptor = DiagnosticDescriptor::cyclic_dependency();
    let mut out: Vec<Diagnostic> = Vec::new();
    let mut i: usize = 0;
    while i < cycles.len()
        invariant
            i <= cycles@.len(),
            cv == cycles_view(cycles@),
            cycles_ok(cv, n as int),
            n == names@.len(),
            nv == names@.map_values(|x: String| x@),
            descriptor.code@ == "YS0015"@,
            descriptor.default_severity == DiagnosticSeverity::Warning,
            diagnostics_view(out@) == cv.subrange(0, i as int).map_values(|c: Seq<usize>| cycle_report(files@, nv, c)),
        decreases cycles@.len() - i,
    {
        let c = &cycles[i];
        assert(cv[i as int] == c@);
        assert(c@.len() > 0);
        let mut message = String::from_str("Cyclic dependency detected: ");
        let mut q: usize = 0;
        while q < c.len()
            invariant
                q <= c@.len(),
                c@.len() > 0,
                cv[i as int] == c@,
                forall|j: int| 0 <= j < c@.len() ==> c@[j] < n,
                n == names@.len(),
                nv == names@.map_values(|x: String| x@),
                message@ == "Cyclic dependency detected: "@ + joined(nv, c@.subrange(0, q as int)),
            decreases c@.len() - q,
        {
            assert(c@[q as int] < n);
            if q > 0 {
                message.append(" -> ");
            }
            message.append(names[c[q]].as_str());
            proof {
                let sub = c@.subrange(0, q + 1);
                assert(sub.drop_last() =~= c@.subrange(0, q as int));
                assert(sub.last() == c@[q as int]);
                if q == 0 {
                    assert(joined(nv, sub) == nv[c@[0] as int]);
                    assert(c@.subrange(0, 0) =~= Seq::<usize>::empty());
                }
            }
            q = q + 1;
        }
        assert(c@.subrange(0, c@.len() as int) =~= c@);
        let first = names[c[0]].as_str();
        let located = header_range("(?m)^title:[ \\t]*([^\\r\\n#/]+?)[ \\t]*(?://[^\\r\\n]*)?$", 1, files, first);
        let d = match located {
            None => {
                return None;
            },
            Some(Some((f, a, b))) => {
                let source = files[f].1.as_str();
                let (l1, c1) = crate::source_text::offset_to_line_col(source, a);
                let (l2, c2) = crate::source_text::offset_to_line_col(source, b);
                descriptor.create_with_range(
                    files[f].0.clone(),
                    Position { line: l1, character: c1 },
                    Position { line: l2, character: c2 },
                    message,
                )
            },
            Some(None) => descriptor.create(String::from_str("<input>"), message),
        };
        assert(d@ == cycle_report(files@, nv, c@));
        let ghost before = out@;
        out.push(d);
        assert(cv.subrange(0, i + 1) =~= cv.subrange(0, i as int).push(c@));
        assert(diagnostics_view(out@) =~= diagnostics_view(before).push(d@));
        assert(cv.subrange(0, i + 1).map_values(|c: Seq<usize>| cycle_report(files@, nv, c)) =~= cv.subrange(
            0,
            i as int,
        ).map_values(|c: Seq<usize>| cycle_report(files@, nv, c)).push(cycle_report(files@, nv, c@)));
        assert(diagnostics_view(out@) =~= cv.subrange(0, i + 1).map_values(|c: Seq<usize>| cycle_report(files@, nv, c)));
        i = i + 1;
    }
    assert(cv.subrange(0, cycles@.len() as int) =~= cv);
    Some(out)
}

} // verus!
