//! Unreachable code: blocks of a compiled node that no other block leads to.
use vstd::prelude::*;

use crate::analysis::{
    block_ok, get_basic_blocks, has_edge, is_basic_block_decomposition, is_leader, leaders_of, lemma_leaders_ascending,
    node_operands_ok, starts_of,
};
use crate::diagnostics::{diagnostics_view, report, Diagnostic, DiagnosticDescriptor, DiagnosticSeverity, DiagnosticView};
use crate::program::{Node, NodeView};

verus! {

proof fn lemma_start_in(node: NodeView, a: Seq<usize>, b: Seq<usize>, i: int)
    requires
        leaders_of(node, a),
        leaders_of(node, b),
        0 <= i < a.len(),
    ensures
        exists|j: int| 0 <= j < b.len() && #[trigger] b[j] == a[i],
{
    reveal(leaders_of);
    assert(is_leader(node, a[i] as int));
}

proof fn lemma_starts_ascend(node: NodeView, a: Seq<usize>, x: int, y: int)
    requires
        leaders_of(node, a),
        0 <= x < y < a.len(),
    ensures
        a[x] < a[y],
{
    reveal(leaders_of);
    lemma_leaders_ascending(a, x, y);
}

/// Two lists of block starts of the same node are the same list.
pub proof fn lemma_leaders_unique(node: NodeView, a: Seq<usize>, b: Seq<usize>)
    requires
        leaders_of(node, a),
        leaders_of(node, b),
    ensures
        a == b,
{
    lemma_prefix_equal(node, a, b, if a.len() < b.len() { a.len() as int } else { b.len() as int });
    if a.len() > b.len() {
        let m = b.len() as int;
        lemma_start_in(node, a, b, m);
        let j = choose|j: int| 0 <= j < b.len() && #[trigger] b[j] == a[m];
        lemma_starts_ascend(node, a, j, m);
        assert(b[j] == a[j]);
    } else if b.len() > a.len() {
        let m = a.len() as int;
        lemma_start_in(node, b, a, m);
        let j = choose|j: int| 0 <= j < a.len() && #[trigger] a[j] == b[m];
        lemma_starts_ascend(node, b, j, m);
        assert(b[j] == a[j]);
    }
    assert(a =~= b);
}

proof fn lemma_prefix_equal(node: NodeView, a: Seq<usize>, b: Seq<usize>, m: int)
    requires
        leaders_of(node, a),
        leaders_of(node, b),
        0 <= m <= a.len(),
        m <= b.len(),
    ensures
        forall|i: int| 0 <= i < m ==> #[trigger] a[i] == b[i],
    decreases m,
{
    if m > 0 {
        lemma_prefix_equal(node, a, b, m - 1);
        let i = m - 1;
        lemma_start_in(node, a, b, i);
        let j = choose|j: int| 0 <= j < b.len() && #[trigger] b[j] == a[i];
        if j < i {
            lemma_starts_ascend(node, a, j, i);
            assert(a[j] == b[j]);
        }
        if i < j {
            lemma_starts_ascend(node, b, i, j);
        }
        lemma_start_in(node, b, a, i);
        let j2 = choose|j2: int| 0 <= j2 < a.len() && #[trigger] a[j2] == b[i];
        if j2 < i {
            lemma_starts_ascend(node, b, j2, i);
            assert(a[j2] == b[j2]);
        }
        if i < j2 {
            lemma_starts_ascend(node, a, i, j2);
        }
    }
}

/// The block starts of `node`.
pub open spec fn block_starts(node: NodeView) -> Seq<usize> {
    choose|l: Seq<usize>| leaders_of(node, l)
}

/// Whether no block of `node` (with block starts `l`) leads to block `k`.
pub open spec fn no_edge_into(node: NodeView, l: Seq<usize>, k: int) -> bool {
    forall|p: int| 0 <= p < l.len() ==> !#[trigger] has_edge(node, l, p, k)
}

/// Whether some block of `node` other than its first has no block leading to it.
pub open spec fn has_unreachable_code(node: NodeView) -> bool {
    &&& node.instructions.len() > 0
    &&& exists|k: int| 1 <= k < block_starts(node).len() && #[trigger] no_edge_into(node, block_starts(node), k)
}

/// Whether `node` holds code that can never run.
pub fn node_has_unreachable_code(node: &Node) -> (r: bool)
    requires
        node_operands_ok(node@),
    ensures
        r == has_unreachable_code(node@),
{
    let blocks = get_basic_blocks(node);
    if node.instructions.len() == 0 {
        return false;
    }
    let ghost l = starts_of(blocks@);
    proof {
        assert(leaders_of(node@, l));
        lemma_leaders_unique(node@, l, block_starts(node@));
        reveal(leaders_of);
    }
    let mut k: usize = 1;
    while k < blocks.len()
        invariant
            is_basic_block_decomposition(node@, blocks@),
            node@.instructions.len() > 0,
            l == starts_of(blocks@),
            l == block_starts(node@),
            l.len() == blocks@.len(),
            1 <= k <= blocks@.len(),
            forall|j: int| 1 <= j < k ==> !#[trigger] no_edge_into(node@, l, j),
        decreases blocks@.len() - k,
    {
        proof {
            assert(block_ok(node@, l, k as int, blocks@[k as int]@));
            reveal(block_ok);
            reveal(leaders_of);
            assert(is_leader(node@, l[k as int] as int));
            if k + 1 < blocks.len() {
                assert(l[k as int] < l[k + 1]);
            }
        }
        let b = &blocks[k];
        if b.ancestor_indices.len() == 0 && b.instructions.len() > 0 {
            proof {
                assert forall|p: int| 0 <= p < l.len() implies !#[trigger] has_edge(node@, l, p, k as int) by {
                    if has_edge(node@, l, p, k as int) {
                        assert(b@.ancestor_indices.contains(p as usize));
                    }
                }
                assert(no_edge_into(node@, l, k as int));
            }
            return true;
        }
        proof {
            assert(b@.instructions.len() > 0);
            let q = b@.ancestor_indices[0];
            assert(has_edge(node@, l, q as int, k as int));
            assert(!no_edge_into(node@, l, k as int));
        }
        k = k + 1;
    }
    false
}

/// The diagnostic for a node with unreachable code, in the file `file`.
pub open spec fn unreachable_report(file: Seq<char>) -> DiagnosticView {
    report("Unreachable code"@, file, None, DiagnosticSeverity::Warning, "YS0008"@)
}

/// The diagnostics for the nodes of `nodes` with unreachable code, one per node, in
/// order.
pub open spec fn unreachable_reports(nodes: Seq<Node>, file: Seq<char>) -> Seq<DiagnosticView>
    decreases nodes.len(),
{
    if nodes.len() == 0 {
        Seq::empty()
    } else if has_unreachable_code(nodes.last()@) {
        unreachable_reports(nodes.drop_last(), file).push(unreachable_report(file))
    } else {
        unreachable_reports(nodes.drop_last(), file)
    }
}

/// The file the diagnostics are about: the first source file, or `<input>`.
pub open spec fn report_file(files: Seq<String>) -> Seq<char> {
    if files.len() > 0 {
        files[0]@
    } else {
        "<input>"@
    }
}

/// Reports, once per node, every node of the program that holds code that can never
/// run (YS0008), about the first source file.
pub fn detect_unreachable_code(nodes: &Vec<Node>, file_names: &Vec<String>) -> (r: Vec<Diagnostic>)
    requires
        forall|i: int| 0 <= i < nodes@.len() ==> node_operands_ok(#[trigger] nodes@[i]@),
    ensures
        diagnostics_view(r@) == unreachable_reports(nodes@, report_file(file_names@)),
{
    let file: String = if file_names.len() > 0 {
        file_names[0].clone()
    } else {
        String::from_str("<input>")
    };
    let ghost f = report_file(file_names@);
    let descriptor = DiagnosticDescriptor::unreachable_code();
    let mut out: Vec<Diagnostic> = Vec::new();
    let mut i: usize = 0;
    while i < nodes.len()
        invariant
            i <= nodes@.len(),
            file@ == f,
            descriptor.code@ == "YS0008"@,
            descriptor.default_severity == DiagnosticSeverity::Warning,
            forall|j: int| 0 <= j < nodes@.len() ==> node_operands_ok(#[trigger] nodes@[j]@),
            diagnostics_view(out@) == unreachable_reports(nodes@.subrange(0, i as int), f),
        decreases nodes@.len() - i,
    {
        assert(nodes@.subrange(0, i + 1).drop_last() =~= nodes@.subrange(0, i as int));
        assert(nodes@.subrange(0, i + 1).last() == nodes@[i as int]);
        if node_has_unreachable_code(&nodes[i]) {
            let d = descriptor.create(file.clone(), String::from_str("Unreachable code"));
            let ghost before = out@;
            out.push(d);
            assert(diagnostics_view(out@) =~= diagnostics_view(before).push(d@));
        }
        i = i + 1;
    }
    assert(nodes@.subrange(0, nodes@.len() as int) =~= nodes@);
    out
}

} // verus!
