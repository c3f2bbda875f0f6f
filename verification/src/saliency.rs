//! Content saliency: choosing the most appropriate piece of content among
//! candidates (line groups, node groups).
//!
//! A strategy sees the candidates together with how often each has been viewed
//! (`view_counts[i]` belongs to `content[i]`).
use crate::vm::{increment_view_count, DialogueHost};
use vstd::prelude::*;

verus! {

/// What kind of content a [`ContentSaliencyOption`] stands for.
#[derive(Debug, Clone, Copy, PartialEq, Eq, Structural)]
pub enum ContentType {
    /// A node of a node group.
    Node,
    /// A line of a line group.
    Line,
}

/// A piece of content that a [`ContentSaliencyStrategy`] may select.
#[derive(Debug)]
pub struct ContentSaliencyOption {
    /// Uniquely identifies this content.
    pub content_id: String,
    /// The number of conditions that passed for this content.
    pub passing_condition_count: i32,
    /// The number of conditions that failed for this content.
    pub failing_condition_count: i32,
    /// The complexity score (number of condition variables).
    pub complexity_score: i32,
    /// The kind of content.
    pub content_type: ContentType,
    /// The instruction index that the content starts at.
    pub destination: usize,
}

/// The prefix of the variable names that hold view counts.
pub open spec fn view_count_prefix() -> Seq<char> {
    "$Yarn.Internal.Content.ViewCount."@
}

impl ContentSaliencyOption {
    /// The variable name under which the view count of this content is kept.
    pub fn view_count_key(&self) -> (r: String)
        ensures
            r@ == view_count_prefix() + self.content_id@,
    {
        let mut key = String::from_str("$Yarn.Internal.Content.ViewCount.");
        key.append(self.content_id.as_str());
        key
    }
}

/// Whether no condition of content `i` failed.
pub open spec fn passes(content: Seq<ContentSaliencyOption>, i: int) -> bool {
    content[i].failing_condition_count == 0
}

/// Whether some content passes.
pub open spec fn any_passes(content: Seq<ContentSaliencyOption>) -> bool {
    exists|i: int| 0 <= i < content.len() && passes(content, i)
}

/// The index of the first passing content.
pub open spec fn is_first_passing(content: Seq<ContentSaliencyOption>, i: int) -> bool {
    &&& 0 <= i < content.len()
    &&& passes(content, i)
    &&& forall|j: int| 0 <= j < i ==> !passes(content, j)
}

/// Whether `i` is the passing content of highest complexity, the last such on ties.
pub open spec fn is_last_most_complex(content: Seq<ContentSaliencyOption>, i: int) -> bool {
    &&& 0 <= i < content.len()
    &&& passes(content, i)
    &&& forall|j: int| 0 <= j < content.len() && passes(content, j) ==> content[j].complexity_score <= content[i].complexity_score
    &&& forall|j: int| i < j < content.len() && passes(content, j) ==> content[j].complexity_score < content[i].complexity_score
}

/// Whether content `i` ranks at least as well as content `j`: fewer views, or as
/// many views and at least the complexity.
pub open spec fn ranks_le(content: Seq<ContentSaliencyOption>, views: Seq<i32>, i: int, j: int) -> bool {
    views[i] < views[j] || (views[i] == views[j] && content[i].complexity_score >= content[j].complexity_score)
}

/// Whether `i` is the first passing content of best rank.
pub open spec fn is_first_best_ranked(content: Seq<ContentSaliencyOption>, views: Seq<i32>, i: int) -> bool {
    &&& 0 <= i < content.len()
    &&& passes(content, i)
    &&& forall|j: int| 0 <= j < content.len() && passes(content, j) ==> ranks_le(content, views, i, j)
    &&& forall|j: int| 0 <= j < i && passes(content, j) ==> !ranks_le(content, views, j, i)
}

/// Whether content `i` is among the best: passing, least viewed, and most complex
/// among the least viewed.
pub open spec fn is_best(content: Seq<ContentSaliencyOption>, views: Seq<i32>, i: int) -> bool {
    &&& 0 <= i < content.len()
    &&& passes(content, i)
    &&& forall|j: int| 0 <= j < content.len() && passes(content, j) ==> ranks_le(content, views, i, j)
}

/// The best contents among the first `n`, in order.
pub open spec fn best_candidates(content: Seq<ContentSaliencyOption>, views: Seq<i32>, n: int) -> Seq<int>
    decreases n,
{
    if n <= 0 {
        seq![]
    } else if is_best(content, views, n - 1) {
        best_candidates(content, views, n - 1).push(n - 1)
    } else {
        best_candidates(content, views, n - 1)
    }
}

/// A strategy for choosing the most appropriate piece of content.
pub trait ContentSaliencyStrategy {
    /// Whether this strategy may answer `r` for `content`, where `view_counts[i]` is
    /// how often `content[i]` has been viewed: how the strategy ranks.
    spec fn chooses(&self, content: Seq<ContentSaliencyOption>, view_counts: Seq<i32>, r: Option<usize>) -> bool;

    /// Chooses a content index among `content`, where `view_counts[i]` is how often
    /// `content[i]` has been viewed; `None` when no content should be shown.
    fn query_best_content(&mut self, content: &Vec<ContentSaliencyOption>, view_counts: &Vec<i32>) -> (r: Option<usize>)
        requires
            view_counts@.len() == content@.len(),
        ensures
            r matches Some(i) ==> i < content@.len() && passes(content@, i as int),
            r is None <==> !any_passes(content@),
            old(self).chooses(content@, view_counts@, r),
    ;

    /// Tells the strategy that `content` was selected; the strategies that rank by
    /// views count it as viewed once more in the host's variable storage.
    fn content_was_selected<C, H: DialogueHost<C>>(&mut self, content: &ContentSaliencyOption, host: &mut H);
}

/// Picks the first content whose conditions all passed.
#[derive(Debug, Clone, Copy)]
pub struct FirstSaliencyStrategy;

impl FirstSaliencyStrategy {
    /// The first passing content.
    pub fn query(&self, content: &Vec<ContentSaliencyOption>) -> (r: Option<usize>)
        ensures
            r matches Some(i) ==> is_first_passing(content@, i as int),
            r is None <==> !any_passes(content@),
    {
        let mut i: usize = 0;
        while i < content.len()
            invariant
                i <= content@.len(),
                forall|j: int| 0 <= j < i ==> !passes(content@, j),
            decreases content@.len() - i,
        {
            if content[i].failing_condition_count == 0 {
                assert(passes(content@, i as int));
                return Some(i);
            }
            i = i + 1;
        }
        None
    }
}

impl ContentSaliencyStrategy for FirstSaliencyStrategy {
    open spec fn chooses(&self, content: Seq<ContentSaliencyOption>, view_counts: Seq<i32>, r: Option<usize>) -> bool {
        r matches Some(i) ==> is_first_passing(content, i as int)
    }

    fn query_best_content(&mut self, content: &Vec<ContentSaliencyOption>, view_counts: &Vec<i32>) -> (r: Option<usize>)
        ensures
            r matches Some(i) ==> is_first_passing(content@, i as int),
    {
        self.query(content)
    }

    fn content_was_selected<C, H: DialogueHost<C>>(&mut self, content: &ContentSaliencyOption, host: &mut H) {
    }
}

/// Picks the passing content of highest complexity (the last one on ties).
#[derive(Debug, Clone, Copy)]
pub struct BestSaliencyStrategy;

impl BestSaliencyStrategy {
    /// The most complex passing content, the last one on ties.
    pub fn query(&self, content: &Vec<ContentSaliencyOption>) -> (r: Option<usize>)
        ensures
            r matches Some(i) ==> is_last_most_complex(content@, i as int),
            r is None <==> !any_passes(content@),
    {
        let mut best: Option<usize> = None;
        let mut i: usize = 0;
        while i < content.len()
            invariant
                i <= content@.len(),
                best is None <==> forall|j: int| 0 <= j < i ==> !passes(content@, j),
                best matches Some(b) ==> {
                    &&& b < i
                    &&& passes(content@, b as int)
                    &&& forall|j: int| 0 <= j < i && passes(content@, j) ==> content@[j].complexity_score
                        <= content@[b as int].complexity_score
                    &&& forall|j: int| b < j < i && passes(content@, j) ==> content@[j].complexity_score
                        < content@[b as int].complexity_score
                },
            decreases content@.len() - i,
        {
            if content[i].failing_condition_count == 0 {
                assert(passes(content@, i as int));
                match best {
                    Some(b) => {
                        if content[i].complexity_score >= content[b].complexity_score {
                            best = Some(i);
                        }
                    },
                    None => {
                        best = Some(i);
                    },
                }
            }
            i = i + 1;
        }
        best
    }
}

impl ContentSaliencyStrategy for BestSaliencyStrategy {
    open spec fn chooses(&self, content: Seq<ContentSaliencyOption>, view_counts: Seq<i32>, r: Option<usize>) -> bool {
        r matches Some(i) ==> is_last_most_complex(content, i as int)
    }

    fn query_best_content(&mut self, content: &Vec<ContentSaliencyOption>, view_counts: &Vec<i32>) -> (r: Option<usize>)
        ensures
            r matches Some(i) ==> is_last_most_complex(content@, i as int),
    {
        self.query(content)
    }

    fn content_was_selected<C, H: DialogueHost<C>>(&mut self, content: &ContentSaliencyOption, host: &mut H) {
    }
}

/// Picks the least viewed, then most complex, passing content (the first one on
/// full ties). This is the default strategy.
#[derive(Debug, Clone, Copy)]
pub struct BestLeastRecentlyViewedSaliencyStrategy;

impl BestLeastRecentlyViewedSaliencyStrategy {
    /// The best-ranked passing content, the first one on ties.
    pub fn query(&self, content: &Vec<ContentSaliencyOption>, view_counts: &Vec<i32>) -> (r: Option<usize>)
        requires
            view_counts@.len() == content@.len(),
        ensures
            r matches Some(i) ==> is_first_best_ranked(content@, view_counts@, i as int),
            r is None <==> !any_passes(content@),
    {
        let ghost c = content@;
        let ghost v = view_counts@;
        let mut best: Option<usize> = None;
        let mut i: usize = 0;
        while i < content.len()
            invariant
                c == content@,
                v == view_counts@,
                v.len() == c.len(),
                i <= c.len(),
                best is None <==> forall|j: int| 0 <= j < i ==> !passes(c, j),
                best matches Some(b) ==> {
                    &&& b < i
                    &&& passes(c, b as int)
                    &&& forall|j: int| 0 <= j < i && passes(c, j) ==> ranks_le(c, v, b as int, j)
                    &&& forall|j: int| 0 <= j < b && passes(c, j) ==> !ranks_le(c, v, j, b as int)
                },
            decreases c.len() - i,
        {
            if content[i].failing_condition_count == 0 {
                assert(passes(c, i as int));
                match best {
                    Some(b) => {
                        let better = view_counts[i] < view_counts[b] || (view_counts[i] == view_counts[b]
                            && content[i].complexity_score > content[b].complexity_score);
                        if better {
                            best = Some(i);
                        }
                    },
                    None => {
                        best = Some(i);
                    },
                }
            }
            i = i + 1;
        }
        best
    }
}

impl ContentSaliencyStrategy for BestLeastRecentlyViewedSaliencyStrategy {
    open spec fn chooses(&self, content: Seq<ContentSaliencyOption>, view_counts: Seq<i32>, r: Option<usize>) -> bool {
        &&& r matches Some(i) ==> is_first_best_ranked(content, view_counts, i as int)
        &&& r is None <==> !any_passes(content)
    }

    fn query_best_content(&mut self, content: &Vec<ContentSaliencyOption>, view_counts: &Vec<i32>) -> (r: Option<usize>)
        ensures
            r matches Some(i) ==> is_first_best_ranked(content@, view_counts@, i as int),
    {
        self.query(content, view_counts)
    }

    fn content_was_selected<C, H: DialogueHost<C>>(&mut self, content: &ContentSaliencyOption, host: &mut H) {
        increment_view_count(content, host);
    }
}

/// Picks among the best contents (least viewed, then most complex) by a counter
/// that advances on every query, so that ties take turns.
#[derive(Debug, Clone, Copy)]
pub struct RandomBestLeastRecentlyViewedSaliencyStrategy {
    /// Advances by one on every query that has candidates.
    pub counter: u64,
}

impl RandomBestLeastRecentlyViewedSaliencyStrategy {
    /// A strategy whose counter starts at 0.
    pub fn new() -> (r: Self)
        ensures
            r.counter == 0,
    {
        RandomBestLeastRecentlyViewedSaliencyStrategy { counter: 0 }
    }

    /// A strategy whose counter starts at `seed`.
    pub fn with_seed(seed: u64) -> (r: Self)
        ensures
            r.counter == seed,
    {
        RandomBestLeastRecentlyViewedSaliencyStrategy { counter: seed }
    }

    /// The best contents, in order.
    fn best_indices(content: &Vec<ContentSaliencyOption>, view_counts: &Vec<i32>) -> (r: Vec<usize>)
        requires
            view_counts@.len() == content@.len(),
        ensures
            r@.len() == best_candidates(content@, view_counts@, content@.len() as int).len(),
            forall|q: int| 0 <= q < r@.len() ==> #[trigger] r@[q] as int == best_candidates(
                content@,
                view_counts@,
                content@.len() as int,
            )[q],
    {
        let ghost c = content@;
        let ghost v = view_counts@;
        // The least view count among passing content, then the greatest complexity
        // among passing content with that view count.
        let mut min_views: Option<i32> = None;
        let mut i: usize = 0;
        while i < content.len()
            invariant
                c == content@,
                v == view_counts@,
                v.len() == c.len(),
                i <= c.len(),
                min_views is None <==> forall|j: int| 0 <= j < i ==> !passes(c, j),
                min_views matches Some(m) ==> (exists|j: int| 0 <= j < i && passes(c, j) && v[j] == m) && forall|j: int|
                    0 <= j < i && passes(c, j) ==> m <= v[j],
            decreases c.len() - i,
        {
            if content[i].failing_condition_count == 0 {
                assert(passes(c, i as int));
                match min_views {
                    Some(m) => {
                        if view_counts[i] < m {
                            min_views = Some(view_counts[i]);
                        }
                    },
                    None => {
                        min_views = Some(view_counts[i]);
                    },
                }
            }
            i = i + 1;
        }
        let mut out: Vec<usize> = Vec::new();
        match min_views {
            None => {
                proof {
                    lemma_no_best_candidates(c, v, c.len() as int);
                }
                return out;
            },
            Some(m) => {
                let mut max_c: Option<i32> = None;
                let mut i: usize = 0;
                while i < content.len()
                    invariant
                        c == content@,
                        v == view_counts@,
                        v.len() == c.len(),
                        i <= c.len(),
                        forall|j: int| 0 <= j < c.len() && passes(c, j) ==> m <= v[j],
                        max_c is None <==> forall|j: int| 0 <= j < i ==> !(passes(c, j) && v[j] == m),
                        max_c matches Some(x) ==> (exists|j: int| 0 <= j < i && passes(c, j) && v[j] == m
                            && c[j].complexity_score == x) && forall|j: int| 0 <= j < i && passes(c, j) && v[j] == m
                            ==> c[j].complexity_score <= x,
                    decreases c.len() - i,
                {
                    if content[i].failing_condition_count == 0 && view_counts[i] == m {
                        match max_c {
                            Some(x) => {
                                if content[i].complexity_score > x {
                                    max_c = Some(content[i].complexity_score);
                                }
                            },
                            None => {
                                max_c = Some(content[i].complexity_score);
                            },
                        }
                    }
                    i = i + 1;
                }
                let x = match max_c {
                    Some(x) => x,
                    None => {
                        proof {
                            let j = choose|j: int| 0 <= j < c.len() && passes(c, j) && v[j] == m;
                            assert(!(passes(c, j) && v[j] == m));
                        }
                        0
                    },
                };
                let mut i: usize = 0;
                while i < content.len()
                    invariant
                        c == content@,
                        v == view_counts@,
                        v.len() == c.len(),
                        i <= c.len(),
                        forall|j: int| 0 <= j < c.len() && passes(c, j) ==> m <= v[j],
                        exists|j: int| 0 <= j < c.len() && passes(c, j) && v[j] == m && c[j].complexity_score == x,
                        forall|j: int| 0 <= j < c.len() && passes(c, j) && v[j] == m ==> c[j].complexity_score <= x,
                        out@.len() == best_candidates(c, v, i as int).len(),
                        forall|q: int| 0 <= q < out@.len() ==> #[trigger] out@[q] as int == best_candidates(c, v, i as int)[q],
                    decreases c.len() - i,
                {
                    let pick = content[i].failing_condition_count == 0 && view_counts[i] == m
                        && content[i].complexity_score == x;
                    proof {
                        let w = choose|j: int| 0 <= j < c.len() && passes(c, j) && v[j] == m && c[j].complexity_score == x;
                        if is_best(c, v, i as int) {
                            assert(ranks_le(c, v, i as int, w));
                        }
                        assert(pick == is_best(c, v, i as int));
                    }
                    if pick {
                        out.push(i);
                    }
                    i = i + 1;
                }
                out
            },
        }
    }
}

/// Without passing content there are no best candidates.
proof fn lemma_no_best_candidates(content: Seq<ContentSaliencyOption>, views: Seq<i32>, n: int)
    requires
        forall|j: int| 0 <= j < content.len() ==> !passes(content, j),
        n <= content.len(),
    ensures
        best_candidates(content, views, n).len() == 0,
    decreases n,
{
    if n > 0 {
        lemma_no_best_candidates(content, views, n - 1);
    }
}

/// The best candidates are exactly the best contents, each at most once.
proof fn lemma_best_candidates_members(content: Seq<ContentSaliencyOption>, views: Seq<i32>, n: int)
    requires
        0 <= n <= content.len(),
    ensures
        forall|q: int| 0 <= q < best_candidates(content, views, n).len() ==> 0 <= #[trigger] best_candidates(
            content,
            views,
            n,
        )[q] < n && is_best(content, views, best_candidates(content, views, n)[q]),
        forall|i: int| 0 <= i < n && is_best(content, views, i) ==> best_candidates(content, views, n).contains(i),
    decreases n,
{
    if n > 0 {
        lemma_best_candidates_members(content, views, n - 1);
        let prev = best_candidates(content, views, n - 1);
        if is_best(content, views, n - 1) {
            assert(best_candidates(content, views, n) == prev.push(n - 1));
            assert forall|i: int| 0 <= i < n && is_best(content, views, i) implies best_candidates(
                content,
                views,
                n,
            ).contains(i) by {
                if i < n - 1 {
                    let q = choose|q: int| 0 <= q < prev.len() && prev[q] == i;
                    assert(prev.push(n - 1)[q] == i);
                } else {
                    assert(prev.push(n - 1)[prev.len() as int] == i);
                }
            }
        }
    }
}

impl ContentSaliencyStrategy for RandomBestLeastRecentlyViewedSaliencyStrategy {
    open spec fn chooses(&self, content: Seq<ContentSaliencyOption>, view_counts: Seq<i32>, r: Option<usize>) -> bool {
        let cands = best_candidates(content, view_counts, content.len() as int);
        &&& cands.len() == 0 ==> r is None
        &&& cands.len() > 0 ==> r == Some(cands[((self.counter as usize) as int) % (cands.len() as int)] as usize)
    }

    fn query_best_content(&mut self, content: &Vec<ContentSaliencyOption>, view_counts: &Vec<i32>) -> (r: Option<usize>)
        ensures
            ({
                let cands = best_candidates(content@, view_counts@, content@.len() as int);
                &&& cands.len() == 0 ==> r is None && final(self).counter == old(self).counter
                &&& cands.len() > 0 ==> r == Some(cands[((old(self).counter as usize) as int) % (cands.len() as int)] as usize)
                    && final(self).counter == old(self).counter.wrapping_add(1)
            }),
    {
        let candidates = Self::best_indices(content, view_counts);
        proof {
            lemma_best_candidates_members(content@, view_counts@, content@.len() as int);
        }
        if candidates.len() == 0 {
            proof {
                if any_passes(content@) {
                    let i = choose|i: int| 0 <= i < content@.len() && passes(content@, i);
                    lemma_a_best_exists(content@, view_counts@, i);
                    let b = choose|b: int| is_best(content@, view_counts@, b);
                    assert(best_candidates(content@, view_counts@, content@.len() as int).contains(b));
                }
            }
            return None;
        }
        let counter = self.counter;
        self.counter = self.counter.wrapping_add(1);
        let idx = (counter as usize) % candidates.len();
        let chosen = candidates[idx];
        proof {
            let cands = best_candidates(content@, view_counts@, content@.len() as int);
            assert(chosen as int == cands[idx as int]);
            assert(is_best(content@, view_counts@, cands[idx as int]));
        }
        Some(chosen)
    }

    fn content_was_selected<C, H: DialogueHost<C>>(&mut self, content: &ContentSaliencyOption, host: &mut H) {
        increment_view_count(content, host);
    }
}

/// When some content passes, some content is among the best.
proof fn lemma_a_best_exists(content: Seq<ContentSaliencyOption>, views: Seq<i32>, i: int)
    requires
        0 <= i < content.len(),
        passes(content, i),
        views.len() == content.len(),
    ensures
        exists|b: int| is_best(content, views, b),
    decreases content.len() - i,
{
    if !is_best(content, views, i) {
        let j = choose|j: int| 0 <= j < content.len() && passes(content, j) && !ranks_le(content, views, i, j);
        // j ranks strictly better than i; descend along strictly better ranks.
        lemma_better_exists_best(content, views, j, views[j] as int, content[j].complexity_score as int);
    }
}

/// Descends along strictly better ranks until a best content is reached.
proof fn lemma_better_exists_best(content: Seq<ContentSaliencyOption>, views: Seq<i32>, i: int, vi: int, ci: int)
    requires
        0 <= i < content.len(),
        passes(content, i),
        views.len() == content.len(),
        vi == views[i],
        ci == content[i].complexity_score,
    ensures
        exists|b: int| is_best(content, views, b),
    decreases vi - i32::MIN, i32::MAX - ci,
{
    if !is_best(content, views, i) {
        let j = choose|j: int| 0 <= j < content.len() && passes(content, j) && !ranks_le(content, views, i, j);
        lemma_better_exists_best(content, views, j, views[j] as int, content[j].complexity_score as int);
    }
}

impl RandomBestLeastRecentlyViewedSaliencyStrategy {
    /// A strategy seeded with zero is the strategy that `new` (and `default`) makes:
    /// any two strategies whose counters start at zero are the same strategy.
    pub proof fn law_zero_seed_is_new(seeded: Self, fresh: Self)
        requires
            seeded.counter == 0,
            fresh.counter == 0,
        ensures
            seeded == fresh,
    {
    }
}

impl Default for RandomBestLeastRecentlyViewedSaliencyStrategy {
    fn default() -> (r: Self)
        ensures
            r.counter == 0,
    {
        Self::new()
    }
}

} // verus!
