//! Uniform-cost search over the link graph. Following the link at position
//! `j` of a page of `n` links costs `weight_of(j, n) + WEIGHT_ONE`; the
//! traversal settles nodes in order of their least cost from the start.

use vstd::prelude::*;
use vstd::set_lib::{lemma_int_range, lemma_len_subset, lemma_map_size_bound, set_int_range};
use crate::graph::{graph_ok, WikiGraph};
use crate::page::{lemma_weight_range, linear_distance, weight_of, WEIGHT_ONE};

verus! {

broadcast use vstd::std_specs::hash::group_hash_axioms;

/// The cost of following the link at position `j` of the page of `u`.
pub open spec fn step_cost(g: Map<u32, Seq<u32>>, u: u32, j: int) -> int {
    weight_of(j, g[u].len() as int) + WEIGHT_ONE
}

pub open spec fn is_edge(g: Map<u32, Seq<u32>>, u: u32, w: u32) -> bool {
    g.contains_key(u) && g[u].contains(w)
}

/// The cost of the link from `u` to `w`.
pub open spec fn edge_cost(g: Map<u32, Seq<u32>>, u: u32, w: u32) -> int {
    step_cost(g, u, g[u].index_of(w))
}

/// `p` follows links of `g`, node by node.
pub open spec fn is_walk(g: Map<u32, Seq<u32>>, p: Seq<u32>) -> bool {
    &&& p.len() >= 1
    &&& forall|i: int| 0 <= i < p.len() - 1 ==> #[trigger] is_edge(g, p[i], p[i + 1])
}

/// A walk of `g` that begins at `start`.
pub open spec fn walk_from(g: Map<u32, Seq<u32>>, start: u32, p: Seq<u32>) -> bool {
    is_walk(g, p) && p[0] == start
}

/// The summed cost of the links of a walk.
pub open spec fn walk_cost(g: Map<u32, Seq<u32>>, p: Seq<u32>) -> int
    decreases p.len(),
{
    if p.len() <= 1 {
        0
    } else {
        walk_cost(g, p.drop_last()) + edge_cost(g, p[p.len() - 2], p[p.len() - 1])
    }
}

/// The least cost of a walk from `start` to `v`, where `d` is the cost of one.
pub open spec fn is_least_cost(g: Map<u32, Seq<u32>>, start: u32, v: u32, d: int) -> bool {
    forall|q: Seq<u32>|
        walk_from(g, start, q) && q.last() == v ==> d <= #[trigger] walk_cost(g, q)
}

/// Some walk from `start` reaches `v` at cost at most `max`.
pub open spec fn reachable_within(g: Map<u32, Seq<u32>>, start: u32, v: u32, max: int) -> bool {
    exists|q: Seq<u32>| walk_from(g, start, q) && q.last() == v && #[trigger] walk_cost(g, q) <= max
}

pub proof fn lemma_index_of_distinct(s: Seq<u32>, j: int)
    requires
        s.no_duplicates(),
        0 <= j < s.len(),
    ensures
        s.index_of(s[j]) == j,
{
    assert(s.contains(s[j]));
    let i = s.index_of(s[j]);
    assert(0 <= i < s.len() && s[i] == s[j]);
}

pub proof fn lemma_edge_cost(g: Map<u32, Seq<u32>>, u: u32, w: u32)
    requires
        is_edge(g, u, w),
    ensures
        0 <= g[u].index_of(w) < g[u].len(),
        g[u][g[u].index_of(w)] == w,
        WEIGHT_ONE < edge_cost(g, u, w) <= 2 * WEIGHT_ONE,
{
    let j = g[u].index_of(w);
    assert(0 <= j < g[u].len() && g[u][j] == w);
    lemma_weight_range(j, g[u].len() as int);
}

/// Extending a walk by one link adds that link's cost.
pub proof fn lemma_walk_push(g: Map<u32, Seq<u32>>, p: Seq<u32>, w: u32)
    requires
        is_walk(g, p),
        is_edge(g, p.last(), w),
    ensures
        is_walk(g, p.push(w)),
        walk_cost(g, p.push(w)) == walk_cost(g, p) + edge_cost(g, p.last(), w),
        p.push(w)[0] == p[0],
{
    let q = p.push(w);
    assert(q.drop_last() =~= p);
    assert forall|i: int| 0 <= i < q.len() - 1 implies #[trigger] is_edge(g, q[i], q[i + 1]) by {
        if i < p.len() - 1 {
            assert(is_edge(g, p[i], p[i + 1]));
        }
    }
}

/// Dropping the last node of a walk leaves a walk of no greater cost.
pub proof fn lemma_walk_prefix(g: Map<u32, Seq<u32>>, p: Seq<u32>)
    requires
        is_walk(g, p),
        p.len() >= 2,
    ensures
        is_walk(g, p.drop_last()),
        p.drop_last()[0] == p[0],
        p.drop_last().last() == p[p.len() - 2],
        is_edge(g, p[p.len() - 2], p.last()),
        walk_cost(g, p) == walk_cost(g, p.drop_last()) + edge_cost(g, p[p.len() - 2], p.last()),
        walk_cost(g, p.drop_last()) < walk_cost(g, p),
{
    let q = p.drop_last();
    assert forall|i: int| 0 <= i < q.len() - 1 implies #[trigger] is_edge(g, q[i], q[i + 1]) by {
        assert(is_edge(g, p[i], p[i + 1]));
    }
    let k = p.len() - 2;
    assert(is_edge(g, p[k], p[k + 1]));
    lemma_edge_cost(g, p[p.len() - 2], p.last());
}

pub proof fn lemma_walk_cost_nonneg(g: Map<u32, Seq<u32>>, p: Seq<u32>)
    requires
        is_walk(g, p),
    ensures
        walk_cost(g, p) >= 0,
    decreases p.len(),
{
    if p.len() >= 2 {
        lemma_walk_prefix(g, p);
        lemma_walk_cost_nonneg(g, p.drop_last());
    }
}

/// A set of `u32` values has at most 2^32 members.
pub proof fn lemma_u32_set_bound(s: Set<u32>)
    ensures
        s.finite(),
        s.len() <= 4294967296,
{
    lemma_int_range(0, 4294967296);
    let x = set_int_range(0, 4294967296);
    let f = |i: int| i as u32;
    let y = x.map(f);
    lemma_map_size_bound(x, y, f);
    assert(s.subset_of(y)) by {
        assert forall|v: u32| s.contains(v) implies y.contains(v) by {
            assert(x.contains(v as int));
            assert(f(v as int) == v);
        }
    }
    lemma_len_subset(s, y);
}

/// One frontier entry: its cost, its node, and the walk that reached it.
pub type Entry = (int, u32, Seq<u32>);

pub open spec fn has_entry_le(fr: Seq<Entry>, w: u32, b: int) -> bool {
    exists|i: int| 0 <= i < fr.len() && fr[i].1 == w && #[trigger] fr[i].0 <= b
}

pub open spec fn has_any_le(fr: Seq<Entry>, b: int) -> bool {
    exists|i: int| 0 <= i < fr.len() && #[trigger] fr[i].0 <= b
}

/// The links of `u` with position below `k` lead to a settled node, cost too
/// much, or have a frontier entry no dearer than through `u`.
pub open spec fn closed_upto(
    g: Map<u32, Seq<u32>>,
    dist: Map<u32, int>,
    fr: Seq<Entry>,
    max: int,
    u: u32,
    k: int,
) -> bool {
    g.contains_key(u) ==> forall|j: int|
        0 <= j < k && j < g[u].len() ==> dist.contains_key(#[trigger] g[u][j]) || dist[u]
            + step_cost(g, u, j) > max || has_entry_le(fr, g[u][j], dist[u] + step_cost(g, u, j))
}

pub open spec fn entry_ok(g: Map<u32, Seq<u32>>, start: u32, max: int, last: int, e: Entry) -> bool {
    &&& walk_from(g, start, e.2)
    &&& e.2.last() == e.1
    &&& e.0 == walk_cost(g, e.2)
    &&& last <= e.0 <= max
}

pub open spec fn settled_ok(g: Map<u32, Seq<u32>>, start: u32, max: int, last: int, v: u32, d: int) -> bool {
    &&& 0 <= d <= last
    &&& d <= max
    &&& is_least_cost(g, start, v, d)
    &&& exists|q: Seq<u32>| walk_from(g, start, q) && q.last() == v && walk_cost(g, q) == d
}

/// The state of the search: settled nodes with their least costs, the
/// frontier, and the cost of the node settled last. All nodes settled but
/// `open` have all their links closed.
pub open spec fn search_state(
    g: Map<u32, Seq<u32>>,
    start: u32,
    max: int,
    dist: Map<u32, int>,
    fr: Seq<Entry>,
    last: int,
    open: Option<u32>,
) -> bool {
    &&& forall|i: int| 0 <= i < fr.len() ==> entry_ok(g, start, max, last, #[trigger] fr[i])
    &&& forall|v: u32| #[trigger] dist.contains_key(v) ==> settled_ok(g, start, max, last, v, dist[v])
    &&& forall|v: u32| #[trigger] dist.contains_key(v) && open != Some(v) ==> closed_upto(g, dist, fr, max, v, g[v].len() as int)
    &&& !dist.contains_key(start) ==> has_entry_le(fr, start, 0)
    &&& 0 <= last <= max
}

/// Every walk from the start within `max` that ends outside the settled set
/// has a frontier entry no dearer than the walk.
pub proof fn lemma_frontier(
    g: Map<u32, Seq<u32>>,
    start: u32,
    max: int,
    dist: Map<u32, int>,
    fr: Seq<Entry>,
    last: int,
    p: Seq<u32>,
)
    requires
        search_state(g, start, max, dist, fr, last, None),
        walk_from(g, start, p),
        walk_cost(g, p) <= max,
        !dist.contains_key(p.last()),
    ensures
        has_any_le(fr, walk_cost(g, p)),
    decreases p.len(),
{
    if p.len() == 1 {
        assert(p.last() == start);
        let i = choose|i: int| 0 <= i < fr.len() && fr[i].1 == start && #[trigger] fr[i].0 <= 0;
        assert(fr[i].0 <= walk_cost(g, p));
    } else {
        lemma_walk_prefix(g, p);
        let q = p.drop_last();
        let u = q.last();
        let w = p.last();
        if !dist.contains_key(u) {
            lemma_frontier(g, start, max, dist, fr, last, q);
            let i = choose|i: int| 0 <= i < fr.len() && #[trigger] fr[i].0 <= walk_cost(g, q);
            assert(fr[i].0 <= walk_cost(g, p));
        } else {
            assert(settled_ok(g, start, max, last, u, dist[u]));
            assert(dist[u] <= walk_cost(g, q));
            lemma_edge_cost(g, u, w);
            let j = g[u].index_of(w);
            assert(closed_upto(g, dist, fr, max, u, g[u].len() as int));
            assert(dist.contains_key(g[u][j]) || dist[u] + step_cost(g, u, j) > max || has_entry_le(
                fr,
                g[u][j],
                dist[u] + step_cost(g, u, j),
            ));
            let i = choose|i: int|
                0 <= i < fr.len() && fr[i].1 == w && #[trigger] fr[i].0 <= dist[u] + step_cost(g, u, j);
            assert(fr[i].0 <= walk_cost(g, p));
        }
    }
}

/// When the frontier is empty, every node reachable within `max` is settled.
pub proof fn lemma_complete(
    g: Map<u32, Seq<u32>>,
    start: u32,
    max: int,
    dist: Map<u32, int>,
    fr: Seq<Entry>,
    last: int,
)
    requires
        search_state(g, start, max, dist, fr, last, None),
        fr.len() == 0,
    ensures
        forall|v: u32| reachable_within(g, start, v, max) ==> #[trigger] dist.contains_key(v),
{
    assert forall|v: u32| reachable_within(g, start, v, max) implies #[trigger] dist.contains_key(v) by {
        let q = choose|q: Seq<u32>| walk_from(g, start, q) && q.last() == v && #[trigger] walk_cost(g, q) <= max;
        if !dist.contains_key(v) {
            lemma_frontier(g, start, max, dist, fr, last, q);
        }
    }
}


pub proof fn lemma_state_push(
    g: Map<u32, Seq<u32>>,
    start: u32,
    max: int,
    dist: Map<u32, int>,
    fr: Seq<Entry>,
    last: int,
    open: Option<u32>,
    e: Entry,
)
    requires
        search_state(g, start, max, dist, fr, last, open),
        entry_ok(g, start, max, last, e),
    ensures
        search_state(g, start, max, dist, fr.push(e), last, open),
        forall|u: u32, k: int| closed_upto(g, dist, fr, max, u, k) ==> #[trigger] closed_upto(g, dist, fr.push(e), max, u, k),
{
    let f = fr.push(e);
    assert forall|u: u32, k: int| closed_upto(g, dist, fr, max, u, k) implies #[trigger] closed_upto(g, dist, f, max, u, k) by {
        if g.contains_key(u) {
            assert forall|j: int| 0 <= j < k && j < g[u].len() implies dist.contains_key(#[trigger] g[u][j]) || dist[u]
                + step_cost(g, u, j) > max || has_entry_le(f, g[u][j], dist[u] + step_cost(g, u, j)) by {
                if !dist.contains_key(g[u][j]) && dist[u] + step_cost(g, u, j) <= max {
                    let i = choose|i: int| 0 <= i < fr.len() && fr[i].1 == g[u][j] && #[trigger] fr[i].0 <= dist[u] + step_cost(g, u, j);
                    assert(f[i] == fr[i]);
                }
            }
        }
    }
    assert forall|i: int| 0 <= i < f.len() implies entry_ok(g, start, max, last, #[trigger] f[i]) by {
        if i < fr.len() {
            assert(f[i] == fr[i]);
        }
    }
    if !dist.contains_key(start) {
        let i = choose|i: int| 0 <= i < fr.len() && fr[i].1 == start && #[trigger] fr[i].0 <= 0;
        assert(f[i] == fr[i]);
    }
}

/// Removing entry `m` keeps every entry for a node other than `fr[m].1`.
pub proof fn lemma_remove_keeps(fr: Seq<Entry>, m: int, w: u32, b: int)
    requires
        0 <= m < fr.len(),
        fr[m].1 != w,
        has_entry_le(fr, w, b),
    ensures
        has_entry_le(fr.remove(m), w, b),
{
    let i = choose|i: int| 0 <= i < fr.len() && fr[i].1 == w && #[trigger] fr[i].0 <= b;
    let f = fr.remove(m);
    if i < m {
        assert(f[i] == fr[i]);
    } else {
        assert(f[i - 1] == fr[i]);
    }
}

/// Dropping an entry whose node is settled keeps the search state.
pub proof fn lemma_state_drop(
    g: Map<u32, Seq<u32>>,
    start: u32,
    max: int,
    dist: Map<u32, int>,
    fr: Seq<Entry>,
    last: int,
    m: int,
)
    requires
        search_state(g, start, max, dist, fr, last, None),
        0 <= m < fr.len(),
        dist.contains_key(fr[m].1),
    ensures
        search_state(g, start, max, dist, fr.remove(m), last, None),
{
    let f = fr.remove(m);
    assert forall|i: int| 0 <= i < f.len() implies entry_ok(g, start, max, last, #[trigger] f[i]) by {
        if i < m {
            assert(f[i] == fr[i]);
        } else {
            assert(f[i] == fr[i + 1]);
        }
    }
    assert forall|v: u32| #[trigger] dist.contains_key(v) && None::<u32> != Some(v) implies closed_upto(g, dist, f, max, v, g[v].len() as int) by {
        assert(closed_upto(g, dist, fr, max, v, g[v].len() as int));
        if g.contains_key(v) {
            assert forall|j: int| 0 <= j < g[v].len() && j < g[v].len() implies dist.contains_key(#[trigger] g[v][j]) || dist[v]
                + step_cost(g, v, j) > max || has_entry_le(f, g[v][j], dist[v] + step_cost(g, v, j)) by {
                if !dist.contains_key(g[v][j]) && dist[v] + step_cost(g, v, j) <= max {
                    lemma_remove_keeps(fr, m, g[v][j], dist[v] + step_cost(g, v, j));
                }
            }
        }
    }
    if !dist.contains_key(start) {
        lemma_remove_keeps(fr, m, start, 0);
    }
}

/// Settling the cheapest entry `m`, for a node not yet settled: its cost is
/// the least cost of that node.
pub proof fn lemma_state_settle(
    g: Map<u32, Seq<u32>>,
    start: u32,
    max: int,
    dist: Map<u32, int>,
    fr: Seq<Entry>,
    last: int,
    m: int,
)
    requires
        search_state(g, start, max, dist, fr, last, None),
        0 <= m < fr.len(),
        forall|i: int| 0 <= i < fr.len() ==> fr[m].0 <= #[trigger] fr[i].0,
        !dist.contains_key(fr[m].1),
    ensures
        search_state(g, start, max, dist.insert(fr[m].1, fr[m].0), fr.remove(m), fr[m].0, Some(fr[m].1)),
        is_least_cost(g, start, fr[m].1, fr[m].0),
{
    let d = fr[m].0;
    let x = fr[m].1;
    let p = fr[m].2;
    let dist2 = dist.insert(x, d);
    let f = fr.remove(m);
    assert(entry_ok(g, start, max, last, fr[m]));
    lemma_walk_cost_nonneg(g, p);
    assert forall|q: Seq<u32>| walk_from(g, start, q) && q.last() == x implies d <= #[trigger] walk_cost(g, q) by {
        if walk_cost(g, q) <= max {
            lemma_frontier(g, start, max, dist, fr, last, q);
            let i = choose|i: int| 0 <= i < fr.len() && #[trigger] fr[i].0 <= walk_cost(g, q);
            assert(fr[m].0 <= fr[i].0);
        }
    }
    assert forall|i: int| 0 <= i < f.len() implies entry_ok(g, start, max, d, #[trigger] f[i]) by {
        if i < m {
            assert(f[i] == fr[i]);
            assert(entry_ok(g, start, max, last, fr[i]));
            assert(d <= fr[i].0);
        } else {
            assert(f[i] == fr[i + 1]);
            assert(entry_ok(g, start, max, last, fr[i + 1]));
            assert(d <= fr[i + 1].0);
        }
    }
    assert forall|v: u32| #[trigger] dist2.contains_key(v) implies settled_ok(g, start, max, d, v, dist2[v]) by {
        if v == x {
            assert(walk_from(g, start, p) && p.last() == x && walk_cost(g, p) == d);
        } else {
            assert(settled_ok(g, start, max, last, v, dist[v]));
        }
    }
    assert forall|v: u32| #[trigger] dist2.contains_key(v) && Some(x) != Some(v) implies closed_upto(g, dist2, f, max, v, g[v].len() as int) by {
        assert(dist.contains_key(v));
        assert(closed_upto(g, dist, fr, max, v, g[v].len() as int));
        if g.contains_key(v) {
            assert forall|j: int| 0 <= j < g[v].len() && j < g[v].len() implies dist2.contains_key(#[trigger] g[v][j]) || dist2[v]
                + step_cost(g, v, j) > max || has_entry_le(f, g[v][j], dist2[v] + step_cost(g, v, j)) by {
                if !dist2.contains_key(g[v][j]) && dist[v] + step_cost(g, v, j) <= max {
                    lemma_remove_keeps(fr, m, g[v][j], dist[v] + step_cost(g, v, j));
                }
            }
        }
    }
    if !dist2.contains_key(start) {
        lemma_remove_keeps(fr, m, start, 0);
    }
}

/// A node whose links are all closed can leave the open slot.
pub proof fn lemma_state_close(
    g: Map<u32, Seq<u32>>,
    start: u32,
    max: int,
    dist: Map<u32, int>,
    fr: Seq<Entry>,
    last: int,
    x: u32,
)
    requires
        search_state(g, start, max, dist, fr, last, Some(x)),
        closed_upto(g, dist, fr, max, x, g[x].len() as int),
    ensures
        search_state(g, start, max, dist, fr, last, None),
{
}

/// A frontier entry of the search.
pub struct PrioritizedPage {
    pub priority: u64,
    pub link: u32,
    pub path: Vec<u32>,
}

impl PrioritizedPage {
    pub open spec fn entry(&self) -> Entry {
        (self.priority as int, self.link, self.path@)
    }
}

pub open spec fn entries(v: Seq<PrioritizedPage>) -> Seq<Entry> {
    v.map_values(|e: PrioritizedPage| e.entry())
}

/// A settled node: its least cost from the start, and a walk of that cost.
pub struct PathInfo {
    pub distance: u64,
    pub path: Vec<u32>,
}

/// The walk `p` followed by `w`.
pub fn extend_path(p: &Vec<u32>, w: u32) -> (r: Vec<u32>)
    ensures
        r@ == p@.push(w),
{
    let mut r: Vec<u32> = Vec::new();
    let mut i: usize = 0;
    while i < p.len()
        invariant
            i <= p@.len(),
            r@ == p@.take(i as int),
        decreases p@.len() - i,
    {
        r.push(p[i]);
        i = i + 1;
        assert(r@ =~= p@.take(i as int));
    }
    assert(p@.take(p@.len() as int) =~= p@);
    r.push(w);
    r
}

/// The position of a cheapest entry.
fn min_index(v: &Vec<PrioritizedPage>) -> (m: usize)
    requires
        v@.len() > 0,
    ensures
        m < v@.len(),
        forall|i: int| 0 <= i < v@.len() ==> v@[m as int].priority <= #[trigger] v@[i].priority,
{
    let mut m: usize = 0;
    let mut i: usize = 1;
    while i < v.len()
        invariant
            m < v@.len(),
            1 <= i <= v@.len(),
            forall|k: int| 0 <= k < i ==> v@[m as int].priority <= #[trigger] v@[k].priority,
        decreases v@.len() - i,
    {
        if v[i].priority < v[m].priority {
            m = i;
        }
        i = i + 1;
    }
    m
}

/// A lazy traversal from one start node: each call of `next` settles nodes in
/// order of least cost and hands out the next one whose cost lies in the range.
pub struct ClosestPagesIter<'a> {
    wiki_graph: &'a WikiGraph,
    start: u32,
    visited: std::collections::HashSet<u32>,
    next_pages: Vec<PrioritizedPage>,
    min_distance: u64,
    max_distance: u64,
    dist: Ghost<Map<u32, int>>,
    last: Ghost<int>,
}

impl<'a> ClosestPagesIter<'a> {
    pub closed spec fn graph(&self) -> Map<u32, Seq<u32>> {
        self.wiki_graph.pages()
    }

    pub closed spec fn start(&self) -> u32 {
        self.start
    }

    pub closed spec fn min(&self) -> int {
        self.min_distance as int
    }

    pub closed spec fn max(&self) -> int {
        self.max_distance as int
    }

    /// The settled nodes with their least costs.
    pub closed spec fn settled_dist(&self) -> Map<u32, int> {
        self.dist@
    }

    pub open spec fn settled(&self) -> Set<u32> {
        self.settled_dist().dom()
    }

    pub closed spec fn frontier(&self) -> Seq<Entry> {
        entries(self.next_pages@)
    }

    pub closed spec fn inv(&self) -> bool {
        &&& self.wiki_graph.wf()
        &&& self.visited@ == self.dist@.dom()
        &&& search_state(
            self.graph(),
            self.start,
            self.max_distance as int,
            self.dist@,
            self.frontier(),
            self.last@,
            None,
        )
    }

    /// No settled node and no frontier entry costs more than the upper bound,
    /// and each settled node carries its least cost and a walk of that cost.
    pub proof fn lemma_bounded_traversal(&self)
        requires
            self.inv(),
        ensures
            forall|v: u32| #[trigger] self.settled().contains(v) ==> 0 <= self.settled_dist()[v] <= self.max()
                && is_least_cost(self.graph(), self.start(), v, self.settled_dist()[v])
                && exists|q: Seq<u32>| walk_from(self.graph(), self.start(), q) && q.last() == v
                    && walk_cost(self.graph(), q) == self.settled_dist()[v],
            forall|i: int| 0 <= i < self.frontier().len() ==> #[trigger] self.frontier()[i].0 <= self.max()
                && walk_from(self.graph(), self.start(), self.frontier()[i].2)
                && walk_cost(self.graph(), self.frontier()[i].2) == self.frontier()[i].0,
            self.settled().finite(),
            self.settled().len() <= 4294967296,
    {
        assert forall|v: u32| #[trigger] self.settled().contains(v) implies 0 <= self.settled_dist()[v] <= self.max()
            && is_least_cost(self.graph(), self.start(), v, self.settled_dist()[v])
            && exists|q: Seq<u32>| walk_from(self.graph(), self.start(), q) && q.last() == v
                && walk_cost(self.graph(), q) == self.settled_dist()[v] by {
            assert(self.dist@.contains_key(v));
            assert(settled_ok(self.graph(), self.start, self.max_distance as int, self.last@, v, self.dist@[v]));
        }
        assert forall|i: int| 0 <= i < self.frontier().len() implies #[trigger] self.frontier()[i].0 <= self.max()
            && walk_from(self.graph(), self.start(), self.frontier()[i].2)
            && walk_cost(self.graph(), self.frontier()[i].2) == self.frontier()[i].0 by {
            assert(entry_ok(self.graph(), self.start, self.max_distance as int, self.last@, self.frontier()[i]));
        }
        lemma_u32_set_bound(self.settled());
    }

    /// Settles nodes until one whose least cost lies in `[min, max]`, and
    /// returns it; `None` once every node reachable within `max` is settled.
    pub fn next(&mut self) -> (r: Option<PathInfo>)
        requires
            old(self).inv(),
        ensures
            final(self).inv(),
            final(self).graph() == old(self).graph(),
            final(self).start() == old(self).start(),
            final(self).min() == old(self).min(),
            final(self).max() == old(self).max(),
            old(self).settled_dist().submap_of(final(self).settled_dist()),
            match r {
                Some(info) => {
                    let p = info.path@;
                    &&& walk_from(old(self).graph(), old(self).start(), p)
                    &&& info.distance == walk_cost(old(self).graph(), p)
                    &&& old(self).min() <= info.distance <= old(self).max()
                    &&& is_least_cost(old(self).graph(), old(self).start(), p.last(), info.distance as int)
                    &&& !old(self).settled().contains(p.last())
                    &&& final(self).settled().contains(p.last())
                    &&& final(self).settled().len() > old(self).settled().len()
                    &&& forall|v: u32| #[trigger] old(self).settled().contains(v) ==> old(self).settled_dist()[v] <= info.distance
                    &&& forall|q: Seq<u32>|
                        walk_from(old(self).graph(), old(self).start(), q) && #[trigger] walk_cost(old(self).graph(), q) <= old(self).max()
                            && !final(self).settled().contains(q.last()) ==> info.distance <= walk_cost(old(self).graph(), q)
                },
                None => forall|v: u32|
                    reachable_within(old(self).graph(), old(self).start(), v, old(self).max())
                        ==> #[trigger] final(self).settled().contains(v),
            },
            forall|v: u32|
                #[trigger] final(self).settled().contains(v) && !old(self).settled().contains(v)
                    && match r {
                    Some(info) => info.path@.last() != v,
                    None => true,
                } ==> final(self).settled_dist()[v] < old(self).min(),
            old(self).settled() == Set::<u32>::empty() && old(self).min() == 0 && old(self).frontier() == seq![
                (0int, old(self).start(), seq![old(self).start()]),
            ] ==> (r matches Some(info) && info.distance == 0 && info.path@ == seq![old(self).start()]),
    {
        let ghost g = self.graph();
        let ghost start = self.start;
        let ghost max = self.max_distance as int;
        proof {
            self.wiki_graph.lemma_wf();
            assert forall|v: u32| #[trigger] old(self).settled().contains(v) implies old(self).settled_dist()[v] <= self.last@ by {
                assert(settled_ok(g, start, max, self.last@, v, self.dist@[v]));
            }
        }
        loop
            invariant
                self.wiki_graph == old(self).wiki_graph,
                self.start == old(self).start,
                self.min_distance == old(self).min_distance,
                self.max_distance == old(self).max_distance,
                g == self.graph(),
                start == self.start,
                max == self.max_distance as int,
                graph_ok(g, self.wiki_graph.strings().len() as int),
                self.inv(),
                old(self).settled_dist().submap_of(self.settled_dist()),
                forall|v: u32|
                    #[trigger] self.settled().contains(v) && !old(self).settled().contains(v)
                        ==> self.settled_dist()[v] < old(self).min(),
                forall|v: u32| #[trigger] old(self).settled().contains(v) ==> old(self).settled_dist()[v] <= self.last@,
                old(self).settled() == Set::<u32>::empty() && old(self).min() == 0 && old(self).frontier() == seq![
                    (0int, start, seq![start]),
                ] ==> self.frontier() == old(self).frontier() && self.dist@ == old(self).dist@,
            decreases 4294967296 - self.dist@.dom().len(), self.next_pages@.len(),
        {
            proof {
                lemma_u32_set_bound(self.dist@.dom());
            }
            if self.next_pages.len() == 0 {
                proof {
                    lemma_complete(g, start, max, self.dist@, self.frontier(), self.last@);
                }
                return None;
            }
            let m = min_index(&self.next_pages);
            let ghost fr = self.frontier();
            let ghost dist = self.dist@;
            let ghost last = self.last@;
            assert forall|v: u32|
                #[trigger] dist.contains_key(v) && !old(self).settled().contains(v) implies dist[v] < old(self).min() by {
                assert(self.settled().contains(v));
            }
            assert(forall|i: int| 0 <= i < fr.len() ==> fr[m as int].0 <= #[trigger] fr[i].0);
            let p = self.next_pages.remove(m);
            assert(self.frontier() =~= fr.remove(m as int));
            assert(p.entry() == fr[m as int]);
            if !self.visited.insert(p.link) {
                proof {
                    lemma_state_drop(g, start, max, dist, fr, last, m as int);
                    assert(self.visited@ =~= self.dist@.dom());
                    assert(self.inv());
                }
            } else {
                let d = p.priority;
                let x = p.link;
                proof {
                    lemma_state_settle(g, start, max, dist, fr, last, m as int);
                    self.dist@ = dist.insert(x, d as int);
                    self.last@ = d as int;
                    assert(self.visited@ =~= self.dist@.dom());
                    assert(entry_ok(g, start, max, last, fr[m as int]));
                    lemma_u32_set_bound(self.dist@.dom());
                    assert(self.dist@.dom() =~= dist.dom().insert(x));
                }
                match self.wiki_graph.links_of(x) {
                    Some(targets) => {
                        let n = targets.len();
                        let mut j: usize = 0;
                        while j < n
                            invariant
                                self.wiki_graph == old(self).wiki_graph,
                                self.start == old(self).start,
                                self.min_distance == old(self).min_distance,
                                self.max_distance == old(self).max_distance,
                                g == self.graph(),
                                start == self.start,
                                max == self.max_distance as int,
                                graph_ok(g, self.wiki_graph.strings().len() as int),
                                self.wiki_graph.wf(),
                                self.visited@ == self.dist@.dom(),
                                self.dist@ == dist.insert(x, d as int),
                                self.last@ == d as int,
                                g.contains_key(x),
                                targets@ == g[x],
                                n == targets@.len(),
                                j <= n,
                                walk_from(g, start, p.path@),
                                p.path@.last() == x,
                                walk_cost(g, p.path@) == d,
                                d <= max,
                                search_state(g, start, max, self.dist@, self.frontier(), self.last@, Some(x)),
                                closed_upto(g, self.dist@, self.frontier(), max, x, j as int),
                            decreases n - j,
                        {
                            let w = targets[j];
                            let c = linear_distance(j + 1, n) + WEIGHT_ONE;
                            let ghost fr2 = self.frontier();
                            if c <= self.max_distance - d && !self.visited.contains(&w) {
                                let new_path = extend_path(&p.path, w);
                                proof {
                                    lemma_index_of_distinct(g[x], j as int);
                                    assert(is_edge(g, x, w));
                                    lemma_walk_push(g, p.path@, w);
                                    assert(step_cost(g, x, j as int) == c);
                                    assert(entry_ok(g, start, max, d as int, (d + c, w, new_path@)));
                                    lemma_state_push(g, start, max, self.dist@, fr2, d as int, Some(x), (d + c, w, new_path@));
                                }
                                self.next_pages.push(PrioritizedPage { priority: d + c, link: w, path: new_path });
                                proof {
                                    assert(self.frontier() =~= fr2.push((d + c, w, new_path@)));
                                    let f = self.frontier();
                                    assert(f[f.len() - 1] == (d + c, w, new_path@));
                                    assert(has_entry_le(f, w, d + c));
                                    assert(closed_upto(g, self.dist@, f, max, x, j as int));
                                    assert(closed_upto(g, self.dist@, f, max, x, j + 1));
                                }
                            } else {
                                proof {
                                    assert(step_cost(g, x, j as int) == c);
                                }
                            }
                            j = j + 1;
                        }
                        proof {
                            lemma_state_close(g, start, max, self.dist@, self.frontier(), self.last@, x);
                        }
                    },
                    None => {},
                }
                proof {
                    assert(!old(self).settled().contains(x));
                    assert(old(self).settled_dist().submap_of(self.settled_dist()));
                    assert forall|v: u32|
                        #[trigger] self.settled().contains(v) && !old(self).settled().contains(v) && v != x
                            implies self.settled_dist()[v] < old(self).min() by {
                        assert(dist.contains_key(v));
                    }
                    assert(self.inv());
                    if d < self.min_distance {
                        assert forall|v: u32|
                            #[trigger] self.settled().contains(v) && !old(self).settled().contains(v)
                                implies self.settled_dist()[v] < old(self).min() by {
                            if v != x {
                                assert(dist.contains_key(v));
                            }
                        }
                    }
                }
                proof {
                    assert forall|v: u32| #[trigger] old(self).settled().contains(v) implies old(self).settled_dist()[v] <= self.last@ by {
                        assert(last <= d);
                    }
                }
                if d >= self.min_distance {
                    proof {
                        assert forall|q: Seq<u32>|
                            walk_from(g, start, q) && #[trigger] walk_cost(g, q) <= max
                                && !self.settled().contains(q.last()) implies d <= walk_cost(g, q) by {
                            lemma_frontier(g, start, max, self.dist@, self.frontier(), self.last@, q);
                            let fr3 = self.frontier();
                            let k = choose|k: int| 0 <= k < fr3.len() && #[trigger] fr3[k].0 <= walk_cost(g, q);
                            assert(entry_ok(g, start, max, self.last@, fr3[k]));
                        }
                        lemma_u32_set_bound(old(self).settled());
                        lemma_u32_set_bound(self.settled());
                        vstd::set_lib::lemma_len_subset(old(self).settled().insert(x), self.settled());
                        assert(p.path@.last() == x);
                    }
                    return Some(PathInfo { distance: d, path: p.path });
                }
            }
        }
    }
}

/// Relies on `rand::seq::index::sample` over the thread-local generator of
/// `rand::rng`: `amount` distinct indices below `length`. It panics only where
/// `amount` exceeds `length`.
#[verifier::external_body]
fn sample_indices(length: usize, amount: usize) -> (r: Vec<usize>)
    requires
        amount <= length,
    ensures
        r@.len() == amount,
        r@.no_duplicates(),
        forall|i: int| 0 <= i < r@.len() ==> #[trigger] r@[i] < length,
{
    rand::seq::index::sample(&mut rand::rng(), length, amount).into_vec()
}

/// A copy of `p`.
pub fn copy_info(p: &PathInfo) -> (r: PathInfo)
    ensures
        r.distance == p.distance,
        r.path@ == p.path@,
{
    let mut path: Vec<u32> = Vec::new();
    let mut i: usize = 0;
    while i < p.path.len()
        invariant
            i <= p.path@.len(),
            path@ == p.path@.take(i as int),
        decreases p.path@.len() - i,
    {
        path.push(p.path[i]);
        i = i + 1;
        assert(path@ =~= p.path@.take(i as int));
    }
    assert(p.path@.take(p.path@.len() as int) =~= p.path@);
    PathInfo { distance: p.distance, path }
}

/// The items of `items` at the positions `picks`, in that order.
pub fn pick(items: &Vec<PathInfo>, picks: &Vec<usize>) -> (r: Vec<PathInfo>)
    requires
        forall|i: int| 0 <= i < picks@.len() ==> #[trigger] picks@[i] < items@.len(),
    ensures
        r@.len() == picks@.len(),
        forall|i: int| #![trigger r@[i]] 0 <= i < r@.len() ==> r@[i].distance == items@[picks@[i] as int].distance
            && r@[i].path@ == items@[picks@[i] as int].path@,
{
    let mut r: Vec<PathInfo> = Vec::new();
    let mut i: usize = 0;
    while i < picks.len()
        invariant
            i <= picks@.len(),
            r@.len() == i,
            forall|i: int| 0 <= i < picks@.len() ==> #[trigger] picks@[i] < items@.len(),
            forall|k: int| #![trigger r@[k]] 0 <= k < i ==> r@[k].distance == items@[picks@[k] as int].distance
                && r@[k].path@ == items@[picks@[k] as int].path@,
        decreases picks@.len() - i,
    {
        let c = copy_info(&items[picks[i]]);
        r.push(c);
        i = i + 1;
    }
    r
}

/// `all` holds, once each, every node whose least cost from `start` lies in
/// `[min, max]`.
pub open spec fn all_in_range(g: Map<u32, Seq<u32>>, start: u32, min: int, max: int, all: Seq<PathInfo>) -> bool {
    &&& forall|i: int| 0 <= i < all.len() ==> is_result(g, start, min, max, #[trigger] all[i])
    &&& forall|i: int, j: int| 0 <= i < j < all.len() ==> all[i].path@.last() != all[j].path@.last()
    &&& forall|q: Seq<u32>|
        walk_from(g, start, q) && is_least_cost(g, start, q.last(), #[trigger] walk_cost(g, q))
            && min <= walk_cost(g, q) <= max ==> exists|i: int| 0 <= i < all.len() && all[i].path@.last() == q.last()
}

/// `info` is a settled node of a search from `start`: a walk of least cost,
/// with that cost, inside `[min, max]`.
pub open spec fn is_result(g: Map<u32, Seq<u32>>, start: u32, min: int, max: int, info: PathInfo) -> bool {
    &&& walk_from(g, start, info.path@)
    &&& info.distance == walk_cost(g, info.path@)
    &&& min <= info.distance <= max
    &&& is_least_cost(g, start, info.path@.last(), info.distance as int)
}

impl WikiGraph {
    /// A least-cost walk from `first_link` to `target_link`; `None` where no
    /// walk of cost at most `u64::MAX` joins them.
    pub fn find_shortest_path(&self, first_link: u32, target_link: u32) -> (r: Option<Vec<u32>>)
        requires
            self.wf(),
        ensures
            match r {
                Some(p) => walk_from(self.pages(), first_link, p@) && p@.last() == target_link
                    && walk_cost(self.pages(), p@) <= u64::MAX
                    && is_least_cost(self.pages(), first_link, target_link, walk_cost(self.pages(), p@)),
                None => !reachable_within(self.pages(), first_link, target_link, u64::MAX as int),
            },
    {
        let mut it = self.iter_close_titles(first_link, 0, None);
        loop
            invariant
                it.inv(),
                it.graph() == self.pages(),
                it.start() == first_link,
                it.min() == 0,
                it.max() == u64::MAX,
                !it.settled().contains(target_link),
            decreases 4294967296 - it.settled().len(),
        {
            proof {
                it.lemma_bounded_traversal();
            }
            match it.next() {
                Some(info) => {
                    proof {
                        it.lemma_bounded_traversal();
                    }
                    let n = info.path.len();
                    let last = info.path[n - 1];
                    if last == target_link {
                        return Some(info.path);
                    }
                    proof {
                        if it.settled().contains(target_link) {
                            assert(it.settled_dist()[target_link] >= 0);
                        }
                    }
                },
                None => {
                    proof {
                        it.lemma_bounded_traversal();
                        if it.settled().contains(target_link) {
                            assert(it.settled_dist()[target_link] >= 0);
                        }
                    }
                    return None;
                },
            }
        }
    }

    /// Every node whose least cost from `first_link` lies in
    /// `[min_distance, max_distance]`, once each, with a walk of that cost.
    pub fn collect_close_titles(&self, first_link: u32, min_distance: u64, max_distance: u64) -> (r: Vec<PathInfo>)
        requires
            self.wf(),
        ensures
            forall|i: int| 0 <= i < r@.len() ==> is_result(self.pages(), first_link, min_distance as int, max_distance as int, #[trigger] r@[i]),
            forall|i: int, j: int| 0 <= i < j < r@.len() ==> r@[i].path@.last() != r@[j].path@.last(),
            forall|q: Seq<u32>|
                walk_from(self.pages(), first_link, q) && is_least_cost(self.pages(), first_link, q.last(), #[trigger] walk_cost(self.pages(), q))
                    && min_distance <= walk_cost(self.pages(), q) <= max_distance ==> exists|i: int|
                    0 <= i < r@.len() && r@[i].path@.last() == q.last(),
    {
        let ghost g = self.pages();
        let mut it = self.iter_close_titles(first_link, min_distance, Some(max_distance));
        let mut r: Vec<PathInfo> = Vec::new();
        loop
            invariant
                it.inv(),
                it.graph() == g,
                g == self.pages(),
                it.start() == first_link,
                it.min() == min_distance,
                it.max() == max_distance,
                forall|i: int| 0 <= i < r@.len() ==> is_result(g, first_link, min_distance as int, max_distance as int, #[trigger] r@[i]),
                forall|i: int| 0 <= i < r@.len() ==> it.settled().contains(#[trigger] r@[i].path@.last()),
                forall|i: int, j: int| 0 <= i < j < r@.len() ==> r@[i].path@.last() != r@[j].path@.last(),
                forall|v: u32| #[trigger] it.settled().contains(v) ==> it.settled_dist()[v] < min_distance
                    || exists|i: int| 0 <= i < r@.len() && r@[i].path@.last() == v,
            decreases 4294967296 - it.settled().len(),
        {
            proof {
                it.lemma_bounded_traversal();
            }
            let ghost before = it.settled();
            let ghost old_dist = it.settled_dist();
            let ghost rb = r@;
            match it.next() {
                Some(info) => {
                    proof {
                        it.lemma_bounded_traversal();
                    }
                    let ghost x = info.path@.last();
                    r.push(info);
                    proof {
                        assert(r@[r@.len() - 1].path@.last() == x);
                        assert forall|i: int| 0 <= i < r@.len() implies it.settled().contains(#[trigger] r@[i].path@.last()) by {
                            if i < rb.len() {
                                assert(r@[i] == rb[i]);
                                assert(before.contains(rb[i].path@.last()));
                            }
                        }
                        assert forall|i: int, j: int| 0 <= i < j < r@.len() implies r@[i].path@.last() != r@[j].path@.last() by {
                            if j == r@.len() - 1 {
                                assert(r@[i] == rb[i]);
                                assert(before.contains(rb[i].path@.last()));
                            } else {
                                assert(r@[i] == rb[i] && r@[j] == rb[j]);
                            }
                        }
                        assert forall|i: int| 0 <= i < r@.len() implies is_result(g, first_link, min_distance as int, max_distance as int, #[trigger] r@[i]) by {
                            if i < rb.len() {
                                assert(r@[i] == rb[i]);
                            }
                        }
                        assert forall|v: u32| #[trigger] it.settled().contains(v) implies it.settled_dist()[v] < min_distance
                            || exists|i: int| 0 <= i < r@.len() && r@[i].path@.last() == v by {
                            if v == x {
                                assert(r@[r@.len() - 1].path@.last() == v);
                            } else if before.contains(v) {
                                assert(old_dist.contains_key(v));
                                assert(it.settled_dist()[v] == old_dist[v]);
                                if !(old_dist[v] < min_distance) {
                                    let i = choose|i: int| 0 <= i < rb.len() && rb[i].path@.last() == v;
                                    assert(r@[i] == rb[i]);
                                }
                            }
                        }
                    }
                },
                None => {
                    proof {
                        it.lemma_bounded_traversal();
                        assert forall|q: Seq<u32>|
                            walk_from(g, first_link, q) && is_least_cost(g, first_link, q.last(), #[trigger] walk_cost(g, q))
                                && min_distance <= walk_cost(g, q) <= max_distance implies exists|i: int|
                                0 <= i < r@.len() && r@[i].path@.last() == q.last() by {
                            let v = q.last();
                            assert(reachable_within(g, first_link, v, max_distance as int));
                            assert(it.settled().contains(v));
                            assert(before.contains(v));
                            let d = it.settled_dist()[v];
                            assert(d <= walk_cost(g, q));
                            let w = choose|w: Seq<u32>| walk_from(g, first_link, w) && w.last() == v && walk_cost(g, w) == d;
                            assert(walk_cost(g, q) <= walk_cost(g, w));
                            assert(old_dist[v] == d);
                        }
                    }
                    return r;
                },
            }
        }
    }

    /// A uniform sample, without replacement, of `count` of the nodes whose
    /// least cost from `first_link` lies in `[min_distance, max_distance]`;
    /// all of them where there are fewer.
    pub fn get_close_titles(&self, first_link: u32, count: usize, min_distance: u64, max_distance: u64) -> (r: Vec<PathInfo>)
        requires
            self.wf(),
        ensures
            exists|all: Seq<PathInfo>|
                #[trigger] all_in_range(self.pages(), first_link, min_distance as int, max_distance as int, all)
                    && r@.len() == if count < all.len() { count as int } else { all.len() as int },
            forall|i: int| 0 <= i < r@.len() ==> is_result(self.pages(), first_link, min_distance as int, max_distance as int, #[trigger] r@[i]),
            forall|i: int, j: int| 0 <= i < j < r@.len() ==> r@[i].path@.last() != r@[j].path@.last(),
    {
        let candidates = self.collect_close_titles(first_link, min_distance, max_distance);
        let amount = if count < candidates.len() { count } else { candidates.len() };
        let picks = sample_indices(candidates.len(), amount);
        let r = pick(&candidates, &picks);
        proof {
            assert(all_in_range(self.pages(), first_link, min_distance as int, max_distance as int, candidates@));
            assert forall|i: int| 0 <= i < r@.len() implies is_result(self.pages(), first_link, min_distance as int, max_distance as int, #[trigger] r@[i]) by {
                assert(is_result(self.pages(), first_link, min_distance as int, max_distance as int, candidates@[picks@[i] as int]));
            }
            assert forall|i: int, j: int| 0 <= i < j < r@.len() implies r@[i].path@.last() != r@[j].path@.last() by {
                assert(picks@[i] != picks@[j]);
            }
        }
        r
    }

    /// A traversal from `first_link` that hands out the nodes whose least cost
    /// lies in `[min_distance, max_distance]`; no bound above where
    /// `max_distance` is `None`.
    pub fn iter_close_titles(&self, first_link: u32, min_distance: u64, max_distance: Option<u64>) -> (r: ClosestPagesIter<'_>)
        requires
            self.wf(),
        ensures
            r.inv(),
            r.graph() == self.pages(),
            r.start() == first_link,
            r.min() == min_distance,
            r.max() == match max_distance {
                Some(m) => m,
                None => u64::MAX,
            },
            r.settled() == Set::<u32>::empty(),
            r.frontier() == seq![(0int, first_link, seq![first_link])],
    {
        let max = match max_distance {
            Some(m) => m,
            None => u64::MAX,
        };
        let mut path: Vec<u32> = Vec::new();
        path.push(first_link);
        let mut next_pages: Vec<PrioritizedPage> = Vec::new();
        next_pages.push(PrioritizedPage { priority: 0, link: first_link, path });
        let r = ClosestPagesIter {
            wiki_graph: self,
            start: first_link,
            visited: std::collections::HashSet::new(),
            next_pages,
            min_distance,
            max_distance: max,
            dist: Ghost(Map::empty()),
            last: Ghost(0),
        };
        proof {
            self.lemma_wf();
            let fr = r.frontier();
            assert(r.next_pages@[0].path@ =~= seq![first_link]);
            assert(fr[0] == (0int, first_link, seq![first_link]));
            assert(walk_cost(self.pages(), seq![first_link]) == 0);
            assert(is_walk(self.pages(), seq![first_link]));
            assert(entry_ok(self.pages(), first_link, max as int, 0, fr[0]));
            assert(has_entry_le(fr, first_link, 0));
            assert(r.visited@ =~= r.dist@.dom());
            assert(search_state(self.pages(), first_link, max as int, r.dist@, fr, 0, None));
            assert(fr =~= seq![(0int, first_link, seq![first_link])]);
            assert(r.settled() =~= Set::<u32>::empty());
        }
        r
    }
}

} // verus!
