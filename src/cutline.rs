pub use crate::cost::CutlineWrapped;
use crate::dual::{count_true, dual_node, lemma_count_true_le, lemma_count_true_update};
use crate::geometry::{
    canonical, canonical_edge, diagonal, diagonal_neighbors, dual_of, duality_map, edge_at, edge_index_spec,
    grid_idx, grid_index, in_grid, in_primal, lemma_diagonal_index, lemma_grid_idx, primal_edge,
    Edge, Point, MAX_SIDE,
};
use crate::config::{AlgorithmConfig, TopologyConfig};
use crate::graph::{SearchError, component_labels, contains_id, labels_of, lemma_qid_bound, qid_spec, unused_id, SearchGraph};
use vstd::prelude::*;

verus! {

/// A path of routers in the dual lattice.
pub type Path = Vec<Point>;

/// A cut: the primal edges that a dual path crosses, and its unbalance.
#[derive(Debug, Clone, PartialEq, Eq, Hash)]
pub struct Cutline {
    pub split: Vec<Edge>,
    pub unbalance: usize,
}

/// A router that the lattice keeps: a dual node not removed by the prune.
pub open spec fn kept_router(g: SearchGraph, p: Point) -> bool {
    dual_node(g.width_spec(), g.height_spec(), g.origin_spec(), p)
        && !g.dual_pruned@[grid_idx(g.width_spec(), p)]
}

/// `p` and `q` are joined by an edge of the dual lattice.
pub open spec fn dual_adjacent(g: SearchGraph, p: Point, q: Point) -> bool {
    kept_router(g, p) && kept_router(g, q) && diagonal(p, q)
}

/// The primal edges crossed by the first `k` steps of a dual path, each in lexicographic order.
pub open spec fn split_of(path: Seq<Point>, k: int) -> Seq<Edge>
    decreases k,
{
    if k <= 0 {
        seq![]
    } else {
        split_of(path, k - 1).push(canonical(dual_of((path[k - 1], path[k]))))
    }
}

/// The number of real edges among the first `k` steps of a dual path.
pub open spec fn path_depth(g: SearchGraph, path: Seq<Point>, k: int) -> nat
    decreases k,
{
    if k <= 0 {
        0
    } else {
        path_depth(g, path, k - 1) + if g.real_edges@[edge_index_spec(g.width_spec(), path[k - 1], path[k])] {
            1nat
        } else {
            0nat
        }
    }
}

/// The steps of a path join diagonal neighbours of the grid.
pub open spec fn grid_path(g: SearchGraph, path: Seq<Point>) -> bool {
    &&& forall|j: int| 0 <= j < path.len() ==> in_grid(g.width_spec(), g.height_spec(), #[trigger] path[j])
    &&& forall|j: int| 0 <= j < path.len() - 1 ==> diagonal(#[trigger] path[j], path[j + 1])
}

/// Converts a dual path to the primal edges it crosses.
pub fn path_to_split(path: &Path) -> (r: Vec<Edge>)
    ensures
        path@.len() >= 1 ==> r@ == split_of(path@, path@.len() - 1),
        path@.len() == 0 ==> r@.len() == 0,
{
    let mut r: Vec<Edge> = Vec::new();
    if path.len() == 0 {
        return r;
    }
    let mut j: usize = 1;
    while j < path.len()
        invariant
            1 <= j <= path@.len(),
            r@ == split_of(path@, j - 1),
        decreases path@.len() - j,
    {
        let (d1, d2) = duality_map(path[j - 1], path[j]);
        r.push(canonical_edge(d1, d2));
        j = j + 1;
    }
    r
}

/// The number of real edges along a dual path.
pub fn compute_depth(graph: &SearchGraph, path: &Vec<Point>) -> (r: usize)
    requires
        graph.wf(),
        grid_path(*graph, path@),
    ensures
        path@.len() >= 1 ==> r == path_depth(*graph, path@, path@.len() - 1),
        r <= path@.len(),
{
    let mut depth: usize = 0;
    if path.len() == 0 {
        return 0;
    }
    let mut j: usize = 1;
    while j < path.len()
        invariant
            graph.wf(),
            grid_path(*graph, path@),
            1 <= j <= path@.len(),
            depth == path_depth(*graph, path@, j - 1),
            depth <= j,
        decreases path@.len() - j,
    {
        proof {
            assert(in_grid(graph.width_spec(), graph.height_spec(), path@[j - 1]));
            assert(in_grid(graph.width_spec(), graph.height_spec(), path@[j as int]));
            assert(diagonal(path@[j - 1], path@[j as int]));
        }
        let i = graph.edge_index(path[j - 1], path[j]);
        if graph.real_edges[i] {
            depth = depth + 1;
        }
        j = j + 1;
    }
    depth
}

/// The routers joined to `p` by an edge of the dual lattice.
fn dual_neighbors(graph: &SearchGraph, p: Point) -> (r: Vec<Point>)
    requires
        graph.wf(),
        kept_router(*graph, p),
    ensures
        forall|j: int| 0 <= j < r@.len() ==> dual_adjacent(*graph, p, #[trigger] r@[j]),
        forall|q: Point| dual_adjacent(*graph, p, q) ==> r@.contains(q),
        r@.no_duplicates(),
{
    let all = diagonal_neighbors(graph.config.width, graph.config.height, p);
    let mut r: Vec<Point> = Vec::new();
    let mut t: usize = 0;
    while t < all.len()
        invariant
            graph.wf(),
            kept_router(*graph, p),
            t <= all@.len(),
            forall|j: int|
                0 <= j < all@.len() ==> in_grid(graph.width_spec(), graph.height_spec(), all@[j])
                    && diagonal(p, all@[j]),
            forall|j: int| 0 <= j < r@.len() ==> dual_adjacent(*graph, p, #[trigger] r@[j]),
            forall|q: Point| in_grid(graph.width_spec(), graph.height_spec(), q) && diagonal(p, q) ==> all@.contains(q),
            forall|m: int| 0 <= m < t && dual_adjacent(*graph, p, #[trigger] all@[m]) ==> r@.contains(all@[m]),
            all@.no_duplicates(),
            r@.no_duplicates(),
            forall|i: int| 0 <= i < r@.len() ==> exists|m: int| 0 <= m < t && all@[m] == #[trigger] r@[i],
        decreases all@.len() - t,
    {
        let q = all[t];
        let ghost old_r = r@;
        proof {
            lemma_grid_idx(graph.width_spec(), graph.height_spec(), q);
        }
        let k = grid_index(graph.config.width, graph.config.height, q);
        if !in_primal(q.0, q.1, graph.config.qubit_at_origin) && !graph.dual_pruned[k] {
            r.push(q);
        }
        proof {
            assert forall|i: int| 0 <= i < r@.len() implies exists|m: int| 0 <= m < t + 1 && all@[m] == #[trigger] r@[i] by {
                if i < old_r.len() {
                    assert(r@[i] == old_r[i]);
                } else {
                    assert(all@[t as int] == r@[i]);
                }
            }
            assert forall|a: int, b: int| 0 <= a < r@.len() && 0 <= b < r@.len() && a != b implies r@[a] != r@[b] by {
                if a < old_r.len() && b < old_r.len() {
                    assert(r@[a] == old_r[a]);
                    assert(r@[b] == old_r[b]);
                } else if a < old_r.len() {
                    assert(r@[a] == old_r[a]);
                    let m = choose|m: int| 0 <= m < t && all@[m] == old_r[a];
                } else if b < old_r.len() {
                    assert(r@[b] == old_r[b]);
                    let m = choose|m: int| 0 <= m < t && all@[m] == old_r[b];
                }
            }
            assert forall|m: int| 0 <= m < t + 1 && dual_adjacent(*graph, p, #[trigger] all@[m]) implies r@.contains(all@[m]) by {
                if m < t {
                    let i = choose|i: int| 0 <= i < old_r.len() && old_r[i] == all@[m];
                    assert(r@[i] == all@[m]);
                } else {
                    lemma_grid_idx(graph.width_spec(), graph.height_spec(), q);
                    assert(r@[r@.len() - 1] == q);
                }
            }
        }
        t = t + 1;
    }
    proof {
        assert forall|q: Point| dual_adjacent(*graph, p, q) implies r@.contains(q) by {
            assert(all@.contains(q));
            let m = choose|m: int| 0 <= m < all@.len() && all@[m] == q;
        }
    }
    r
}

} // verus!

verus! {

/// A dual path that starts at `from`, follows dual edges, never repeats a router
/// and meets no boundary router after its start.
pub open spec fn open_path(g: SearchGraph, from: Point, path: Seq<Point>) -> bool {
    &&& path.len() >= 1
    &&& path[0] == from
    &&& forall|j: int| 0 <= j < path.len() ==> kept_router(g, #[trigger] path[j])
    &&& forall|j: int| 0 <= j < path.len() - 1 ==> dual_adjacent(g, #[trigger] path[j], path[j + 1])
    &&& forall|j: int| 1 <= j < path.len() ==> !g.dual_boundaries@.contains(#[trigger] path[j])
    &&& path.no_duplicates()
}

/// An open path from `from` extended by one dual edge to a router of `tos`.
pub open spec fn found_path(g: SearchGraph, from: Point, tos: Seq<Point>, p: Seq<Point>) -> bool {
    &&& p.len() >= 2
    &&& open_path(g, from, p.drop_last())
    &&& tos.contains(p.last())
    &&& dual_adjacent(g, p[p.len() - 2], p.last())
}

/// The depth bounds of the search hold for a found path: with `d` the real edges
/// before its last step, `d` stays below `max` (or the path is one step long), and
/// where one more edge keeps the depth below `max`, `d + 1` reaches `min`.
pub open spec fn depth_ok(g: SearchGraph, p: Seq<Point>, min: int, max: int) -> bool {
    let d = path_depth(g, p, p.len() - 2) as int;
    &&& (d < max || d == 0)
    &&& (d + 1 < max ==> d + 1 >= min)
}

proof fn lemma_path_depth_prefix(g: SearchGraph, v: Seq<Point>, c: Point, k: int)
    requires
        0 <= k <= v.len() - 1,
    ensures
        path_depth(g, v.push(c), k) == path_depth(g, v, k),
    decreases k,
{
    if k > 0 {
        lemma_path_depth_prefix(g, v, c, k - 1);
        assert(v.push(c)[k - 1] == v[k - 1]);
        assert(v.push(c)[k] == v[k]);
    }
}

/// The paths listed from `start` on are pairwise different.
#[verifier::opaque]
pub open spec fn distinct_after(out: Seq<Path>, start: int) -> bool {
    forall|a: int, c: int| start <= a < out.len() && start <= c < out.len() && a != c ==> #[trigger] out[a]@ != #[trigger] out[c]@
}

/// The paths listed from `start` on extend `v` by at least one router.
#[verifier::opaque]
pub open spec fn extends_after(out: Seq<Path>, start: int, v: Seq<Point>) -> bool {
    forall|a: int| start <= a < out.len() ==> has_prefix(#[trigger] out[a]@, v) && out[a]@.len() > v.len()
}

/// The paths listed from `start` on leave `v` through one of the first `t` children.
#[verifier::opaque]
pub open spec fn through_first(out: Seq<Path>, start: int, v: Seq<Point>, children: Seq<Point>, t: int) -> bool {
    forall|a: int| start <= a < out.len() ==> exists|m: int| 0 <= m < t && children[m] == (#[trigger] out[a]@)[v.len() as int]
}

/// The paths listed from `start` on begin with `w`.
#[verifier::opaque]
pub open spec fn prefixed_after(out: Seq<Path>, start: int, w: Seq<Point>) -> bool {
    forall|a: int| start <= a < out.len() ==> has_prefix(#[trigger] out[a]@, w)
}

proof fn lemma_extends_prefixed(out: Seq<Path>, start: int, w: Seq<Point>)
    requires
        extends_after(out, start, w),
    ensures
        prefixed_after(out, start, w),
{
    reveal(extends_after);
    reveal(prefixed_after);
}

/// Adding the paths that leave `v` through the `t`-th child keeps the listing free of repeats.
proof fn lemma_distinct_step(
    before: Seq<Path>,
    after: Seq<Path>,
    start: int,
    v: Seq<Point>,
    children: Seq<Point>,
    t: int,
)
    requires
        0 <= start <= before.len() <= after.len(),
        forall|j: int| 0 <= j < before.len() ==> after[j] == before[j],
        0 <= t < children.len(),
        children.no_duplicates(),
        distinct_after(before, start),
        extends_after(before, start, v),
        through_first(before, start, v, children, t),
        distinct_after(after, before.len() as int),
        prefixed_after(after, before.len() as int, v.push(children[t])),
    ensures
        distinct_after(after, start),
        extends_after(after, start, v),
        through_first(after, start, v, children, t + 1),
{
    reveal(distinct_after);
    reveal(extends_after);
    reveal(through_first);
    reveal(prefixed_after);
    let n = v.len() as int;
    assert(v.push(children[t]).subrange(0, n) =~= v);
    assert forall|a: int| before.len() <= a < after.len() implies has_prefix(#[trigger] after[a]@, v) && after[a]@.len() > v.len()
        && after[a]@[n] == children[t] by {
        let p = after[a]@;
        assert(has_prefix(p, v.push(children[t])));
        assert(p.subrange(0, n + 1)[n] == p[n]);
        assert(p.subrange(0, n) =~= p.subrange(0, n + 1).subrange(0, n));
    }
    assert forall|a: int| start <= a < after.len() implies has_prefix(#[trigger] after[a]@, v) && after[a]@.len() > v.len() by {
        if a < before.len() {
            assert(after[a] == before[a]);
        }
    }
    assert forall|a: int| start <= a < after.len() implies exists|m: int| 0 <= m < t + 1 && children[m] == (#[trigger] after[a]@)[n] by {
        if a < before.len() {
            assert(after[a] == before[a]);
            let m = choose|m: int| 0 <= m < t && children[m] == (#[trigger] before[a]@)[n];
        } else {
            assert(after[a]@[n] == children[t]);
        }
    }
    assert forall|a: int, c: int| start <= a < after.len() && start <= c < after.len() && a != c implies #[trigger] after[a]@ != #[trigger] after[c]@ by {
        if a < before.len() && c < before.len() {
            assert(after[a] == before[a]);
            assert(after[c] == before[c]);
        } else if a < before.len() || c < before.len() {
            let x = if a < before.len() { a } else { c };
            let y = if a < before.len() { c } else { a };
            assert(after[x] == before[x]);
            let m = choose|m: int| 0 <= m < t && children[m] == (#[trigger] before[x]@)[n];
            assert(after[y]@[n] == children[t]);
            assert(children[m] != children[t]);
        }
    }
}

proof fn lemma_one_new(before: Seq<Path>, after: Seq<Path>, v: Seq<Point>, c: Point)
    requires
        after.len() == before.len() + 1,
        after[before.len() as int]@ == v.push(c),
    ensures
        distinct_after(after, before.len() as int),
        prefixed_after(after, before.len() as int, v.push(c)),
{
    reveal(distinct_after);
    reveal(prefixed_after);
    assert(after[before.len() as int]@.subrange(0, v.len() as int + 1) =~= v.push(c));
}

proof fn lemma_none_new(out: Seq<Path>, v: Seq<Point>, c: Point)
    ensures
        distinct_after(out, out.len() as int),
        prefixed_after(out, out.len() as int, v.push(c)),
{
    reveal(distinct_after);
    reveal(prefixed_after);
}

/// Every reachable path that extends `v` by at least one router is listed.
#[verifier::opaque]
pub open spec fn all_listed(g: SearchGraph, from: Point, tos: Seq<Point>, min: int, max: int, v: Seq<Point>, out: Seq<Path>) -> bool {
    forall|p: Seq<Point>|
        #[trigger] reachable(g, from, tos, p, min, max) && has_prefix(p, v) && p.len() > v.len() ==> path_listed(out, p)
}

/// A path that the search reaches: found within the depth bounds, and entered while
/// one more edge kept the depth below `max` up to the router before its last step.
pub open spec fn reachable(g: SearchGraph, from: Point, tos: Seq<Point>, p: Seq<Point>, min: int, max: int) -> bool {
    &&& found_path(g, from, tos, p)
    &&& depth_ok(g, p, min, max)
    &&& (p.len() >= 3 ==> path_depth(g, p, p.len() - 3) + 1 < max)
}

/// `v` is a prefix of `p`.
pub open spec fn has_prefix(p: Seq<Point>, v: Seq<Point>) -> bool {
    v.len() <= p.len() && p.subrange(0, v.len() as int) == v
}

/// Every reachable path that leaves the prefix `v` through `c` is listed.
#[verifier::opaque]
pub open spec fn child_done(
    g: SearchGraph,
    from: Point,
    tos: Seq<Point>,
    min: int,
    max: int,
    v: Seq<Point>,
    c: Point,
    out: Seq<Path>,
) -> bool {
    forall|p: Seq<Point>|
        #[trigger] reachable(g, from, tos, p, min, max) && has_prefix(p, v) && p.len() > v.len()
            && p[v.len() as int] == c ==> path_listed(out, p)
}

proof fn lemma_done_grow(
    g: SearchGraph,
    from: Point,
    tos: Seq<Point>,
    min: int,
    max: int,
    v: Seq<Point>,
    c: Point,
    out1: Seq<Path>,
    out2: Seq<Path>,
)
    requires
        child_done(g, from, tos, min, max, v, c, out1),
        out2.len() >= out1.len(),
        forall|j: int| 0 <= j < out1.len() ==> out2[j] == out1[j],
    ensures
        child_done(g, from, tos, min, max, v, c, out2),
{
    reveal(child_done);
    assert forall|p: Seq<Point>|
        #[trigger] reachable(g, from, tos, p, min, max) && has_prefix(p, v) && p.len() > v.len()
            && p[v.len() as int] == c implies path_listed(out2, p) by {
        let j = choose|j: int| 0 <= j < out1.len() && #[trigger] out1[j]@ == p;
        assert(out2[j] == out1[j]);
    }
}

proof fn lemma_done_push(
    g: SearchGraph,
    from: Point,
    tos: Seq<Point>,
    min: int,
    max: int,
    v: Seq<Point>,
    c: Point,
    out: Seq<Path>,
)
    requires
        v.len() >= 1,
        forall|q: Point| tos.contains(q) ==> g.dual_boundaries@.contains(q),
        out.len() >= 1,
        out[out.len() - 1]@ == v.push(c),
        tos.contains(c),
    ensures
        child_done(g, from, tos, min, max, v, c, out),
{
    reveal(child_done);
    assert forall|p: Seq<Point>|
        #[trigger] reachable(g, from, tos, p, min, max) && has_prefix(p, v) && p.len() > v.len()
            && p[v.len() as int] == c implies path_listed(out, p) by {
        lemma_child_cases(g, from, tos, min, max, v, p);
        assert(out[out.len() - 1]@ == p);
    }
}

proof fn lemma_done_vacuous(
    g: SearchGraph,
    from: Point,
    tos: Seq<Point>,
    min: int,
    max: int,
    v: Seq<Point>,
    c: Point,
    out: Seq<Path>,
)
    requires
        v.len() >= 1,
        forall|q: Point| tos.contains(q) ==> g.dual_boundaries@.contains(q),
        tos.contains(c) ==> path_depth(g, v, v.len() - 1) + 1 < max && path_depth(g, v, v.len() - 1) + 1 < min,
        !tos.contains(c) ==> g.dual_boundaries@.contains(c) || v.contains(c) || !(path_depth(g, v, v.len() - 1) + 1 < max),
    ensures
        child_done(g, from, tos, min, max, v, c, out),
{
    reveal(child_done);
    assert forall|p: Seq<Point>|
        #[trigger] reachable(g, from, tos, p, min, max) && has_prefix(p, v) && p.len() > v.len()
            && p[v.len() as int] == c implies path_listed(out, p) by {
        lemma_child_cases(g, from, tos, min, max, v, p);
    }
}

proof fn lemma_done_rec(
    g: SearchGraph,
    from: Point,
    tos: Seq<Point>,
    min: int,
    max: int,
    v: Seq<Point>,
    c: Point,
    out: Seq<Path>,
)
    requires
        v.len() >= 1,
        forall|q: Point| tos.contains(q) ==> g.dual_boundaries@.contains(q),
        !tos.contains(c),
        all_listed(g, from, tos, min, max, v.push(c), out),
    ensures
        child_done(g, from, tos, min, max, v, c, out),
{
    reveal(all_listed);
    reveal(child_done);
    assert forall|p: Seq<Point>|
        #[trigger] reachable(g, from, tos, p, min, max) && has_prefix(p, v) && p.len() > v.len()
            && p[v.len() as int] == c implies path_listed(out, p) by {
        lemma_child_cases(g, from, tos, min, max, v, p);
    }
}

/// `p` is one of the listed paths.
pub open spec fn path_listed(out: Seq<Path>, p: Seq<Point>) -> bool {
    exists|j: int| 0 <= j < out.len() && #[trigger] out[j]@ == p
}

proof fn lemma_path_depth_same(g: SearchGraph, p: Seq<Point>, q: Seq<Point>, k: int)
    requires
        0 <= k < p.len(),
        k < q.len(),
        forall|i: int| 0 <= i <= k ==> p[i] == q[i],
    ensures
        path_depth(g, p, k) == path_depth(g, q, k),
    decreases k,
{
    if k > 0 {
        lemma_path_depth_same(g, p, q, k - 1);
    }
}

proof fn lemma_path_depth_mono(g: SearchGraph, p: Seq<Point>, k1: int, k2: int)
    requires
        0 <= k1 <= k2,
    ensures
        path_depth(g, p, k1) <= path_depth(g, p, k2),
    decreases k2 - k1,
{
    if k1 < k2 {
        lemma_path_depth_mono(g, p, k1, k2 - 1);
    }
}

/// What the search does with a reachable path at the step that leaves its prefix `v`.
proof fn lemma_child_cases(
    g: SearchGraph,
    from: Point,
    tos: Seq<Point>,
    min: int,
    max: int,
    v: Seq<Point>,
    p: Seq<Point>,
)
    requires
        reachable(g, from, tos, p, min, max),
        has_prefix(p, v),
        v.len() >= 1,
        p.len() > v.len(),
        forall|q: Point| tos.contains(q) ==> g.dual_boundaries@.contains(q),
    ensures
        p.len() == v.len() + 1 ==> p == v.push(p[v.len() as int]) && tos.contains(p[v.len() as int]) && (
        path_depth(g, v, v.len() - 1) + 1 < max ==> path_depth(g, v, v.len() - 1) + 1 >= min),
        p.len() > v.len() + 1 ==> !tos.contains(p[v.len() as int]) && !g.dual_boundaries@.contains(
            p[v.len() as int],
        ) && !v.contains(p[v.len() as int]) && path_depth(g, v, v.len() - 1) + 1 < max && has_prefix(
            p,
            v.push(p[v.len() as int]),
        ),
{
    let n = v.len() as int;
    let c = p[n];
    assert forall|i: int| 0 <= i <= n - 1 implies p[i] == v[i] by {
        assert(p.subrange(0, n)[i] == p[i]);
    }
    lemma_path_depth_same(g, p, v, n - 1);
    if p.len() == n + 1 {
        assert(p =~= v.push(c));
    } else {
        let q = p.drop_last();
        assert(q[n] == c);
        assert(!g.dual_boundaries@.contains(q[n]));
        if v.contains(c) {
            let i = choose|i: int| 0 <= i < v.len() && v[i] == c;
            assert(q[i] == c);
        }
        lemma_path_depth_mono(g, p, n - 1, p.len() - 3);
        assert(p.subrange(0, n + 1) =~= v.push(c));
    }
}

fn copy_path(p: &Vec<Point>) -> (r: Vec<Point>)
    ensures
        r@ == p@,
{
    let mut r: Vec<Point> = Vec::new();
    let mut j: usize = 0;
    while j < p.len()
        invariant
            j <= p@.len(),
            r@ == p@.subrange(0, j as int),
        decreases p@.len() - j,
    {
        r.push(p[j]);
        j = j + 1;
    }
    assert(r@ =~= p@);
    r
}

fn contains_point(v: &Vec<Point>, p: Point) -> (r: bool)
    ensures
        r == v@.contains(p),
{
    let mut j: usize = 0;
    while j < v.len()
        invariant
            j <= v@.len(),
            forall|k: int| 0 <= k < j ==> v@[k] != p,
        decreases v@.len() - j,
    {
        if v[j].0 == p.0 && v[j].1 == p.1 {
            return true;
        }
        j = j + 1;
    }
    false
}

/// The marks flag exactly the routers on the path.
pub open spec fn marks_path(g: SearchGraph, marks: Seq<bool>, path: Seq<Point>) -> bool {
    &&& marks.len() == g.width_spec() * g.height_spec()
    &&& forall|p: Point|
        in_grid(g.width_spec(), g.height_spec(), p) ==> marks[#[trigger] grid_idx(g.width_spec(), p)]
            == path.contains(p)
}

fn push_found(
    graph: &SearchGraph,
    from: Point,
    tos: &Vec<Point>,
    min: usize,
    max: usize,
    visited: &Vec<Point>,
    child: Point,
    out: &mut Vec<Path>,
)
    requires
        open_path(*graph, from, visited@),
        tos@.contains(child),
        dual_adjacent(*graph, visited@[visited@.len() - 1], child),
        depth_ok(*graph, visited@.push(child), min as int, max as int),
        forall|j: int|
            0 <= j < old(out)@.len() ==> found_path(*graph, from, tos@, #[trigger] old(out)@[j]@)
                && depth_ok(*graph, old(out)@[j]@, min as int, max as int),
    ensures
        forall|j: int|
            0 <= j < final(out)@.len() ==> found_path(*graph, from, tos@, #[trigger] final(out)@[j]@)
                && depth_ok(*graph, final(out)@[j]@, min as int, max as int),
        final(out)@.len() == old(out)@.len() + 1,
        forall|j: int| 0 <= j < old(out)@.len() ==> final(out)@[j] == old(out)@[j],
        final(out)@[old(out)@.len() as int]@ == visited@.push(child),
{
    let mut p = copy_path(visited);
    p.push(child);
    proof {
        assert(p@.drop_last() =~= visited@);
    }
    out.push(p);
    proof {
        assert forall|j: int| 0 <= j < out@.len() implies found_path(*graph, from, tos@, #[trigger] out@[j]@)
            && depth_ok(*graph, out@[j]@, min as int, max as int) by {
            if j == out@.len() - 1 {
                assert(out@[j]@ == p@);
            }
        }
    }
}

proof fn lemma_extend_open(g: SearchGraph, from: Point, visited0: Seq<Point>, child: Point)
    requires
        open_path(g, from, visited0),
        dual_adjacent(g, visited0[visited0.len() - 1], child),
        !g.dual_boundaries@.contains(child),
        !visited0.contains(child),
    ensures
        open_path(g, from, visited0.push(child)),
{
    let v = visited0.push(child);
    let last = visited0[visited0.len() - 1];
    assert forall|j: int| 0 <= j < v.len() - 1 implies dual_adjacent(g, #[trigger] v[j], v[j + 1]) by {
        if j == v.len() - 2 {
            assert(v[j] == last);
        }
    }
    assert forall|j: int| 0 <= j < v.len() implies kept_router(g, #[trigger] v[j]) by {
        if j == v.len() - 1 {
            assert(dual_adjacent(g, last, child));
        } else {
            assert(v[j] == visited0[j]);
        }
    }
    assert forall|j: int| 1 <= j < v.len() implies !g.dual_boundaries@.contains(#[trigger] v[j]) by {
        if j < v.len() - 1 {
            assert(v[j] == visited0[j]);
        }
    }
    assert forall|a: int, b: int| 0 <= a < v.len() && 0 <= b < v.len() && a != b implies v[a] != v[b] by {
        if a == v.len() - 1 && b < v.len() - 1 {
            assert(visited0[b] == v[b]);
        } else if b == v.len() - 1 && a < v.len() - 1 {
            assert(visited0[a] == v[a]);
        } else {
            assert(visited0[a] == v[a]);
            assert(visited0[b] == v[b]);
        }
    }
}

proof fn lemma_extend_marks(g: SearchGraph, marks0: Seq<bool>, visited0: Seq<Point>, child: Point)
    requires
        g.wf(),
        marks_path(g, marks0, visited0),
        in_grid(g.width_spec(), g.height_spec(), child),
    ensures
        marks_path(g, marks0.update(grid_idx(g.width_spec(), child), true), visited0.push(child)),
{
    let w = g.width_spec();
    let h = g.height_spec();
    let v = visited0.push(child);
    let m = marks0.update(grid_idx(w, child), true);
    lemma_grid_idx(w, h, child);
    assert forall|p: Point| in_grid(w, h, p) implies m[grid_idx(w, p)] == v.contains(p) by {
        lemma_grid_idx(w, h, p);
        if p == child {
            assert(v[v.len() - 1] == child);
        } else {
            if v.contains(p) {
                let j = choose|j: int| 0 <= j < v.len() && v[j] == p;
                assert(visited0[j] == p);
            }
            if visited0.contains(p) {
                let j = choose|j: int| 0 <= j < visited0.len() && visited0[j] == p;
                assert(v[j] == p);
            }
            assert(grid_idx(w, p) != grid_idx(w, child));
        }
    }
}

#[verifier::rlimit(100)]
fn search_rec(
    graph: &SearchGraph,
    from: Point,
    tos: &Vec<Point>,
    min_path_length: usize,
    max_path_length: usize,
    visited: &mut Vec<Point>,
    marks: &mut Vec<bool>,
    out: &mut Vec<Path>,
)
    requires
        graph.wf(),
        open_path(*graph, from, old(visited)@),
        marks_path(*graph, old(marks)@, old(visited)@),
        path_depth(*graph, old(visited)@, old(visited)@.len() - 1) < max_path_length || old(visited)@.len() == 1,
        forall|q: Point| tos@.contains(q) ==> graph.dual_boundaries@.contains(q),
        forall|j: int|
            0 <= j < old(out)@.len() ==> found_path(*graph, from, tos@, #[trigger] old(out)@[j]@)
                && depth_ok(*graph, old(out)@[j]@, min_path_length as int, max_path_length as int),
    ensures
        final(visited)@ == old(visited)@,
        final(marks)@ == old(marks)@,
        forall|j: int|
            0 <= j < final(out)@.len() ==> found_path(*graph, from, tos@, #[trigger] final(out)@[j]@)
                && depth_ok(*graph, final(out)@[j]@, min_path_length as int, max_path_length as int),
        final(out)@.len() >= old(out)@.len(),
        forall|j: int| 0 <= j < old(out)@.len() ==> final(out)@[j] == old(out)@[j],
        all_listed(*graph, from, tos@, min_path_length as int, max_path_length as int, old(visited)@, final(out)@),
        distinct_after(final(out)@, old(out)@.len() as int),
        extends_after(final(out)@, old(out)@.len() as int, old(visited)@),
    decreases graph.width_spec() * graph.height_spec() - count_true(old(marks)@),
{
    let ghost w = graph.width_spec();
    let ghost h = graph.height_spec();
    let last = visited[visited.len() - 1];
    proof {
        assert(grid_path(*graph, visited@)) by {
            assert forall|j: int| 0 <= j < visited@.len() implies in_grid(w, h, #[trigger] visited@[j]) by {
                assert(kept_router(*graph, visited@[j]));
            }
            assert forall|j: int| 0 <= j < visited@.len() - 1 implies diagonal(#[trigger] visited@[j], visited@[j + 1]) by {
                assert(dual_adjacent(*graph, visited@[j], visited@[j + 1]));
            }
        }
        assert(kept_router(*graph, visited@[visited@.len() - 1]));
    }
    let depth = compute_depth(graph, visited);
    let children = dual_neighbors(graph, last);
    let n = children.len();
    let ghost o0 = out@;
    proof {
        reveal(distinct_after);
        reveal(extends_after);
        reveal(through_first);
    }
    let mut t: usize = 0;
    while t < n
        invariant
            graph.wf(),
            n == children@.len(),
            t <= n,
            w == graph.width_spec(),
            h == graph.height_spec(),
            last == visited@[visited@.len() - 1],
            forall|j: int| 0 <= j < children@.len() ==> dual_adjacent(*graph, last, #[trigger] children@[j]),
            visited@ == old(visited)@,
            marks@ == old(marks)@,
            open_path(*graph, from, visited@),
            marks_path(*graph, marks@, visited@),
            depth <= visited@.len(),
            depth == path_depth(*graph, visited@, visited@.len() - 1),
            depth < max_path_length || visited@.len() == 1,
            forall|j: int|
                0 <= j < out@.len() ==> found_path(*graph, from, tos@, #[trigger] out@[j]@)
                    && depth_ok(*graph, out@[j]@, min_path_length as int, max_path_length as int),
            forall|q: Point| tos@.contains(q) ==> graph.dual_boundaries@.contains(q),
            forall|q: Point| dual_adjacent(*graph, last, q) ==> children@.contains(q),
            out@.len() >= o0.len(),
            forall|j: int| 0 <= j < o0.len() ==> out@[j] == o0[j],
            children@.no_duplicates(),
            distinct_after(out@, o0.len() as int),
            extends_after(out@, o0.len() as int, visited@),
            through_first(out@, o0.len() as int, visited@, children@, t as int),
            forall|m: int|
                0 <= m < t ==> #[trigger] child_done(
                    *graph,
                    from,
                    tos@,
                    min_path_length as int,
                    max_path_length as int,
                    visited@,
                    children@[m],
                    out@,
                ),
        decreases n - t,
    {
        let child = children[t];
        let ghost out_before = out@;
        if max_path_length > 0 && depth < max_path_length - 1 {
            if contains_point(tos, child) {
                if min_path_length == 0 || depth >= min_path_length - 1 {
                    proof {
                        lemma_path_depth_prefix(*graph, visited@, child, visited@.len() - 1);
                    }
                    push_found(graph, from, tos, min_path_length, max_path_length, visited, child, out);
                    proof {
                        lemma_one_new(out_before, out@, visited@, child);
                        lemma_done_push(*graph, from, tos@, min_path_length as int, max_path_length as int, visited@, child, out@);
                    }
                } else {
                    proof {
                        lemma_done_vacuous(*graph, from, tos@, min_path_length as int, max_path_length as int, visited@, child, out@);
                        lemma_none_new(out@, visited@, child);
                    }
                }
            } else if !graph.is_boundary(child) && !contains_point(visited, child) {
                proof {
                    lemma_grid_idx(w, h, child);
                }
                let k = grid_index(graph.config.width, graph.config.height, child);
                let ghost marks0 = marks@;
                let ghost visited0 = visited@;
                proof {
                    lemma_count_true_update(marks@, k as int);
                    lemma_count_true_le(marks@.update(k as int, true));
                }
                proof {
                    lemma_extend_open(*graph, from, visited@, child);
                    lemma_extend_marks(*graph, marks@, visited@, child);
                    lemma_path_depth_prefix(*graph, visited@, child, visited@.len() - 1);
                    assert(visited@.push(child)[visited@.len() - 1] == last);
                }
                visited.push(child);
                marks.set(k, true);
                search_rec(graph, from, tos, min_path_length, max_path_length, visited, marks, out);
                visited.pop();
                marks.set(k, false);
                proof {
                    assert(visited@ =~= visited0);
                    assert(marks@ =~= marks0);
                    lemma_done_rec(*graph, from, tos@, min_path_length as int, max_path_length as int, visited@, child, out@);
                    lemma_extends_prefixed(out@, out_before.len() as int, visited@.push(child));
                }
            } else {
                proof {
                    lemma_done_vacuous(*graph, from, tos@, min_path_length as int, max_path_length as int, visited@, child, out@);
                    lemma_none_new(out@, visited@, child);
                }
            }
        } else {
            if contains_point(tos, child) {
                proof {
                    lemma_path_depth_prefix(*graph, visited@, child, visited@.len() - 1);
                    if visited@.len() == 1 {
                        assert(path_depth(*graph, visited@, 0) == 0);
                    }
                }
                push_found(graph, from, tos, min_path_length, max_path_length, visited, child, out);
                proof {
                    lemma_one_new(out_before, out@, visited@, child);
                    lemma_done_push(*graph, from, tos@, min_path_length as int, max_path_length as int, visited@, child, out@);
                }
            } else {
                proof {
                    lemma_done_vacuous(*graph, from, tos@, min_path_length as int, max_path_length as int, visited@, child, out@);
                    lemma_none_new(out@, visited@, child);
                }
            }
        }
        proof {
            assert forall|m: int| 0 <= m < t + 1 implies #[trigger] child_done(
                *graph,
                from,
                tos@,
                min_path_length as int,
                max_path_length as int,
                visited@,
                children@[m],
                out@,
            ) by {
                if m < t {
                    lemma_done_grow(*graph, from, tos@, min_path_length as int, max_path_length as int, visited@, children@[m], out_before, out@);
                }
            }
            lemma_distinct_step(out_before, out@, o0.len() as int, visited@, children@, t as int);
        }
        t = t + 1;
    }
    proof {
        reveal(all_listed);
        reveal(child_done);
        assert forall|p: Seq<Point>|
            #[trigger] reachable(*graph, from, tos@, p, min_path_length as int, max_path_length as int)
                && has_prefix(p, visited@) && p.len() > visited@.len() implies path_listed(out@, p) by {
            let nv = visited@.len() as int;
            assert(p[nv - 1] == visited@[nv - 1]) by {
                assert(p.subrange(0, nv)[nv - 1] == p[nv - 1]);
            }
            if nv < p.len() - 1 {
                assert(dual_adjacent(*graph, p.drop_last()[nv - 1], p.drop_last()[nv]));
            }
            assert(dual_adjacent(*graph, last, p[nv]));
            assert(children@.contains(p[nv]));
            let m = choose|m: int| 0 <= m < children@.len() && children@[m] == p[nv];
            assert(child_done(*graph, from, tos@, min_path_length as int, max_path_length as int, visited@, children@[m], out@));
        }
    }
}
} // verus!

verus! {

/// The dual paths from `from` to a router of `tos` that the depth-bounded search finds:
/// each is a simple path with no boundary router inside, within the depth bounds,
/// every path that the search reaches is among them, and none comes twice.
pub fn search_paths_between(
    graph: &SearchGraph,
    from: Point,
    tos: &Vec<Point>,
    min_path_length: usize,
    max_path_length: usize,
) -> (r: Vec<Path>)
    requires
        graph.wf(),
        kept_router(*graph, from),
        forall|q: Point| tos@.contains(q) ==> graph.dual_boundaries@.contains(q),
    ensures
        forall|p: Seq<Point>|
            #[trigger] reachable(*graph, from, tos@, p, min_path_length as int, max_path_length as int) ==> path_listed(r@, p),
        forall|a: int, c: int| 0 <= a < r@.len() && 0 <= c < r@.len() && a != c ==> #[trigger] r@[a]@ != #[trigger] r@[c]@,
        forall|j: int|
            0 <= j < r@.len() ==> found_path(*graph, from, tos@, #[trigger] r@[j]@) && depth_ok(
                *graph,
                r@[j]@,
                min_path_length as int,
                max_path_length as int,
            ),
{
    let ghost w = graph.width_spec();
    let ghost h = graph.height_spec();
    proof {
        assert(w * h <= MAX_SIDE * MAX_SIDE) by (nonlinear_arith)
            requires
                0 <= w <= MAX_SIDE,
                0 <= h <= MAX_SIDE,
        ;
    }
    let n = graph.config.width as usize * graph.config.height as usize;
    let mut marks: Vec<bool> = vec![false; n];
    let mut visited: Vec<Point> = Vec::new();
    visited.push(from);
    proof {
        lemma_grid_idx(w, h, from);
    }
    let k = grid_index(graph.config.width, graph.config.height, from);
    marks.set(k, true);
    proof {
        assert forall|p: Point| in_grid(w, h, p) implies marks@[#[trigger] grid_idx(w, p)] == visited@.contains(p) by {
            lemma_grid_idx(w, h, p);
            if p == from {
                assert(visited@[0] == from);
            }
        }
        assert(open_path(*graph, from, visited@));
    }
    let mut out: Vec<Path> = Vec::new();
    let ghost v0 = visited@;
    search_rec(graph, from, tos, min_path_length, max_path_length, &mut visited, &mut marks, &mut out);
    proof {
        reveal(all_listed);
        reveal(distinct_after);
        assert forall|p: Seq<Point>|
            #[trigger] reachable(*graph, from, tos@, p, min_path_length as int, max_path_length as int) implies path_listed(out@, p) by {
            assert(p.drop_last()[0] == from);
            assert(p.subrange(0, 1) =~= v0);
        }
    }
    out
}

/// A dual step crosses a primal edge.
proof fn lemma_dual_step_primal(g: SearchGraph, p: Point, q: Point)
    requires
        g.wf(),
        dual_adjacent(g, p, q),
    ensures
        primal_edge(g.width_spec(), g.height_spec(), g.origin_spec(), canonical(dual_of((p, q)))),
        primal_edge(g.width_spec(), g.height_spec(), g.origin_spec(), dual_of((p, q))),
{
}

/// A path between two boundary routers, lower one first, whose inner routers are not
/// boundary, found within the depth bounds.
pub open spec fn boundary_path(g: SearchGraph, p: Seq<Point>, min: int, max: int) -> bool {
    depth_ok(g, p, min, max) && exists|i: int|
        0 <= i < g.dual_boundaries@.len() && found_path(
            g,
            g.dual_boundaries@[i],
            g.dual_boundaries@.subrange(i + 1, g.dual_boundaries@.len() as int),
            p,
        )
}

/// `p` is a path that the search from the `i`-th boundary router to the later ones reaches.
#[verifier::opaque]
pub open spec fn search_reached(g: SearchGraph, i: int, p: Seq<Point>, min: int, max: int) -> bool {
    0 <= i < g.dual_boundaries@.len() && reachable(
        g,
        g.dual_boundaries@[i],
        g.dual_boundaries@.subrange(i + 1, g.dual_boundaries@.len() as int),
        p,
        min,
        max,
    )
}

/// The split `s` is one of the listed splits.
pub open spec fn split_listed(r: Seq<Vec<Edge>>, s: Seq<Edge>) -> bool {
    exists|j: int| 0 <= j < r.len() && #[trigger] r[j]@ == s
}

/// The split of some boundary-to-boundary path found within the depth bounds.
pub open spec fn split_of_boundary_path(g: SearchGraph, s: Seq<Edge>, min: int, max: int) -> bool {
    exists|p: Seq<Point>| #[trigger] boundary_path(g, p, min, max) && s == split_of(p, p.len() - 1)
}

/// Every edge of a split is a primal edge with its endpoints in lexicographic order.
pub open spec fn split_ok(g: SearchGraph, split: Seq<Edge>) -> bool {
    forall|j: int|
        0 <= j < split.len() ==> primal_edge(g.width_spec(), g.height_spec(), g.origin_spec(), #[trigger] split[j])
            && split[j] == canonical(split[j])
}

proof fn lemma_split_ok(g: SearchGraph, p: Seq<Point>, k: int)
    requires
        g.wf(),
        0 <= k < p.len(),
        forall|j: int| 0 <= j < k ==> dual_adjacent(g, #[trigger] p[j], p[j + 1]),
    ensures
        split_ok(g, split_of(p, k)),
        split_of(p, k).len() == k,
    decreases k,
{
    if k > 0 {
        lemma_split_ok(g, p, k - 1);
        lemma_dual_step_primal(g, p[k - 1], p[k]);
        let s = split_of(p, k);
        assert forall|j: int| 0 <= j < s.len() implies primal_edge(g.width_spec(), g.height_spec(), g.origin_spec(), #[trigger] s[j])
            && s[j] == canonical(s[j]) by {
            if j < k - 1 {
                assert(s[j] == split_of(p, k - 1)[j]);
            }
        }
    }
}

/// The splits of all boundary-to-boundary paths, each boundary pair taken lower router first.
pub fn search_splits(graph: &SearchGraph, min_depth: usize, max_depth: usize) -> (r: Vec<Vec<Edge>>)
    requires
        graph.wf(),
    ensures
        forall|j: int| 0 <= j < r@.len() ==> split_of_boundary_path(*graph, #[trigger] r@[j]@, min_depth as int, max_depth as int),
        forall|j: int| 0 <= j < r@.len() ==> split_ok(*graph, #[trigger] r@[j]@),
        forall|i: int, p: Seq<Point>|
            #[trigger] search_reached(*graph, i, p, min_depth as int, max_depth as int) ==> split_listed(
                r@,
                split_of(p, p.len() - 1),
            ),
{
    let boundaries = &graph.dual_boundaries;
    let nb = boundaries.len();
    let mut r: Vec<Vec<Edge>> = Vec::new();
    proof {
        reveal(search_reached);
    }
    let mut i: usize = 0;
    while i < nb && i + 1 < nb
        invariant
            graph.wf(),
            boundaries == &graph.dual_boundaries,
            nb == boundaries@.len(),
            i <= nb,
            forall|j: int| 0 <= j < r@.len() ==> split_of_boundary_path(*graph, #[trigger] r@[j]@, min_depth as int, max_depth as int),
            forall|j: int| 0 <= j < r@.len() ==> split_ok(*graph, #[trigger] r@[j]@),
            forall|i2: int, p: Seq<Point>|
                i2 < i && #[trigger] search_reached(*graph, i2, p, min_depth as int, max_depth as int) ==> split_listed(
                    r@,
                    split_of(p, p.len() - 1),
                ),
        decreases nb - i,
    {
        let from = boundaries[i];
        let mut tos: Vec<Point> = Vec::new();
        let mut t: usize = i + 1;
        while t < nb
            invariant
                i + 1 <= t <= nb,
                nb == boundaries@.len(),
                tos@ == boundaries@.subrange(i + 1, t as int),
            decreases nb - t,
        {
            tos.push(boundaries[t]);
            t = t + 1;
        }
        proof {
            reveal(SearchGraph::dual_ok);
            assert(graph.dual_boundaries@.contains(from));
            assert(kept_router(*graph, from)) by {
                lemma_grid_idx(graph.width_spec(), graph.height_spec(), from);
            }
        }
        proof {
            assert forall|q: Point| tos@.contains(q) implies graph.dual_boundaries@.contains(q) by {
                let m = choose|m: int| 0 <= m < tos@.len() && tos@[m] == q;
                assert(boundaries@[i + 1 + m] == q);
            }
        }
        let paths = search_paths_between(graph, from, &tos, min_depth, max_depth);
        let ghost r0 = r@;
        let mut k: usize = 0;
        while k < paths.len()
            invariant
                graph.wf(),
                boundaries == &graph.dual_boundaries,
                nb == boundaries@.len(),
                i + 1 < nb,
                from == boundaries@[i as int],
                tos@ == boundaries@.subrange(i + 1, nb as int),
                forall|j: int| 0 <= j < paths@.len() ==> found_path(*graph, from, tos@, #[trigger] paths@[j]@) && depth_ok(*graph, paths@[j]@, min_depth as int, max_depth as int),
                k <= paths@.len(),
                forall|j: int| 0 <= j < r@.len() ==> split_of_boundary_path(*graph, #[trigger] r@[j]@, min_depth as int, max_depth as int),
                forall|j: int| 0 <= j < r@.len() ==> split_ok(*graph, #[trigger] r@[j]@),
                r@.len() == r0.len() + k,
                forall|j: int| 0 <= j < r0.len() ==> r@[j] == r0[j],
                forall|k2: int| 0 <= k2 < k ==> r@[r0.len() + k2]@ == split_of(#[trigger] paths@[k2]@, paths@[k2]@.len() - 1),
            decreases paths@.len() - k,
        {
            let split = path_to_split(&paths[k]);
            proof {
                assert(paths@[k as int]@.len() >= 2);
            }
            let ghost p = paths@[k as int]@;
            proof {
                assert(found_path(*graph, from, tos@, p));
                assert(boundary_path(*graph, p, min_depth as int, max_depth as int));
                let q = p.drop_last();
                assert forall|j: int| 0 <= j < p.len() - 1 implies dual_adjacent(*graph, #[trigger] p[j], p[j + 1]) by {
                    if j < p.len() - 2 {
                        assert(q[j] == p[j]);
                        assert(q[j + 1] == p[j + 1]);
                        assert(dual_adjacent(*graph, q[j], q[j + 1]));
                    }
                }
                lemma_split_ok(*graph, p, p.len() - 1);
            }
            let ghost old_r = r@;
            r.push(split);
            proof {
                assert forall|j: int|
                    0 <= j < r@.len() implies split_of_boundary_path(*graph, #[trigger] r@[j]@, min_depth as int, max_depth as int) by {
                    if j < old_r.len() {
                        assert(r@[j] == old_r[j]);
                    } else {
                        assert(boundary_path(*graph, p, min_depth as int, max_depth as int) && r@[j]@ == split_of(p, p.len() - 1));
                    }
                }
                assert forall|j: int| 0 <= j < r@.len() implies split_ok(*graph, #[trigger] r@[j]@) by {
                    if j < old_r.len() {
                        assert(r@[j] == old_r[j]);
                    }
                }
                assert forall|k2: int| 0 <= k2 < k + 1 implies r@[r0.len() + k2]@ == split_of(#[trigger] paths@[k2]@, paths@[k2]@.len() - 1) by {
                    if k2 < k {
                        assert(r@[r0.len() + k2] == old_r[r0.len() + k2]);
                    }
                }
            }
            k = k + 1;
        }
        proof {
            reveal(search_reached);
            assert forall|i2: int, p: Seq<Point>|
                i2 < i + 1 && #[trigger] search_reached(*graph, i2, p, min_depth as int, max_depth as int) implies split_listed(
                    r@,
                    split_of(p, p.len() - 1),
                ) by {
                if i2 < i {
                    assert(split_listed(r0, split_of(p, p.len() - 1)));
                    let j = choose|j: int| 0 <= j < r0.len() && #[trigger] r0[j]@ == split_of(p, p.len() - 1);
                    assert(r@[j] == r0[j]);
                } else {
                    assert(reachable(*graph, from, tos@, p, min_depth as int, max_depth as int));
                    assert(path_listed(paths@, p));
                    let k2 = choose|k2: int| 0 <= k2 < paths@.len() && #[trigger] paths@[k2]@ == p;
                    assert(r@[r0.len() + k2]@ == split_of(paths@[k2]@, paths@[k2]@.len() - 1));
                }
            }
        }
        i = i + 1;
    }
    proof {
        reveal(search_reached);
        assert forall|i2: int, p: Seq<Point>|
            #[trigger] search_reached(*graph, i2, p, min_depth as int, max_depth as int) implies split_listed(
                r@,
                split_of(p, p.len() - 1),
            ) by {
            if i2 >= i {
                assert(i2 == nb - 1);
                assert(boundaries@.subrange(i2 + 1, nb as int).len() == 0);
            }
        }
    }
    r
}

} // verus!

verus! {

/// The edge is a real coupler.
pub open spec fn real_edge(g: SearchGraph, e: Edge) -> bool {
    g.real_edges@[edge_index_spec(g.width_spec(), e.0, e.1)]
}

/// The real edges among the first `k` of a split, in order.
pub open spec fn real_only(g: SearchGraph, s: Seq<Edge>, k: int) -> Seq<Edge>
    decreases k,
{
    if k <= 0 {
        seq![]
    } else if real_edge(g, s[k - 1]) {
        real_only(g, s, k - 1).push(s[k - 1])
    } else {
        real_only(g, s, k - 1)
    }
}

/// The real edges of a split, in order.
pub open spec fn real_part(g: SearchGraph, s: Seq<Edge>) -> Seq<Edge> {
    real_only(g, s, s.len() as int)
}

fn same_edges(a: &Vec<Edge>, b: &Vec<Edge>) -> (r: bool)
    ensures
        r == (a@ == b@),
{
    if a.len() != b.len() {
        return false;
    }
    let mut j: usize = 0;
    while j < a.len()
        invariant
            a@.len() == b@.len(),
            j <= a@.len(),
            forall|k: int| 0 <= k < j ==> a@[k] == b@[k],
        decreases a@.len() - j,
    {
        if a[j].0.0 != b[j].0.0 || a[j].0.1 != b[j].0.1 || a[j].1.0 != b[j].1.0 || a[j].1.1 != b[j].1.1 {
            return false;
        }
        j = j + 1;
    }
    assert(a@ =~= b@);
    true
}

/// The real edges of a split.
fn real_edges_of(graph: &SearchGraph, split: &Vec<Edge>) -> (r: Vec<Edge>)
    requires
        graph.wf(),
        split_ok(*graph, split@),
    ensures
        r@ == real_part(*graph, split@),
{
    let mut r: Vec<Edge> = Vec::new();
    let mut j: usize = 0;
    while j < split.len()
        invariant
            graph.wf(),
            split_ok(*graph, split@),
            j <= split@.len(),
            r@ == real_only(*graph, split@, j as int),
        decreases split@.len() - j,
    {
        let e = split[j];
        proof {
            assert(primal_edge(graph.width_spec(), graph.height_spec(), graph.origin_spec(), split@[j as int]));
        }
        let i = graph.edge_index(e.0, e.1);
        if graph.real_edges[i] {
            r.push(e);
        }
        j = j + 1;
    }
    r
}

/// The first split of each class of splits with the same real edges, among the first
/// `n`, in input order.
pub open spec fn first_of_classes(g: SearchGraph, splits: Seq<Seq<Edge>>, n: int) -> Seq<Seq<Edge>>
    decreases n,
{
    if n <= 0 {
        seq![]
    } else {
        let rest = first_of_classes(g, splits, n - 1);
        if exists|k: int| 0 <= k < rest.len() && #[trigger] real_part(g, rest[k]) == real_part(g, splits[n - 1]) {
            rest
        } else {
            rest.push(splits[n - 1])
        }
    }
}

/// `s` is one of the splits.
pub open spec fn among(splits: Seq<Vec<Edge>>, s: Seq<Edge>) -> bool {
    exists|j: int| 0 <= j < splits.len() && #[trigger] splits[j]@ == s
}

/// Some split of `r` has the same real edges as `s`.
pub open spec fn covered(g: SearchGraph, r: Seq<Vec<Edge>>, s: Seq<Edge>) -> bool {
    exists|k: int| 0 <= k < r.len() && #[trigger] real_part(g, r[k]@) == real_part(g, s)
}

/// Keeps the first split of each class of splits that agree on their real edges.
pub fn dedup_virtual_dispatch(graph: &SearchGraph, splits: Vec<Vec<Edge>>) -> (r: Vec<Vec<Edge>>)
    requires
        graph.wf(),
        forall|j: int| 0 <= j < splits@.len() ==> split_ok(*graph, #[trigger] splits@[j]@),
    ensures
        forall|k: int| 0 <= k < r@.len() ==> among(splits@, #[trigger] r@[k]@),
        forall|j: int| 0 <= j < splits@.len() ==> covered(*graph, r@, #[trigger] splits@[j]@),
        forall|k1: int, k2: int|
            0 <= k1 < k2 < r@.len() ==> real_part(*graph, #[trigger] r@[k1]@) != real_part(*graph, #[trigger] r@[k2]@),
        r@.map_values(|v: Vec<Edge>| v@) == first_of_classes(
            *graph,
            splits@.map_values(|v: Vec<Edge>| v@),
            splits@.len() as int,
        ),
{
    let ghost input = splits@.map_values(|v: Vec<Edge>| v@);
    let mut r: Vec<Vec<Edge>> = Vec::new();
    let mut keys: Vec<Vec<Edge>> = Vec::new();
    let mut j: usize = 0;
    while j < splits.len()
        invariant
            graph.wf(),
            forall|j2: int| 0 <= j2 < splits@.len() ==> split_ok(*graph, #[trigger] splits@[j2]@),
            j <= splits@.len(),
            keys@.len() == r@.len(),
            forall|k: int| 0 <= k < r@.len() ==> #[trigger] keys@[k]@ == real_part(*graph, r@[k]@),
            forall|k: int| 0 <= k < r@.len() ==> among(splits@, #[trigger] r@[k]@),
            forall|j2: int| 0 <= j2 < j ==> covered(*graph, r@, #[trigger] splits@[j2]@),
            forall|k1: int, k2: int|
                0 <= k1 < k2 < r@.len() ==> real_part(*graph, #[trigger] r@[k1]@) != real_part(*graph, #[trigger] r@[k2]@),
            input == splits@.map_values(|v: Vec<Edge>| v@),
            r@.map_values(|v: Vec<Edge>| v@) == first_of_classes(*graph, input, j as int),
        decreases splits@.len() - j,
    {
        proof {
            assert(split_ok(*graph, splits@[j as int]@));
        }
        let ghost rest = first_of_classes(*graph, input, j as int);
        let key = real_edges_of(graph, &splits[j]);
        let mut seen = false;
        let mut t: usize = 0;
        while t < keys.len()
            invariant
                t <= keys@.len(),
                seen ==> exists|k: int| 0 <= k < keys@.len() && keys@[k]@ == key@,
                !seen ==> forall|k: int| 0 <= k < t ==> keys@[k]@ != key@,
            decreases keys@.len() - t,
        {
            if same_edges(&keys[t], &key) {
                seen = true;
            }
            t = t + 1;
        }
        let ghost old_r = r@;
        let ghost old_keys = keys@;
        if !seen {
            let split = copy_split(&splits[j]);
            r.push(split);
            keys.push(key);
            proof {
                assert forall|k: int| 0 <= k < r@.len() implies #[trigger] keys@[k]@ == real_part(*graph, r@[k]@) by {
                    if k < old_r.len() {
                        assert(keys@[k] == old_keys[k]);
                        assert(r@[k] == old_r[k]);
                    }
                }
                assert forall|k: int| 0 <= k < r@.len() implies among(splits@, #[trigger] r@[k]@) by {
                    if k < old_r.len() {
                        assert(r@[k] == old_r[k]);
                        assert(among(splits@, old_r[k]@));
                    } else {
                        assert(splits@[j as int]@ == r@[k]@);
                    }
                }
                assert forall|j2: int| 0 <= j2 < j + 1 implies covered(*graph, r@, #[trigger] splits@[j2]@) by {
                    if j2 < j {
                        assert(covered(*graph, old_r, splits@[j2]@));
                        let k = choose|k: int| 0 <= k < old_r.len() && #[trigger] real_part(*graph, old_r[k]@) == real_part(*graph, splits@[j2]@);
                        assert(r@[k] == old_r[k]);
                    } else {
                        assert(real_part(*graph, r@[old_r.len() as int]@) == real_part(*graph, splits@[j2]@));
                    }
                }
                assert forall|k1: int, k2: int|
                    0 <= k1 < k2 < r@.len() implies real_part(*graph, #[trigger] r@[k1]@) != real_part(*graph, #[trigger] r@[k2]@) by {
                    assert(r@[k1] == old_r[k1]);
                    if k2 < old_r.len() {
                        assert(r@[k2] == old_r[k2]);
                    } else {
                        assert(old_keys[k1]@ == real_part(*graph, old_r[k1]@));
                    }
                }
                assert(input[j as int] == splits@[j as int]@);
                assert(!exists|k: int| 0 <= k < rest.len() && #[trigger] real_part(*graph, rest[k]) == real_part(*graph, input[j as int])) by {
                    if exists|k: int| 0 <= k < rest.len() && #[trigger] real_part(*graph, rest[k]) == real_part(*graph, input[j as int]) {
                        let k = choose|k: int| 0 <= k < rest.len() && #[trigger] real_part(*graph, rest[k]) == real_part(*graph, input[j as int]);
                        assert(rest[k] == old_r[k]@);
                        assert(old_keys[k]@ == key@);
                    }
                }
                assert(r@.map_values(|v: Vec<Edge>| v@) =~= rest.push(input[j as int]));
            }
        } else {
            proof {
                let k = choose|k: int| 0 <= k < keys@.len() && keys@[k]@ == key@;
                assert(real_part(*graph, r@[k]@) == real_part(*graph, splits@[j as int]@));
                assert(covered(*graph, r@, splits@[j as int]@));
                assert(input[j as int] == splits@[j as int]@);
                assert(rest[k] == r@[k]@);
                assert(real_part(*graph, rest[k]) == real_part(*graph, input[j as int]));
            }
        }
        j = j + 1;
    }
    r
}

fn copy_split(s: &Vec<Edge>) -> (r: Vec<Edge>)
    ensures
        r@ == s@,
{
    let mut r: Vec<Edge> = Vec::new();
    let mut j: usize = 0;
    while j < s.len()
        invariant
            j <= s@.len(),
            r@ == s@.subrange(0, j as int),
        decreases s@.len() - j,
    {
        r.push(s[j]);
        j = j + 1;
    }
    assert(r@ =~= s@);
    r
}

} // verus!

verus! {

/// The real primal edges outside a split among the first `k`, as pairs of qubit ids.
pub open spec fn open_id_edges(g: SearchGraph, split: Seq<Edge>, k: int) -> Seq<(usize, usize)>
    decreases k,
{
    if k <= 0 {
        seq![]
    } else {
        let rest = open_id_edges(g, split, k - 1);
        let e = edge_at(g.width_spec(), g.origin_spec(), k - 1);
        if g.real_edges@[k - 1] && !split.contains(e) {
            rest.push(
                (
                    qid_spec(g.width_spec(), g.origin_spec(), e.0) as usize,
                    qid_spec(g.width_spec(), g.origin_spec(), e.1) as usize,
                ),
            )
        } else {
            rest
        }
    }
}

/// The first used qubit id from `a` on, or `n` if there is none.
pub open spec fn first_used(cfg: TopologyConfig, a: int, n: int) -> int
    decreases n - a,
{
    if a >= n {
        n
    } else if !unused_id(cfg, a) {
        a
    } else {
        first_used(cfg, a + 1, n)
    }
}

/// The number of used qubits below `k` whose label is (or, if `!same`, is not) `lab`.
pub open spec fn side_count(cfg: TopologyConfig, labels: Seq<usize>, lab: usize, same: bool, k: int) -> nat
    decreases k,
{
    if k <= 0 {
        0
    } else {
        side_count(cfg, labels, lab, same, k - 1) + if !unused_id(cfg, k - 1) && ((labels[k - 1] == lab)
            == same) {
            1nat
        } else {
            0nat
        }
    }
}

pub open spec fn abs_diff(a: nat, b: nat) -> nat {
    if a >= b {
        (a - b) as nat
    } else {
        (b - a) as nat
    }
}

/// The component labels of the qubits once the edges of a split are removed.
pub open spec fn split_labels(g: SearchGraph, split: Seq<Edge>) -> Seq<usize> {
    labels_of(g.n_qubits as nat, open_id_edges(g, split, g.n_edges()))
}

/// The unbalance measured from the side of qubit `f`: used qubits on its side against the rest.
pub open spec fn unbalance_from(g: SearchGraph, split: Seq<Edge>, f: int) -> nat {
    let labels = split_labels(g, split);
    abs_diff(
        side_count(g.config, labels, labels[f], true, g.n_qubits as int),
        side_count(g.config, labels, labels[f], false, g.n_qubits as int),
    )
}

/// The unbalance of a split, measured from the first used qubit.
pub open spec fn unbalance_spec(g: SearchGraph, split: Seq<Edge>) -> nat {
    unbalance_from(g, split, first_used(g.config, 0, g.n_qubits as int))
}

proof fn lemma_sides_swap(cfg: TopologyConfig, labels: Seq<usize>, la: usize, lb: usize, k: int)
    requires
        la != lb,
        forall|c: int| 0 <= c < k && !unused_id(cfg, c) ==> labels[c] == la || labels[c] == lb,
    ensures
        side_count(cfg, labels, la, true, k) == side_count(cfg, labels, lb, false, k),
        side_count(cfg, labels, la, false, k) == side_count(cfg, labels, lb, true, k),
    decreases k,
{
    if k > 0 {
        lemma_sides_swap(cfg, labels, la, lb, k - 1);
    }
}

/// Unbalance does not depend on which side it is measured from: where the used qubits
/// fall into the two sides of `a` and `b`, measuring from either gives the same number.
pub proof fn lemma_unbalance_symmetric(g: SearchGraph, split: Seq<Edge>, a: int, b: int)
    requires
        0 <= a < g.n_qubits,
        0 <= b < g.n_qubits,
        split_labels(g, split)[a] != split_labels(g, split)[b],
        forall|c: int|
            0 <= c < g.n_qubits && !unused_id(g.config, c) ==> split_labels(g, split)[c]
                == split_labels(g, split)[a] || split_labels(g, split)[c] == split_labels(g, split)[b],
    ensures
        unbalance_from(g, split, a) == unbalance_from(g, split, b),
{
    let labels = split_labels(g, split);
    lemma_sides_swap(g.config, labels, labels[a], labels[b], g.n_qubits as int);
}

fn contains_edge(v: &Vec<Edge>, e: Edge) -> (r: bool)
    ensures
        r == v@.contains(e),
{
    let mut j: usize = 0;
    while j < v.len()
        invariant
            j <= v@.len(),
            forall|k: int| 0 <= k < j ==> v@[k] != e,
        decreases v@.len() - j,
    {
        if v[j].0.0 == e.0.0 && v[j].0.1 == e.0.1 && v[j].1.0 == e.1.0 && v[j].1.1 == e.1.1 {
            return true;
        }
        j = j + 1;
    }
    false
}

/// The absolute difference between the used qubits on either side of a split.
pub fn compute_unbalance(graph: &SearchGraph, split: &Vec<Edge>) -> (r: usize)
    requires
        graph.wf(),
    ensures
        r == unbalance_spec(*graph, split@),
{
    let ghost w = graph.width_spec();
    let ghost h = graph.height_spec();
    let ghost origin = graph.origin_spec();
    let n_edges = graph.real_edges.len();
    let mut edges: Vec<(usize, usize)> = Vec::new();
    let mut i: usize = 0;
    while i < n_edges
        invariant
            graph.wf(),
            w == graph.width_spec(),
            h == graph.height_spec(),
            origin == graph.origin_spec(),
            n_edges == graph.n_edges(),
            i <= n_edges,
            edges@ == open_id_edges(*graph, split@, i as int),
            forall|j: int| 0 <= j < edges@.len() ==> (#[trigger] edges@[j]).0 < graph.n_qubits && edges@[j].1 < graph.n_qubits,
        decreases n_edges - i,
    {
        let e = graph.get_edge(i);
        if graph.real_edges[i] && !contains_edge(split, e) {
            proof {
                lemma_qid_bound(w, h, origin, e.0);
                lemma_qid_bound(w, h, origin, e.1);
                lemma_grid_idx(w, h, e.0);
                lemma_grid_idx(w, h, e.1);
            }
            let a = graph.qubit_ids[grid_index(graph.config.width, graph.config.height, e.0)];
            let b = graph.qubit_ids[grid_index(graph.config.width, graph.config.height, e.1)];
            let ghost old_edges = edges@;
            edges.push((a as usize, b as usize));
            proof {
                assert forall|j: int| 0 <= j < edges@.len() implies (#[trigger] edges@[j]).0 < graph.n_qubits && edges@[j].1 < graph.n_qubits by {
                    if j < old_edges.len() {
                        assert(edges@[j] == old_edges[j]);
                    }
                }
            }
        }
        i = i + 1;
    }
    let n = graph.n_qubits;
    let labels = component_labels(n as usize, &edges);
    let mut f: u32 = 0;
    while f < n && contains_id(&graph.config.unused_qubits, f)
        invariant
            f <= n,
            first_used(graph.config, 0, n as int) == first_used(graph.config, f as int, n as int),
        decreases n - f,
    {
        f = f + 1;
    }
    proof {
        assert(first_used(graph.config, 0, n as int) == f);
        if f == n {
            let a = choose|a: int| 0 <= a < graph.n_qubits && !#[trigger] unused_id(graph.config, a);
            lemma_first_used_found(graph.config, 0, n as int, a);
        }
    }
    let lab = labels[f as usize];
    let mut c1: usize = 0;
    let mut c2: usize = 0;
    let mut a: u32 = 0;
    while a < n
        invariant
            a <= n,
            labels@.len() == n,
            c1 == side_count(graph.config, labels@, lab, true, a as int),
            c2 == side_count(graph.config, labels@, lab, false, a as int),
            c1 + c2 <= a,
        decreases n - a,
    {
        if !contains_id(&graph.config.unused_qubits, a) {
            if labels[a as usize] == lab {
                c1 = c1 + 1;
            } else {
                c2 = c2 + 1;
            }
        }
        a = a + 1;
    }
    if c1 >= c2 {
        c1 - c2
    } else {
        c2 - c1
    }
}

proof fn lemma_first_used_found(cfg: TopologyConfig, a: int, n: int, b: int)
    requires
        a <= b < n,
        !unused_id(cfg, b),
    ensures
        first_used(cfg, a, n) <= b,
    decreases n - a,
{
    if a < b && unused_id(cfg, a) {
        lemma_first_used_found(cfg, a + 1, n, b);
    }
}

} // verus!

verus! {

/// The index of an edge, as stored in a wrapped cut.
pub open spec fn edge_idx(g: SearchGraph, e: Edge) -> usize {
    edge_index_spec(g.width_spec(), e.0, e.1) as usize
}

/// Two edges share an endpoint.
pub open spec fn share_node(e1: Edge, e2: Edge) -> bool {
    e1.0 == e2.0 || e1.0 == e2.1 || e1.1 == e2.0 || e1.1 == e2.1
}

/// Wedge candidates `(j, m)` for `j < m < k` among the edges of `s`.
pub open spec fn wedge_row(g: SearchGraph, s: Seq<Edge>, j: int, k: int) -> Seq<(usize, usize)>
    decreases k - j,
{
    if k <= j + 1 {
        seq![]
    } else if share_node(s[j], s[k - 1]) {
        wedge_row(g, s, j, k - 1).push((edge_idx(g, s[j]), edge_idx(g, s[k - 1])))
    } else {
        wedge_row(g, s, j, k - 1)
    }
}

/// Wedge candidates whose first edge lies among the first `j` edges of `s`, pairs in order.
pub open spec fn wedge_all(g: SearchGraph, s: Seq<Edge>, j: int) -> Seq<(usize, usize)>
    decreases j,
{
    if j <= 0 {
        seq![]
    } else {
        wedge_all(g, s, j - 1) + wedge_row(g, s, j - 1, s.len() as int)
    }
}

/// The primal edge `(a, b)`, if there is one, and whether it is real.
pub open spec fn weight_spec(g: SearchGraph, a: Point, b: Point) -> Option<bool> {
    if primal_edge(g.width_spec(), g.height_spec(), g.origin_spec(), (a, b)) {
        Some(g.real_edges@[edge_index_spec(g.width_spec(), a, b)])
    } else {
        None
    }
}

/// The point one step past `a` on the line through `b` and `a`.
pub open spec fn beyond(a: Point, b: Point) -> Point {
    ((2 * a.0 - b.0) as i32, (2 * a.1 - b.1) as i32)
}

/// The DCD candidate of a cut edge: its extension past the end where the extension is
/// real while the extension past the other end is not.
pub open spec fn dcd_cand(g: SearchGraph, e: Edge) -> Option<(usize, usize)> {
    let (n1, n2) = e;
    let i1 = beyond(n1, n2);
    let i2 = beyond(n2, n1);
    match (weight_spec(g, n1, i1), weight_spec(g, n2, i2)) {
        (Some(true), Some(false)) | (Some(true), None) => Some((edge_idx(g, e), edge_idx(g, (i1, n1)))),
        (Some(false), Some(true)) | (None, Some(true)) => Some((edge_idx(g, e), edge_idx(g, (n2, i2)))),
        _ => None,
    }
}

/// The DCD candidates of the first `k` edges of `s`.
pub open spec fn dcd_all(g: SearchGraph, s: Seq<Edge>, k: int) -> Seq<(usize, usize)>
    decreases k,
{
    if k <= 0 {
        seq![]
    } else {
        match dcd_cand(g, s[k - 1]) {
            Some(c) => dcd_all(g, s, k - 1).push(c),
            None => dcd_all(g, s, k - 1),
        }
    }
}

pub open spec fn edge_indices(g: SearchGraph, s: Seq<Edge>) -> Seq<usize> {
    s.map_values(|e: Edge| edge_idx(g, e))
}

impl Cutline {
    /// Prepares a cut for evaluation: keeps its real edges, as indices, and lists its
    /// wedge and DCD candidates.
    pub fn into_wrapped(self, graph: &SearchGraph) -> (r: CutlineWrapped)
        requires
            graph.wf(),
            split_ok(*graph, self.split@),
        ensures
            r.split@ == edge_indices(*graph, real_part(*graph, self.split@)),
            r.unbalance == self.unbalance,
            r.wedge_candidates@ == wedge_all(
                *graph,
                real_part(*graph, self.split@),
                real_part(*graph, self.split@).len() as int,
            ),
            r.dcd_candidates@ == dcd_all(
                *graph,
                real_part(*graph, self.split@),
                real_part(*graph, self.split@).len() as int,
            ),
    {
        let split = real_edges_of(graph, &self.split);
        let ghost s = split@;
        proof {
            lemma_real_only_ok(*graph, self.split@, self.split@.len() as int);
        }
        let n = split.len();
        let mut wedge_candidates: Vec<(usize, usize)> = Vec::new();
        let mut j: usize = 0;
        while j < n
            invariant
                graph.wf(),
                s == split@,
                n == s.len(),
                split_ok(*graph, s),
                j <= n,
                wedge_candidates@ == wedge_all(*graph, s, j as int),
            decreases n - j,
        {
            let ghost before = wedge_candidates@;
            let mut m: usize = j + 1;
            while m < n
                invariant
                    graph.wf(),
                    s == split@,
                    n == s.len(),
                    split_ok(*graph, s),
                    j < n,
                    j + 1 <= m <= n,
                    wedge_candidates@ == before + wedge_row(*graph, s, j as int, m as int),
                decreases n - m,
            {
                let (e1, e2) = (split[j], split[m]);
                if same_point(e1.0, e2.0) || same_point(e1.0, e2.1) || same_point(e1.1, e2.0) || same_point(e1.1, e2.1) {
                    proof {
                        assert(primal_edge(graph.width_spec(), graph.height_spec(), graph.origin_spec(), s[j as int]));
                        assert(primal_edge(graph.width_spec(), graph.height_spec(), graph.origin_spec(), s[m as int]));
                    }
                    let a = graph.edge_index(e1.0, e1.1);
                    let b = graph.edge_index(e2.0, e2.1);
                    wedge_candidates.push((a, b));
                    proof {
                        assert(wedge_candidates@ =~= before + wedge_row(*graph, s, j as int, m + 1));
                    }
                }
                m = m + 1;
            }
            j = j + 1;
        }
        let mut dcd_candidates: Vec<(usize, usize)> = Vec::new();
        let mut j: usize = 0;
        while j < n
            invariant
                graph.wf(),
                s == split@,
                n == s.len(),
                split_ok(*graph, s),
                j <= n,
                dcd_candidates@ == dcd_all(*graph, s, j as int),
            decreases n - j,
        {
            let (n1, n2) = split[j];
            proof {
                assert(primal_edge(graph.width_spec(), graph.height_spec(), graph.origin_spec(), s[j as int]));
            }
            let incident1: Point = (2 * n1.0 - n2.0, 2 * n1.1 - n2.1);
            let incident2: Point = (2 * n2.0 - n1.0, 2 * n2.1 - n1.1);
            let w1 = graph.edge_weight(n1, incident1);
            let w2 = graph.edge_weight(n2, incident2);
            proof {
                assert(w1 == weight_spec(*graph, n1, incident1));
                assert(w2 == weight_spec(*graph, n2, incident2));
            }
            let here = graph.edge_index(n1, n2);
            match (w1, w2) {
                (Some(true), Some(false)) | (Some(true), None) => {
                    let other = graph.edge_index(incident1, n1);
                    dcd_candidates.push((here, other));
                },
                (Some(false), Some(true)) | (None, Some(true)) => {
                    let other = graph.edge_index(n2, incident2);
                    dcd_candidates.push((here, other));
                },
                _ => {},
            }
            j = j + 1;
        }
        let mut indices: Vec<usize> = Vec::new();
        let mut j: usize = 0;
        while j < n
            invariant
                graph.wf(),
                s == split@,
                n == s.len(),
                split_ok(*graph, s),
                j <= n,
                indices@ == edge_indices(*graph, s).subrange(0, j as int),
            decreases n - j,
        {
            let e = split[j];
            proof {
                assert(primal_edge(graph.width_spec(), graph.height_spec(), graph.origin_spec(), s[j as int]));
            }
            indices.push(graph.edge_index(e.0, e.1));
            proof {
                assert(indices@ =~= edge_indices(*graph, s).subrange(0, j + 1));
            }
            j = j + 1;
        }
        proof {
            assert(indices@ =~= edge_indices(*graph, s));
        }
        CutlineWrapped { split: indices, unbalance: self.unbalance, wedge_candidates, dcd_candidates }
    }

    /// Recovers the cut's real edges from a wrapped cut.
    pub fn from_wrapper(wrapper: CutlineWrapped, graph: &SearchGraph) -> (r: Self)
        requires
            graph.wf(),
            forall|j: int| 0 <= j < wrapper.split@.len() ==> #[trigger] wrapper.split@[j] < graph.n_edges(),
        ensures
            r.unbalance == wrapper.unbalance,
            r.split@.len() == wrapper.split@.len(),
            forall|j: int|
                0 <= j < r.split@.len() ==> #[trigger] r.split@[j] == edge_at(
                    graph.width_spec(),
                    graph.origin_spec(),
                    wrapper.split@[j] as int,
                ),
    {
        let mut split: Vec<Edge> = Vec::new();
        let mut j: usize = 0;
        while j < wrapper.split.len()
            invariant
                graph.wf(),
                forall|k: int| 0 <= k < wrapper.split@.len() ==> #[trigger] wrapper.split@[k] < graph.n_edges(),
                j <= wrapper.split@.len(),
                split@.len() == j,
                forall|k: int|
                    0 <= k < j ==> #[trigger] split@[k] == edge_at(
                        graph.width_spec(),
                        graph.origin_spec(),
                        wrapper.split@[k] as int,
                    ),
            decreases wrapper.split@.len() - j,
        {
            split.push(graph.get_edge(wrapper.split[j]));
            j = j + 1;
        }
        Cutline { split, unbalance: wrapper.unbalance }
    }
}

fn same_point(a: Point, b: Point) -> (r: bool)
    ensures
        r == (a == b),
{
    a.0 == b.0 && a.1 == b.1
}

proof fn lemma_real_only_ok(g: SearchGraph, s: Seq<Edge>, k: int)
    requires
        split_ok(g, s),
        0 <= k <= s.len(),
    ensures
        split_ok(g, real_only(g, s, k)),
    decreases k,
{
    if k > 0 {
        lemma_real_only_ok(g, s, k - 1);
        let r = real_only(g, s, k);
        let prev = real_only(g, s, k - 1);
        assert forall|j: int| 0 <= j < r.len() implies primal_edge(g.width_spec(), g.height_spec(), g.origin_spec(), #[trigger] r[j])
            && r[j] == canonical(r[j]) by {
            if j < prev.len() {
                assert(r[j] == prev[j]);
            } else {
                assert(r[j] == s[k - 1]);
            }
        }
    }
}

} // verus!

verus! {

/// The splits among the first `n` whose unbalance is at most `max`, in order.
pub open spec fn balanced_upto(g: SearchGraph, splits: Seq<Seq<Edge>>, n: int, max: int) -> Seq<Seq<Edge>>
    decreases n,
{
    if n <= 0 {
        seq![]
    } else if unbalance_spec(g, splits[n - 1]) <= max {
        balanced_upto(g, splits, n - 1, max).push(splits[n - 1])
    } else {
        balanced_upto(g, splits, n - 1, max)
    }
}

/// Filtering keeps the real parts pairwise distinct, and draws from the input.
proof fn lemma_balanced_distinct(g: SearchGraph, s: Seq<Seq<Edge>>, n: int, max: int)
    requires
        0 <= n <= s.len(),
        forall|k1: int, k2: int| 0 <= k1 < k2 < n ==> real_part(g, #[trigger] s[k1]) != real_part(g, #[trigger] s[k2]),
    ensures
        forall|k: int| 0 <= k < balanced_upto(g, s, n, max).len() ==> exists|i: int| 0 <= i < n && s[i] == #[trigger] balanced_upto(g, s, n, max)[k],
        forall|k1: int, k2: int|
            0 <= k1 < k2 < balanced_upto(g, s, n, max).len() ==> real_part(g, #[trigger] balanced_upto(g, s, n, max)[k1])
                != real_part(g, #[trigger] balanced_upto(g, s, n, max)[k2]),
    decreases n,
{
    if n > 0 {
        lemma_balanced_distinct(g, s, n - 1, max);
        let prev = balanced_upto(g, s, n - 1, max);
        let cur = balanced_upto(g, s, n, max);
        assert forall|k: int| 0 <= k < cur.len() implies exists|i: int| 0 <= i < n && s[i] == #[trigger] cur[k] by {
            if k < prev.len() {
                assert(cur[k] == prev[k]);
                let i = choose|i: int| 0 <= i < n - 1 && s[i] == #[trigger] prev[k];
            } else {
                assert(s[n - 1] == cur[k]);
            }
        }
        assert forall|k1: int, k2: int| 0 <= k1 < k2 < cur.len() implies real_part(g, #[trigger] cur[k1]) != real_part(g, #[trigger] cur[k2]) by {
            assert(cur[k1] == prev[k1]);
            if k2 < prev.len() {
                assert(cur[k2] == prev[k2]);
            } else {
                let i = choose|i: int| 0 <= i < n - 1 && s[i] == #[trigger] prev[k1];
                assert(cur[k2] == s[n - 1]);
            }
        }
    }
}

/// Turns splits into cuts, keeping those whose unbalance is at most `max_unbalance`.
pub fn limit_unbalance(graph: &SearchGraph, splits: Vec<Vec<Edge>>, max_unbalance: usize) -> (r: Vec<
    Cutline,
>)
    requires
        graph.wf(),
    ensures
        forall|k: int|
            0 <= k < r@.len() ==> among(splits@, #[trigger] r@[k].split@) && r@[k].unbalance
                == unbalance_spec(*graph, r@[k].split@) && r@[k].unbalance <= max_unbalance,
        forall|j: int|
            0 <= j < splits@.len() && unbalance_spec(*graph, #[trigger] splits@[j]@) <= max_unbalance
                ==> exists|k: int| 0 <= k < r@.len() && r@[k].split@ == splits@[j]@,
        r@.map_values(|c: Cutline| c.split@) == balanced_upto(
            *graph,
            splits@.map_values(|v: Vec<Edge>| v@),
            splits@.len() as int,
            max_unbalance as int,
        ),
{
    let ghost input = splits@.map_values(|v: Vec<Edge>| v@);
    let mut r: Vec<Cutline> = Vec::new();
    let mut j: usize = 0;
    while j < splits.len()
        invariant
            graph.wf(),
            j <= splits@.len(),
            forall|k: int|
                0 <= k < r@.len() ==> among(splits@, #[trigger] r@[k].split@) && r@[k].unbalance
                    == unbalance_spec(*graph, r@[k].split@) && r@[k].unbalance <= max_unbalance,
            forall|j2: int|
                0 <= j2 < j && unbalance_spec(*graph, #[trigger] splits@[j2]@) <= max_unbalance
                    ==> exists|k: int| 0 <= k < r@.len() && r@[k].split@ == splits@[j2]@,
            input == splits@.map_values(|v: Vec<Edge>| v@),
            r@.map_values(|c: Cutline| c.split@) == balanced_upto(*graph, input, j as int, max_unbalance as int),
        decreases splits@.len() - j,
    {
        let ghost before = r@;
        proof {
            assert(input[j as int] == splits@[j as int]@);
        }
        let unbalance = compute_unbalance(graph, &splits[j]);
        if unbalance <= max_unbalance {
            let split = copy_split(&splits[j]);
            let ghost old_r = r@;
            r.push(Cutline { split, unbalance });
            proof {
                assert forall|k: int|
                    0 <= k < r@.len() implies among(splits@, #[trigger] r@[k].split@) && r@[k].unbalance
                        == unbalance_spec(*graph, r@[k].split@) && r@[k].unbalance <= max_unbalance by {
                    if k < old_r.len() {
                        assert(r@[k] == old_r[k]);
                    } else {
                        assert(splits@[j as int]@ == r@[k].split@);
                    }
                }
                assert forall|j2: int|
                    0 <= j2 < j + 1 && unbalance_spec(*graph, #[trigger] splits@[j2]@) <= max_unbalance
                        implies exists|k: int| 0 <= k < r@.len() && r@[k].split@ == splits@[j2]@ by {
                    if j2 < j {
                        let k = choose|k: int| 0 <= k < old_r.len() && old_r[k].split@ == splits@[j2]@;
                        assert(r@[k] == old_r[k]);
                    } else {
                        assert(r@[old_r.len() as int].split@ == splits@[j2]@);
                    }
                }
                assert(r@.map_values(|c: Cutline| c.split@) =~= before.map_values(|c: Cutline| c.split@).push(input[j as int]));
            }
        }
        j = j + 1;
    }
    r
}

proof fn lemma_cuts_from_paths(
    g: SearchGraph,
    all: Seq<Vec<Edge>>,
    unique: Seq<Vec<Edge>>,
    cuts: Seq<Cutline>,
    min: int,
    max: int,
)
    requires
        forall|j: int| 0 <= j < all.len() ==> split_of_boundary_path(g, #[trigger] all[j]@, min, max),
        forall|j: int| 0 <= j < all.len() ==> split_ok(g, #[trigger] all[j]@),
        forall|k: int| 0 <= k < unique.len() ==> among(all, #[trigger] unique[k]@),
        forall|k: int| 0 <= k < cuts.len() ==> among(unique, #[trigger] cuts[k].split@),
    ensures
        forall|k: int|
            0 <= k < cuts.len() ==> split_of_boundary_path(g, #[trigger] cuts[k].split@, min, max)
                && split_ok(g, cuts[k].split@),
{
    assert forall|k: int| 0 <= k < cuts.len() implies split_of_boundary_path(g, #[trigger] cuts[k].split@, min, max)
        && split_ok(g, cuts[k].split@) by {
        assert(among(unique, cuts[k].split@));
        let j = choose|j: int| 0 <= j < unique.len() && #[trigger] unique[j]@ == cuts[k].split@;
        assert(among(all, unique[j]@));
        let i = choose|i: int| 0 <= i < all.len() && #[trigger] all[i]@ == unique[j]@;
        assert(split_of_boundary_path(g, all[i]@, min, max));
        assert(split_ok(g, all[i]@));
    }
}

proof fn lemma_cuts_distinct(g: SearchGraph, unique: Seq<Vec<Edge>>, cuts: Seq<Cutline>, max: int)
    requires
        forall|k1: int, k2: int|
            0 <= k1 < k2 < unique.len() ==> real_part(g, #[trigger] unique[k1]@) != real_part(g, #[trigger] unique[k2]@),
        cuts.map_values(|c: Cutline| c.split@) == balanced_upto(
            g,
            unique.map_values(|v: Vec<Edge>| v@),
            unique.len() as int,
            max,
        ),
    ensures
        forall|k1: int, k2: int|
            0 <= k1 < k2 < cuts.len() ==> real_part(g, #[trigger] cuts[k1].split@) != real_part(g, #[trigger] cuts[k2].split@),
{
    let su = unique.map_values(|v: Vec<Edge>| v@);
    assert forall|k1: int, k2: int| 0 <= k1 < k2 < su.len() implies real_part(g, #[trigger] su[k1]) != real_part(g, #[trigger] su[k2]) by {
        assert(su[k1] == unique[k1]@);
        assert(su[k2] == unique[k2]@);
    }
    lemma_balanced_distinct(g, su, su.len() as int, max);
    let b = balanced_upto(g, su, su.len() as int, max);
    assert forall|k1: int, k2: int| 0 <= k1 < k2 < cuts.len() implies real_part(g, #[trigger] cuts[k1].split@)
        != real_part(g, #[trigger] cuts[k2].split@) by {
        assert(cuts.map_values(|c: Cutline| c.split@)[k1] == b[k1]);
        assert(cuts.map_values(|c: Cutline| c.split@)[k2] == b[k2]);
    }
}

/// For a real edge, being on a split is being on its real part.
proof fn lemma_real_contains(g: SearchGraph, s: Seq<Edge>, k: int, e: Edge)
    requires
        0 <= k <= s.len(),
        real_edge(g, e),
    ensures
        s.subrange(0, k).contains(e) <==> real_only(g, s, k).contains(e),
    decreases k,
{
    if k > 0 {
        lemma_real_contains(g, s, k - 1, e);
        let pre = s.subrange(0, k - 1);
        assert(s.subrange(0, k) =~= pre.push(s[k - 1]));
        if pre.contains(e) {
            let i = choose|i: int| 0 <= i < pre.len() && pre[i] == e;
            assert(s.subrange(0, k)[i] == e);
        }
        if s.subrange(0, k).contains(e) && e != s[k - 1] {
            let i = choose|i: int| 0 <= i < k && s.subrange(0, k)[i] == e;
            assert(pre[i] == e);
        }
        let r = real_only(g, s, k);
        let rp = real_only(g, s, k - 1);
        if rp.contains(e) {
            let i = choose|i: int| 0 <= i < rp.len() && rp[i] == e;
            assert(r[i] == e);
        }
        if r.contains(e) && e != s[k - 1] {
            let i = choose|i: int| 0 <= i < r.len() && r[i] == e;
            assert(rp[i] == e);
        }
        if e == s[k - 1] {
            assert(s.subrange(0, k)[k - 1] == e);
            assert(r[r.len() - 1] == e);
        }
    }
}

/// Splits with the same real edges leave the same real edges in place.
proof fn lemma_open_edges_same(g: SearchGraph, s1: Seq<Edge>, s2: Seq<Edge>, k: int)
    requires
        g.wf(),
        real_part(g, s1) == real_part(g, s2),
        0 <= k <= g.n_edges(),
    ensures
        open_id_edges(g, s1, k) == open_id_edges(g, s2, k),
    decreases k,
{
    if k > 0 {
        lemma_open_edges_same(g, s1, s2, k - 1);
        let e = edge_at(g.width_spec(), g.origin_spec(), k - 1);
        if g.real_edges@[k - 1] {
            crate::geometry::lemma_edge_at_index(g.width_spec(), g.height_spec(), g.origin_spec(), k - 1);
            assert(real_edge(g, e));
            lemma_real_contains(g, s1, s1.len() as int, e);
            lemma_real_contains(g, s2, s2.len() as int, e);
            assert(s1.subrange(0, s1.len() as int) =~= s1);
            assert(s2.subrange(0, s2.len() as int) =~= s2);
        }
    }
}

/// The unbalance of a split depends on its real edges alone.
pub proof fn lemma_unbalance_real_only(g: SearchGraph, s1: Seq<Edge>, s2: Seq<Edge>)
    requires
        g.wf(),
        real_part(g, s1) == real_part(g, s2),
    ensures
        unbalance_spec(g, s1) == unbalance_spec(g, s2),
{
    lemma_open_edges_same(g, s1, s2, g.n_edges());
}

proof fn lemma_cuts_complete(
    g: SearchGraph,
    all: Seq<Vec<Edge>>,
    unique: Seq<Vec<Edge>>,
    cuts: Seq<Cutline>,
    min: int,
    max: int,
    max_unbalance: int,
)
    requires
        g.wf(),
        forall|i: int, p: Seq<Point>|
            #[trigger] search_reached(g, i, p, min, max) ==> split_listed(all, split_of(p, p.len() - 1)),
        forall|j: int| 0 <= j < all.len() ==> covered(g, unique, #[trigger] all[j]@),
        forall|j: int|
            0 <= j < unique.len() && unbalance_spec(g, #[trigger] unique[j]@) <= max_unbalance
                ==> exists|k: int| 0 <= k < cuts.len() && cuts[k].split@ == unique[j]@,
    ensures
        forall|i: int, p: Seq<Point>|
            #[trigger] search_reached(g, i, p, min, max) && unbalance_spec(g, split_of(p, p.len() - 1))
                <= max_unbalance ==> exists|k: int|
                0 <= k < cuts.len() && real_part(g, cuts[k].split@) == real_part(g, split_of(p, p.len() - 1)),
{
    assert forall|i: int, p: Seq<Point>|
        #[trigger] search_reached(g, i, p, min, max) && unbalance_spec(g, split_of(p, p.len() - 1))
            <= max_unbalance implies exists|k: int|
            0 <= k < cuts.len() && real_part(g, cuts[k].split@) == real_part(g, split_of(p, p.len() - 1)) by {
        let s = split_of(p, p.len() - 1);
        let j = choose|j: int| 0 <= j < all.len() && #[trigger] all[j]@ == s;
        assert(covered(g, unique, all[j]@));
        let k = choose|k: int| 0 <= k < unique.len() && #[trigger] real_part(g, unique[k]@) == real_part(g, all[j]@);
        lemma_unbalance_real_only(g, unique[k]@, s);
        assert(unbalance_spec(g, unique[k]@) <= max_unbalance);
        let k2 = choose|k2: int| 0 <= k2 < cuts.len() && cuts[k2].split@ == unique[k]@;
    }
}

/// The cuts of a list of splits: one per class of splits with the same real edges,
/// with unbalance at most `max_unbalance`.
fn cut_pipeline(graph: &SearchGraph, found: Vec<Vec<Edge>>, min: Ghost<int>, max: Ghost<int>, max_unbalance: usize) -> (cuts: Vec<Cutline>)
    requires
        graph.wf(),
        forall|j: int| 0 <= j < found@.len() ==> split_of_boundary_path(*graph, #[trigger] found@[j]@, min@, max@),
        forall|j: int| 0 <= j < found@.len() ==> split_ok(*graph, #[trigger] found@[j]@),
        forall|i: int, p: Seq<Point>|
            #[trigger] search_reached(*graph, i, p, min@, max@) ==> split_listed(found@, split_of(p, p.len() - 1)),
    ensures
        cuts_ok(*graph, cuts@, min@, max@, max_unbalance as int),
{
    let ghost all = found@;
    let splits = dedup_virtual_dispatch(graph, found);
    let ghost unique = splits@;
    let cuts = limit_unbalance(graph, splits, max_unbalance);
    proof {
        lemma_cuts_from_paths(*graph, all, unique, cuts@, min@, max@);
        lemma_cuts_distinct(*graph, unique, cuts@, max_unbalance as int);
        lemma_cuts_complete(*graph, all, unique, cuts@, min@, max@, max_unbalance as int);
    }
    cuts
}

/// The cuts are splits of boundary paths within the depth bounds with their unbalance,
/// at most `max_unbalance`, pairwise different in their real edges, and every reached
/// boundary path whose split is balanced enough has a cut with its real edges.
pub open spec fn cuts_ok(g: SearchGraph, cuts: Seq<Cutline>, min: int, max: int, max_unbalance: int) -> bool {
    &&& forall|k: int|
        0 <= k < cuts.len() ==> split_of_boundary_path(g, #[trigger] cuts[k].split@, min, max)
            && split_ok(g, cuts[k].split@) && cuts[k].unbalance == unbalance_spec(g, cuts[k].split@)
            && cuts[k].unbalance <= max_unbalance
    &&& forall|k1: int, k2: int|
        0 <= k1 < k2 < cuts.len() ==> real_part(g, #[trigger] cuts[k1].split@) != real_part(g, #[trigger] cuts[k2].split@)
    &&& forall|i: int, p: Seq<Point>|
        #[trigger] search_reached(g, i, p, min, max) && unbalance_spec(g, split_of(p, p.len() - 1)) <= max_unbalance
            ==> exists|k: int| 0 <= k < cuts.len() && real_part(g, cuts[k].split@) == real_part(g, split_of(p, p.len() - 1))
}

/// All admissible cuts: splits of boundary-to-boundary dual paths found within the
/// depth bounds, one per class of splits with the same real edges, whose unbalance
/// is at most `max_unbalance`; every reached path with a balanced enough split is
/// represented.
pub fn search_cutlines(graph: &SearchGraph, algorithm_config: &AlgorithmConfig) -> (r: Result<
    Vec<Cutline>,
    SearchError,
>)
    requires
        graph.wf(),
    ensures
        algorithm_config.min_depth > algorithm_config.max_depth <==> r == Err::<Vec<Cutline>, SearchError>(
            SearchError::InfeasibleBounds,
        ),
        algorithm_config.min_depth <= algorithm_config.max_depth ==> r is Ok,
        r matches Ok(cuts) ==> cuts_ok(
            *graph,
            cuts@,
            algorithm_config.min_depth as int,
            algorithm_config.max_depth as int,
            algorithm_config.max_unbalance as int,
        ),
{
    if algorithm_config.min_depth > algorithm_config.max_depth {
        return Err(SearchError::InfeasibleBounds);
    }
    let found = search_splits(graph, algorithm_config.min_depth, algorithm_config.max_depth);
    let cuts = cut_pipeline(
        graph,
        found,
        Ghost(algorithm_config.min_depth as int),
        Ghost(algorithm_config.max_depth as int),
        algorithm_config.max_unbalance,
    );
    Ok(cuts)
}

} // verus!
