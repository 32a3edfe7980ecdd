use crate::config::TopologyConfig;
use crate::dual::{dual_node, boundary_spec, point_lt, prune_and_list, pruned_spec};
use crate::geometry::{
    diagonal, dual_of, duality_map, grid_idx, edge_at, edge_at_index, edge_index_of, edge_index_spec, grid_pt, lemma_diagonal_index, lemma_grid_pt, primal_edge, Edge, in_grid, in_primal, in_primal_spec, lemma_edge_at_index,
    lemma_grid_idx, grid_index, n_edges_spec, Point, MAX_SIDE,
};
use vstd::prelude::*;

verus! {

/// Why a lattice or a search could not be set up.
#[derive(Debug, PartialEq, Eq, Clone, Copy, Structural)]
pub enum SearchError {
    /// Without its unused qubits and couplers the processor falls apart.
    TopologyDisconnected,
    /// A grid side, a qubit id or an order letter is out of range.
    InvalidCoordinates,
    /// The minimum search depth exceeds the maximum.
    InfeasibleBounds,
    /// There is no pattern or no cut to evaluate.
    EmptyInput,
    /// A pattern string is malformed.
    ParseError,
}

/// The number of qubits `(x', y)` of row `y` with `x' < x`.
pub open spec fn row_prefix(y: int, x: int, origin: bool) -> nat
    decreases x,
{
    if x <= 0 {
        0
    } else {
        row_prefix(y, x - 1, origin) + if in_primal_spec(x - 1, y, origin) {
            1nat
        } else {
            0nat
        }
    }
}

/// The number of qubits in the rows above row `y`.
pub open spec fn rows_before(w: int, y: int, origin: bool) -> nat
    decreases y,
{
    if y <= 0 {
        0
    } else {
        rows_before(w, y - 1, origin) + row_prefix(y - 1, w, origin)
    }
}

/// The id of the qubit at `p`: qubits are numbered in row-major order.
pub open spec fn qid_spec(w: int, origin: bool, p: Point) -> int {
    (rows_before(w, p.1 as int, origin) + row_prefix(p.1 as int, p.0 as int, origin)) as int
}

pub open spec fn n_qubits_spec(w: int, h: int, origin: bool) -> int {
    rows_before(w, h, origin) as int
}

pub open spec fn unused_id(cfg: TopologyConfig, q: int) -> bool {
    cfg.unused_qubits@.contains(q as u32)
}

pub open spec fn coupler_unused(cfg: TopologyConfig, a: int, b: int) -> bool {
    cfg.unused_couplers@.contains((a as u32, b as u32))
}

/// A coupler is real iff neither end is an unused qubit and it is not listed as unused.
pub open spec fn real_spec(cfg: TopologyConfig, i: int) -> bool {
    let w = cfg.width as int;
    let e = edge_at(w, cfg.qubit_at_origin, i);
    let a = qid_spec(w, cfg.qubit_at_origin, e.0);
    let b = qid_spec(w, cfg.qubit_at_origin, e.1);
    !unused_id(cfg, a) && !unused_id(cfg, b) && !coupler_unused(cfg, a, b) && !coupler_unused(
        cfg,
        b,
        a,
    )
}

pub open spec fn real_seq(cfg: TopologyConfig) -> Seq<bool> {
    Seq::new(
        n_edges_spec(cfg.width as int, cfg.height as int) as nat,
        |i: int| real_spec(cfg, i),
    )
}

/// The grid sides are in the handled range and every listed id names a qubit.
pub open spec fn valid_topology(cfg: TopologyConfig) -> bool {
    let n = n_qubits_spec(cfg.width as int, cfg.height as int, cfg.qubit_at_origin);
    &&& 1 <= cfg.width <= MAX_SIDE
    &&& 1 <= cfg.height <= MAX_SIDE
    &&& forall|j: int| 0 <= j < cfg.unused_qubits@.len() ==> cfg.unused_qubits@[j] < n
    &&& forall|j: int|
        0 <= j < cfg.unused_couplers@.len() ==> cfg.unused_couplers@[j].0 < n
            && cfg.unused_couplers@[j].1 < n
}

proof fn lemma_row_prefix_bound(y: int, x: int, origin: bool)
    ensures
        row_prefix(y, x, origin) <= if x < 0 { 0 } else { x },
    decreases x,
{
    if x > 0 {
        lemma_row_prefix_bound(y, x - 1, origin);
    }
}

proof fn lemma_rows_before_bound(w: int, y: int, origin: bool)
    requires
        w >= 0,
    ensures
        rows_before(w, y, origin) <= if y < 0 { 0 } else { y * w },
    decreases y,
{
    if y > 0 {
        lemma_rows_before_bound(w, y - 1, origin);
        lemma_row_prefix_bound(y - 1, w, origin);
        assert((y - 1) * w + w == y * w) by (nonlinear_arith);
    }
}

proof fn lemma_rows_monotone(w: int, y1: int, y2: int, origin: bool)
    requires
        w >= 0,
        y1 <= y2,
    ensures
        rows_before(w, y1, origin) <= rows_before(w, y2, origin),
    decreases y2 - y1,
{
    if y1 < y2 {
        lemma_rows_monotone(w, y1, y2 - 1, origin);
    }
}

/// The id of every grid point lies below the number of qubits, and ids grow in row-major order.
pub(crate) proof fn lemma_qid_bound(w: int, h: int, origin: bool, p: Point)
    requires
        0 < w,
        in_grid(w, h, p),
    ensures
        0 <= qid_spec(w, origin, p) <= n_qubits_spec(w, h, origin),
        in_primal_spec(p.0 as int, p.1 as int, origin) ==> qid_spec(w, origin, p) < n_qubits_spec(
            w,
            h,
            origin,
        ),
{
    lemma_row_prefix_mono(p.1 as int, p.0 as int, w, origin);
    lemma_rows_monotone(w, p.1 as int + 1, h, origin);
}

proof fn lemma_row_prefix_mono(y: int, x1: int, x2: int, origin: bool)
    requires
        0 <= x1 <= x2,
    ensures
        row_prefix(y, x1, origin) <= row_prefix(y, x2, origin),
        x1 < x2 && in_primal_spec(x1, y, origin) ==> row_prefix(y, x1, origin) < row_prefix(
            y,
            x2,
            origin,
        ),
    decreases x2 - x1,
{
    if x1 < x2 {
        lemma_row_prefix_mono(y, x1, x2 - 1, origin);
    }
}

/// Qubit ids grow along row-major order.
pub proof fn lemma_qid_order(w: int, h: int, origin: bool, p: Point, q: Point)
    requires
        0 < w,
        in_grid(w, h, p),
        in_grid(w, h, q),
        in_primal_spec(p.0 as int, p.1 as int, origin),
        point_row_lt(p, q),
    ensures
        qid_spec(w, origin, p) < qid_spec(w, origin, q),
{
    if p.1 < q.1 {
        lemma_row_prefix_mono(p.1 as int, p.0 as int, w, origin);
        lemma_rows_monotone(w, p.1 as int + 1, q.1 as int, origin);
    } else {
        lemma_row_prefix_mono(p.1 as int, p.0 as int, q.0 as int, origin);
    }
}

/// The qubit id of every grid point, stored at the point's row-major index.
fn qubit_ids(width: u32, height: u32, origin: bool) -> (r: Vec<u32>)
    requires
        1 <= width <= MAX_SIDE,
        1 <= height <= MAX_SIDE,
    ensures
        r@.len() == width * height,
        forall|k: int|
            0 <= k < width * height ==> r@[k] as int == qid_spec(
                width as int,
                origin,
                grid_pt(width as int, k),
            ),
{
    let mut r: Vec<u32> = Vec::new();
    let mut count: u32 = 0;
    let mut y: u32 = 0;
    proof {
        lemma_rows_before_bound(width as int, height as int, origin);
        assert(height * width <= MAX_SIDE * MAX_SIDE) by (nonlinear_arith)
            requires
                width <= MAX_SIDE,
                height <= MAX_SIDE,
        ;
    }
    while y < height
        invariant
            1 <= width <= MAX_SIDE,
            1 <= height <= MAX_SIDE,
            y <= height,
            r@.len() == y * width,
            count == rows_before(width as int, y as int, origin),
            forall|k: int|
                0 <= k < r@.len() ==> r@[k] as int == qid_spec(
                    width as int,
                    origin,
                    grid_pt(width as int, k),
                ),
        decreases height - y,
    {
        let mut x: u32 = 0;
        let ghost start = count as int;
        while x < width
            invariant
                1 <= width <= MAX_SIDE,
                1 <= height <= MAX_SIDE,
                y < height,
                x <= width,
                r@.len() == y * width + x,
                start == rows_before(width as int, y as int, origin),
                count == start + row_prefix(y as int, x as int, origin),
                forall|k: int|
                    0 <= k < r@.len() ==> r@[k] as int == qid_spec(
                        width as int,
                        origin,
                        grid_pt(width as int, k),
                    ),
            decreases width - x,
        {
            proof {
                lemma_grid_idx(width as int, height as int, (x as i32, y as i32));
                lemma_row_prefix_mono(y as int, x as int + 1, width as int, origin);
                lemma_rows_monotone(width as int, y as int + 1, height as int, origin);
                lemma_rows_before_bound(width as int, height as int, origin);
                assert(height * width <= MAX_SIDE * MAX_SIDE) by (nonlinear_arith)
                    requires
                        width <= MAX_SIDE,
                        height <= MAX_SIDE,
                ;
            }
            r.push(count);
            if in_primal(x as i32, y as i32, origin) {
                count = count + 1;
            }
            x = x + 1;
        }
        assert((y + 1) * width == y * width + width) by (nonlinear_arith);
        y = y + 1;
    }
    assert(height * width == width * height) by (nonlinear_arith);
    r
}

/// The number of qubits on the grid.
fn count_qubits(width: u32, height: u32, origin: bool) -> (r: u32)
    requires
        1 <= width <= MAX_SIDE,
        1 <= height <= MAX_SIDE,
    ensures
        r == n_qubits_spec(width as int, height as int, origin),
{
    let mut count: u32 = 0;
    let mut y: u32 = 0;
    while y < height
        invariant
            1 <= width <= MAX_SIDE,
            1 <= height <= MAX_SIDE,
            y <= height,
            count == rows_before(width as int, y as int, origin),
        decreases height - y,
    {
        let mut x: u32 = 0;
        let ghost start = count as int;
        while x < width
            invariant
                1 <= width <= MAX_SIDE,
                1 <= height <= MAX_SIDE,
                y < height,
                x <= width,
                start == rows_before(width as int, y as int, origin),
                count == start + row_prefix(y as int, x as int, origin),
            decreases width - x,
        {
            proof {
                lemma_row_prefix_mono(y as int, x as int + 1, width as int, origin);
                lemma_rows_monotone(width as int, y as int + 1, height as int, origin);
                lemma_rows_before_bound(width as int, height as int, origin);
                assert(height * width <= MAX_SIDE * MAX_SIDE) by (nonlinear_arith)
                    requires
                        width <= MAX_SIDE,
                        height <= MAX_SIDE,
                ;
            }
            if in_primal(x as i32, y as i32, origin) {
                count = count + 1;
            }
            x = x + 1;
        }
        y = y + 1;
    }
    count
}

pub(crate) fn contains_id(v: &Vec<u32>, q: u32) -> (r: bool)
    ensures
        r == v@.contains(q),
{
    let mut j: usize = 0;
    while j < v.len()
        invariant
            j <= v@.len(),
            forall|k: int| 0 <= k < j ==> v@[k] != q,
        decreases v@.len() - j,
    {
        if v[j] == q {
            return true;
        }
        j = j + 1;
    }
    false
}

fn contains_pair(v: &Vec<(u32, u32)>, a: u32, b: u32) -> (r: bool)
    ensures
        r == v@.contains((a, b)),
{
    let mut j: usize = 0;
    while j < v.len()
        invariant
            j <= v@.len(),
            forall|k: int| 0 <= k < j ==> v@[k] != (a, b),
        decreases v@.len() - j,
    {
        if v[j].0 == a && v[j].1 == b {
            return true;
        }
        j = j + 1;
    }
    false
}

/// Whether every listed qubit id and coupler end is below `n`.
fn ids_in_range(config: &TopologyConfig, n: u32) -> (r: bool)
    ensures
        r == ((forall|j: int|
            0 <= j < config.unused_qubits@.len() ==> config.unused_qubits@[j] < n) && (forall|
            j: int,
        |
            0 <= j < config.unused_couplers@.len() ==> config.unused_couplers@[j].0 < n
                && config.unused_couplers@[j].1 < n)),
{
    let mut j: usize = 0;
    while j < config.unused_qubits.len()
        invariant
            j <= config.unused_qubits@.len(),
            forall|k: int| 0 <= k < j ==> config.unused_qubits@[k] < n,
        decreases config.unused_qubits@.len() - j,
    {
        if config.unused_qubits[j] >= n {
            return false;
        }
        j = j + 1;
    }
    let mut j: usize = 0;
    while j < config.unused_couplers.len()
        invariant
            j <= config.unused_couplers@.len(),
            forall|k: int|
                0 <= k < j ==> config.unused_couplers@[k].0 < n && config.unused_couplers@[k].1 < n,
        decreases config.unused_couplers@.len() - j,
    {
        if config.unused_couplers[j].0 >= n || config.unused_couplers[j].1 >= n {
            return false;
        }
        j = j + 1;
    }
    true
}

/// The real flag of every primal edge, by edge index.
fn real_flags(config: &TopologyConfig, qids: &Vec<u32>) -> (r: Vec<bool>)
    requires
        1 <= config.width <= MAX_SIDE,
        1 <= config.height <= MAX_SIDE,
        qids@.len() == config.width * config.height,
        forall|k: int|
            0 <= k < config.width * config.height ==> qids@[k] as int == qid_spec(
                config.width as int,
                config.qubit_at_origin,
                grid_pt(config.width as int, k),
            ),
    ensures
        r@ == real_seq(*config),
{
    let w = config.width;
    assert((w - 1) * (config.height - 1) <= MAX_SIDE * MAX_SIDE) by (nonlinear_arith)
        requires
            w <= MAX_SIDE,
            config.height <= MAX_SIDE,
            w >= 1,
            config.height >= 1,
    ;
    let n = (w as usize - 1) * (config.height as usize - 1);
    let mut r: Vec<bool> = Vec::new();
    let mut i: usize = 0;
    while i < n
        invariant
            w == config.width,
            1 <= config.width <= MAX_SIDE,
            1 <= config.height <= MAX_SIDE,
            n == n_edges_spec(config.width as int, config.height as int),
            qids@.len() == config.width * config.height,
            forall|k: int|
                0 <= k < config.width * config.height ==> qids@[k] as int == qid_spec(
                    config.width as int,
                    config.qubit_at_origin,
                    grid_pt(config.width as int, k),
                ),
            i <= n,
            r@.len() == i,
            forall|k: int| 0 <= k < i ==> r@[k] == real_spec(*config, k),
        decreases n - i,
    {
        proof {
            assert(n <= (w - 1) * MAX_SIDE) by (nonlinear_arith)
                requires
                    n == (w - 1) * (config.height - 1),
                    config.height <= MAX_SIDE,
                    w >= 1,
            ;
            lemma_edge_at_index(w as int, config.height as int, config.qubit_at_origin, i as int);
        }
        let e = edge_at_index(w, config.qubit_at_origin, i);
        let a = qids[grid_index(w, config.height, e.0)];
        let b = qids[grid_index(w, config.height, e.1)];
        let ua = contains_id(&config.unused_qubits, a);
        let ub = contains_id(&config.unused_qubits, b);
        let cab = contains_pair(&config.unused_couplers, a, b);
        let cba = contains_pair(&config.unused_couplers, b, a);
        let usable: bool = !(ua || ub || cab || cba);
        r.push(usable);
        i = i + 1;
    }
    assert(r@ =~= real_seq(*config));
    r
}

} // verus!

verus! {

/// The representative of each node's set after the union of the two ends of every edge.
pub uninterp spec fn labels_of(n: nat, edges: Seq<(usize, usize)>) -> Seq<usize>;

/// Relies on petgraph's `UnionFind`: `union` merges the sets of the two ends of each
/// edge and nothing else, and `into_labeling` maps each of the `n` nodes to the
/// representative of its set. So the two ends of every edge get the same label, and
/// two nodes share a label only where a chain of edges joins them.
#[verifier::external_body]
pub(crate) fn component_labels(n: usize, edges: &Vec<(usize, usize)>) -> (r: Vec<usize>)
    requires
        forall|j: int| 0 <= j < edges@.len() ==> edges@[j].0 < n && edges@[j].1 < n,
    ensures
        r@ == labels_of(n as nat, edges@),
        r@.len() == n,
        forall|j: int|
            0 <= j < edges@.len() ==> r@[edges@[j].0 as int] == r@[edges@[j].1 as int],
        forall|a: int, b: int|
            0 <= a < n && 0 <= b < n && #[trigger] r@[a] == #[trigger] r@[b] ==> linked(edges@, a, b),
{
    let mut sets = petgraph::unionfind::UnionFind::<usize>::new(n);
    for &(a, b) in edges.iter() {
        sets.union(a, b);
    }
    sets.into_labeling()
}

/// Some edge joins `a` and `b`, in either direction.
pub open spec fn joins(edges: Seq<(usize, usize)>, a: int, b: int) -> bool {
    exists|j: int|
        0 <= j < edges.len() && ((edges[j].0 == a && edges[j].1 == b) || (edges[j].0 == b
            && edges[j].1 == a))
}

/// The chain `s` of nodes follows edges from its first node to its last.
pub open spec fn chain(edges: Seq<(usize, usize)>, s: Seq<int>) -> bool {
    s.len() >= 1 && forall|i: int| 0 <= i < s.len() - 1 ==> joins(edges, #[trigger] s[i], s[i + 1])
}

/// A chain of edges leads from `a` to `b`.
pub open spec fn linked(edges: Seq<(usize, usize)>, a: int, b: int) -> bool {
    exists|s: Seq<int>| #[trigger] chain(edges, s) && s[0] == a && s[s.len() - 1] == b
}

/// Labels that agree along every edge agree along every chain.
proof fn lemma_chain_same_label(labels: Seq<usize>, edges: Seq<(usize, usize)>, n: int, s: Seq<int>, k: int)
    requires
        labels.len() == n,
        forall|j: int| 0 <= j < edges.len() ==> edges[j].0 < n && edges[j].1 < n,
        forall|j: int| 0 <= j < edges.len() ==> labels[edges[j].0 as int] == labels[edges[j].1 as int],
        chain(edges, s),
        0 <= s[0] < n,
        0 <= k < s.len(),
    ensures
        0 <= s[k] < n,
        labels[s[k]] == labels[s[0]],
    decreases k,
{
    if k > 0 {
        lemma_chain_same_label(labels, edges, n, s, k - 1);
        assert(joins(edges, s[k - 1], s[k]));
        let j = choose|j: int|
            0 <= j < edges.len() && ((edges[j].0 == s[k - 1] && edges[j].1 == s[k]) || (edges[j].0
                == s[k] && edges[j].1 == s[k - 1]));
    }
}

/// All used qubits are joined by chains of real couplers, and there is at least one.
pub open spec fn connected_used(cfg: TopologyConfig) -> bool {
    let n = n_qubits_spec(cfg.width as int, cfg.height as int, cfg.qubit_at_origin);
    let edges = real_qid_edges(cfg, n_edges_spec(cfg.width as int, cfg.height as int));
    &&& exists|a: int| 0 <= a < n && !#[trigger] unused_id(cfg, a)
    &&& forall|a: int, b: int|
        0 <= a < n && 0 <= b < n && !unused_id(cfg, a) && !unused_id(cfg, b) ==> #[trigger] linked(
            edges,
            a,
            b,
        )
}

/// The primal edges handed to the connectivity check: real ones, as pairs of qubit ids.
pub open spec fn real_qid_edges(cfg: TopologyConfig, k: int) -> Seq<(usize, usize)>
    decreases k,
{
    if k <= 0 {
        seq![]
    } else {
        let rest = real_qid_edges(cfg, k - 1);
        let w = cfg.width as int;
        let e = edge_at(w, cfg.qubit_at_origin, k - 1);
        if real_spec(cfg, k - 1) {
            rest.push(
                (
                    qid_spec(w, cfg.qubit_at_origin, e.0) as usize,
                    qid_spec(w, cfg.qubit_at_origin, e.1) as usize,
                ),
            )
        } else {
            rest
        }
    }
}

/// A qubit whose id is listed as unused.
pub open spec fn unused_point(cfg: TopologyConfig, p: Point) -> bool {
    let w = cfg.width as int;
    &&& in_grid(w, cfg.height as int, p)
    &&& in_primal_spec(p.0 as int, p.1 as int, cfg.qubit_at_origin)
    &&& unused_id(cfg, qid_spec(w, cfg.qubit_at_origin, p))
}

/// At least one qubit is used, and all used qubits carry the same label.
pub open spec fn single_component(cfg: TopologyConfig, labels: Seq<usize>) -> bool {
    let n = n_qubits_spec(cfg.width as int, cfg.height as int, cfg.qubit_at_origin);
    &&& exists|a: int| 0 <= a < n && !#[trigger] unused_id(cfg, a)
    &&& forall|a: int, b: int|
        0 <= a < n && 0 <= b < n && !unused_id(cfg, a) && !unused_id(cfg, b) ==> #[trigger] labels[a]
            == #[trigger] labels[b]
}

} // verus!

verus! {

/// The qubits and couplers of the processor, with the routers and boundary of its dual.
///
/// Edges of both lattices are indexed by their unit square; `real_edges` flags the
/// usable couplers, and a dual edge is real iff its primal counterpart is.
#[derive(Debug, Clone)]
pub struct SearchGraph {
    pub config: TopologyConfig,
    pub real_edges: Vec<bool>,
    pub qubit_ids: Vec<u32>,
    pub n_qubits: u32,
    pub unused_qubits: Vec<Point>,
    pub dual_pruned: Vec<bool>,
    pub dual_boundaries: Vec<Point>,
}

/// The start of a "/" diagonal: a qubit on the bottom row or right column with an
/// edge towards lower `x` and higher `y`.
pub open spec fn slash_start(w: int, h: int, origin: bool, p: Point) -> bool {
    &&& in_grid(w, h, p)
    &&& in_primal_spec(p.0 as int, p.1 as int, origin)
    &&& (p.1 == 0 || p.0 == w - 1)
    &&& p.0 >= 1 && p.1 + 1 < h
}

/// The start of a "\" diagonal: a qubit on the top row or right column with an edge
/// towards lower `x` and lower `y`.
pub open spec fn back_slash_start(w: int, h: int, origin: bool, p: Point) -> bool {
    &&& in_grid(w, h, p)
    &&& in_primal_spec(p.0 as int, p.1 as int, origin)
    &&& (p.1 == h - 1 || p.0 == w - 1)
    &&& p.0 >= 1 && p.1 >= 1
}

/// The start of a diagonal line of the given kind.
pub open spec fn line_start(w: int, h: int, origin: bool, slash: bool, p: Point) -> bool {
    if slash {
        slash_start(w, h, origin, p)
    } else {
        back_slash_start(w, h, origin, p)
    }
}

/// The number of line starts of the given kind among the first `n` grid points in row-major order.
pub open spec fn line_starts(w: int, h: int, origin: bool, slash: bool, n: int) -> nat
    decreases n,
{
    if n <= 0 {
        0
    } else {
        line_starts(w, h, origin, slash, n - 1) + if line_start(w, h, origin, slash, grid_pt(w, n - 1)) {
            1nat
        } else {
            0nat
        }
    }
}

/// The number of routers among the first `n` grid points that are not flagged in `pruned`.
pub open spec fn kept_routers(w: int, h: int, origin: bool, pruned: Seq<bool>, n: int) -> nat
    decreases n,
{
    if n <= 0 {
        0
    } else {
        kept_routers(w, h, origin, pruned, n - 1) + if dual_node(w, h, origin, grid_pt(w, n - 1))
            && !pruned[n - 1] {
            1nat
        } else {
            0nat
        }
    }
}

impl SearchGraph {
    pub open spec fn width_spec(&self) -> int {
        self.config.width as int
    }

    pub open spec fn height_spec(&self) -> int {
        self.config.height as int
    }

    pub open spec fn origin_spec(&self) -> bool {
        self.config.qubit_at_origin
    }

    pub open spec fn n_edges(&self) -> int {
        n_edges_spec(self.width_spec(), self.height_spec())
    }

    /// The prune flags and the boundary list are those that construction describes.
    #[verifier::opaque]
    pub open spec fn dual_ok(&self) -> bool {
        let w = self.width_spec();
        let h = self.height_spec();
        let origin = self.origin_spec();
        &&& forall|k: int|
            0 <= k < w * h ==> self.dual_pruned@[k] == pruned_spec(
                w,
                h,
                origin,
                self.real_edges@,
                grid_pt(w, k),
            )
        &&& forall|p: Point|
            self.dual_boundaries@.contains(p) <==> boundary_spec(
                w,
                h,
                origin,
                self.real_edges@,
                p,
            )
    }

    /// The lattice was built from its configuration as construction describes.
    pub open spec fn wf(&self) -> bool {
        let w = self.width_spec();
        let h = self.height_spec();
        let origin = self.origin_spec();
        &&& valid_topology(self.config)
        &&& self.real_edges@ == real_seq(self.config)
        &&& self.n_qubits == n_qubits_spec(w, h, origin)
        &&& self.qubit_ids@.len() == w * h
        &&& forall|k: int|
            0 <= k < w * h ==> self.qubit_ids@[k] as int == qid_spec(w, origin, grid_pt(w, k))
        &&& forall|p: Point| self.unused_qubits@.contains(p) <==> unused_point(self.config, p)
        &&& self.unused_qubits@.no_duplicates()
        &&& forall|i: int, j: int|
            0 <= i < j < self.unused_qubits@.len() ==> point_row_lt(
                self.unused_qubits@[i],
                self.unused_qubits@[j],
            ) && qid_spec(w, origin, self.unused_qubits@[i]) < qid_spec(w, origin, self.unused_qubits@[j])
        &&& self.dual_pruned@.len() == w * h
        &&& self.dual_ok()
        &&& exists|a: int| 0 <= a < self.n_qubits && !#[trigger] unused_id(self.config, a)
        &&& forall|i: int, j: int|
            0 <= i < j < self.dual_boundaries@.len() ==> point_lt(
                self.dual_boundaries@[i],
                self.dual_boundaries@[j],
            )
    }

    /// Builds the lattice: qubits, couplers with their real flags, the connectivity
    /// check, the dual boundary and the dangling prune.
    pub fn from_config(config: TopologyConfig) -> (r: Result<Self, SearchError>)
        ensures
            !valid_topology(config) <==> r == Err::<Self, SearchError>(
                SearchError::InvalidCoordinates,
            ),
            valid_topology(config) ==> (r is Ok <==> connected_used(config)),
            r is Err ==> r == Err::<Self, SearchError>(SearchError::InvalidCoordinates) || r
                == Err::<Self, SearchError>(SearchError::TopologyDisconnected),
            r matches Ok(g) ==> g.wf() && g.config == config,
    {
        if config.width < 1 || config.width > MAX_SIDE || config.height < 1 || config.height
            > MAX_SIDE {
            return Err(SearchError::InvalidCoordinates);
        }
        let width = config.width;
        let height = config.height;
        let origin = config.qubit_at_origin;
        let n_qubits = count_qubits(width, height, origin);
        if !ids_in_range(&config, n_qubits) {
            return Err(SearchError::InvalidCoordinates);
        }
        let qubit_ids = qubit_ids(width, height, origin);
        let real_edges = real_flags(&config, &qubit_ids);
        let unused_qubits = unused_points(&config, &qubit_ids);
        if !verify_single_connected(&config, &qubit_ids, &real_edges, n_qubits) {
            return Err(SearchError::TopologyDisconnected);
        }
        let (dual_pruned, dual_boundaries) = prune_and_list(width, height, origin, &real_edges);
        let g = SearchGraph {
            config,
            real_edges,
            qubit_ids,
            n_qubits,
            unused_qubits,
            dual_pruned,
            dual_boundaries,
        };
        proof {
            reveal(SearchGraph::dual_ok);
            assert forall|i: int, j: int| 0 <= i < j < g.unused_qubits@.len() implies point_row_lt(
                g.unused_qubits@[i],
                g.unused_qubits@[j],
            ) && qid_spec(g.width_spec(), g.origin_spec(), g.unused_qubits@[i]) < qid_spec(g.width_spec(), g.origin_spec(), g.unused_qubits@[j]) by {
                assert(g.unused_qubits@.contains(g.unused_qubits@[i]));
                assert(g.unused_qubits@.contains(g.unused_qubits@[j]));
                assert(unused_qubits@ == g.unused_qubits@);
                assert(unused_point(g.config, g.unused_qubits@[i]));
                assert(unused_point(g.config, g.unused_qubits@[j]));
                lemma_qid_order(width as int, height as int, origin, g.unused_qubits@[i], g.unused_qubits@[j]);
            }
        }
        Ok(g)
    }
}

/// The unused qubits, as points in row-major order, which is the order of their ids.
fn unused_points(config: &TopologyConfig, qubit_ids: &Vec<u32>) -> (r: Vec<Point>)
    requires
        1 <= config.width <= MAX_SIDE,
        1 <= config.height <= MAX_SIDE,
        qubit_ids@.len() == config.width * config.height,
        forall|k: int|
            0 <= k < config.width * config.height ==> qubit_ids@[k] as int == qid_spec(
                config.width as int,
                config.qubit_at_origin,
                grid_pt(config.width as int, k),
            ),
    ensures
        forall|p: Point| r@.contains(p) <==> unused_point(*config, p),
        r@.no_duplicates(),
        forall|i: int, j: int| 0 <= i < j < r@.len() ==> point_row_lt(r@[i], r@[j]),
{
    let ghost w = config.width as int;
    let ghost h = config.height as int;
    let mut r: Vec<Point> = Vec::new();
    let mut y: u32 = 0;
    while y < config.height
        invariant
            1 <= config.width <= MAX_SIDE,
            1 <= config.height <= MAX_SIDE,
            w == config.width,
            h == config.height,
            qubit_ids@.len() == w * h,
            forall|k: int|
                0 <= k < w * h ==> qubit_ids@[k] as int == qid_spec(
                    w,
                    config.qubit_at_origin,
                    grid_pt(w, k),
                ),
            y <= config.height,
            forall|p: Point| r@.contains(p) <==> (p.1 < y && unused_point(*config, p)),
            forall|i: int, j: int| 0 <= i < j < r@.len() ==> point_row_lt(r@[i], r@[j]),
            forall|i: int| 0 <= i < r@.len() ==> r@[i].1 < y,
        decreases config.height - y,
    {
        let mut x: u32 = 0;
        while x < config.width
            invariant
                1 <= config.width <= MAX_SIDE,
                1 <= config.height <= MAX_SIDE,
                w == config.width,
                h == config.height,
                qubit_ids@.len() == w * h,
                forall|k: int|
                    0 <= k < w * h ==> qubit_ids@[k] as int == qid_spec(
                        w,
                        config.qubit_at_origin,
                        grid_pt(w, k),
                    ),
                y < config.height,
                x <= config.width,
                forall|p: Point|
                    r@.contains(p) <==> ((p.1 < y || (p.1 == y && p.0 < x)) && unused_point(
                        *config,
                        p,
                    )),
                forall|i: int, j: int| 0 <= i < j < r@.len() ==> point_row_lt(r@[i], r@[j]),
                forall|i: int| 0 <= i < r@.len() ==> r@[i].1 < y || (r@[i].1 == y && r@[i].0 < x),
            decreases config.width - x,
        {
            let p: Point = (x as i32, y as i32);
            let k = grid_index(config.width, config.height, p);
            let ghost old_r = r@;
            if in_primal(p.0, p.1, config.qubit_at_origin) && contains_id(
                &config.unused_qubits,
                qubit_ids[k],
            ) {
                r.push(p);
            }
            proof {
                assert forall|q: Point|
                    r@.contains(q) <==> ((q.1 < y || (q.1 == y && q.0 < x + 1)) && unused_point(
                        *config,
                        q,
                    )) by {
                    if q != p {
                        if r@.contains(q) {
                            let i = choose|i: int| 0 <= i < r@.len() && r@[i] == q;
                            assert(old_r[i] == q);
                        }
                        if old_r.contains(q) {
                            let i = choose|i: int| 0 <= i < old_r.len() && old_r[i] == q;
                            assert(r@[i] == q);
                        }
                    } else {
                        if r@.contains(q) && r@.len() == old_r.len() {
                            let i = choose|i: int| 0 <= i < r@.len() && r@[i] == q;
                            assert(old_r[i] == q);
                        }
                        if r@.len() > old_r.len() {
                            assert(r@[r@.len() - 1] == q);
                        }
                    }
                }
            }
            x = x + 1;
        }
        y = y + 1;
    }
    proof {
        assert forall|i: int, j: int|
            0 <= i < r@.len() && 0 <= j < r@.len() && i != j implies r@[i] != r@[j] by {
            if i < j {
                assert(point_row_lt(r@[i], r@[j]));
            } else {
                assert(point_row_lt(r@[j], r@[i]));
            }
        }
    }
    r
}

/// Row-major order on points, strict.
pub open spec fn point_row_lt(a: Point, b: Point) -> bool {
    a.1 < b.1 || (a.1 == b.1 && a.0 < b.0)
}

/// The real couplers as pairs of qubit ids, in edge-index order.
fn real_id_edges(config: &TopologyConfig, qubit_ids: &Vec<u32>, real_edges: &Vec<bool>) -> (r: Vec<
    (usize, usize),
>)
    requires
        1 <= config.width <= MAX_SIDE,
        1 <= config.height <= MAX_SIDE,
        qubit_ids@.len() == config.width * config.height,
        forall|k: int|
            0 <= k < config.width * config.height ==> qubit_ids@[k] as int == qid_spec(
                config.width as int,
                config.qubit_at_origin,
                grid_pt(config.width as int, k),
            ),
        real_edges@ == real_seq(*config),
    ensures
        r@ == real_qid_edges(*config, n_edges_spec(config.width as int, config.height as int)),
        forall|j: int|
            0 <= j < r@.len() ==> r@[j].0 < n_qubits_spec(
                config.width as int,
                config.height as int,
                config.qubit_at_origin,
            ) && r@[j].1 < n_qubits_spec(
                config.width as int,
                config.height as int,
                config.qubit_at_origin,
            ),
{
    let ghost w = config.width as int;
    let ghost h = config.height as int;
    let ghost n = n_qubits_spec(w, h, config.qubit_at_origin);
    let mut r: Vec<(usize, usize)> = Vec::new();
    let mut i: usize = 0;
    while i < real_edges.len()
        invariant
            1 <= config.width <= MAX_SIDE,
            1 <= config.height <= MAX_SIDE,
            w == config.width,
            h == config.height,
            n == n_qubits_spec(w, h, config.qubit_at_origin),
            qubit_ids@.len() == w * h,
            forall|k: int|
                0 <= k < w * h ==> qubit_ids@[k] as int == qid_spec(
                    w,
                    config.qubit_at_origin,
                    grid_pt(w, k),
                ),
            real_edges@ == real_seq(*config),
            i <= real_edges@.len(),
            r@ == real_qid_edges(*config, i as int),
            forall|j: int| 0 <= j < r@.len() ==> r@[j].0 < n && r@[j].1 < n,
        decreases real_edges@.len() - i,
    {
        if real_edges[i] {
            proof {
                lemma_edge_at_index(w, h, config.qubit_at_origin, i as int);
                assert(i < (w - 1) * MAX_SIDE) by (nonlinear_arith)
                    requires
                        i < (w - 1) * (h - 1),
                        h <= MAX_SIDE,
                        w >= 1,
                ;
            }
            let e = edge_at_index(config.width, config.qubit_at_origin, i);
            let a = qubit_ids[grid_index(config.width, config.height, e.0)];
            let b = qubit_ids[grid_index(config.width, config.height, e.1)];
            proof {
                lemma_qid_bound(w, h, config.qubit_at_origin, e.0);
                lemma_qid_bound(w, h, config.qubit_at_origin, e.1);
            }
            r.push((a as usize, b as usize));
        }
        i = i + 1;
    }
    r
}

/// Whether the used qubits form one component over the real couplers.
fn verify_single_connected(
    config: &TopologyConfig,
    qubit_ids: &Vec<u32>,
    real_edges: &Vec<bool>,
    n_qubits: u32,
) -> (r: bool)
    requires
        1 <= config.width <= MAX_SIDE,
        1 <= config.height <= MAX_SIDE,
        qubit_ids@.len() == config.width * config.height,
        forall|k: int|
            0 <= k < config.width * config.height ==> qubit_ids@[k] as int == qid_spec(
                config.width as int,
                config.qubit_at_origin,
                grid_pt(config.width as int, k),
            ),
        real_edges@ == real_seq(*config),
        n_qubits == n_qubits_spec(
            config.width as int,
            config.height as int,
            config.qubit_at_origin,
        ),
    ensures
        r == single_component(
            *config,
            labels_of(
                n_qubits as nat,
                real_qid_edges(*config, n_edges_spec(config.width as int, config.height as int)),
            ),
        ),
        r == connected_used(*config),
{
    let edges = real_id_edges(config, qubit_ids, real_edges);
    let labels = component_labels(n_qubits as usize, &edges);
    proof {
        let nn = n_qubits as int;
        assert forall|a: int, b: int| 0 <= a < nn && 0 <= b < nn implies (labels@[a] == labels@[b] <==> linked(edges@, a, b)) by {
            if linked(edges@, a, b) {
                let s = choose|s: Seq<int>| #[trigger] chain(edges@, s) && s[0] == a && s[s.len() - 1] == b;
                lemma_chain_same_label(labels@, edges@, nn, s, s.len() - 1);
            }
        }
        let es = real_qid_edges(*config, n_edges_spec(config.width as int, config.height as int));
        assert(edges@ == es);
        if single_component(*config, labels@) {
            assert forall|a: int, b: int|
                0 <= a < nn && 0 <= b < nn && !unused_id(*config, a) && !unused_id(*config, b) implies #[trigger] linked(es, a, b) by {
                assert(labels@[a] == labels@[b]);
            }
        }
        if connected_used(*config) {
            assert forall|a: int, b: int|
                0 <= a < nn && 0 <= b < nn && !unused_id(*config, a) && !unused_id(*config, b) implies #[trigger] labels@[a] == #[trigger] labels@[b] by {
                assert(linked(es, a, b));
            }
        }
        assert(single_component(*config, labels@) == connected_used(*config));
    }
    let ghost n = n_qubits as int;
    let mut first: u32 = 0;
    while first < n_qubits && contains_id(&config.unused_qubits, first)
        invariant
            first <= n_qubits,
            forall|a: int| 0 <= a < first ==> unused_id(*config, a),
            single_component(*config, labels@) == connected_used(*config),
        decreases n_qubits - first,
    {
        first = first + 1;
    }
    if first == n_qubits {
        proof {
            assert(!exists|a: int| 0 <= a < n && !#[trigger] unused_id(*config, a));
            assert(n == n_qubits_spec(config.width as int, config.height as int, config.qubit_at_origin));
            assert(!single_component(*config, labels@));
        }
        return false;
    }
    let mut b: u32 = 0;
    while b < n_qubits
        invariant
            first < n_qubits,
            n_qubits == n_qubits_spec(
                config.width as int,
                config.height as int,
                config.qubit_at_origin,
            ),
            !unused_id(*config, first as int),
            labels@ == labels_of(
                n_qubits as nat,
                real_qid_edges(*config, n_edges_spec(config.width as int, config.height as int)),
            ),
            labels@.len() == n_qubits,
            single_component(*config, labels@) == connected_used(*config),
            b <= n_qubits,
            forall|c: int|
                0 <= c < b && !unused_id(*config, c) ==> labels@[c] == labels@[first as int],
        decreases n_qubits - b,
    {
        if !contains_id(&config.unused_qubits, b) && labels[b as usize] != labels[first as usize] {
            proof {
                assert(!(labels@[b as int] == labels@[first as int]));
                assert(!unused_id(*config, b as int));
                assert(!single_component(*config, labels@));
            }
            return false;
        }
        b = b + 1;
    }
    proof {
        assert(!unused_id(*config, first as int));
    }
    true
}

} // verus!

verus! {

impl SearchGraph {
    /// The index of the edge between two diagonal neighbours of the grid.
    #[inline(always)]
    pub fn edge_index(&self, n1: Point, n2: Point) -> (r: usize)
        requires
            self.wf(),
            in_grid(self.width_spec(), self.height_spec(), n1),
            in_grid(self.width_spec(), self.height_spec(), n2),
            diagonal(n1, n2),
        ensures
            r == edge_index_spec(self.width_spec(), n1, n2),
            r < self.n_edges(),
            r == edge_index_spec(self.width_spec(), n2, n1),
    {
        proof {
            lemma_diagonal_index(self.width_spec(), self.height_spec(), n1, n2);
        }
        edge_index_of(self.config.width, n1, n2)
    }

    /// The primal edge of index `index`, lower `x` first.
    #[inline(always)]
    pub fn get_edge(&self, index: usize) -> (r: Edge)
        requires
            self.wf(),
            index < self.n_edges(),
        ensures
            r == edge_at(self.width_spec(), self.origin_spec(), index as int),
            primal_edge(self.width_spec(), self.height_spec(), self.origin_spec(), r),
            edge_index_spec(self.width_spec(), r.0, r.1) == index,
    {
        proof {
            lemma_edge_at_index(
                self.width_spec(),
                self.height_spec(),
                self.origin_spec(),
                index as int,
            );
            let w = self.width_spec();
            let h = self.height_spec();
            assert(index < (w - 1) * MAX_SIDE) by (nonlinear_arith)
                requires
                    index < (w - 1) * (h - 1),
                    h <= MAX_SIDE,
                    w >= 1,
            ;
        }
        edge_at_index(self.config.width, self.config.qubit_at_origin, index)
    }

    /// The number of "/" diagonal lines.
    pub fn num_slash(&self) -> (r: usize)
        requires
            self.wf(),
        ensures
            r == line_starts(
                self.width_spec(),
                self.height_spec(),
                self.origin_spec(),
                true,
                self.width_spec() * self.height_spec(),
            ),
    {
        self.count_starts(true)
    }

    /// The number of "\" diagonal lines.
    pub fn num_back_slash(&self) -> (r: usize)
        requires
            self.wf(),
        ensures
            r == line_starts(
                self.width_spec(),
                self.height_spec(),
                self.origin_spec(),
                false,
                self.width_spec() * self.height_spec(),
            ),
    {
        self.count_starts(false)
    }

    fn count_starts(&self, slash: bool) -> (r: usize)
        requires
            self.wf(),
        ensures
            r == line_starts(
                self.width_spec(),
                self.height_spec(),
                self.origin_spec(),
                slash,
                self.width_spec() * self.height_spec(),
            ),
    {
        let ghost w = self.width_spec();
        let ghost h = self.height_spec();
        let width = self.config.width;
        let height = self.config.height;
        assert(width * height <= MAX_SIDE * MAX_SIDE) by (nonlinear_arith)
            requires
                width <= MAX_SIDE,
                height <= MAX_SIDE,
        ;
        let n = width as usize * height as usize;
        let mut count: usize = 0;
        let mut k: usize = 0;
        while k < n
            invariant
                self.wf(),
                1 <= width <= MAX_SIDE,
                1 <= height <= MAX_SIDE,
                w == width,
                h == height,
                n == w * h,
                k <= n,
                count == line_starts(w, h, self.origin_spec(), slash, k as int),
                count <= k,
            decreases n - k,
        {
            proof {
                lemma_grid_pt(w, h, k as int);
            }
            let p: Point = ((k % width as usize) as i32, (k / width as usize) as i32);
            let found = if slash {
                (p.1 == 0 || p.0 == width as i32 - 1) && p.0 >= 1 && p.1 + 1 < height as i32
                    && in_primal(p.0, p.1, self.config.qubit_at_origin)
            } else {
                (p.1 == height as i32 - 1 || p.0 == width as i32 - 1) && p.0 >= 1 && p.1 >= 1
                    && in_primal(p.0, p.1, self.config.qubit_at_origin)
            };
            if found {
                count = count + 1;
            }
            k = k + 1;
        }
        count
    }

    /// Whether the primal edge `(n1, n2)` exists and, if so, whether it is real.
    pub fn edge_weight(&self, n1: Point, n2: Point) -> (r: Option<bool>)
        requires
            self.wf(),
            -MAX_SIDE <= n1.0 <= MAX_SIDE && -MAX_SIDE <= n1.1 <= MAX_SIDE,
            -MAX_SIDE <= n2.0 <= MAX_SIDE && -MAX_SIDE <= n2.1 <= MAX_SIDE,
        ensures
            r is Some <==> primal_edge(
                self.width_spec(),
                self.height_spec(),
                self.origin_spec(),
                (n1, n2),
            ),
            r matches Some(b) ==> b == self.real_edges@[edge_index_spec(self.width_spec(), n1, n2)],
    {
        let w = self.config.width as i32;
        let h = self.config.height as i32;
        if 0 <= n1.0 && n1.0 < w && 0 <= n1.1 && n1.1 < h && 0 <= n2.0 && n2.0 < w && 0 <= n2.1
            && n2.1 < h && (n2.0 == n1.0 + 1 || n2.0 == n1.0 - 1) && (n2.1 == n1.1 + 1 || n2.1
            == n1.1 - 1) && in_primal(n1.0, n1.1, self.config.qubit_at_origin) {
            let i = self.edge_index(n1, n2);
            Some(self.real_edges[i])
        } else {
            None
        }
    }

    /// The number of qubits.
    pub fn primal_node_count(&self) -> (r: usize)
        requires
            self.wf(),
        ensures
            r == n_qubits_spec(self.width_spec(), self.height_spec(), self.origin_spec()),
    {
        self.n_qubits as usize
    }

    /// The number of couplers, real or not.
    pub fn primal_edge_count(&self) -> (r: usize)
        requires
            self.wf(),
        ensures
            r == self.n_edges(),
    {
        self.real_edges.len()
    }
}

} // verus!

verus! {

impl SearchGraph {
    /// The number of routers among the first `n` grid points that the prune kept.
    pub open spec fn dual_nodes_upto(&self, n: int) -> nat {
        kept_routers(self.width_spec(), self.height_spec(), self.origin_spec(), self.dual_pruned@, n)
    }

    /// Dual edge `i` survives the prune: neither end was removed.
    pub open spec fn dual_edge_kept(&self, i: int) -> bool {
        let d = dual_of(edge_at(self.width_spec(), self.origin_spec(), i));
        !self.dual_pruned@[grid_idx(self.width_spec(), d.0)] && !self.dual_pruned@[grid_idx(
            self.width_spec(),
            d.1,
        )]
    }

    /// The number of kept dual edges among the first `n`, only real ones if `real_only`.
    pub open spec fn dual_edges_upto(&self, real_only: bool, n: int) -> nat
        decreases n,
    {
        if n <= 0 {
            0
        } else {
            self.dual_edges_upto(real_only, n - 1) + if self.dual_edge_kept(n - 1) && (!real_only
                || self.real_edges@[n - 1]) {
                1nat
            } else {
                0nat
            }
        }
    }

    /// The number of routers of the dual lattice.
    pub fn dual_node_count(&self) -> (r: usize)
        requires
            self.wf(),
        ensures
            r == self.dual_nodes_upto(self.width_spec() * self.height_spec()),
    {
        let ghost w = self.width_spec();
        let ghost h = self.height_spec();
        let width = self.config.width;
        let n = self.dual_pruned.len();
        let mut count: usize = 0;
        let mut k: usize = 0;
        while k < n
            invariant
                width == self.config.width,
                1 <= width <= MAX_SIDE,
                1 <= self.config.height <= MAX_SIDE,
                w == width,
                h == self.config.height,
                n == w * h,
                self.dual_pruned@.len() == n,
                k <= n,
                count == self.dual_nodes_upto(k as int),
                count <= k,
            decreases n - k,
        {
            proof {
                lemma_grid_pt(w, h, k as int);
            }
            let p: Point = ((k % width as usize) as i32, (k / width as usize) as i32);
            assert(p == grid_pt(w, k as int));
            assert(in_grid(w, h, p));
            let node = !in_primal(p.0, p.1, self.config.qubit_at_origin);
            assert(node == dual_node(w, h, self.origin_spec(), grid_pt(w, k as int)));
            if node && !self.dual_pruned[k] {
                count = count + 1;
            }
            k = k + 1;
        }
        count
    }

    fn count_dual_edges(&self, real_only: bool) -> (r: usize)
        requires
            self.wf(),
        ensures
            r == self.dual_edges_upto(real_only, self.n_edges()),
    {
        let n = self.real_edges.len();
        let mut count: usize = 0;
        let mut i: usize = 0;
        while i < n
            invariant
                self.wf(),
                n == self.n_edges(),
                i <= n,
                count == self.dual_edges_upto(real_only, i as int),
                count <= i,
            decreases n - i,
        {
            let e = self.get_edge(i);
            let d = duality_map(e.0, e.1);
            proof {
                lemma_grid_idx(self.width_spec(), self.height_spec(), d.0);
                lemma_grid_idx(self.width_spec(), self.height_spec(), d.1);
            }
            let k0 = grid_index(self.config.width, self.config.height, d.0);
            let k1 = grid_index(self.config.width, self.config.height, d.1);
            if !self.dual_pruned[k0] && !self.dual_pruned[k1] && (!real_only
                || self.real_edges[i]) {
                count = count + 1;
            }
            i = i + 1;
        }
        count
    }

    /// The number of edges of the dual lattice.
    pub fn dual_edge_count(&self) -> (r: usize)
        requires
            self.wf(),
        ensures
            r == self.dual_edges_upto(false, self.n_edges()),
    {
        self.count_dual_edges(false)
    }

    /// The number of real edges of the dual lattice.
    pub fn dual_real_edge_count(&self) -> (r: usize)
        requires
            self.wf(),
        ensures
            r == self.dual_edges_upto(true, self.n_edges()),
    {
        self.count_dual_edges(true)
    }

    /// Whether `p` is a boundary router.
    pub fn is_boundary(&self, p: Point) -> (r: bool)
        requires
            self.wf(),
        ensures
            r == self.dual_boundaries@.contains(p),
    {
        let mut j: usize = 0;
        while j < self.dual_boundaries.len()
            invariant
                j <= self.dual_boundaries@.len(),
                forall|k: int| 0 <= k < j ==> self.dual_boundaries@[k] != p,
            decreases self.dual_boundaries@.len() - j,
        {
            if self.dual_boundaries[j].0 == p.0 && self.dual_boundaries[j].1 == p.1 {
                return true;
            }
            j = j + 1;
        }
        false
    }
}

/// Without pruned routers the dual lattice has exactly as many edges as the primal one.
pub proof fn lemma_edge_counts_match(g: SearchGraph, n: int)
    requires
        g.wf(),
        0 <= n <= g.n_edges(),
        forall|k: int| 0 <= k < g.width_spec() * g.height_spec() ==> !g.dual_pruned@[k],
    ensures
        g.dual_edges_upto(false, n) == n,
    decreases n,
{
    if n > 0 {
        lemma_edge_counts_match(g, n - 1);
        let w = g.width_spec();
        let h = g.height_spec();
        let e = edge_at(w, g.origin_spec(), n - 1);
        lemma_edge_at_index(w, h, g.origin_spec(), n - 1);
        lemma_grid_idx(w, h, dual_of(e).0);
        lemma_grid_idx(w, h, dual_of(e).1);
    }
}

} // verus!
