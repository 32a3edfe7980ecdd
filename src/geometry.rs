use vstd::arithmetic::div_mod::{lemma_fundamental_div_mod, lemma_fundamental_div_mod_converse};
use vstd::prelude::*;

verus! {

/// A grid coordinate `(x, y)`; the primal and the dual lattice share the grid.
pub type Point = (i32, i32);

/// A grid edge given by its two endpoints.
pub type Edge = (Point, Point);

/// The largest grid side this library handles.
pub const MAX_SIDE: u32 = 32768;

/// A cell `(x, y)` holds a qubit iff the parity of `x + y` matches the polarity flag.
pub open spec fn in_primal_spec(x: int, y: int, origin: bool) -> bool {
    ((x + y) % 2 == 0) == origin
}

pub open spec fn in_grid(w: int, h: int, p: Point) -> bool {
    0 <= p.0 < w && 0 <= p.1 < h
}

/// `q` lies one step away from `p` along a diagonal.
pub open spec fn diagonal(p: Point, q: Point) -> bool {
    (q.0 == p.0 + 1 || q.0 == p.0 - 1) && (q.1 == p.1 + 1 || q.1 == p.1 - 1)
}

/// The number of edges of either lattice: one per unit square of the grid.
pub open spec fn n_edges_spec(w: int, h: int) -> int {
    (w - 1) * (h - 1)
}

/// The index of the edge `(n1, n2)`: its unit square in row-major order.
pub open spec fn edge_index_spec(w: int, n1: Point, n2: Point) -> int {
    ((n1.1 + n2.1) / 2) * (w - 1) + (n1.0 + n2.0) / 2
}

/// The primal edge of index `i`, lower `x` first.
pub open spec fn edge_at(w: int, origin: bool, i: int) -> Edge {
    let q = i / (w - 1);
    let r = i % (w - 1);
    if in_primal_spec(r, q, origin) {
        ((r as i32, q as i32), ((r + 1) as i32, (q + 1) as i32))
    } else {
        ((r as i32, (q + 1) as i32), ((r + 1) as i32, q as i32))
    }
}

/// Lexicographic order on points.
pub open spec fn point_le(a: Point, b: Point) -> bool {
    a.0 < b.0 || (a.0 == b.0 && a.1 <= b.1)
}

/// An edge with its endpoints in lexicographic order.
pub open spec fn canonical(e: Edge) -> Edge {
    if point_le(e.0, e.1) {
        e
    } else {
        (e.1, e.0)
    }
}

/// The duality map: an edge of one lattice to the other diagonal of its unit square.
pub open spec fn dual_of(e: Edge) -> Edge {
    ((e.0.0, e.1.1), (e.1.0, e.0.1))
}

/// A primal edge: two qubits of the grid, diagonal neighbours.
pub open spec fn primal_edge(w: int, h: int, origin: bool, e: Edge) -> bool {
    in_grid(w, h, e.0) && in_grid(w, h, e.1) && diagonal(e.0, e.1) && in_primal_spec(
        e.0.0 as int,
        e.0.1 as int,
        origin,
    )
}

/// Whether a qubit stands at `(x, y)` for the given polarity.
pub fn in_primal(x: i32, y: i32, start_at_origin: bool) -> (r: bool)
    requires
        0 <= x < MAX_SIDE,
        0 <= y < MAX_SIDE,
    ensures
        r == in_primal_spec(x as int, y as int, start_at_origin),
{
    ((x + y) % 2 == 0) == start_at_origin
}

#[inline(always)]
pub fn duality_map(p1: Point, p2: Point) -> (r: Edge)
    ensures
        r == dual_of((p1, p2)),
{
    let dual_p1 = (p1.0, p2.1);
    let dual_p2 = (p2.0, p1.1);
    (dual_p1, dual_p2)
}

/// The two endpoints of an edge in lexicographic order.
pub fn canonical_edge(n1: Point, n2: Point) -> (r: Edge)
    ensures
        r == canonical((n1, n2)),
{
    if n1.0 < n2.0 || (n1.0 == n2.0 && n1.1 <= n2.1) {
        (n1, n2)
    } else {
        (n2, n1)
    }
}

/// The index of the unit square that the diagonal `(n1, n2)` crosses.
pub fn edge_index_of(width: u32, n1: Point, n2: Point) -> (r: usize)
    requires
        1 <= width <= MAX_SIDE,
        0 <= n1.0 < MAX_SIDE && 0 <= n1.1 < MAX_SIDE,
        0 <= n2.0 < MAX_SIDE && 0 <= n2.1 < MAX_SIDE,
    ensures
        r == edge_index_spec(width as int, n1, n2),
{
    let y = ((n1.1 + n2.1) / 2) as usize;
    let x = ((n1.0 + n2.0) / 2) as usize;
    assert(y * (width - 1) <= MAX_SIDE * MAX_SIDE) by (nonlinear_arith)
        requires
            y < MAX_SIDE,
            width <= MAX_SIDE,
    ;
    y * (width as usize - 1) + x
}

/// The primal edge with index `index`, lower `x` first.
pub fn edge_at_index(width: u32, qubit_at_origin: bool, index: usize) -> (r: Edge)
    requires
        1 <= width <= MAX_SIDE,
        index < (width - 1) * MAX_SIDE,
    ensures
        r == edge_at(width as int, qubit_at_origin, index as int),
{
    let w = width as usize - 1;
    let quotient = index / w;
    let remainder = index % w;
    assert(quotient < MAX_SIDE) by (nonlinear_arith)
        requires
            quotient == index / w,
            index < w * MAX_SIDE,
            w > 0,
    {
        lemma_fundamental_div_mod(index as int, w as int);
    }
    let (q, r) = (quotient as i32, remainder as i32);
    if in_primal(r, q, qubit_at_origin) {
        ((r, q), (r + 1, q + 1))
    } else {
        ((r, q + 1), (r + 1, q))
    }
}

/// The duality map is its own inverse and keeps the unit square of an edge.
pub proof fn lemma_duality_involutive(w: int, e: Edge)
    ensures
        dual_of(dual_of(e)) == e,
        edge_index_spec(w, dual_of(e).0, dual_of(e).1) == edge_index_spec(w, e.0, e.1),
{
}

/// The edge index does not depend on the orientation of the edge, and the
/// edge found at the index of a primal edge is that edge in lexicographic order.
pub proof fn lemma_edge_index_inverse(w: int, h: int, origin: bool, e: Edge)
    requires
        2 <= w,
        primal_edge(w, h, origin, e),
    ensures
        edge_index_spec(w, e.0, e.1) == edge_index_spec(w, e.1, e.0),
        0 <= edge_index_spec(w, e.0, e.1) < n_edges_spec(w, h),
        edge_at(w, origin, edge_index_spec(w, e.0, e.1)) == canonical(e),
{
    let (n1, n2) = e;
    let minx: int = if n1.0 < n2.0 { n1.0 as int } else { n2.0 as int };
    let miny: int = if n1.1 < n2.1 { n1.1 as int } else { n2.1 as int };
    assert((n1.0 + n2.0) / 2 == minx);
    assert((n1.1 + n2.1) / 2 == miny);
    let i = miny * (w - 1) + minx;
    lemma_fundamental_div_mod_converse(i, w - 1, miny, minx);
    assert(i < (w - 1) * (h - 1)) by (nonlinear_arith)
        requires
            i == miny * (w - 1) + minx,
            0 <= minx < w - 1,
            0 <= miny < h - 1,
    ;
    assert(0 <= i) by (nonlinear_arith)
        requires
            i == miny * (w - 1) + minx,
            0 <= minx,
            0 <= miny,
            w >= 2,
    ;
}

/// The index of the edge found at `i` is `i` again.
pub proof fn lemma_edge_at_index(w: int, h: int, origin: bool, i: int)
    requires
        1 <= w <= MAX_SIDE,
        1 <= h <= MAX_SIDE,
        0 <= i < n_edges_spec(w, h),
    ensures
        primal_edge(w, h, origin, edge_at(w, origin, i)),
        edge_index_spec(w, edge_at(w, origin, i).0, edge_at(w, origin, i).1) == i,
{
    let q = i / (w - 1);
    let r = i % (w - 1);
    lemma_fundamental_div_mod(i, w - 1);
    assert(0 <= q < h - 1) by (nonlinear_arith)
        requires
            i == (w - 1) * q + r,
            0 <= r < w - 1,
            0 <= i < (w - 1) * (h - 1),
    ;
    assert(q * (w - 1) == (w - 1) * q) by (nonlinear_arith);
}

} // verus!

verus! {

/// The flat row-major index of a grid point.
pub open spec fn grid_idx(w: int, p: Point) -> int {
    p.1 * w + p.0
}

/// The grid point at a flat row-major index.
pub open spec fn grid_pt(w: int, k: int) -> Point {
    ((k % w) as i32, (k / w) as i32)
}

pub proof fn lemma_grid_idx(w: int, h: int, p: Point)
    requires
        0 < w <= MAX_SIDE,
        0 < h <= MAX_SIDE,
        in_grid(w, h, p),
    ensures
        0 <= grid_idx(w, p) < w * h,
        grid_pt(w, grid_idx(w, p)) == p,
{
    lemma_fundamental_div_mod_converse(grid_idx(w, p), w, p.1 as int, p.0 as int);
    assert(0 <= grid_idx(w, p) < w * h) by (nonlinear_arith)
        requires
            0 <= p.0 < w,
            0 <= p.1 < h,
            grid_idx(w, p) == p.1 * w + p.0,
    ;
}

pub proof fn lemma_grid_pt(w: int, h: int, k: int)
    requires
        0 < w <= MAX_SIDE,
        0 < h <= MAX_SIDE,
        0 <= k < w * h,
    ensures
        in_grid(w, h, grid_pt(w, k)),
        grid_idx(w, grid_pt(w, k)) == k,
{
    lemma_fundamental_div_mod(k, w);
    let q = k / w;
    let r = k % w;
    assert(0 <= q < h) by (nonlinear_arith)
        requires
            k == w * q + r,
            0 <= r < w,
            0 <= k < w * h,
    ;
    assert(q * w == w * q) by (nonlinear_arith);
}

/// The unit square between two diagonal neighbours of the grid is a valid edge index.
pub proof fn lemma_diagonal_index(w: int, h: int, p: Point, q: Point)
    requires
        2 <= w,
        in_grid(w, h, p),
        in_grid(w, h, q),
        diagonal(p, q),
    ensures
        0 <= edge_index_spec(w, p, q) < n_edges_spec(w, h),
        edge_index_spec(w, p, q) == edge_index_spec(w, q, p),
{
    let minx: int = if p.0 < q.0 { p.0 as int } else { q.0 as int };
    let miny: int = if p.1 < q.1 { p.1 as int } else { q.1 as int };
    assert((p.0 + q.0) / 2 == minx);
    assert((p.1 + q.1) / 2 == miny);
    assert(0 <= miny * (w - 1) + minx < (w - 1) * (h - 1)) by (nonlinear_arith)
        requires
            0 <= minx < w - 1,
            0 <= miny < h - 1,
    ;
}

/// The grid points one diagonal step from `p`, each once.
pub fn diagonal_neighbors(width: u32, height: u32, p: Point) -> (r: Vec<Point>)
    requires
        width <= MAX_SIDE,
        height <= MAX_SIDE,
        in_grid(width as int, height as int, p),
    ensures
        forall|j: int| 0 <= j < r@.len() ==> in_grid(width as int, height as int, r@[j]) && diagonal(p, r@[j]),
        forall|q: Point| in_grid(width as int, height as int, q) && diagonal(p, q) ==> r@.contains(q),
        r@.no_duplicates(),
{
    let w = width as i32;
    let h = height as i32;
    let b0 = p.0 + 1 < w && p.1 >= 1;
    let b1 = p.0 >= 1 && p.1 + 1 < h;
    let b2 = p.0 + 1 < w && p.1 + 1 < h;
    let b3 = p.0 >= 1 && p.1 >= 1;
    let mut r: Vec<Point> = Vec::new();
    if b0 {
        r.push((p.0 + 1, p.1 - 1));
    }
    if b1 {
        r.push((p.0 - 1, p.1 + 1));
    }
    if b2 {
        r.push((p.0 + 1, p.1 + 1));
    }
    if b3 {
        r.push((p.0 - 1, p.1 - 1));
    }
    proof {
        let c0: int = if b0 { 1 } else { 0 };
        let c1: int = if b1 { 1 } else { 0 };
        let c2: int = if b2 { 1 } else { 0 };
        assert forall|q: Point| in_grid(width as int, height as int, q) && diagonal(p, q) implies r@.contains(q) by {
            if q.0 == p.0 + 1 && q.1 == p.1 - 1 {
                assert(r@[0] == q);
            } else if q.0 == p.0 - 1 && q.1 == p.1 + 1 {
                assert(r@[c0] == q);
            } else if q.0 == p.0 + 1 && q.1 == p.1 + 1 {
                assert(r@[c0 + c1] == q);
            } else {
                assert(r@[c0 + c1 + c2] == q);
            }
        }
    }
    r
}

} // verus!

verus! {

/// The flat row-major index of a grid point.
pub fn grid_index(width: u32, height: u32, p: Point) -> (r: usize)
    requires
        0 < width <= MAX_SIDE,
        0 < height <= MAX_SIDE,
        in_grid(width as int, height as int, p),
    ensures
        r == grid_idx(width as int, p),
        r < width * height,
        grid_pt(width as int, r as int) == p,
{
    proof {
        lemma_grid_idx(width as int, height as int, p);
    }
    assert(p.1 * width <= MAX_SIDE * MAX_SIDE) by (nonlinear_arith)
        requires
            0 <= p.1 < MAX_SIDE,
            width <= MAX_SIDE,
    ;
    (p.1 as usize) * (width as usize) + p.0 as usize
}

} // verus!

