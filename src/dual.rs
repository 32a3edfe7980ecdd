use crate::geometry::{
    diagonal, diagonal_neighbors, edge_index_of, edge_index_spec, grid_idx, grid_index, grid_pt,
    in_grid, in_primal, in_primal_spec, lemma_diagonal_index, lemma_grid_idx, lemma_grid_pt,
    n_edges_spec, Point, MAX_SIDE,
};
use vstd::prelude::*;

verus! {

/// A router of the dual lattice: a grid point that holds no qubit.
pub open spec fn dual_node(w: int, h: int, origin: bool, p: Point) -> bool {
    in_grid(w, h, p) && !in_primal_spec(p.0 as int, p.1 as int, origin)
}

/// A point on the outer rectangle of the grid.
pub open spec fn on_rim(w: int, h: int, p: Point) -> bool {
    p.0 == 0 || p.0 == w - 1 || p.1 == 0 || p.1 == h - 1
}

/// A step from router `p` to `q` along a virtual dual edge.
pub open spec fn virtual_step(w: int, h: int, origin: bool, usable: Seq<bool>, p: Point, q: Point) -> bool {
    dual_node(w, h, origin, p) && in_grid(w, h, q) && diagonal(p, q) && !usable[edge_index_spec(
        w,
        p,
        q,
    )]
}

/// `p` is reached from a rim router within `k` virtual steps.
pub open spec fn vreach(w: int, h: int, origin: bool, usable: Seq<bool>, p: Point, k: nat) -> bool
    decreases k,
{
    if k == 0 {
        dual_node(w, h, origin, p) && on_rim(w, h, p)
    } else {
        vreach(w, h, origin, usable, p, (k - 1) as nat) || exists|q: Point|
            #[trigger] virtual_step(w, h, origin, usable, q, p) && vreach(
                w,
                h,
                origin,
                usable,
                q,
                (k - 1) as nat,
            )
    }
}

/// The rim routers closed under virtual dual edges.
pub open spec fn in_closure(w: int, h: int, origin: bool, usable: Seq<bool>, p: Point) -> bool {
    exists|k: nat| #[trigger] vreach(w, h, origin, usable, p, k)
}

/// Every dual edge at `p` is virtual.
pub open spec fn dangling(w: int, h: int, usable: Seq<bool>, p: Point) -> bool {
    forall|q: Point|
        in_grid(w, h, q) && diagonal(p, q) ==> !#[trigger] usable[edge_index_spec(w, p, q)]
}

/// A boundary router: in the closure and not dangling.
pub open spec fn boundary_spec(w: int, h: int, origin: bool, usable: Seq<bool>, p: Point) -> bool {
    dual_node(w, h, origin, p) && in_closure(w, h, origin, usable, p) && !dangling(w, h, usable, p)
}

/// A router that the dangling prune removes: in the closure, every edge virtual.
pub open spec fn pruned_spec(w: int, h: int, origin: bool, usable: Seq<bool>, p: Point) -> bool {
    dual_node(w, h, origin, p) && in_closure(w, h, origin, usable, p) && dangling(w, h, usable, p)
}

pub open spec fn count_true(s: Seq<bool>) -> nat
    decreases s.len(),
{
    if s.len() == 0 {
        0
    } else {
        count_true(s.drop_last()) + if s.last() {
            1nat
        } else {
            0nat
        }
    }
}

pub proof fn lemma_count_true_update(s: Seq<bool>, i: int)
    requires
        0 <= i < s.len(),
        !s[i],
    ensures
        count_true(s.update(i, true)) == count_true(s) + 1,
    decreases s.len(),
{
    let t = s.update(i, true);
    if i == s.len() - 1 {
        assert(t.drop_last() =~= s.drop_last());
    } else {
        lemma_count_true_update(s.drop_last(), i);
        assert(t.drop_last() =~= s.drop_last().update(i, true));
    }
}

pub proof fn lemma_count_true_le(s: Seq<bool>)
    ensures
        count_true(s) <= s.len(),
    decreases s.len(),
{
    if s.len() > 0 {
        lemma_count_true_le(s.drop_last());
    }
}

/// Every virtual step out of a marked router leads to a marked point.
pub open spec fn closed_at(
    w: int,
    h: int,
    origin: bool,
    usable: Seq<bool>,
    marks: Seq<bool>,
    p: Point,
) -> bool {
    forall|q: Point| #[trigger]
        virtual_step(w, h, origin, usable, p, q) ==> marks[grid_idx(w, q)]
}

proof fn lemma_closure_complete(
    w: int,
    h: int,
    origin: bool,
    usable: Seq<bool>,
    marks: Seq<bool>,
    p: Point,
    k: nat,
)
    requires
        0 < w <= MAX_SIDE,
        0 < h <= MAX_SIDE,
        marks.len() == w * h,
        forall|q: Point| dual_node(w, h, origin, q) && on_rim(w, h, q) ==> marks[grid_idx(w, q)],
        forall|j: int|
            0 <= j < w * h && #[trigger] marks[j] ==> closed_at(
                w,
                h,
                origin,
                usable,
                marks,
                grid_pt(w, j),
            ),
        vreach(w, h, origin, usable, p, k),
    ensures
        in_grid(w, h, p),
        marks[grid_idx(w, p)],
    decreases k,
{
    if k > 0 {
        if vreach(w, h, origin, usable, p, (k - 1) as nat) {
            lemma_closure_complete(w, h, origin, usable, marks, p, (k - 1) as nat);
        } else {
            let q = choose|q: Point|
                #[trigger] virtual_step(w, h, origin, usable, q, p) && vreach(
                    w,
                    h,
                    origin,
                    usable,
                    q,
                    (k - 1) as nat,
                );
            lemma_closure_complete(w, h, origin, usable, marks, q, (k - 1) as nat);
            lemma_grid_idx(w, h, q);
            assert(closed_at(w, h, origin, usable, marks, grid_pt(w, grid_idx(w, q))));
        }
    }
}

/// Marks, at each router's row-major index, whether it is reached from the rim
/// through virtual dual edges.
pub fn boundary_closure(width: u32, height: u32, origin: bool, usable: &Vec<bool>) -> (r: Vec<bool>)
    requires
        1 <= width <= MAX_SIDE,
        1 <= height <= MAX_SIDE,
        usable@.len() == n_edges_spec(width as int, height as int),
    ensures
        r@.len() == width * height,
        forall|k: int|
            0 <= k < width * height ==> r@[k] == (dual_node(
                width as int,
                height as int,
                origin,
                grid_pt(width as int, k),
            ) && in_closure(width as int, height as int, origin, usable@, grid_pt(width as int, k))),
{
    let ghost w = width as int;
    let ghost h = height as int;
    assert(width * height <= MAX_SIDE * MAX_SIDE) by (nonlinear_arith)
        requires
            width <= MAX_SIDE,
            height <= MAX_SIDE,
    ;
    let n = width as usize * height as usize;
    let mut marks: Vec<bool> = vec![false; n];
    let mut stack: Vec<Point> = Vec::new();
    let mut k: usize = 0;
    while k < n
        invariant
            1 <= width <= MAX_SIDE,
            1 <= height <= MAX_SIDE,
            w == width,
            h == height,
            n == w * h,
            k <= n,
            marks@.len() == n,
            forall|j: int|
                0 <= j < n && #[trigger] marks@[j] ==> dual_node(w, h, origin, grid_pt(w, j))
                    && in_closure(w, h, origin, usable@, grid_pt(w, j)) && stack@.contains(
                    grid_pt(w, j),
                ),
            forall|j: int|
                0 <= j < k ==> (dual_node(w, h, origin, grid_pt(w, j)) && on_rim(
                    w,
                    h,
                    grid_pt(w, j),
                )) ==> #[trigger] marks@[j],
            forall|j: int|
                0 <= j < stack@.len() ==> in_grid(w, h, #[trigger] stack@[j]) && marks@[grid_idx(
                    w,
                    stack@[j],
                )],
        decreases n - k,
    {
        proof {
            lemma_grid_pt(w, h, k as int);
        }
        let p: Point = ((k % width as usize) as i32, (k / width as usize) as i32);
        let is_rim = p.0 == 0 || p.0 == width as i32 - 1 || p.1 == 0 || p.1 == height as i32 - 1;
        if is_rim && !in_primal(p.0, p.1, origin) {
            let ghost old_stack = stack@;
            let ghost old_marks = marks@;
            proof {
                assert(p == grid_pt(w, k as int));
                assert(vreach(w, h, origin, usable@, p, 0));
            }
            marks.set(k, true);
            stack.push(p);
            proof {
                assert(stack@[stack@.len() - 1] == p);
                assert forall|j: int|
                    0 <= j < n && #[trigger] marks@[j] implies dual_node(
                    w,
                    h,
                    origin,
                    grid_pt(w, j),
                ) && in_closure(w, h, origin, usable@, grid_pt(w, j)) && stack@.contains(
                    grid_pt(w, j),
                ) by {
                    if j != k {
                        assert(old_marks[j]);
                        let i = choose|i: int|
                            0 <= i < old_stack.len() && old_stack[i] == grid_pt(w, j);
                        assert(stack@[i] == grid_pt(w, j));
                    } else {
                        assert(vreach(w, h, origin, usable@, grid_pt(w, j), 0));
                    }
                }
                assert forall|j: int|
                    0 <= j < stack@.len() implies in_grid(w, h, #[trigger] stack@[j])
                    && marks@[grid_idx(w, stack@[j])] by {
                    if j < stack@.len() - 1 {
                        assert(old_stack[j] == stack@[j]);
                        lemma_grid_idx(w, h, stack@[j]);
                    } else {
                        lemma_grid_idx(w, h, p);
                    }
                }
            }
        }
        k = k + 1;
    }
    proof {
        assert forall|q: Point| dual_node(w, h, origin, q) && on_rim(w, h, q) implies marks@[grid_idx(
            w,
            q,
        )] by {
            lemma_grid_idx(w, h, q);
        }
        lemma_count_true_le(marks@);
    }
    while stack.len() > 0
        invariant
            1 <= width <= MAX_SIDE,
            1 <= height <= MAX_SIDE,
            w == width,
            h == height,
            n == w * h,
            usable@.len() == n_edges_spec(w, h),
            marks@.len() == n,
            forall|j: int|
                0 <= j < n && #[trigger] marks@[j] ==> dual_node(w, h, origin, grid_pt(w, j))
                    && in_closure(w, h, origin, usable@, grid_pt(w, j)),
            forall|q: Point|
                dual_node(w, h, origin, q) && on_rim(w, h, q) ==> marks@[grid_idx(w, q)],
            forall|j: int|
                0 <= j < n && #[trigger] marks@[j] && !stack@.contains(grid_pt(w, j))
                    ==> closed_at(w, h, origin, usable@, marks@, grid_pt(w, j)),
            forall|j: int|
                0 <= j < stack@.len() ==> in_grid(w, h, #[trigger] stack@[j]) && marks@[grid_idx(
                    w,
                    stack@[j],
                )],
            count_true(marks@) <= n,
        decreases n - count_true(marks@), stack@.len(),
    {
        let ghost before = stack@;
        let p = stack.pop().unwrap();
        let ghost popped = stack@;
        let ghost marks0 = marks@;
        proof {
            lemma_grid_idx(w, h, p);
            assert(before == popped.push(p));
            assert forall|j: int|
                0 <= j < n && #[trigger] marks@[j] && !stack@.contains(grid_pt(w, j))
                    && grid_pt(w, j) != p implies closed_at(w, h, origin, usable@, marks@, grid_pt(w, j)) by {
                if before.contains(grid_pt(w, j)) {
                    let i = choose|i: int| 0 <= i < before.len() && before[i] == grid_pt(w, j);
                    if i < popped.len() {
                        assert(popped[i] == grid_pt(w, j));
                    }
                }
            }
        }
        let neighbors = diagonal_neighbors(width, height, p);
        let mut t: usize = 0;
        while t < neighbors.len()
            invariant
                1 <= width <= MAX_SIDE,
                1 <= height <= MAX_SIDE,
                w == width,
                h == height,
                n == w * h,
                usable@.len() == n_edges_spec(w, h),
                marks@.len() == n,
                in_grid(w, h, p),
                marks@[grid_idx(w, p)],
                t <= neighbors@.len(),
                forall|j: int|
                    0 <= j < neighbors@.len() ==> in_grid(w, h, neighbors@[j]) && diagonal(
                        p,
                        neighbors@[j],
                    ),
                forall|q: Point| in_grid(w, h, q) && diagonal(p, q) ==> neighbors@.contains(q),
                popped.len() <= stack@.len(),
                forall|j: int| 0 <= j < popped.len() ==> stack@[j] == popped[j],
                count_true(marks@) == count_true(marks0) + (stack@.len() - popped.len()),
                count_true(marks@) <= n,
                forall|j: int|
                    0 <= j < n && #[trigger] marks@[j] ==> dual_node(w, h, origin, grid_pt(w, j))
                        && in_closure(w, h, origin, usable@, grid_pt(w, j)),
                forall|q: Point|
                    dual_node(w, h, origin, q) && on_rim(w, h, q) ==> marks@[grid_idx(w, q)],
                forall|j: int|
                    0 <= j < n && #[trigger] marks@[j] && !stack@.contains(grid_pt(w, j))
                        && grid_pt(w, j) != p ==> closed_at(
                        w,
                        h,
                        origin,
                        usable@,
                        marks@,
                        grid_pt(w, j),
                    ),
                forall|j: int|
                    0 <= j < t ==> virtual_step(w, h, origin, usable@, p, #[trigger] neighbors@[j])
                        ==> marks@[grid_idx(w, neighbors@[j])],
                forall|j: int|
                    0 <= j < stack@.len() ==> in_grid(w, h, #[trigger] stack@[j]) && marks@[grid_idx(
                        w,
                        stack@[j],
                    )],
            decreases neighbors@.len() - t,
        {
            let q = neighbors[t];
            proof {
                lemma_grid_idx(w, h, p);
                lemma_grid_idx(w, h, q);
                lemma_diagonal_index(w, h, p, q);
            }
            let qi = grid_index(width, height, q);
            let e = edge_index_of(width, p, q);
            if !usable[e] && !in_primal(p.0, p.1, origin) && !marks[qi] {
                proof {
                    let j0 = grid_idx(w, p);
                    assert(in_closure(w, h, origin, usable@, grid_pt(w, j0)));
                    let d = choose|d: nat| #[trigger] vreach(w, h, origin, usable@, p, d);
                    assert(virtual_step(w, h, origin, usable@, p, q));
                    assert(vreach(w, h, origin, usable@, q, d + 1));
                    lemma_count_true_update(marks@, qi as int);
                    lemma_count_true_le(marks@.update(qi as int, true));
                }
                let ghost old_stack = stack@;
                let ghost old_marks = marks@;
                marks.set(qi, true);
                stack.push(q);
                proof {
                    assert(stack@[stack@.len() - 1] == q);
                    assert forall|j: int|
                        0 <= j < stack@.len() implies in_grid(w, h, #[trigger] stack@[j])
                        && marks@[grid_idx(w, stack@[j])] by {
                        lemma_grid_idx(w, h, stack@[j]);
                        if j < stack@.len() - 1 {
                            assert(old_stack[j] == stack@[j]);
                            assert(old_marks[grid_idx(w, stack@[j])]);
                        }
                    }
                    assert forall|r: Point|
                        dual_node(w, h, origin, r) && on_rim(w, h, r) implies marks@[grid_idx(w, r)] by {
                        lemma_grid_idx(w, h, r);
                        assert(old_marks[grid_idx(w, r)]);
                    }
                    assert forall|j: int|
                        0 <= j < t && virtual_step(w, h, origin, usable@, p, #[trigger] neighbors@[j])
                            implies marks@[grid_idx(w, neighbors@[j])] by {
                        assert(old_marks[grid_idx(w, neighbors@[j])]);
                        lemma_grid_idx(w, h, neighbors@[j]);
                    }
                    assert forall|j: int|
                        0 <= j < n && #[trigger] marks@[j] && !stack@.contains(grid_pt(w, j))
                            && grid_pt(w, j) != p implies closed_at(w, h, origin, usable@, marks@, grid_pt(w, j)) by {
                        if j != qi {
                            if old_stack.contains(grid_pt(w, j)) {
                                let i = choose|i: int| 0 <= i < old_stack.len() && old_stack[i] == grid_pt(w, j);
                                assert(stack@[i] == grid_pt(w, j));
                            }
                            assert(closed_at(w, h, origin, usable@, old_marks, grid_pt(w, j)));
                            assert forall|r: Point| #[trigger]
                                virtual_step(w, h, origin, usable@, grid_pt(w, j), r) implies marks@[grid_idx(w, r)] by {
                                lemma_grid_idx(w, h, r);
                                assert(old_marks[grid_idx(w, r)]);
                            }
                        } else {
                            assert(stack@.contains(q));
                        }
                    }
                }
            }
            t = t + 1;
        }
        proof {
            assert(closed_at(w, h, origin, usable@, marks@, p)) by {
                assert forall|q: Point| #[trigger]
                    virtual_step(w, h, origin, usable@, p, q) implies marks@[grid_idx(w, q)] by {
                    assert(neighbors@.contains(q));
                }
            }
            lemma_count_true_le(marks@);
        }
    }
    proof {
        assert forall|k: int|
            0 <= k < w * h implies marks@[k] == (dual_node(w, h, origin, grid_pt(w, k))
            && in_closure(w, h, origin, usable@, grid_pt(w, k))) by {
            lemma_grid_pt(w, h, k);
            if dual_node(w, h, origin, grid_pt(w, k)) && in_closure(
                w,
                h,
                origin,
                usable@,
                grid_pt(w, k),
            ) {
                let d = choose|d: nat| #[trigger] vreach(w, h, origin, usable@, grid_pt(w, k), d);
                lemma_closure_complete(w, h, origin, usable@, marks@, grid_pt(w, k), d);
            }
        }
    }
    marks
}

} // verus!

verus! {

/// Whether every dual edge at `p` is virtual.
pub fn is_dangling(width: u32, height: u32, usable: &Vec<bool>, p: Point) -> (r: bool)
    requires
        1 <= width <= MAX_SIDE,
        1 <= height <= MAX_SIDE,
        usable@.len() == n_edges_spec(width as int, height as int),
        in_grid(width as int, height as int, p),
    ensures
        r == dangling(width as int, height as int, usable@, p),
{
    let neighbors = diagonal_neighbors(width, height, p);
    let mut t: usize = 0;
    while t < neighbors.len()
        invariant
            1 <= width <= MAX_SIDE,
            1 <= height <= MAX_SIDE,
            usable@.len() == n_edges_spec(width as int, height as int),
            in_grid(width as int, height as int, p),
            t <= neighbors@.len(),
            forall|j: int|
                0 <= j < neighbors@.len() ==> in_grid(width as int, height as int, neighbors@[j])
                    && diagonal(p, neighbors@[j]),
            forall|j: int|
                0 <= j < t ==> !usable@[edge_index_spec(width as int, p, #[trigger] neighbors@[j])],
        decreases neighbors@.len() - t,
    {
        proof {
            lemma_diagonal_index(width as int, height as int, p, neighbors@[t as int]);
        }
        if usable[edge_index_of(width, p, neighbors[t])] {
            return false;
        }
        t = t + 1;
    }
    proof {
        assert forall|q: Point|
            in_grid(width as int, height as int, q) && diagonal(p, q) implies !#[trigger] usable@[edge_index_spec(
            width as int,
            p,
            q,
        )] by {
            assert(neighbors@.contains(q));
        }
    }
    true
}

/// Lexicographic order on points, strict.
pub open spec fn point_lt(a: Point, b: Point) -> bool {
    a.0 < b.0 || (a.0 == b.0 && a.1 < b.1)
}

/// The routers removed by the dangling prune, flagged at their row-major index,
/// and the boundary routers that remain, in lexicographic order.
pub fn prune_and_list(width: u32, height: u32, origin: bool, usable: &Vec<bool>) -> (r: (
    Vec<bool>,
    Vec<Point>,
))
    requires
        1 <= width <= MAX_SIDE,
        1 <= height <= MAX_SIDE,
        usable@.len() == n_edges_spec(width as int, height as int),
    ensures
        r.0@.len() == width * height,
        forall|k: int|
            0 <= k < width * height ==> r.0@[k] == pruned_spec(
                width as int,
                height as int,
                origin,
                usable@,
                grid_pt(width as int, k),
            ),
        forall|p: Point|
            r.1@.contains(p) <==> boundary_spec(width as int, height as int, origin, usable@, p),
        forall|i: int, j: int| 0 <= i < j < r.1@.len() ==> point_lt(r.1@[i], r.1@[j]),
{
    let ghost w = width as int;
    let ghost h = height as int;
    let marks = boundary_closure(width, height, origin, usable);
    let mut pruned: Vec<bool> = vec![false; marks.len()];
    let mut list: Vec<Point> = Vec::new();
    let mut x: u32 = 0;
    while x < width
        invariant
            1 <= width <= MAX_SIDE,
            1 <= height <= MAX_SIDE,
            w == width,
            h == height,
            usable@.len() == n_edges_spec(w, h),
            marks@.len() == w * h,
            forall|k: int|
                0 <= k < w * h ==> marks@[k] == (dual_node(w, h, origin, grid_pt(w, k))
                    && in_closure(w, h, origin, usable@, grid_pt(w, k))),
            pruned@.len() == w * h,
            x <= width,
            forall|k: int|
                0 <= k < w * h ==> #[trigger] pruned@[k] == (grid_pt(w, k).0 < x && pruned_spec(
                    w,
                    h,
                    origin,
                    usable@,
                    grid_pt(w, k),
                )),
            forall|p: Point|
                list@.contains(p) <==> (p.0 < x && boundary_spec(w, h, origin, usable@, p)),
            forall|i: int, j: int| 0 <= i < j < list@.len() ==> point_lt(list@[i], list@[j]),
            forall|i: int| 0 <= i < list@.len() ==> list@[i].0 < x,
        decreases width - x,
    {
        let mut y: u32 = 0;
        while y < height
            invariant
                1 <= width <= MAX_SIDE,
                1 <= height <= MAX_SIDE,
                w == width,
                h == height,
                usable@.len() == n_edges_spec(w, h),
                marks@.len() == w * h,
                forall|k: int|
                    0 <= k < w * h ==> marks@[k] == (dual_node(w, h, origin, grid_pt(w, k))
                        && in_closure(w, h, origin, usable@, grid_pt(w, k))),
                pruned@.len() == w * h,
                x < width,
                y <= height,
                forall|k: int|
                    0 <= k < w * h ==> #[trigger] pruned@[k] == ((grid_pt(w, k).0 < x || (grid_pt(
                        w,
                        k,
                    ).0 == x && grid_pt(w, k).1 < y)) && pruned_spec(
                        w,
                        h,
                        origin,
                        usable@,
                        grid_pt(w, k),
                    )),
                forall|p: Point|
                    list@.contains(p) <==> ((p.0 < x || (p.0 == x && p.1 < y)) && boundary_spec(
                        w,
                        h,
                        origin,
                        usable@,
                        p,
                    )),
                forall|i: int, j: int| 0 <= i < j < list@.len() ==> point_lt(list@[i], list@[j]),
                forall|i: int|
                    0 <= i < list@.len() ==> list@[i].0 < x || (list@[i].0 == x && list@[i].1 < y),
            decreases height - y,
        {
            let p: Point = (x as i32, y as i32);
            let k = grid_index(width, height, p);
            let ghost old_list = list@;
            if marks[k] {
                let d = is_dangling(width, height, usable, p);
                if d {
                    pruned.set(k, true);
                } else {
                    list.push(p);
                    proof {
                        assert forall|q: Point|
                            list@.contains(q) implies ((q.0 < x || (q.0 == x && q.1 < y + 1))
                            && boundary_spec(w, h, origin, usable@, q)) by {
                            if q != p {
                                let i = choose|i: int| 0 <= i < list@.len() && list@[i] == q;
                                assert(i < old_list.len());
                                assert(old_list[i] == q);
                                assert(old_list.contains(q));
                                assert(q.0 < x || (q.0 == x && q.1 < y));
                            } else {
                                assert(grid_pt(w, k as int) == p);
                                assert(marks@[k as int]);
                                assert(dual_node(w, h, origin, p));
                                assert(in_closure(w, h, origin, usable@, p));
                                assert(!dangling(w, h, usable@, p));
                                assert(q.0 < x || (q.0 == x && q.1 < y + 1));
                            }
                        }
                        assert forall|q: Point|
                            ((q.0 < x || (q.0 == x && q.1 < y + 1)) && boundary_spec(
                                w,
                                h,
                                origin,
                                usable@,
                                q,
                            )) implies list@.contains(q) by {
                            if q != p {
                                assert(old_list.contains(q));
                                let i = choose|i: int| 0 <= i < old_list.len() && old_list[i] == q;
                                assert(list@[i] == q);
                            } else {
                                assert(list@[list@.len() - 1] == q);
                            }
                        }
                    }
                }
            }
            proof {
                assert forall|k2: int|
                    0 <= k2 < w * h implies #[trigger] pruned@[k2] == ((grid_pt(w, k2).0 < x || (
                    grid_pt(w, k2).0 == x && grid_pt(w, k2).1 < y + 1)) && pruned_spec(
                    w,
                    h,
                    origin,
                    usable@,
                    grid_pt(w, k2),
                )) by {
                    lemma_grid_pt(w, h, k2);
                    if k2 != k {
                        assert(grid_pt(w, k2) != p);
                    }
                }
            }
            y = y + 1;
        }
        x = x + 1;
    }
    (pruned, list)
}


} // verus!
