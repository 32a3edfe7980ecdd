use crate::bits::{bits_of, bitset_from_block, block_bit, BitPattern};
use crate::geometry::{
    diagonal, diagonal_neighbors, edge_at, edge_index_spec, in_grid, in_primal, in_primal_spec, lemma_edge_at_index,
    lemma_diagonal_index, lemma_edge_index_inverse, primal_edge, Point, MAX_SIDE,
};
use crate::order::{order_rank, Order};
use itertools::Itertools;
use crate::graph::{line_starts, SearchGraph};
use crate::pattern::{slash_index, slash_index_spec};
use vstd::prelude::*;

verus! {

/// The line bit of index `i` of a graph: the bit of every real edge on the line.
pub open spec fn line_index_of_edge(g: SearchGraph, e: int) -> int {
    let w = g.width_spec();
    let h = g.height_spec();
    let edge = edge_at(w, g.origin_spec(), e);
    slash_index_spec(edge.0, edge.1, g.origin_spec(), h, n_slash_of(g) as int)
}

pub open spec fn n_slash_of(g: SearchGraph) -> nat {
    line_starts(g.width_spec(), g.height_spec(), g.origin_spec(), true, g.width_spec() * g.height_spec())
}

pub open spec fn n_back_slash_of(g: SearchGraph) -> nat {
    line_starts(g.width_spec(), g.height_spec(), g.origin_spec(), false, g.width_spec() * g.height_spec())
}

/// A line is dead when none of its edges is real.
pub open spec fn dead_line(g: SearchGraph, i: int) -> bool {
    forall|e: int| 0 <= e < g.n_edges() && #[trigger] g.real_edges@[e] ==> line_index_of_edge(g, e) != i
}

/// A pattern number sets no bit of a dead line.
pub open spec fn admissible(g: SearchGraph, k: u32) -> bool {
    forall|i: int|
        1 <= i <= n_slash_of(g) + n_back_slash_of(g) && #[trigger] dead_line(g, i) ==> !block_bit(
            k,
            i,
        )
}

/// The admissible pattern numbers below `k`, in increasing order.
pub open spec fn admissible_upto(g: SearchGraph, k: int) -> Seq<u32>
    decreases k,
{
    if k <= 0 {
        seq![]
    } else {
        let rest = admissible_upto(g, k - 1);
        if admissible(g, (k - 1) as u32) {
            rest.push((k - 1) as u32)
        } else {
            rest
        }
    }
}

/// The lines, numbered `1..=n_slash + n_back_slash`, that hold no real edge, in increasing order.
pub fn dead_slash_indices(graph: &SearchGraph) -> (r: Vec<usize>)
    requires
        graph.wf(),
    ensures
        forall|i: int|
            r@.contains(i as usize) && 1 <= i <= n_slash_of(*graph) + n_back_slash_of(*graph)
                <==> (1 <= i <= n_slash_of(*graph) + n_back_slash_of(*graph) && dead_line(*graph, i)),
        forall|j: int|
            0 <= j < r@.len() ==> 1 <= #[trigger] r@[j] <= n_slash_of(*graph) + n_back_slash_of(*graph),
        forall|a: int, b: int| 0 <= a < b < r@.len() ==> r@[a] < r@[b],
{
    let n_slash = graph.num_slash();
    let n_back_slash = graph.num_back_slash();
    proof {
        crate::pattern::lemma_starts_bound(*graph);
    }
    let n_lines = n_slash + n_back_slash;
    let mut live: Vec<bool> = vec![false; n_lines + 1];
    let n = graph.real_edges.len();
    let mut e: usize = 0;
    while e < n
        invariant
            graph.wf(),
            n == graph.n_edges(),
            n_slash == n_slash_of(*graph),
            n_lines == n_slash_of(*graph) + n_back_slash_of(*graph),
            n_slash <= MAX_SIDE * MAX_SIDE,
            live@.len() == n_lines + 1,
            e <= n,
            forall|i: int|
                0 <= i <= n_lines ==> (#[trigger] live@[i] <==> exists|f: int|
                    0 <= f < e && graph.real_edges@[f] && line_index_of_edge(*graph, f) == i),
        decreases n - e,
    {
        if graph.real_edges[e] {
            let edge = graph.get_edge(e);
            let index = slash_index(
                edge.0,
                edge.1,
                graph.config.qubit_at_origin,
                graph.config.height,
                n_slash,
            );
            if index <= n_lines {
                live.set(index, true);
            }
        }
        proof {
            assert forall|i: int|
                0 <= i <= n_lines implies (#[trigger] live@[i] <==> exists|f: int|
                0 <= f < e + 1 && graph.real_edges@[f] && line_index_of_edge(*graph, f) == i) by {
                if exists|f: int|
                    0 <= f < e && graph.real_edges@[f] && line_index_of_edge(*graph, f) == i {
                    let f = choose|f: int|
                        0 <= f < e && graph.real_edges@[f] && line_index_of_edge(*graph, f) == i;
                    assert(0 <= f < e + 1 && graph.real_edges@[f] && line_index_of_edge(*graph, f)
                        == i);
                }
                if graph.real_edges@[e as int] && line_index_of_edge(*graph, e as int) == i {
                    assert(0 <= e < e + 1 && graph.real_edges@[e as int] && line_index_of_edge(
                        *graph,
                        e as int,
                    ) == i);
                }
            }
        }
        e = e + 1;
    }
    let mut r: Vec<usize> = Vec::new();
    let mut i: usize = 1;
    while i <= n_lines
        invariant
            graph.wf(),
            n == graph.n_edges(),
            n_lines == n_slash_of(*graph) + n_back_slash_of(*graph),
            n_lines <= 2 * MAX_SIDE * MAX_SIDE,
            live@.len() == n_lines + 1,
            forall|i2: int|
                0 <= i2 <= n_lines ==> (#[trigger] live@[i2] <==> exists|f: int|
                    0 <= f < n && graph.real_edges@[f] && line_index_of_edge(*graph, f) == i2),
            1 <= i <= n_lines + 1,
            forall|i2: int|
                r@.contains(i2 as usize) && 1 <= i2 <= n_lines <==> (1 <= i2 < i && dead_line(
                    *graph,
                    i2,
                )),
            forall|j: int| 0 <= j < r@.len() ==> 1 <= #[trigger] r@[j] < i,
            forall|a: int, b: int| 0 <= a < b < r@.len() ==> r@[a] < r@[b],
        decreases n_lines + 1 - i,
    {
        let ghost old_r = r@;
        if !live[i] {
            r.push(i);
        }
        proof {
            assert forall|i2: int|
                r@.contains(i2 as usize) && 1 <= i2 <= n_lines <==> (1 <= i2 < i + 1 && dead_line(
                    *graph,
                    i2,
                )) by {
                if i2 == i {
                    if !live@[i as int] {
                        assert(r@[r@.len() - 1] == i);
                        assert forall|f: int|
                            0 <= f < graph.n_edges() && #[trigger] graph.real_edges@[f]
                                implies line_index_of_edge(*graph, f) != i2 by {}
                    } else {
                        let f = choose|f: int|
                            0 <= f < n && graph.real_edges@[f] && line_index_of_edge(*graph, f)
                                == i2;
                        if r@.contains(i2 as usize) {
                            let j = choose|j: int| 0 <= j < r@.len() && r@[j] == i2 as usize;
                            assert(old_r[j] < i);
                        }
                    }
                } else if 1 <= i2 <= n_lines {
                    if r@.contains(i2 as usize) {
                        let j = choose|j: int| 0 <= j < r@.len() && r@[j] == i2 as usize;
                        if j < old_r.len() {
                            assert(old_r[j] == i2 as usize);
                        }
                    }
                    if old_r.contains(i2 as usize) {
                        let j = choose|j: int| 0 <= j < old_r.len() && old_r[j] == i2 as usize;
                        assert(r@[j] == i2 as usize);
                    }
                }
            }
        }
        i = i + 1;
    }
    r
}

/// Every bit pattern that sets no bit of a dead line, in increasing order of its number.
pub fn search_bit_patterns(graph: &SearchGraph) -> (r: Vec<BitPattern>)
    requires
        graph.wf(),
        1 + n_slash_of(*graph) + n_back_slash_of(*graph) < 32,
    ensures
        r@.len() == admissible_upto(
            *graph,
            pow2((1 + n_slash_of(*graph) + n_back_slash_of(*graph)) as nat) as int,
        ).len(),
        forall|j: int|
            0 <= j < r@.len() ==> bits_of(#[trigger] r@[j]) == Seq::new(
                (1 + n_slash_of(*graph) + n_back_slash_of(*graph)) as nat,
                |i: int|
                    block_bit(
                        admissible_upto(
                            *graph,
                            pow2((1 + n_slash_of(*graph) + n_back_slash_of(*graph)) as nat) as int,
                        )[j],
                        i,
                    ),
            ),
{
    let n_slash = graph.num_slash();
    let n_back_slash = graph.num_back_slash();
    let n_bits = 1 + n_slash + n_back_slash;
    let dead = dead_slash_indices(graph);
    let ghost nb = n_bits as nat;
    let bound: u32 = 1u32 << (n_bits as u32);
    proof {
        lemma_pow2_shift(n_bits as u32);
    }
    let mut r: Vec<BitPattern> = Vec::new();
    let mut k: u32 = 0;
    while k < bound
        invariant
            n_bits == nb,
            nb < 32,
            bound == pow2(nb),
            graph.wf(),
            nb == 1 + n_slash_of(*graph) + n_back_slash_of(*graph),
            forall|i: int|
                dead@.contains(i as usize) && 1 <= i <= n_slash_of(*graph) + n_back_slash_of(*graph)
                    <==> (1 <= i <= n_slash_of(*graph) + n_back_slash_of(*graph) && dead_line(*graph, i)),
            forall|j: int| 0 <= j < dead@.len() ==> 1 <= #[trigger] dead@[j] <= n_slash_of(*graph) + n_back_slash_of(*graph),
            k <= bound,
            r@.len() == admissible_upto(*graph, k as int).len(),
            forall|j: int|
                0 <= j < r@.len() ==> bits_of(#[trigger] r@[j]) == Seq::new(
                    nb,
                    |i: int| block_bit(admissible_upto(*graph, k as int)[j], i),
                ),
        decreases bound - k,
    {
        let mut ok = true;
        let mut t: usize = 0;
        while t < dead.len()
            invariant
                forall|j: int| 0 <= j < dead@.len() ==> dead@[j] < 32,
                t <= dead@.len(),
                k < bound,
                ok == forall|j: int| 0 <= j < t ==> !block_bit(k, #[trigger] dead@[j] as int),
            decreases dead@.len() - t,
        {
            let d = dead[t] as u32;
            let set = k & (1u32 << d) != 0;
            proof {
                assert(set == block_bit(k, d as int)) by {
                    lemma_block_bit(k, d);
                }
            }
            ok = ok && !set;
            t = t + 1;
        }
        let ghost prev = admissible_upto(*graph, k as int);
        proof {
            assert(ok == admissible(*graph, k)) by {
                if ok {
                    assert forall|i: int|
                        1 <= i <= n_slash_of(*graph) + n_back_slash_of(*graph) && #[trigger] dead_line(*graph, i)
                            implies !block_bit(k, i) by {
                        assert(dead@.contains(i as usize));
                        let j = choose|j: int| 0 <= j < dead@.len() && dead@[j] == i as usize;
                        assert(!block_bit(k, dead@[j] as int));
                    }
                } else {
                    let j = choose|j: int| 0 <= j < dead@.len() && block_bit(k, #[trigger] dead@[j] as int);
                    let i = dead@[j] as int;
                    assert(dead@.contains(i as usize));
                    assert(dead_line(*graph, i));
                }
            }
        }
        if ok {
            let p = bitset_from_block(n_bits, k);
            r.push(p);
            proof {
                assert(admissible_upto(*graph, k + 1) == prev.push(k));
            }
        }
        proof {
            assert forall|j: int|
                0 <= j < r@.len() implies bits_of(#[trigger] r@[j]) == Seq::new(
                nb,
                |i: int| block_bit(admissible_upto(*graph, k + 1)[j], i),
            ) by {
                if ok {
                    if j < prev.len() {
                        assert(admissible_upto(*graph, k + 1)[j] == prev[j]);
                    }
                } else {
                    assert(admissible_upto(*graph, k + 1) == prev);
                }
            }
        }
        k = k + 1;
    }
    r
}

pub open spec fn pow2(n: nat) -> nat
    decreases n,
{
    if n == 0 {
        1
    } else {
        2 * pow2((n - 1) as nat)
    }
}

proof fn lemma_pow2_shift(n: u32)
    requires
        n < 32,
    ensures
        (1u32 << n) == pow2(n as nat),
    decreases n,
{
    if n == 0 {
        assert((1u32 << 0u32) == 1u32) by (bit_vector);
    } else {
        lemma_pow2_shift((n - 1) as u32);
        let m = (n - 1) as u32;
        assert((1u32 << n) == 2 * (1u32 << m)) by (bit_vector)
            requires
                n < 32,
                m == n - 1,
        ;
    }
}

proof fn lemma_block_bit(k: u32, d: u32)
    requires
        d < 32,
    ensures
        (k & (1u32 << d) != 0) == block_bit(k, d as int),
{
    assert((k & (1u32 << d) != 0u32) == ((k >> d) & 1u32 == 1u32)) by (bit_vector)
        requires
            d < 32,
    ;
}

} // verus!

verus! {

/// `k` distinct positions below `n`.
pub open spec fn distinct_positions(pos: Seq<int>, n: int, k: int) -> bool {
    pos.len() == k && pos.no_duplicates() && forall|i: int| 0 <= i < k ==> 0 <= #[trigger] pos[i] < n
}

/// The elements of `s` at the positions `pos`, in that order.
pub open spec fn picks(s: Seq<Order>, pos: Seq<int>) -> Seq<Order> {
    Seq::new(pos.len(), |i: int| s[pos[i]])
}

/// Relies on itertools' `permutations`: it lists the elements at every choice of `k`
/// distinct positions, in every order, each choice once; so each listed sequence is
/// such a choice, every such choice is listed, and no two listings take the same
/// positions (which makes them differ where the elements do).
#[verifier::external_body]
fn order_permutations(orders: &Vec<Order>, k: usize) -> (r: Vec<Vec<Order>>)
    ensures
        forall|j: int|
            0 <= j < r@.len() ==> exists|pos: Seq<int>|
                distinct_positions(pos, orders@.len() as int, k as int) && (#[trigger] r@[j])@
                    == picks(orders@, pos),
        forall|pos: Seq<int>|
            #[trigger] distinct_positions(pos, orders@.len() as int, k as int) ==> exists|j: int|
                0 <= j < r@.len() && r@[j]@ == picks(orders@, pos),
        forall|j: int|
            0 <= j < r@.len() ==> (#[trigger] r@[j])@.len() == k && forall|m: int|
                0 <= m < k ==> orders@.contains(r@[j]@[m]),
        forall|j: int| 0 <= j < r@.len() && orders@.no_duplicates() ==> (#[trigger] r@[j])@.no_duplicates(),
        orders@.no_duplicates() ==> forall|j1: int, j2: int|
            0 <= j1 < r@.len() && 0 <= j2 < r@.len() && j1 != j2 ==> (#[trigger] r@[j1])@ != (#[trigger] r@[j2])@,
{
    orders.iter().copied().permutations(k).collect()
}

/// The labels already on the real edges at `node`, and the neighbours across real edges
/// that still have none.
fn unassigned_order_and_neighbors(
    node: Point,
    graph: &SearchGraph,
    base_pattern: &Vec<Option<Order>>,
) -> (r: (Vec<Order>, Vec<Point>))
    requires
        graph.wf(),
        in_grid(graph.width_spec(), graph.height_spec(), node),
        in_primal_spec(node.0 as int, node.1 as int, graph.origin_spec()),
        base_pattern@.len() == graph.n_edges(),
    ensures
        forall|o: Order|
            r.0@.contains(o) <==> !exists|q: Point|
                real_neighbor(*graph, node, q) && base_pattern@[edge_index_spec(graph.width_spec(), node, q)]
                    == Some(o),
        r.0@.no_duplicates(),
        forall|j: int|
            0 <= j < r.1@.len() ==> real_neighbor(*graph, node, #[trigger] r.1@[j])
                && base_pattern@[edge_index_spec(graph.width_spec(), node, r.1@[j])] is None,
        r.1@.no_duplicates(),
        forall|q: Point|
            real_neighbor(*graph, node, q) && base_pattern@[edge_index_spec(graph.width_spec(), node, q)] is None
                ==> r.1@.contains(q),
{
    let ghost w = graph.width_spec();
    let ghost h = graph.height_spec();
    let all = diagonal_neighbors(graph.config.width, graph.config.height, node);
    let mut assigned: Vec<Order> = Vec::new();
    let mut unassigned: Vec<Point> = Vec::new();
    let mut t: usize = 0;
    while t < all.len()
        invariant
            graph.wf(),
            w == graph.width_spec(),
            h == graph.height_spec(),
            in_grid(w, h, node),
            in_primal_spec(node.0 as int, node.1 as int, graph.origin_spec()),
            base_pattern@.len() == graph.n_edges(),
            t <= all@.len(),
            forall|j: int| 0 <= j < all@.len() ==> in_grid(w, h, all@[j]) && diagonal(node, all@[j]),
            forall|q: Point| in_grid(w, h, q) && diagonal(node, q) ==> all@.contains(q),
            all@.no_duplicates(),
            forall|o: Order|
                assigned@.contains(o) <==> exists|j: int|
                    0 <= j < t && real_neighbor(*graph, node, all@[j]) && base_pattern@[edge_index_spec(
                        w,
                        node,
                        all@[j],
                    )] == Some(o),
            forall|j: int|
                0 <= j < unassigned@.len() ==> real_neighbor(*graph, node, #[trigger] unassigned@[j])
                    && base_pattern@[edge_index_spec(w, node, unassigned@[j])] is None,
            forall|j: int|
                0 <= j < unassigned@.len() ==> exists|m: int| 0 <= m < t && all@[m] == #[trigger] unassigned@[j],
            unassigned@.no_duplicates(),
            forall|m: int|
                0 <= m < t && real_neighbor(*graph, node, #[trigger] all@[m]) && base_pattern@[edge_index_spec(w, node, all@[m])] is None
                    ==> unassigned@.contains(all@[m]),
        decreases all@.len() - t,
    {
        let q = all[t];
        proof {
            lemma_diagonal_index(w, h, node, q);
        }
        let i = graph.edge_index(node, q);
        let ghost old_assigned = assigned@;
        let ghost old_unassigned = unassigned@;
        if graph.real_edges[i] {
            match base_pattern[i] {
                Some(o) => {
                    assigned.push(o);
                },
                None => {
                    unassigned.push(q);
                },
            }
        }
        proof {
            assert forall|o: Order|
                assigned@.contains(o) <==> exists|j: int|
                    0 <= j < t + 1 && real_neighbor(*graph, node, all@[j]) && base_pattern@[edge_index_spec(
                        w,
                        node,
                        all@[j],
                    )] == Some(o) by {
                if assigned@.contains(o) {
                    let k = choose|k: int| 0 <= k < assigned@.len() && assigned@[k] == o;
                    if k < old_assigned.len() {
                        assert(old_assigned[k] == o);
                        assert(old_assigned.contains(o));
                    } else {
                        assert(0 <= t < t + 1 && real_neighbor(*graph, node, all@[t as int]));
                    }
                }
                if exists|j: int|
                    0 <= j < t + 1 && real_neighbor(*graph, node, all@[j]) && base_pattern@[edge_index_spec(
                        w,
                        node,
                        all@[j],
                    )] == Some(o) {
                    let j = choose|j: int|
                        0 <= j < t + 1 && real_neighbor(*graph, node, all@[j]) && base_pattern@[edge_index_spec(
                            w,
                            node,
                            all@[j],
                        )] == Some(o);
                    if j < t {
                        assert(old_assigned.contains(o));
                        let k = choose|k: int| 0 <= k < old_assigned.len() && old_assigned[k] == o;
                        assert(assigned@[k] == o);
                    } else {
                        assert(assigned@[assigned@.len() - 1] == o);
                    }
                }
            }
            assert forall|m: int|
                0 <= m < t + 1 && real_neighbor(*graph, node, #[trigger] all@[m]) && base_pattern@[edge_index_spec(w, node, all@[m])] is None
                    implies unassigned@.contains(all@[m]) by {
                if m < t {
                    assert(old_unassigned.contains(all@[m]));
                    let j = choose|j: int| 0 <= j < old_unassigned.len() && old_unassigned[j] == all@[m];
                    assert(unassigned@[j] == all@[m]);
                } else {
                    assert(unassigned@[unassigned@.len() - 1] == all@[m]);
                }
            }
            assert forall|j: int|
                0 <= j < unassigned@.len() implies exists|m: int| 0 <= m < t + 1 && all@[m] == #[trigger] unassigned@[j] by {
                if j < old_unassigned.len() {
                    assert(old_unassigned[j] == unassigned@[j]);
                } else {
                    assert(all@[t as int] == unassigned@[j]);
                }
            }
            assert forall|a: int, b: int|
                0 <= a < unassigned@.len() && 0 <= b < unassigned@.len() && a != b implies unassigned@[a] != unassigned@[b] by {
                if a < old_unassigned.len() && b < old_unassigned.len() {
                    assert(old_unassigned[a] == unassigned@[a]);
                    assert(old_unassigned[b] == unassigned@[b]);
                } else if a < old_unassigned.len() {
                    assert(old_unassigned[a] == unassigned@[a]);
                    let m = choose|m: int| 0 <= m < t && all@[m] == old_unassigned[a];
                } else if b < old_unassigned.len() {
                    assert(old_unassigned[b] == unassigned@[b]);
                    let m = choose|m: int| 0 <= m < t && all@[m] == old_unassigned[b];
                }
            }
        }
        t = t + 1;
    }
    let mut free: Vec<Order> = Vec::new();
    let possibles = Order::all_possibles();
    let mut k: usize = 0;
    while k < 4
        invariant
            possibles@ == seq![Order::A, Order::B, Order::C, Order::D],
            k <= 4,
            forall|o: Order| free@.contains(o) <==> (exists|m: int| 0 <= m < k && possibles@[m] == o) && !assigned@.contains(o),
            free@.no_duplicates(),
            forall|j: int| 0 <= j < free@.len() ==> exists|m: int| 0 <= m < k && possibles@[m] == #[trigger] free@[j],
        decreases 4 - k,
    {
        let o = possibles[k];
        let ghost old_free = free@;
        if !contains_order(&assigned, o) {
            free.push(o);
        }
        proof {
            assert forall|o2: Order| free@.contains(o2) <==> (exists|m: int| 0 <= m < k + 1 && possibles@[m] == o2) && !assigned@.contains(o2) by {
                if free@.contains(o2) {
                    let j = choose|j: int| 0 <= j < free@.len() && free@[j] == o2;
                    if j < old_free.len() {
                        assert(old_free[j] == o2);
                        assert(old_free.contains(o2));
                    }
                }
                if (exists|m: int| 0 <= m < k + 1 && possibles@[m] == o2) && !assigned@.contains(o2) {
                    let m = choose|m: int| 0 <= m < k + 1 && possibles@[m] == o2;
                    if m < k {
                        assert(old_free.contains(o2));
                        let j = choose|j: int| 0 <= j < old_free.len() && old_free[j] == o2;
                        assert(free@[j] == o2);
                    } else {
                        assert(free@[free@.len() - 1] == o2);
                    }
                }
            }
            assert forall|j: int| 0 <= j < free@.len() implies exists|m: int| 0 <= m < k + 1 && possibles@[m] == #[trigger] free@[j] by {
                if j < old_free.len() {
                    assert(old_free[j] == free@[j]);
                }
            }
            assert forall|a: int, b: int| 0 <= a < free@.len() && 0 <= b < free@.len() && a != b implies free@[a] != free@[b] by {
                if a < old_free.len() && b < old_free.len() {
                    assert(old_free[a] == free@[a]);
                    assert(old_free[b] == free@[b]);
                } else if a < old_free.len() {
                    assert(old_free[a] == free@[a]);
                    let m = choose|m: int| 0 <= m < k && possibles@[m] == old_free[a];
                } else if b < old_free.len() {
                    assert(old_free[b] == free@[b]);
                    let m = choose|m: int| 0 <= m < k && possibles@[m] == old_free[b];
                }
            }
        }
        k = k + 1;
    }
    proof {
        assert forall|q: Point|
            real_neighbor(*graph, node, q) && base_pattern@[edge_index_spec(w, node, q)] is None implies unassigned@.contains(q) by {
            assert(all@.contains(q));
            let m = choose|m: int| 0 <= m < all@.len() && all@[m] == q;
        }
        assert forall|o: Order|
            free@.contains(o) <==> !exists|q: Point|
                real_neighbor(*graph, node, q) && base_pattern@[edge_index_spec(w, node, q)] == Some(o) by {
            assert(possibles@[order_rank(o) as int] == o);
            if exists|q: Point| real_neighbor(*graph, node, q) && base_pattern@[edge_index_spec(w, node, q)] == Some(o) {
                let q = choose|q: Point| real_neighbor(*graph, node, q) && base_pattern@[edge_index_spec(w, node, q)] == Some(o);
                assert(all@.contains(q));
                let j = choose|j: int| 0 <= j < all@.len() && all@[j] == q;
                assert(assigned@.contains(o));
            }
        }
    }
    (free, unassigned)
}

fn contains_order(v: &Vec<Order>, o: Order) -> (r: bool)
    ensures
        r == v@.contains(o),
{
    let mut j: usize = 0;
    while j < v.len()
        invariant
            j <= v@.len(),
            forall|k: int| 0 <= k < j ==> v@[k] != o,
        decreases v@.len() - j,
    {
        if v[j] == o {
            return true;
        }
        j = j + 1;
    }
    false
}

/// `q` is joined to `node` by a real coupler.
pub open spec fn real_neighbor(g: SearchGraph, node: Point, q: Point) -> bool {
    in_grid(g.width_spec(), g.height_spec(), q) && diagonal(node, q) && g.real_edges@[edge_index_spec(
        g.width_spec(),
        node,
        q,
    )]
}

} // verus!

verus! {

/// A pattern labels only real edges.
pub open spec fn labels_real_only(g: SearchGraph, pat: Seq<Option<Order>>) -> bool {
    forall|i: int| 0 <= i < pat.len() && (#[trigger] pat[i]) is Some ==> g.real_edges@[i]
}

/// Every real edge at each of the given qubits has a label.
pub open spec fn labelled_at(g: SearchGraph, pat: Seq<Option<Order>>, qs: Seq<Point>) -> bool {
    forall|m: int, q: Point|
        0 <= m < qs.len() && #[trigger] real_neighbor(g, qs[m], q) ==> pat[edge_index_spec(
            g.width_spec(),
            qs[m],
            q,
        )] is Some
}

/// Distinct real edges at one qubit carry distinct labels wherever both have one.
pub open spec fn consistent(g: SearchGraph, pat: Seq<Option<Order>>) -> bool {
    forall|v: Point, q1: Point, q2: Point|
        in_grid(g.width_spec(), g.height_spec(), v) && in_primal_spec(v.0 as int, v.1 as int, g.origin_spec())
            && real_neighbor(g, v, q1) && real_neighbor(g, v, q2) && q1 != q2
            && (#[trigger] pat[edge_index_spec(g.width_spec(), v, q1)]) is Some
            && (#[trigger] pat[edge_index_spec(g.width_spec(), v, q2)]) is Some
            ==> pat[edge_index_spec(g.width_spec(), v, q1)] != pat[edge_index_spec(g.width_spec(), v, q2)]
}

/// No real edge at `node` carries label `o`.
pub open spec fn label_free_at(g: SearchGraph, pat: Seq<Option<Order>>, node: Point, o: Order) -> bool {
    !exists|q: Point| real_neighbor(g, node, q) && pat[edge_index_spec(g.width_spec(), node, q)] == Some(o)
}

/// Two primal edges with one index are one edge.
proof fn lemma_same_index_same_edge(g: SearchGraph, a: Point, b: Point, c: Point, d: Point)
    requires
        g.wf(),
        primal_edge(g.width_spec(), g.height_spec(), g.origin_spec(), (a, b)),
        primal_edge(g.width_spec(), g.height_spec(), g.origin_spec(), (c, d)),
        edge_index_spec(g.width_spec(), a, b) == edge_index_spec(g.width_spec(), c, d),
    ensures
        (a == c && b == d) || (a == d && b == c),
{
    lemma_edge_index_inverse(g.width_spec(), g.height_spec(), g.origin_spec(), (a, b));
    lemma_edge_index_inverse(g.width_spec(), g.height_spec(), g.origin_spec(), (c, d));
}

/// Labelling the `m`-th free edge at `v` keeps the labelling consistent.
proof fn lemma_assign_step(
    g: SearchGraph,
    base: Seq<Option<Order>>,
    p: Seq<Option<Order>>,
    v: Point,
    nbs: Seq<Point>,
    order: Seq<Order>,
    m: int,
)
    requires
        g.wf(),
        in_grid(g.width_spec(), g.height_spec(), v),
        in_primal_spec(v.0 as int, v.1 as int, g.origin_spec()),
        p.len() == g.n_edges(),
        base.len() == g.n_edges(),
        0 <= m < nbs.len(),
        order.len() == nbs.len(),
        order.no_duplicates(),
        nbs.no_duplicates(),
        forall|j: int| 0 <= j < nbs.len() ==> real_neighbor(g, v, #[trigger] nbs[j]),
        forall|j: int| 0 <= j < nbs.len() ==> label_free_at(g, base, v, #[trigger] order[j]),
        forall|j: int| 0 <= j < nbs.len() ==> #[trigger] label_free_at(g, base, nbs[j], order[j]),
        consistent(g, p),
        forall|i: int|
            0 <= i < p.len() && p[i] != base[i] ==> exists|j: int|
                0 <= j < m && i == edge_index_spec(g.width_spec(), v, #[trigger] nbs[j]) && p[i] == Some(order[j]),
    ensures
        consistent(g, p.update(edge_index_spec(g.width_spec(), v, nbs[m]), Some(order[m]))),
{
    let w = g.width_spec();
    let h = g.height_spec();
    let istar = edge_index_spec(w, v, nbs[m]);
    let p2 = p.update(istar, Some(order[m]));
    lemma_diagonal_index(w, h, v, nbs[m]);
    assert forall|v2: Point, q1: Point, q2: Point|
        in_grid(w, h, v2) && in_primal_spec(v2.0 as int, v2.1 as int, g.origin_spec())
            && real_neighbor(g, v2, q1) && real_neighbor(g, v2, q2) && q1 != q2
            && (#[trigger] p2[edge_index_spec(w, v2, q1)]) is Some
            && (#[trigger] p2[edge_index_spec(w, v2, q2)]) is Some
        implies p2[edge_index_spec(w, v2, q1)] != p2[edge_index_spec(w, v2, q2)] by {
        let i1 = edge_index_spec(w, v2, q1);
        let i2 = edge_index_spec(w, v2, q2);
        lemma_diagonal_index(w, h, v2, q1);
        lemma_diagonal_index(w, h, v2, q2);
        if i1 == i2 {
            lemma_same_index_same_edge(g, v2, q1, v2, q2);
        }
        if i1 == istar {
            lemma_new_label_differs(g, base, p, v, nbs, order, m, v2, q1, q2);
        } else if i2 == istar {
            lemma_new_label_differs(g, base, p, v, nbs, order, m, v2, q2, q1);
        }
    }
}

proof fn lemma_new_label_differs(
    g: SearchGraph,
    base: Seq<Option<Order>>,
    p: Seq<Option<Order>>,
    v: Point,
    nbs: Seq<Point>,
    order: Seq<Order>,
    m: int,
    v2: Point,
    q1: Point,
    q2: Point,
)
    requires
        g.wf(),
        in_grid(g.width_spec(), g.height_spec(), v),
        in_primal_spec(v.0 as int, v.1 as int, g.origin_spec()),
        in_grid(g.width_spec(), g.height_spec(), v2),
        in_primal_spec(v2.0 as int, v2.1 as int, g.origin_spec()),
        p.len() == g.n_edges(),
        base.len() == g.n_edges(),
        0 <= m < nbs.len(),
        order.len() == nbs.len(),
        order.no_duplicates(),
        nbs.no_duplicates(),
        forall|j: int| 0 <= j < nbs.len() ==> real_neighbor(g, v, #[trigger] nbs[j]),
        forall|j: int| 0 <= j < nbs.len() ==> label_free_at(g, base, v, #[trigger] order[j]),
        forall|j: int| 0 <= j < nbs.len() ==> #[trigger] label_free_at(g, base, nbs[j], order[j]),
        forall|i: int|
            0 <= i < p.len() && p[i] != base[i] ==> exists|j: int|
                0 <= j < m && i == edge_index_spec(g.width_spec(), v, #[trigger] nbs[j]) && p[i] == Some(order[j]),
        real_neighbor(g, v2, q1),
        real_neighbor(g, v2, q2),
        q1 != q2,
        edge_index_spec(g.width_spec(), v2, q1) == edge_index_spec(g.width_spec(), v, nbs[m]),
        edge_index_spec(g.width_spec(), v2, q2) != edge_index_spec(g.width_spec(), v, nbs[m]),
    ensures
        p[edge_index_spec(g.width_spec(), v2, q2)] != Some(order[m]),
{
    let w = g.width_spec();
    let h = g.height_spec();
    let i2 = edge_index_spec(w, v2, q2);
    lemma_diagonal_index(w, h, v2, q2);
    assert(real_neighbor(g, v, nbs[m]));
    lemma_same_index_same_edge(g, v2, q1, v, nbs[m]);
    if p[i2] != base[i2] {
        let j = choose|j: int| 0 <= j < m && i2 == edge_index_spec(w, v, #[trigger] nbs[j]) && p[i2] == Some(order[j]);
        assert(real_neighbor(g, v, nbs[j]));
        lemma_same_index_same_edge(g, v2, q2, v, nbs[j]);
        if v2 == v {
            assert(order[j] != order[m]);
        } else {
            assert(nbs[j] != nbs[m]);
        }
    } else {
        if v2 == v {
            assert(label_free_at(g, base, v, order[m]));
        } else {
            assert(v2 == nbs[m]);
            assert(label_free_at(g, base, nbs[m], order[m]));
        }
    }
}

/// The qubits of the lattice in row-major order.
fn qubit_points(graph: &SearchGraph) -> (r: Vec<Point>)
    requires
        graph.wf(),
    ensures
        forall|j: int|
            0 <= j < r@.len() ==> in_grid(graph.width_spec(), graph.height_spec(), #[trigger] r@[j])
                && in_primal_spec(r@[j].0 as int, r@[j].1 as int, graph.origin_spec()),
        forall|p: Point|
            in_grid(graph.width_spec(), graph.height_spec(), p) && in_primal_spec(
                p.0 as int,
                p.1 as int,
                graph.origin_spec(),
            ) ==> r@.contains(p),
{
    let ghost w = graph.width_spec();
    let ghost h = graph.height_spec();
    let mut r: Vec<Point> = Vec::new();
    let mut y: u32 = 0;
    while y < graph.config.height
        invariant
            graph.wf(),
            w == graph.width_spec(),
            h == graph.height_spec(),
            y <= h,
            forall|j: int|
                0 <= j < r@.len() ==> in_grid(w, h, #[trigger] r@[j]) && in_primal_spec(
                    r@[j].0 as int,
                    r@[j].1 as int,
                    graph.origin_spec(),
                ),
            forall|p: Point|
                in_grid(w, h, p) && p.1 < y && in_primal_spec(p.0 as int, p.1 as int, graph.origin_spec())
                    ==> r@.contains(p),
        decreases h - y,
    {
        let mut x: u32 = 0;
        while x < graph.config.width
            invariant
                graph.wf(),
                w == graph.width_spec(),
                h == graph.height_spec(),
                y < h,
                x <= w,
                forall|j: int|
                    0 <= j < r@.len() ==> in_grid(w, h, #[trigger] r@[j]) && in_primal_spec(
                        r@[j].0 as int,
                        r@[j].1 as int,
                        graph.origin_spec(),
                    ),
                forall|p: Point|
                    in_grid(w, h, p) && (p.1 < y || (p.1 == y && p.0 < x)) && in_primal_spec(
                        p.0 as int,
                        p.1 as int,
                        graph.origin_spec(),
                    ) ==> r@.contains(p),
            decreases w - x,
        {
            let ghost old_r = r@;
            if in_primal(x as i32, y as i32, graph.config.qubit_at_origin) {
                r.push((x as i32, y as i32));
            }
            proof {
                assert forall|p: Point|
                    in_grid(w, h, p) && (p.1 < y || (p.1 == y && p.0 < x + 1)) && in_primal_spec(
                        p.0 as int,
                        p.1 as int,
                        graph.origin_spec(),
                    ) implies r@.contains(p) by {
                    if p == (x as i32, y as i32) {
                        assert(r@[r@.len() - 1] == p);
                    } else {
                        assert(old_r.contains(p));
                        let j = choose|j: int| 0 <= j < old_r.len() && old_r[j] == p;
                        assert(r@[j] == p);
                    }
                }
            }
            x = x + 1;
        }
        y = y + 1;
    }
    r
}

fn copy_pattern(p: &Vec<Option<Order>>) -> (r: Vec<Option<Order>>)
    ensures
        r@ == p@,
{
    let mut r: Vec<Option<Order>> = Vec::new();
    let mut j: usize = 0;
    while j < p.len()
        invariant
            j <= p@.len(),
            r@ == p@.subrange(0, j as int),
        decreases p@.len() - j,
    {
        r.push(p[j]);
        j = j + 1;
    }
    assert(r@ =~= p@);
    r
}

/// A labelling of every real edge, distinct at each qubit, and of nothing else.
pub open spec fn full_labelling(g: SearchGraph, v: Seq<Option<Order>>) -> bool {
    &&& v.len() == g.n_edges()
    &&& labels_real_only(g, v)
    &&& forall|i: int| 0 <= i < g.n_edges() && g.real_edges@[i] ==> (#[trigger] v[i]) is Some
    &&& consistent(g, v)
}

/// `v` keeps every label that `base` has.
pub open spec fn extends(v: Seq<Option<Order>>, base: Seq<Option<Order>>) -> bool {
    v.len() == base.len() && forall|i: int| 0 <= i < base.len() && (#[trigger] base[i]) is Some ==> v[i] == base[i]
}

/// `v` is one of the listed patterns.
pub open spec fn found_in(ps: Seq<Vec<Option<Order>>>, v: Seq<Option<Order>>) -> bool {
    exists|j: int| 0 <= j < ps.len() && #[trigger] ps[j]@ == v
}

/// The labels that `v` puts on the edges from `node` to `nbs`.
pub open spec fn target_of(g: SearchGraph, v: Seq<Option<Order>>, node: Point, nbs: Seq<Point>) -> Seq<Order> {
    Seq::new(nbs.len(), |j: int| v[edge_index_spec(g.width_spec(), node, nbs[j])]->Some_0)
}

/// The labels of a full labelling on the free edges at `node` are free at both ends.
proof fn lemma_target_free(
    g: SearchGraph,
    base: Seq<Option<Order>>,
    v: Seq<Option<Order>>,
    node: Point,
    nbs: Seq<Point>,
    j: int,
)
    requires
        g.wf(),
        in_grid(g.width_spec(), g.height_spec(), node),
        in_primal_spec(node.0 as int, node.1 as int, g.origin_spec()),
        full_labelling(g, v),
        extends(v, base),
        base.len() == g.n_edges(),
        forall|j2: int|
            0 <= j2 < nbs.len() ==> real_neighbor(g, node, #[trigger] nbs[j2]) && base[edge_index_spec(
                g.width_spec(),
                node,
                nbs[j2],
            )] is None,
        0 <= j < nbs.len(),
    ensures
        label_free_at(g, base, nbs[j], target_of(g, v, node, nbs)[j]),
        label_free_at(g, base, node, target_of(g, v, node, nbs)[j]),
        v[edge_index_spec(g.width_spec(), node, nbs[j])] == Some(target_of(g, v, node, nbs)[j]),
{
    let w = g.width_spec();
    let h = g.height_spec();
    let nb = nbs[j];
    assert(real_neighbor(g, node, nb));
    lemma_diagonal_index(w, h, node, nb);
    let i0 = edge_index_spec(w, node, nb);
    assert(v[i0] is Some);
    let o = v[i0]->Some_0;
    assert(target_of(g, v, node, nbs)[j] == o);
    if exists|q: Point| real_neighbor(g, nb, q) && base[edge_index_spec(w, nb, q)] == Some(o) {
        let q = choose|q: Point| real_neighbor(g, nb, q) && base[edge_index_spec(w, nb, q)] == Some(o);
        lemma_diagonal_index(w, h, nb, q);
        assert(v[edge_index_spec(w, nb, q)] == Some(o));
        if q == node {
            assert(false);
        } else {
            assert(real_neighbor(g, nb, node));
            assert(v[edge_index_spec(w, nb, node)] == Some(o));
            assert(false);
        }
    }
    if exists|q: Point| real_neighbor(g, node, q) && base[edge_index_spec(w, node, q)] == Some(o) {
        let q = choose|q: Point| real_neighbor(g, node, q) && base[edge_index_spec(w, node, q)] == Some(o);
        lemma_diagonal_index(w, h, node, q);
        assert(v[edge_index_spec(w, node, q)] == Some(o));
        assert(q != nb);
        assert(false);
    }
}

/// The labels of a full labelling on the free edges at `node` are the elements of the
/// free labels at some distinct positions.
proof fn lemma_target_positions(
    g: SearchGraph,
    base: Seq<Option<Order>>,
    v: Seq<Option<Order>>,
    node: Point,
    nbs: Seq<Point>,
    free: Seq<Order>,
) -> (pos: Seq<int>)
    requires
        g.wf(),
        in_grid(g.width_spec(), g.height_spec(), node),
        in_primal_spec(node.0 as int, node.1 as int, g.origin_spec()),
        full_labelling(g, v),
        extends(v, base),
        base.len() == g.n_edges(),
        nbs.no_duplicates(),
        forall|j2: int|
            0 <= j2 < nbs.len() ==> real_neighbor(g, node, #[trigger] nbs[j2]) && base[edge_index_spec(
                g.width_spec(),
                node,
                nbs[j2],
            )] is None,
        forall|o: Order| free.contains(o) <==> label_free_at(g, base, node, o),
    ensures
        distinct_positions(pos, free.len() as int, nbs.len() as int),
        picks(free, pos) == target_of(g, v, node, nbs),
{
    let t = target_of(g, v, node, nbs);
    assert forall|j: int| 0 <= j < nbs.len() implies free.contains(#[trigger] t[j]) by {
        lemma_target_free(g, base, v, node, nbs, j);
    }
    let pos = Seq::new(nbs.len(), |j: int| choose|i: int| 0 <= i < free.len() && free[i] == t[j]);
    assert forall|j: int| 0 <= j < nbs.len() implies 0 <= #[trigger] pos[j] < free.len() && free[pos[j]] == t[j] by {
        assert(free.contains(t[j]));
    }
    assert forall|a: int, b: int| 0 <= a < pos.len() && 0 <= b < pos.len() && a != b implies pos[a] != pos[b] by {
        assert(free[pos[a]] == t[a]);
        assert(free[pos[b]] == t[b]);
        lemma_target_free(g, base, v, node, nbs, a);
        lemma_target_free(g, base, v, node, nbs, b);
        lemma_diagonal_index(g.width_spec(), g.height_spec(), node, nbs[a]);
        assert(nbs[a] != nbs[b]);
        assert(real_neighbor(g, node, nbs[a]));
        assert(real_neighbor(g, node, nbs[b]));
    }
    assert(picks(free, pos) =~= t);
    pos
}

/// `pat` puts the labels `order` on the edges from `node` to `nbs`.
pub open spec fn shows(g: SearchGraph, pat: Seq<Option<Order>>, node: Point, nbs: Seq<Point>, order: Seq<Order>) -> bool {
    forall|j: int| 0 <= j < nbs.len() ==> pat[edge_index_spec(g.width_spec(), node, #[trigger] nbs[j])] == Some(order[j])
}

/// Patterns that show different label sequences on the same edges differ.
proof fn lemma_shows_differ(
    g: SearchGraph,
    p1: Seq<Option<Order>>,
    p2: Seq<Option<Order>>,
    node: Point,
    nbs: Seq<Point>,
    o1: Seq<Order>,
    o2: Seq<Order>,
)
    requires
        o1.len() == nbs.len(),
        o2.len() == nbs.len(),
        o1 != o2,
        shows(g, p1, node, nbs, o1),
        shows(g, p2, node, nbs, o2),
    ensures
        p1 != p2,
{
    if p1 == p2 {
        assert forall|j: int| 0 <= j < nbs.len() implies o1[j] == o2[j] by {
            assert(p1[edge_index_spec(g.width_spec(), node, nbs[j])] == Some(o1[j]));
            assert(p2[edge_index_spec(g.width_spec(), node, nbs[j])] == Some(o2[j]));
        }
        assert(o1 =~= o2);
    }
}

/// Where every real edge at every qubit has a label, every real edge has one.
proof fn lemma_labelled_everywhere(g: SearchGraph, qubits: Seq<Point>, base: Seq<Option<Order>>)
    requires
        g.wf(),
        forall|p: Point|
            in_grid(g.width_spec(), g.height_spec(), p) && in_primal_spec(p.0 as int, p.1 as int, g.origin_spec())
                ==> qubits.contains(p),
        labelled_at(g, base, qubits),
    ensures
        forall|i: int| 0 <= i < g.n_edges() && g.real_edges@[i] ==> (#[trigger] base[i]) is Some,
{
    assert forall|i: int| 0 <= i < g.n_edges() && g.real_edges@[i] implies (#[trigger] base[i]) is Some by {
        let e = edge_at(g.width_spec(), g.origin_spec(), i);
        lemma_edge_at_index(g.width_spec(), g.height_spec(), g.origin_spec(), i);
        assert(qubits.contains(e.0));
        let m = choose|m: int| 0 <= m < qubits.len() && qubits[m] == e.0;
        assert(real_neighbor(g, qubits[m], e.1));
    }
}

fn search_vec_patterns_rec(
    graph: &SearchGraph,
    qubits: &Vec<Point>,
    base_pattern: Vec<Option<Order>>,
    k: usize,
    patterns: &mut Vec<Vec<Option<Order>>>,
)
    requires
        graph.wf(),
        k <= qubits@.len(),
        forall|j: int|
            0 <= j < qubits@.len() ==> in_grid(graph.width_spec(), graph.height_spec(), #[trigger] qubits@[j])
                && in_primal_spec(qubits@[j].0 as int, qubits@[j].1 as int, graph.origin_spec()),
        base_pattern@.len() == graph.n_edges(),
        labels_real_only(*graph, base_pattern@),
        labelled_at(*graph, base_pattern@, qubits@.subrange(0, k as int)),
        consistent(*graph, base_pattern@),
        forall|p: Point|
            in_grid(graph.width_spec(), graph.height_spec(), p) && in_primal_spec(p.0 as int, p.1 as int, graph.origin_spec())
                ==> qubits@.contains(p),
        forall|j: int|
            0 <= j < old(patterns)@.len() ==> (#[trigger] old(patterns)@[j])@.len() == graph.n_edges()
                && labels_real_only(*graph, old(patterns)@[j]@) && labelled_at(*graph, old(patterns)@[j]@, qubits@)
                && consistent(*graph, old(patterns)@[j]@),
    ensures
        forall|j: int|
            0 <= j < final(patterns)@.len() ==> (#[trigger] final(patterns)@[j])@.len() == graph.n_edges()
                && labels_real_only(*graph, final(patterns)@[j]@) && labelled_at(*graph, final(patterns)@[j]@, qubits@)
                && consistent(*graph, final(patterns)@[j]@),
        final(patterns)@.len() >= old(patterns)@.len(),
        forall|j: int| 0 <= j < old(patterns)@.len() ==> final(patterns)@[j] == old(patterns)@[j],
        forall|v: Seq<Option<Order>>|
            #[trigger] full_labelling(*graph, v) && extends(v, base_pattern@) ==> found_in(final(patterns)@, v),
        forall|a: int| old(patterns)@.len() <= a < final(patterns)@.len() ==> extends(#[trigger] final(patterns)@[a]@, base_pattern@),
        forall|a: int, c: int|
            old(patterns)@.len() <= a < final(patterns)@.len() && old(patterns)@.len() <= c < final(patterns)@.len() && a != c
                ==> #[trigger] final(patterns)@[a]@ != #[trigger] final(patterns)@[c]@,
    decreases qubits@.len() - k,
{
    let ghost w = graph.width_spec();
    if k == qubits.len() {
        proof {
            assert(qubits@.subrange(0, k as int) =~= qubits@);
        }
        let ghost old_p = patterns@;
        patterns.push(base_pattern);
        proof {
            assert forall|j: int|
                0 <= j < patterns@.len() implies (#[trigger] patterns@[j])@.len() == graph.n_edges()
                    && labels_real_only(*graph, patterns@[j]@) && labelled_at(*graph, patterns@[j]@, qubits@)
                    && consistent(*graph, patterns@[j]@) by {
                if j < old_p.len() {
                    assert(patterns@[j] == old_p[j]);
                }
            }
            lemma_labelled_everywhere(*graph, qubits@, base_pattern@);
            assert forall|v: Seq<Option<Order>>|
                #[trigger] full_labelling(*graph, v) && extends(v, base_pattern@) implies found_in(patterns@, v) by {
                assert forall|i: int| 0 <= i < v.len() implies v[i] == base_pattern@[i] by {
                    if graph.real_edges@[i] {
                        assert(base_pattern@[i] is Some);
                    } else {
                        if v[i] is Some {
                            assert(graph.real_edges@[i]);
                        }
                        if base_pattern@[i] is Some {
                            assert(graph.real_edges@[i]);
                        }
                    }
                }
                assert(v =~= base_pattern@);
                assert(patterns@[patterns@.len() - 1]@ == v);
            }
            assert(extends(base_pattern@, base_pattern@));
        }
        return;
    }
    let next_node = qubits[k];
    let (order_unassigned, neighbors_unassigned) = unassigned_order_and_neighbors(
        next_node,
        graph,
        &base_pattern,
    );
    let n_unassigned = neighbors_unassigned.len();
    proof {
        assert forall|m: int, q: Point|
            0 <= m < k + 1 && #[trigger] real_neighbor(*graph, qubits@.subrange(0, k + 1)[m], q) implies base_pattern@[edge_index_spec(
                w,
                qubits@.subrange(0, k + 1)[m],
                q,
            )] is Some || (m == k && neighbors_unassigned@.contains(q)) by {
            if m < k {
                assert(qubits@.subrange(0, k + 1)[m] == qubits@.subrange(0, k as int)[m]);
            } else {

            }
        }
    }
    if n_unassigned == 0 {
        proof {
            assert forall|m: int, q: Point|
                0 <= m < k + 1 && #[trigger] real_neighbor(*graph, qubits@.subrange(0, k + 1)[m], q) implies base_pattern@[edge_index_spec(
                    w,
                    qubits@.subrange(0, k + 1)[m],
                    q,
                )] is Some by {
                if m == k && neighbors_unassigned@.contains(q) {
                    let j = choose|j: int| 0 <= j < neighbors_unassigned@.len() && neighbors_unassigned@[j] == q;
                }
            }
        }
        search_vec_patterns_rec(graph, qubits, base_pattern, k + 1, patterns);
        return;
    }
    let perms = order_permutations(&order_unassigned, n_unassigned);
    let ghost p0 = patterns@;
    proof {
        assert(order_unassigned@.no_duplicates());
    }
    let mut t: usize = 0;
    while t < perms.len()
        invariant
            graph.wf(),
            w == graph.width_spec(),
            k < qubits@.len(),
            k + 1 <= qubits.len(),
            next_node == qubits@[k as int],
            forall|j: int|
                0 <= j < qubits@.len() ==> in_grid(graph.width_spec(), graph.height_spec(), #[trigger] qubits@[j])
                    && in_primal_spec(qubits@[j].0 as int, qubits@[j].1 as int, graph.origin_spec()),
            base_pattern@.len() == graph.n_edges(),
            labels_real_only(*graph, base_pattern@),
            n_unassigned == neighbors_unassigned@.len(),
            forall|j: int|
                0 <= j < neighbors_unassigned@.len() ==> real_neighbor(*graph, next_node, #[trigger] neighbors_unassigned@[j])
                    && base_pattern@[edge_index_spec(w, next_node, neighbors_unassigned@[j])] is None,
            forall|m: int, q: Point|
                0 <= m < k + 1 && #[trigger] real_neighbor(*graph, qubits@.subrange(0, k + 1)[m], q) ==> base_pattern@[edge_index_spec(
                    w,
                    qubits@.subrange(0, k + 1)[m],
                    q,
                )] is Some || (m == k && neighbors_unassigned@.contains(q)),
            forall|j: int| 0 <= j < perms@.len() ==> (#[trigger] perms@[j])@.len() == n_unassigned,
            forall|j: int|
                0 <= j < perms@.len() ==> (#[trigger] perms@[j])@.len() == n_unassigned && forall|m: int|
                    0 <= m < n_unassigned ==> order_unassigned@.contains(perms@[j]@[m]),
            forall|j: int| 0 <= j < perms@.len() && order_unassigned@.no_duplicates() ==> (#[trigger] perms@[j])@.no_duplicates(),
            order_unassigned@.no_duplicates(),
            neighbors_unassigned@.no_duplicates(),
            forall|o: Order|
                order_unassigned@.contains(o) <==> !exists|q: Point|
                    real_neighbor(*graph, next_node, q) && base_pattern@[edge_index_spec(w, next_node, q)]
                        == Some(o),
            consistent(*graph, base_pattern@),
            forall|p: Point|
                in_grid(graph.width_spec(), graph.height_spec(), p) && in_primal_spec(p.0 as int, p.1 as int, graph.origin_spec())
                    ==> qubits@.contains(p),
            forall|pos: Seq<int>|
                #[trigger] distinct_positions(pos, order_unassigned@.len() as int, n_unassigned as int) ==> exists|j: int|
                    0 <= j < perms@.len() && perms@[j]@ == picks(order_unassigned@, pos),
            patterns@.len() >= p0.len(),
            forall|j: int| 0 <= j < p0.len() ==> patterns@[j] == p0[j],
            forall|v: Seq<Option<Order>>|
                #[trigger] full_labelling(*graph, v) && extends(v, base_pattern@) && (exists|t2: int|
                    0 <= t2 < t && perms@[t2]@ == target_of(*graph, v, next_node, neighbors_unassigned@))
                    ==> found_in(patterns@, v),
            forall|j1: int, j2: int|
                0 <= j1 < perms@.len() && 0 <= j2 < perms@.len() && j1 != j2 ==> (#[trigger] perms@[j1])@ != (#[trigger] perms@[j2])@,
            forall|a: int|
                p0.len() <= a < patterns@.len() ==> extends(#[trigger] patterns@[a]@, base_pattern@) && exists|t2: int|
                    0 <= t2 < t && shows(*graph, patterns@[a]@, next_node, neighbors_unassigned@, perms@[t2]@),
            forall|a: int, c: int|
                p0.len() <= a < patterns@.len() && p0.len() <= c < patterns@.len() && a != c
                    ==> #[trigger] patterns@[a]@ != #[trigger] patterns@[c]@,
            t <= perms@.len(),
            forall|j: int|
                0 <= j < patterns@.len() ==> (#[trigger] patterns@[j])@.len() == graph.n_edges()
                    && labels_real_only(*graph, patterns@[j]@) && labelled_at(*graph, patterns@[j]@, qubits@)
                    && consistent(*graph, patterns@[j]@),
        decreases perms@.len() - t,
    {
        let order = &perms[t];
        let ghost before_t = patterns@;
        let mut allowed = true;
        let mut j: usize = 0;
        while j < n_unassigned
            invariant
                graph.wf(),
                n_unassigned == neighbors_unassigned@.len(),
                order@.len() == n_unassigned,
                base_pattern@.len() == graph.n_edges(),
                forall|j2: int|
                    0 <= j2 < neighbors_unassigned@.len() ==> real_neighbor(*graph, next_node, #[trigger] neighbors_unassigned@[j2]),
                in_grid(graph.width_spec(), graph.height_spec(), next_node),
                in_primal_spec(next_node.0 as int, next_node.1 as int, graph.origin_spec()),
                j <= n_unassigned,
                allowed == forall|j2: int|
                    0 <= j2 < j ==> #[trigger] label_free_at(*graph, base_pattern@, neighbors_unassigned@[j2], order@[j2]),
            decreases n_unassigned - j,
        {
            let neighbor = neighbors_unassigned[j];
            let (neighbor_free, _) = unassigned_order_and_neighbors(neighbor, graph, &base_pattern);
            let ghost was = allowed;
            let free_here = contains_order(&neighbor_free, order[j]);
            proof {
                assert(free_here == label_free_at(*graph, base_pattern@, neighbors_unassigned@[j as int], order@[j as int]));
            }
            if !free_here {
                allowed = false;
            }
            proof {
                assert(allowed == (was && label_free_at(*graph, base_pattern@, neighbors_unassigned@[j as int], order@[j as int])));
                if !was {
                    let j3 = choose|j3: int| 0 <= j3 < j && !#[trigger] label_free_at(*graph, base_pattern@, neighbors_unassigned@[j3], order@[j3]);
                }
            }
            j = j + 1;
        }
        if allowed {
            let mut new_pattern = copy_pattern(&base_pattern);
            proof {
                assert(order_unassigned@.no_duplicates());
                assert(order@.no_duplicates());
                assert forall|j2: int| 0 <= j2 < n_unassigned implies label_free_at(*graph, base_pattern@, next_node, #[trigger] order@[j2]) by {
                    assert(order_unassigned@.contains(order@[j2]));
                }
            }
            let mut j: usize = 0;
            while j < n_unassigned
                invariant
                    graph.wf(),
                    w == graph.width_spec(),
                    n_unassigned == neighbors_unassigned@.len(),
                    order@.len() == n_unassigned,
                    new_pattern@.len() == graph.n_edges(),
                    labels_real_only(*graph, new_pattern@),
                    forall|i: int| 0 <= i < new_pattern@.len() && base_pattern@[i] is Some ==> #[trigger] new_pattern@[i] is Some,
                    forall|j2: int|
                        0 <= j2 < neighbors_unassigned@.len() ==> real_neighbor(*graph, next_node, #[trigger] neighbors_unassigned@[j2]),
                    forall|j2: int|
                        0 <= j2 < j ==> new_pattern@[edge_index_spec(w, next_node, #[trigger] neighbors_unassigned@[j2])] is Some,
                    in_grid(graph.width_spec(), graph.height_spec(), next_node),
                    in_primal_spec(next_node.0 as int, next_node.1 as int, graph.origin_spec()),
                    j <= n_unassigned,
                    base_pattern@.len() == graph.n_edges(),
                    order@.no_duplicates(),
                    neighbors_unassigned@.no_duplicates(),
                    forall|j2: int| 0 <= j2 < n_unassigned ==> label_free_at(*graph, base_pattern@, next_node, #[trigger] order@[j2]),
                    forall|j2: int| 0 <= j2 < n_unassigned ==> #[trigger] label_free_at(*graph, base_pattern@, neighbors_unassigned@[j2], order@[j2]),
                    consistent(*graph, new_pattern@),
                    forall|i: int|
                        0 <= i < new_pattern@.len() && new_pattern@[i] != base_pattern@[i] ==> exists|j2: int|
                            0 <= j2 < j && i == edge_index_spec(w, next_node, #[trigger] neighbors_unassigned@[j2])
                                && new_pattern@[i] == Some(order@[j2]),
                decreases n_unassigned - j,
            {
                let neighbor = neighbors_unassigned[j];
                proof {
                    lemma_diagonal_index(w, graph.height_spec(), next_node, neighbor);
                }
                let index = graph.edge_index(next_node, neighbor);
                proof {
                    lemma_assign_step(*graph, base_pattern@, new_pattern@, next_node, neighbors_unassigned@, order@, j as int);
                }
                let ghost before = new_pattern@;
                new_pattern.set(index, Some(order[j]));
                proof {
                    assert forall|i: int|
                        0 <= i < new_pattern@.len() && new_pattern@[i] != base_pattern@[i] implies exists|j2: int|
                            0 <= j2 < j + 1 && i == edge_index_spec(w, next_node, #[trigger] neighbors_unassigned@[j2])
                                && new_pattern@[i] == Some(order@[j2]) by {
                        if i == index {
                            assert(i == edge_index_spec(w, next_node, neighbors_unassigned@[j as int]));
                        } else {
                            assert(before[i] != base_pattern@[i]);
                        }
                    }
                    assert forall|j2: int|
                        0 <= j2 < j + 1 implies new_pattern@[edge_index_spec(w, next_node, #[trigger] neighbors_unassigned@[j2])] is Some by {
                        lemma_diagonal_index(w, graph.height_spec(), next_node, neighbors_unassigned@[j2]);
                    }
                }
                j = j + 1;
            }
            proof {
                assert forall|m: int, q: Point|
                    0 <= m < k + 1 && #[trigger] real_neighbor(*graph, qubits@.subrange(0, k + 1)[m], q) implies new_pattern@[edge_index_spec(
                        w,
                        qubits@.subrange(0, k + 1)[m],
                        q,
                    )] is Some by {
                    lemma_diagonal_index(w, graph.height_spec(), qubits@.subrange(0, k + 1)[m], q);
                    if m == k && neighbors_unassigned@.contains(q) {
                        let j2 = choose|j2: int| 0 <= j2 < neighbors_unassigned@.len() && neighbors_unassigned@[j2] == q;
                    }
                }
            }
            let ghost np = new_pattern@;
            proof {
                assert forall|j2: int| 0 <= j2 < n_unassigned implies np[edge_index_spec(w, next_node, #[trigger] neighbors_unassigned@[j2])] == Some(order@[j2]) by {
                    lemma_diagonal_index(w, graph.height_spec(), next_node, neighbors_unassigned@[j2]);
                    let i2 = edge_index_spec(w, next_node, neighbors_unassigned@[j2]);
                    assert(base_pattern@[i2] is None);
                    assert(np[i2] != base_pattern@[i2]);
                    let j3 = choose|j3: int|
                        0 <= j3 < n_unassigned && i2 == edge_index_spec(w, next_node, #[trigger] neighbors_unassigned@[j3])
                            && np[i2] == Some(order@[j3]);
                    if j3 != j2 {
                        lemma_same_index_same_edge(*graph, next_node, neighbors_unassigned@[j2], next_node, neighbors_unassigned@[j3]);
                    }
                }
                assert forall|i: int| 0 <= i < base_pattern@.len() && (#[trigger] base_pattern@[i]) is Some implies np[i] == base_pattern@[i] by {
                    if np[i] != base_pattern@[i] {
                        let j3 = choose|j3: int|
                            0 <= j3 < n_unassigned && i == edge_index_spec(w, next_node, #[trigger] neighbors_unassigned@[j3])
                                && np[i] == Some(order@[j3]);
                    }
                }
            }
            search_vec_patterns_rec(graph, qubits, new_pattern, k + 1, patterns);
            proof {
                assert forall|a: int|
                    p0.len() <= a < patterns@.len() implies extends(#[trigger] patterns@[a]@, base_pattern@) && exists|t2: int|
                        0 <= t2 < t + 1 && shows(*graph, patterns@[a]@, next_node, neighbors_unassigned@, perms@[t2]@) by {
                    if a < before_t.len() {
                        assert(patterns@[a] == before_t[a]);
                        let t2 = choose|t2: int| 0 <= t2 < t && shows(*graph, before_t[a]@, next_node, neighbors_unassigned@, perms@[t2]@);
                    } else {
                        let pa = patterns@[a]@;
                        assert(extends(pa, np));
                        assert(shows(*graph, pa, next_node, neighbors_unassigned@, perms@[t as int]@)) by {
                            assert forall|j2: int| 0 <= j2 < n_unassigned implies pa[edge_index_spec(w, next_node, #[trigger] neighbors_unassigned@[j2])] == Some(perms@[t as int]@[j2]) by {
                                lemma_diagonal_index(w, graph.height_spec(), next_node, neighbors_unassigned@[j2]);
                            }
                        }
                    }
                }
                assert forall|a: int, c: int|
                    p0.len() <= a < patterns@.len() && p0.len() <= c < patterns@.len() && a != c
                        implies #[trigger] patterns@[a]@ != #[trigger] patterns@[c]@ by {
                    if a < before_t.len() && c < before_t.len() {
                        assert(patterns@[a] == before_t[a]);
                        assert(patterns@[c] == before_t[c]);
                    } else if a < before_t.len() || c < before_t.len() {
                        let (x, y) = if a < before_t.len() { (a, c) } else { (c, a) };
                        assert(patterns@[x] == before_t[x]);
                        let t2 = choose|t2: int| 0 <= t2 < t && shows(*graph, before_t[x]@, next_node, neighbors_unassigned@, perms@[t2]@);
                        let py = patterns@[y]@;
                        assert(extends(py, np));
                        assert forall|j2: int| 0 <= j2 < n_unassigned implies py[edge_index_spec(w, next_node, #[trigger] neighbors_unassigned@[j2])] == Some(perms@[t as int]@[j2]) by {
                            lemma_diagonal_index(w, graph.height_spec(), next_node, neighbors_unassigned@[j2]);
                        }
                        assert(shows(*graph, py, next_node, neighbors_unassigned@, perms@[t as int]@));
                        lemma_shows_differ(*graph, patterns@[x]@, patterns@[y]@, next_node, neighbors_unassigned@, perms@[t2]@, perms@[t as int]@);
                    }
                }
            }
            proof {
                assert forall|v: Seq<Option<Order>>|
                    #[trigger] full_labelling(*graph, v) && extends(v, base_pattern@) && (exists|t2: int|
                        0 <= t2 < t + 1 && perms@[t2]@ == target_of(*graph, v, next_node, neighbors_unassigned@))
                        implies found_in(patterns@, v) by {
                    if perms@[t as int]@ == target_of(*graph, v, next_node, neighbors_unassigned@) {
                        assert forall|i: int| 0 <= i < np.len() && (#[trigger] np[i]) is Some implies v[i] == np[i] by {
                            if np[i] != base_pattern@[i] {
                                let j2 = choose|j2: int|
                                    0 <= j2 < n_unassigned && i == edge_index_spec(w, next_node, #[trigger] neighbors_unassigned@[j2])
                                        && np[i] == Some(order@[j2]);
                                lemma_target_free(*graph, base_pattern@, v, next_node, neighbors_unassigned@, j2);
                            }
                        }
                        assert(extends(v, np));
                    } else {
                        let t2 = choose|t2: int| 0 <= t2 < t + 1 && perms@[t2]@ == target_of(*graph, v, next_node, neighbors_unassigned@);
                        assert(found_in(before_t, v));
                        let j3 = choose|j3: int| 0 <= j3 < before_t.len() && #[trigger] before_t[j3]@ == v;
                        assert(patterns@[j3] == before_t[j3]);
                    }
                }
            }
        } else {
            proof {
                assert forall|v: Seq<Option<Order>>|
                    #[trigger] full_labelling(*graph, v) && extends(v, base_pattern@) && (exists|t2: int|
                        0 <= t2 < t + 1 && perms@[t2]@ == target_of(*graph, v, next_node, neighbors_unassigned@))
                        implies found_in(patterns@, v) by {
                    if perms@[t as int]@ == target_of(*graph, v, next_node, neighbors_unassigned@) {
                        assert forall|j2: int| 0 <= j2 < n_unassigned implies #[trigger] label_free_at(*graph, base_pattern@, neighbors_unassigned@[j2], order@[j2]) by {
                            lemma_target_free(*graph, base_pattern@, v, next_node, neighbors_unassigned@, j2);
                        }
                        assert(false);
                    }
                }
            }
        }
        t = t + 1;
    }
    proof {
        assert forall|v: Seq<Option<Order>>|
            #[trigger] full_labelling(*graph, v) && extends(v, base_pattern@) implies found_in(patterns@, v) by {
            let pos = lemma_target_positions(*graph, base_pattern@, v, next_node, neighbors_unassigned@, order_unassigned@);
            assert(distinct_positions(pos, order_unassigned@.len() as int, n_unassigned as int));
            let j = choose|j: int| 0 <= j < perms@.len() && perms@[j]@ == picks(order_unassigned@, pos);
            assert(perms@[j]@ == target_of(*graph, v, next_node, neighbors_unassigned@));
        }
    }
}

/// Every labelling of the real edges in which the edges at each qubit carry distinct
/// labels, found by labelling the qubits' free edges one qubit at a time: each result
/// is such a labelling, each such labelling is among the results, and none comes twice.
pub fn search_vec_patterns(graph: &SearchGraph) -> (r: Vec<Vec<Option<Order>>>)
    requires
        graph.wf(),
    ensures
        forall|j: int|
            0 <= j < r@.len() ==> (#[trigger] r@[j])@.len() == graph.n_edges() && labels_real_only(*graph, r@[j]@)
                && forall|i: int| 0 <= i < graph.n_edges() && graph.real_edges@[i] ==> r@[j]@[i] is Some,
        forall|j: int| 0 <= j < r@.len() ==> consistent(*graph, #[trigger] r@[j]@),
        forall|v: Seq<Option<Order>>| #[trigger] full_labelling(*graph, v) ==> found_in(r@, v),
        forall|a: int, c: int| 0 <= a < r@.len() && 0 <= c < r@.len() && a != c ==> #[trigger] r@[a]@ != #[trigger] r@[c]@,
{
    let qubits = qubit_points(graph);
    let n = graph.real_edges.len();
    let base: Vec<Option<Order>> = vec![None; n];
    let mut patterns: Vec<Vec<Option<Order>>> = Vec::new();
    proof {
        assert(labelled_at(*graph, base@, qubits@.subrange(0, 0)));
        let w = graph.width_spec();
        let h = graph.height_spec();
        assert forall|v: Point, q1: Point, q2: Point|
            in_grid(w, h, v) && in_primal_spec(v.0 as int, v.1 as int, graph.origin_spec())
                && real_neighbor(*graph, v, q1) && real_neighbor(*graph, v, q2) && q1 != q2
                && (#[trigger] base@[edge_index_spec(w, v, q1)]) is Some
                && (#[trigger] base@[edge_index_spec(w, v, q2)]) is Some
            implies base@[edge_index_spec(w, v, q1)] != base@[edge_index_spec(w, v, q2)] by {
            lemma_diagonal_index(w, h, v, q1);
        }
    }
    let ghost b0 = base@;
    search_vec_patterns_rec(graph, &qubits, base, 0, &mut patterns);
    proof {
        assert forall|v: Seq<Option<Order>>| #[trigger] full_labelling(*graph, v) implies found_in(patterns@, v) by {
            assert(extends(v, b0));
        }
        assert forall|j: int|
            0 <= j < patterns@.len() implies (#[trigger] patterns@[j])@.len() == graph.n_edges() && labels_real_only(*graph, patterns@[j]@)
                && forall|i: int| 0 <= i < graph.n_edges() && graph.real_edges@[i] ==> patterns@[j]@[i] is Some by {
            assert forall|i: int| 0 <= i < graph.n_edges() && graph.real_edges@[i] implies patterns@[j]@[i] is Some by {
                let e = edge_at(graph.width_spec(), graph.origin_spec(), i);
                lemma_edge_at_index(graph.width_spec(), graph.height_spec(), graph.origin_spec(), i);
                assert(qubits@.contains(e.0));
                let m = choose|m: int| 0 <= m < qubits@.len() && qubits@[m] == e.0;
                assert(real_neighbor(*graph, qubits@[m], e.1));
            }
        }
    }
    patterns
}

} // verus!
