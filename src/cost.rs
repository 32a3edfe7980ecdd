use crate::bits::{bits_of, bitset_clear, bitset_contains, bitset_len, bitset_put, bitset_with_capacity, BitPattern};
use crate::cutline::Cutline;
use crate::graph::{SearchError, SearchGraph};
use crate::pattern::{bit_order_vec, bit_order_vec_spec};
use crate::order::{order_rank, Order};
use vstd::prelude::*;

verus! {

/// The terms of the cost of one pattern on one cut.
#[derive(Debug, Clone, Copy, PartialEq, Eq, Structural)]
pub struct Cost {
    /// Two-qubit gates on the cut over the whole schedule.
    pub gates: usize,
    /// Gates dropped at the first and last beat.
    pub start_end: usize,
    /// Wedge fusions.
    pub wedge: usize,
    /// DCD fusions.
    pub dcd: usize,
    /// The cut's unbalance.
    pub unbalance: usize,
}

/// A cut prepared for evaluation: its real edges and fusion candidates, as edge indices.
#[derive(Debug, Clone)]
pub struct CutlineWrapped {
    pub split: Vec<usize>,
    pub unbalance: usize,
    pub wedge_candidates: Vec<(usize, usize)>,
    pub dcd_candidates: Vec<(usize, usize)>,
}

/// The schedule with what the evaluation needs of it.
#[derive(Debug, Clone)]
pub struct OrderInfo {
    pub ordering: Vec<Order>,
    pub order_counts: Vec<usize>,
    pub potential_wedges: Vec<(usize, Order, Order)>,
    pub potential_dcds: Vec<(usize, Order, Order)>,
}

/// The two labels form `{A, B}` or `{C, D}`.
pub open spec fn elementary(o1: Order, o2: Order) -> bool {
    let (a, b) = (order_rank(o1), order_rank(o2));
    (a == 0 && b == 1) || (a == 1 && b == 0) || (a == 2 && b == 3) || (a == 3 && b == 2)
}

/// The number of beats in `s` with label `o`.
pub open spec fn count_order(s: Seq<Order>, o: Order) -> nat
    decreases s.len(),
{
    if s.len() == 0 {
        0
    } else {
        count_order(s.drop_last(), o) + if s.last() == o {
            1nat
        } else {
            0nat
        }
    }
}

/// The beat pairs `(i, i + 1)` among the first `k` that a wedge may fuse: not an elementary pair.
pub open spec fn wedge_windows(s: Seq<Order>, k: int) -> Seq<(usize, Order, Order)>
    decreases k,
{
    if k <= 0 {
        seq![]
    } else {
        let rest = wedge_windows(s, k - 1);
        let i = k - 1;
        if !elementary(s[i], s[i + 1]) {
            rest.push((i as usize, s[i], s[i + 1]))
        } else {
            rest
        }
    }
}

/// The beat triples `(i, i + 1, i + 2)` among the first `k` that a DCD may fuse:
/// an elementary pair and its first label again.
pub open spec fn dcd_windows(s: Seq<Order>, k: int) -> Seq<(usize, Order, Order)>
    decreases k,
{
    if k <= 0 {
        seq![]
    } else {
        let rest = dcd_windows(s, k - 1);
        let i = k - 1;
        if s[i] == s[i + 2] && elementary(s[i], s[i + 1]) {
            rest.push((i as usize, s[i], s[i + 1]))
        } else {
            rest
        }
    }
}

impl OrderInfo {
    pub open spec fn wf(&self) -> bool {
        let s = self.ordering@;
        &&& s.len() >= 2
        &&& self.order_counts@.len() == 4
        &&& forall|o: Order| self.order_counts@[order_rank(o) as int] == count_order(s, o)
        &&& self.potential_wedges@ == wedge_windows(s, s.len() - 1)
        &&& self.potential_dcds@ == dcd_windows(s, s.len() - 2)
    }

    /// Counts each label in the schedule and lists the beat windows where fusions may happen.
    pub fn new(ordering: &Vec<Order>) -> (r: Self)
        requires
            ordering@.len() >= 2,
        ensures
            r.wf(),
            r.ordering@ == ordering@,
    {
        let n = ordering.len();
        let mut counts: Vec<usize> = vec![0, 0, 0, 0];
        let mut k: usize = 0;
        while k < n
            invariant
                n == ordering@.len(),
                k <= n,
                counts@.len() == 4,
                forall|o: Order| counts@[order_rank(o) as int] == count_order(ordering@.subrange(0, k as int), o),
                forall|o: Order| count_order(ordering@.subrange(0, k as int), o) <= k,
            decreases n - k,
        {
            let o = ordering[k];
            let r = o.rank();
            proof {
                assert(ordering@.subrange(0, k + 1).drop_last() =~= ordering@.subrange(0, k as int));
            }
            let ghost old_counts = counts@;
            assert(counts@[r as int] == count_order(ordering@.subrange(0, k as int), o));
            assert(count_order(ordering@.subrange(0, k as int), o) <= k);
            counts.set(r, counts[r] + 1);
            proof {
                assert forall|o2: Order| counts@[order_rank(o2) as int] == count_order(ordering@.subrange(0, k + 1), o2) by {
                    assert(ordering@.subrange(0, k + 1).last() == o);
                    assert(old_counts[order_rank(o2) as int] == count_order(ordering@.subrange(0, k as int), o2));
                    if o2 == o {
                    } else {
                        assert(order_rank(o2) != order_rank(o));
                    }
                }
                assert forall|o2: Order| #[trigger] count_order(ordering@.subrange(0, k + 1), o2) <= k + 1 by {
                    assert(count_order(ordering@.subrange(0, k as int), o2) <= k);
                }
            }
            k = k + 1;
        }
        assert(ordering@.subrange(0, n as int) =~= ordering@);
        let mut wedges: Vec<(usize, Order, Order)> = Vec::new();
        let mut i: usize = 0;
        while i + 1 < n
            invariant
                n == ordering@.len(),
                n >= 2,
                i + 1 <= n,
                wedges@ == wedge_windows(ordering@, i as int),
            decreases n - i,
        {
            let (o1, o2) = (ordering[i], ordering[i + 1]);
            let (a, b) = (o1.rank(), o2.rank());
            let elem = (a == 0 && b == 1) || (a == 1 && b == 0) || (a == 2 && b == 3) || (a == 3 && b == 2);
            if !elem {
                wedges.push((i, o1, o2));
            }
            i = i + 1;
        }
        let mut dcds: Vec<(usize, Order, Order)> = Vec::new();
        let mut i: usize = 0;
        while i + 2 < n
            invariant
                n == ordering@.len(),
                n >= 2,
                i + 2 <= n,
                dcds@ == dcd_windows(ordering@, i as int),
            decreases n - i,
        {
            let (o1, o2, o3) = (ordering[i], ordering[i + 1], ordering[i + 2]);
            let (a, b) = (o1.rank(), o2.rank());
            let elem = (a == 0 && b == 1) || (a == 1 && b == 0) || (a == 2 && b == 3) || (a == 3 && b == 2);
            if o1 == o3 && elem {
                dcds.push((i, o1, o2));
            }
            i = i + 1;
        }
        OrderInfo {
            ordering: ordering.clone(),
            order_counts: counts,
            potential_wedges: wedges,
            potential_dcds: dcds,
        }
    }
}

} // verus!

verus! {

/// The label of edge `e` in an order vector that has one there.
pub open spec fn label(ov: Seq<Option<Order>>, e: int) -> Order {
    ov[e]->Some_0
}

/// The flag of edge `e` at beat `beat`.
pub open spec fn slot(ne: int, beat: int, e: int) -> int {
    beat * ne + e
}

/// Flags of `(beat, edge)` pairs already claimed, and a counter.
pub type FoldState = (Seq<bool>, nat);

pub open spec fn claim(st: FoldState, k: int) -> FoldState {
    (st.0.update(k, true), st.1)
}

pub open spec fn start_end_step(ov: Seq<Option<Order>>, ordering: Seq<Order>, ne: int, e: int, st: FoldState) -> FoldState {
    let depth = ordering.len() - 1;
    let o = label(ov, e);
    let st1 = if o == ordering[0] && !st.0[slot(ne, 0, e)] {
        (st.0.update(slot(ne, 0, e), true), st.1 + 1)
    } else {
        st
    };
    if o == ordering[depth] && !st1.0[slot(ne, depth, e)] {
        (st1.0.update(slot(ne, depth, e), true), st1.1 + 1)
    } else {
        st1
    }
}

/// Start/end elision over the first `k` cut edges.
pub open spec fn start_end_fold(
    ov: Seq<Option<Order>>,
    ordering: Seq<Order>,
    ne: int,
    split: Seq<usize>,
    k: int,
    st: FoldState,
) -> FoldState
    decreases k,
{
    if k <= 0 {
        st
    } else {
        start_end_step(ov, ordering, ne, split[k - 1] as int, start_end_fold(ov, ordering, ne, split, k - 1, st))
    }
}

pub open spec fn wedge_mark(ne: int, i: int, a: int, b: int, st: FoldState) -> FoldState {
    if !st.0[slot(ne, i, a)] && !st.0[slot(ne, i + 1, b)] {
        (st.0.update(slot(ne, i, a), true).update(slot(ne, i + 1, b), true), st.1 + 1)
    } else {
        st
    }
}

pub open spec fn wedge_step(
    ov: Seq<Option<Order>>,
    ne: int,
    w: (usize, Order, Order),
    c: (usize, usize),
    st: FoldState,
) -> FoldState {
    let (i, o1, o2) = w;
    let (e1, e2) = c;
    if label(ov, e1 as int) == o1 && label(ov, e2 as int) == o2 {
        wedge_mark(ne, i as int, e1 as int, e2 as int, st)
    } else if label(ov, e2 as int) == o1 && label(ov, e1 as int) == o2 {
        wedge_mark(ne, i as int, e2 as int, e1 as int, st)
    } else {
        st
    }
}

/// Wedge fusion of one beat pair over the first `k` candidates.
pub open spec fn wedge_inner(
    ov: Seq<Option<Order>>,
    ne: int,
    w: (usize, Order, Order),
    cands: Seq<(usize, usize)>,
    k: int,
    st: FoldState,
) -> FoldState
    decreases k,
{
    if k <= 0 {
        st
    } else {
        wedge_step(ov, ne, w, cands[k - 1], wedge_inner(ov, ne, w, cands, k - 1, st))
    }
}

/// Wedge fusion over the first `k` beat pairs.
pub open spec fn wedge_fold(
    ov: Seq<Option<Order>>,
    ne: int,
    wins: Seq<(usize, Order, Order)>,
    cands: Seq<(usize, usize)>,
    k: int,
    st: FoldState,
) -> FoldState
    decreases k,
{
    if k <= 0 {
        st
    } else {
        wedge_inner(ov, ne, wins[k - 1], cands, cands.len() as int, wedge_fold(ov, ne, wins, cands, k - 1, st))
    }
}

pub open spec fn dcd_step(
    ov: Seq<Option<Order>>,
    ne: int,
    split: Seq<usize>,
    w: (usize, Order, Order),
    c: (usize, usize),
    st: FoldState,
) -> FoldState {
    let (i, o1, o2) = w;
    let (e1, e2) = c;
    let (i, e1, e2) = (i as int, e1 as int, e2 as int);
    if label(ov, e1) == o1 && label(ov, e2) == o2 && !st.0[slot(ne, i, e1)] && !st.0[slot(ne, i + 2, e1)]
        && !st.0[slot(ne, i + 1, e2)] {
        (
            st.0.update(slot(ne, i, e1), true).update(slot(ne, i + 2, e1), true).update(slot(ne, i + 1, e2), true),
            st.1 + 1 + if split.contains(e2 as usize) {
                1nat
            } else {
                0nat
            },
        )
    } else {
        st
    }
}

/// DCD fusion of one beat triple over the first `k` candidates.
pub open spec fn dcd_inner(
    ov: Seq<Option<Order>>,
    ne: int,
    split: Seq<usize>,
    w: (usize, Order, Order),
    cands: Seq<(usize, usize)>,
    k: int,
    st: FoldState,
) -> FoldState
    decreases k,
{
    if k <= 0 {
        st
    } else {
        dcd_step(ov, ne, split, w, cands[k - 1], dcd_inner(ov, ne, split, w, cands, k - 1, st))
    }
}

/// DCD fusion over the first `k` beat triples.
pub open spec fn dcd_fold(
    ov: Seq<Option<Order>>,
    ne: int,
    split: Seq<usize>,
    wins: Seq<(usize, Order, Order)>,
    cands: Seq<(usize, usize)>,
    k: int,
    st: FoldState,
) -> FoldState
    decreases k,
{
    if k <= 0 {
        st
    } else {
        dcd_inner(ov, ne, split, wins[k - 1], cands, cands.len() as int, dcd_fold(ov, ne, split, wins, cands, k - 1, st))
    }
}

/// The gates on the first `k` cut edges over the whole schedule.
pub open spec fn gates_sum(ov: Seq<Option<Order>>, counts: Seq<usize>, split: Seq<usize>, k: int) -> nat
    decreases k,
{
    if k <= 0 {
        0
    } else {
        gates_sum(ov, counts, split, k - 1) + counts[order_rank(label(ov, split[k - 1] as int)) as int] as nat
    }
}

/// The cost terms of a cut under an order vector: start/end elision first, wedge
/// fusion second, DCD fusion third, all claiming from one set of `(beat, edge)` flags.
pub open spec fn cost_spec(ov: Seq<Option<Order>>, cut: CutlineWrapped, info: OrderInfo) -> Cost {
    let ne = ov.len() as int;
    let d = info.ordering@.len() as int;
    let u0 = Seq::new((d * ne) as nat, |i: int| false);
    let s1 = start_end_fold(ov, info.ordering@, ne, cut.split@, cut.split@.len() as int, (u0, 0));
    let s2 = wedge_fold(
        ov,
        ne,
        info.potential_wedges@,
        cut.wedge_candidates@,
        info.potential_wedges@.len() as int,
        (s1.0, 0),
    );
    let s3 = dcd_fold(
        ov,
        ne,
        cut.split@,
        info.potential_dcds@,
        cut.dcd_candidates@,
        info.potential_dcds@.len() as int,
        (s2.0, 0),
    );
    Cost {
        gates: gates_sum(ov, info.order_counts@, cut.split@, cut.split@.len() as int) as usize,
        start_end: s1.1 as usize,
        wedge: s2.1 as usize,
        dcd: s3.1 as usize,
        unbalance: cut.unbalance,
    }
}

/// Every edge that a cut names lies in the order vector and has a label there.
pub open spec fn cut_fits(ov: Seq<Option<Order>>, cut: CutlineWrapped) -> bool {
    &&& forall|j: int| 0 <= j < cut.split@.len() ==> #[trigger] cut.split@[j] < ov.len() && ov[cut.split@[j] as int] is Some
    &&& forall|j: int|
        0 <= j < cut.wedge_candidates@.len() ==> (#[trigger] cut.wedge_candidates@[j]).0 < ov.len()
            && cut.wedge_candidates@[j].1 < ov.len() && ov[cut.wedge_candidates@[j].0 as int] is Some
            && ov[cut.wedge_candidates@[j].1 as int] is Some
    &&& forall|j: int|
        0 <= j < cut.dcd_candidates@.len() ==> (#[trigger] cut.dcd_candidates@[j]).0 < ov.len()
            && cut.dcd_candidates@[j].1 < ov.len() && ov[cut.dcd_candidates@[j].0 as int] is Some
            && ov[cut.dcd_candidates@[j].1 as int] is Some
}

/// The `(beat, edge)` flags of one evaluation.
pub struct UsedBoard {
    pub flags: fixedbitset::FixedBitSet,
    pub n_edges: usize,
}

impl UsedBoard {
    pub open spec fn view(&self) -> Seq<bool> {
        bits_of(self.flags)
    }

    pub open spec fn clear_of(&self, n: nat) -> bool {
        bits_of(self.flags) == Seq::new(n, |i: int| false)
    }

    pub fn new(n_edges: usize, depth: usize) -> (r: Self)
        requires
            depth * n_edges <= usize::MAX,
        ensures
            r.n_edges == n_edges,
            r.clear_of((depth * n_edges) as nat),
    {
        UsedBoard { flags: bitset_with_capacity(depth * n_edges), n_edges }
    }

    #[inline]
    fn index(&self, depth: usize, edge: usize) -> (r: usize)
        requires
            edge < self.n_edges,
            (depth + 1) * self.n_edges <= bits_of(self.flags).len(),
            bits_of(self.flags).len() <= usize::MAX,
        ensures
            r == slot(self.n_edges as int, depth as int, edge as int),
            r < bits_of(self.flags).len(),
    {
        assert(depth * self.n_edges + edge < (depth + 1) * self.n_edges) by (nonlinear_arith)
            requires
                edge < self.n_edges,
        ;
        assert(depth * self.n_edges <= (depth + 1) * self.n_edges) by (nonlinear_arith);
        depth * self.n_edges + edge
    }

    #[inline]
    fn is_used(&self, depth: usize, edge: usize) -> (r: bool)
        requires
            edge < self.n_edges,
            (depth + 1) * self.n_edges <= bits_of(self.flags).len(),
            bits_of(self.flags).len() <= usize::MAX,
        ensures
            r == bits_of(self.flags)[slot(self.n_edges as int, depth as int, edge as int)],
    {
        bitset_contains(&self.flags, self.index(depth, edge))
    }

    #[inline]
    fn set_used(&mut self, depth: usize, edge: usize)
        requires
            edge < old(self).n_edges,
            (depth + 1) * old(self).n_edges <= bits_of(old(self).flags).len(),
            bits_of(old(self).flags).len() <= usize::MAX,
        ensures
            final(self).n_edges == old(self).n_edges,
            bits_of(final(self).flags) == bits_of(old(self).flags).update(
                slot(old(self).n_edges as int, depth as int, edge as int),
                true,
            ),
    {
        let i = self.index(depth, edge);
        bitset_put(&mut self.flags, i);
    }

    #[inline]
    fn reset(&mut self)
        ensures
            final(self).n_edges == old(self).n_edges,
            final(self).clear_of(bits_of(old(self).flags).len()),
    {
        bitset_clear(&mut self.flags);
    }
}

} // verus!

verus! {

proof fn lemma_slot_bound(ne: int, d: int, beat: int, e: int)
    requires
        0 <= e < ne,
        0 <= beat < d,
    ensures
        0 <= slot(ne, beat, e),
        (beat + 1) * ne <= d * ne,
        slot(ne, beat, e) < d * ne,
{
    assert((beat + 1) * ne <= d * ne) by (nonlinear_arith)
        requires
            beat + 1 <= d,
            ne >= 0,
    ;
    assert(0 <= beat * ne) by (nonlinear_arith)
        requires
            beat >= 0,
            ne >= 0,
    ;
    assert((beat + 1) * ne == beat * ne + ne) by (nonlinear_arith);
}

proof fn lemma_wedge_windows_bound(s: Seq<Order>, k: int)
    requires
        0 <= k <= s.len() - 1,
        s.len() <= usize::MAX,
    ensures
        forall|j: int| 0 <= j < wedge_windows(s, k).len() ==> (#[trigger] wedge_windows(s, k)[j]).0 < k,
    decreases k,
{
    if k > 0 {
        lemma_wedge_windows_bound(s, k - 1);
        let rest = wedge_windows(s, k - 1);
        assert forall|j: int| 0 <= j < wedge_windows(s, k).len() implies (#[trigger] wedge_windows(s, k)[j]).0 < k by {
            if j < rest.len() {
                assert(wedge_windows(s, k)[j] == rest[j]);
            }
        }
    }
}

proof fn lemma_dcd_windows_bound(s: Seq<Order>, k: int)
    requires
        0 <= k <= s.len() - 2,
        s.len() <= usize::MAX,
    ensures
        forall|j: int| 0 <= j < dcd_windows(s, k).len() ==> (#[trigger] dcd_windows(s, k)[j]).0 < k,
    decreases k,
{
    if k > 0 {
        lemma_dcd_windows_bound(s, k - 1);
        let rest = dcd_windows(s, k - 1);
        assert forall|j: int| 0 <= j < dcd_windows(s, k).len() implies (#[trigger] dcd_windows(s, k)[j]).0 < k by {
            if j < rest.len() {
                assert(dcd_windows(s, k)[j] == rest[j]);
            }
        }
    }
}

fn contains_index(v: &Vec<usize>, x: usize) -> (r: bool)
    ensures
        r == v@.contains(x),
{
    let mut j: usize = 0;
    while j < v.len()
        invariant
            j <= v@.len(),
            forall|k: int| 0 <= k < j ==> v@[k] != x,
        decreases v@.len() - j,
    {
        if v[j] == x {
            return true;
        }
        j = j + 1;
    }
    false
}

fn start_end_pass(
    ov: &Vec<Option<Order>>,
    split: &Vec<usize>,
    ordering: &Vec<Order>,
    board: &mut UsedBoard,
) -> (r: usize)
    requires
        ordering@.len() >= 2,
        old(board).n_edges == ov@.len(),
        bits_of(old(board).flags).len() == ordering@.len() * ov@.len(),
        bits_of(old(board).flags).len() <= usize::MAX,
        2 * split@.len() <= usize::MAX,
        forall|j: int| 0 <= j < split@.len() ==> #[trigger] split@[j] < ov@.len() && ov@[split@[j] as int] is Some,
    ensures
        final(board).n_edges == old(board).n_edges,
        bits_of(final(board).flags).len() == bits_of(old(board).flags).len(),
        (bits_of(final(board).flags), r as nat) == start_end_fold(
            ov@,
            ordering@,
            ov@.len() as int,
            split@,
            split@.len() as int,
            (bits_of(old(board).flags), 0),
        ),
{
    let ghost st0: FoldState = (bits_of(board.flags), 0);
    let ghost ne = ov@.len() as int;
    let ghost d = ordering@.len() as int;
    let start_order = ordering[0];
    let depth = ordering.len() - 1;
    let end_order = ordering[depth];
    let mut count: usize = 0;
    let mut j: usize = 0;
    while j < split.len()
        invariant
            ordering@.len() >= 2,
            d == ordering@.len(),
            ne == ov@.len(),
            depth == d - 1,
            start_order == ordering@[0],
            end_order == ordering@[depth as int],
            board.n_edges == ne,
            bits_of(board.flags).len() == d * ne,
            bits_of(board.flags).len() <= usize::MAX,
            2 * split@.len() <= usize::MAX,
            forall|k: int| 0 <= k < split@.len() ==> #[trigger] split@[k] < ov@.len() && ov@[split@[k] as int] is Some,
            j <= split@.len(),
            count <= 2 * j,
            (bits_of(board.flags), count as nat) == start_end_fold(ov@, ordering@, ne, split@, j as int, st0),
        decreases split@.len() - j,
    {
        let e = split[j];
        let order = ov[e].unwrap();
        proof {
            lemma_slot_bound(ne, d, 0, e as int);
            lemma_slot_bound(ne, d, depth as int, e as int);
        }
        if order == start_order && !board.is_used(0, e) {
            board.set_used(0, e);
            count = count + 1;
        }
        if order == end_order && !board.is_used(depth, e) {
            board.set_used(depth, e);
            count = count + 1;
        }
        j = j + 1;
    }
    count
}

fn wedge_pass(
    ov: &Vec<Option<Order>>,
    wins: &Vec<(usize, Order, Order)>,
    cands: &Vec<(usize, usize)>,
    d: usize,
    board: &mut UsedBoard,
) -> (r: usize)
    requires
        old(board).n_edges == ov@.len(),
        bits_of(old(board).flags).len() == d * ov@.len(),
        bits_of(old(board).flags).len() <= usize::MAX,
        wins@.len() * cands@.len() <= usize::MAX,
        forall|k: int| 0 <= k < wins@.len() ==> (#[trigger] wins@[k]).0 + 1 < d,
        forall|j: int|
            0 <= j < cands@.len() ==> (#[trigger] cands@[j]).0 < ov@.len() && cands@[j].1 < ov@.len()
                && ov@[cands@[j].0 as int] is Some && ov@[cands@[j].1 as int] is Some,
    ensures
        final(board).n_edges == old(board).n_edges,
        bits_of(final(board).flags).len() == bits_of(old(board).flags).len(),
        (bits_of(final(board).flags), r as nat) == wedge_fold(
            ov@,
            ov@.len() as int,
            wins@,
            cands@,
            wins@.len() as int,
            (bits_of(old(board).flags), 0),
        ),
{
    let ghost st0: FoldState = (bits_of(board.flags), 0);
    let ghost ne = ov@.len() as int;
    let cl = cands.len();
    let mut count: usize = 0;
    let mut w: usize = 0;
    while w < wins.len()
        invariant
            ne == ov@.len(),
            cl == cands@.len(),
            board.n_edges == ne,
            bits_of(board.flags).len() == d * ne,
            bits_of(board.flags).len() <= usize::MAX,
            wins@.len() * cands@.len() <= usize::MAX,
            forall|k: int| 0 <= k < wins@.len() ==> (#[trigger] wins@[k]).0 + 1 < d,
            forall|j: int|
                0 <= j < cands@.len() ==> (#[trigger] cands@[j]).0 < ov@.len() && cands@[j].1 < ov@.len()
                    && ov@[cands@[j].0 as int] is Some && ov@[cands@[j].1 as int] is Some,
            w <= wins@.len(),
            count <= w * cl,
            (bits_of(board.flags), count as nat) == wedge_fold(ov@, ne, wins@, cands@, w as int, st0),
        decreases wins@.len() - w,
    {
        let (i, o1, o2) = wins[w];
        let ghost mid: FoldState = (bits_of(board.flags), count as nat);
        let ghost base = count as int;
        proof {
            assert(w * cl + cl <= wins@.len() * cl) by (nonlinear_arith)
                requires
                    w < wins@.len(),
            ;
            assert(w * cl + cl == (w + 1) * cl) by (nonlinear_arith);
        }
        let mut c: usize = 0;
        while c < cl
            invariant
                ne == ov@.len(),
                cl == cands@.len(),
                board.n_edges == ne,
                bits_of(board.flags).len() == d * ne,
                bits_of(board.flags).len() <= usize::MAX,
                i + 1 < d,
                forall|j: int|
                    0 <= j < cands@.len() ==> (#[trigger] cands@[j]).0 < ov@.len() && cands@[j].1 < ov@.len()
                        && ov@[cands@[j].0 as int] is Some && ov@[cands@[j].1 as int] is Some,
                c <= cl,
                base + cl <= usize::MAX,
                count <= base + c,
                (bits_of(board.flags), count as nat) == wedge_inner(ov@, ne, (i, o1, o2), cands@, c as int, mid),
            decreases cl - c,
        {
            let (e1, e2) = cands[c];
            proof {
                lemma_slot_bound(ne, d as int, i as int, e1 as int);
                lemma_slot_bound(ne, d as int, i as int, e2 as int);
                lemma_slot_bound(ne, d as int, i + 1, e1 as int);
                lemma_slot_bound(ne, d as int, i + 1, e2 as int);
            }
            let l1 = ov[e1].unwrap();
            let l2 = ov[e2].unwrap();
            if l1 == o1 && l2 == o2 {
                if !board.is_used(i, e1) && !board.is_used(i + 1, e2) {
                    board.set_used(i, e1);
                    board.set_used(i + 1, e2);
                    count = count + 1;
                }
            } else if l2 == o1 && l1 == o2 {
                if !board.is_used(i, e2) && !board.is_used(i + 1, e1) {
                    board.set_used(i, e2);
                    board.set_used(i + 1, e1);
                    count = count + 1;
                }
            }
            c = c + 1;
        }
        w = w + 1;
    }
    count
}

fn dcd_pass(
    ov: &Vec<Option<Order>>,
    split: &Vec<usize>,
    wins: &Vec<(usize, Order, Order)>,
    cands: &Vec<(usize, usize)>,
    d: usize,
    board: &mut UsedBoard,
) -> (r: usize)
    requires
        old(board).n_edges == ov@.len(),
        bits_of(old(board).flags).len() == d * ov@.len(),
        bits_of(old(board).flags).len() <= usize::MAX,
        2 * (wins@.len() * cands@.len()) <= usize::MAX,
        forall|k: int| 0 <= k < wins@.len() ==> (#[trigger] wins@[k]).0 + 2 < d,
        forall|j: int|
            0 <= j < cands@.len() ==> (#[trigger] cands@[j]).0 < ov@.len() && cands@[j].1 < ov@.len()
                && ov@[cands@[j].0 as int] is Some && ov@[cands@[j].1 as int] is Some,
    ensures
        final(board).n_edges == old(board).n_edges,
        bits_of(final(board).flags).len() == bits_of(old(board).flags).len(),
        (bits_of(final(board).flags), r as nat) == dcd_fold(
            ov@,
            ov@.len() as int,
            split@,
            wins@,
            cands@,
            wins@.len() as int,
            (bits_of(old(board).flags), 0),
        ),
{
    let ghost st0: FoldState = (bits_of(board.flags), 0);
    let ghost ne = ov@.len() as int;
    let cl = cands.len();
    let mut count: usize = 0;
    let mut w: usize = 0;
    while w < wins.len()
        invariant
            ne == ov@.len(),
            cl == cands@.len(),
            board.n_edges == ne,
            bits_of(board.flags).len() == d * ne,
            bits_of(board.flags).len() <= usize::MAX,
            2 * (wins@.len() * cands@.len()) <= usize::MAX,
            forall|k: int| 0 <= k < wins@.len() ==> (#[trigger] wins@[k]).0 + 2 < d,
            forall|j: int|
                0 <= j < cands@.len() ==> (#[trigger] cands@[j]).0 < ov@.len() && cands@[j].1 < ov@.len()
                    && ov@[cands@[j].0 as int] is Some && ov@[cands@[j].1 as int] is Some,
            w <= wins@.len(),
            count <= 2 * (w * cl),
            (bits_of(board.flags), count as nat) == dcd_fold(ov@, ne, split@, wins@, cands@, w as int, st0),
        decreases wins@.len() - w,
    {
        let (i, o1, o2) = wins[w];
        let ghost mid: FoldState = (bits_of(board.flags), count as nat);
        let ghost base = count as int;
        proof {
            assert(w * cl + cl <= wins@.len() * cl) by (nonlinear_arith)
                requires
                    w < wins@.len(),
            ;
            assert(w * cl + cl == (w + 1) * cl) by (nonlinear_arith);
        }
        let mut c: usize = 0;
        while c < cl
            invariant
                ne == ov@.len(),
                cl == cands@.len(),
                board.n_edges == ne,
                bits_of(board.flags).len() == d * ne,
                bits_of(board.flags).len() <= usize::MAX,
                i + 2 < d,
                forall|j: int|
                    0 <= j < cands@.len() ==> (#[trigger] cands@[j]).0 < ov@.len() && cands@[j].1 < ov@.len()
                        && ov@[cands@[j].0 as int] is Some && ov@[cands@[j].1 as int] is Some,
                c <= cl,
                base + 2 * cl <= usize::MAX,
                count <= base + 2 * c,
                (bits_of(board.flags), count as nat) == dcd_inner(ov@, ne, split@, (i, o1, o2), cands@, c as int, mid),
            decreases cl - c,
        {
            let (e1, e2) = cands[c];
            proof {
                lemma_slot_bound(ne, d as int, i as int, e1 as int);
                lemma_slot_bound(ne, d as int, i + 2, e1 as int);
                lemma_slot_bound(ne, d as int, i + 1, e2 as int);
            }
            let l1 = ov[e1].unwrap();
            let l2 = ov[e2].unwrap();
            if l1 == o1 && l2 == o2 && !board.is_used(i, e1) && !board.is_used(i + 2, e1)
                && !board.is_used(i + 1, e2) {
                board.set_used(i, e1);
                board.set_used(i + 2, e1);
                board.set_used(i + 1, e2);
                count = count + 1;
                if contains_index(split, e2) {
                    count = count + 1;
                }
            }
            c = c + 1;
        }
        w = w + 1;
    }
    count
}

} // verus!

verus! {

proof fn lemma_count_order_le(s: Seq<Order>, o: Order)
    ensures
        count_order(s, o) <= s.len(),
    decreases s.len(),
{
    if s.len() > 0 {
        lemma_count_order_le(s.drop_last(), o);
    }
}

proof fn lemma_windows_len(s: Seq<Order>, k: int)
    requires
        k >= 0,
    ensures
        wedge_windows(s, k).len() <= k,
        dcd_windows(s, k).len() <= k,
    decreases k,
{
    if k > 0 {
        lemma_windows_len(s, k - 1);
    }
}

fn gate_count(ov: &Vec<Option<Order>>, split: &Vec<usize>, info: &OrderInfo) -> (r: usize)
    requires
        info.wf(),
        split@.len() * info.ordering@.len() <= usize::MAX,
        forall|j: int| 0 <= j < split@.len() ==> #[trigger] split@[j] < ov@.len() && ov@[split@[j] as int] is Some,
    ensures
        r == gates_sum(ov@, info.order_counts@, split@, split@.len() as int),
{
    let ghost d = info.ordering@.len() as int;
    let mut total: usize = 0;
    let mut j: usize = 0;
    while j < split.len()
        invariant
            info.wf(),
            d == info.ordering@.len(),
            split@.len() * d <= usize::MAX,
            forall|k: int| 0 <= k < split@.len() ==> #[trigger] split@[k] < ov@.len() && ov@[split@[k] as int] is Some,
            j <= split@.len(),
            total == gates_sum(ov@, info.order_counts@, split@, j as int),
            total <= j * d,
        decreases split@.len() - j,
    {
        let e = split[j];
        let o = ov[e].unwrap();
        let c = info.order_counts[o.rank()];
        proof {
            lemma_count_order_le(info.ordering@, o);
            assert(c <= d);
            assert(j * d + d == (j + 1) * d) by (nonlinear_arith);
            assert((j + 1) * d <= split@.len() * d) by (nonlinear_arith)
                requires
                    j + 1 <= split@.len(),
                    d >= 0,
            ;
        }
        total = total + c;
        j = j + 1;
    }
    total
}

/// The cost terms of one cut under one pattern's order vector.
///
/// The flags start clear and are cleared again at the end, ready for the next cut.
pub fn cost_for_cutline(
    order_vec: &Vec<Option<Order>>,
    cutline: &CutlineWrapped,
    order_info: &OrderInfo,
    use_flags: &mut UsedBoard,
) -> (r: Cost)
    requires
        order_info.wf(),
        cut_fits(order_vec@, *cutline),
        old(use_flags).n_edges == order_vec@.len(),
        old(use_flags).clear_of((order_info.ordering@.len() * order_vec@.len()) as nat),
        order_info.ordering@.len() * order_vec@.len() <= usize::MAX,
        cutline.split@.len() * order_info.ordering@.len() <= usize::MAX,
        order_info.ordering@.len() * cutline.wedge_candidates@.len() <= usize::MAX,
        2 * (order_info.ordering@.len() * cutline.dcd_candidates@.len()) <= usize::MAX,
    ensures
        r == cost_spec(order_vec@, *cutline, *order_info),
        final(use_flags).n_edges == old(use_flags).n_edges,
        final(use_flags).clear_of((order_info.ordering@.len() * order_vec@.len()) as nat),
{
    let ghost s = order_info.ordering@;
    let ghost d = s.len() as int;
    let ghost ne = order_vec@.len() as int;
    let d_exec = order_info.ordering.len();
    proof {
        lemma_wedge_windows_bound(s, d - 1);
        lemma_dcd_windows_bound(s, d - 2);
        lemma_windows_len(s, d - 1);
        lemma_windows_len(s, d - 2);
        let wl = order_info.potential_wedges@.len() as int;
        let dl = order_info.potential_dcds@.len() as int;
        let wc = cutline.wedge_candidates@.len() as int;
        let dc = cutline.dcd_candidates@.len() as int;
        assert(wl * wc <= d * wc) by (nonlinear_arith)
            requires
                wl <= d,
                wc >= 0,
        ;
        assert(dl * dc <= d * dc) by (nonlinear_arith)
            requires
                dl <= d,
                dc >= 0,
        ;
        assert(2 * cutline.split@.len() <= cutline.split@.len() * d) by (nonlinear_arith)
            requires
                d >= 2,
        ;
        assert forall|k: int| 0 <= k < order_info.potential_wedges@.len() implies (
        #[trigger] order_info.potential_wedges@[k]).0 + 1 < d_exec by {
            assert(order_info.potential_wedges@[k] == wedge_windows(s, d - 1)[k]);
        }
        assert forall|k: int| 0 <= k < order_info.potential_dcds@.len() implies (
        #[trigger] order_info.potential_dcds@[k]).0 + 2 < d_exec by {
            assert(order_info.potential_dcds@[k] == dcd_windows(s, d - 2)[k]);
        }
    }
    let gates = gate_count(order_vec, &cutline.split, order_info);
    let start_end = start_end_pass(order_vec, &cutline.split, &order_info.ordering, use_flags);
    let wedge = wedge_pass(
        order_vec,
        &order_info.potential_wedges,
        &cutline.wedge_candidates,
        d_exec,
        use_flags,
    );
    let dcd = dcd_pass(
        order_vec,
        &cutline.split,
        &order_info.potential_dcds,
        &cutline.dcd_candidates,
        d_exec,
        use_flags,
    );
    use_flags.reset();
    Cost { gates, start_end, wedge, dcd, unbalance: cutline.unbalance }
}

} // verus!

verus! {

/// Whether every edge that a cut names lies in the order vector and has a label there.
pub fn cut_fits_check(ov: &Vec<Option<Order>>, cut: &CutlineWrapped) -> (r: bool)
    ensures
        r == cut_fits(ov@, *cut),
{
    let n = ov.len();
    let mut j: usize = 0;
    while j < cut.split.len()
        invariant
            n == ov@.len(),
            j <= cut.split@.len(),
            forall|k: int| 0 <= k < j ==> #[trigger] cut.split@[k] < ov@.len() && ov@[cut.split@[k] as int] is Some,
        decreases cut.split@.len() - j,
    {
        let e = cut.split[j];
        if e >= n || ov[e].is_none() {
            return false;
        }
        j = j + 1;
    }
    let mut j: usize = 0;
    while j < cut.wedge_candidates.len()
        invariant
            n == ov@.len(),
            j <= cut.wedge_candidates@.len(),
            forall|k: int|
                0 <= k < j ==> (#[trigger] cut.wedge_candidates@[k]).0 < ov@.len()
                    && cut.wedge_candidates@[k].1 < ov@.len() && ov@[cut.wedge_candidates@[k].0 as int] is Some
                    && ov@[cut.wedge_candidates@[k].1 as int] is Some,
        decreases cut.wedge_candidates@.len() - j,
    {
        let (a, b) = cut.wedge_candidates[j];
        if a >= n || b >= n || ov[a].is_none() || ov[b].is_none() {
            return false;
        }
        j = j + 1;
    }
    let mut j: usize = 0;
    while j < cut.dcd_candidates.len()
        invariant
            n == ov@.len(),
            j <= cut.dcd_candidates@.len(),
            forall|k: int|
                0 <= k < j ==> (#[trigger] cut.dcd_candidates@[k]).0 < ov@.len()
                    && cut.dcd_candidates@[k].1 < ov@.len() && ov@[cut.dcd_candidates@[k].0 as int] is Some
                    && ov@[cut.dcd_candidates@[k].1 as int] is Some,
        decreases cut.dcd_candidates@.len() - j,
    {
        let (a, b) = cut.dcd_candidates[j];
        if a >= n || b >= n || ov[a].is_none() || ov[b].is_none() {
            return false;
        }
        j = j + 1;
    }
    true
}

/// The counters of a cut's evaluation fit in a `usize`.
pub open spec fn sizes_fit(d: int, cut: CutlineWrapped) -> bool {
    &&& cut.split@.len() * d <= usize::MAX
    &&& d * cut.wedge_candidates@.len() <= usize::MAX
    &&& d * cut.dcd_candidates@.len() <= usize::MAX
    &&& 2 * (d * cut.dcd_candidates@.len()) <= usize::MAX
}

fn product_fits(a: usize, b: usize) -> (r: bool)
    ensures
        r == (a * b <= usize::MAX),
{
    a.checked_mul(b).is_some()
}

/// The cost terms of every cut under one pattern.
///
/// Fails with `EmptyInput` where there is no cut, with `ParseError` where the pattern
/// is empty or a cut names an edge that has no label (one outside the lattice, or not
/// real), and with `InvalidCoordinates` where the sizes would overflow the flag board.
pub fn calculate_costs(
    graph: &SearchGraph,
    pattern: &BitPattern,
    cutlines: &Vec<CutlineWrapped>,
    order_info: &OrderInfo,
) -> (r: Result<Vec<Cost>, SearchError>)
    requires
        graph.wf(),
        order_info.wf(),
    ensures
        r matches Ok(costs) ==> costs@.len() == cutlines@.len() && forall|k: int|
            0 <= k < cutlines@.len() ==> #[trigger] costs@[k] == cost_spec(
                bit_order_vec_spec(bits_of(*pattern), *graph),
                cutlines@[k],
                *order_info,
            ),
        cutlines@.len() == 0 <==> r == Err::<Vec<Cost>, SearchError>(SearchError::EmptyInput),
        r is Err ==> r == Err::<Vec<Cost>, SearchError>(SearchError::EmptyInput) || r == Err::<
            Vec<Cost>,
            SearchError,
        >(SearchError::ParseError) || r == Err::<Vec<Cost>, SearchError>(SearchError::InvalidCoordinates),
        cutlines@.len() > 0 && bits_of(*pattern).len() >= 1 && order_info.ordering@.len() * graph.n_edges() <= usize::MAX
            && (forall|k: int|
            0 <= k < cutlines@.len() ==> cut_fits(
                bit_order_vec_spec(bits_of(*pattern), *graph),
                #[trigger] cutlines@[k],
            ) && sizes_fit(order_info.ordering@.len() as int, cutlines@[k])) ==> r is Ok,
{
    if cutlines.len() == 0 {
        return Err(SearchError::EmptyInput);
    }
    if bitset_len(pattern) == 0 {
        return Err(SearchError::ParseError);
    }
    let order_vec = bit_order_vec(pattern, graph);
    let d = order_info.ordering.len();
    let ne = order_vec.len();
    if !product_fits(d, ne) {
        return Err(SearchError::InvalidCoordinates);
    }
    let mut board = UsedBoard::new(ne, d);
    let mut costs: Vec<Cost> = Vec::new();
    let mut k: usize = 0;
    while k < cutlines.len()
        invariant
            graph.wf(),
            order_info.wf(),
            order_vec@ == bit_order_vec_spec(bits_of(*pattern), *graph),
            d == order_info.ordering@.len(),
            ne == order_vec@.len(),
            d * ne <= usize::MAX,
            board.n_edges == ne,
            board.clear_of((d * ne) as nat),
            k <= cutlines@.len(),
            costs@.len() == k,
            forall|j: int|
                0 <= j < k ==> #[trigger] costs@[j] == cost_spec(order_vec@, cutlines@[j], *order_info),
        decreases cutlines@.len() - k,
    {
        let cut = &cutlines[k];
        if !cut_fits_check(&order_vec, cut) {
            return Err(SearchError::ParseError);
        }
        if !product_fits(cut.split.len(), d) || !product_fits(d, cut.wedge_candidates.len())
            || !product_fits(d, cut.dcd_candidates.len()) || !product_fits(
            2,
            d * cut.dcd_candidates.len(),
        ) {
            return Err(SearchError::InvalidCoordinates);
        }
        let c = cost_for_cutline(&order_vec, cut, order_info, &mut board);
        costs.push(c);
        k = k + 1;
    }
    Ok(costs)
}

/// The first index of a smallest key.
pub fn arg_min(keys: &Vec<u64>) -> (r: usize)
    requires
        keys@.len() > 0,
    ensures
        r < keys@.len(),
        forall|k: int| 0 <= k < keys@.len() ==> keys@[r as int] <= #[trigger] keys@[k],
        forall|k: int| 0 <= k < r ==> keys@[r as int] < #[trigger] keys@[k],
{
    let mut best: usize = 0;
    let mut k: usize = 1;
    while k < keys.len()
        invariant
            keys@.len() > 0,
            best < k <= keys@.len(),
            forall|j: int| 0 <= j < k ==> keys@[best as int] <= #[trigger] keys@[j],
            forall|j: int| 0 <= j < best ==> keys@[best as int] < #[trigger] keys@[j],
        decreases keys@.len() - k,
    {
        if keys[k] < keys[best] {
            best = k;
        }
        k = k + 1;
    }
    best
}

/// No key exceeds the one at `i`.
pub open spec fn is_max_at(keys: Seq<u64>, i: int) -> bool {
    forall|k: int| 0 <= k < keys.len() ==> #[trigger] keys[k] <= keys[i]
}

/// The indices of all largest keys, in increasing order.
pub fn max_set(keys: &Vec<u64>) -> (r: Vec<usize>)
    ensures
        forall|i: int| 0 <= i < keys@.len() ==> (r@.contains(i as usize) <==> #[trigger] is_max_at(keys@, i)),
        forall|j: int| 0 <= j < r@.len() ==> #[trigger] r@[j] < keys@.len(),
        forall|a: int, b: int| 0 <= a < b < r@.len() ==> r@[a] < r@[b],
{
    let mut r: Vec<usize> = Vec::new();
    if keys.len() == 0 {
        return r;
    }
    let mut top: u64 = keys[0];
    let mut k: usize = 1;
    while k < keys.len()
        invariant
            keys@.len() > 0,
            1 <= k <= keys@.len(),
            forall|j: int| 0 <= j < k ==> #[trigger] keys@[j] <= top,
            exists|j: int| 0 <= j < k && #[trigger] keys@[j] == top,
        decreases keys@.len() - k,
    {
        if keys[k] > top {
            top = keys[k];
        }
        k = k + 1;
    }
    let mut i: usize = 0;
    while i < keys.len()
        invariant
            i <= keys@.len(),
            forall|j: int| 0 <= j < keys@.len() ==> #[trigger] keys@[j] <= top,
            exists|j: int| 0 <= j < keys@.len() && #[trigger] keys@[j] == top,
            forall|i2: int|
                0 <= i2 < keys@.len() ==> (r@.contains(i2 as usize) <==> (i2 < i && keys@[i2] == top)),
            forall|j: int| 0 <= j < r@.len() ==> #[trigger] r@[j] < i,
            forall|a: int, b: int| 0 <= a < b < r@.len() ==> r@[a] < r@[b],
        decreases keys@.len() - i,
    {
        let ghost old_r = r@;
        if keys[i] == top {
            r.push(i);
        }
        proof {
            assert forall|i2: int|
                0 <= i2 < keys@.len() implies (r@.contains(i2 as usize) <==> (i2 < i + 1 && keys@[i2] == top)) by {
                if r@.contains(i2 as usize) {
                    let j = choose|j: int| 0 <= j < r@.len() && r@[j] == i2 as usize;
                    if j < old_r.len() {
                        assert(old_r[j] == i2 as usize);
                    }
                }
                if i2 < i && keys@[i2] == top {
                    assert(old_r.contains(i2 as usize));
                    let j = choose|j: int| 0 <= j < old_r.len() && old_r[j] == i2 as usize;
                    assert(r@[j] == i2 as usize);
                }
                if i2 == i && keys@[i2] == top {
                    assert(r@[r@.len() - 1] == i2 as usize);
                }
            }
        }
        i = i + 1;
    }
    proof {
        assert forall|i2: int|
            0 <= i2 < keys@.len() implies (r@.contains(i2 as usize) <==> #[trigger] is_max_at(keys@, i2)) by {
            let j = choose|j: int| 0 <= j < keys@.len() && #[trigger] keys@[j] == top;
            if is_max_at(keys@, i2) {
                assert(keys@[j] <= keys@[i2]);
            }
        }
    }
    r
}

/// A maximizing pattern, the cut on which it does worst, and that cost.
#[derive(Debug)]
pub struct Record {
    pub pattern: BitPattern,
    pub cutline: Cutline,
    pub cost: Cost,
}

} // verus!
