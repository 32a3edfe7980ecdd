use crate::bits::{
    bits_of, bitset_contains, bitset_len, bitset_put, bitset_with_capacity, BitPattern,
};
use crate::geometry::{
    canonical, canonical_edge, edge_at, in_primal_spec, edge_index_spec, in_grid,
    primal_edge, Edge, Point, MAX_SIDE,
};
use crate::graph::{line_starts, SearchError, SearchGraph};
use crate::order::Order;
use vstd::prelude::*;
use vstd::string::{StrSliceExecFns, StringExecFns};

verus! {

/// What a pattern lookup needs to know of the lattice.
#[derive(Debug, Clone, Copy)]
pub struct Context {
    pub qubit_at_origin: bool,
    pub width: u32,
    pub height: u32,
    pub n_slash: usize,
}

impl Context {
    pub open spec fn wf(&self) -> bool {
        &&& 1 <= self.width <= MAX_SIDE
        &&& 1 <= self.height <= MAX_SIDE
        &&& self.n_slash <= MAX_SIDE * MAX_SIDE
    }

    pub fn from_graph(graph: &SearchGraph) -> (r: Self)
        requires
            graph.wf(),
        ensures
            r.wf(),
            r.qubit_at_origin == graph.config.qubit_at_origin,
            r.width == graph.config.width,
            r.height == graph.config.height,
            r.n_slash == line_starts(
                graph.width_spec(),
                graph.height_spec(),
                graph.origin_spec(),
                true,
                graph.width_spec() * graph.height_spec(),
            ),
    {
        let n_slash = graph.num_slash();
        proof {
            lemma_line_starts_le(
                graph.width_spec(),
                graph.height_spec(),
                graph.origin_spec(),
                true,
                graph.width_spec() * graph.height_spec(),
            );
            let w = graph.width_spec();
            let h = graph.height_spec();
            assert(w * h <= MAX_SIDE * MAX_SIDE) by (nonlinear_arith)
                requires
                    0 <= w <= MAX_SIDE,
                    0 <= h,
                    h <= MAX_SIDE,
            ;
        }
        Context {
            qubit_at_origin: graph.config.qubit_at_origin,
            width: graph.config.width,
            height: graph.config.height,
            n_slash,
        }
    }
}

proof fn lemma_line_starts_le(w: int, h: int, origin: bool, slash: bool, n: int)
    requires
        n >= 0,
    ensures
        line_starts(w, h, origin, slash, n) <= n,
    decreases n,
{
    if n > 0 {
        lemma_line_starts_le(w, h, origin, slash, n - 1);
    }
}

/// The index of the bit that flips the parity of the diagonal line through an edge.
pub open spec fn slash_index_spec(n1: Point, n2: Point, origin: bool, h: int, n_slash: int) -> int {
    let (a, b) = canonical((n1, n2));
    if a.1 > b.1 {
        (if origin {
            0int
        } else {
            1int
        }) + (a.0 + a.1) / 2
    } else {
        (if (origin && h % 2 == 0) || (!origin && h % 2 == 1) {
            1int
        } else {
            0int
        }) + (h - 1 - b.1 + b.0) / 2 + n_slash
    }
}

/// An edge of the grid: two diagonal neighbours inside it.
pub open spec fn grid_edge(w: int, h: int, n1: Point, n2: Point) -> bool {
    in_grid(w, h, n1) && in_grid(w, h, n2) && (n2.0 == n1.0 + 1 || n2.0 == n1.0 - 1) && (n2.1
        == n1.1 + 1 || n2.1 == n1.1 - 1)
}

pub fn slash_index(n1: Point, n2: Point, qubit_at_origin: bool, height: u32, n_slash: usize) -> (r:
    usize)
    requires
        1 <= height <= MAX_SIDE,
        n_slash <= MAX_SIDE * MAX_SIDE,
        0 <= n1.0 < MAX_SIDE && 0 <= n1.1 < height,
        0 <= n2.0 < MAX_SIDE && 0 <= n2.1 < height,
    ensures
        r == slash_index_spec(n1, n2, qubit_at_origin, height as int, n_slash as int),
{
    let (a, b) = canonical_edge(n1, n2);
    if a.1 > b.1 {
        let offset: i32 = if qubit_at_origin {
            0
        } else {
            1
        };
        (offset + (a.0 + a.1) / 2) as usize
    } else {
        let offset: i32 = if (qubit_at_origin && height % 2 == 0) || (!qubit_at_origin && height % 2
            == 1) {
            1
        } else {
            0
        };
        (offset + (height as i32 - 1 - b.1 + b.0) / 2) as usize + n_slash
    }
}

/// The index of an edge for `edges_per_line` edges in each row of unit squares.
pub fn get_edge_index(n1: Point, n2: Point, edges_per_line: usize) -> (r: usize)
    requires
        1 <= edges_per_line < MAX_SIDE,
        0 <= n1.0 < MAX_SIDE && 0 <= n1.1 < MAX_SIDE,
        0 <= n2.0 < MAX_SIDE && 0 <= n2.1 < MAX_SIDE,
        n1.0 + n2.0 >= 1,
        n1.1 + n2.1 >= 1,
    ensures
        r == (n1.1 + n2.1 - 1) / 2 * edges_per_line + (n1.0 + n2.0 - 1) / 2,
{
    let y = ((n1.1 + n2.1 - 1) / 2) as usize;
    let x = ((n1.0 + n2.0 - 1) / 2) as usize;
    assert(y * edges_per_line <= MAX_SIDE * MAX_SIDE) by (nonlinear_arith)
        requires
            y < MAX_SIDE,
            edges_per_line < MAX_SIDE,
    ;
    y * edges_per_line + x
}

/// The label for a global flip and a line parity.
pub open spec fn order_for(flip: bool, parity: bool) -> Order {
    match (flip, parity) {
        (false, false) => Order::C,
        (false, true) => Order::D,
        (true, false) => Order::A,
        (true, true) => Order::B,
    }
}

/// The parity that an edge has before any line bit is applied.
pub open spec fn intrinsic_parity(n1: Point, n2: Point, origin: bool) -> bool {
    let (a, b) = canonical((n1, n2));
    if a.1 > b.1 {
        (a.1 % 2 == 0) != origin
    } else {
        b.0 % 2 == 0
    }
}

/// The label that bits give an edge, with no regard to whether its line has a bit.
pub open spec fn bit_order(bits: Seq<bool>, n1: Point, n2: Point, origin: bool, h: int, n_slash: int) -> Order {
    let (a, b) = canonical((n1, n2));
    let index = slash_index_spec(n1, n2, origin, h, n_slash);
    order_for(bits[0] != (a.1 > b.1), intrinsic_parity(n1, n2, origin) != line_bit(bits, index))
}

/// The bit of a line; a line past the end of the pattern reads as clear.
pub open spec fn line_bit(bits: Seq<bool>, index: int) -> bool {
    0 <= index < bits.len() && bits[index]
}

/// The label of an edge under a bit pattern.
pub open spec fn bit_look_up_spec(
    bits: Seq<bool>,
    n1: Point,
    n2: Point,
    origin: bool,
    h: int,
    n_slash: int,
) -> Option<Order> {
    Some(bit_order(bits, n1, n2, origin, h, n_slash))
}

fn order_from_bits(flip: bool, parity: bool) -> (r: Order)
    ensures
        r == order_for(flip, parity),
{
    match (flip, parity) {
        (false, false) => Order::C,
        (false, true) => Order::D,
        (true, false) => Order::A,
        (true, true) => Order::B,
    }
}

/// The label that a bit pattern gives the edge `(n1, n2)`.
pub fn bit_look_up(pattern: &BitPattern, n1: Point, n2: Point, context: &Context) -> (r: Option<
    Order,
>)
    requires
        context.wf(),
        grid_edge(context.width as int, context.height as int, n1, n2),
        bits_of(*pattern).len() >= 1,
    ensures
        r == bit_look_up_spec(
            bits_of(*pattern),
            n1,
            n2,
            context.qubit_at_origin,
            context.height as int,
            context.n_slash as int,
        ),
{
    let (a, b) = canonical_edge(n1, n2);
    let ab_flip_cd = bitset_contains(pattern, 0);
    let is_slash = a.1 > b.1;
    let qubit_at_origin = context.qubit_at_origin;
    let index = slash_index(n1, n2, qubit_at_origin, context.height, context.n_slash);
    let line = index < bitset_len(pattern) && bitset_contains(pattern, index);
    let mut parity: bool;
    if is_slash {
        parity = (a.1 % 2 == 0) != qubit_at_origin;
    } else {
        parity = b.0 % 2 == 0;
    }
    parity = parity != line;
    Some(order_from_bits(ab_flip_cd != is_slash, parity))
}

/// The order vector of a bit pattern: the label of every real edge, `None` elsewhere.
pub open spec fn bit_order_vec_spec(bits: Seq<bool>, graph: SearchGraph) -> Seq<Option<Order>> {
    Seq::new(
        graph.n_edges() as nat,
        |i: int|
            if graph.real_edges@[i] {
                bit_look_up_spec(
                    bits,
                    edge_at(graph.width_spec(), graph.origin_spec(), i).0,
                    edge_at(graph.width_spec(), graph.origin_spec(), i).1,
                    graph.origin_spec(),
                    graph.height_spec(),
                    line_starts(
                        graph.width_spec(),
                        graph.height_spec(),
                        graph.origin_spec(),
                        true,
                        graph.width_spec() * graph.height_spec(),
                    ) as int,
                )
            } else {
                None
            },
    )
}

/// The label of every primal edge under a bit pattern, by edge index; `None` on non-real edges.
pub fn bit_order_vec(pattern: &BitPattern, graph: &SearchGraph) -> (r: Vec<Option<Order>>)
    requires
        graph.wf(),
        bits_of(*pattern).len() >= 1,
    ensures
        r@ == bit_order_vec_spec(bits_of(*pattern), *graph),
        r@.len() == graph.n_edges(),
        forall|i: int| 0 <= i < graph.n_edges() ==> ((#[trigger] r@[i]) is None <==> !graph.real_edges@[i]),
        forall|i: int|
            0 <= i < graph.n_edges() ==> r@[i] == if graph.real_edges@[i] {
                bit_look_up_spec(
                    bits_of(*pattern),
                    edge_at(graph.width_spec(), graph.origin_spec(), i).0,
                    edge_at(graph.width_spec(), graph.origin_spec(), i).1,
                    graph.origin_spec(),
                    graph.height_spec(),
                    line_starts(
                        graph.width_spec(),
                        graph.height_spec(),
                        graph.origin_spec(),
                        true,
                        graph.width_spec() * graph.height_spec(),
                    ) as int,
                )
            } else {
                None
            },
{
    let context = Context::from_graph(graph);
    let n = graph.real_edges.len();
    let mut r: Vec<Option<Order>> = Vec::new();
    let mut i: usize = 0;
    while i < n
        invariant
            graph.wf(),
            bits_of(*pattern).len() >= 1,
            context.wf(),
            context.qubit_at_origin == graph.config.qubit_at_origin,
            context.width == graph.config.width,
            context.height == graph.config.height,
            context.n_slash == line_starts(
                graph.width_spec(),
                graph.height_spec(),
                graph.origin_spec(),
                true,
                graph.width_spec() * graph.height_spec(),
            ),
            n == graph.n_edges(),
            i <= n,
            r@.len() == i,
            forall|k: int|
                0 <= k < i ==> r@[k] == if graph.real_edges@[k] {
                    bit_look_up_spec(
                        bits_of(*pattern),
                        edge_at(graph.width_spec(), graph.origin_spec(), k).0,
                        edge_at(graph.width_spec(), graph.origin_spec(), k).1,
                        graph.origin_spec(),
                        graph.height_spec(),
                        context.n_slash as int,
                    )
                } else {
                    None
                },
        decreases n - i,
    {
        if graph.real_edges[i] {
            let e = graph.get_edge(i);
            r.push(bit_look_up(pattern, e.0, e.1, &context));
        } else {
            r.push(None);
        }
        i = i + 1;
    }
    assert(r@ =~= bit_order_vec_spec(bits_of(*pattern), *graph));
    r
}

} // verus!

verus! {

pub open spec fn bit_char(b: bool) -> char {
    if b {
        '1'
    } else {
        '0'
    }
}

pub open spec fn is_bit_char(c: char) -> bool {
    c == '0' || c == '1'
}

pub open spec fn bit_chars(bits: Seq<bool>) -> Seq<char> {
    bits.map_values(|b: bool| bit_char(b))
}

/// The string form of a pattern: `<bit0>_<slash bits>_<complement of bit0>_<back-slash bits>`.
pub open spec fn repr_spec(bits: Seq<bool>, n_slash: int) -> Seq<char> {
    seq![bit_char(bits[0]), '_'] + bit_chars(bits.subrange(1, n_slash + 1)) + seq![
        '_',
        bit_char(!bits[0]),
        '_',
    ] + bit_chars(bits.subrange(n_slash + 1, bits.len() as int))
}

/// A well-formed string form of some pattern.
pub open spec fn repr_ok(s: Seq<char>) -> bool {
    exists|bits: Seq<bool>, n: int| 0 <= n && n + 1 <= bits.len() && s == #[trigger] repr_spec(bits, n)
}

proof fn lemma_repr_shape(bits: Seq<bool>, n: int)
    requires
        0 <= n,
        n + 1 <= bits.len(),
    ensures
        repr_spec(bits, n).len() == bits.len() + 4,
        repr_spec(bits, n)[0] == bit_char(bits[0]),
        repr_spec(bits, n)[1] == '_',
        forall|k: int| 2 <= k < 2 + n ==> repr_spec(bits, n)[k] == bit_char(bits[k - 1]),
        repr_spec(bits, n)[2 + n] == '_',
        repr_spec(bits, n)[3 + n] == bit_char(!bits[0]),
        repr_spec(bits, n)[4 + n] == '_',
        forall|k: int|
            5 + n <= k < bits.len() + 4 ==> repr_spec(bits, n)[k] == bit_char(bits[k - 4]),
{
    let s = repr_spec(bits, n);
    assert forall|k: int| 2 <= k < 2 + n implies s[k] == bit_char(bits[k - 1]) by {
        assert(bit_chars(bits.subrange(1, n + 1))[k - 2] == bit_char(bits[k - 1]));
    }
    assert forall|k: int| 5 + n <= k < bits.len() + 4 implies s[k] == bit_char(bits[k - 4]) by {
        assert(bit_chars(bits.subrange(n + 1, bits.len() as int))[k - 5 - n] == bit_char(
            bits[k - 4],
        ));
    }
}

/// The string form determines the pattern and the number of slash bits.
pub proof fn lemma_repr_injective(bits: Seq<bool>, n: int, bits2: Seq<bool>, n2: int)
    requires
        0 <= n,
        n + 1 <= bits.len(),
        0 <= n2,
        n2 + 1 <= bits2.len(),
        repr_spec(bits2, n2) == repr_spec(bits, n),
    ensures
        bits2 == bits,
        n2 == n,
{
    lemma_repr_shape(bits, n);
    lemma_repr_shape(bits2, n2);
    let s = repr_spec(bits, n);
    if n < n2 {
        assert(s[2 + n] == bit_char(bits2[n + 1]));
    } else if n2 < n {
        assert(s[2 + n2] == bit_char(bits[n2 + 1]));
    }
    assert forall|k: int| 0 <= k < bits.len() implies bits2[k] == bits[k] by {
        if k == 0 {
            assert(s[0] == bit_char(bits[0]));
        } else if k <= n {
            assert(s[k + 1] == bit_char(bits[k]));
        } else {
            assert(s[k + 4] == bit_char(bits[k]));
        }
    }
    assert(bits2 =~= bits);
}

/// Reading back the string form of a pattern gives the pattern again.
pub proof fn lemma_repr_round_trip(bits: Seq<bool>, n: int)
    requires
        0 <= n,
        n + 1 <= bits.len(),
    ensures
        repr_ok(repr_spec(bits, n)),
        forall|bits2: Seq<bool>, n2: int|
            0 <= n2 && n2 + 1 <= bits2.len() && #[trigger] repr_spec(bits2, n2) == repr_spec(bits, n)
                ==> bits2 == bits,
{
    assert forall|bits2: Seq<bool>, n2: int|
        0 <= n2 && n2 + 1 <= bits2.len() && #[trigger] repr_spec(bits2, n2) == repr_spec(
            bits,
            n,
        ) implies bits2 == bits by {
        lemma_repr_injective(bits, n, bits2, n2);
    }
}

fn append_bit(s: &mut String, b: bool)
    ensures
        final(s)@ == old(s)@.push(bit_char(b)),
{
    proof {
        reveal_strlit("1");
        reveal_strlit("0");
    }
    if b {
        s.append("1");
    } else {
        s.append("0");
    }
}

fn append_underscore(s: &mut String)
    ensures
        final(s)@ == old(s)@.push('_'),
{
    proof {
        reveal_strlit("_");
    }
    s.append("_");
}

/// The string form of a bit pattern with `n_slash` slash bits.
pub fn pattern_repr(pattern: &BitPattern, n_slash: usize) -> (r: String)
    requires
        n_slash + 1 <= bits_of(*pattern).len(),
    ensures
        r@ == repr_spec(bits_of(*pattern), n_slash as int),
{
    let ghost bits = bits_of(*pattern);
    let len = bitset_len(pattern);
    let first = bitset_contains(pattern, 0);
    let mut s = String::new();
    append_bit(&mut s, first);
    append_underscore(&mut s);
    let mut i: usize = 1;
    while i <= n_slash
        invariant
            bits == bits_of(*pattern),
            len == bits.len(),
            n_slash + 1 <= len,
            first == bits[0],
            1 <= i <= n_slash + 1,
            s@ == seq![bit_char(bits[0]), '_'] + bit_chars(bits.subrange(1, i as int)),
        decreases n_slash + 1 - i,
    {
        let b = bitset_contains(pattern, i);
        append_bit(&mut s, b);
        proof {
            assert(bit_chars(bits.subrange(1, i + 1)) =~= bit_chars(bits.subrange(1, i as int)).push(
                bit_char(b),
            ));
        }
        i = i + 1;
    }
    append_underscore(&mut s);
    append_bit(&mut s, !first);
    append_underscore(&mut s);
    let ghost head = s@;
    while i < len
        invariant
            bits == bits_of(*pattern),
            len == bits.len(),
            n_slash + 1 <= i <= len,
            head == seq![bit_char(bits[0]), '_'] + bit_chars(bits.subrange(1, n_slash + 1))
                + seq!['_', bit_char(!bits[0]), '_'],
            s@ == head + bit_chars(bits.subrange(n_slash + 1, i as int)),
        decreases len - i,
    {
        let b = bitset_contains(pattern, i);
        append_bit(&mut s, b);
        proof {
            assert(bit_chars(bits.subrange(n_slash + 1, i + 1)) =~= bit_chars(
                bits.subrange(n_slash + 1, i as int),
            ).push(bit_char(b)));
        }
        i = i + 1;
    }
    proof {
        assert(s@ =~= repr_spec(bits, n_slash as int));
    }
    s
}

} // verus!

verus! {

proof fn lemma_repr_slash_count(s: Seq<char>, bits: Seq<bool>, n: int, m: int)
    requires
        0 <= n,
        n + 1 <= bits.len(),
        s == repr_spec(bits, n),
        0 <= m,
        m + 2 < s.len(),
        forall|k: int| 2 <= k < m + 2 ==> is_bit_char(s[k]),
        s[m + 2] == '_',
    ensures
        n == m,
{
    lemma_repr_shape(bits, n);
    if n < m {
        assert(is_bit_char(s[n + 2]));
    } else if m < n {
        assert(s[m + 2] == bit_char(bits[m + 1]));
    }
}

fn char_bit(c: char) -> (r: Option<bool>)
    ensures
        r is Some <==> is_bit_char(c),
        r matches Some(b) ==> bit_char(b) == c,
{
    if c == '1' {
        Some(true)
    } else if c == '0' {
        Some(false)
    } else {
        None
    }
}

/// Reads a pattern from its string form; `ParseError` if the string is not one.
pub fn pattern_from_repr(repr: &str) -> (r: Result<BitPattern, SearchError>)
    ensures
        r is Ok <==> repr_ok(repr@),
        r matches Ok(p) ==> forall|bits: Seq<bool>, n: int|
            0 <= n && n + 1 <= bits.len() && repr@ == #[trigger] repr_spec(bits, n) ==> bits_of(p)
                == bits,
        r is Err ==> r == Err::<BitPattern, SearchError>(SearchError::ParseError),
{
    let ghost s = repr@;
    let len = repr.unicode_len();
    if len < 5 {
        proof {
            if repr_ok(s) {
                let (bits, n) = choose|bits: Seq<bool>, n: int|
                    0 <= n && n + 1 <= bits.len() && s == #[trigger] repr_spec(bits, n);
                lemma_repr_shape(bits, n);
            }
        }
        return Err(SearchError::ParseError);
    }
    let first = char_bit(repr.get_char(0));
    if first.is_none() || repr.get_char(1) != '_' {
        proof {
            if repr_ok(s) {
                let (bits, n) = choose|bits: Seq<bool>, n: int|
                    0 <= n && n + 1 <= bits.len() && s == #[trigger] repr_spec(bits, n);
                lemma_repr_shape(bits, n);
            }
        }
        return Err(SearchError::ParseError);
    }
    let b0 = first.unwrap();
    // slash bits run from index 2 up to the next underscore
    let mut j: usize = 2;
    while j < len && repr.get_char(j) != '_'
        invariant
            s == repr@,
            len == s.len(),
            5 <= len,
            2 <= j <= len,
            forall|k: int| 2 <= k < j ==> is_bit_char(s[k]),
        decreases len - j,
    {
        if char_bit(repr.get_char(j)).is_none() {
            proof {
                if repr_ok(s) {
                    let (bits, n) = choose|bits: Seq<bool>, n: int|
                        0 <= n && n + 1 <= bits.len() && s == #[trigger] repr_spec(bits, n);
                    lemma_repr_shape(bits, n);
                    if j < 2 + n {
                        assert(s[j as int] == bit_char(bits[j - 1]));
                    }
                }
            }
            return Err(SearchError::ParseError);
        }
        j = j + 1;
    }
    proof {
        if repr_ok(s) {
            let (bits, n) = choose|bits: Seq<bool>, n: int|
                0 <= n && n + 1 <= bits.len() && s == #[trigger] repr_spec(bits, n);
            lemma_repr_shape(bits, n);
            if j < 2 + n {
                assert(s[j as int] == bit_char(bits[j - 1]));
            }
            if j > 2 + n {
                assert(is_bit_char(s[2 + n]));
            }
            assert(j == 2 + n);
        }
    }
    let n_slash = j - 2;
    if len - j < 3 || repr.get_char(n_slash + 4) != '_' {
        proof {
            if repr_ok(s) {
                let (bits, n) = choose|bits: Seq<bool>, n: int|
                    0 <= n && n + 1 <= bits.len() && s == #[trigger] repr_spec(bits, n);
                lemma_repr_shape(bits, n);
            }
        }
        return Err(SearchError::ParseError);
    }
    let flip = char_bit(repr.get_char(n_slash + 3));
    if flip.is_none() || flip.unwrap() == b0 {
        proof {
            if repr_ok(s) {
                let (bits, n) = choose|bits: Seq<bool>, n: int|
                    0 <= n && n + 1 <= bits.len() && s == #[trigger] repr_spec(bits, n);
                lemma_repr_shape(bits, n);
                assert(bit_char(b0) == s[0]);
            }
        }
        return Err(SearchError::ParseError);
    }
    let mut k: usize = n_slash + 5;
    while k < len
        invariant
            s == repr@,
            len == s.len(),
            n_slash + 5 <= len,
            n_slash + 5 <= k <= len,
            forall|m: int| 2 <= m < n_slash + 2 ==> is_bit_char(s[m]),
            s[n_slash + 2] == '_',
            forall|m: int| n_slash + 5 <= m < k ==> is_bit_char(s[m]),
        decreases len - k,
    {
        if char_bit(repr.get_char(k)).is_none() {
            proof {
                if repr_ok(s) {
                    let (bits, n) = choose|bits: Seq<bool>, n: int|
                        0 <= n && n + 1 <= bits.len() && s == #[trigger] repr_spec(bits, n);
                    lemma_repr_shape(bits, n);
                    lemma_repr_slash_count(s, bits, n, n_slash as int);
                    assert(s[k as int] == bit_char(bits[k - 4]));
                }
            }
            return Err(SearchError::ParseError);
        }
        k = k + 1;
    }
    // every character is in place: collect the bits
    let n_bits = len - 4;
    let mut pattern = bitset_with_capacity(n_bits);
    let ghost bits = Seq::new(
        n_bits as nat,
        |m: int|
            if m == 0 {
                s[0] == '1'
            } else if m <= n_slash {
                s[m + 1] == '1'
            } else {
                s[m + 4] == '1'
            },
    );
    if b0 {
        bitset_put(&mut pattern, 0);
    }
    let mut m: usize = 1;
    while m < n_bits
        invariant
            s == repr@,
            len == s.len(),
            n_bits == len - 4,
            n_slash + 1 <= n_bits,
            1 <= m <= n_bits,
            bit_char(b0) == s[0],
            bits_of(pattern).len() == n_bits,
            bits.len() == n_bits,
            forall|q: int|
                0 <= q < n_bits ==> bits[q] == if q == 0 {
                    s[0] == '1'
                } else if q <= n_slash {
                    s[q + 1] == '1'
                } else {
                    s[q + 4] == '1'
                },
            forall|q: int| 0 <= q < m ==> bits_of(pattern)[q] == bits[q],
            forall|q: int| m <= q < n_bits ==> !bits_of(pattern)[q],
        decreases n_bits - m,
    {
        let pos = if m <= n_slash {
            m + 1
        } else {
            m + 4
        };
        let c = repr.get_char(pos);
        assert(bits[m as int] == (c == '1'));
        if c == '1' {
            bitset_put(&mut pattern, m);
        }
        m = m + 1;
    }
    proof {
        assert(bits_of(pattern) =~= bits);
        lemma_repr_shape(bits, n_slash as int);
        assert(repr_spec(bits, n_slash as int) =~= s) by {
            assert forall|q: int| 0 <= q < s.len() implies repr_spec(bits, n_slash as int)[q] == s[q] by {
                if q == 0 {
                } else if q == 1 {
                } else if q < 2 + n_slash {
                    assert(is_bit_char(s[q]));
                } else if q == 2 + n_slash {
                } else if q == 3 + n_slash {
                } else if q == 4 + n_slash {
                } else {
                    assert(is_bit_char(s[q]));
                }
            }
        }
        assert(repr_spec(bits_of(pattern), n_slash as int) == s);
        assert(0 <= n_slash && n_slash + 1 <= bits_of(pattern).len() && repr@ == repr_spec(
            bits_of(pattern),
            n_slash as int,
        ));
        assert forall|bits2: Seq<bool>, n2: int|
            0 <= n2 && n2 + 1 <= bits2.len() && repr@ == #[trigger] repr_spec(bits2, n2) implies bits_of(
            pattern,
        ) == bits2 by {
            lemma_repr_injective(bits_of(pattern), n_slash as int, bits2, n2);
        }
    }
    Ok(pattern)
}

} // verus!

verus! {

/// Under the all-zero pattern (of any length), the edges at a qubit of an odd row towards
/// `(+x, -y)`, `(-x, +y)`, `(+x, +y)` and `(-x, -y)` carry `A`, `B`, `C` and `D`.
pub proof fn lemma_zero_pattern_tiling(bits: Seq<bool>, x: i32, y: i32, h: int, n_slash: int)
    requires
        1 <= x < MAX_SIDE,
        1 <= y < MAX_SIDE,
        y % 2 == 1,
        in_primal_spec(x as int, y as int, false),
        bits.len() >= 1,
        forall|k: int| 0 <= k < bits.len() ==> !bits[k],
    ensures
        bit_look_up_spec(bits, (x, y), ((x + 1) as i32, (y - 1) as i32), false, h, n_slash) == Some(
            Order::A,
        ),
        bit_look_up_spec(bits, (x, y), ((x - 1) as i32, (y + 1) as i32), false, h, n_slash) == Some(
            Order::B,
        ),
        bit_look_up_spec(bits, (x, y), ((x + 1) as i32, (y + 1) as i32), false, h, n_slash) == Some(
            Order::C,
        ),
        bit_look_up_spec(bits, (x, y), ((x - 1) as i32, (y - 1) as i32), false, h, n_slash) == Some(
            Order::D,
        ),
{
    let p: Point = (x, y);
    let q1: Point = ((x + 1) as i32, (y - 1) as i32);
    let q2: Point = ((x - 1) as i32, (y + 1) as i32);
    let q3: Point = ((x + 1) as i32, (y + 1) as i32);
    let q4: Point = ((x - 1) as i32, (y - 1) as i32);
    assert(x % 2 == 0);
}

} // verus!

verus! {

/// Each line count is at most the number of grid points.
pub proof fn lemma_starts_bound(g: SearchGraph)
    requires
        g.wf(),
    ensures
        line_starts(g.width_spec(), g.height_spec(), g.origin_spec(), true, g.width_spec() * g.height_spec())
            <= MAX_SIDE * MAX_SIDE,
        line_starts(g.width_spec(), g.height_spec(), g.origin_spec(), false, g.width_spec() * g.height_spec())
            <= MAX_SIDE * MAX_SIDE,
{
    let w = g.width_spec();
    let h = g.height_spec();
    lemma_line_starts_le(w, h, g.origin_spec(), true, w * h);
    lemma_line_starts_le(w, h, g.origin_spec(), false, w * h);
    assert(w * h <= MAX_SIDE * MAX_SIDE) by (nonlinear_arith)
        requires
            0 <= w <= MAX_SIDE,
            0 <= h <= MAX_SIDE,
    ;
}

} // verus!
