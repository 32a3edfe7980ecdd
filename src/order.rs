use vstd::prelude::*;

verus! {

/// The slot that a two-qubit gate occupies in the repeating four-beat schedule.
#[derive(Debug, PartialEq, Eq, Clone, Copy, Hash, PartialOrd, Ord, Structural)]
pub enum Order {
    A,
    B,
    C,
    D,
}

/// Position of an order label in `A, B, C, D`.
pub open spec fn order_rank(o: Order) -> nat {
    match o {
        Order::A => 0,
        Order::B => 1,
        Order::C => 2,
        Order::D => 3,
    }
}

/// The label at position `k` of `A, B, C, D`.
pub open spec fn order_at(k: int) -> Order {
    if k == 0 {
        Order::A
    } else if k == 1 {
        Order::B
    } else if k == 2 {
        Order::C
    } else {
        Order::D
    }
}

/// The letter that names an order label.
pub open spec fn order_letter(o: Order) -> char {
    match o {
        Order::A => 'A',
        Order::B => 'B',
        Order::C => 'C',
        Order::D => 'D',
    }
}

impl Order {
    /// All four labels, in schedule order.
    pub fn all_possibles() -> (r: Vec<Order>)
        ensures
            r@ == seq![Order::A, Order::B, Order::C, Order::D],
    {
        vec![Order::A, Order::B, Order::C, Order::D]
    }

    /// The one-letter name of the label.
    pub fn as_str(&self) -> (r: &'static str)
        ensures
            r@ == seq![order_letter(*self)],
    {
        proof {
            reveal_strlit("A");
            reveal_strlit("B");
            reveal_strlit("C");
            reveal_strlit("D");
        }
        match self {
            Order::A => "A",
            Order::B => "B",
            Order::C => "C",
            Order::D => "D",
        }
    }

    /// Reads a label from its letter; any other character gives `None`.
    pub fn from_char(c: char) -> (r: Option<Order>)
        ensures
            r matches Some(o) ==> order_letter(o) == c,
            r is None <==> !(c == 'A' || c == 'B' || c == 'C' || c == 'D'),
    {
        match c {
            'A' => Some(Order::A),
            'B' => Some(Order::B),
            'C' => Some(Order::C),
            'D' => Some(Order::D),
            _ => None,
        }
    }

    /// Position of the label in `A, B, C, D`.
    pub fn rank(&self) -> (r: usize)
        ensures
            r == order_rank(*self),
    {
        match self {
            Order::A => 0,
            Order::B => 1,
            Order::C => 2,
            Order::D => 3,
        }
    }
}

} // verus!
