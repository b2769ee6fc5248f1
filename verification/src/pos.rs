//! Grid positions, pushes and search costs.

use vstd::prelude::*;

verus! {

/// A cell coordinate on the grid. `x` grows to the right and `y` down
/// the lines of the textual level format; the direction helpers below
/// are named for the axes, not for what is "up" on screen.
#[derive(Copy, Clone, Eq, PartialEq, Structural, Debug, Hash, PartialOrd, Ord)]
pub struct Pos {
    pub x: u8,
    pub y: u8,
}

/// Strict total order on positions: by `x` first, then by `y`.
/// This matches the derived `Ord` on the field order `(x, y)`.
pub open spec fn pos_lt(a: Pos, b: Pos) -> bool {
    a.x < b.x || (a.x == b.x && a.y < b.y)
}

/// Reflexive closure of `pos_lt`.
pub open spec fn pos_le(a: Pos, b: Pos) -> bool {
    pos_lt(a, b) || a == b
}

impl Pos {
    pub fn new(x: u8, y: u8) -> (r: Self)
        ensures
            r == (Pos { x, y }),
    {
        Self { x, y }
    }

    /// The neighbour with the next larger `y`.
    pub fn up(&self) -> (r: Self)
        requires
            self.y < 255,
        ensures
            r == (Pos { x: self.x, y: (self.y + 1) as u8 }),
    {
        Self { x: self.x, y: self.y + 1 }
    }

    /// The neighbour with the next smaller `y`.
    pub fn down(&self) -> (r: Self)
        requires
            self.y > 0,
        ensures
            r == (Pos { x: self.x, y: (self.y - 1) as u8 }),
    {
        Self { x: self.x, y: self.y - 1 }
    }

    /// The neighbour with the next smaller `x`.
    pub fn left(&self) -> (r: Self)
        requires
            self.x > 0,
        ensures
            r == (Pos { x: (self.x - 1) as u8, y: self.y }),
    {
        Self { x: self.x - 1, y: self.y }
    }

    /// The neighbour with the next larger `x`.
    pub fn right(&self) -> (r: Self)
        requires
            self.x < 255,
        ensures
            r == (Pos { x: (self.x + 1) as u8, y: self.y }),
    {
        Self { x: self.x + 1, y: self.y }
    }

    /// Exec mirror of `pos_lt`.
    pub fn lt(&self, other: &Pos) -> (r: bool)
        ensures
            r == pos_lt(*self, *other),
    {
        self.x < other.x || (self.x == other.x && self.y < other.y)
    }
}

/// True when `a` and `b` are distinct axis-aligned grid neighbours.
pub open spec fn is_neighbour(a: Pos, b: Pos) -> bool {
    ||| (a.x == b.x && (b.y == a.y + 1 || a.y == b.y + 1))
    ||| (a.y == b.y && (b.x == a.x + 1 || a.x == b.x + 1))
}

/// A single push: the box moves from `start` to the adjacent cell `end`,
/// and the player ends up on `start`. Before the push the player stands on
/// the cell opposite `end` across `start`, at `2*start - end`.
#[derive(Copy, Clone, Eq, PartialEq, Structural, Debug)]
pub struct Move {
    pub start: Pos,
    pub end: Pos,
}

impl Move {
    pub fn new(start: Pos, end: Pos) -> (r: Self)
        ensures
            r == (Move { start, end }),
    {
        Self { start, end }
    }
}

/// The cell the player must occupy just before performing push `m`:
/// the neighbour of `m.start` opposite `m.end`.
pub open spec fn player_side(m: Move) -> Pos {
    Pos {
        x: (2 * m.start.x - m.end.x) as u8,
        y: (2 * m.start.y - m.end.y) as u8,
    }
}

/// Search cost of a partial or complete solution: the number of box pushes
/// and the cumulative number of player steps (walking steps plus one step
/// per push). Ordered lexicographically, pushes first.
#[derive(Copy, Clone, Eq, PartialEq, Structural, Debug, PartialOrd, Ord, Hash)]
pub struct Costs {
    pub pushes: u16,
    pub moves: u16,
}

/// Strict lexicographic order on costs: fewer pushes wins, then fewer moves.
pub open spec fn costs_lt(a: Costs, b: Costs) -> bool {
    a.pushes < b.pushes || (a.pushes == b.pushes && a.moves < b.moves)
}

/// Reflexive closure of `costs_lt`.
pub open spec fn costs_le(a: Costs, b: Costs) -> bool {
    costs_lt(a, b) || a == b
}

impl Costs {
    pub fn new(pushes: u16, moves: u16) -> (r: Self)
        ensures
            r == (Costs { pushes, moves }),
    {
        Self { pushes, moves }
    }

    pub fn zero() -> (r: Self)
        ensures
            r == (Costs { pushes: 0u16, moves: 0u16 }),
    {
        Self::new(0, 0)
    }

    /// Exec mirror of `costs_lt`.
    pub fn lt(&self, other: &Costs) -> (r: bool)
        ensures
            r == costs_lt(*self, *other),
    {
        self.pushes < other.pushes || (self.pushes == other.pushes && self.moves < other.moves)
    }
}

/// `costs_le` is a total order: reflexive, transitive, antisymmetric and total.
/// This is what makes the lexicographic comparator fit for ordering the
/// search frontier.
pub proof fn lemma_costs_le_total_order(a: Costs, b: Costs, c: Costs)
    ensures
        costs_le(a, a),
        costs_le(a, b) && costs_le(b, c) ==> costs_le(a, c),
        costs_le(a, b) && costs_le(b, a) ==> a == b,
        costs_le(a, b) || costs_le(b, a),
{
}

/// `pos_le` is a total order on positions, so a sorted box list is a
/// canonical representative of its multiset.
pub proof fn lemma_pos_le_total_order(a: Pos, b: Pos, c: Pos)
    ensures
        pos_le(a, a),
        pos_le(a, b) && pos_le(b, c) ==> pos_le(a, c),
        pos_le(a, b) && pos_le(b, a) ==> a == b,
        pos_le(a, b) || pos_le(b, a),
{
}

} // verus!
