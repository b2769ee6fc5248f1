//! A parsed level: a grid of cells, as handed over by the level loader.

use vstd::prelude::*;

use crate::cell::{spec_cell_of_char, CellState, InputError};
use crate::pos::Pos;

verus! {

/// A level as a row-major grid of cells. Rows may have different lengths;
/// a cell beyond the end of its row counts as empty floor, exactly as if
/// the loader had padded the line with spaces.
pub struct Input {
    pub rows: Vec<Vec<CellState>>,
}

impl Input {
    /// The mathematical view: a sequence of rows of cells.
    pub open spec fn grid(&self) -> Seq<Seq<CellState>> {
        self.rows@.map_values(|r: Vec<CellState>| r@)
    }

    pub fn new(rows: Vec<Vec<CellState>>) -> (r: Self)
        ensures
            (r == Input { rows }),
    {
        Self { rows }
    }
}

/// Whether `p` addresses a stored cell of the grid (inside its row).
pub open spec fn p_in_row(g: Seq<Seq<CellState>>, p: Pos) -> bool {
    (p.y as int) < g.len() && (p.x as int) < g[p.y as int].len()
}

/// Row-major order: earlier row first, then earlier column.
pub open spec fn rm_lt(a: Pos, b: Pos) -> bool {
    a.y < b.y || (a.y == b.y && a.x < b.x)
}

/// Every stored cell of the grid is addressable by `u8` coordinates.
pub open spec fn fits_u8_grid(g: Seq<Seq<CellState>>) -> bool {
    &&& g.len() <= 256
    &&& forall|y: int| 0 <= y < g.len() ==> (#[trigger] g[y]).len() <= 256
}

impl Input {
    /// The position of the player marker: the first cell in row-major order
    /// holding the player. A level without a player marker is rejected.
    pub fn get_player_pos(&self) -> (r: Result<Pos, InputError>)
        requires
            fits_u8_grid(self.grid()),
        ensures
            match r {
                Ok(p) => {
                    &&& p_in_row(self.grid(), p)
                    &&& self.grid()[p.y as int][p.x as int].spec_is_player()
                    &&& forall|q: Pos|
                        p_in_row(self.grid(), q) && (#[trigger] self.grid()[q.y as int][q.x as int]).spec_is_player()
                            ==> !rm_lt(q, p)
                },
                Err(e) => {
                    &&& e == InputError::MissingPlayer
                    &&& forall|q: Pos|
                        p_in_row(self.grid(), q) ==> !(#[trigger] self.grid()[q.y as int][q.x as int]).spec_is_player()
                },
            },
    {
        let ghost g = self.grid();
        let mut y: usize = 0;
        while y < self.rows.len()
            invariant
                fits_u8_grid(g),
                g == self.grid(),
                y <= self.rows.len(),
                forall|q: Pos|
                    p_in_row(g, q) && (q.y as int) < y ==> !(#[trigger] g[q.y as int][q.x as int]).spec_is_player(),
            decreases self.rows.len() - y,
        {
            let row = &self.rows[y];
            let mut x: usize = 0;
            while x < row.len()
                invariant
                    fits_u8_grid(g),
                    g == self.grid(),
                    y < self.rows.len(),
                    row == &self.rows[y as int],
                    x <= row.len(),
                    forall|q: Pos|
                        p_in_row(g, q) && (q.y as int) < y ==> !(#[trigger] g[q.y as int][q.x as int]).spec_is_player(),
                    forall|q: Pos|
                        p_in_row(g, q) && (q.y as int) == y && (q.x as int) < x ==> !(
                        #[trigger] g[q.y as int][q.x as int]).spec_is_player(),
                decreases row.len() - x,
            {
                if row[x].is_player() {
                    let p = Pos { x: x as u8, y: y as u8 };
                    assert(p_in_row(g, p) && g[p.y as int][p.x as int].spec_is_player());
                    return Ok(p);
                }
                x = x + 1;
            }
            y = y + 1;
        }
        Err(InputError::MissingPlayer)
    }

    /// The positions of all boxes, in row-major order.
    pub fn get_boxes(&self) -> (r: Vec<Pos>)
        requires
            fits_u8_grid(self.grid()),
        ensures
            forall|p: Pos| #[trigger]
                r@.contains(p) <==> p_in_row(self.grid(), p) && self.grid()[p.y as int][p.x as int].spec_is_box(),
            forall|i: int, j: int| 0 <= i < j < r@.len() ==> rm_lt(r@[i], r@[j]),
    {
        self.scan_marks(true)
    }

    /// The positions of all destinations, in row-major order.
    pub fn get_destinations(&self) -> (r: Vec<Pos>)
        requires
            fits_u8_grid(self.grid()),
        ensures
            forall|p: Pos| #[trigger]
                r@.contains(p) <==> p_in_row(self.grid(), p) && self.grid()[p.y as int][p.x as int].spec_is_destination(),
            forall|i: int, j: int| 0 <= i < j < r@.len() ==> rm_lt(r@[i], r@[j]),
    {
        self.scan_marks(false)
    }

    /// Collects, in row-major order, the cells holding a box (`boxes` true)
    /// or a destination (`boxes` false).
    fn scan_marks(&self, boxes: bool) -> (r: Vec<Pos>)
        requires
            fits_u8_grid(self.grid()),
        ensures
            forall|p: Pos| #[trigger]
                r@.contains(p) <==> p_in_row(self.grid(), p) && (if boxes {
                    self.grid()[p.y as int][p.x as int].spec_is_box()
                } else {
                    self.grid()[p.y as int][p.x as int].spec_is_destination()
                }),
            forall|i: int, j: int| 0 <= i < j < r@.len() ==> rm_lt(r@[i], r@[j]),
    {
        let ghost g = self.grid();
        let ghost marked = |c: CellState| if boxes { c.spec_is_box() } else { c.spec_is_destination() };
        let mut acc: Vec<Pos> = Vec::new();
        let mut y: usize = 0;
        while y < self.rows.len()
            invariant
                fits_u8_grid(g),
                g == self.grid(),
                y <= self.rows.len(),
                marked == (|c: CellState| if boxes { c.spec_is_box() } else { c.spec_is_destination() }),
                forall|p: Pos| #[trigger]
                    acc@.contains(p) <==> p_in_row(g, p) && (p.y as int) < y && marked(
                        g[p.y as int][p.x as int],
                    ),
                forall|i: int, j: int| 0 <= i < j < acc@.len() ==> rm_lt(acc@[i], acc@[j]),
                forall|i: int| 0 <= i < acc@.len() ==> (#[trigger] acc@[i]).y < y,
            decreases self.rows.len() - y,
        {
            let row = &self.rows[y];
            let mut x: usize = 0;
            while x < row.len()
                invariant
                    fits_u8_grid(g),
                    g == self.grid(),
                    y < self.rows.len(),
                    row == &self.rows[y as int],
                    x <= row.len(),
                    marked == (|c: CellState| if boxes { c.spec_is_box() } else { c.spec_is_destination() }),
                    forall|p: Pos| #[trigger]
                        acc@.contains(p) <==> p_in_row(g, p) && ((p.y as int) < y || ((p.y as int)
                            == y && (p.x as int) < x)) && marked(g[p.y as int][p.x as int]),
                    forall|i: int, j: int| 0 <= i < j < acc@.len() ==> rm_lt(acc@[i], acc@[j]),
                    forall|i: int|
                        0 <= i < acc@.len() ==> (#[trigger] acc@[i]).y < y || (acc@[i].y == y
                            && acc@[i].x < x),
                decreases row.len() - x,
            {
                proof {
                    assert(g[y as int].len() <= 256);
                    assert(x < 256 && y < 256);
                }
                let c = self.rows[y][x];
                proof {
                    assert(c == g[y as int][x as int]);
                }
                let hit = if boxes {
                    c.is_box()
                } else {
                    c.is_destination()
                };
                if hit {
                    let p = Pos { x: x as u8, y: y as u8 };
                    let ghost acc0 = acc@;
                    acc.push(p);
                    proof {
                        assert(acc@ == acc0.push(p));
                        assert(acc@[acc0.len() as int] == p);
                        assert forall|q: Pos| #[trigger]
                            acc@.contains(q) <==> (p_in_row(g, q) && ((q.y as int) < y || ((
                        q.y as int) == y && (q.x as int) <= x)) && marked(
                            g[q.y as int][q.x as int],
                        )) by {
                            if acc@.contains(q) {
                                let i = choose|i: int| 0 <= i < acc@.len() && acc@[i] == q;
                                if i < acc0.len() {
                                    assert(acc0[i] == q);
                                    assert(acc0.contains(q));
                                } else {
                                    assert(q == p);
                                }
                            }
                            if p_in_row(g, q) && ((q.y as int) < y || ((q.y as int) == y && (
                            q.x as int) <= x)) && marked(g[q.y as int][q.x as int]) {
                                if (q.y as int) == y && (q.x as int) == x {
                                    assert(q == p);
                                    assert(acc@.contains(q));
                                } else {
                                    assert(acc0.contains(q));
                                    let i = choose|i: int| 0 <= i < acc0.len() && acc0[i] == q;
                                    assert(acc@[i] == q);
                                    assert(acc@.contains(q));
                                }
                            }
                        }
                    }
                } else {
                    proof {
                        assert forall|q: Pos| #[trigger]
                            acc@.contains(q) <==> (p_in_row(g, q) && ((q.y as int) < y || ((
                        q.y as int) == y && (q.x as int) <= x)) && marked(
                            g[q.y as int][q.x as int],
                        )) by {
                            if p_in_row(g, q) && (q.y as int) == y && (q.x as int) == x {
                                assert(!marked(g[q.y as int][q.x as int]));
                            }
                        }
                    }
                }
                x = x + 1;
            }
            y = y + 1;
        }
        acc
    }

    /// Parses a grid of level characters. Fails on the first character, in
    /// row-major order, outside the cell vocabulary.
    pub fn from_lines(lines: &Vec<Vec<char>>) -> (r: Result<Self, InputError>)
        ensures
            match r {
                Ok(inp) => {
                    &&& inp.grid().len() == lines@.len()
                    &&& forall|y: int|
                        0 <= y < lines@.len() ==> (#[trigger] inp.grid()[y]).len()
                            == lines@[y]@.len()
                    &&& forall|y: int, x: int|
                        0 <= y < lines@.len() && 0 <= x < lines@[y]@.len() ==> spec_cell_of_char(
                            lines@[y]@[x],
                        ) == Some(#[trigger] inp.grid()[y][x])
                },
                Err(e) => {
                    &&& e is UnknownChar
                    &&& exists|y: int, x: int|
                        0 <= y < lines@.len() && 0 <= x < lines@[y]@.len() && (
                        #[trigger] lines@[y]@[x]) == e->UnknownChar_0 && spec_cell_of_char(
                            lines@[y]@[x],
                        ) is None
                },
            },
    {
        let mut rows: Vec<Vec<CellState>> = Vec::new();
        let mut y: usize = 0;
        while y < lines.len()
            invariant
                y <= lines.len(),
                rows@.len() == y,
                forall|j: int| 0 <= j < y ==> (#[trigger] rows@[j])@.len() == lines@[j]@.len(),
                forall|j: int, x: int|
                    0 <= j < y && 0 <= x < lines@[j]@.len() ==> spec_cell_of_char(lines@[j]@[x])
                        == Some(#[trigger] rows@[j]@[x]),
            decreases lines.len() - y,
        {
            let line = &lines[y];
            let mut row: Vec<CellState> = Vec::new();
            let mut x: usize = 0;
            while x < line.len()
                invariant
                    y < lines.len(),
                    line == &lines[y as int],
                    x <= line.len(),
                    row@.len() == x,
                    forall|i: int|
                        0 <= i < x ==> spec_cell_of_char(line@[i]) == Some(#[trigger] row@[i]),
                decreases line.len() - x,
            {
                match CellState::from_char(line[x]) {
                    Ok(c) => {
                        row.push(c);
                    },
                    Err(e) => {
                        assert(spec_cell_of_char(lines@[y as int]@[x as int]) is None);
                        return Err(e);
                    },
                }
                x = x + 1;
            }
            rows.push(row);
            y = y + 1;
        }
        let inp = Self { rows };
        proof {
            assert(inp.grid().len() == lines@.len());
            assert forall|j: int| 0 <= j < lines@.len() implies (#[trigger] inp.grid()[j]).len()
                == lines@[j]@.len() by {
                assert(inp.grid()[j] == rows@[j]@);
            }
            assert forall|j: int, x: int|
                0 <= j < lines@.len() && 0 <= x < lines@[j]@.len() implies spec_cell_of_char(
                lines@[j]@[x],
            ) == Some(#[trigger] inp.grid()[j][x]) by {
                assert(inp.grid()[j] == rows@[j]@);
            }
        }
        Ok(inp)
    }
}

} // verus!
