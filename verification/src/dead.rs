//! Static dead-cell analysis.
//!
//! A dead cell is a floor cell from which a box, once pushed there, can
//! never reach any destination. This pass runs once per board; its result
//! never changes during the search. Marked are walls, all cells on the
//! grid border, simple corners (blocked on one horizontal and one vertical
//! side), and corridor dead-ends: cells hugging a wall along one side whose
//! corridor is closed at both ends before any destination. Scans stop at
//! the grid boundary, which counts as blocking.

use vstd::prelude::*;

use crate::cell::CellState;
use crate::input::Input;
use crate::matrix::Matrix;

verus! {

/// Whether the grid stores a wall at `(x, y)`. Cells outside the stored
/// rows are not walls.
pub open spec fn wall_in_row(g: Seq<Seq<CellState>>, x: int, y: int) -> bool {
    0 <= y < g.len() && 0 <= x < g[y].len() && g[y][x].spec_is_wall()
}

/// Whether the grid stores a destination at `(x, y)`.
pub open spec fn dest_in_row(g: Seq<Seq<CellState>>, x: int, y: int) -> bool {
    0 <= y < g.len() && 0 <= x < g[y].len() && g[y][x].spec_is_destination()
}

/// Scanning upwards (towards smaller `y`) from row `i` along column `x`,
/// hugging the wall column `ox`: true when the corridor is closed by a wall
/// or the grid boundary before a destination or an opening in the hugging
/// wall is found.
pub open spec fn scan_up(g: Seq<Seq<CellState>>, x: int, ox: int, i: int) -> bool
    decreases i,
{
    if !wall_in_row(g, ox, i) {
        false
    } else if dest_in_row(g, x, i) {
        false
    } else if wall_in_row(g, x, i) {
        true
    } else if i <= 0 {
        true
    } else {
        scan_up(g, x, ox, i - 1)
    }
}

/// Downward companion of `scan_up`; `h` is the grid height, and reaching
/// it closes the corridor.
pub open spec fn scan_down(g: Seq<Seq<CellState>>, x: int, ox: int, i: int, h: int) -> bool
    decreases h - i,
{
    if i >= h {
        true
    } else if !wall_in_row(g, ox, i) {
        false
    } else if dest_in_row(g, x, i) {
        false
    } else if wall_in_row(g, x, i) {
        true
    } else {
        scan_down(g, x, ox, i + 1, h)
    }
}

/// Scanning leftwards from column `i` along row `y`, hugging the wall row
/// `oy`.
pub open spec fn scan_left(g: Seq<Seq<CellState>>, y: int, oy: int, i: int) -> bool
    decreases i,
{
    if !wall_in_row(g, i, oy) {
        false
    } else if dest_in_row(g, i, y) {
        false
    } else if wall_in_row(g, i, y) {
        true
    } else if i <= 0 {
        true
    } else {
        scan_left(g, y, oy, i - 1)
    }
}

/// Rightward companion of `scan_left`; `w` is the grid width.
pub open spec fn scan_right(g: Seq<Seq<CellState>>, y: int, oy: int, i: int, w: int) -> bool
    decreases w - i,
{
    if i >= w {
        true
    } else if !wall_in_row(g, i, oy) {
        false
    } else if dest_in_row(g, i, y) {
        false
    } else if wall_in_row(g, i, y) {
        true
    } else {
        scan_right(g, y, oy, i + 1, w)
    }
}

/// A simple corner: blocked by a wall on the left or right, and on the
/// top or bottom.
pub open spec fn corner_dead(g: Seq<Seq<CellState>>, x: int, y: int) -> bool {
    (wall_in_row(g, x + 1, y) || wall_in_row(g, x - 1, y)) && (wall_in_row(g, x, y - 1)
        || wall_in_row(g, x, y + 1))
}

/// A corridor dead-end in any of the four orientations.
pub open spec fn corridor_dead(g: Seq<Seq<CellState>>, w: int, h: int, x: int, y: int) -> bool {
    ||| (scan_up(g, x, x - 1, y - 1) && scan_down(g, x, x - 1, y + 1, h))
    ||| (scan_up(g, x, x + 1, y - 1) && scan_down(g, x, x + 1, y + 1, h))
    ||| (scan_left(g, y, y - 1, x - 1) && scan_right(g, y, y - 1, x + 1, w))
    ||| (scan_left(g, y, y + 1, x - 1) && scan_right(g, y, y + 1, x + 1, w))
}

/// The full dead-cell rule for cell `(x, y)` of a `w` x `h` grid. Cells
/// beyond the end of their stored row are never marked. A destination is
/// never dead by the corner or corridor rules, however it is shaped.
pub open spec fn spec_dead(g: Seq<Seq<CellState>>, w: int, h: int, x: int, y: int) -> bool {
    &&& 0 <= y < g.len()
    &&& 0 <= x < g[y].len()
    &&& (g[y][x].spec_is_wall() || x == 0 || y == 0 || x == w - 1 || y == h - 1 || (!g[y][x].spec_is_destination()
        && (corner_dead(g, x, y) || corridor_dead(g, w, h, x, y))))
}

/// `w` is the width of the grid: no row is longer, and some row reaches it
/// (unless the grid is empty).
pub open spec fn is_grid_width(g: Seq<Seq<CellState>>, w: int) -> bool {
    &&& forall|y: int| 0 <= y < g.len() ==> (#[trigger] g[y]).len() <= w
    &&& if g.len() == 0 {
        w == 0
    } else {
        exists|y: int| 0 <= y < g.len() && (#[trigger] g[y]).len() == w
    }
}

/// Whether the stored cell at `(x, y)` is a wall.
fn wall_at(input: &Input, x: usize, y: usize) -> (r: bool)
    ensures
        r == wall_in_row(input.grid(), x as int, y as int),
{
    if y < input.rows.len() {
        let row = &input.rows[y];
        if x < row.len() {
            return row[x].is_wall();
        }
    }
    false
}

/// Whether the stored cell at `(x, y)` is a destination.
fn dest_at(input: &Input, x: usize, y: usize) -> (r: bool)
    ensures
        r == dest_in_row(input.grid(), x as int, y as int),
{
    if y < input.rows.len() {
        let row = &input.rows[y];
        if x < row.len() {
            return row[x].is_destination();
        }
    }
    false
}

fn scan_up_exec(input: &Input, x: usize, ox: usize, i: usize) -> (r: bool)
    ensures
        r == scan_up(input.grid(), x as int, ox as int, i as int),
    decreases i,
{
    if !wall_at(input, ox, i) {
        false
    } else if dest_at(input, x, i) {
        false
    } else if wall_at(input, x, i) {
        true
    } else if i == 0 {
        true
    } else {
        scan_up_exec(input, x, ox, i - 1)
    }
}

fn scan_down_exec(input: &Input, x: usize, ox: usize, i: usize, h: usize) -> (r: bool)
    ensures
        r == scan_down(input.grid(), x as int, ox as int, i as int, h as int),
    decreases h - i,
{
    if i >= h {
        true
    } else if !wall_at(input, ox, i) {
        false
    } else if dest_at(input, x, i) {
        false
    } else if wall_at(input, x, i) {
        true
    } else {
        scan_down_exec(input, x, ox, i + 1, h)
    }
}

fn scan_left_exec(input: &Input, y: usize, oy: usize, i: usize) -> (r: bool)
    ensures
        r == scan_left(input.grid(), y as int, oy as int, i as int),
    decreases i,
{
    if !wall_at(input, i, oy) {
        false
    } else if dest_at(input, i, y) {
        false
    } else if wall_at(input, i, y) {
        true
    } else if i == 0 {
        true
    } else {
        scan_left_exec(input, y, oy, i - 1)
    }
}

fn scan_right_exec(input: &Input, y: usize, oy: usize, i: usize, w: usize) -> (r: bool)
    ensures
        r == scan_right(input.grid(), y as int, oy as int, i as int, w as int),
    decreases w - i,
{
    if i >= w {
        true
    } else if !wall_at(input, i, oy) {
        false
    } else if dest_at(input, i, y) {
        false
    } else if wall_at(input, i, y) {
        true
    } else {
        scan_right_exec(input, y, oy, i + 1, w)
    }
}

/// Marks every dead cell of the grid, as `spec_dead` describes.
pub fn detect_dead_positions(input: &Input, width: usize, height: usize) -> (r: Matrix<bool>)
    requires
        height == input.grid().len(),
        is_grid_width(input.grid(), width as int),
        width >= 1,
        height >= 1,
        width * height <= usize::MAX,
    ensures
        r.wf(),
        r.spec_width() == width,
        r.spec_height() == height,
        forall|i: int, j: int|
            0 <= i < width && 0 <= j < height ==> r.spec_get(i, j) == spec_dead(
                input.grid(),
                width as int,
                height as int,
                i,
                j,
            ),
{
    let ghost g = input.grid();
    let ghost w = width as int;
    let ghost h = height as int;
    let mut dead = Matrix::fill(false, width, height);
    let mut y: usize = 0;
    while y < input.rows.len()
        invariant
            g == input.grid(),
            h == input.grid().len(),
            is_grid_width(g, w),
            w == width as int,
            h == height as int,
            width >= 1,
            height >= 1,
            y <= height,
            dead.wf(),
            dead.spec_width() == width,
            dead.spec_height() == height,
            forall|i: int, j: int|
                0 <= i < width && 0 <= j < height ==> dead.spec_get(i, j) == (j < y && spec_dead(
                    g,
                    w,
                    h,
                    i,
                    j,
                )),
        decreases input.rows.len() - y,
    {
        let row = &input.rows[y];
        proof {
            assert(g[y as int] == row@);
            assert(g[y as int].len() <= w);
        }
        let mut x: usize = 0;
        while x < row.len()
            invariant
                g == input.grid(),
                h == input.grid().len(),
                is_grid_width(g, w),
                w == width as int,
                h == height as int,
                width >= 1,
                height >= 1,
                y < height,
                row == &input.rows[y as int],
                row@.len() <= width,
                x <= row.len(),
                dead.wf(),
                dead.spec_width() == width,
                dead.spec_height() == height,
                forall|i: int, j: int|
                    0 <= i < width && 0 <= j < height ==> dead.spec_get(i, j) == ((j < y || (j == y
                        && i < x)) && spec_dead(g, w, h, i, j)),
            decreases row.len() - x,
        {
            let c = row[x];
            proof {
                assert(c == g[y as int][x as int]);
            }
            let dead_here: bool = if c.is_wall() || x == 0 || y == 0 || x == width - 1 || y
                == height - 1 {
                true
            } else if c.is_destination() {
                false
            } else {
                let corner = (wall_at(input, x + 1, y) || wall_at(input, x - 1, y)) && (wall_at(
                    input,
                    x,
                    y - 1,
                ) || wall_at(input, x, y + 1));
                if corner {
                    true
                } else {
                    let v_left = scan_up_exec(input, x, x - 1, y - 1) && scan_down_exec(
                        input,
                        x,
                        x - 1,
                        y + 1,
                        height,
                    );
                    let v_right = scan_up_exec(input, x, x + 1, y - 1) && scan_down_exec(
                        input,
                        x,
                        x + 1,
                        y + 1,
                        height,
                    );
                    let h_top = scan_left_exec(input, y, y - 1, x - 1) && scan_right_exec(
                        input,
                        y,
                        y - 1,
                        x + 1,
                        width,
                    );
                    let h_bottom = scan_left_exec(input, y, y + 1, x - 1) && scan_right_exec(
                        input,
                        y,
                        y + 1,
                        x + 1,
                        width,
                    );
                    v_left || v_right || h_top || h_bottom
                }
            };
            proof {
                assert(dead_here == spec_dead(g, w, h, x as int, y as int));
            }
            dead.set(x, y, dead_here);
            x = x + 1;
        }
        proof {
            assert forall|i: int, j: int|
                0 <= i < width && 0 <= j < height implies dead.spec_get(i, j) == ((j < y + 1 && spec_dead(
                g,
                w,
                h,
                i,
                j,
            ))) by {
                if j == y && i >= x {
                    assert(!(0 <= i < g[j].len()));
                    assert(!spec_dead(g, w, h, i, j));
                }
            }
        }
        y = y + 1;
    }
    dead
}

} // verus!
