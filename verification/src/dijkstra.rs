//! The reachability graph and the shortest-path router.
//!
//! The graph holds, for every non-wall cell, the neighbouring cells the
//! player can step onto under the current box configuration. It is rebuilt
//! for every search node, because boxes act as obstacles. The router runs
//! a uniform-cost search over it with a min-priority frontier and lazy
//! deletion of stale entries.

use vstd::prelude::*;

use crate::board::{spec_is_free, Board, BoardProps, SolveState, StateModel};
use crate::matrix::{lemma_row_major_index_in_range, Matrix};
use crate::pos::{is_neighbour, Pos};
use crate::poslist::lemma_push_contains;

verus! {

/// One step the player can walk: from a non-wall grid cell `p` to an
/// adjacent free grid cell `q`.
pub open spec fn walk_adj(props: BoardProps, s: StateModel, p: Pos, q: Pos) -> bool {
    &&& props.spec_in_grid(p)
    &&& !props.spec_is_wall_at(p)
    &&& props.spec_in_grid(q)
    &&& is_neighbour(p, q)
    &&& spec_is_free(props, s, q)
}

/// The four neighbour candidates of a cell, probed in the fixed order
/// up (larger `y`), down, left, right. A candidate whose coordinate would
/// leave the `u8` range is redirected to a far-away stand-in that is
/// never adjacent, so it can never be walkable.
pub open spec fn cand_up(p: Pos) -> Pos {
    Pos { x: p.x, y: if p.y as int + 1 <= 255 { (p.y + 1) as u8 } else { 0u8 } }
}

pub open spec fn cand_down(p: Pos) -> Pos {
    Pos { x: p.x, y: if p.y as int >= 1 { (p.y - 1) as u8 } else { 255u8 } }
}

pub open spec fn cand_left(p: Pos) -> Pos {
    Pos { x: if p.x as int >= 1 { (p.x - 1) as u8 } else { 255u8 }, y: p.y }
}

pub open spec fn cand_right(p: Pos) -> Pos {
    Pos { x: if p.x as int + 1 <= 255 { (p.x + 1) as u8 } else { 0u8 }, y: p.y }
}

/// A candidate as a one-element list when walkable, else empty.
pub open spec fn edge_opt(props: BoardProps, s: StateModel, p: Pos, q: Pos) -> Seq<Pos> {
    if walk_adj(props, s, p, q) {
        seq![q]
    } else {
        Seq::<Pos>::empty()
    }
}

/// The exact adjacency list stored for cell `p`: its walkable neighbours
/// in the fixed probe order.
pub open spec fn expected_edges(props: BoardProps, s: StateModel, p: Pos) -> Seq<Pos> {
    edge_opt(props, s, p, cand_up(p)) + edge_opt(props, s, p, cand_down(p)) + edge_opt(
        props,
        s,
        p,
        cand_left(p),
    ) + edge_opt(props, s, p, cand_right(p))
}

/// A non-empty cell sequence whose consecutive cells are walkable steps.
pub open spec fn is_walk(props: BoardProps, s: StateModel, w: Seq<Pos>) -> bool {
    &&& w.len() >= 1
    &&& forall|k: int| 0 <= k < w.len() - 1 ==> walk_adj(props, s, #[trigger] w[k], w[k + 1])
}

/// A walk that starts at `a` and ends at `b`.
pub open spec fn walk_from_to(props: BoardProps, s: StateModel, w: Seq<Pos>, a: Pos, b: Pos) -> bool {
    &&& is_walk(props, s, w)
    &&& w[0] == a
    &&& w[w.len() - 1] == b
}

/// `b` can be reached from `a` in exactly `n` player steps.
pub open spec fn reachable_n(props: BoardProps, s: StateModel, a: Pos, b: Pos, n: int) -> bool {
    exists|w: Seq<Pos>| #[trigger] walk_from_to(props, s, w, a, b) && w.len() == n + 1
}

/// Appending a walkable step to a walk.
pub proof fn lemma_walk_extend(
    props: BoardProps,
    s: StateModel,
    a: Pos,
    b: Pos,
    q: Pos,
    n: int,
)
    requires
        reachable_n(props, s, a, b, n),
        walk_adj(props, s, b, q),
    ensures
        reachable_n(props, s, a, q, n + 1),
{
    let w = choose|w: Seq<Pos>| #[trigger] walk_from_to(props, s, w, a, b) && w.len() == n + 1;
    let w2 = w.push(q);
    assert forall|k: int| 0 <= k < w2.len() - 1 implies walk_adj(props, s, #[trigger] w2[k], w2[k + 1]) by {
        if k < w.len() - 1 {
            assert(w2[k] == w[k] && w2[k + 1] == w[k + 1]);
        } else {
            assert(w2[k] == b && w2[k + 1] == q);
        }
    }
    assert(walk_from_to(props, s, w2, a, q) && w2.len() == n + 2);
}

/// Every prefix of a walk is a walk to the corresponding cell.
pub proof fn lemma_walk_prefix(props: BoardProps, s: StateModel, w: Seq<Pos>, k: int)
    requires
        is_walk(props, s, w),
        0 <= k < w.len(),
    ensures
        reachable_n(props, s, w[0], w[k], k),
{
    let w2 = w.subrange(0, k + 1);
    assert forall|j: int| 0 <= j < w2.len() - 1 implies walk_adj(props, s, #[trigger] w2[j], w2[j + 1]) by {
        assert(w2[j] == w[j] && w2[j + 1] == w[j + 1]);
    }
    assert(walk_from_to(props, s, w2, w[0], w[k]) && w2.len() == k + 1);
}

/// The first cell of a walk that is not yet settled; it exists whenever
/// the walk's last cell is unsettled.
pub proof fn lemma_first_unsettled(settled: Set<Pos>, w: Seq<Pos>) -> (k: int)
    requires
        w.len() >= 1,
        !settled.contains(w[w.len() - 1]),
    ensures
        0 <= k < w.len(),
        !settled.contains(w[k]),
        forall|j: int| 0 <= j < k ==> settled.contains(w[j]),
    decreases w.len(),
{
    if !settled.contains(w[0]) {
        0
    } else {
        let t = w.drop_first();
        assert(t[t.len() - 1] == w[w.len() - 1]);
        let k0 = lemma_first_unsettled(settled, t);
        assert(t[k0] == w[k0 + 1]);
        assert forall|j: int| 0 <= j < k0 + 1 implies settled.contains(w[j]) by {
            if j > 0 {
                assert(t[j - 1] == w[j]);
            }
        }
        k0 + 1
    }
}

/// Per-cell best-known distance table, initialised to "infinite"
/// (`u16::MAX`).
pub struct DistMap(pub Matrix<u16>);

impl DistMap {
    pub open spec fn wf(&self, props: BoardProps) -> bool {
        &&& self.0.wf()
        &&& self.0.spec_width() == props.width
        &&& self.0.spec_height() == props.height
    }

    pub open spec fn at(&self, p: Pos) -> u16 {
        self.0.spec_get(p.x as int, p.y as int)
    }

    /// A table for the given board, every cell at "infinite".
    pub fn new(map: &Board) -> (r: Self)
        requires
            map.wf(),
        ensures
            r.wf(map.props),
            forall|p: Pos| map.props.spec_in_grid(p) ==> r.at(p) == u16::MAX,
    {
        Self::new_sized(&map.props)
    }

    /// A table for the given layout, every cell at "infinite".
    pub fn new_sized(props: &BoardProps) -> (r: Self)
        requires
            props.wf(),
        ensures
            r.wf(*props),
            forall|p: Pos| props.spec_in_grid(p) ==> r.at(p) == u16::MAX,
    {
        proof {
            assert(props.width * props.height <= 65536) by (nonlinear_arith)
                requires
                    props.width <= 256,
                    props.height <= 256,
            ;
        }
        DistMap(Matrix::fill(u16::MAX, props.width, props.height))
    }

    pub fn get(&self, props: &BoardProps, p: Pos) -> (r: u16)
        requires
            self.wf(*props),
            props.spec_in_grid(p),
        ensures
            r == self.at(p),
    {
        *self.0.get(p.x as usize, p.y as usize).unwrap()
    }

    pub fn set(&mut self, props: &BoardProps, p: Pos, v: u16)
        requires
            old(self).wf(*props),
            props.spec_in_grid(p),
        ensures
            final(self).wf(*props),
            final(self).at(p) == v,
            forall|q: Pos|
                props.spec_in_grid(q) && q != p ==> final(self).at(q) == old(self).at(q),
    {
        self.0.set(p.x as usize, p.y as usize, v);
        proof {
            assert forall|q: Pos|
                props.spec_in_grid(q) && q != p implies self.at(q) == old(self).at(q) by {
                assert(q.x as int != p.x as int || q.y as int != p.y as int);
            }
        }
    }
}

/// The walkable-cell adjacency lists for one box configuration, indexed
/// row-major by cell.
pub struct PathGraph {
    pub width: usize,
    pub height: usize,
    pub edges: Vec<Vec<Pos>>,
}

impl PathGraph {
    /// The adjacency list of cell `p`.
    pub open spec fn edge_seq(&self, p: Pos) -> Seq<Pos> {
        self.edges@[p.x as int + p.y as int * self.width]@
    }

    /// The graph describes exactly the walkable steps of state `s` on
    /// layout `props`.
    pub open spec fn describes(&self, props: BoardProps, s: StateModel) -> bool {
        &&& self.wf()
        &&& self.width == props.width
        &&& self.height == props.height
        &&& forall|p: Pos, q: Pos|
            props.spec_in_grid(p) ==> ((#[trigger] self.edge_seq(p).contains(q)) <==> walk_adj(
                props,
                s,
                p,
                q,
            ))
        &&& forall|p: Pos|
            props.spec_in_grid(p) ==> (#[trigger] self.edge_seq(p)) == expected_edges(props, s, p)
    }

    /// Builds the reachability graph for the board's current state.
    pub fn new(map: &Board) -> (r: Self)
        requires
            map.wf(),
        ensures
            r.describes(map.props, map.solve_state@),
    {
        Self::for_state(&map.props, &map.solve_state)
    }

    /// Builds the reachability graph of `state` on layout `props`.
    pub fn for_state(propsr: &BoardProps, state: &SolveState) -> (r: Self)
        requires
            propsr.wf(),
        ensures
            r.describes(*propsr, state@),
    {
        let ghost props = *propsr;
        let ghost s = state@;
        let width = propsr.width;
        let height = propsr.height;
        let mut edges: Vec<Vec<Pos>> = Vec::new();
        let mut y: usize = 0;
        while y < height
            invariant
                propsr.wf(),
                props == *propsr,
                s == state@,
                width == props.width,
                height == props.height,
                y <= height,
                edges@.len() == y * width,
                forall|p: Pos, q: Pos|
                    props.spec_in_grid(p) && (p.y as int) < y ==> ((#[trigger] edges@[p.x as int
                        + p.y as int * width]@.contains(q)) <==> walk_adj(props, s, p, q)),
                forall|p: Pos|
                    props.spec_in_grid(p) && (p.y as int) < y ==> (#[trigger] edges@[p.x as int
                        + p.y as int * width]@) == expected_edges(props, s, p),
            decreases height - y,
        {
            let mut x: usize = 0;
            while x < width
                invariant
                    propsr.wf(),
                    props == *propsr,
                    s == state@,
                    width == props.width,
                    height == props.height,
                    y < height,
                    x <= width,
                    edges@.len() == y * width + x,
                    forall|p: Pos, q: Pos|
                        props.spec_in_grid(p) && ((p.y as int) < y || ((p.y as int) == y && (
                        p.x as int) < x)) ==> ((#[trigger] edges@[p.x as int + p.y as int
                            * width]@.contains(q)) <==> walk_adj(props, s, p, q)),
                    forall|p: Pos|
                        props.spec_in_grid(p) && ((p.y as int) < y || ((p.y as int) == y && (
                        p.x as int) < x)) ==> (#[trigger] edges@[p.x as int + p.y as int
                            * width]@) == expected_edges(props, s, p),
                decreases width - x,
            {
                let pos = Pos { x: x as u8, y: y as u8 };
                let cell_edges: Vec<Pos> = if !propsr.wall_q(pos) {
                    calc_edges(propsr, state, pos)
                } else {
                    Vec::new()
                };
                let ghost len0 = edges@.len();
                edges.push(cell_edges);
                proof {
                    assert(len0 == y * width + x);
                    assert forall|p: Pos, q: Pos|
                        props.spec_in_grid(p) && ((p.y as int) < y || ((p.y as int) == y && (
                        p.x as int) < x + 1)) implies ((#[trigger] edges@[p.x as int + p.y as int
                        * width]@.contains(q)) <==> walk_adj(props, s, p, q)) by {
                        let idx = p.x as int + p.y as int * width;
                        if (p.y as int) == y && (p.x as int) == x {
                            assert(idx == len0);
                            assert(edges@[idx] == cell_edges);
                            if props.spec_is_wall_at(pos) {
                                assert(!walk_adj(props, s, p, q));
                            }
                        } else {
                            assert(idx < len0) by {
                                lemma_rm_index_below(p.x as int, p.y as int, x as int, y as int, width as int);
                            }
                        }
                    }
                    assert forall|p: Pos|
                        props.spec_in_grid(p) && ((p.y as int) < y || ((p.y as int) == y && (
                        p.x as int) < x + 1)) implies (#[trigger] edges@[p.x as int + p.y as int
                        * width]@) == expected_edges(props, s, p) by {
                        let idx = p.x as int + p.y as int * width;
                        if (p.y as int) == y && (p.x as int) == x {
                            assert(idx == len0);
                            assert(edges@[idx] == cell_edges);
                            if props.spec_is_wall_at(pos) {
                                assert(expected_edges(props, s, pos) =~= Seq::<Pos>::empty());
                            }
                        } else {
                            assert(idx < len0) by {
                                lemma_rm_index_below(p.x as int, p.y as int, x as int, y as int, width as int);
                            }
                        }
                    }
                }
                x = x + 1;
            }
            proof {
                assert(y * width + width == (y + 1) * width) by (nonlinear_arith);
            }
            y = y + 1;
        }
        let r = PathGraph { width, height, edges };
        proof {
            assert forall|p: Pos, q: Pos|
                props.spec_in_grid(p) implies ((#[trigger] r.edge_seq(p).contains(q)) <==> walk_adj(
                props,
                s,
                p,
                q,
            )) by {
                assert((p.y as int) < height);
                lemma_row_major_index_in_range(
                    p.x as int,
                    p.y as int,
                    width as int,
                    height as int,
                );
                assert(width as int * height as int == height as int * width as int);
                assert(r.edge_seq(p) == edges@[p.x as int + p.y as int * width]@);
                assert(edges@[p.x as int + p.y as int * width]@.contains(q) <==> walk_adj(
                    props,
                    s,
                    p,
                    q,
                ));
            }
            assert forall|p: Pos|
                props.spec_in_grid(p) implies (#[trigger] r.edge_seq(p)) == expected_edges(
                props,
                s,
                p,
            ) by {
                assert((p.y as int) < height);
                lemma_row_major_index_in_range(
                    p.x as int,
                    p.y as int,
                    width as int,
                    height as int,
                );
                assert(width as int * height as int == height as int * width as int);
                assert(r.edge_seq(p) == edges@[p.x as int + p.y as int * width]@);
                assert(edges@[p.x as int + p.y as int * width]@ == expected_edges(props, s, p));
            }
        }
        r
    }

    /// Shape well-formedness: one adjacency list per grid cell.
    pub open spec fn wf(&self) -> bool {
        &&& self.edges@.len() == self.width * self.height
        &&& self.width <= 256
        &&& self.height <= 256
    }

    /// The stored adjacency list of a grid cell.
    pub fn edges(&self, pos: Pos) -> (r: &Vec<Pos>)
        requires
            self.wf(),
            (pos.x as int) < self.width,
            (pos.y as int) < self.height,
        ensures
            r@ == self.edge_seq(pos),
    {
        proof {
            lemma_row_major_index_in_range(
                pos.x as int,
                pos.y as int,
                self.width as int,
                self.height as int,
            );
            assert(self.width * self.height <= 65536) by (nonlinear_arith)
                requires
                    self.width <= 256,
                    self.height <= 256,
            ;
        }
        &self.edges[pos.x as usize + pos.y as usize * self.width]
    }

}

/// For a processed cell, its row-major index lies below the current fill
/// mark `x + y * w`.
proof fn lemma_rm_index_below(px: int, py: int, x: int, y: int, w: int)
    requires
        0 <= px < w,
        0 <= py,
        0 <= x,
        0 <= y,
        py < y || (py == y && px < x),
    ensures
        px + py * w < x + y * w,
{
    assert(px + py * w < x + y * w) by (nonlinear_arith)
        requires
            0 <= px < w,
            0 <= py,
            0 <= x,
            0 <= y,
            py < y || (py == y && px < x),
    ;
}

/// A pending frontier entry: `position` was reached with `cost` steps.
#[derive(Copy, Clone, Eq, PartialEq, Structural)]
struct State {
    cost: u16,
    position: Pos,
}

/// Removes and returns a cheapest entry of the frontier.
fn pop_min(f: &mut Vec<State>) -> (e: State)
    requires
        old(f)@.len() >= 1,
    ensures
        old(f)@.contains(e),
        final(f)@.len() == old(f)@.len() - 1,
        forall|k: int| 0 <= k < old(f)@.len() ==> e.cost <= (#[trigger] old(f)@[k]).cost,
        forall|k: int| 0 <= k < final(f)@.len() ==> old(f)@.contains(#[trigger] final(f)@[k]),
        forall|x: State| x != e && old(f)@.contains(x) ==> final(f)@.contains(x),
{
    let mut best: usize = 0;
    let mut i: usize = 1;
    while i < f.len()
        invariant
            f@ == old(f)@,
            best < i,
            i <= f@.len(),
            forall|k: int| 0 <= k < i ==> f@[best as int].cost <= (#[trigger] f@[k]).cost,
        decreases f.len() - i,
    {
        if f[i].cost < f[best].cost {
            best = i;
        }
        i = i + 1;
    }
    let e = f[best];
    let ghost f0 = f@;
    f.swap_remove(best);
    proof {
        assert(f0.contains(e)) by {
            assert(f0[best as int] == e);
        }
        assert forall|k: int| 0 <= k < f@.len() implies f0.contains(#[trigger] f@[k]) by {
            if k == best {
                assert(f@[k] == f0[f0.len() - 1]);
            } else {
                assert(f@[k] == f0[k]);
            }
        }
        assert forall|x: State| x != e && f0.contains(x) implies f@.contains(x) by {
            let k = choose|k: int| 0 <= k < f0.len() && f0[k] == x;
            assert(k != best);
            if k < f0.len() - 1 {
                assert(f@[k] == x);
            } else {
                assert(best < f0.len() - 1);
                assert(f@[best as int] == f0[f0.len() - 1]);
            }
            assert(f@.contains(x));
        }
    }
    e
}

/// Sum of the first `x` entries of row `y` of a distance table.
spec fn row_sum(m: Matrix<u16>, y: int, x: int) -> int
    decreases x,
{
    if x <= 0 {
        0
    } else {
        row_sum(m, y, x - 1) + m.spec_get(x - 1, y)
    }
}

/// Sum of the first `y` full rows of a distance table.
spec fn grid_sum(m: Matrix<u16>, y: int, w: int) -> int
    decreases y,
{
    if y <= 0 {
        0
    } else {
        grid_sum(m, y - 1, w) + row_sum(m, y - 1, w)
    }
}

proof fn lemma_row_sum_nonneg(m: Matrix<u16>, y: int, x: int)
    ensures
        row_sum(m, y, x) >= 0,
    decreases x,
{
    if x > 0 {
        lemma_row_sum_nonneg(m, y, x - 1);
    }
}

proof fn lemma_grid_sum_nonneg(m: Matrix<u16>, h: int, w: int)
    ensures
        grid_sum(m, h, w) >= 0,
    decreases h,
{
    if h > 0 {
        lemma_grid_sum_nonneg(m, h - 1, w);
        lemma_row_sum_nonneg(m, h - 1, w);
    }
}

proof fn lemma_row_sum_frame(m1: Matrix<u16>, m2: Matrix<u16>, y: int, x: int)
    requires
        forall|i: int| 0 <= i < x ==> #[trigger] m2.spec_get(i, y) == m1.spec_get(i, y),
    ensures
        row_sum(m2, y, x) == row_sum(m1, y, x),
    decreases x,
{
    if x > 0 {
        lemma_row_sum_frame(m1, m2, y, x - 1);
    }
}

proof fn lemma_row_sum_update(m1: Matrix<u16>, m2: Matrix<u16>, y: int, x: int, px: int)
    requires
        0 <= px < x,
        forall|i: int| 0 <= i < x && i != px ==> #[trigger] m2.spec_get(i, y) == m1.spec_get(i, y),
    ensures
        row_sum(m2, y, x) == row_sum(m1, y, x) + m2.spec_get(px, y) - m1.spec_get(px, y),
    decreases x,
{
    if px == x - 1 {
        lemma_row_sum_frame(m1, m2, y, x - 1);
    } else {
        lemma_row_sum_update(m1, m2, y, x - 1, px);
    }
}

proof fn lemma_grid_sum_frame(m1: Matrix<u16>, m2: Matrix<u16>, h: int, w: int)
    requires
        forall|i: int, j: int|
            0 <= i < w && 0 <= j < h ==> #[trigger] m2.spec_get(i, j) == m1.spec_get(i, j),
    ensures
        grid_sum(m2, h, w) == grid_sum(m1, h, w),
    decreases h,
{
    if h > 0 {
        lemma_grid_sum_frame(m1, m2, h - 1, w);
        lemma_row_sum_frame(m1, m2, h - 1, w);
    }
}

/// Lowering one cell lowers the grid total by the same amount.
proof fn lemma_grid_sum_update(
    m1: Matrix<u16>,
    m2: Matrix<u16>,
    h: int,
    w: int,
    px: int,
    py: int,
)
    requires
        0 <= px < w,
        0 <= py < h,
        forall|i: int, j: int|
            0 <= i < w && 0 <= j < h && !(i == px && j == py) ==> #[trigger] m2.spec_get(i, j)
                == m1.spec_get(i, j),
    ensures
        grid_sum(m2, h, w) == grid_sum(m1, h, w) + m2.spec_get(px, py) - m1.spec_get(px, py),
    decreases h,
{
    if py == h - 1 {
        assert forall|i: int, j: int|
            0 <= i < w && 0 <= j < h - 1 implies #[trigger] m2.spec_get(i, j) == m1.spec_get(
            i,
            j,
        ) by {}
        lemma_grid_sum_frame(m1, m2, h - 1, w);
        lemma_row_sum_update(m1, m2, h - 1, w, px);
    } else {
        lemma_grid_sum_update(m1, m2, h - 1, w, px, py);
        lemma_row_sum_frame(m1, m2, h - 1, w);
    }
}

/// What every frontier entry satisfies: an on-grid cell already reached by
/// a walk of exactly `e.cost` steps, no better than the distance table.
spec fn inv_entry(props: BoardProps, s: StateModel, start: Pos, dist: DistMap, e: State) -> bool {
    &&& props.spec_in_grid(e.position)
    &&& e.cost < u16::MAX
    &&& dist.at(e.position) <= e.cost
    &&& reachable_n(props, s, start, e.position, e.cost as int)
}

/// Every unsettled cell with a finite table distance has a matching
/// frontier entry.
spec fn inv_frontier_complete(
    props: BoardProps,
    settled: Set<Pos>,
    dist: DistMap,
    heap: Seq<State>,
) -> bool {
    forall|p: Pos|
        props.spec_in_grid(p) && !settled.contains(p) && #[trigger] dist.at(p) < u16::MAX
            ==> exists|k: int|
            0 <= k < heap.len() && (#[trigger] heap[k]).position == p && heap[k].cost == dist.at(p)
}

/// Every edge out of a settled cell has been relaxed.
spec fn inv_relaxed(props: BoardProps, s: StateModel, settled: Set<Pos>, dist: DistMap) -> bool {
    forall|p: Pos, q: Pos|
        settled.contains(p) && #[trigger] walk_adj(props, s, p, q) ==> dist.at(q) <= dist.at(p)
            + 1
}

/// The table distance of a settled cell is a lower bound on every walk
/// reaching it: it is final and minimal.
spec fn inv_settled_min(
    props: BoardProps,
    s: StateModel,
    start: Pos,
    settled: Set<Pos>,
    dist: DistMap,
) -> bool {
    forall|p: Pos, n: int|
        settled.contains(p) && #[trigger] reachable_n(props, s, start, p, n) ==> n >= dist.at(p)
}

/// Settled cells are on the grid with a finite distance.
spec fn inv_settled_dist(props: BoardProps, settled: Set<Pos>, dist: DistMap) -> bool {
    forall|p: Pos| #[trigger]
        settled.contains(p) ==> props.spec_in_grid(p) && dist.at(p) < u16::MAX
}

/// Any walk to an unsettled `target` passes the frontier: some entry costs
/// no more than the walk's step count. (So the cheapest frontier entry
/// bounds every walk to every unsettled cell from below.)
proof fn lemma_frontier_bound(
    props: BoardProps,
    s: StateModel,
    start: Pos,
    settled: Set<Pos>,
    dist: DistMap,
    heap: Seq<State>,
    target: Pos,
    n: int,
)
    requires
        props.spec_in_grid(start),
        dist.at(start) == 0,
        inv_frontier_complete(props, settled, dist, heap),
        inv_relaxed(props, s, settled, dist),
        inv_settled_min(props, s, start, settled, dist),
        !settled.contains(target),
        reachable_n(props, s, start, target, n),
        n < u16::MAX,
    ensures
        exists|k: int| 0 <= k < heap.len() && (#[trigger] heap[k]).cost <= n,
{
    let w = choose|w: Seq<Pos>| #[trigger] walk_from_to(props, s, w, start, target) && w.len() == n
        + 1;
    let k = lemma_first_unsettled(settled, w);
    if k == 0 {
        assert(w[0] == start);
        assert(dist.at(start) < u16::MAX);
        let j = choose|j: int|
            0 <= j < heap.len() && (#[trigger] heap[j]).position == start && heap[j].cost
                == dist.at(start);
        assert(heap[j].cost <= n);
    } else {
        let prev = w[k - 1];
        let cur = w[k];
        assert(walk_adj(props, s, prev, cur));
        assert(settled.contains(prev));
        lemma_walk_prefix(props, s, w, k - 1);
        assert(reachable_n(props, s, start, prev, k - 1));
        assert(k - 1 >= dist.at(prev));
        assert(dist.at(cur) <= dist.at(prev) + 1);
        assert(k <= n);
        assert(dist.at(cur) < u16::MAX);
        assert(props.spec_in_grid(cur));
        let j = choose|j: int|
            0 <= j < heap.len() && (#[trigger] heap[j]).position == cur && heap[j].cost == dist.at(
                cur,
            );
        assert(heap[j].cost <= k);
        assert(k <= n);
    }
}

/// The minimum number of player steps from `start` to `goal` over the
/// reachability graph, or `None` when no walk connects them.
///
/// Uniform-cost search: the frontier pops entries in non-decreasing cost
/// order; an entry whose recorded cost exceeds the cell's best known
/// distance is stale and skipped; the first time the goal is popped its
/// cost is the exact minimum, and an exhausted frontier proves that no
/// walk exists.
pub fn shortest_path(map: &Board, graph: &PathGraph, start: Pos, goal: Pos) -> (r: Option<u16>)
    requires
        map.wf(),
        graph.describes(map.props, map.solve_state@),
        map.props.spec_in_grid(start),
        map.props.spec_in_grid(goal),
    ensures
        match r {
            Some(c) => {
                &&& reachable_n(map.props, map.solve_state@, start, goal, c as int)
                &&& forall|n: int|
                    #[trigger] reachable_n(map.props, map.solve_state@, start, goal, n) ==> n >= c
            },
            None => forall|n: int|
                n < u16::MAX ==> !(#[trigger] reachable_n(map.props, map.solve_state@, start, goal, n)),
        },
{
    route(&map.props, &map.solve_state, graph, start, goal)
}

/// The router proper, phrased over a layout and a search state.
#[verifier::rlimit(60)]
pub fn route(propsr: &BoardProps, state: &SolveState, graph: &PathGraph, start: Pos, goal: Pos) -> (r: Option<u16>)
    requires
        propsr.wf(),
        graph.describes(*propsr, state@),
        propsr.spec_in_grid(start),
        propsr.spec_in_grid(goal),
    ensures
        match r {
            Some(c) => {
                &&& reachable_n(*propsr, state@, start, goal, c as int)
                &&& forall|n: int|
                    #[trigger] reachable_n(*propsr, state@, start, goal, n) ==> n >= c
            },
            None => forall|n: int|
                n < u16::MAX ==> !(#[trigger] reachable_n(*propsr, state@, start, goal, n)),
        },
{
    let ghost props = *propsr;
    let ghost s = state@;
    let mut dist = DistMap::new_sized(propsr);
    let mut heap: Vec<State> = Vec::new();

    dist.set(propsr, start, 0);
    heap.push(State { cost: 0, position: start });
    let ghost mut settled: Set<Pos> = Set::empty();
    proof {
        let w0 = seq![start];
        assert(walk_from_to(props, s, w0, start, start) && w0.len() == 1);
        assert(reachable_n(props, s, start, start, 0));
        assert(inv_entry(props, s, start, dist, heap@[0]));
    }

    loop
        invariant
            propsr.wf(),
            props == *propsr,
            s == state@,
            graph.describes(props, s),
            props.spec_in_grid(start),
            props.spec_in_grid(goal),
            dist.wf(props),
            dist.at(start) == 0,
            forall|k: int|
                0 <= k < heap@.len() ==> inv_entry(props, s, start, dist, #[trigger] heap@[k]),
            inv_frontier_complete(props, settled, dist, heap@),
            inv_relaxed(props, s, settled, dist),
            inv_settled_min(props, s, start, settled, dist),
            inv_settled_dist(props, settled, dist),
            !settled.contains(goal),
        decreases grid_sum(dist.0, props.height as int, props.width as int) + heap@.len(),
    {
        if heap.len() == 0 {
            proof {
                assert forall|n: int|
                    n < u16::MAX implies !(#[trigger] reachable_n(props, s, start, goal, n)) by {
                    if reachable_n(props, s, start, goal, n) {
                        lemma_frontier_bound(
                            props,
                            s,
                            start,
                            settled,
                            dist,
                            heap@,
                            goal,
                            n,
                        );
                    }
                }
            }
            return None;
        }
        let ghost heap0 = heap@;
        let ghost dist0 = dist;
        let e = pop_min(&mut heap);
        let pos = e.position;
        proof {
            assert(inv_entry(props, s, start, dist, e)) by {
                assert(heap0.contains(e));
                let k = choose|k: int| 0 <= k < heap0.len() && heap0[k] == e;
            }
        }

        if pos.x == goal.x && pos.y == goal.y {
            proof {
                assert(pos == goal);
                assert(reachable_n(props, s, start, goal, e.cost as int));
                assert forall|n: int|
                    #[trigger] reachable_n(props, s, start, goal, n) implies n >= e.cost by {
                    if n < u16::MAX {
                        lemma_frontier_bound(props, s, start, settled, dist, heap0, goal, n);
                        let k = choose|k: int|
                            0 <= k < heap0.len() && (#[trigger] heap0[k]).cost <= n;
                        assert(e.cost <= heap0[k].cost);
                    }
                }
            }
            return Some(e.cost);
        }

        let d_here = dist.get(propsr, pos);
        if e.cost > d_here {
            // Stale entry: the cell was already reached more cheaply.
            proof {
                assert forall|p: Pos|
                    props.spec_in_grid(p) && !settled.contains(p) && #[trigger] dist.at(p)
                        < u16::MAX implies exists|k: int|
                    0 <= k < heap@.len() && (#[trigger] heap@[k]).position == p && heap@[k].cost
                        == dist.at(p) by {
                    let k = choose|k: int|
                        0 <= k < heap0.len() && (#[trigger] heap0[k]).position == p
                            && heap0[k].cost == dist.at(p);
                    let x = heap0[k];
                    assert(x != e);
                    assert(heap@.contains(x));
                    let k2 = choose|k2: int| 0 <= k2 < heap@.len() && heap@[k2] == x;
                }
                lemma_grid_sum_nonneg(dist.0, props.height as int, props.width as int);
            }
            continue;
        }
        proof {
            assert(e.cost == dist.at(pos));
            // The popped cost is minimal over every walk to this cell, so
            // the cell can be settled at this distance.
            if !settled.contains(pos) {
                assert forall|n: int|
                    #[trigger] reachable_n(props, s, start, pos, n) implies n >= dist.at(pos) by {
                    if n < u16::MAX {
                        lemma_frontier_bound(props, s, start, settled, dist, heap0, pos, n);
                        let k = choose|k: int|
                            0 <= k < heap0.len() && (#[trigger] heap0[k]).cost <= n;
                        assert(e.cost <= heap0[k].cost);
                    }
                }
            }
            settled = settled.insert(pos);
            assert(inv_settled_min(props, s, start, settled, dist));
            assert forall|p: Pos|
                props.spec_in_grid(p) && !settled.contains(p) && #[trigger] dist.at(p)
                    < u16::MAX implies exists|k: int|
                0 <= k < heap@.len() && (#[trigger] heap@[k]).position == p && heap@[k].cost
                    == dist.at(p) by {
                let k = choose|k: int|
                    0 <= k < heap0.len() && (#[trigger] heap0[k]).position == p && heap0[k].cost
                        == dist.at(p);
                let x = heap0[k];
                assert(x != e);
                assert(heap@.contains(x));
                let k2 = choose|k2: int| 0 <= k2 < heap@.len() && heap@[k2] == x;
            }
        }

        let ghost measure0 = grid_sum(dist0.0, props.height as int, props.width as int)
            + heap0.len();
        proof {
            assert(grid_sum(dist.0, props.height as int, props.width as int) + heap@.len()
                <= measure0 - 1);
        }

        let edge_list = graph.edges(pos);
        let mut j: usize = 0;
        while j < edge_list.len()
            invariant
                propsr.wf(),
                props == *propsr,
                s == state@,
                graph.describes(props, s),
                props.spec_in_grid(start),
                props.spec_in_grid(goal),
                props.spec_in_grid(pos),
                dist.wf(props),
                dist.at(start) == 0,
                edge_list@ == graph.edge_seq(pos),
                j <= edge_list@.len(),
                e.cost < u16::MAX,
                settled.contains(pos),
                dist.at(pos) == e.cost,
                reachable_n(props, s, start, pos, e.cost as int),
                forall|k: int|
                    0 <= k < heap@.len() ==> inv_entry(props, s, start, dist, #[trigger] heap@[k]),
                inv_frontier_complete(props, settled, dist, heap@),
                inv_settled_min(props, s, start, settled, dist),
                inv_settled_dist(props, settled, dist),
                !settled.contains(goal),
                forall|p: Pos, q: Pos|
                    settled.contains(p) && #[trigger] walk_adj(props, s, p, q) && p != pos
                        ==> dist.at(q) <= dist.at(p) + 1,
                forall|i: int|
                    0 <= i < j ==> dist.at(#[trigger] edge_list@[i]) <= dist.at(pos) + 1,
                grid_sum(dist.0, props.height as int, props.width as int) + heap@.len()
                    <= measure0 - 1,
            decreases edge_list@.len() - j,
        {
            let q = edge_list[j];
            proof {
                assert(graph.edge_seq(pos).contains(q)) by {
                    assert(graph.edge_seq(pos)[j as int] == q);
                }
                assert(walk_adj(props, s, pos, q));
            }
            let nc = e.cost + 1;
            let dq = dist.get(propsr, q);
            if nc < dq {
                let ghost dist_before = dist;
                dist.set(propsr, q, nc);
                proof {
                    // The relaxed cell cannot be settled: its recorded
                    // minimal distance would contradict the cheaper walk.
                    lemma_walk_extend(props, s, start, pos, q, e.cost as int);
                    assert(reachable_n(props, s, start, q, nc as int));
                    if settled.contains(q) {
                        assert(nc as int >= dist_before.at(q));
                        assert(false);
                    }
                    assert forall|i: int, jj: int|
                        0 <= i < props.width && 0 <= jj < props.height && !(i == q.x as int && jj
                            == q.y as int) implies #[trigger] dist.0.spec_get(i, jj)
                        == dist_before.0.spec_get(i, jj) by {
                        let pp = Pos { x: i as u8, y: jj as u8 };
                        assert(props.spec_in_grid(pp));
                        assert(pp != q);
                        assert(dist.at(pp) == dist_before.at(pp));
                    }
                    lemma_grid_sum_update(
                        dist_before.0,
                        dist.0,
                        props.height as int,
                        props.width as int,
                        q.x as int,
                        q.y as int,
                    );
                }
                let ghost heap_before = heap@;
                heap.push(State { cost: nc, position: q });
                proof {
                    assert(heap@ == heap_before.push(State { cost: nc, position: q }));
                    assert forall|k: int|
                        0 <= k < heap@.len() implies inv_entry(
                        props,
                        s,
                        start,
                        dist,
                        #[trigger] heap@[k],
                    ) by {
                        if k < heap_before.len() {
                            assert(heap@[k] == heap_before[k]);
                            assert(inv_entry(props, s, start, dist_before, heap@[k]));
                            if heap@[k].position == q {
                            } else {
                                assert(dist.at(heap@[k].position) == dist_before.at(
                                    heap@[k].position,
                                ));
                            }
                        } else {
                            assert(heap@[k] == (State { cost: nc, position: q }));
                        }
                    }
                    assert forall|p: Pos|
                        props.spec_in_grid(p) && !settled.contains(p) && #[trigger] dist.at(p)
                            < u16::MAX implies exists|k: int|
                        0 <= k < heap@.len() && (#[trigger] heap@[k]).position == p
                            && heap@[k].cost == dist.at(p) by {
                        if p == q {
                            assert(heap@[heap_before.len() as int].position == q);
                            assert(heap@[heap_before.len() as int].cost == dist.at(q));
                        } else {
                            assert(dist.at(p) == dist_before.at(p));
                            let k = choose|k: int|
                                0 <= k < heap_before.len() && (#[trigger] heap_before[k]).position
                                    == p && heap_before[k].cost == dist_before.at(p);
                            assert(heap@[k].position == p && heap@[k].cost == dist.at(p));
                        }
                    }
                    assert forall|p: Pos, q2: Pos|
                        settled.contains(p) && #[trigger] walk_adj(props, s, p, q2) && p
                            != pos implies dist.at(q2) <= dist.at(p) + 1 by {
                        assert(dist_before.at(q2) <= dist_before.at(p) + 1);
                        assert(dist.at(p) == dist_before.at(p));
                        if q2 == q {
                        } else {
                            assert(dist.at(q2) == dist_before.at(q2));
                        }
                    }
                    assert forall|i: int|
                        0 <= i < j + 1 implies dist.at(#[trigger] edge_list@[i]) <= dist.at(pos)
                        + 1 by {
                        if i < j {
                            if edge_list@[i] == q {
                            } else {
                                assert(graph.edge_seq(pos).contains(edge_list@[i])) by {
                                    assert(graph.edge_seq(pos)[i] == edge_list@[i]);
                                }
                                assert(walk_adj(props, s, pos, edge_list@[i]));
                                assert(props.spec_in_grid(edge_list@[i]));
                                assert(dist.at(edge_list@[i]) == dist_before.at(edge_list@[i]));
                            }
                        } else {
                            assert(edge_list@[i] == q);
                        }
                    }
                    assert(dist.at(pos) == dist_before.at(pos)) by {
                        assert(pos != q);
                    }
                }
            }
            j = j + 1;
        }
        proof {
            // All edges of the newly settled cell are relaxed now.
            assert forall|p: Pos, q: Pos|
                settled.contains(p) && #[trigger] walk_adj(props, s, p, q) implies dist.at(q)
                <= dist.at(p) + 1 by {
                if p == pos {
                    assert(graph.edge_seq(pos).contains(q));
                    let i = choose|i: int|
                        0 <= i < graph.edge_seq(pos).len() && graph.edge_seq(pos)[i] == q;
                    assert(edge_list@[i] == q);
                }
            }
            lemma_grid_sum_nonneg(dist.0, props.height as int, props.width as int);
        }
    }
}

/// The free neighbours of `pos`: the cells the player can step to.
fn calc_edges(propsr: &BoardProps, state: &SolveState, pos: Pos) -> (r: Vec<Pos>)
    requires
        propsr.wf(),
        propsr.spec_in_grid(pos),
        !propsr.spec_is_wall_at(pos),
    ensures
        forall|q: Pos| #[trigger]
            r@.contains(q) <==> walk_adj(*propsr, state@, pos, q),
        r@ == expected_edges(*propsr, state@, pos),
{
    let ghost props = *propsr;
    let ghost s = state@;
    let mut res: Vec<Pos> = Vec::new();

    let ghost n_up = cand_up(pos);
    let ghost n_down = cand_down(pos);
    let ghost n_left = cand_left(pos);
    let ghost n_right = cand_right(pos);

    let ghost ms0 = res@;
    let mut added_up = false;
    if (pos.y as usize) + 1 < propsr.height {
        let q = Pos { x: pos.x, y: pos.y + 1 };
        if propsr.free_q(state, q) {
            res.push(q);
            added_up = true;
        }
    }
    proof {
        assert(added_up == walk_adj(props, s, pos, n_up)) by {
            if (pos.y as int) + 1 < props.height {
                assert(n_up.y as int == pos.y as int + 1);
            } else {
                if pos.y as int == 255 {
                    assert(!is_neighbour(pos, n_up));
                } else {
                    assert(n_up.y as int == pos.y as int + 1);
                    assert(!props.spec_in_grid(n_up));
                }
                assert(!walk_adj(props, s, pos, n_up));
            }
        }
    }
    let ghost ms1 = res@;

    let mut added_down = false;
    if pos.y >= 1 {
        let q = Pos { x: pos.x, y: pos.y - 1 };
        if propsr.free_q(state, q) {
            res.push(q);
            added_down = true;
        }
    }
    proof {
        assert(added_down == walk_adj(props, s, pos, n_down)) by {
            if pos.y as int >= 1 {
                assert(n_down.y as int == pos.y as int - 1);
            } else {
                assert(n_down.y as int == 255);
                assert(!is_neighbour(pos, n_down));
                assert(!walk_adj(props, s, pos, n_down));
            }
        }
    }
    let ghost ms2 = res@;

    let mut added_left = false;
    if pos.x >= 1 {
        let q = Pos { x: pos.x - 1, y: pos.y };
        if propsr.free_q(state, q) {
            res.push(q);
            added_left = true;
        }
    }
    proof {
        assert(added_left == walk_adj(props, s, pos, n_left)) by {
            if pos.x as int >= 1 {
                assert(n_left.x as int == pos.x as int - 1);
            } else {
                assert(n_left.x as int == 255);
                assert(!is_neighbour(pos, n_left));
                assert(!walk_adj(props, s, pos, n_left));
            }
        }
    }
    let ghost ms3 = res@;

    let mut added_right = false;
    if (pos.x as usize) + 1 < propsr.width {
        let q = Pos { x: pos.x + 1, y: pos.y };
        if propsr.free_q(state, q) {
            res.push(q);
            added_right = true;
        }
    }
    proof {
        assert(added_right == walk_adj(props, s, pos, n_right)) by {
            if (pos.x as int) + 1 < props.width {
                assert(n_right.x as int == pos.x as int + 1);
            } else {
                if pos.x as int == 255 {
                    assert(!is_neighbour(pos, n_right));
                } else {
                    assert(n_right.x as int == pos.x as int + 1);
                    assert(!props.spec_in_grid(n_right));
                }
                assert(!walk_adj(props, s, pos, n_right));
            }
        }
    }
    let ghost ms4 = res@;

    proof {
        assert forall|q: Pos|
            ms1.contains(q) <==> (ms0.contains(q) || (added_up && q == n_up)) by {
            if added_up {
                lemma_push_contains(ms0, n_up, q);
            }
        }
        assert forall|q: Pos|
            ms2.contains(q) <==> (ms1.contains(q) || (added_down && q == n_down)) by {
            if added_down {
                lemma_push_contains(ms1, n_down, q);
            }
        }
        assert forall|q: Pos|
            ms3.contains(q) <==> (ms2.contains(q) || (added_left && q == n_left)) by {
            if added_left {
                lemma_push_contains(ms2, n_left, q);
            }
        }
        assert forall|q: Pos|
            ms4.contains(q) <==> (ms3.contains(q) || (added_right && q == n_right)) by {
            if added_right {
                lemma_push_contains(ms3, n_right, q);
            }
        }
        assert forall|q: Pos| #[trigger]
            res@.contains(q) <==> walk_adj(props, s, pos, q) by {
            if walk_adj(props, s, pos, q) {
                let qx = q.x as int;
                let qy = q.y as int;
                let px = pos.x as int;
                let py = pos.y as int;
                if qx == px && qy == py + 1 {
                    assert(q == n_up);
                } else if qx == px && qy == py - 1 {
                    assert(q == n_down);
                } else if qy == py && qx == px - 1 {
                    assert(q == n_left);
                } else {
                    assert(qy == py && qx == px + 1);
                    assert(q == n_right);
                }
            }
        }
        // The list is exactly the walkable candidates in probe order.
        assert(added_up ==> ms1 == ms0.push(n_up));
        assert(!added_up ==> ms1 == ms0);
        assert(added_down ==> ms2 == ms1.push(n_down));
        assert(!added_down ==> ms2 == ms1);
        assert(added_left ==> ms3 == ms2.push(n_left));
        assert(!added_left ==> ms3 == ms2);
        assert(added_right ==> ms4 == ms3.push(n_right));
        assert(!added_right ==> ms4 == ms3);
        assert(ms1 =~= ms0 + edge_opt(props, s, pos, n_up));
        assert(ms2 =~= ms1 + edge_opt(props, s, pos, n_down));
        assert(ms3 =~= ms2 + edge_opt(props, s, pos, n_left));
        assert(ms4 =~= ms3 + edge_opt(props, s, pos, n_right));
        assert(res@ =~= expected_edges(props, s, pos));
    }
    res
}

} // verus!
