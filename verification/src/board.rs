//! The board: immutable static layout plus the small mutable search state.

use vstd::prelude::*;

use crate::cell::InputError;
use crate::dead::{detect_dead_positions, is_grid_width, spec_dead, wall_in_row};
use crate::input::{fits_u8_grid, p_in_row, rm_lt, Input};
use crate::matrix::Matrix;
use crate::pos::{player_side, pos_lt, Move, Pos};
use crate::poslist::{
    contains_pos, find_pos, lemma_push_contains, lemma_push_distinct, lemma_sorted_unique,
    pos_list_eq, sort_distinct, sorted_insert, sorted_remove_at, strictly_sorted,
};

verus! {

/// The mathematical value of a search state: the player position and the
/// strictly sorted box configuration.
pub ghost struct StateModel {
    pub player: Pos,
    pub boxes: Seq<Pos>,
}

/// The per-node mutable search state: player position plus the sorted box
/// list. Two states with equal views are the same configuration.
pub struct SolveState {
    pub player: Pos,
    pub boxes: Vec<Pos>,
}

impl View for SolveState {
    type V = StateModel;

    open spec fn view(&self) -> StateModel {
        StateModel { player: self.player, boxes: self.boxes@ }
    }
}

impl SolveState {
    /// Applies a push: the box on `m.start` moves to `m.end`, the player
    /// steps onto `m.start`, and the box list stays strictly sorted.
    pub fn apply_move(&mut self, m: Move)
        requires
            strictly_sorted(old(self)@.boxes),
            old(self)@.boxes.contains(m.start),
            !old(self)@.boxes.contains(m.end),
        ensures
            strictly_sorted(final(self)@.boxes),
            final(self)@.player == m.start,
            final(self)@.boxes.len() == old(self)@.boxes.len(),
            forall|q: Pos|
                final(self)@.boxes.contains(q) <==> (q == m.end || (q != m.start && old(
                    self,
                )@.boxes.contains(q))),
    {
        let n = self.boxes.len();
        proof {
            assert(old(self)@.boxes.len() == n);
        }
        let i = find_pos(&self.boxes, m.start).unwrap();
        let _removed = sorted_remove_at(&mut self.boxes, i);
        sorted_insert(&mut self.boxes, m.end);
        self.player = m.start;
    }

    /// An identical copy of the state.
    pub fn duplicate(&self) -> (r: Self)
        ensures
            r@ == self@,
    {
        let mut boxes: Vec<Pos> = Vec::new();
        let mut i: usize = 0;
        while i < self.boxes.len()
            invariant
                i <= self.boxes@.len(),
                boxes@ == self.boxes@.subrange(0, i as int),
            decreases self.boxes.len() - i,
        {
            boxes.push(self.boxes[i]);
            i = i + 1;
            proof {
                assert(boxes@ =~= self.boxes@.subrange(0, i as int));
            }
        }
        proof {
            assert(boxes@ =~= self.boxes@);
        }
        SolveState { player: self.player, boxes }
    }
}

/// The static, read-only part of a board: dimensions, wall and dead-cell
/// bitmaps, and the sorted destination list. Shared by every search node
/// and never changed after construction.
pub struct BoardProps {
    pub width: usize,
    pub height: usize,
    pub walls: Matrix<bool>,
    pub dead: Matrix<bool>,
    pub destinations: Vec<Pos>,
}

impl BoardProps {
    pub open spec fn wf(&self) -> bool {
        &&& 1 <= self.width <= 256
        &&& 1 <= self.height <= 256
        &&& self.walls.wf()
        &&& self.walls.spec_width() == self.width
        &&& self.walls.spec_height() == self.height
        &&& self.dead.wf()
        &&& self.dead.spec_width() == self.width
        &&& self.dead.spec_height() == self.height
        &&& strictly_sorted(self.destinations@)
        &&& forall|q: Pos| #[trigger] self.destinations@.contains(q) ==> self.spec_in_grid(q)
    }

    pub open spec fn spec_in_grid(&self, p: Pos) -> bool {
        (p.x as int) < self.width && (p.y as int) < self.height
    }

    pub open spec fn spec_is_wall_at(&self, p: Pos) -> bool {
        self.spec_in_grid(p) && self.walls.spec_get(p.x as int, p.y as int)
    }

    pub open spec fn spec_is_dead_at(&self, p: Pos) -> bool {
        self.spec_in_grid(p) && self.dead.spec_get(p.x as int, p.y as int)
    }

    pub open spec fn spec_is_destination(&self, p: Pos) -> bool {
        self.destinations@.contains(p)
    }

    /// Wall lookup; cells outside the grid are not walls.
    pub fn wall_q(&self, pos: Pos) -> (r: bool)
        requires
            self.wf(),
        ensures
            r == self.spec_is_wall_at(pos),
    {
        self.walls.get_or(pos.x as usize, pos.y as usize, false)
    }

    /// Dead-cell lookup; cells outside the grid are not marked.
    pub fn dead_q(&self, pos: Pos) -> (r: bool)
        requires
            self.wf(),
        ensures
            r == self.spec_is_dead_at(pos),
    {
        self.dead.get_or(pos.x as usize, pos.y as usize, false)
    }

    /// Whether the player can stand on `pos` in state `state`.
    pub fn free_q(&self, state: &SolveState, pos: Pos) -> (r: bool)
        requires
            self.wf(),
        ensures
            r == spec_is_free(*self, state@, pos),
    {
        !self.wall_q(pos) && !contains_pos(&state.boxes, pos)
    }

    /// Whether a box may be pushed onto `pos` in state `state`.
    pub fn push_target_q(&self, state: &SolveState, pos: Pos) -> (r: bool)
        requires
            self.wf(),
        ensures
            r == spec_is_push_target(*self, state@, pos),
    {
        !self.dead_q(pos) && !contains_pos(&state.boxes, pos)
    }

    /// Whether `state` has every box on a destination and every
    /// destination under a box.
    pub fn solved_q(&self, state: &SolveState) -> (r: bool)
        ensures
            r == spec_solved(*self, state@),
    {
        pos_list_eq(&state.boxes, &self.destinations)
    }

    /// Every structurally legal push of `state`, one entry per legal
    /// (box, direction) pair.
    pub fn legal_moves(&self, state: &SolveState) -> (r: Vec<Move>)
        requires
            self.wf(),
            state_wf(*self, state@),
        ensures
            forall|m: Move| #[trigger]
                r@.contains(m) <==> legal_push(*self, state@, m),
            forall|i: int, j: int| 0 <= i < j < r@.len() ==> r@[i] != r@[j],
    {
        let ghost props = *self;
        let ghost s = state@;
        let mut moves: Vec<Move> = Vec::new();
        let mut i: usize = 0;
        while i < state.boxes.len()
            invariant
                self.wf(),
                state_wf(*self, state@),
                props == *self,
                s == state@,
                i <= s.boxes.len(),
                forall|m: Move| #[trigger]
                    moves@.contains(m) <==> (legal_push(props, s, m) && exists|k: int|
                        0 <= k < i && s.boxes[k] == m.start),
                forall|i1: int, j1: int| 0 <= i1 < j1 < moves@.len() ==> moves@[i1] != moves@[j1],
            decreases state.boxes.len() - i,
        {
            let b = state.boxes[i];
            proof {
                assert(s.boxes.contains(b));
            }
            let ghost ms0 = moves@;
            let ghost m_down = Move { start: b, end: Pos { x: b.x, y: (b.y - 1) as u8 } };
            let ghost m_up = Move { start: b, end: Pos { x: b.x, y: (b.y + 1) as u8 } };
            let ghost m_left = Move { start: b, end: Pos { x: (b.x - 1) as u8, y: b.y } };
            let ghost m_right = Move { start: b, end: Pos { x: (b.x + 1) as u8, y: b.y } };

            // Push towards smaller y; the player stands above the box.
            let mut pushed_down = false;
            if b.y >= 1 && (b.y as usize) + 1 < self.height {
                let side = Pos { x: b.x, y: b.y + 1 };
                let end = Pos { x: b.x, y: b.y - 1 };
                if self.free_q(state, side) && self.push_target_q(state, end) {
                    moves.push(Move { start: b, end });
                    pushed_down = true;
                    proof {
                        assert(side == player_side(m_down));
                    }
                }
            }
            proof {
                assert(pushed_down == legal_push(props, s, m_down)) by {
                    if legal_push(props, s, m_down) {
                        assert(b.y >= 1 && (b.y as int) + 1 < props.height);
                        assert(player_side(m_down) == (Pos { x: b.x, y: (b.y + 1) as u8 }));
                    }
                }
            }
            let ghost ms1 = moves@;

            // Push towards larger y; the player stands below the box.
            let mut pushed_up = false;
            if (b.y as usize) + 1 < self.height && b.y >= 1 {
                let side = Pos { x: b.x, y: b.y - 1 };
                let end = Pos { x: b.x, y: b.y + 1 };
                if self.push_target_q(state, end) && self.free_q(state, side) {
                    moves.push(Move { start: b, end });
                    pushed_up = true;
                    proof {
                        assert(side == player_side(m_up));
                    }
                }
            }
            proof {
                assert(pushed_up == legal_push(props, s, m_up)) by {
                    if legal_push(props, s, m_up) {
                        assert((b.y as int) + 1 < props.height && b.y >= 1);
                        assert(player_side(m_up) == (Pos { x: b.x, y: (b.y - 1) as u8 }));
                    }
                }
            }
            let ghost ms2 = moves@;

            // Push towards smaller x; the player stands right of the box.
            let mut pushed_left = false;
            if b.x >= 1 && (b.x as usize) + 1 < self.width {
                let side = Pos { x: b.x + 1, y: b.y };
                let end = Pos { x: b.x - 1, y: b.y };
                if self.push_target_q(state, end) && self.free_q(state, side) {
                    moves.push(Move { start: b, end });
                    pushed_left = true;
                    proof {
                        assert(side == player_side(m_left));
                    }
                }
            }
            proof {
                assert(pushed_left == legal_push(props, s, m_left)) by {
                    if legal_push(props, s, m_left) {
                        assert(b.x >= 1 && (b.x as int) + 1 < props.width);
                        assert(player_side(m_left) == (Pos { x: (b.x + 1) as u8, y: b.y }));
                    }
                }
            }
            let ghost ms3 = moves@;

            // Push towards larger x; the player stands left of the box.
            let mut pushed_right = false;
            if b.x >= 1 && (b.x as usize) + 1 < self.width {
                let side = Pos { x: b.x - 1, y: b.y };
                let end = Pos { x: b.x + 1, y: b.y };
                if self.free_q(state, side) && self.push_target_q(state, end) {
                    moves.push(Move { start: b, end });
                    pushed_right = true;
                    proof {
                        assert(side == player_side(m_right));
                    }
                }
            }
            proof {
                assert(pushed_right == legal_push(props, s, m_right)) by {
                    if legal_push(props, s, m_right) {
                        assert(b.x >= 1 && (b.x as int) + 1 < props.width);
                        assert(player_side(m_right) == (Pos { x: (b.x - 1) as u8, y: b.y }));
                    }
                }
            }
            let ghost ms4 = moves@;

            proof {
                assert forall|q: Move|
                    ms1.contains(q) <==> (ms0.contains(q) || (pushed_down && q == m_down)) by {
                    if pushed_down {
                        lemma_push_contains(ms0, m_down, q);
                    }
                }
                assert forall|q: Move|
                    ms2.contains(q) <==> (ms1.contains(q) || (pushed_up && q == m_up)) by {
                    if pushed_up {
                        lemma_push_contains(ms1, m_up, q);
                    }
                }
                assert forall|q: Move|
                    ms3.contains(q) <==> (ms2.contains(q) || (pushed_left && q == m_left)) by {
                    if pushed_left {
                        lemma_push_contains(ms2, m_left, q);
                    }
                }
                assert forall|q: Move|
                    ms4.contains(q) <==> (ms3.contains(q) || (pushed_right && q == m_right)) by {
                    if pushed_right {
                        lemma_push_contains(ms3, m_right, q);
                    }
                }
                // No push is emitted twice: pushes of earlier boxes start
                // elsewhere, and this box's four candidates end on four
                // different cells.
                assert(pushed_down ==> ms1 == ms0.push(m_down));
                assert(!pushed_down ==> ms1 == ms0);
                assert(pushed_up ==> ms2 == ms1.push(m_up));
                assert(!pushed_up ==> ms2 == ms1);
                assert(pushed_left ==> ms3 == ms2.push(m_left));
                assert(!pushed_left ==> ms3 == ms2);
                assert(pushed_right ==> ms4 == ms3.push(m_right));
                assert(!pushed_right ==> ms4 == ms3);
                assert forall|v: Move| ms0.contains(v) implies v.start != b by {
                    let k = choose|k: int| 0 <= k < i && s.boxes[k] == v.start;
                    assert(pos_lt(s.boxes[k], s.boxes[i as int]));
                }
                assert(forall|i1: int, j1: int|
                    0 <= i1 < j1 < ms1.len() ==> ms1[i1] != ms1[j1]) by {
                    if pushed_down {
                        assert(!ms0.contains(m_down));
                        lemma_push_distinct(ms0, m_down);
                    }
                }
                assert(forall|i1: int, j1: int|
                    0 <= i1 < j1 < ms2.len() ==> ms2[i1] != ms2[j1]) by {
                    if pushed_up {
                        assert(!ms1.contains(m_up)) by {
                            if pushed_down {
                                assert(m_down.end.y as int == b.y as int - 1);
                                assert(m_up.end.y as int == b.y as int + 1);
                            }
                        }
                        lemma_push_distinct(ms1, m_up);
                    }
                }
                assert(forall|i1: int, j1: int|
                    0 <= i1 < j1 < ms3.len() ==> ms3[i1] != ms3[j1]) by {
                    if pushed_left {
                        assert(!ms2.contains(m_left)) by {
                            assert(m_left.end.x as int == b.x as int - 1);
                            assert(m_down.end.x as int == b.x as int);
                            assert(m_up.end.x as int == b.x as int);
                        }
                        lemma_push_distinct(ms2, m_left);
                    }
                }
                assert(forall|i1: int, j1: int|
                    0 <= i1 < j1 < ms4.len() ==> ms4[i1] != ms4[j1]) by {
                    if pushed_right {
                        assert(!ms3.contains(m_right)) by {
                            assert(m_right.end.x as int == b.x as int + 1);
                            assert(m_down.end.x as int == b.x as int);
                            assert(m_up.end.x as int == b.x as int);
                            if pushed_left {
                                assert(m_left.end.x as int == b.x as int - 1);
                            }
                        }
                        lemma_push_distinct(ms3, m_right);
                    }
                }
                assert forall|m: Move| #[trigger]
                    moves@.contains(m) <==> (legal_push(props, s, m) && exists|k: int|
                        0 <= k < i + 1 && s.boxes[k] == m.start) by {
                    if moves@.contains(m) {
                        if ms0.contains(m) {
                            assert(legal_push(props, s, m));
                            let k = choose|k: int| 0 <= k < i && s.boxes[k] == m.start;
                            assert(0 <= k < i + 1 && s.boxes[k] == m.start);
                        } else {
                            assert(m == m_down || m == m_up || m == m_left || m == m_right);
                            assert(legal_push(props, s, m));
                            assert(s.boxes[i as int] == m.start);
                        }
                    }
                    if legal_push(props, s, m) && (exists|k: int|
                        0 <= k < i + 1 && s.boxes[k] == m.start) {
                        let k = choose|k: int| 0 <= k < i + 1 && s.boxes[k] == m.start;
                        if k < i {
                            assert(ms0.contains(m));
                        } else {
                            assert(m.start == b);
                            // A legal push from b goes to one of the four
                            // neighbouring cells.
                            let sx = m.start.x as int;
                            let sy = m.start.y as int;
                            let ex = m.end.x as int;
                            let ey = m.end.y as int;
                            if ex == sx && ey == sy - 1 {
                                assert(m == m_down);
                            } else if ex == sx && ey == sy + 1 {
                                assert(m == m_up);
                            } else if ey == sy && ex == sx - 1 {
                                assert(m == m_left);
                            } else {
                                assert(ey == sy && ex == sx + 1);
                                assert(m == m_right);
                            }
                        }
                        assert(moves@.contains(m));
                    }
                }
            }
            i = i + 1;
        }
        proof {
            assert forall|m: Move| #[trigger]
                moves@.contains(m) <==> legal_push(props, s, m) by {
                if legal_push(props, s, m) {
                    assert(s.boxes.contains(m.start));
                    let k = choose|k: int| 0 <= k < s.boxes.len() && s.boxes[k] == m.start;
                }
            }
        }
        moves
    }
}

/// A state is well formed for a layout when its box list is strictly
/// sorted and everything lies on the grid.
pub open spec fn state_wf(props: BoardProps, s: StateModel) -> bool {
    &&& strictly_sorted(s.boxes)
    &&& forall|q: Pos| #[trigger] s.boxes.contains(q) ==> props.spec_in_grid(q)
    &&& props.spec_in_grid(s.player)
}

/// Free for the player to stand on: not a wall and not occupied by a box.
pub open spec fn spec_is_free(props: BoardProps, s: StateModel, p: Pos) -> bool {
    !props.spec_is_wall_at(p) && !s.boxes.contains(p)
}

/// A box may be pushed onto `p`: not a dead cell and not occupied.
pub open spec fn spec_is_push_target(props: BoardProps, s: StateModel, p: Pos) -> bool {
    !props.spec_is_dead_at(p) && !s.boxes.contains(p)
}

/// Solved: the sorted box list equals the sorted destination list, so
/// every box is on a destination and every destination holds a box.
pub open spec fn spec_solved(props: BoardProps, s: StateModel) -> bool {
    s.boxes == props.destinations@
}

/// What "solved" means cell by cell: every box sits on a destination and
/// every destination holds a box.
pub proof fn lemma_solved_boxes_on_destinations(props: BoardProps, s: StateModel)
    requires
        spec_solved(props, s),
    ensures
        forall|b: Pos| s.boxes.contains(b) <==> props.spec_is_destination(b),
{
}

/// The box and its destination cell are axis-aligned neighbours.
pub open spec fn push_shape(m: Move) -> bool {
    let sx = m.start.x as int;
    let sy = m.start.y as int;
    let ex = m.end.x as int;
    let ey = m.end.y as int;
    ||| (ex == sx && (ey == sy + 1 || ey == sy - 1))
    ||| (ey == sy && (ex == sx + 1 || ex == sx - 1))
}

/// The (unclamped) coordinates of the cell the player pushes from.
pub open spec fn side_x(m: Move) -> int {
    2 * (m.start.x as int) - (m.end.x as int)
}

pub open spec fn side_y(m: Move) -> int {
    2 * (m.start.y as int) - (m.end.y as int)
}

/// A push is structurally legal: there is a box on `m.start`; `m.end` is
/// the adjacent cell in some direction and lies on the grid; the player
/// side cell lies on the grid and is neither wall nor box; and the box
/// lands neither on a dead cell nor on another box.
pub open spec fn legal_push(props: BoardProps, s: StateModel, m: Move) -> bool {
    &&& s.boxes.contains(m.start)
    &&& push_shape(m)
    &&& props.spec_in_grid(m.end)
    &&& 0 <= side_x(m) < props.width
    &&& 0 <= side_y(m) < props.height
    &&& !props.spec_is_wall_at(player_side(m))
    &&& !s.boxes.contains(player_side(m))
    &&& !props.spec_is_dead_at(m.end)
    &&& !s.boxes.contains(m.end)
}

/// One step of board dynamics: `m` is legal in `s`, and `s2` is `s` after
/// the push (the box moved, the player on the vacated cell, the box list
/// kept sorted).
pub open spec fn push_rel(props: BoardProps, s: StateModel, m: Move, s2: StateModel) -> bool {
    &&& legal_push(props, s, m)
    &&& s2.player == m.start
    &&& strictly_sorted(s2.boxes)
    &&& s2.boxes.len() == s.boxes.len()
    &&& forall|q: Pos| s2.boxes.contains(q) <==> (q == m.end || (q != m.start && s.boxes.contains(q)))
}

/// A push has exactly one result: the sorted box list and the player
/// position after it are determined.
pub proof fn lemma_push_rel_deterministic(
    props: BoardProps,
    s: StateModel,
    m: Move,
    s1: StateModel,
    s2: StateModel,
)
    requires
        push_rel(props, s, m, s1),
        push_rel(props, s, m, s2),
    ensures
        s1 == s2,
{
    assert forall|q: Pos| s1.boxes.contains(q) <==> s2.boxes.contains(q) by {}
    lemma_sorted_unique(s1.boxes, s2.boxes);
}

/// Pushes preserve state well-formedness.
pub proof fn lemma_push_rel_wf(props: BoardProps, s: StateModel, m: Move, s2: StateModel)
    requires
        state_wf(props, s),
        push_rel(props, s, m, s2),
    ensures
        state_wf(props, s2),
{
    assert forall|q: Pos| #[trigger] s2.boxes.contains(q) implies props.spec_in_grid(q) by {
        if q != m.end {
            assert(s.boxes.contains(q));
        }
    }
    assert(props.spec_in_grid(m.start)) by {
        assert(s.boxes.contains(m.start));
    }
}

/// Replaying a push sequence: `sn` is the state reached from `s0` by
/// performing the pushes in order, each legal in the state it meets.
pub open spec fn replay_rel(props: BoardProps, s0: StateModel, moves: Seq<Move>, sn: StateModel) -> bool
    decreases moves.len(),
{
    if moves.len() == 0 {
        sn == s0
    } else {
        exists|mid: StateModel|
            replay_rel(props, s0, moves.drop_last(), mid) && #[trigger] push_rel(
                props,
                mid,
                moves.last(),
                sn,
            )
    }
}

/// Extending a replay by one legal push.
pub proof fn lemma_replay_snoc(
    props: BoardProps,
    s0: StateModel,
    moves: Seq<Move>,
    s1: StateModel,
    m: Move,
    s2: StateModel,
)
    requires
        replay_rel(props, s0, moves, s1),
        push_rel(props, s1, m, s2),
    ensures
        replay_rel(props, s0, moves.push(m), s2),
{
    let ms2 = moves.push(m);
    assert(ms2.drop_last() =~= moves);
    assert(ms2.last() == m);
    assert(replay_rel(props, s0, ms2.drop_last(), s1) && push_rel(props, s1, ms2.last(), s2));
}

/// A replayed sequence of legal pushes keeps the state well formed.
pub proof fn lemma_replay_wf(props: BoardProps, s0: StateModel, moves: Seq<Move>, sn: StateModel)
    requires
        state_wf(props, s0),
        replay_rel(props, s0, moves, sn),
    ensures
        state_wf(props, sn),
    decreases moves.len(),
{
    if moves.len() == 0 {
    } else {
        let mid = choose|mid: StateModel|
            replay_rel(props, s0, moves.drop_last(), mid) && #[trigger] push_rel(
                props,
                mid,
                moves.last(),
                sn,
            );
        lemma_replay_wf(props, s0, moves.drop_last(), mid);
        lemma_push_rel_wf(props, mid, moves.last(), sn);
    }
}

/// The cell's left neighbour is off the grid or a wall.
pub open spec fn blocked_left(props: BoardProps, q: Pos) -> bool {
    q.x == 0 || props.spec_is_wall_at(Pos { x: (q.x - 1) as u8, y: q.y })
}

/// The cell's right neighbour is off the grid or a wall.
pub open spec fn blocked_right(props: BoardProps, q: Pos) -> bool {
    q.x as int + 1 >= props.width || props.spec_is_wall_at(Pos { x: (q.x + 1) as u8, y: q.y })
}

/// The cell's smaller-`y` neighbour is off the grid or a wall.
pub open spec fn blocked_down(props: BoardProps, q: Pos) -> bool {
    q.y == 0 || props.spec_is_wall_at(Pos { x: q.x, y: (q.y - 1) as u8 })
}

/// The cell's larger-`y` neighbour is off the grid or a wall.
pub open spec fn blocked_up(props: BoardProps, q: Pos) -> bool {
    q.y as int + 1 >= props.height || props.spec_is_wall_at(Pos { x: q.x, y: (q.y + 1) as u8 })
}

/// The simple-corner dead-cell rule is semantically sound: on a layout
/// whose walls are all marked dead, a box standing on a non-destination
/// cell that is blocked on one horizontal and one vertical side can never
/// be pushed again, so no legal push sequence from such a configuration
/// ever reaches a solved state. A cell so shaped can therefore never
/// participate in a solution, which is what marking it dead claims.
pub proof fn lemma_corner_traps_box(
    props: BoardProps,
    s0: StateModel,
    moves: Seq<Move>,
    sn: StateModel,
    q: Pos,
)
    requires
        forall|p: Pos| props.spec_is_wall_at(p) ==> #[trigger] props.spec_is_dead_at(p),
        blocked_left(props, q) || blocked_right(props, q),
        blocked_down(props, q) || blocked_up(props, q),
        !props.spec_is_destination(q),
        s0.boxes.contains(q),
        replay_rel(props, s0, moves, sn),
    ensures
        sn.boxes.contains(q),
        !spec_solved(props, sn),
    decreases moves.len(),
{
    if moves.len() == 0 {
        assert(sn.boxes.contains(q));
    } else {
        let mid = choose|mid: StateModel|
            replay_rel(props, s0, moves.drop_last(), mid) && #[trigger] push_rel(
                props,
                mid,
                moves.last(),
                sn,
            );
        lemma_corner_traps_box(props, s0, moves.drop_last(), mid, q);
        let m = moves.last();
        if m.start == q {
            // No direction admits a push of the cornered box.
            let sx = q.x as int;
            let sy = q.y as int;
            let ex = m.end.x as int;
            let ey = m.end.y as int;
            assert(legal_push(props, mid, m));
            if ey == sy && ex == sx - 1 {
                if blocked_left(props, q) {
                    assert(sx >= 1);
                    assert(m.end == (Pos { x: (q.x - 1) as u8, y: q.y }));
                    assert(props.spec_is_dead_at(m.end));
                } else {
                    assert(blocked_right(props, q));
                    assert(side_x(m) == sx + 1 && side_y(m) == sy);
                    assert(sx + 1 < props.width);
                    assert(player_side(m) == (Pos { x: (q.x + 1) as u8, y: q.y }));
                }
                assert(false);
            } else if ey == sy && ex == sx + 1 {
                if blocked_left(props, q) {
                    assert(side_x(m) == sx - 1 && side_y(m) == sy);
                    if q.x == 0 {
                        assert(side_x(m) < 0);
                    } else {
                        assert(player_side(m) == (Pos { x: (q.x - 1) as u8, y: q.y }));
                    }
                } else {
                    assert(blocked_right(props, q));
                    assert((m.end.x as int) < props.width);
                    assert(m.end == (Pos { x: (q.x + 1) as u8, y: q.y }));
                    assert(props.spec_is_dead_at(m.end));
                }
                assert(false);
            } else if ex == sx && ey == sy - 1 {
                if blocked_down(props, q) {
                    assert(sy >= 1);
                    assert(m.end == (Pos { x: q.x, y: (q.y - 1) as u8 }));
                    assert(props.spec_is_dead_at(m.end));
                } else {
                    assert(blocked_up(props, q));
                    assert(side_x(m) == sx && side_y(m) == sy + 1);
                    assert(sy + 1 < props.height);
                    assert(player_side(m) == (Pos { x: q.x, y: (q.y + 1) as u8 }));
                }
                assert(false);
            } else {
                assert(ex == sx && ey == sy + 1);
                if blocked_down(props, q) {
                    assert(side_x(m) == sx && side_y(m) == sy - 1);
                    if q.y == 0 {
                        assert(side_y(m) < 0);
                    } else {
                        assert(player_side(m) == (Pos { x: q.x, y: (q.y - 1) as u8 }));
                    }
                } else {
                    assert(blocked_up(props, q));
                    assert((m.end.y as int) < props.height);
                    assert(m.end == (Pos { x: q.x, y: (q.y + 1) as u8 }));
                    assert(props.spec_is_dead_at(m.end));
                }
                assert(false);
            }
        } else {
            assert(q != m.end) by {
                assert(!mid.boxes.contains(m.end));
            }
            assert(sn.boxes.contains(q));
        }
    }
    if spec_solved(props, sn) {
        assert(props.destinations@.contains(q));
        assert(false);
    }
}

/// No cell marked dead is ever a box's destination in a legally replayed
/// push sequence: every push of the sequence lands its box on a live cell.
pub proof fn lemma_replay_avoids_dead(
    props: BoardProps,
    s0: StateModel,
    moves: Seq<Move>,
    sn: StateModel,
)
    requires
        replay_rel(props, s0, moves, sn),
    ensures
        forall|i: int|
            0 <= i < moves.len() ==> !props.spec_is_dead_at((#[trigger] moves[i]).end),
    decreases moves.len(),
{
    if moves.len() > 0 {
        let mid = choose|mid: StateModel|
            replay_rel(props, s0, moves.drop_last(), mid) && #[trigger] push_rel(
                props,
                mid,
                moves.last(),
                sn,
            );
        lemma_replay_avoids_dead(props, s0, moves.drop_last(), mid);
        assert forall|i: int|
            0 <= i < moves.len() implies !props.spec_is_dead_at((#[trigger] moves[i]).end) by {
            if i < moves.len() - 1 {
                assert(moves.drop_last()[i] == moves[i]);
            } else {
                assert(moves[i] == moves.last());
                assert(legal_push(props, mid, moves.last()));
            }
        }
    }
}

/// A board: the shared static layout plus this node's search state.
pub struct Board {
    pub props: BoardProps,
    pub solve_state: SolveState,
}

impl Board {
    pub open spec fn wf(&self) -> bool {
        self.props.wf() && state_wf(self.props, self.solve_state@)
    }

    pub fn is_wall(&self, pos: Pos) -> (r: bool)
        requires
            self.wf(),
        ensures
            r == self.props.spec_is_wall_at(pos),
    {
        self.props.wall_q(pos)
    }

    pub fn is_dead(&self, pos: Pos) -> (r: bool)
        requires
            self.wf(),
        ensures
            r == self.props.spec_is_dead_at(pos),
    {
        self.props.dead_q(pos)
    }

    pub fn is_destination(&self, pos: Pos) -> (r: bool)
        ensures
            r == self.props.spec_is_destination(pos),
    {
        contains_pos(&self.props.destinations, pos)
    }

    pub fn is_free(&self, pos: Pos) -> (r: bool)
        requires
            self.wf(),
        ensures
            r == spec_is_free(self.props, self.solve_state@, pos),
    {
        self.props.free_q(&self.solve_state, pos)
    }

    pub fn is_push_target(&self, pos: Pos) -> (r: bool)
        requires
            self.wf(),
        ensures
            r == spec_is_push_target(self.props, self.solve_state@, pos),
    {
        self.props.push_target_q(&self.solve_state, pos)
    }

    pub fn is_solved(&self) -> (r: bool)
        ensures
            r == spec_solved(self.props, self.solve_state@),
    {
        self.props.solved_q(&self.solve_state)
    }

    pub fn solve_state(&self) -> (r: &SolveState)
        ensures
            r == &self.solve_state,
    {
        &self.solve_state
    }

    pub fn destinations(&self) -> (r: &Vec<Pos>)
        ensures
            r@ == self.props.destinations@,
    {
        &self.props.destinations
    }

    pub fn boxes(&self) -> (r: &Vec<Pos>)
        ensures
            r@ == self.solve_state@.boxes,
    {
        &self.solve_state.boxes
    }

    pub fn player(&self) -> (r: Pos)
        ensures
            r == self.solve_state@.player,
    {
        self.solve_state.player
    }

    pub fn height(&self) -> (r: usize)
        ensures
            r == self.props.height,
    {
        self.props.height
    }

    pub fn width(&self) -> (r: usize)
        ensures
            r == self.props.width,
    {
        self.props.width
    }

    pub fn size(&self) -> (r: usize)
        requires
            self.wf(),
        ensures
            r == self.props.width * self.props.height,
    {
        proof {
            assert(self.props.width * self.props.height <= 65536) by (nonlinear_arith)
                requires
                    self.props.width <= 256,
                    self.props.height <= 256,
            ;
        }
        self.props.width * self.props.height
    }

    /// Teleports the player, e.g. to display the position a replayed push
    /// starts from. The layout and the boxes are untouched.
    pub fn set_player_pos(&mut self, pos: Pos)
        requires
            old(self).wf(),
            old(self).props.spec_in_grid(pos),
        ensures
            final(self).wf(),
            final(self).props == old(self).props,
            final(self).solve_state@.boxes == old(self).solve_state@.boxes,
            final(self).solve_state@.player == pos,
    {
        self.solve_state.player = pos;
    }

    /// Applies a push to this board's state.
    pub fn apply_move(&mut self, m: Move)
        requires
            old(self).wf(),
            old(self).solve_state@.boxes.contains(m.start),
            !old(self).solve_state@.boxes.contains(m.end),
            old(self).props.spec_in_grid(m.end),
        ensures
            final(self).wf(),
            final(self).props == old(self).props,
            final(self).solve_state@.player == m.start,
            final(self).solve_state@.boxes.len() == old(self).solve_state@.boxes.len(),
            forall|q: Pos|
                final(self).solve_state@.boxes.contains(q) <==> (q == m.end || (q != m.start
                    && old(self).solve_state@.boxes.contains(q))),
    {
        self.solve_state.apply_move(m);
        proof {
            assert forall|q: Pos| #[trigger]
                self.solve_state@.boxes.contains(q) implies self.props.spec_in_grid(q) by {
                if q != m.end {
                    assert(old(self).solve_state@.boxes.contains(q));
                }
            }
            assert(self.props.spec_in_grid(m.start)) by {
                assert(old(self).solve_state@.boxes.contains(m.start));
            }
        }
    }

    /// Every structurally legal push of the current state, one entry per
    /// legal (box, direction) pair.
    pub fn possible_moves(&self) -> (r: Vec<Move>)
        requires
            self.wf(),
        ensures
            forall|m: Move| #[trigger]
                r@.contains(m) <==> legal_push(self.props, self.solve_state@, m),
            forall|i: int, j: int| 0 <= i < j < r@.len() ==> r@[i] != r@[j],
    {
        self.props.legal_moves(&self.solve_state)
    }
}

/// The width of a grid: the length of its longest row.
fn compute_width(input: &Input) -> (r: usize)
    ensures
        is_grid_width(input.grid(), r as int),
{
    let ghost g = input.grid();
    let mut w: usize = 0;
    let mut y: usize = 0;
    while y < input.rows.len()
        invariant
            g == input.grid(),
            y <= g.len(),
            forall|j: int| 0 <= j < y ==> (#[trigger] g[j]).len() <= w,
            if y == 0 {
                w == 0
            } else {
                exists|j: int| 0 <= j < y && (#[trigger] g[j]).len() == w
            },
        decreases input.rows.len() - y,
    {
        let len = input.rows[y].len();
        proof {
            assert(g[y as int].len() == len);
        }
        if len > w {
            w = len;
        }
        proof {
            if g[y as int].len() == w {
            } else {
                assert(y > 0);
            }
        }
        y = y + 1;
    }
    w
}

/// The wall bitmap of a grid: cell `(x, y)` is set exactly when the grid
/// stores a wall there.
fn build_walls(input: &Input, width: usize, height: usize) -> (r: Matrix<bool>)
    requires
        height == input.grid().len(),
        is_grid_width(input.grid(), width as int),
        width >= 1,
        height >= 1,
        width * height <= usize::MAX,
    ensures
        r.wf(),
        r.spec_width() == width,
        r.spec_height() == height,
        forall|i: int, j: int|
            0 <= i < width && 0 <= j < height ==> r.spec_get(i, j) == wall_in_row(
                input.grid(),
                i,
                j,
            ),
{
    let ghost g = input.grid();
    let mut walls = Matrix::fill(false, width, height);
    let mut y: usize = 0;
    while y < input.rows.len()
        invariant
            g == input.grid(),
            height == g.len(),
            is_grid_width(g, width as int),
            y <= height,
            walls.wf(),
            walls.spec_width() == width,
            walls.spec_height() == height,
            forall|i: int, j: int|
                0 <= i < width && 0 <= j < height ==> walls.spec_get(i, j) == (j < y
                    && wall_in_row(g, i, j)),
        decreases input.rows.len() - y,
    {
        let row = &input.rows[y];
        proof {
            assert(g[y as int] == row@);
            assert(g[y as int].len() <= width);
        }
        let mut x: usize = 0;
        while x < row.len()
            invariant
                g == input.grid(),
                height == g.len(),
                y < height,
                row == &input.rows[y as int],
                row@.len() <= width,
                x <= row.len(),
                walls.wf(),
                walls.spec_width() == width,
                walls.spec_height() == height,
                forall|i: int, j: int|
                    0 <= i < width && 0 <= j < height ==> walls.spec_get(i, j) == ((j < y || (j
                        == y && i < x)) && wall_in_row(g, i, j)),
            decreases row.len() - x,
        {
            let c = row[x];
            proof {
                assert(c == g[y as int][x as int]);
            }
            walls.set(x, y, c.is_wall());
            x = x + 1;
        }
        proof {
            assert forall|i: int, j: int|
                0 <= i < width && 0 <= j < height implies walls.spec_get(i, j) == (j < y + 1
                && wall_in_row(g, i, j)) by {
                if j == y && i >= x {
                    assert(!(0 <= i < g[j].len()));
                }
            }
        }
        y = y + 1;
    }
    proof {
        assert forall|i: int, j: int|
            0 <= i < width && 0 <= j < height implies walls.spec_get(i, j) == wall_in_row(
            g,
            i,
            j,
        ) by {
            if !(0 <= j < y) {
                assert(!wall_in_row(g, i, j));
            }
        }
    }
    walls
}

impl Board {
    /// Builds a board from a parsed level: computes the dimensions, the
    /// wall and dead-cell bitmaps, the sorted destination and box lists,
    /// and the player position. A level without a player marker is
    /// rejected.
    pub fn from_input(input: &Input) -> (r: Result<Board, InputError>)
        requires
            fits_u8_grid(input.grid()),
        ensures
            match r {
                Ok(b) => {
                    &&& b.wf()
                    &&& b.props.height == input.grid().len()
                    &&& is_grid_width(input.grid(), b.props.width as int)
                    &&& forall|p: Pos|
                        b.props.spec_is_wall_at(p) == wall_in_row(
                            input.grid(),
                            p.x as int,
                            p.y as int,
                        )
                    &&& forall|p: Pos|
                        b.props.spec_is_dead_at(p) == spec_dead(
                            input.grid(),
                            b.props.width as int,
                            b.props.height as int,
                            p.x as int,
                            p.y as int,
                        )
                    &&& forall|p: Pos| #[trigger]
                        b.props.spec_is_destination(p) <==> p_in_row(input.grid(), p)
                            && input.grid()[p.y as int][p.x as int].spec_is_destination()
                    &&& forall|p: Pos| #[trigger]
                        b.solve_state@.boxes.contains(p) <==> p_in_row(input.grid(), p)
                            && input.grid()[p.y as int][p.x as int].spec_is_box()
                    &&& p_in_row(input.grid(), b.solve_state@.player)
                    &&& input.grid()[b.solve_state@.player.y as int][b.solve_state@.player.x as int].spec_is_player()
                    &&& forall|q: Pos|
                        p_in_row(input.grid(), q) && (#[trigger] input.grid()[q.y as int][q.x as int]).spec_is_player()
                            ==> !rm_lt(q, b.solve_state@.player)
                },
                Err(e) => {
                    &&& e == InputError::MissingPlayer
                    &&& forall|q: Pos|
                        p_in_row(input.grid(), q) ==> !(#[trigger] input.grid()[q.y as int][q.x as int]).spec_is_player()
                },
            },
    {
        let ghost g = input.grid();
        let player = match input.get_player_pos() {
            Ok(p) => p,
            Err(e) => {
                return Err(e);
            },
        };
        let width = compute_width(input);
        let height = input.rows.len();
        proof {
            // The player stands on a stored cell, so the grid is not empty.
            assert(g[player.y as int].len() >= 1);
            assert(g[player.y as int].len() <= width as int);
            assert(width >= 1 && height >= 1);
            assert(width <= 256) by {
                let j = choose|j: int| 0 <= j < g.len() && (#[trigger] g[j]).len() == width as int;
            }
            assert(height <= 256);
            assert(width * height <= 65536) by (nonlinear_arith)
                requires
                    width <= 256,
                    height <= 256,
            ;
        }
        let walls = build_walls(input, width, height);
        let dead = detect_dead_positions(input, width, height);

        let raw_boxes = input.get_boxes();
        proof {
            lemma_rm_sorted_distinct(raw_boxes@);
        }
        let boxes = sort_distinct(&raw_boxes);

        let raw_dests = input.get_destinations();
        proof {
            lemma_rm_sorted_distinct(raw_dests@);
        }
        let destinations = sort_distinct(&raw_dests);

        let props = BoardProps { width, height, walls, dead, destinations };
        let solve_state = SolveState { player, boxes };
        let b = Board { props, solve_state };
        proof {
            assert forall|q: Pos| #[trigger]
                b.props.destinations@.contains(q) implies b.props.spec_in_grid(q) by {
                assert(p_in_row(g, q));
                assert(g[q.y as int].len() <= width as int);
            }
            assert forall|q: Pos| #[trigger]
                b.solve_state@.boxes.contains(q) implies b.props.spec_in_grid(q) by {
                assert(p_in_row(g, q));
                assert(g[q.y as int].len() <= width as int);
            }
            assert(b.props.spec_in_grid(player)) by {
                assert(g[player.y as int].len() <= width as int);
            }
            assert forall|p: Pos|
                b.props.spec_is_wall_at(p) == wall_in_row(g, p.x as int, p.y as int) by {
                if wall_in_row(g, p.x as int, p.y as int) {
                    assert(g[p.y as int].len() <= width as int);
                }
            }
            assert forall|p: Pos|
                b.props.spec_is_dead_at(p) == spec_dead(
                    g,
                    width as int,
                    height as int,
                    p.x as int,
                    p.y as int,
                ) by {
                if spec_dead(g, width as int, height as int, p.x as int, p.y as int) {
                    assert(g[p.y as int].len() <= width as int);
                }
            }
        }
        Ok(b)
    }
}

/// A list that is strictly increasing in row-major order has no repeated
/// entries.
proof fn lemma_rm_sorted_distinct(s: Seq<Pos>)
    requires
        forall|i: int, j: int| 0 <= i < j < s.len() ==> rm_lt(s[i], s[j]),
    ensures
        crate::poslist::distinct(s),
{
    assert forall|i: int, j: int| 0 <= i < j < s.len() implies s[i] != s[j] by {
        assert(rm_lt(s[i], s[j]));
    }
}

} // verus!
