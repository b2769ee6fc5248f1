//! The search engine: a priority-ordered frontier over solve states with
//! dominance pruning.
//!
//! Nodes leave the frontier in ascending cost order (pushes first, then
//! player moves). A dominance table remembers the best cost seen for each
//! solve state; a node that cannot beat the recorded cost of its own state
//! is discarded. Every solution the engine returns replays legally from
//! the initial board and ends with all boxes on destinations.

use vstd::prelude::*;

use crate::board::{
    legal_push, lemma_push_rel_deterministic, lemma_push_rel_wf, lemma_replay_snoc, push_rel,
    replay_rel, side_x, side_y, spec_solved, state_wf, Board, BoardProps, SolveState, StateModel,
};
use crate::dijkstra::{reachable_n, route, PathGraph};
use crate::pos::{costs_le, costs_lt, player_side, Costs, Move, Pos};

verus! {

/// A finished search result: the push sequence and its cost.
pub struct Solution {
    moves: Vec<Move>,
    costs: Costs,
}

impl Solution {
    pub closed spec fn spec_moves(&self) -> Seq<Move> {
        self.moves@
    }

    pub closed spec fn spec_costs(&self) -> Costs {
        self.costs
    }

    pub fn new(moves: Vec<Move>, costs: Costs) -> (r: Self)
        ensures
            r.spec_moves() == moves@,
            r.spec_costs() == costs,
    {
        Self { moves, costs }
    }

    pub fn costs(&self) -> (r: Costs)
        ensures
            r == self.spec_costs(),
    {
        self.costs
    }

    pub fn moves(&self) -> (r: &Vec<Move>)
        ensures
            r@ == self.spec_moves(),
    {
        &self.moves
    }
}

/// `w` is the exact price of repositioning the player from `a` to `b` in
/// state `s`: a shortest walk of `w` steps exists.
pub open spec fn min_walk(props: BoardProps, s: StateModel, a: Pos, b: Pos, w: int) -> bool {
    &&& reachable_n(props, s, a, b, w)
    &&& forall|n: int| #[trigger] reachable_n(props, s, a, b, n) ==> n >= w
}

/// One priced push: `m` is legal in `mid` and leads to `sn`, and `dc` is
/// its exact price: the player's shortest walk to the pushing cell, plus
/// one step for the push itself.
pub open spec fn priced_step(
    props: BoardProps,
    mid: StateModel,
    m: Move,
    sn: StateModel,
    dc: int,
) -> bool {
    &&& push_rel(props, mid, m, sn)
    &&& 1 <= dc <= u16::MAX
    &&& min_walk(props, mid, mid.player, player_side(m), dc - 1)
}

/// Replaying a push sequence with its exact walking price: `t` is the sum
/// over all pushes of (shortest player walk + 1).
pub open spec fn priced_replay(
    props: BoardProps,
    s0: StateModel,
    moves: Seq<Move>,
    sn: StateModel,
    t: int,
) -> bool
    decreases moves.len(),
{
    if moves.len() == 0 {
        sn == s0 && t == 0
    } else {
        exists|mid: StateModel, t0: int|
            priced_replay(props, s0, moves.drop_last(), mid, t0) && #[trigger] priced_step(
                props,
                mid,
                moves.last(),
                sn,
                t - t0,
            )
    }
}

/// Extending a priced replay by one priced push.
pub proof fn lemma_priced_snoc(
    props: BoardProps,
    s0: StateModel,
    moves: Seq<Move>,
    s1: StateModel,
    t1: int,
    m: Move,
    s2: StateModel,
    dc: int,
)
    requires
        priced_replay(props, s0, moves, s1, t1),
        priced_step(props, s1, m, s2, dc),
    ensures
        priced_replay(props, s0, moves.push(m), s2, t1 + dc),
{
    let ms2 = moves.push(m);
    assert(ms2.drop_last() =~= moves);
    assert(ms2.last() == m);
    assert(priced_replay(props, s0, ms2.drop_last(), s1, t1));
    assert(priced_step(props, s1, ms2.last(), s2, (t1 + dc) - t1));
    assert(ms2.len() > 0);
    assert(priced_replay(props, s0, ms2, s2, t1 + dc));
}

/// What the engine guarantees of a returned solution: the push sequence
/// replays legally from the initial state into a solved state, the push
/// count is the sequence length, and the walking cost is exact: the sum,
/// over the pushes in order, of the player's shortest repositioning walk
/// plus the push step itself.
pub open spec fn solution_sound(
    props: BoardProps,
    s0: StateModel,
    moves: Seq<Move>,
    costs: Costs,
) -> bool {
    &&& exists|sn: StateModel| #[trigger] replay_rel(props, s0, moves, sn) && spec_solved(props, sn)
    &&& exists|sn: StateModel|
        #[trigger] priced_replay(props, s0, moves, sn, costs.moves as int) && spec_solved(
            props,
            sn,
        )
    &&& costs.pushes == moves.len()
    &&& costs.moves >= costs.pushes
}

/// A pending search node: the pushes performed so far, the state they
/// lead to, and their accumulated cost.
pub struct StepState {
    pub moves: Vec<Move>,
    pub state: SolveState,
    pub costs: Costs,
}

impl StepState {
    /// The root node of a search: no pushes, the board's initial state.
    pub fn start(map: &Board) -> (r: Self)
        requires
            map.wf(),
        ensures
            r.moves@.len() == 0,
            r.state@ == map.solve_state@,
            r.costs == (Costs { pushes: 0u16, moves: 0u16 }),
    {
        Self { moves: Vec::new(), state: map.solve_state.duplicate(), costs: Costs::zero() }
    }
}

/// Every frontier node is consistent: its state is well formed, replaying
/// its pushes from the initial state reaches exactly its state, its push
/// count equals its push-list length, and walking steps dominate pushes.
pub open spec fn node_inv(props: BoardProps, s0: StateModel, node: StepState) -> bool {
    &&& state_wf(props, node.state@)
    &&& replay_rel(props, s0, node.moves@, node.state@)
    &&& priced_replay(props, s0, node.moves@, node.state@, node.costs.moves as int)
    &&& node.costs.pushes == node.moves@.len()
    &&& node.costs.moves >= node.costs.pushes
}

pub open spec fn frontier_inv(props: BoardProps, s0: StateModel, nodes: Seq<StepState>) -> bool {
    forall|k: int| 0 <= k < nodes.len() ==> node_inv(props, s0, #[trigger] nodes[k])
}

/// The dominance test: a recorded cost rules a node out when it is no
/// worse than the node's own cost.
pub open spec fn dominates(recorded: Costs, c: Costs) -> bool {
    costs_le(recorded, c)
}

/// Search costs grow strictly along every edge of the search tree: a
/// child node costs one more push and at least one more player step than
/// its parent, so costs are monotonically increasing on every path. This
/// is what entitles the engine to stop at the first terminal node the
/// priority frontier yields.
pub proof fn lemma_child_cost_exceeds_parent(parent: Costs, walk: u16, child: Costs)
    requires
        child.pushes == parent.pushes + 1,
        child.moves == parent.moves + walk + 1,
    ensures
        costs_lt(parent, child),
{
}

/// Seeding the dominance table with a strictly worse cost than a node's
/// own can never discard that node, so pre-seeding with worse costs does
/// not rob the search of any state it would otherwise expand.
pub proof fn lemma_worse_seed_no_prune(seeded: Costs, c: Costs)
    requires
        costs_lt(c, seeded),
    ensures
        !dominates(seeded, c),
{
}

/// The recorded best cost for state `sm` is `c`.
pub open spec fn table_entry(t: Seq<(SolveState, Costs)>, sm: StateModel, c: Costs) -> bool {
    exists|k: int| 0 <= k < t.len() && (#[trigger] t[k]).0@ == sm && t[k].1 == c
}

/// Each solve state has at most one entry.
pub open spec fn table_keys_unique(t: Seq<(SolveState, Costs)>) -> bool {
    forall|k1: int, k2: int| 0 <= k1 < k2 < t.len() ==> (#[trigger] t[k1]).0@ != (#[trigger] t[k2]).0@
}

/// Lexicographic order on (pushes, moves) cost pairs, over the integers.
pub open spec fn lex_le(p1: int, m1: int, p2: int, m2: int) -> bool {
    p1 < p2 || (p1 == p2 && m1 <= m2)
}

/// Configuration `sm` is on the engine's books at cost `(p, mv)` or
/// better: some pending frontier node, or some dominance-table entry,
/// carries `sm` at a lexicographically smaller or equal cost.
pub open spec fn covered(
    props: BoardProps,
    table: Seq<(SolveState, Costs)>,
    frontier: Seq<StepState>,
    sm: StateModel,
    p: int,
    mv: int,
) -> bool {
    ||| exists|k: int|
        0 <= k < frontier.len() && (#[trigger] frontier[k]).state@ == sm && lex_le(
            frontier[k].costs.pushes as int,
            frontier[k].costs.moves as int,
            p,
            mv,
        )
    ||| exists|k: int|
        0 <= k < table.len() && (#[trigger] table[k]).0@ == sm && lex_le(
            table[k].1.pushes as int,
            table[k].1.moves as int,
            p,
            mv,
        )
}

/// A recorded (configuration, cost) pair has had all its priced pushes
/// relaxed: each successor is covered at the recorded cost plus the
/// push's price.
pub open spec fn entry_closed(
    props: BoardProps,
    table: Seq<(SolveState, Costs)>,
    frontier: Seq<StepState>,
    ent: (SolveState, Costs),
) -> bool {
    forall|m: Move, sn: StateModel, dc: int|
        #[trigger] priced_step(props, ent.0@, m, sn, dc) ==> covered(
            props,
            table,
            frontier,
            sn,
            ent.1.pushes + 1,
            ent.1.moves + dc,
        )
}

/// Every recorded configuration has had all its priced pushes relaxed.
pub open spec fn table_closed(
    props: BoardProps,
    table: Seq<(SolveState, Costs)>,
    frontier: Seq<StepState>,
) -> bool {
    forall|k: int| 0 <= k < table.len() ==> entry_closed(props, table, frontier, #[trigger] table[k])
}

/// Recorded configurations are never solved ones: a terminal node is
/// returned before it could be recorded.
pub open spec fn table_unsolved(props: BoardProps, table: Seq<(SolveState, Costs)>) -> bool {
    forall|k: int| 0 <= k < table.len() ==> !spec_solved(props, (#[trigger] table[k]).0@)
}

/// The books balance: the table is closed under priced pushes, holds no
/// solved configuration, and the initial configuration is covered at cost
/// zero. While this holds, no solution can escape the search.
pub open spec fn engine_inv(
    props: BoardProps,
    s0: StateModel,
    table: Seq<(SolveState, Costs)>,
    frontier: Seq<StepState>,
) -> bool {
    &&& table_closed(props, table, frontier)
    &&& table_unsolved(props, table)
    &&& covered(props, table, frontier, s0, 0, 0)
}

/// A priced replay takes at least one walking step per push.
pub proof fn lemma_priced_len(
    props: BoardProps,
    s0: StateModel,
    moves: Seq<Move>,
    sn: StateModel,
    t: int,
)
    requires
        priced_replay(props, s0, moves, sn, t),
    ensures
        t >= moves.len(),
    decreases moves.len(),
{
    if moves.len() > 0 {
        let (mid, t0): (StateModel, int) = choose|mid: StateModel, t0: int|
            priced_replay(props, s0, moves.drop_last(), mid, t0) && #[trigger] priced_step(
                props,
                mid,
                moves.last(),
                sn,
                t - t0,
            );
        lemma_priced_len(props, s0, moves.drop_last(), mid, t0);
    }
}

/// Splitting the first push off a priced replay.
pub proof fn lemma_priced_front(
    props: BoardProps,
    s0: StateModel,
    moves: Seq<Move>,
    sn: StateModel,
    t: int,
) -> (r: (StateModel, int))
    requires
        priced_replay(props, s0, moves, sn, t),
        moves.len() > 0,
    ensures
        priced_step(props, s0, moves[0], r.0, r.1),
        priced_replay(props, r.0, moves.drop_first(), sn, t - r.1),
    decreases moves.len(),
{
    let (mid, t0): (StateModel, int) = choose|mid: StateModel, t0: int|
        priced_replay(props, s0, moves.drop_last(), mid, t0) && #[trigger] priced_step(
            props,
            mid,
            moves.last(),
            sn,
            t - t0,
        );
    if moves.len() == 1 {
        assert(moves.drop_last().len() == 0);
        assert(mid == s0 && t0 == 0);
        assert(moves[0] == moves.last());
        assert(moves.drop_first().len() == 0);
        (sn, t)
    } else {
        let (s1, dc) = lemma_priced_front(props, s0, moves.drop_last(), mid, t0);
        assert(moves.drop_last()[0] == moves[0]);
        let tail = moves.drop_last().drop_first();
        lemma_priced_snoc(props, s1, tail, mid, t0 - dc, moves.last(), sn, t - t0);
        assert(moves.drop_first() =~= tail.push(moves.last()));
        assert(priced_replay(props, s1, moves.drop_first(), sn, t - dc));
        (s1, dc)
    }
}

/// While the books balance, every priced solution reachable from a
/// covered configuration is bounded below by some pending frontier node:
/// walking along the solution, the cover can only hide in the table
/// finitely often before a frontier node must betray it.
pub proof fn lemma_cover_bound(
    props: BoardProps,
    table: Seq<(SolveState, Costs)>,
    frontier: Seq<StepState>,
    sm: StateModel,
    p: int,
    mv: int,
    moves2: Seq<Move>,
    sn2: StateModel,
    t2: int,
)
    requires
        table_closed(props, table, frontier),
        table_unsolved(props, table),
        covered(props, table, frontier, sm, p, mv),
        priced_replay(props, sm, moves2, sn2, t2),
        spec_solved(props, sn2),
    ensures
        exists|k: int|
            0 <= k < frontier.len() && lex_le(
                (#[trigger] frontier[k]).costs.pushes as int,
                frontier[k].costs.moves as int,
                p + moves2.len(),
                mv + t2,
            ),
    decreases moves2.len(),
{
    lemma_priced_len(props, sm, moves2, sn2, t2);
    if exists|k: int|
        0 <= k < frontier.len() && (#[trigger] frontier[k]).state@ == sm && lex_le(
            frontier[k].costs.pushes as int,
            frontier[k].costs.moves as int,
            p,
            mv,
        ) {
        let k = choose|k: int|
            0 <= k < frontier.len() && (#[trigger] frontier[k]).state@ == sm && lex_le(
                frontier[k].costs.pushes as int,
                frontier[k].costs.moves as int,
                p,
                mv,
            );
        assert(lex_le(
            frontier[k].costs.pushes as int,
            frontier[k].costs.moves as int,
            p + moves2.len(),
            mv + t2,
        ));
    } else {
        let k = choose|k: int|
            0 <= k < table.len() && (#[trigger] table[k]).0@ == sm && lex_le(
                table[k].1.pushes as int,
                table[k].1.moves as int,
                p,
                mv,
            );
        assert(!spec_solved(props, table[k].0@));
        assert(moves2.len() > 0) by {
            if moves2.len() == 0 {
                assert(sn2 == sm);
            }
        }
        let (s1, dc) = lemma_priced_front(props, sm, moves2, sn2, t2);
        assert(priced_step(props, table[k].0@, moves2[0], s1, dc));
        assert(covered(
            props,
            table,
            frontier,
            s1,
            table[k].1.pushes + 1,
            table[k].1.moves + dc,
        ));
        lemma_cover_bound(
            props,
            table,
            frontier,
            s1,
            table[k].1.pushes + 1,
            table[k].1.moves + dc,
            moves2.drop_first(),
            sn2,
            t2 - dc,
        );
        let k2 = choose|k2: int|
            0 <= k2 < frontier.len() && lex_le(
                (#[trigger] frontier[k2]).costs.pushes as int,
                frontier[k2].costs.moves as int,
                table[k].1.pushes + 1 + moves2.drop_first().len(),
                table[k].1.moves + dc + (t2 - dc),
            );
        assert(lex_le(
            frontier[k2].costs.pushes as int,
            frontier[k2].costs.moves as int,
            p + moves2.len(),
            mv + t2,
        ));
    }
}

/// Every recorded configuration of `t_old` is still recorded in `t_new`,
/// at a cost no worse.
pub open spec fn table_refines(
    t_new: Seq<(SolveState, Costs)>,
    t_old: Seq<(SolveState, Costs)>,
) -> bool {
    forall|k: int|
        0 <= k < t_old.len() ==> exists|k2: int|
            0 <= k2 < t_new.len() && (#[trigger] t_new[k2]).0@ == (#[trigger] t_old[k]).0@
                && lex_le(
                t_new[k2].1.pushes as int,
                t_new[k2].1.moves as int,
                t_old[k].1.pushes as int,
                t_old[k].1.moves as int,
            )
}

/// The books stay balanced when a node leaves the frontier, provided
/// every other node is retained, every recorded configuration keeps an
/// entry at no worse a cost, the leaving node's configuration is recorded
/// at no worse a cost than its own, and every freshly recorded entry is
/// already closed.
pub proof fn lemma_books_balance(
    props: BoardProps,
    s0: StateModel,
    table_old: Seq<(SolveState, Costs)>,
    table_new: Seq<(SolveState, Costs)>,
    fr_old: Seq<StepState>,
    fr_new: Seq<StepState>,
    e: StepState,
)
    requires
        engine_inv(props, s0, table_old, fr_old),
        table_unsolved(props, table_new),
        forall|x: StepState| x != e && fr_old.contains(x) ==> fr_new.contains(x),
        table_new == table_old || table_refines(table_new, table_old),
        exists|k2: int|
            0 <= k2 < table_new.len() && (#[trigger] table_new[k2]).0@ == e.state@ && lex_le(
                table_new[k2].1.pushes as int,
                table_new[k2].1.moves as int,
                e.costs.pushes as int,
                e.costs.moves as int,
            ),
        forall|k: int|
            0 <= k < table_new.len() ==> table_old.contains(#[trigger] table_new[k])
                || entry_closed(props, table_new, fr_new, table_new[k]),
    ensures
        engine_inv(props, s0, table_new, fr_new),
{
    assert forall|k: int|
        0 <= k < table_new.len() implies entry_closed(
        props,
        table_new,
        fr_new,
        #[trigger] table_new[k],
    ) by {
        if table_old.contains(table_new[k]) {
            let j = choose|j: int| 0 <= j < table_old.len() && table_old[j] == table_new[k];
            assert(entry_closed(props, table_old, fr_old, table_old[j]));
            assert forall|m: Move, sn: StateModel, dc: int|
                #[trigger] priced_step(props, table_new[k].0@, m, sn, dc) implies covered(
                props,
                table_new,
                fr_new,
                sn,
                table_new[k].1.pushes + 1,
                table_new[k].1.moves + dc,
            ) by {
                assert(covered(
                    props,
                    table_old,
                    fr_old,
                    sn,
                    table_old[j].1.pushes + 1,
                    table_old[j].1.moves + dc,
                ));
                lemma_cover_transfer(
                    props,
                    table_old,
                    table_new,
                    fr_old,
                    fr_new,
                    e,
                    sn,
                    table_old[j].1.pushes + 1,
                    table_old[j].1.moves + dc,
                );
            }
        }
    }
    lemma_cover_transfer(props, table_old, table_new, fr_old, fr_new, e, s0, 0, 0);
}

/// Moving one node off the books: a cover survives the removal of node
/// `e` from the frontier as long as every other node is retained, every
/// table key keeps an entry at no worse a cost, and `e`'s own
/// configuration has a table entry at no worse a cost than `e` itself.
pub proof fn lemma_cover_transfer(
    props: BoardProps,
    table_old: Seq<(SolveState, Costs)>,
    table_new: Seq<(SolveState, Costs)>,
    fr_old: Seq<StepState>,
    fr_new: Seq<StepState>,
    e: StepState,
    sm: StateModel,
    p: int,
    mv: int,
)
    requires
        covered(props, table_old, fr_old, sm, p, mv),
        forall|x: StepState| x != e && fr_old.contains(x) ==> fr_new.contains(x),
        table_new == table_old || table_refines(table_new, table_old),
        exists|k2: int|
            0 <= k2 < table_new.len() && (#[trigger] table_new[k2]).0@ == e.state@ && lex_le(
                table_new[k2].1.pushes as int,
                table_new[k2].1.moves as int,
                e.costs.pushes as int,
                e.costs.moves as int,
            ),
    ensures
        covered(props, table_new, fr_new, sm, p, mv),
{
    if exists|k: int|
        0 <= k < fr_old.len() && (#[trigger] fr_old[k]).state@ == sm && lex_le(
            fr_old[k].costs.pushes as int,
            fr_old[k].costs.moves as int,
            p,
            mv,
        ) {
        let k = choose|k: int|
            0 <= k < fr_old.len() && (#[trigger] fr_old[k]).state@ == sm && lex_le(
                fr_old[k].costs.pushes as int,
                fr_old[k].costs.moves as int,
                p,
                mv,
            );
        let x = fr_old[k];
        if x == e {
            let k2 = choose|k2: int|
                0 <= k2 < table_new.len() && (#[trigger] table_new[k2]).0@ == e.state@ && lex_le(
                    table_new[k2].1.pushes as int,
                    table_new[k2].1.moves as int,
                    e.costs.pushes as int,
                    e.costs.moves as int,
                );
            assert(table_new[k2].0@ == sm);
        } else {
            assert(fr_old.contains(x));
            assert(fr_new.contains(x));
            let k2 = choose|k2: int| 0 <= k2 < fr_new.len() && fr_new[k2] == x;
            assert(fr_new[k2].state@ == sm);
        }
    } else {
        let k = choose|k: int|
            0 <= k < table_old.len() && (#[trigger] table_old[k]).0@ == sm && lex_le(
                table_old[k].1.pushes as int,
                table_old[k].1.moves as int,
                p,
                mv,
            );
        if table_new == table_old {
            assert(table_new[k].0@ == sm);
        } else {
            let k2 = choose|k2: int|
                0 <= k2 < table_new.len() && (#[trigger] table_new[k2]).0@ == table_old[k].0@
                    && lex_le(
                    table_new[k2].1.pushes as int,
                    table_new[k2].1.moves as int,
                    table_old[k].1.pushes as int,
                    table_old[k].1.moves as int,
                );
            assert(table_new[k2].0@ == sm);
        }
    }
}

/// How many pending nodes cost no more than `c`.
pub open spec fn count_cheap(nodes: Seq<StepState>, c: Costs) -> int
    decreases nodes.len(),
{
    if nodes.len() == 0 {
        0
    } else {
        count_cheap(nodes.drop_last(), c) + if costs_le(nodes.last().costs, c) {
            1int
        } else {
            0int
        }
    }
}

proof fn lemma_count_cheap_push(s: Seq<StepState>, x: StepState, c: Costs)
    ensures
        count_cheap(s.push(x), c) == count_cheap(s, c) + if costs_le(x.costs, c) {
            1int
        } else {
            0int
        },
{
    assert(s.push(x).drop_last() =~= s);
    assert(s.push(x).last() == x);
}

proof fn lemma_count_cheap_update(s: Seq<StepState>, i: int, v: StepState, c: Costs)
    requires
        0 <= i < s.len(),
    ensures
        count_cheap(s.update(i, v), c) == count_cheap(s, c) - (if costs_le(s[i].costs, c) {
            1int
        } else {
            0int
        }) + (if costs_le(v.costs, c) {
            1int
        } else {
            0int
        }),
    decreases s.len(),
{
    let su = s.update(i, v);
    if i == s.len() - 1 {
        assert(su.drop_last() =~= s.drop_last());
        assert(su.last() == v);
        assert(s.last() == s[i]);
    } else {
        assert(su.drop_last() =~= s.drop_last().update(i, v));
        assert(su.last() == s.last());
        lemma_count_cheap_update(s.drop_last(), i, v, c);
        assert(s.drop_last()[i] == s[i]);
    }
}

/// Relies on likely_stable::unlikely: it returns its argument unchanged
/// and only hints the optimiser that the branch is rarely taken.
#[verifier::external_body]
fn unlikely_hint(b: bool) -> (r: bool)
    ensures
        r == b,
{
    likely_stable::unlikely(b)
}

/// Whether two solve states are the same configuration.
fn state_eq(a: &SolveState, b: &SolveState) -> (r: bool)
    ensures
        r == (a@ == b@),
{
    let players_eq = a.player == b.player;
    let boxes_eq = crate::poslist::pos_list_eq(&a.boxes, &b.boxes);
    proof {
        if players_eq && boxes_eq {
            assert(a@ == b@);
        }
        if a@ == b@ {
            assert(a@.player == b@.player && a@.boxes == b@.boxes);
        }
    }
    players_eq && boxes_eq
}

/// The recorded cost for `st`, if any.
fn lookup(tried: &Vec<(SolveState, Costs)>, st: &SolveState) -> (r: Option<Costs>)
    requires
        table_keys_unique(tried@),
    ensures
        match r {
            Some(c) => table_entry(tried@, st@, c),
            None => forall|c: Costs| !table_entry(tried@, st@, c),
        },
{
    let mut i: usize = 0;
    while i < tried.len()
        invariant
            i <= tried@.len(),
            forall|k: int| 0 <= k < i ==> (#[trigger] tried@[k]).0@ != st@,
        decreases tried.len() - i,
    {
        if state_eq(&tried[i].0, st) {
            let c = tried[i].1;
            proof {
                assert(tried@[i as int].0@ == st@ && tried@[i as int].1 == c);
            }
            return Some(c);
        }
        i = i + 1;
    }
    proof {
        assert forall|c: Costs| !table_entry(tried@, st@, c) by {
            if table_entry(tried@, st@, c) {
                let k = choose|k: int|
                    0 <= k < tried@.len() && (#[trigger] tried@[k]).0@ == st@ && tried@[k].1 == c;
            }
        }
    }
    None
}

/// Records `c` as the best known cost of `st`, replacing any prior entry.
fn upsert(tried: &mut Vec<(SolveState, Costs)>, st: SolveState, c: Costs)
    requires
        table_keys_unique(old(tried)@),
        old(tried)@.len() < usize::MAX,
    ensures
        table_keys_unique(final(tried)@),
        table_entry(final(tried)@, st@, c),
        forall|k: int|
            0 <= k < old(tried)@.len() && (#[trigger] old(tried)@[k]).0@ != st@
                ==> final(tried)@.contains(old(tried)@[k]),
        forall|k: int|
            0 <= k < final(tried)@.len() ==> (final(tried)@[k] == (st, c))
                || old(tried)@.contains(#[trigger] final(tried)@[k]),
{
    let mut i: usize = 0;
    while i < tried.len()
        invariant
            tried@ == old(tried)@,
            table_keys_unique(tried@),
            i <= tried@.len(),
            tried@.len() < usize::MAX,
            forall|k: int| 0 <= k < i ==> (#[trigger] tried@[k]).0@ != st@,
        decreases tried.len() - i,
    {
        if state_eq(&tried[i].0, &st) {
            let ghost t0 = tried@;
            tried.set(i, (st, c));
            proof {
                assert(tried@[i as int].0@ == st@ && tried@[i as int].1 == c);
                assert forall|k: int|
                    0 <= k < t0.len() && (#[trigger] t0[k]).0@ != st@ implies tried@.contains(
                    t0[k],
                ) by {
                    assert(k != i);
                    assert(tried@[k] == t0[k]);
                }
                assert forall|k: int|
                    0 <= k < tried@.len() implies tried@[k] == (st, c) || t0.contains(
                    #[trigger] tried@[k],
                ) by {
                    if k != i {
                        assert(tried@[k] == t0[k]);
                    }
                }
                assert forall|k1: int, k2: int|
                    0 <= k1 < k2 < tried@.len() implies (#[trigger] tried@[k1]).0@ != (
                #[trigger] tried@[k2]).0@ by {
                    if k1 != i && k2 != i {
                        assert(tried@[k1] == t0[k1] && tried@[k2] == t0[k2]);
                    } else if k1 == i {
                        assert(tried@[k2] == t0[k2]);
                        assert(t0[k2].0@ != t0[i as int].0@);
                    } else {
                        assert(tried@[k1] == t0[k1]);
                        assert(t0[k1].0@ != t0[i as int].0@);
                    }
                }
            }
            return ;
        }
        i = i + 1;
    }
    let ghost t0 = tried@;
    tried.push((st, c));
    proof {
        assert(tried@[t0.len() as int].0@ == st@ && tried@[t0.len() as int].1 == c);
        assert forall|k: int|
            0 <= k < t0.len() && (#[trigger] t0[k]).0@ != st@ implies tried@.contains(
            t0[k],
        ) by {
            assert(tried@[k] == t0[k]);
        }
        assert forall|k: int|
            0 <= k < tried@.len() implies tried@[k] == (st, c) || t0.contains(
            #[trigger] tried@[k],
        ) by {
            if k < t0.len() {
                assert(tried@[k] == t0[k]);
            }
        }
        assert forall|k1: int, k2: int|
            0 <= k1 < k2 < tried@.len() implies (#[trigger] tried@[k1]).0@ != (
        #[trigger] tried@[k2]).0@ by {
            if k2 < t0.len() {
                assert(tried@[k1] == t0[k1] && tried@[k2] == t0[k2]);
            } else {
                assert(tried@[k1] == t0[k1]);
            }
        }
    }
}

/// An identical copy of a push list.
fn dup_moves(v: &Vec<Move>) -> (r: Vec<Move>)
    ensures
        r@ == v@,
{
    let mut r: Vec<Move> = Vec::new();
    let mut i: usize = 0;
    while i < v.len()
        invariant
            i <= v@.len(),
            r@ == v@.subrange(0, i as int),
        decreases v.len() - i,
    {
        r.push(v[i]);
        i = i + 1;
        proof {
            assert(r@ =~= v@.subrange(0, i as int));
        }
    }
    proof {
        assert(r@ =~= v@);
    }
    r
}

/// Removes and returns a cheapest node of the frontier, in the
/// lexicographic (pushes, moves) order.
fn pop_min_node(f: &mut Vec<StepState>) -> (e: StepState)
    requires
        old(f)@.len() >= 1,
    ensures
        old(f)@.contains(e),
        final(f)@.len() == old(f)@.len() - 1,
        forall|k: int|
            0 <= k < old(f)@.len() ==> costs_le(e.costs, (#[trigger] old(f)@[k]).costs),
        forall|k: int| 0 <= k < final(f)@.len() ==> old(f)@.contains(#[trigger] final(f)@[k]),
        forall|x: StepState| x != e && old(f)@.contains(x) ==> final(f)@.contains(x),
        forall|c: Costs| #[trigger]
            count_cheap(final(f)@, c) == count_cheap(old(f)@, c) - (if costs_le(e.costs, c) {
                1int
            } else {
                0int
            }),
{
    let mut best: usize = 0;
    let mut i: usize = 1;
    while i < f.len()
        invariant
            f@ == old(f)@,
            best < i,
            i <= f@.len(),
            forall|k: int| 0 <= k < i ==> costs_le(f@[best as int].costs, (#[trigger] f@[k]).costs),
        decreases f.len() - i,
    {
        if f[i].costs.lt(&f[best].costs) {
            best = i;
        }
        i = i + 1;
    }
    let ghost f0 = f@;
    let e = f.swap_remove(best);
    proof {
        assert(f0[best as int] == e);
        assert(f0.contains(e)) by {
            assert(f0[best as int] == e);
        }
        assert forall|k: int| 0 <= k < f@.len() implies f0.contains(#[trigger] f@[k]) by {
            if k == best {
                assert(f@[k] == f0[f0.len() - 1]);
            } else {
                assert(f@[k] == f0[k]);
            }
        }
        assert forall|x: StepState| x != e && f0.contains(x) implies f@.contains(x) by {
            let k = choose|k: int| 0 <= k < f0.len() && f0[k] == x;
            assert(k != best);
            if k < f0.len() - 1 {
                assert(f@[k] == x);
            } else {
                assert(best < f0.len() - 1);
                assert(f@[best as int] == f0[f0.len() - 1]);
            }
            assert(f@.contains(x));
        }
        assert forall|c: Costs| #[trigger]
            count_cheap(f@, c) == count_cheap(f0, c) - (if costs_le(e.costs, c) {
                1int
            } else {
                0int
            }) by {
            let fu = f0.update(best as int, f0.last());
            lemma_count_cheap_update(f0, best as int, f0.last(), c);
            assert(fu.last() == f0.last());
            assert(count_cheap(fu, c) == count_cheap(fu.drop_last(), c) + (if costs_le(
                fu.last().costs,
                c,
            ) {
                1int
            } else {
                0int
            }));
            assert(f@ =~= fu.drop_last());
        }
    }
    e
}

/// The search engine. It owns the dominance table and two diagnostic
/// counters: the number of child nodes generated and the size of the
/// frontier when the search stopped.
pub struct Solver {
    steps: usize,
    rest_possibilities: usize,
    saturated: bool,
    tried: Vec<(SolveState, Costs)>,
}

impl Solver {
    /// The dominance table keeps one entry per solve state.
    pub closed spec fn wf(&self) -> bool {
        table_keys_unique(self.tried@)
    }

    pub closed spec fn spec_recorded(&self) -> Seq<(SolveState, Costs)> {
        self.tried@
    }

    /// Whether the search ever dropped a candidate because its cost could
    /// not be represented. While this is false, the cost bounds the engine
    /// proves are unconditional.
    pub closed spec fn spec_saturated(&self) -> bool {
        self.saturated
    }

    /// How many nodes were still pending when the search stopped. Zero
    /// after a `None` means the frontier was exhausted, not the budget.
    pub closed spec fn spec_rest_possibilities(&self) -> int {
        self.rest_possibilities as int
    }

    pub fn new() -> (r: Self)
        ensures
            r.wf(),
            r.spec_recorded().len() == 0,
            !r.spec_saturated(),
    {
        Self { steps: 0, rest_possibilities: 0, saturated: false, tried: Vec::new() }
    }

    /// Diagnostic: whether any candidate was dropped because its cost
    /// outgrew the 16-bit cost counters.
    pub fn saturated(&self) -> (r: bool)
        ensures
            r == self.spec_saturated(),
    {
        self.saturated
    }

    /// Diagnostic: how many child nodes the search generated.
    pub fn steps(&self) -> usize {
        self.steps
    }

    /// Diagnostic: how many nodes were still pending when the search
    /// stopped.
    pub fn rest_possibilities(&self) -> (r: usize)
        ensures
            r as int == self.spec_rest_possibilities(),
    {
        self.rest_possibilities
    }

    /// Pre-seeds the dominance table with a cost for a state, replacing
    /// any existing entry. Seeding a state with a cost worse than every
    /// cost at which the search reaches it never changes which nodes are
    /// expanded (`lemma_worse_seed_no_prune`).
    pub fn seed(&mut self, state: SolveState, costs: Costs)
        requires
            old(self).wf(),
            old(self).spec_recorded().len() < usize::MAX,
        ensures
            final(self).wf(),
            table_entry(final(self).spec_recorded(), state@, costs),
    {
        upsert(&mut self.tried, state, costs);
    }

    /// Processes one cheapest frontier node: returns its solution when it
    /// is terminal, discards it when the dominance table holds a cost at
    /// least as good for its state, and otherwise records it and enqueues
    /// a child for every legal push whose starting cell the player can
    /// actually reach.
    #[verifier::rlimit(100)]
    pub fn step(
        &mut self,
        map: &Board,
        frontier: &mut Vec<StepState>,
        Ghost(s0): Ghost<StateModel>,
    ) -> (r: Option<Solution>)
        requires
            map.wf(),
            old(self).wf(),
            old(frontier)@.len() >= 1,
            frontier_inv(map.props, s0, old(frontier)@),
        ensures
            final(self).wf(),
            frontier_inv(map.props, s0, final(frontier)@),
            match r {
                Some(sol) => {
                    &&& solution_sound(map.props, s0, sol.spec_moves(), sol.spec_costs())
                    &&& exists|k: int|
                        0 <= k < old(frontier)@.len() && (#[trigger] old(frontier)@[k]).moves@
                            == sol.spec_moves() && old(frontier)@[k].costs == sol.spec_costs()
                            && spec_solved(map.props, old(frontier)@[k].state@)
                    &&& forall|k: int|
                        0 <= k < old(frontier)@.len() ==> costs_le(
                            sol.spec_costs(),
                            (#[trigger] old(frontier)@[k]).costs,
                        )
                },
                None => {
                    &&& exists|k: int|
                        0 <= k < old(frontier)@.len() && !spec_solved(
                            map.props,
                            (#[trigger] old(frontier)@[k]).state@,
                        )
                    &&& exists|e: StepState|
                        (#[trigger] old(frontier)@.contains(e)) && (forall|k: int|
                            0 <= k < old(frontier)@.len() ==> costs_le(
                                e.costs,
                                (#[trigger] old(frontier)@[k]).costs,
                            )) && count_cheap(final(frontier)@, e.costs) < count_cheap(
                            old(frontier)@,
                            e.costs,
                        )
                },
            },
            old(self).spec_saturated() ==> final(self).spec_saturated(),
            engine_inv(map.props, s0, old(self).spec_recorded(), old(frontier)@)
                && !final(self).spec_saturated() ==> match r {
                None => engine_inv(
                    map.props,
                    s0,
                    final(self).spec_recorded(),
                    final(frontier)@,
                ),
                Some(sol) => forall|moves2: Seq<Move>, sn2: StateModel, t2: int|
                    #[trigger] priced_replay(map.props, s0, moves2, sn2, t2) && spec_solved(
                        map.props,
                        sn2,
                    ) ==> lex_le(
                        sol.spec_costs().pushes as int,
                        sol.spec_costs().moves as int,
                        moves2.len() as int,
                        t2,
                    ),
            },
    {
        let ghost props = map.props;
        let ghost table0 = self.tried@;
        let node = pop_min_node(frontier);
        let ghost fr_pre = old(frontier)@;
        let ghost fr_mid = frontier@;
        proof {
            assert(node_inv(props, s0, node)) by {
                let k = choose|k: int|
                    0 <= k < old(frontier)@.len() && old(frontier)@[k] == node;
            }
            assert forall|k: int|
                0 <= k < frontier@.len() implies node_inv(props, s0, #[trigger] frontier@[k]) by {
                assert(old(frontier)@.contains(frontier@[k]));
                let j = choose|j: int|
                    0 <= j < old(frontier)@.len() && old(frontier)@[j] == frontier@[k];
            }
        }

        if unlikely_hint(map.props.solved_q(&node.state)) {
            proof {
                let j = choose|j: int|
                    0 <= j < old(frontier)@.len() && old(frontier)@[j] == node;
                if engine_inv(props, s0, table0, fr_pre) {
                    // The popped node is the cheapest pending one, and the
                    // balanced books bound every priced solution from
                    // below by some pending node.
                    assert forall|moves2: Seq<Move>, sn2: StateModel, t2: int|
                        #[trigger] priced_replay(props, s0, moves2, sn2, t2) && spec_solved(
                            props,
                            sn2,
                        ) implies lex_le(
                        node.costs.pushes as int,
                        node.costs.moves as int,
                        moves2.len() as int,
                        t2,
                    ) by {
                        lemma_cover_bound(
                            props,
                            table0,
                            fr_pre,
                            s0,
                            0,
                            0,
                            moves2,
                            sn2,
                            t2,
                        );
                        let k = choose|k: int|
                            0 <= k < fr_pre.len() && lex_le(
                                (#[trigger] fr_pre[k]).costs.pushes as int,
                                fr_pre[k].costs.moves as int,
                                0 + moves2.len() as int,
                                0 + t2,
                            );
                        assert(costs_le(node.costs, fr_pre[k].costs));
                    }
                }
            }
            return Some(Solution::new(node.moves, node.costs));
        }
        proof {
            let j = choose|j: int| 0 <= j < old(frontier)@.len() && old(frontier)@[j] == node;
            assert(!spec_solved(props, old(frontier)@[j].state@));
            assert(!spec_solved(props, node.state@));
        }

        let prior = lookup(&self.tried, &node.state);
        match prior {
            Some(recorded) => {
                if !node.costs.lt(&recorded) {
                    // Dominated: this state was already reached at a cost
                    // no worse than the node's own.
                    proof {
                        assert(count_cheap(frontier@, node.costs) < count_cheap(
                            fr_pre,
                            node.costs,
                        )) by {
                            assert(costs_le(node.costs, node.costs));
                        }
                        if engine_inv(props, s0, table0, fr_pre) {
                            assert(costs_le(recorded, node.costs));
                            assert(exists|k2: int|
                                0 <= k2 < table0.len() && (#[trigger] table0[k2]).0@
                                    == node.state@ && lex_le(
                                    table0[k2].1.pushes as int,
                                    table0[k2].1.moves as int,
                                    node.costs.pushes as int,
                                    node.costs.moves as int,
                                )) by {
                                let k2 = choose|k2: int|
                                    0 <= k2 < table0.len() && (#[trigger] table0[k2]).0@
                                        == node.state@ && table0[k2].1 == recorded;
                            }
                            assert forall|k: int|
                                0 <= k < table0.len() implies table0.contains(
                                #[trigger] table0[k],
                            ) by {}
                            lemma_books_balance(
                                props,
                                s0,
                                table0,
                                table0,
                                fr_pre,
                                frontier@,
                                node,
                            );
                        }
                    }
                    return None;
                }
            },
            None => {},
        }
        if self.tried.len() == usize::MAX {
            // The dominance table cannot grow further; expanding without
            // recording could loop, so the node is dropped.
            self.saturated = true;
            proof {
                assert(count_cheap(frontier@, node.costs) < count_cheap(fr_pre, node.costs))
                    by {
                    assert(costs_le(node.costs, node.costs));
                }
            }
            return None;
        }
        let dup = node.state.duplicate();
        upsert(&mut self.tried, dup, node.costs);
        let ghost table1 = self.tried@;

        let graph = PathGraph::for_state(&map.props, &node.state);
        let pushes = map.props.legal_moves(&node.state);
        let mut i: usize = 0;
        while i < pushes.len()
            invariant
                map.wf(),
                self.wf(),
                props == map.props,
                node_inv(props, s0, node),
                graph.describes(props, node.state@),
                forall|m: Move| #[trigger]
                    pushes@.contains(m) <==> legal_push(props, node.state@, m),
                i <= pushes@.len(),
                frontier_inv(props, s0, frontier@),
                self.spec_recorded() == table1,
                old(self).spec_saturated() ==> self.spec_saturated(),
                fr_mid.len() <= frontier@.len(),
                forall|j: int| 0 <= j < fr_mid.len() ==> frontier@[j] == fr_mid[j],
                count_cheap(frontier@, node.costs) == count_cheap(fr_mid, node.costs),
                !self.spec_saturated() ==> forall|m2: Move, sn: StateModel, dc: int|
                    #[trigger] priced_step(props, node.state@, m2, sn, dc) && (exists|j: int|
                        0 <= j < i && pushes@[j] == m2) ==> exists|k: int|
                        0 <= k < frontier@.len() && (#[trigger] frontier@[k]).state@ == sn
                            && frontier@[k].costs.pushes as int == node.costs.pushes + 1
                            && frontier@[k].costs.moves as int == node.costs.moves + dc,
            decreases pushes.len() - i,
        {
            let ghost fr_body0 = frontier@;
            let m = pushes[i];
            proof {
                assert(pushes@.contains(m));
                assert(legal_push(props, node.state@, m));
            }
            // The player must stand on the opposite side of the box
            // before the push: 2*start - end, componentwise.
            let sx: usize = 2 * (m.start.x as usize) - (m.end.x as usize);
            let sy: usize = 2 * (m.start.y as usize) - (m.end.y as usize);
            let side = crate::pos::Pos { x: sx as u8, y: sy as u8 };
            proof {
                assert(sx as int == side_x(m) && sy as int == side_y(m));
                assert(side == player_side(m));
            }
            let routed = route(&map.props, &node.state, &graph, node.state.player, side);
            match routed {
                Some(walk_cost) => {
                    // The push is feasible; price it and enqueue the
                    // resulting configuration.
                    let can_count = node.costs.pushes < u16::MAX;
                    let can_walk = (node.costs.moves as u32) + (walk_cost as u32) + 1
                        <= u16::MAX as u32;
                    if can_count && can_walk {
                        let mut child_state = node.state.duplicate();
                        child_state.apply_move(m);
                        let mut child_moves = dup_moves(&node.moves);
                        proof {
                            assert(node.moves@.len() < u16::MAX);
                        }
                        child_moves.push(m);
                        let child_costs = Costs {
                            pushes: node.costs.pushes + 1,
                            moves: node.costs.moves + walk_cost + 1,
                        };
                        let child = StepState {
                            moves: child_moves,
                            state: child_state,
                            costs: child_costs,
                        };
                        proof {
                            assert(push_rel(props, node.state@, m, child.state@));
                            lemma_replay_snoc(
                                props,
                                s0,
                                node.moves@,
                                node.state@,
                                m,
                                child.state@,
                            );
                            lemma_push_rel_wf(props, node.state@, m, child.state@);
                            assert(min_walk(
                                props,
                                node.state@,
                                node.state@.player,
                                player_side(m),
                                walk_cost as int,
                            ));
                            assert(priced_step(
                                props,
                                node.state@,
                                m,
                                child.state@,
                                walk_cost + 1,
                            ));
                            lemma_priced_snoc(
                                props,
                                s0,
                                node.moves@,
                                node.state@,
                                node.costs.moves as int,
                                m,
                                child.state@,
                                walk_cost + 1,
                            );
                            assert(child.moves@ == node.moves@.push(m));
                            assert(node_inv(props, s0, child));
                        }
                        let ghost fr0 = frontier@;
                        frontier.push(child);
                        proof {
                            assert forall|k: int|
                                0 <= k < frontier@.len() implies node_inv(
                                props,
                                s0,
                                #[trigger] frontier@[k],
                            ) by {
                                if k < fr0.len() {
                                    assert(frontier@[k] == fr0[k]);
                                } else {
                                    assert(frontier@[k] == child);
                                }
                            }
                            lemma_count_cheap_push(fr0, child, node.costs);
                            assert(!costs_le(child.costs, node.costs));
                        }
                        if self.steps < usize::MAX {
                            self.steps = self.steps + 1;
                        }
                    } else {
                        // This candidate's cost outgrows the 16-bit
                        // counters; dropping it may lose a solution, so
                        // the engine records the saturation.
                        self.saturated = true;
                    }
                },
                None => {},
            }
            proof {
                if !self.spec_saturated() {
                    assert forall|m2: Move, sn: StateModel, dc: int|
                        #[trigger] priced_step(props, node.state@, m2, sn, dc) && (exists|j: int|
                            0 <= j < i + 1 && pushes@[j] == m2) implies exists|k: int|
                        0 <= k < frontier@.len() && (#[trigger] frontier@[k]).state@ == sn
                            && frontier@[k].costs.pushes as int == node.costs.pushes + 1
                            && frontier@[k].costs.moves as int == node.costs.moves + dc by {
                        let j = choose|j: int| 0 <= j < i + 1 && pushes@[j] == m2;
                        if j < i {
                            let k = choose|k: int|
                                0 <= k < fr_body0.len() && (#[trigger] fr_body0[k]).state@ == sn
                                    && fr_body0[k].costs.pushes as int == node.costs.pushes + 1
                                    && fr_body0[k].costs.moves as int == node.costs.moves + dc;
                            assert(frontier@[k] == fr_body0[k]);
                        } else {
                            assert(m2 == m);
                            // The walk demanded by the priced push exists
                            // and is minimal, so the router found it.
                            assert(reachable_n(
                                props,
                                node.state@,
                                node.state@.player,
                                player_side(m2),
                                dc - 1,
                            ));
                            if routed is None {
                                assert(false);
                            }
                            let walk = routed->0;
                            assert(min_walk(
                                props,
                                node.state@,
                                node.state@.player,
                                side,
                                walk as int,
                            ));
                            assert(dc - 1 == walk as int);
                            let k = frontier@.len() - 1;
                            assert(frontier@[k].state@ == sn) by {
                                lemma_push_rel_deterministic(
                                    props,
                                    node.state@,
                                    m2,
                                    frontier@[k].state@,
                                    sn,
                                );
                            }
                        }
                    }
                }
            }
            i = i + 1;
        }
        proof {
            if engine_inv(props, s0, table0, fr_pre) && !self.spec_saturated() {
                // The freshly recorded configuration is closed: every one
                // of its priced pushes has an exactly priced child in the
                // frontier now.
                assert(!spec_solved(props, node.state@));
                assert forall|x: StepState|
                    x != node && fr_pre.contains(x) implies frontier@.contains(x) by {
                    assert(fr_mid.contains(x));
                    let j = choose|j: int| 0 <= j < fr_mid.len() && fr_mid[j] == x;
                    assert(frontier@[j] == x);
                }
                assert(table_refines(table1, table0)) by {
                    assert forall|k: int| #![trigger table0[k]]
                        0 <= k < table0.len() implies exists|k2: int|
                        0 <= k2 < table1.len() && (#[trigger] table1[k2]).0@ == table0[k].0@
                            && lex_le(
                            table1[k2].1.pushes as int,
                            table1[k2].1.moves as int,
                            table0[k].1.pushes as int,
                            table0[k].1.moves as int,
                        ) by {
                        if table0[k].0@ == node.state@ {
                            if prior is None {
                                assert(table_entry(table0, node.state@, table0[k].1));
                                assert(false);
                            }
                            let recorded = prior->0;
                            assert(table0[k].1 == recorded) by {
                                let k3 = choose|k3: int|
                                    0 <= k3 < table0.len() && (#[trigger] table0[k3]).0@
                                        == node.state@ && table0[k3].1 == recorded;
                                assert(k3 == k);
                            }
                            assert(costs_lt(node.costs, recorded));
                            let k2 = choose|k2: int|
                                0 <= k2 < table1.len() && (#[trigger] table1[k2]).0@ == dup@
                                    && table1[k2].1 == node.costs;
                            assert(table1[k2].0@ == table0[k].0@);
                        } else {
                            assert(table1.contains(table0[k]));
                            let k2 = choose|k2: int| 0 <= k2 < table1.len() && table1[k2]
                                == table0[k];
                        }
                    }
                }
                assert(exists|k2: int|
                    0 <= k2 < table1.len() && (#[trigger] table1[k2]).0@ == node.state@
                        && lex_le(
                        table1[k2].1.pushes as int,
                        table1[k2].1.moves as int,
                        node.costs.pushes as int,
                        node.costs.moves as int,
                    )) by {
                    let k2 = choose|k2: int|
                        0 <= k2 < table1.len() && (#[trigger] table1[k2]).0@ == dup@
                            && table1[k2].1 == node.costs;
                }
                assert(table_unsolved(props, table1)) by {
                    assert forall|k: int|
                        0 <= k < table1.len() implies !spec_solved(
                        props,
                        (#[trigger] table1[k]).0@,
                    ) by {
                        if table0.contains(table1[k]) {
                            let j = choose|j: int|
                                0 <= j < table0.len() && table0[j] == table1[k];
                        } else {
                            assert(table1[k] == (dup, node.costs));
                        }
                    }
                }
                assert forall|k: int|
                    0 <= k < table1.len() implies table0.contains(#[trigger] table1[k])
                    || entry_closed(props, table1, frontier@, table1[k]) by {
                    if !table0.contains(table1[k]) {
                        assert(table1[k] == (dup, node.costs));
                        assert(table1[k].0@ == node.state@);
                        assert forall|m2: Move, sn: StateModel, dc: int|
                            #[trigger] priced_step(props, table1[k].0@, m2, sn, dc) implies covered(
                            props,
                            table1,
                            frontier@,
                            sn,
                            table1[k].1.pushes + 1,
                            table1[k].1.moves + dc,
                        ) by {
                            assert(legal_push(props, node.state@, m2));
                            assert(pushes@.contains(m2));
                            let j = choose|j: int| 0 <= j < pushes@.len() && pushes@[j] == m2;
                            let k2 = choose|k2: int|
                                0 <= k2 < frontier@.len() && (#[trigger] frontier@[k2]).state@
                                    == sn && frontier@[k2].costs.pushes as int
                                    == node.costs.pushes + 1 && frontier@[k2].costs.moves as int
                                    == node.costs.moves + dc;
                            assert(lex_le(
                                frontier@[k2].costs.pushes as int,
                                frontier@[k2].costs.moves as int,
                                table1[k].1.pushes + 1,
                                table1[k].1.moves + dc,
                            ));
                        }
                    }
                }
                lemma_books_balance(props, s0, table0, table1, fr_pre, frontier@, node);
            }
            assert(count_cheap(frontier@, node.costs) < count_cheap(fr_pre, node.costs)) by {
                assert(costs_le(node.costs, node.costs));
            }
        }
        None
    }

    /// Runs the search and returns the first terminal node popped from
    /// the priority frontier, or `None` when the frontier empties (the
    /// puzzle is unsolvable from here) or the budget runs out. `ttl` is
    /// the budget, counted in node expansions: each frontier pop, whether
    /// it terminates, is discarded or is expanded, spends one unit.
    ///
    /// Any returned solution replays legally into a solved board and
    /// carries its exact cost. When the solver starts with an empty
    /// dominance table and never saturates its 16-bit cost counters, the
    /// contract settles both directions: a returned cost is optimal (no
    /// priced push sequence solves the board lexicographically cheaper),
    /// and a `None` with an exhausted frontier (`rest_possibilities` is
    /// zero) means no priced push sequence solves the board at all.
    pub fn solve(&mut self, map: &Board, ttl: usize) -> (r: Option<Solution>)
        requires
            map.wf(),
            old(self).wf(),
        ensures
            final(self).wf(),
            match r {
                Some(sol) => solution_sound(
                    map.props,
                    map.solve_state@,
                    sol.spec_moves(),
                    sol.spec_costs(),
                ),
                None => true,
            },
            spec_solved(map.props, map.solve_state@) && ttl >= 1 ==> (r is Some
                && r->0.spec_moves().len() == 0 && r->0.spec_costs() == (Costs {
                pushes: 0u16,
                moves: 0u16,
            })),
            old(self).spec_saturated() ==> final(self).spec_saturated(),
            old(self).spec_recorded().len() == 0 && !old(self).spec_saturated()
                && !final(self).spec_saturated() ==> match r {
                Some(sol) => forall|moves2: Seq<Move>, sn2: StateModel, t2: int|
                    #[trigger] priced_replay(map.props, map.solve_state@, moves2, sn2, t2)
                        && spec_solved(map.props, sn2) ==> lex_le(
                        sol.spec_costs().pushes as int,
                        sol.spec_costs().moves as int,
                        moves2.len() as int,
                        t2,
                    ),
                None => final(self).spec_rest_possibilities() == 0
                    ==> forall|moves2: Seq<Move>, sn2: StateModel, t2: int|
                    !(#[trigger] priced_replay(map.props, map.solve_state@, moves2, sn2, t2)
                        && spec_solved(map.props, sn2)),
            },
    {
        let ghost props = map.props;
        let ghost s0 = map.solve_state@;
        let ghost opt_mode = old(self).spec_recorded().len() == 0 && !old(self).spec_saturated();
        let mut frontier: Vec<StepState> = Vec::new();
        let root = StepState::start(map);
        frontier.push(root);
        proof {
            assert(node_inv(props, s0, frontier@[0]));
            if opt_mode {
                assert(frontier@[0].state@ == s0);
                assert(lex_le(
                    frontier@[0].costs.pushes as int,
                    frontier@[0].costs.moves as int,
                    0,
                    0,
                ));
                assert(covered(props, self.spec_recorded(), frontier@, s0, 0, 0));
                assert(engine_inv(props, s0, self.spec_recorded(), frontier@));
            }
        }
        let mut used: usize = 0;
        while used < ttl && frontier.len() > 0
            invariant
                map.wf(),
                self.wf(),
                props == map.props,
                s0 == map.solve_state@,
                used <= ttl,
                frontier_inv(props, s0, frontier@),
                spec_solved(props, s0) ==> used == 0 && frontier@.len() == 1 && frontier@[0].moves@.len()
                    == 0 && frontier@[0].costs == (Costs { pushes: 0u16, moves: 0u16 })
                    && frontier@[0].state@ == s0,
                old(self).spec_saturated() ==> self.spec_saturated(),
                opt_mode == (old(self).spec_recorded().len() == 0 && !old(self).spec_saturated()),
                opt_mode && !self.spec_saturated() ==> engine_inv(
                    props,
                    s0,
                    self.spec_recorded(),
                    frontier@,
                ),
            decreases ttl - used,
        {
            let ghost fr_before = frontier@;
            match self.step(map, &mut frontier, Ghost(s0)) {
                Some(sol) => {
                    self.rest_possibilities = frontier.len();
                    proof {
                        if spec_solved(props, s0) {
                            let k = choose|k: int|
                                0 <= k < fr_before.len() && (#[trigger] fr_before[k]).moves@
                                    == sol.spec_moves() && fr_before[k].costs == sol.spec_costs()
                                    && spec_solved(props, fr_before[k].state@);
                        }
                        if opt_mode && !self.spec_saturated() {
                            assert forall|moves2: Seq<Move>, sn2: StateModel, t2: int|
                                #[trigger] priced_replay(props, s0, moves2, sn2, t2)
                                    && spec_solved(props, sn2) implies lex_le(
                                sol.spec_costs().pushes as int,
                                sol.spec_costs().moves as int,
                                moves2.len() as int,
                                t2,
                            ) by {}
                        }
                    }
                    return Some(sol);
                },
                None => {
                    proof {
                        if spec_solved(props, s0) {
                            let k = choose|k: int|
                                0 <= k < fr_before.len() && !spec_solved(
                                    props,
                                    (#[trigger] fr_before[k]).state@,
                                );
                            assert(fr_before[k].state@ == s0);
                            assert(false);
                        }
                        if opt_mode && !self.spec_saturated() {
                            assert(engine_inv(props, s0, self.spec_recorded(), frontier@));
                        }
                    }
                },
            }
            used = used + 1;
        }
        self.rest_possibilities = frontier.len();
        proof {
            if spec_solved(props, s0) && ttl >= 1 {
                assert(used == 0 && frontier@.len() == 1);
                assert(false);
            }
            if opt_mode && !self.spec_saturated() && frontier@.len() == 0 {
                // An exhausted frontier under balanced books rules out
                // every priced solution: each would demand a pending node.
                assert forall|moves2: Seq<Move>, sn2: StateModel, t2: int|
                    !(#[trigger] priced_replay(props, s0, moves2, sn2, t2) && spec_solved(
                        props,
                        sn2,
                    )) by {
                    if priced_replay(props, s0, moves2, sn2, t2) && spec_solved(props, sn2) {
                        lemma_cover_bound(
                            props,
                            self.spec_recorded(),
                            frontier@,
                            s0,
                            0,
                            0,
                            moves2,
                            sn2,
                            t2,
                        );
                        let k = choose|k: int|
                            0 <= k < frontier@.len() && lex_le(
                                (#[trigger] frontier@[k]).costs.pushes as int,
                                frontier@[k].costs.moves as int,
                                0 + moves2.len() as int,
                                0 + t2,
                            );
                        assert(false);
                    }
                }
            }
        }
        None
    }
}

} // verus!
