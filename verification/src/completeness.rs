//! What a result says about all the ways to play a level.
//!
//! Moves that solve a level make pushes that the search does not prune: after each of them the
//! level can still be solved, and what is pruned cannot. So the search finds a solution unless it
//! is stopped, and none has fewer pushes.

use vstd::prelude::*;

use crate::closed_edge::Ground;
use crate::corral::{board, corralled};
use crate::deadlock::{
    law_box_in_corner_is_a_deadlock, law_corral_is_a_deadlock, law_overflow_is_a_deadlock,
    law_pushes_keep_the_boxes, law_reported_group_is_a_deadlock, lemma_number_update, number,
};
use crate::deadlock_sets::overflows;
use crate::estimate::{
    box_costs, estimate, law_normal_form_is_shared, lemma_estimate_nonnegative, lemma_normal_leads_back, normal,
};
use crate::exhaustive::{
    allows, first_state, law_exhausted_search_misses_nothing, lemma_run_estimates,
    lemma_run_heap, lemma_waits_on_the_way, lemma_with_children, next_state, push_states,
    total_steps, waits_at,
};
use crate::freeze::freezes;
use crate::frontier::{
    lemma_root_is_least, lemma_without_first, lemma_without_first_holds, without_first, NodeModel,
};
use crate::grid::{
    at, follow, is_free, lemma_pos, lemma_set_cells, neighbor, on_grid, opposite, pos, walk_step,
    Cell,
};
use crate::level::all_covered;
use crate::lower_bound::law_estimate_is_a_lower_bound;
use crate::matching::{lemma_too_many_workers, INFEASIBLE};
use crate::moves::{lemma_stand, stand, Push};
use crate::push_count::pushes_in;
use crate::pushes::{
    all_pushes, boxes_of, first_step, push_of, pushes_of_box, pushes_of_boxes, step_of, tried_pushes,
    with_steps,
};
use crate::replay::{is_push, lemma_first_step, lemma_tried_shape};
use crate::rules::{
    lemma_moved, lemma_play_concat, lemma_push_box, moved, play, play_letter, push_box, push_boxes,
    step_player, Board, Position,
};
use crate::search::{
    begin, child, finds, is_crowded, is_goal_state, is_result, is_solution, leads_to_deadlock,
    lemma_tried, run, state_of, SolverResult,
};
use crate::solver::{goals_of, keeps_corners, sets_of};
use crate::table::StateModel;

verus! {

/// The board on which boxes may be pushed to every square.
pub open spec fn open_board(g: Ground, boxes: Seq<bool>) -> Board {
    Board { w: g.w, h: g.h, walls: g.walls, boxes, dead: Seq::new(0x1_0000, |i: int| false) }
}

/// Pushing one after the other.
proof fn lemma_push_concat(b: Board, a: Seq<(Cell, int)>, c: Seq<(Cell, int)>)
    ensures
        push_boxes(b, a + c) == match push_boxes(b, a) {
            Some(m) => push_boxes(m, c),
            None => None::<Board>,
        },
    decreases c.len(),
{
    if c.len() == 0 {
        assert(a + c =~= a);
    } else {
        lemma_push_concat(b, a, c.drop_last());
        assert((a + c).drop_last() =~= a + c.drop_last());
    }
}

// ── Moves and pushes ──────────────────────────────────────────────────────

/// The step that a letter stands for.
proof fn lemma_letter_step(g: Ground, p: Position, c: char) -> (r: (int, bool))
    requires
        play_letter(g.w, g.h, g.walls, p, c) is Some,
    ensures
        0 <= r.0 < 4,
        step_player(g.w, g.h, g.walls, p, r.0, r.1) == play_letter(g.w, g.h, g.walls, p, c),
        r.1 == (c == 'U' || c == 'D' || c == 'L' || c == 'R'),
{
    if c == 'u' {
        (0, false)
    } else if c == 'd' {
        (1, false)
    } else if c == 'l' {
        (2, false)
    } else if c == 'r' {
        (3, false)
    } else if c == 'U' {
        (0, true)
    } else if c == 'D' {
        (1, true)
    } else if c == 'L' {
        (2, true)
    } else {
        (3, true)
    }
}

/// The player stands on a free cell of the grid.
pub open spec fn stands_free(g: Ground, p: Position) -> bool {
    &&& on_grid(g.w, g.h, p.player)
    &&& is_free(g.w, g.walls, p.boxes, p.player)
    &&& g.w * g.h <= p.boxes.len()
}

/// A step with a push pushes a box on the board.
proof fn lemma_step_pushes(g: Ground, p: Position, d: int)
    requires
        stands_free(g, p),
        0 <= d < 4,
        step_player(g.w, g.h, g.walls, p, d, true) is Some,
    ensures
        ({
            let q = step_player(g.w, g.h, g.walls, p, d, true)->0;
            let n = neighbor(g.w, g.h, p.player, d)->0;
            let to = neighbor(g.w, g.h, n, d)->0;
            &&& stands_free(g, q)
            &&& on_grid(g.w, g.h, n) && on_grid(g.w, g.h, to)
            &&& at(p.boxes, g.w, n)
            &&& q == (Position { player: n, boxes: moved(g.w, p.boxes, n, to) })
            &&& push_box(open_board(g, p.boxes), n, d) == Some(open_board(g, q.boxes))
            &&& neighbor(g.w, g.h, n, opposite(d)) == Some(p.player)
            &&& is_free(g.w, g.walls, q.boxes, p.player)
        }),
{
    let n = neighbor(g.w, g.h, p.player, d)->0;
    let to = neighbor(g.w, g.h, n, d)->0;
    assert(neighbor(g.w, g.h, n, opposite(d)) == Some(p.player));
    lemma_moved(g.w, g.h, p.boxes, n, to, n);
    lemma_moved(g.w, g.h, p.boxes, n, to, p.player);
    lemma_pos(g.w, g.h, to);
    crate::bitplane::lemma_dims(g.w as int, g.h as int);
    assert(!at(open_board(g, p.boxes).dead, g.w, to));
}

/// The pushes of a sequence of moves.
proof fn lemma_moves_push(g: Ground, p: Position, moves: Seq<char>) -> (list: Seq<(Cell, int)>)
    requires
        stands_free(g, p),
        play(g.w, g.h, g.walls, p, moves) is Some,
    ensures
        ({
            let q = play(g.w, g.h, g.walls, p, moves)->0;
            &&& stands_free(g, q)
            &&& push_boxes(open_board(g, p.boxes), list) == Some(open_board(g, q.boxes))
            &&& list.len() == pushes_in(moves)
        }),
    decreases moves.len(),
{
    if moves.len() == 0 {
        Seq::empty()
    } else {
        let before = lemma_moves_push(g, p, moves.drop_last());
        let m = play(g.w, g.h, g.walls, p, moves.drop_last())->0;
        let (d, push) = lemma_letter_step(g, m, moves.last());
        if push {
            lemma_step_pushes(g, m, d);
            let list = before.push((neighbor(g.w, g.h, m.player, d)->0, d));
            assert(list.drop_last() =~= before);
            list
        } else {
            before
        }
    }
}

// ── Pruning ───────────────────────────────────────────────────────────────

/// After the pushes every goal has a box.
pub open spec fn solves(g: Ground, boxes: Seq<bool>, list: Seq<(Cell, int)>) -> bool {
    &&& g.w * g.h <= boxes.len()
    &&& push_boxes(open_board(g, boxes), list) is Some
    &&& is_goal_state(g, (push_boxes(open_board(g, boxes), list)->0).boxes)
}

/// A level that can be solved has no box in a corner.
proof fn lemma_not_cornered(g: Ground, boxes: Seq<bool>, list: Seq<(Cell, int)>, c: Cell)
    requires
        keeps_corners(g),
        !is_crowded(g, boxes),
        solves(g, boxes, list),
        on_grid(g.w, g.h, c),
        at(boxes, g.w, c),
    ensures
        !at(g.dead, g.w, c),
{
    if at(g.dead, g.w, c) {
        law_box_in_corner_is_a_deadlock(open_board(g, boxes), g.goals, c, list);
    }
}

/// What is left of pushes that solve a level solves what the first of them lead to.
proof fn lemma_rest_solves(g: Ground, boxes: Seq<bool>, list: Seq<(Cell, int)>, j: int)
    requires
        solves(g, boxes, list),
        0 <= j <= list.len(),
    ensures
        push_boxes(open_board(g, boxes), list.take(j)) is Some,
        ({
            let m = push_boxes(open_board(g, boxes), list.take(j))->0;
            &&& m == open_board(g, m.boxes)
            &&& solves(g, m.boxes, list.skip(j))
            &&& number(g.w, g.h, m.boxes) == number(g.w, g.h, boxes)
        }),
{
    lemma_push_concat(open_board(g, boxes), list.take(j), list.skip(j));
    assert(list.take(j) + list.skip(j) =~= list);
    law_pushes_keep_the_boxes(open_board(g, boxes), list.take(j));
}

/// Pushes that solve a level keep off the corners.
proof fn lemma_keeps_off(g: Ground, boxes: Seq<bool>, list: Seq<(Cell, int)>, j: int)
    requires
        keeps_corners(g),
        !is_crowded(g, boxes),
        solves(g, boxes, list),
        0 <= j <= list.len(),
    ensures
        push_boxes(open_board(g, boxes), list.take(j)) is Some,
        push_boxes(board(g, boxes), list.take(j)) == Some(
            board(g, (push_boxes(open_board(g, boxes), list.take(j))->0).boxes),
        ),
    decreases j,
{
    lemma_rest_solves(g, boxes, list, j);
    if j > 0 {
        lemma_keeps_off(g, boxes, list, j - 1);
        lemma_rest_solves(g, boxes, list, j - 1);
        assert(list.take(j).drop_last() =~= list.take(j - 1));
        let m = push_boxes(open_board(g, boxes), list.take(j - 1))->0;
        let q = push_boxes(open_board(g, boxes), list.take(j))->0;
        let (c, d) = list.take(j).last();
        lemma_push_box(m, c, d);
        let to = neighbor(g.w, g.h, c, d)->0;
        assert(at(q.boxes, g.w, to));
        lemma_not_cornered(g, q.boxes, list.skip(j), to);
    }
}

/// A position that can be solved is not seen as a deadlock.
proof fn lemma_no_deadlock(g: Ground, boxes: Seq<bool>, p: Push, list: Seq<(Cell, int)>)
    requires
        keeps_corners(g),
        on_grid(g.w, g.h, p.to()),
        on_grid(g.w, g.h, p.from()),
        g.w * g.h <= boxes.len(),
        !is_crowded(g, moved(g.w, boxes, p.from(), p.to())),
        solves(g, moved(g.w, boxes, p.from(), p.to()), list),
    ensures
        !leads_to_deadlock(g, boxes, p),
{
    let after = moved(g.w, boxes, p.from(), p.to());
    let b = board(g, after);
    let n = list.len() as int;
    lemma_moved(g.w, g.h, boxes, p.from(), p.to(), p.to());
    lemma_not_cornered(g, after, list, p.to());
    lemma_keeps_off(g, after, list, n);
    assert(list.take(n) =~= list);
    if overflows(sets_of(g), g.w, after, p.to()) {
        law_overflow_is_a_deadlock(g, after, p.to(), list);
    }
    if freezes(b, g.goals, p.to()) {
        law_reported_group_is_a_deadlock(b, g.goals, p.to(), list);
    }
    if corralled(g, after, stand(g.w, p.from_flat as int)) {
        law_corral_is_a_deadlock(g, after, stand(g.w, p.from_flat as int), list);
    }
}

// ── The search tries every push ───────────────────────────────────────────

proof fn lemma_listed_of_box(g: Ground, boxes: Seq<bool>, player: Cell, b: Cell, n: int, d: int)
    requires
        0 <= d < n,
        push_of(g, boxes, player, b, d) is Some,
    ensures
        pushes_of_box(g, boxes, player, b, n).contains(push_of(g, boxes, player, b, d)->0),
    decreases n,
{
    let p = push_of(g, boxes, player, b, d)->0;
    let before = pushes_of_box(g, boxes, player, b, n - 1);
    let all = pushes_of_box(g, boxes, player, b, n);
    if d == n - 1 {
        assert(all[before.len() as int] == p);
    } else {
        lemma_listed_of_box(g, boxes, player, b, n - 1, d);
        let i = choose|i: int| 0 <= i < before.len() && before[i] == p;
        assert(all[i] == p);
    }
}

proof fn lemma_listed(
    g: Ground,
    boxes: Seq<bool>,
    player: Cell,
    list: Seq<Cell>,
    n: int,
    k: int,
    d: int,
)
    requires
        0 <= k < n <= list.len(),
        0 <= d < 4,
        push_of(g, boxes, player, list[k], d) is Some,
    ensures
        pushes_of_boxes(g, boxes, player, list, n).contains(
            push_of(g, boxes, player, list[k], d)->0,
        ),
    decreases n,
{
    let p = push_of(g, boxes, player, list[k], d)->0;
    let before = pushes_of_boxes(g, boxes, player, list, n - 1);
    let own = pushes_of_box(g, boxes, player, list[n - 1], 4);
    let all = pushes_of_boxes(g, boxes, player, list, n);
    if k == n - 1 {
        lemma_listed_of_box(g, boxes, player, list[k], 4, d);
        let i = choose|i: int| 0 <= i < own.len() && own[i] == p;
        assert(all[before.len() + i] == p);
    } else {
        lemma_listed(g, boxes, player, list, n - 1, k, d);
        let i = choose|i: int| 0 <= i < before.len() && before[i] == p;
        assert(all[i] == p);
    }
}

proof fn lemma_step_listed(pushes: Seq<Push>, n: int, k: int)
    requires
        0 <= k < n <= pushes.len(),
        pushes[k].steps >= 1,
        pushes[k].steps == 1 ==> pushes[k] == first_step(pushes[k]),
    ensures
        with_steps(pushes, n).contains(first_step(pushes[k])),
    decreases n,
{
    let p = first_step(pushes[k]);
    let before = with_steps(pushes, n - 1);
    let all = with_steps(pushes, n);
    if k == n - 1 {
        if pushes[k].steps > 1 {
            assert(all[before.len() as int + 1] == p);
        } else {
            assert(all[before.len() as int] == p);
        }
    } else {
        lemma_step_listed(pushes, n - 1, k);
        let i = choose|i: int| 0 <= i < before.len() && before[i] == p;
        assert(all[i] == p);
    }
}

/// The search tries to push every box by one cell.
proof fn lemma_step_tried(g: Ground, boxes: Seq<bool>, player: Cell, b: Cell, d: int)
    requires
        on_grid(g.w, g.h, b),
        at(boxes, g.w, b),
        0 <= d < 4,
        step_of(g, boxes, player, b, d) is Some,
    ensures
        tried_pushes(g, boxes, player).contains(step_of(g, boxes, player, b, d)->0),
{
    let list = boxes_of(g, boxes);
    let pushes = all_pushes(g, boxes, player);
    assert(push_of(g, boxes, player, b, d) is Some);
    assert(0 <= g.w * g.h) by (nonlinear_arith);
    lemma_set_cells(g.w, g.h, boxes, (g.w * g.h) as nat);
    lemma_pos(g.w, g.h, b);
    assert(list.contains(b));
    let i = choose|i: int| 0 <= i < list.len() && list[i] == b;
    lemma_listed(g, boxes, player, list, list.len() as int, i, d);
    let p = push_of(g, boxes, player, b, d)->0;
    let k = choose|k: int| 0 <= k < pushes.len() && pushes[k] == p;
    lemma_first_step(g, boxes, player, b, d);
    lemma_step_listed(pushes, pushes.len() as int, k);
}

// ── From moves to states ──────────────────────────────────────────────────

/// The state of a position.
spec fn state_at(g: Ground, p: Position) -> StateModel {
    first_state(g, p.boxes, pos(g.w, p.player))
}

/// A step to a free cell stays in the state.
proof fn lemma_walk_keeps_state(g: Ground, p: Position, d: int)
    requires
        stands_free(g, p),
        0 <= d < 4,
        step_player(g.w, g.h, g.walls, p, d, false) is Some,
    ensures
        state_at(g, step_player(g.w, g.h, g.walls, p, d, false)->0) == state_at(g, p),
{
    let q = step_player(g.w, g.h, g.walls, p, d, false)->0;
    let step = walk_step(g.w, g.h, g.walls, p.boxes);
    let dirs = seq![d];
    assert(dirs.drop_last() =~= Seq::<int>::empty());
    assert(follow(step, p.player, dirs.drop_last()) == Some(p.player));
    assert(follow(step, p.player, dirs) == Some(q.player));
    lemma_stand(g.w, g.h, p.player);
    lemma_stand(g.w, g.h, q.player);
    law_normal_form_is_shared(g, p.boxes, pos(g.w, p.player), pos(g.w, q.player));
}

/// A step with a push leads to the next state by a push that the search tries.
proof fn lemma_push_leads_on(g: Ground, p: Position, d: int) -> (push: Push)
    requires
        stands_free(g, p),
        0 <= d < 4,
        step_player(g.w, g.h, g.walls, p, d, true) is Some,
    ensures
        ({
            let q = step_player(g.w, g.h, g.walls, p, d, true)->0;
            let a = state_at(g, p);
            let n = neighbor(g.w, g.h, p.player, d)->0;
            &&& tried_pushes(g, a.boxes, stand(g.w, a.player)).contains(push)
            &&& push.steps == 1
            &&& on_grid(g.w, g.h, push.from()) && on_grid(g.w, g.h, push.to())
            &&& moved(g.w, p.boxes, push.from(), push.to()) == q.boxes
            &&& next_state(g, a, push) == state_at(g, q)
        }),
{
    let q = step_player(g.w, g.h, g.walls, p, d, true)->0;
    let a = state_at(g, p);
    let n = neighbor(g.w, g.h, p.player, d)->0;
    let at_player = pos(g.w, p.player);
    lemma_step_pushes(g, p, d);
    lemma_stand(g.w, g.h, p.player);
    lemma_stand(g.w, g.h, n);
    lemma_pos(g.w, g.h, p.player);
    crate::bitplane::lemma_dims(g.w as int, g.h as int);
    lemma_normal_leads_back(g, p.boxes, at_player);
    lemma_step_tried(g, p.boxes, stand(g.w, a.player), n, d);
    let push = step_of(g, p.boxes, stand(g.w, a.player), n, d)->0;
    assert(push.from_flat == at_player);
    let step = walk_step(g.w, g.h, g.walls, q.boxes);
    let dirs = seq![d];
    assert(dirs.drop_last() =~= Seq::<int>::empty());
    assert(follow(step, p.player, dirs.drop_last()) == Some(p.player));
    assert(follow(step, p.player, dirs) == Some(n));
    law_normal_form_is_shared(g, q.boxes, at_player, pos(g.w, n));
    push
}

/// The pushes of the search that go with some moves lead through the same boxes.
spec fn goes_with(
    g: Ground,
    p: Position,
    moves: Seq<char>,
    pushes: Seq<Push>,
    list: Seq<(Cell, int)>,
) -> bool {
    let q = play(g.w, g.h, g.walls, p, moves)->0;
    &&& pushes.len() == list.len()
    &&& list.len() == pushes_in(moves)
    &&& push_states(g, state_at(g, p), pushes) == Some(state_at(g, q))
    &&& push_boxes(open_board(g, p.boxes), list) == Some(open_board(g, q.boxes))
    &&& total_steps(pushes) == pushes.len()
    &&& forall|i: int|
        0 <= i <= pushes.len() ==> same_boxes(g, p, #[trigger] pushes.take(i), list.take(i))
}

spec fn same_boxes(g: Ground, p: Position, pushes: Seq<Push>, list: Seq<(Cell, int)>) -> bool {
    match (push_states(g, state_at(g, p), pushes), push_boxes(open_board(g, p.boxes), list)) {
        (Some(a), Some(b)) => a.boxes == b.boxes && total_steps(pushes) == pushes.len(),
        _ => false,
    }
}

/// The pushes that the search can make to follow the first `i` of moves that solve the level.
proof fn lemma_follows(g: Ground, p: Position, moves: Seq<char>, i: int) -> (r: (
    Seq<Push>,
    Seq<(Cell, int)>,
))
    requires
        keeps_corners(g),
        stands_free(g, p),
        play(g.w, g.h, g.walls, p, moves) is Some,
        is_goal_state(g, (play(g.w, g.h, g.walls, p, moves)->0).boxes),
        0 <= i <= moves.len(),
    ensures
        play(g.w, g.h, g.walls, p, moves.take(i)) is Some,
        stands_free(g, play(g.w, g.h, g.walls, p, moves.take(i))->0),
        goes_with(g, p, moves.take(i), r.0, r.1),
    decreases i,
{
    lemma_play_concat(g.w, g.h, g.walls, p, moves.take(i), moves.skip(i));
    assert(moves.take(i) + moves.skip(i) =~= moves);
    if i == 0 {
        let pushes: Seq<Push> = Seq::empty();
        let list: Seq<(Cell, int)> = Seq::empty();
        assert(moves.take(0) =~= Seq::<char>::empty());
        assert forall|j: int| 0 <= j <= pushes.len() implies same_boxes(
            g,
            p,
            #[trigger] pushes.take(j),
            list.take(j),
        ) by {
            assert(pushes.take(j) =~= pushes);
            assert(list.take(j) =~= list);
        }
        (pushes, list)
    } else {
        let (pushes, list) = lemma_follows(g, p, moves, i - 1);
        assert(moves.take(i).drop_last() =~= moves.take(i - 1));
        let m = play(g.w, g.h, g.walls, p, moves.take(i - 1))->0;
        let q = play(g.w, g.h, g.walls, p, moves.take(i))->0;
        let (d, is_push) = lemma_letter_step(g, m, moves.take(i).last());
        if is_push {
            lemma_step_pushes(g, m, d);
            let push = lemma_push_leads_on(g, m, d);
            let rest = lemma_moves_push(g, q, moves.skip(i));
            let n = neighbor(g.w, g.h, m.player, d)->0;
            law_pushes_keep_the_boxes(open_board(g, p.boxes), list);
            let single = seq![(n, d)];
            assert(single.drop_last() =~= Seq::<(Cell, int)>::empty());
            assert(push_boxes(open_board(g, m.boxes), single.drop_last()) == Some(
                open_board(g, m.boxes),
            ));
            assert(push_boxes(open_board(g, m.boxes), single) == Some(open_board(g, q.boxes)));
            law_pushes_keep_the_boxes(open_board(g, m.boxes), single);
            if !is_crowded(g, m.boxes) {
                lemma_no_deadlock(g, m.boxes, push, rest);
            }
            let (pushes2, list2) = (pushes.push(push), list.push((n, d)));
            assert(pushes2.drop_last() =~= pushes);
            assert(list2.drop_last() =~= list);
            assert(allows(g, state_at(g, m), push));
            assert(push_states(g, state_at(g, p), pushes2) == Some(state_at(g, q)));
            assert forall|j: int| 0 <= j <= pushes2.len() implies same_boxes(
                g,
                p,
                #[trigger] pushes2.take(j),
                list2.take(j),
            ) by {
                if j < pushes2.len() {
                    assert(pushes2.take(j) =~= pushes.take(j));
                    assert(list2.take(j) =~= list.take(j));
                } else {
                    assert(pushes2.take(j) =~= pushes2);
                    assert(list2.take(j) =~= list2);
                }
            }
            (pushes2, list2)
        } else {
            lemma_walk_keeps_state(g, m, d);
            (pushes, list)
        }
    }
}

/// The squares that no box is pushed to are the corners, and the player starts on a free cell of the
/// grid.
pub open spec fn is_fair(g: Ground, boxes: Seq<bool>, player: int) -> bool {
    &&& keeps_corners(g)
    &&& stands_free(g, Position { player: stand(g.w, player), boxes })
}

/// The pushes that the search can make to solve a level that moves solve.
proof fn lemma_solution_follows(
    g: Ground,
    boxes: Seq<bool>,
    player: int,
    moves: Seq<char>,
) -> (r: (Seq<Push>, Seq<(Cell, int)>))
    requires
        is_fair(g, boxes, player),
        is_solution(g, boxes, player, moves),
    ensures
        ({
            let p = Position { player: stand(g.w, player), boxes };
            &&& state_at(g, p) == first_state(g, boxes, player)
            &&& goes_with(g, p, moves, r.0, r.1)
            &&& push_states(g, first_state(g, boxes, player), r.0) is Some
            &&& is_goal_state(
                g,
                (push_states(g, first_state(g, boxes, player), r.0)->0).boxes,
            )
            &&& solves(g, boxes, r.1)
        }),
{
    let p = Position { player: stand(g.w, player), boxes };
    let n = moves.len() as int;
    assert(moves.take(n) =~= moves);
    lemma_stand(g.w, g.h, p.player);
    lemma_normal_leads_back(g, boxes, player);
    lemma_same_normal(g, boxes, player, pos(g.w, p.player));
    lemma_follows(g, p, moves, n)
}

/// The normal form of a position on a free cell depends on the cell alone.
proof fn lemma_same_normal(g: Ground, boxes: Seq<bool>, a: int, b: int)
    requires
        stand(g.w, a) == stand(g.w, b),
        on_grid(g.w, g.h, stand(g.w, a)),
        is_free(g.w, g.walls, boxes, stand(g.w, a)),
    ensures
        normal(g, boxes, a) == normal(g, boxes, b),
{
    let step = walk_step(g.w, g.h, g.walls, boxes);
    let none: Seq<int> = Seq::empty();
    assert(follow(step, stand(g.w, a), none) == Some(stand(g.w, b)));
    law_normal_form_is_shared(g, boxes, a, b);
}

/// With more boxes than goals the estimate is the same for all boxes.
proof fn lemma_crowded_estimate(g: Ground, boxes: Seq<bool>)
    requires
        is_crowded(g, boxes),
    ensures
        estimate(g, boxes) == INFEASIBLE,
{
    lemma_too_many_workers(
        box_costs(g, boxes),
        boxes_of(g, boxes).len() as int,
        goals_of(g).len() as int,
    );
}

/// Every waiting node has as many boxes as the level.
proof fn lemma_run_number(g: Ground, boxes: Seq<bool>, player: int, k: nat, n: NodeModel)
    requires
        g.w * g.h <= boxes.len(),
        run(g, begin(g, boxes, player), k) is Some,
        (run(g, begin(g, boxes, player), k)->0).frontier.contains(n),
    ensures
        number(g.w, g.h, n.boxes) == number(g.w, g.h, boxes),
        n.boxes.len() == boxes.len(),
    decreases k,
{
    let start = begin(g, boxes, player);
    if k > 0 {
        let before = (k - 1) as nat;
        let m = run(g, start, before)->0;
        let t = m.frontier[0];
        let waiting = without_first(m.frontier);
        let pushes = tried_pushes(g, t.boxes, stand(g.w, t.player));
        lemma_run_heap(g, boxes, player, before);
        lemma_without_first(m.frontier);
        lemma_without_first_holds(m.frontier, n);
        lemma_with_children(g, waiting, t, pushes, pushes.len() as int);
        assert(m.frontier.contains(t));
        lemma_run_number(g, boxes, player, before, t);
        if m.frontier.contains(n) {
            lemma_run_number(g, boxes, player, before, n);
        } else {
            let j = choose|j: int|
                0 <= j < pushes.len() && n == #[trigger] child(g, t, pushes[j]);
            let p = pushes[j];
            let at_player = stand(g.w, t.player);
            lemma_tried(g, t.boxes, at_player, j);
            let (b, d) = choose|b: Cell, d: int| #[trigger]
                is_push(g, t.boxes, at_player, p, b, d);
            lemma_tried_shape(g, t.boxes, at_player, p, b, d);
            lemma_pos(g.w, g.h, b);
            lemma_pos(g.w, g.h, p.to());
            let mid = t.boxes.update(pos(g.w, b), false);
            let cells = (g.w * g.h) as nat;
            lemma_number_update(g.w as int, t.boxes, pos(g.w, b), false, cells);
            lemma_number_update(g.w as int, mid, pos(g.w, p.to()), true, cells);
        }
    } else {
        assert(start.frontier[0] == n);
    }
}

// ── Laws ──────────────────────────────────────────────────────────────────

/// A box on a square that the solver keeps boxes off is lost: with no more boxes than goals, no
/// pushes to whatever squares solve the level.
pub proof fn law_box_on_dead_square_is_lost(
    g: Ground,
    b: Board,
    c: Cell,
    pushes: Seq<(Cell, int)>,
)
    requires
        keeps_corners(g),
        b == open_board(g, b.boxes),
        b.wf(),
        number(g.w, g.h, b.boxes) <= number(g.w, g.h, g.goals),
        on_grid(g.w, g.h, c),
        at(b.boxes, g.w, c),
        at(g.dead, g.w, c),
        push_boxes(b, pushes) is Some,
    ensures
        !all_covered(g.w, g.h, g.goals, (push_boxes(b, pushes)->0).boxes),
{
    law_box_in_corner_is_a_deadlock(b, g.goals, c, pushes);
}

/// A search without a solution has used up its limit, or no moves solve the level.
pub proof fn law_unsolved_means_no_solution(
    g: Ground,
    boxes: Seq<bool>,
    player: int,
    limit: int,
    r: &SolverResult,
    moves: Seq<char>,
)
    requires
        is_fair(g, boxes, player),
        is_result(g, boxes, player, limit, r),
        !r.solved,
        is_solution(g, boxes, player, moves),
    ensures
        0 <= limit,
        run(g, begin(g, boxes, player), limit as nat) is Some,
{
    let (pushes, list) = lemma_solution_follows(g, boxes, player, moves);
    law_exhausted_search_misses_nothing(g, boxes, player, limit, r, pushes);
}

/// No moves solve the level with fewer pushes than a solution that was found.
pub proof fn law_no_solution_has_fewer_pushes(
    g: Ground,
    boxes: Seq<bool>,
    player: int,
    limit: int,
    r: &SolverResult,
    moves: Seq<char>,
)
    requires
        is_fair(g, boxes, player),
        is_result(g, boxes, player, limit, r),
        r.solved,
        is_solution(g, boxes, player, moves),
    ensures
        r.push_count <= pushes_in(moves),
{
    let start = begin(g, boxes, player);
    if !is_goal_state(g, boxes) {
        let (k, n) = choose|k: nat, n: NodeModel| #[trigger]
            finds(g, start, limit, k, n) && r.push_count == n.cost % 0x1_0000_0000;
        let s = run(g, start, k)->0;
        let first = first_state(g, boxes, player);
        let p = Position { player: stand(g.w, player), boxes };
        let (pushes, list) = lemma_solution_follows(g, boxes, player, moves);
        let i = lemma_waits_on_the_way(g, boxes, player, k, pushes);
        assert(waits_at(g, s, first, pushes, i));
        assert(same_boxes(g, p, pushes.take(i), list.take(i)));
        let a = push_states(g, first, pushes.take(i))->0;
        let m = choose|m: NodeModel|
            s.frontier.contains(m) && #[trigger] state_of(m) == a && m.f <= total_steps(
                pushes.take(i),
            ) + estimate(g, a.boxes);
        lemma_rest_solves(g, boxes, list, i);
        lemma_run_heap(g, boxes, player, k);
        let j = choose|j: int| 0 <= j < s.frontier.len() && s.frontier[j] == m;
        lemma_root_is_least(s.frontier, j);
        assert(s.frontier.contains(s.frontier[0]));
        lemma_run_estimates(g, boxes, player, k, n);
        if is_crowded(g, boxes) {
            lemma_run_number(g, boxes, player, k, n);
            lemma_crowded_estimate(g, a.boxes);
            lemma_crowded_estimate(g, n.boxes);
        } else {
            law_estimate_is_a_lower_bound(g, open_board(g, a.boxes), list.skip(i));
            lemma_estimate_nonnegative(g, n.boxes);
        }
        assert(n.cost <= list.len());
    }
}

} // verus!
