//! Positions from which a level cannot be solved.

use vstd::prelude::*;

use crate::bitplane::set_cells;
use crate::capacity::{
    is_trap, law_closed_edge_sets_are_traps, law_general_sets_are_traps, law_overflow_is_permanent,
};
use crate::closed_edge::{closed_edge_sets, Ground};
use crate::closed_set::general_sets;
use crate::corral::{board, corralled, is_corral, stuck_beside};
use crate::dead::is_corner;
use crate::deadlock_sets::{count_set, hits, overflows, SetModel};
use crate::freeze::{freezes, frozen_group, law_frozen_group_stays, strands};
use crate::grid::{at, cell_at, lemma_cell_at, lemma_pos, neighbor, on_grid, pos, Cell};
use crate::level::all_covered;
use crate::reach::in_region;
use crate::rules::{lemma_push_box, moved, push_box, push_boxes, Board};
use crate::solver::sets_of;

verus! {

/// Number of cells of a grid whose bit is set.
pub open spec fn number(w: u8, h: u8, bits: Seq<bool>) -> nat {
    set_cells(bits, w as int, (w * h) as nat).len()
}

/// Where every goal has a box, there are at least as many boxes as goals, and more if a box is off
/// the goals.
proof fn lemma_covered(w: u8, h: u8, goals: Seq<bool>, boxes: Seq<bool>, stray: Cell, n: nat)
    requires
        all_covered(w, h, goals, boxes),
        on_grid(w, h, stray),
        at(boxes, w, stray),
        !at(goals, w, stray),
        n <= w * h,
    ensures
        set_cells(goals, w as int, n).len() + (if pos(w, stray) < n {
            1nat
        } else {
            0
        }) <= set_cells(boxes, w as int, n).len(),
    decreases n,
{
    if n > 0 {
        lemma_covered(w, h, goals, boxes, stray, (n - 1) as nat);
        lemma_cell_at(w, h, n - 1);
        lemma_pos(w, h, stray);
        assert(at(goals, w, cell_at(w, n - 1)) ==> at(boxes, w, cell_at(w, n - 1)));
    }
}

/// A level with no more boxes than goals is not solved while a box is off the goals.
pub proof fn law_stray_box_is_no_solution(
    w: u8,
    h: u8,
    goals: Seq<bool>,
    boxes: Seq<bool>,
    stray: Cell,
)
    requires
        number(w, h, boxes) <= number(w, h, goals),
        on_grid(w, h, stray),
        at(boxes, w, stray),
        !at(goals, w, stray),
    ensures
        !all_covered(w, h, goals, boxes),
{
    if all_covered(w, h, goals, boxes) {
        lemma_pos(w, h, stray);
        lemma_covered(w, h, goals, boxes, stray, (w * h) as nat);
    }
}

/// Changing a bit changes the number of set bits by that one alone.
pub proof fn lemma_number_update(w: int, bits: Seq<bool>, i: int, v: bool, n: nat)
    requires
        0 <= i < bits.len(),
        n <= bits.len(),
    ensures
        set_cells(bits.update(i, v), w, n).len() == set_cells(bits, w, n).len() + if i < n && v
            && !bits[i] {
            1int
        } else if i < n && !v && bits[i] {
            -1
        } else {
            0
        },
    decreases n,
{
    if n > 0 {
        lemma_number_update(w, bits, i, v, (n - 1) as nat);
    }
}

/// A push leaves the number of boxes as it is.
proof fn lemma_push_keeps_number(b: Board, c: Cell, d: int)
    requires
        b.wf(),
        push_box(b, c, d) is Some,
    ensures
        number(b.w, b.h, (push_box(b, c, d)->0).boxes) == number(b.w, b.h, b.boxes),
{
    lemma_push_box(b, c, d);
    let to = neighbor(b.w, b.h, c, d)->0;
    let n = (b.w * b.h) as nat;
    lemma_pos(b.w, b.h, c);
    lemma_pos(b.w, b.h, to);
    let mid = b.boxes.update(pos(b.w, c), false);
    lemma_number_update(b.w as int, b.boxes, pos(b.w, c), false, n);
    lemma_number_update(b.w as int, mid, pos(b.w, to), true, n);
    assert((push_box(b, c, d)->0).boxes == moved(b.w, b.boxes, c, to));
}

/// Pushes leave the number of boxes, the walls and the dead squares as they are.
pub proof fn law_pushes_keep_the_boxes(b: Board, pushes: Seq<(Cell, int)>)
    requires
        b.wf(),
        push_boxes(b, pushes) is Some,
    ensures
        ({
            let after = push_boxes(b, pushes)->0;
            &&& after.wf()
            &&& after == Board { boxes: after.boxes, ..b }
            &&& number(b.w, b.h, after.boxes) == number(b.w, b.h, b.boxes)
        }),
    decreases pushes.len(),
{
    if pushes.len() > 0 {
        law_pushes_keep_the_boxes(b, pushes.drop_last());
        let mid = push_boxes(b, pushes.drop_last())->0;
        lemma_push_box(mid, pushes.last().0, pushes.last().1);
        lemma_push_keeps_number(mid, pushes.last().0, pushes.last().1);
    }
}

proof fn lemma_overflow_deadlock(g: Ground, m: SetModel, b: Board, pushes: Seq<(Cell, int)>)
    requires
        is_trap(g, m),
        b.w == g.w && b.h == g.h && b.walls == g.walls && b.dead == g.dead,
        b.wf(),
        number(g.w, g.h, b.boxes) <= number(g.w, g.h, g.goals),
        count_set(m.cells, g.w, b.boxes) > m.capacity,
        push_boxes(b, pushes) is Some,
    ensures
        !all_covered(g.w, g.h, g.goals, (push_boxes(b, pushes)->0).boxes),
{
    law_overflow_is_permanent(g, m, b, pushes);
    law_pushes_keep_the_boxes(b, pushes);
    let after = push_boxes(b, pushes)->0;
    let i = choose|i: int|
        0 <= i < m.cells.len() && at(after.boxes, g.w, #[trigger] m.cells[i]) && !at(
            g.goals,
            g.w,
            m.cells[i],
        );
    law_stray_box_is_no_solution(g.w, g.h, g.goals, after.boxes, m.cells[i]);
}

/// A position where a box overflows a deadlock set is a deadlock: with no more boxes than goals,
/// no pushes that keep off the dead squares solve the level.
pub proof fn law_overflow_is_a_deadlock(
    g: Ground,
    boxes: Seq<bool>,
    c: Cell,
    pushes: Seq<(Cell, int)>,
)
    requires
        g.w * g.h <= boxes.len(),
        number(g.w, g.h, boxes) <= number(g.w, g.h, g.goals),
        overflows(sets_of(g), g.w, boxes, c),
        push_boxes(board(g, boxes), pushes) is Some,
    ensures
        !all_covered(g.w, g.h, g.goals, (push_boxes(board(g, boxes), pushes)->0).boxes),
{
    let sets = sets_of(g);
    let i = choose|i: int|
        0 <= i < sets.len() && hits((#[trigger] sets[i]).cells, g.w, pos(g.w, c)) > 0 && count_set(
            sets[i].cells,
            g.w,
            boxes,
        ) > sets[i].capacity;
    let edges = closed_edge_sets(g).len() as int;
    if i < edges {
        law_closed_edge_sets_are_traps(g, i);
        assert(sets[i] == closed_edge_sets(g)[i]);
    } else {
        law_general_sets_are_traps(g, i - edges);
        assert(sets[i] == general_sets(g, g.w * g.h)[i - edges]);
    }
    lemma_overflow_deadlock(g, sets[i], board(g, boxes), pushes);
}

/// A position with a frozen box off the goals is a deadlock: with no more boxes than goals in all,
/// no pushes that keep off the dead squares solve the level.
pub proof fn law_frozen_group_is_a_deadlock(
    b: Board,
    goals: Seq<bool>,
    f: spec_fn(Cell) -> bool,
    c: Cell,
    pushes: Seq<(Cell, int)>,
)
    requires
        frozen_group(b, f),
        b.wf(),
        number(b.w, b.h, b.boxes) <= number(b.w, b.h, goals),
        on_grid(b.w, b.h, c),
        f(c),
        !at(goals, b.w, c),
        push_boxes(b, pushes) is Some,
    ensures
        !all_covered(b.w, b.h, goals, (push_boxes(b, pushes)->0).boxes),
{
    law_frozen_group_stays(b, f, pushes);
    law_pushes_keep_the_boxes(b, pushes);
    law_stray_box_is_no_solution(b.w, b.h, goals, (push_boxes(b, pushes)->0).boxes, c);
}

/// A position with a box in a corner without a goal is a deadlock: with no more boxes than goals,
/// no pushes solve the level.
pub proof fn law_box_in_corner_is_a_deadlock(
    b: Board,
    goals: Seq<bool>,
    c: Cell,
    pushes: Seq<(Cell, int)>,
)
    requires
        b.wf(),
        number(b.w, b.h, b.boxes) <= number(b.w, b.h, goals),
        on_grid(b.w, b.h, c),
        at(b.boxes, b.w, c),
        is_corner(b.w, b.h, b.walls, goals, c),
        push_boxes(b, pushes) is Some,
    ensures
        !all_covered(b.w, b.h, goals, (push_boxes(b, pushes)->0).boxes),
{
    law_frozen_group_is_a_deadlock(b, goals, |m: Cell| m == c, c, pushes);
}

/// Some frozen group has a box off the goals.
pub open spec fn has_stray_group(b: Board, goals: Seq<bool>) -> bool {
    exists|f: spec_fn(Cell) -> bool, c: Cell| #[trigger] strays(b, goals, f, c)
}

/// `c` is in the frozen group `f` and off the goals.
pub open spec fn strays(b: Board, goals: Seq<bool>, f: spec_fn(Cell) -> bool, c: Cell) -> bool {
    &&& frozen_group(b, f)
    &&& on_grid(b.w, b.h, c)
    &&& f(c)
    &&& !at(goals, b.w, c)
}

/// The freeze check invents no deadlock: what it reports is a frozen group with a box off the goals.
pub proof fn law_reported_group_is_frozen(b: Board, goals: Seq<bool>, c: Cell)
    requires
        freezes(b, goals, c),
    ensures
        has_stray_group(b, goals),
{
    let (f, m) = choose|f: spec_fn(Cell) -> bool, m: Cell| #[trigger] strands(b, goals, f, c, m);
    assert(strays(b, goals, f, m));
}

/// A position that the freeze check reports is a deadlock: with no more boxes than goals, no pushes
/// that keep off the dead squares solve the level.
pub proof fn law_reported_group_is_a_deadlock(
    b: Board,
    goals: Seq<bool>,
    c: Cell,
    pushes: Seq<(Cell, int)>,
)
    requires
        b.wf(),
        number(b.w, b.h, b.boxes) <= number(b.w, b.h, goals),
        freezes(b, goals, c),
        push_boxes(b, pushes) is Some,
    ensures
        !all_covered(b.w, b.h, goals, (push_boxes(b, pushes)->0).boxes),
{
    law_reported_group_is_frozen(b, goals, c);
    let (f, m) = choose|f: spec_fn(Cell) -> bool, m: Cell| #[trigger] strays(b, goals, f, m);
    law_frozen_group_is_a_deadlock(b, goals, f, m, pushes);
}

/// A position with a corral is a deadlock: with no more boxes than goals, no pushes that keep off
/// the dead squares solve the level.
pub proof fn law_corral_is_a_deadlock(
    g: Ground,
    boxes: Seq<bool>,
    player: Cell,
    pushes: Seq<(Cell, int)>,
)
    requires
        g.w * g.h <= boxes.len(),
        number(g.w, g.h, boxes) <= number(g.w, g.h, g.goals),
        corralled(g, boxes, player),
        push_boxes(board(g, boxes), pushes) is Some,
    ensures
        !all_covered(g.w, g.h, g.goals, (push_boxes(board(g, boxes), pushes)->0).boxes),
{
    let b = board(g, boxes);
    let seed = choose|seed: Cell| #[trigger] is_corral(g, boxes, player, seed);
    let (p, d) = choose|p: Cell, d: int|
        0 <= d < 4 && on_grid(g.w, g.h, p) && in_region(g.w, g.h, g.walls, boxes, seed, p)
            && #[trigger] stuck_beside(g, boxes, p, d);
    let c = neighbor(g.w, g.h, p, d)->0;
    if overflows(sets_of(g), g.w, boxes, c) {
        law_overflow_is_a_deadlock(g, boxes, c, pushes);
    } else {
        law_reported_group_is_a_deadlock(b, g.goals, c, pushes);
    }
}

} // verus!
