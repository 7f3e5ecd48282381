//! Boxes that block each other for good.
//!
//! A box is frozen when it is blocked along both axes. It is blocked along an axis by a wall on
//! either side, by dead squares on both sides, or by a box beside it that is frozen itself. The
//! check takes all boxes that are linked to one by chains of adjacent boxes, and drops those that
//! are not blocked by what is left until no more are dropped.

use vstd::prelude::*;

use crate::bfs::{
    discovers, explored, lemma_advance, lemma_begin, lemma_discover, lemma_discovers,
    lemma_follow_push, lemma_skip, Exploration,
};
use crate::bitplane::BitPlane;
use crate::closed_set::has_cell;
use crate::dead::is_shut;
use crate::deadlock::{lemma_number_update, number};
use crate::grid::{
    at, follow, lemma_pos, marked, neighbor, on_grid, pos, reaches, shut, step_from, unmarked, Cell,
    Step,
};
use crate::reach::{fits, lemma_cell_stored, lemma_distinct_cells, lemma_update_cell};
use crate::rules::{lemma_push_box, push_box, push_boxes, Board};

verus! {

/// The lower of the two directions along an axis.
pub open spec fn axis_dir(horizontal: bool) -> int {
    if horizontal {
        2
    } else {
        0
    }
}

/// Both cells beside `c` along an axis are dead squares.
pub open spec fn between_dead(b: Board, c: Cell, horizontal: bool) -> bool {
    let d = axis_dir(horizontal);
    match (neighbor(b.w, b.h, c, d), neighbor(b.w, b.h, c, d + 1)) {
        (Some(lo), Some(hi)) => {
            &&& !at(b.walls, b.w, lo) && !at(b.walls, b.w, hi)
            &&& at(b.dead, b.w, lo) && at(b.dead, b.w, hi)
        },
        _ => false,
    }
}

/// A member of the group is beside `c` in direction `d`.
pub open spec fn member_beside(b: Board, f: spec_fn(Cell) -> bool, c: Cell, d: int) -> bool {
    match neighbor(b.w, b.h, c, d) {
        Some(n) => !at(b.walls, b.w, n) && f(n),
        None => false,
    }
}

/// `c` is blocked along an axis by walls, by dead squares, or by a member of the group.
pub open spec fn blocked_in(b: Board, f: spec_fn(Cell) -> bool, c: Cell, horizontal: bool) -> bool {
    let d = axis_dir(horizontal);
    ||| shut(b.w, b.h, b.walls, c, d)
    ||| shut(b.w, b.h, b.walls, c, d + 1)
    ||| between_dead(b, c, horizontal)
    ||| member_beside(b, f, c, d)
    ||| member_beside(b, f, c, d + 1)
}

/// A group of boxes each of which is blocked along both axes.
pub open spec fn frozen_group(b: Board, f: spec_fn(Cell) -> bool) -> bool {
    forall|c: Cell|
        on_grid(b.w, b.h, c) && #[trigger] f(c) ==> at(b.boxes, b.w, c) && blocked_in(b, f, c, true)
            && blocked_in(b, f, c, false)
}

/// Steps from a cell to a box beside it.
pub open spec fn box_step(b: Board) -> Step {
    |c: Cell, d: int|
        match neighbor(b.w, b.h, c, d) {
            Some(n) => if !at(b.walls, b.w, n) && at(b.boxes, b.w, n) {
                Some(n)
            } else {
                None
            },
            None => None,
        }
}

/// The group is frozen, holds `c`, and holds `m` off the goals, to which a chain of boxes leads.
pub open spec fn strands(
    b: Board,
    goals: Seq<bool>,
    f: spec_fn(Cell) -> bool,
    c: Cell,
    m: Cell,
) -> bool {
    &&& frozen_group(b, f)
    &&& f(c)
    &&& on_grid(b.w, b.h, m)
    &&& f(m)
    &&& !at(goals, b.w, m)
    &&& reaches(box_step(b), c, m)
}

/// The box on `c` is in a frozen group with a box that is not on a goal.
pub open spec fn freezes(b: Board, goals: Seq<bool>, c: Cell) -> bool {
    exists|f: spec_fn(Cell) -> bool, m: Cell| #[trigger] strands(b, goals, f, c, m)
}

/// The board that three planes describe.
pub open spec fn board_of(w: u8, h: u8, walls: &BitPlane, boxes: &BitPlane, dead: &BitPlane) -> Board {
    Board { w, h, walls: walls@, boxes: boxes@, dead: dead@ }
}

/// The cells whose bit is set.
spec fn held(bits: Seq<bool>, w: u8) -> spec_fn(Cell) -> bool {
    |c: Cell| at(bits, w, c)
}

/// The box beside a cell in direction `d`.
fn box_beside(
    x: u8,
    y: u8,
    d: usize,
    boxes: &BitPlane,
    walls: &BitPlane,
    Ghost(b): Ghost<Board>,
) -> (r: Option<(u8, u8)>)
    requires
        walls.wf(),
        fits(boxes, walls.width, walls.height),
        b.w == walls.width && b.h == walls.height && b.walls == walls@ && b.boxes == boxes@,
        on_grid(walls.width, walls.height, (x, y)),
        d < 4,
    ensures
        r == box_step(b)((x, y), d as int),
        r matches Some(n) ==> on_grid(walls.width, walls.height, n),
{
    match step_from(walls.width, walls.height, x, y, d) {
        Some((nx, ny)) => {
            proof {
                lemma_cell_stored(walls, walls.width, walls.height, (nx, ny));
                lemma_cell_stored(boxes, walls.width, walls.height, (nx, ny));
            }
            if !walls.get(nx, ny) && boxes.get(nx, ny) {
                Some((nx, ny))
            } else {
                None
            }
        },
        None => None,
    }
}

/// A cell and the boxes that chains of boxes lead to from there.
fn linked_boxes(sx: u8, sy: u8, boxes: &BitPlane, walls: &BitPlane, Ghost(b): Ghost<Board>) -> (cells:
    Vec<(u8, u8)>)
    requires
        walls.wf(),
        fits(boxes, walls.width, walls.height),
        b.w == walls.width && b.h == walls.height && b.walls == walls@ && b.boxes == boxes@,
        on_grid(walls.width, walls.height, (sx, sy)),
    ensures
        forall|c: Cell| cells@.contains(c) <==> #[trigger] reaches(box_step(b), (sx, sy), c),
        forall|i: int| 0 <= i < cells@.len() ==> on_grid(b.w, b.h, #[trigger] cells@[i]),
{
    let ghost start: Cell = (sx, sy);
    let ghost step: Step = box_step(b);
    let mut cells: Vec<(u8, u8)> = Vec::new();
    cells.push((sx, sy));
    let mut head: usize = 0;
    let ghost mut x = Exploration::begin(start);
    proof {
        lemma_begin(step, start);
        assert(cells@ =~= x.order);
    }
    while head < cells.len()
        invariant
            walls.wf(),
            fits(boxes, walls.width, walls.height),
            b.w == walls.width && b.h == walls.height && b.walls == walls@ && b.boxes == boxes@,
            step == box_step(b),
            start == (sx, sy),
            cells@ == x.order,
            head <= cells@.len(),
            x.inv(step, start, head as int, 0),
            forall|i: int| 0 <= i < cells@.len() ==> on_grid(b.w, b.h, #[trigger] cells@[i]),
        decreases b.w * b.h - head,
    {
        let (px, py) = cells[head];
        let mut d: usize = 0;
        while d < 4
            invariant
                d <= 4,
                walls.wf(),
                fits(boxes, walls.width, walls.height),
                b.w == walls.width && b.h == walls.height && b.walls == walls@ && b.boxes == boxes@,
                step == box_step(b),
                start == (sx, sy),
                cells@ == x.order,
                head < cells@.len(),
                cells@[head as int] == (px, py),
                x.inv(step, start, head as int, d as int),
                forall|i: int| 0 <= i < cells@.len() ==> on_grid(b.w, b.h, #[trigger] cells@[i]),
            decreases 4 - d,
        {
            assert(on_grid(b.w, b.h, cells@[head as int]));
            let next = box_beside(px, py, d, boxes, walls, Ghost(b));
            let mut fresh = false;
            if let Some((tx, ty)) = next {
                if !has_cell(&cells, tx, ty) {
                    fresh = true;
                    proof {
                        lemma_discover(x, step, start, head as int, d as int, (tx, ty));
                        x = x.add((tx, ty), head as int, d as int);
                    }
                    cells.push((tx, ty));
                }
            }
            proof {
                if !fresh {
                    lemma_skip(x, step, start, head as int, d as int);
                }
            }
            d += 1;
        }
        proof {
            lemma_advance(x, step, start, head as int);
            lemma_distinct_cells(b.w, b.h, x.order);
        }
        head += 1;
    }
    proof {
        assert(explored(x.order, x.paths) == x);
        assert(discovers(step, start, cells@));
        lemma_discovers(step, start, cells@);
    }
    cells
}

/// Whether both cells beside `(x, y)` along an axis are dead squares.
fn is_between_dead(
    x: u8,
    y: u8,
    d: usize,
    walls: &BitPlane,
    dead: &BitPlane,
    Ghost(b): Ghost<Board>,
) -> (r: bool)
    requires
        walls.wf(),
        fits(dead, walls.width, walls.height),
        b.w == walls.width && b.h == walls.height && b.walls == walls@ && b.dead == dead@,
        on_grid(walls.width, walls.height, (x, y)),
        d == 0 || d == 2,
    ensures
        r == between_dead(b, (x, y), d == 2),
{
    let (width, height) = (walls.width, walls.height);
    match (step_from(width, height, x, y, d), step_from(width, height, x, y, d + 1)) {
        (Some((lx, ly)), Some((hx, hy))) => {
            proof {
                lemma_cell_stored(walls, width, height, (lx, ly));
                lemma_cell_stored(walls, width, height, (hx, hy));
                lemma_cell_stored(dead, width, height, (lx, ly));
                lemma_cell_stored(dead, width, height, (hx, hy));
            }
            !walls.get(lx, ly) && !walls.get(hx, hy) && dead.get(lx, ly) && dead.get(hx, hy)
        },
        _ => false,
    }
}

/// Whether the box at `(x, y)` cannot escape along an axis, left and right when `horizontal`, up
/// and down otherwise, while the boxes in `standing` stay where they are.
fn blocked_axis(
    x: u8,
    y: u8,
    horizontal: bool,
    standing: &BitPlane,
    walls: &BitPlane,
    dead: &BitPlane,
    Ghost(b): Ghost<Board>,
) -> (r: bool)
    requires
        walls.wf(),
        fits(standing, walls.width, walls.height),
        fits(dead, walls.width, walls.height),
        b.w == walls.width && b.h == walls.height && b.walls == walls@ && b.dead == dead@,
        on_grid(walls.width, walls.height, (x, y)),
    ensures
        r == blocked_in(b, held(standing@, b.w), (x, y), horizontal),
{
    let (width, height) = (walls.width, walls.height);
    let d: usize = if horizontal {
        2
    } else {
        0
    };
    let ghost now = Board { boxes: standing@, ..b };
    is_shut(walls, width, height, x, y, d) || is_shut(walls, width, height, x, y, d + 1)
        || is_between_dead(x, y, d, walls, dead, Ghost(b)) || box_beside(
        x,
        y,
        d,
        standing,
        walls,
        Ghost(now),
    ).is_some() || box_beside(x, y, d + 1, standing, walls, Ghost(now)).is_some()
}

/// Every frozen group stands, as far as it is among the cells.
spec fn keeps_groups(b: Board, cells: Seq<Cell>, standing: Seq<bool>) -> bool {
    forall|f: spec_fn(Cell) -> bool, m: Cell|
        frozen_group(b, f) && cells.contains(m) && #[trigger] f(m) ==> at(standing, b.w, m)
}

/// Only boxes of the list stand.
spec fn stands_within(b: Board, cells: Seq<Cell>, standing: Seq<bool>) -> bool {
    forall|m: Cell|
        on_grid(b.w, b.h, m) && #[trigger] at(standing, b.w, m) ==> cells.contains(m) && at(
            b.boxes,
            b.w,
            m,
        )
}

/// The cells are linked: a box beside one of them is one of them.
spec fn is_linked(b: Board, cells: Seq<Cell>) -> bool {
    forall|c: Cell, d: int|
        cells.contains(c) && 0 <= d < 4 ==> match #[trigger] box_step(b)(c, d) {
            Some(n) => cells.contains(n),
            None => true,
        }
}

/// A box that is not blocked by those that stand is in no frozen group.
proof fn lemma_thaws(
    b: Board,
    cells: Seq<Cell>,
    standing: Seq<bool>,
    c: Cell,
    f: spec_fn(Cell) -> bool,
)
    requires
        is_linked(b, cells),
        keeps_groups(b, cells, standing),
        cells.contains(c),
        on_grid(b.w, b.h, c),
        !blocked_in(b, held(standing, b.w), c, true) || !blocked_in(b, held(standing, b.w), c, false),
        frozen_group(b, f),
    ensures
        !f(c),
{
    if f(c) {
        assert forall|d: int| 0 <= d < 4 && #[trigger] member_beside(
            b,
            f,
            c,
            d,
        ) implies member_beside(b, held(standing, b.w), c, d) by {
            let n = neighbor(b.w, b.h, c, d)->0;
            assert(on_grid(b.w, b.h, n) && f(n));
            assert(box_step(b)(c, d) == Some(n));
            assert(cells.contains(n));
            assert(at(standing, b.w, n));
        }
        assert(blocked_in(b, f, c, true) && blocked_in(b, f, c, false));
        assert(member_beside(b, f, c, 0) ==> member_beside(b, held(standing, b.w), c, 0));
        assert(member_beside(b, f, c, 1) ==> member_beside(b, held(standing, b.w), c, 1));
        assert(member_beside(b, f, c, 2) ==> member_beside(b, held(standing, b.w), c, 2));
        assert(member_beside(b, f, c, 3) ==> member_beside(b, held(standing, b.w), c, 3));
    }
}

/// Drop the boxes of a list that are not blocked by those that stand, in one pass. Gives whether
/// one was dropped.
fn thaw_once(
    cells: &Vec<(u8, u8)>,
    standing: &mut BitPlane,
    walls: &BitPlane,
    dead: &BitPlane,
    Ghost(b): Ghost<Board>,
) -> (changed: bool)
    requires
        walls.wf(),
        fits(old(standing), walls.width, walls.height),
        fits(dead, walls.width, walls.height),
        b.w == walls.width && b.h == walls.height && b.walls == walls@ && b.dead == dead@,
        forall|i: int| 0 <= i < cells@.len() ==> on_grid(b.w, b.h, #[trigger] cells@[i]),
        is_linked(b, cells@),
        keeps_groups(b, cells@, old(standing)@),
        stands_within(b, cells@, old(standing)@),
    ensures
        fits(final(standing), walls.width, walls.height),
        keeps_groups(b, cells@, final(standing)@),
        stands_within(b, cells@, final(standing)@),
        changed ==> number(b.w, b.h, final(standing)@) < number(b.w, b.h, old(standing)@),
        !changed ==> final(standing)@ == old(standing)@,
        !changed ==> forall|i: int|
            0 <= i < cells@.len() && at(final(standing)@, b.w, #[trigger] cells@[i]) ==> blocked_in(
                b,
                held(final(standing)@, b.w),
                cells@[i],
                true,
            ) && blocked_in(b, held(final(standing)@, b.w), cells@[i], false),
{
    let mut changed = false;
    let mut k: usize = 0;
    while k < cells.len()
        invariant
            k <= cells@.len(),
            walls.wf(),
            fits(standing, walls.width, walls.height),
            fits(dead, walls.width, walls.height),
            b.w == walls.width && b.h == walls.height && b.walls == walls@ && b.dead == dead@,
            forall|i: int| 0 <= i < cells@.len() ==> on_grid(b.w, b.h, #[trigger] cells@[i]),
            is_linked(b, cells@),
            keeps_groups(b, cells@, standing@),
            stands_within(b, cells@, standing@),
            changed ==> number(b.w, b.h, standing@) < number(b.w, b.h, old(standing)@),
            !changed ==> standing@ == old(standing)@,
            !changed ==> forall|i: int|
                0 <= i < k && at(standing@, b.w, #[trigger] cells@[i]) ==> blocked_in(
                    b,
                    held(standing@, b.w),
                    cells@[i],
                    true,
                ) && blocked_in(b, held(standing@, b.w), cells@[i], false),
        decreases cells@.len() - k,
    {
        let (x, y) = cells[k];
        let ghost c: Cell = (x, y);
        proof {
            assert(on_grid(b.w, b.h, cells@[k as int]));
            lemma_cell_stored(standing, b.w, b.h, c);
        }
        if standing.get(x, y) && !(blocked_axis(x, y, true, standing, walls, dead, Ghost(b))
            && blocked_axis(x, y, false, standing, walls, dead, Ghost(b))) {
            let ghost before = standing@;
            proof {
                assert(cells@.contains(c));
                lemma_pos(b.w, b.h, c);
                lemma_number_update(b.w as int, before, pos(b.w, c), false, (b.w * b.h) as nat);
                let after = before.update(pos(b.w, c), false);
                assert forall|f: spec_fn(Cell) -> bool, m: Cell|
                    frozen_group(b, f) && cells@.contains(m) && #[trigger] f(m) implies at(
                    after,
                    b.w,
                    m,
                ) by {
                    lemma_thaws(b, cells@, before, c, f);
                    let i = choose|i: int| 0 <= i < cells@.len() && cells@[i] == m;
                    assert(on_grid(b.w, b.h, cells@[i]));
                    lemma_update_cell(b.w, b.h, before, c, m, false);
                }
                assert forall|m: Cell| on_grid(b.w, b.h, m) && #[trigger] at(
                    after,
                    b.w,
                    m,
                ) implies cells@.contains(m) && at(b.boxes, b.w, m) by {
                    lemma_update_cell(b.w, b.h, before, c, m, false);
                    assert(at(before, b.w, m));
                }
            }
            standing.clear(x, y);
            changed = true;
        }
        k += 1;
    }
    changed
}

/// The boxes of a list in a plane.
fn plane_of(cells: &Vec<(u8, u8)>, boxes: &BitPlane) -> (standing: BitPlane)
    requires
        boxes.wf(),
        forall|i: int|
            0 <= i < cells@.len() ==> on_grid(boxes.width, boxes.height, #[trigger] cells@[i]),
    ensures
        fits(&standing, boxes.width, boxes.height),
        forall|m: Cell|
            on_grid(boxes.width, boxes.height, m) ==> (#[trigger] at(standing@, boxes.width, m)
                <==> cells@.contains(m) && at(boxes@, boxes.width, m)),
{
    let (w, h) = (boxes.width, boxes.height);
    let mut standing = BitPlane::new(w, h);
    proof {
        assert forall|m: Cell| on_grid(w, h, m) implies !(#[trigger] at(standing@, w, m)) by {
            lemma_cell_stored(&standing, w, h, m);
        }
    }
    let mut k: usize = 0;
    while k < cells.len()
        invariant
            k <= cells@.len(),
            boxes.wf(),
            w == boxes.width,
            h == boxes.height,
            forall|i: int| 0 <= i < cells@.len() ==> on_grid(w, h, #[trigger] cells@[i]),
            fits(&standing, w, h),
            forall|m: Cell|
                on_grid(w, h, m) ==> (#[trigger] at(standing@, w, m) <==> cells@.take(
                    k as int,
                ).contains(m) && at(boxes@, w, m)),
        decreases cells@.len() - k,
    {
        let (x, y) = cells[k];
        let ghost c: Cell = (x, y);
        let ghost before = standing@;
        proof {
            assert(on_grid(w, h, cells@[k as int]));
            lemma_cell_stored(boxes, w, h, c);
            lemma_cell_stored(&standing, w, h, c);
        }
        if boxes.get(x, y) {
            standing.set(x, y);
        }
        proof {
            assert forall|m: Cell| on_grid(w, h, m) implies (#[trigger] at(standing@, w, m)
                <==> cells@.take(k + 1).contains(m) && at(boxes@, w, m)) by {
                lemma_update_cell(w, h, before, c, m, true);
                assert(cells@.take(k + 1) =~= cells@.take(k as int).push(c));
                if cells@.take(k as int).contains(m) {
                    let i = choose|i: int| 0 <= i < k && cells@.take(k as int)[i] == m;
                    assert(cells@.take(k + 1)[i] == m);
                }
                assert(cells@.take(k + 1)[k as int] == c);
            }
        }
        k += 1;
    }
    assert(cells@.take(k as int) =~= cells@);
    standing
}

/// Whether a box at `(to_x, to_y)` is in a frozen group with at least one box that is not on a
/// goal. `boxes` already holds the box.
pub fn is_freeze_deadlock(
    to_x: u8,
    to_y: u8,
    boxes: &BitPlane,
    walls: &BitPlane,
    goals: &BitPlane,
    dead: &BitPlane,
) -> (r: bool)
    requires
        walls.wf(),
        fits(boxes, walls.width, walls.height),
        fits(goals, walls.width, walls.height),
        fits(dead, walls.width, walls.height),
        on_grid(walls.width, walls.height, (to_x, to_y)),
    ensures
        r == freezes(
            board_of(walls.width, walls.height, walls, boxes, dead),
            goals@,
            (to_x, to_y),
        ),
{
    let (w, h) = (walls.width, walls.height);
    let ghost b = board_of(w, h, walls, boxes, dead);
    let ghost c: Cell = (to_x, to_y);
    let cells = linked_boxes(to_x, to_y, boxes, walls, Ghost(b));
    let mut standing = plane_of(&cells, boxes);
    proof {
        lemma_links(b, c, cells@);
        assert forall|f: spec_fn(Cell) -> bool, m: Cell|
            frozen_group(b, f) && cells@.contains(m) && #[trigger] f(m) implies at(
            standing@,
            b.w,
            m,
        ) by {
            let i = choose|i: int| 0 <= i < cells@.len() && cells@[i] == m;
            assert(on_grid(b.w, b.h, cells@[i]));
        }
    }
    let mut changed = true;
    while changed
        invariant
            walls.wf(),
            w == walls.width,
            h == walls.height,
            fits(&standing, w, h),
            fits(dead, w, h),
            b.w == w && b.h == h && b.walls == walls@ && b.dead == dead@,
            forall|i: int| 0 <= i < cells@.len() ==> on_grid(b.w, b.h, #[trigger] cells@[i]),
            is_linked(b, cells@),
            keeps_groups(b, cells@, standing@),
            stands_within(b, cells@, standing@),
            !changed ==> forall|i: int|
                0 <= i < cells@.len() && at(standing@, b.w, #[trigger] cells@[i]) ==> blocked_in(
                    b,
                    held(standing@, b.w),
                    cells@[i],
                    true,
                ) && blocked_in(b, held(standing@, b.w), cells@[i], false),
        decreases
                (if changed {
                    1int
                } else {
                    0
                }) + number(b.w, b.h, standing@),
    {
        changed = thaw_once(&cells, &mut standing, walls, dead, Ghost(b));
    }
    let ghost f = held(standing@, b.w);
    proof {
        assert forall|m: Cell| on_grid(b.w, b.h, m) && #[trigger] f(m) implies at(
            b.boxes,
            b.w,
            m,
        ) && blocked_in(b, f, m, true) && blocked_in(b, f, m, false) by {
            assert(at(standing@, b.w, m));
            let i = choose|i: int| 0 <= i < cells@.len() && cells@[i] == m;
            assert(at(standing@, b.w, cells@[i]));
        }
        assert(frozen_group(b, f));
        let none: Seq<int> = Seq::empty();
        assert(follow(box_step(b), c, none) == Some(c));
        assert(reaches(box_step(b), c, c));
        assert(cells@.contains(c));
        lemma_cell_stored(&standing, w, h, c);
    }
    if !standing.get(to_x, to_y) {
        proof {
            if freezes(b, goals@, c) {
                let (e, m) = choose|e: spec_fn(Cell) -> bool, m: Cell| #[trigger]
                    strands(b, goals@, e, c, m);
                assert(e(c));
            }
        }
        return false;
    }
    let mut k: usize = 0;
    while k < cells.len()
        invariant
            k <= cells@.len(),
            w == b.w,
            h == b.h,
            fits(&standing, w, h),
            fits(goals, w, h),
            f == held(standing@, b.w),
            frozen_group(b, f),
            f(c),
            forall|i: int| 0 <= i < cells@.len() ==> on_grid(b.w, b.h, #[trigger] cells@[i]),
            forall|m: Cell| cells@.contains(m) <==> #[trigger] reaches(box_step(b), c, m),
            forall|i: int|
                0 <= i < k && at(standing@, b.w, #[trigger] cells@[i]) ==> at(
                    goals@,
                    b.w,
                    cells@[i],
                ),
            b == board_of(walls.width, walls.height, walls, boxes, dead),
            c == (to_x, to_y),
        decreases cells@.len() - k,
    {
        let (x, y) = cells[k];
        proof {
            assert(on_grid(b.w, b.h, cells@[k as int]));
            lemma_cell_stored(&standing, w, h, (x, y));
            lemma_cell_stored(goals, w, h, (x, y));
        }
        if standing.get(x, y) && !goals.get(x, y) {
            proof {
                assert(cells@.contains(cells@[k as int]));
                assert(reaches(box_step(b), c, (x, y)));
                assert(strands(b, goals@, f, c, (x, y)));
            }
            return true;
        }
        k += 1;
    }
    proof {
        if freezes(b, goals@, c) {
            let (e, m) = choose|e: spec_fn(Cell) -> bool, m: Cell| #[trigger]
                strands(b, goals@, e, c, m);
            assert(reaches(box_step(b), c, m));
            let i = choose|i: int| 0 <= i < cells@.len() && cells@[i] == m;
            assert(e(m));
            assert(at(standing@, b.w, cells@[i]));
        }
    }
    false
}

/// What chains of boxes lead to is linked.
proof fn lemma_links(b: Board, c: Cell, cells: Seq<Cell>)
    requires
        forall|m: Cell| cells.contains(m) <==> #[trigger] reaches(box_step(b), c, m),
    ensures
        is_linked(b, cells),
{
    let step = box_step(b);
    assert forall|m: Cell, d: int| cells.contains(m) && 0 <= d < 4 implies match #[trigger] step(
        m,
        d,
    ) {
        Some(n) => cells.contains(n),
        None => true,
    } by {
        if let Some(n) = step(m, d) {
            assert(reaches(step, c, m));
            let dirs = choose|dirs: Seq<int>| #[trigger] follow(step, c, dirs) == Some(m);
            lemma_follow_push(step, c, dirs, d);
            assert(follow(step, c, dirs.push(d)) == Some(n));
            assert(reaches(step, c, n));
        }
    }
}

// ── Laws ──────────────────────────────────────────────────────────────────

/// No frozen group is missed: a member of one that is not on a goal is reported.
pub proof fn law_frozen_group_is_reported(
    b: Board,
    goals: Seq<bool>,
    f: spec_fn(Cell) -> bool,
    c: Cell,
)
    requires
        frozen_group(b, f),
        on_grid(b.w, b.h, c),
        f(c),
        !at(goals, b.w, c),
    ensures
        freezes(b, goals, c),
{
    let none: Seq<int> = Seq::empty();
    assert(follow(box_step(b), c, none) == Some(c));
    assert(strands(b, goals, f, c, c));
}

/// A box in a corner that is not on a goal is reported.
pub proof fn law_corner_box_is_reported(b: Board, goals: Seq<bool>, c: Cell)
    requires
        on_grid(b.w, b.h, c),
        at(b.boxes, b.w, c),
        !at(goals, b.w, c),
        shut(b.w, b.h, b.walls, c, 0) || shut(b.w, b.h, b.walls, c, 1),
        shut(b.w, b.h, b.walls, c, 2) || shut(b.w, b.h, b.walls, c, 3),
    ensures
        freezes(b, goals, c),
{
    law_frozen_group_is_reported(b, goals, |n: Cell| n == c, c);
}

/// Where every box is on a goal, nothing is reported.
pub proof fn law_boxes_on_goals_are_fine(b: Board, goals: Seq<bool>, c: Cell)
    requires
        forall|i: int| 0 <= i < b.w * b.h && #[trigger] b.boxes[i] ==> goals[i],
    ensures
        !freezes(b, goals, c),
{
    if freezes(b, goals, c) {
        let (f, m) = choose|f: spec_fn(Cell) -> bool, m: Cell| #[trigger]
            strands(b, goals, f, c, m);
        assert(f(m));
        lemma_pos(b.w, b.h, m);
        assert(b.boxes[pos(b.w, m)]);
    }
}

/// A frozen group is still one after a push, which moves none of its boxes.
proof fn lemma_frozen_after_push(b: Board, f: spec_fn(Cell) -> bool, c: Cell, d: int)
    requires
        frozen_group(b, f),
        b.wf(),
        push_box(b, c, d) is Some,
    ensures
        frozen_group(push_box(b, c, d)->0, f),
{
    lemma_push_box(b, c, d);
    let after = push_box(b, c, d)->0;
    if f(c) {
        assert(blocked_in(b, f, c, true) && blocked_in(b, f, c, false));
        assert forall|e: int| 0 <= e < 4 && member_beside(b, f, c, e) implies at(
            b.boxes,
            b.w,
            #[trigger] neighbor(b.w, b.h, c, e)->0,
        ) by {
            assert(f(neighbor(b.w, b.h, c, e)->0));
        }
        let lo = axis_dir(d >= 2);
        assert(d == lo || d == lo + 1);
        assert(blocked_in(b, f, c, d >= 2));
        assert(member_beside(b, f, c, lo) ==> at(b.boxes, b.w, neighbor(b.w, b.h, c, lo)->0));
        assert(member_beside(b, f, c, lo + 1) ==> at(b.boxes, b.w, neighbor(b.w, b.h, c, lo + 1)->0));
        assert(false);
    }
    assert forall|m: Cell| on_grid(b.w, b.h, m) && #[trigger] f(m) implies at(
        after.boxes,
        b.w,
        m,
    ) && blocked_in(after, f, m, true) && blocked_in(after, f, m, false) by {
        assert(at(b.boxes, b.w, m));
        assert(blocked_in(b, f, m, true) && blocked_in(b, f, m, false));
        assert(between_dead(after, m, true) == between_dead(b, m, true));
        assert(between_dead(after, m, false) == between_dead(b, m, false));
    }
}

/// No pushes that keep off the dead squares ever move a box of a frozen group.
pub proof fn law_frozen_group_stays(b: Board, f: spec_fn(Cell) -> bool, pushes: Seq<(Cell, int)>)
    requires
        frozen_group(b, f),
        b.wf(),
        push_boxes(b, pushes) is Some,
    ensures
        forall|c: Cell|
            on_grid(b.w, b.h, c) && #[trigger] f(c) ==> at((push_boxes(b, pushes)->0).boxes, b.w, c),
{
    lemma_frozen_after_pushes(b, f, pushes);
    let after = push_boxes(b, pushes)->0;
    assert forall|c: Cell| on_grid(b.w, b.h, c) && #[trigger] f(c) implies at(
        after.boxes,
        b.w,
        c,
    ) by {
        assert(on_grid(after.w, after.h, c));
    }
}

proof fn lemma_frozen_after_pushes(b: Board, f: spec_fn(Cell) -> bool, pushes: Seq<(Cell, int)>)
    requires
        frozen_group(b, f),
        b.wf(),
        push_boxes(b, pushes) is Some,
    ensures
        frozen_group(push_boxes(b, pushes)->0, f),
        (push_boxes(b, pushes)->0).wf(),
        (push_boxes(b, pushes)->0).w == b.w,
        (push_boxes(b, pushes)->0).h == b.h,
    decreases pushes.len(),
{
    if pushes.len() > 0 {
        lemma_frozen_after_pushes(b, f, pushes.drop_last());
        let mid = push_boxes(b, pushes.drop_last())->0;
        lemma_push_box(mid, pushes.last().0, pushes.last().1);
        lemma_frozen_after_push(mid, f, pushes.last().0, pushes.last().1);
    }
}

/// Four cells in a square, each a wall or a box, never open again: a box among them that is not on a
/// goal is reported.
pub proof fn law_square_of_boxes_is_reported(b: Board, goals: Seq<bool>, x: u8, y: u8, c: Cell)
    requires
        x + 1 < b.w,
        y + 1 < b.h,
        at(b.walls, b.w, (x, y)) || at(b.boxes, b.w, (x, y)),
        at(b.walls, b.w, ((x + 1) as u8, y)) || at(b.boxes, b.w, ((x + 1) as u8, y)),
        at(b.walls, b.w, (x, (y + 1) as u8)) || at(b.boxes, b.w, (x, (y + 1) as u8)),
        at(b.walls, b.w, ((x + 1) as u8, (y + 1) as u8)) || at(
            b.boxes,
            b.w,
            ((x + 1) as u8, (y + 1) as u8),
        ),
        x <= c.0 <= x + 1,
        y <= c.1 <= y + 1,
        at(b.boxes, b.w, c),
        !at(goals, b.w, c),
    ensures
        freezes(b, goals, c),
{
    let f = |n: Cell| x <= n.0 <= x + 1 && y <= n.1 <= y + 1 && at(b.boxes, b.w, n);
    assert forall|n: Cell| on_grid(b.w, b.h, n) && #[trigger] f(n) implies at(b.boxes, b.w, n)
        && blocked_in(b, f, n, true) && blocked_in(b, f, n, false) by {
        let d: int = if n.0 == x {
            3
        } else {
            2
        };
        let e: int = if n.1 == y {
            1
        } else {
            0
        };
        let beside = neighbor(b.w, b.h, n, d)->0;
        let across = neighbor(b.w, b.h, n, e)->0;
        assert(at(b.walls, b.w, beside) || f(beside));
        assert(at(b.walls, b.w, across) || f(across));
        assert(shut(b.w, b.h, b.walls, n, d) || member_beside(b, f, n, d));
        assert(shut(b.w, b.h, b.walls, n, e) || member_beside(b, f, n, e));
    }
    law_frozen_group_is_reported(b, goals, f, c);
}

/// A box that is not on a goal, with a wall above or below it and a dead square to its left and to
/// its right, is reported; and so is one with the axes exchanged.
pub proof fn law_box_between_dead_squares_is_reported(
    b: Board,
    goals: Seq<bool>,
    c: Cell,
    horizontal: bool,
)
    requires
        on_grid(b.w, b.h, c),
        at(b.boxes, b.w, c),
        !at(goals, b.w, c),
        ({
            let (x, y) = (c.0 as int, c.1 as int);
            if horizontal {
                &&& !unmarked(b.w, b.h, b.walls, x, y - 1) || !unmarked(
                    b.w,
                    b.h,
                    b.walls,
                    x,
                    y + 1,
                )
                &&& marked(b.w, b.h, b.dead, x - 1, y) && marked(b.w, b.h, b.dead, x + 1, y)
            } else {
                &&& !unmarked(b.w, b.h, b.walls, x - 1, y) || !unmarked(
                    b.w,
                    b.h,
                    b.walls,
                    x + 1,
                    y,
                )
                &&& marked(b.w, b.h, b.dead, x, y - 1) && marked(b.w, b.h, b.dead, x, y + 1)
            }
        }),
    ensures
        freezes(b, goals, c),
{
    let f = |n: Cell| n == c;
    assert(blocked_in(b, f, c, true) && blocked_in(b, f, c, false));
    law_frozen_group_is_reported(b, goals, f, c);
}

/// A box between two vacant cells is not reported if one of them is no dead square: the box can
/// still be pushed there.
pub proof fn law_movable_box_is_not_reported(b: Board, goals: Seq<bool>, c: Cell, horizontal: bool)
    requires
        on_grid(b.w, b.h, c),
        ({
            let (x, y) = (c.0 as int, c.1 as int);
            let (ax, ay, zx, zy) = if horizontal {
                (x - 1, y, x + 1, y)
            } else {
                (x, y - 1, x, y + 1)
            };
            &&& unmarked(b.w, b.h, b.walls, ax, ay) && unmarked(b.w, b.h, b.boxes, ax, ay)
            &&& unmarked(b.w, b.h, b.walls, zx, zy) && unmarked(b.w, b.h, b.boxes, zx, zy)
            &&& unmarked(b.w, b.h, b.dead, ax, ay) || unmarked(b.w, b.h, b.dead, zx, zy)
        }),
    ensures
        !freezes(b, goals, c),
{
    if freezes(b, goals, c) {
        let (f, m) = choose|f: spec_fn(Cell) -> bool, m: Cell| #[trigger]
            strands(b, goals, f, c, m);
        let d = axis_dir(horizontal);
        assert(f(c));
        assert(blocked_in(b, f, c, true) && blocked_in(b, f, c, false));
        assert(blocked_in(b, f, c, horizontal));
        let lo = neighbor(b.w, b.h, c, d)->0;
        let hi = neighbor(b.w, b.h, c, d + 1)->0;
        assert(f(lo) ==> at(b.boxes, b.w, lo));
        assert(f(hi) ==> at(b.boxes, b.w, hi));
    }
}

} // verus!
