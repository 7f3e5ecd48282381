//! Why an overfull deadlock set cannot be emptied.
//!
//! No box leaves a set that is closed under pushes, so once it holds more boxes than goals, a box
//! in it stands off the goals for the rest of the game.

use vstd::prelude::*;

use crate::bfs::lemma_follow_push;
use crate::closed_edge::{
    barred, both_sides, closed_edge_sets, edge_set, line_cell, line_len, line_sets, lines_sets,
    on_edge, run_cells, run_closed, run_start, Ground, Line,
};
use crate::closed_set::{
    all_reached, closure_at, closure_set, escape_step, general_sets, increasing,
    is_sorted_closure, lemma_no_more, too_many, MAX_CLOSED_SET_SIZE,
};
use crate::deadlock_sets::{count_set, SetModel};
use crate::grid::{
    at, cell_at, follow, lemma_cell_at, lemma_pos, neighbor, on_grid, pos, reaches, shut, Cell,
};
use crate::reach::lemma_update_cell;
use crate::rules::{lemma_push_box, moved, push_box, push_boxes, Board};

verus! {

/// No push moves a box out of the set, and its capacity is the number of its goals.
pub open spec fn is_trap(g: Ground, m: SetModel) -> bool {
    &&& forall|i: int| 0 <= i < m.cells.len() ==> on_grid(g.w, g.h, #[trigger] m.cells[i])
    &&& forall|i: int, j: int| 0 <= i < j < m.cells.len() ==> m.cells[i] != m.cells[j]
    &&& forall|i: int, d: int|
        0 <= i < m.cells.len() && 0 <= d < 4 ==> match #[trigger] escape_step(
            g.w,
            g.h,
            g.walls,
            g.dead,
        )(m.cells[i], d) {
            Some(to) => m.cells.contains(to),
            None => true,
        }
    &&& m.capacity == count_set(m.cells, g.w, g.goals)
}

spec fn all_traps(g: Ground, sets: Seq<SetModel>) -> bool {
    forall|i: int| 0 <= i < sets.len() ==> is_trap(g, #[trigger] sets[i])
}

/// All cells of a run lie along the wall.
proof fn lemma_run(g: Ground, l: Line, e: int, k: int)
    requires
        0 <= e,
        on_edge(g, l, e),
    ensures
        0 <= run_start(g, l, e) <= e,
        run_start(g, l, e) <= k <= e ==> on_edge(g, l, k),
    decreases e,
{
    if e > 0 && on_edge(g, l, e - 1) {
        lemma_run(g, l, e - 1, k);
    }
}

/// A line of the grid with a side of its own.
spec fn is_line(g: Ground, l: Line) -> bool {
    if l.horizontal {
        l.index < g.h && 0 <= l.side <= 1
    } else {
        l.index < g.w && 2 <= l.side <= 3
    }
}

/// A closed run along a wall is a trap.
proof fn lemma_run_is_trap(g: Ground, l: Line, e: int)
    requires
        is_line(g, l),
        0 <= e < line_len(g, l),
        on_edge(g, l, e),
        run_closed(g, l, run_start(g, l, e), e),
    ensures
        is_trap(g, edge_set(g, run_cells(l, run_start(g, l, e), e))),
{
    let s = run_start(g, l, e);
    lemma_run(g, l, e, e);
    let cells = run_cells(l, s, e);
    let step = escape_step(g.w, g.h, g.walls, g.dead);
    assert forall|i: int, d: int| 0 <= i < cells.len() && 0 <= d < 4 implies match #[trigger] step(
        cells[i],
        d,
    ) {
        Some(to) => cells.contains(to),
        None => true,
    } by {
        let k = s + i;
        let c = cells[i];
        lemma_run(g, l, e, k);
        assert(shut(g.w, g.h, g.walls, c, l.side));
        if let Some(to) = step(c, d) {
            let up = if l.horizontal {
                d == 3
            } else {
                d == 1
            };
            let down = if l.horizontal {
                d == 2
            } else {
                d == 0
            };
            assert(neighbor(g.w, g.h, c, d) == Some(to));
            if up {
                assert(to == line_cell(l, k + 1));
                assert(!barred(g, to));
                assert(k < e);
                assert(cells[i + 1] == to);
            } else if down {
                assert(to == line_cell(l, k - 1));
                assert(!barred(g, to));
                assert(s < k);
                assert(cells[i - 1] == to);
            } else {
                assert(false);
            }
        }
    }
    assert forall|i: int, j: int| 0 <= i < j < cells.len() implies cells[i] != cells[j] by {}
}

proof fn lemma_line_sets_are_traps(g: Ground, l: Line, k: int)
    requires
        is_line(g, l),
        0 <= k <= line_len(g, l),
    ensures
        all_traps(g, line_sets(g, l, k)),
    decreases k,
{
    if k > 0 {
        lemma_line_sets_are_traps(g, l, k - 1);
        let e = k - 1;
        if on_edge(g, l, e) && run_closed(g, l, run_start(g, l, e), e) {
            lemma_run_is_trap(g, l, e);
        }
    }
}

proof fn lemma_lines_sets_are_traps(g: Ground, horizontal: bool, n: int)
    requires
        0 <= n <= if horizontal {
            g.h as int
        } else {
            g.w as int
        },
    ensures
        all_traps(g, lines_sets(g, horizontal, n)),
    decreases n,
{
    if n > 0 {
        lemma_lines_sets_are_traps(g, horizontal, n - 1);
        let side: int = if horizontal {
            0
        } else {
            2
        };
        let a = Line { horizontal, index: (n - 1) as u8, side };
        let b = Line { horizontal, index: (n - 1) as u8, side: side + 1 };
        lemma_line_sets_are_traps(g, a, line_len(g, a));
        lemma_line_sets_are_traps(g, b, line_len(g, b));
        assert(both_sides(g, horizontal, n - 1) == line_sets(g, a, line_len(g, a)) + line_sets(
            g,
            b,
            line_len(g, b),
        ));
    }
}

/// Boxes never leave a closed-edge set, whose capacity is the number of its goals.
pub proof fn law_closed_edge_sets_are_traps(g: Ground, i: int)
    requires
        0 <= i < closed_edge_sets(g).len(),
    ensures
        is_trap(g, closed_edge_sets(g)[i]),
{
    lemma_lines_sets_are_traps(g, true, g.h as int);
    lemma_lines_sets_are_traps(g, false, g.w as int);
    assert(all_traps(g, lines_sets(g, true, g.h as int) + lines_sets(g, false, g.w as int)));
}

proof fn lemma_reached_on_grid(g: Ground, c: Cell, dirs: Seq<int>)
    requires
        on_grid(g.w, g.h, c),
        follow(escape_step(g.w, g.h, g.walls, g.dead), c, dirs) is Some,
    ensures
        on_grid(g.w, g.h, follow(escape_step(g.w, g.h, g.walls, g.dead), c, dirs)->0),
{
}

proof fn lemma_closure_is_trap(g: Ground, c: Cell, s: Seq<Cell>)
    requires
        on_grid(g.w, g.h, c),
        closure_at(g, c) == Some(s),
    ensures
        is_trap(g, closure_set(g, s)),
{
    let step = escape_step(g.w, g.h, g.walls, g.dead);
    assert(is_sorted_closure(step, c, s)) by {
        let t = choose|t: Seq<Cell>| is_sorted_closure(step, c, t);
        assert(is_sorted_closure(step, c, t));
    }
    assert forall|i: int| 0 <= i < s.len() implies on_grid(g.w, g.h, #[trigger] s[i]) by {
        assert(s.contains(s[i]));
        assert(reaches(step, c, s[i]));
        let dirs = choose|dirs: Seq<int>| #[trigger] follow(step, c, dirs) == Some(s[i]);
        lemma_reached_on_grid(g, c, dirs);
    }
    assert forall|i: int, d: int| 0 <= i < s.len() && 0 <= d < 4 implies match #[trigger] step(
        s[i],
        d,
    ) {
        Some(to) => s.contains(to),
        None => true,
    } by {
        if let Some(to) = step(s[i], d) {
            assert(s.contains(s[i]));
            assert(reaches(step, c, s[i]));
            let dirs = choose|dirs: Seq<int>| #[trigger] follow(step, c, dirs) == Some(s[i]);
            lemma_follow_push(step, c, dirs, d);
            assert(follow(step, c, dirs.push(d)) == Some(to));
            assert(reaches(step, c, to));
        }
    }
    assert(increasing(s));
    assert forall|i: int, j: int| 0 <= i < j < s.len() implies s[i] != s[j] by {}
}

proof fn lemma_general_sets_are_traps(g: Ground, n: int)
    requires
        0 <= n <= g.w * g.h,
    ensures
        all_traps(g, general_sets(g, n)),
    decreases n,
{
    if n > 0 {
        lemma_general_sets_are_traps(g, n - 1);
        lemma_cell_at(g.w, g.h, n - 1);
        let c = cell_at(g.w, n - 1);
        if let Some(s) = closure_at(g, c) {
            lemma_closure_is_trap(g, c, s);
        }
    }
}

/// Boxes never leave a general closed set, whose capacity is the number of its goals.
pub proof fn law_general_sets_are_traps(g: Ground, i: int)
    requires
        0 <= i < general_sets(g, g.w * g.h).len(),
    ensures
        is_trap(g, general_sets(g, g.w * g.h)[i]),
{
    assert(0 <= g.w * g.h) by (nonlinear_arith);
    lemma_general_sets_are_traps(g, g.w * g.h);
}

proof fn lemma_reached_in_trap(g: Ground, m: SetModel, c: Cell, dirs: Seq<int>)
    requires
        is_trap(g, m),
        m.cells.contains(c),
        follow(escape_step(g.w, g.h, g.walls, g.dead), c, dirs) is Some,
    ensures
        m.cells.contains(follow(escape_step(g.w, g.h, g.walls, g.dead), c, dirs)->0),
    decreases dirs.len(),
{
    let step = escape_step(g.w, g.h, g.walls, g.dead);
    if dirs.len() > 0 {
        lemma_reached_in_trap(g, m, c, dirs.drop_last());
        let mid = follow(step, c, dirs.drop_last())->0;
        let i = choose|i: int| 0 <= i < m.cells.len() && m.cells[i] == mid;
        assert(step(m.cells[i], dirs.last()) == follow(step, c, dirs));
    }
}

/// The closure of a cell of a deadlock set is within the set. So every cell of a set of at most as
/// many cells as a closure may have has a closure.
pub proof fn law_closures_are_within_sets(g: Ground, m: SetModel, c: Cell)
    requires
        is_trap(g, m),
        m.cells.contains(c),
    ensures
        forall|b: Cell| #[trigger]
            reaches(escape_step(g.w, g.h, g.walls, g.dead), c, b) ==> m.cells.contains(b),
        m.cells.len() <= MAX_CLOSED_SET_SIZE ==> !too_many(
            escape_step(g.w, g.h, g.walls, g.dead),
            c,
        ),
{
    let step = escape_step(g.w, g.h, g.walls, g.dead);
    assert forall|b: Cell| #[trigger] reaches(step, c, b) implies m.cells.contains(b) by {
        let dirs = choose|dirs: Seq<int>| #[trigger] follow(step, c, dirs) == Some(b);
        lemma_reached_in_trap(g, m, c, dirs);
    }
    if too_many(step, c) {
        let s = choose|s: Seq<Cell>| #[trigger]
            all_reached(step, c, s) && s.len() > MAX_CLOSED_SET_SIZE;
        assert forall|i: int| 0 <= i < s.len() implies m.cells.contains(#[trigger] s[i]) by {
            assert(reaches(step, c, s[i]));
        }
        lemma_no_more(m.cells, s);
    }
}

/// Changing the bit of a cell changes the count by that cell alone.
proof fn lemma_count_update(w: u8, h: u8, cells: Seq<Cell>, bits: Seq<bool>, c: Cell, v: bool)
    requires
        w * h <= bits.len(),
        on_grid(w, h, c),
        forall|i: int| 0 <= i < cells.len() ==> on_grid(w, h, #[trigger] cells[i]),
        forall|i: int, j: int| 0 <= i < j < cells.len() ==> cells[i] != cells[j],
    ensures
        count_set(cells, w, bits.update(pos(w, c), v)) == count_set(cells, w, bits)
            + if cells.contains(c) && v && !at(bits, w, c) {
            1int
        } else if cells.contains(c) && !v && at(bits, w, c) {
            -1
        } else {
            0
        },
    decreases cells.len(),
{
    if cells.len() > 0 {
        let less = cells.drop_last();
        let last = cells.last();
        assert forall|i: int| 0 <= i < less.len() implies on_grid(w, h, #[trigger] less[i]) by {
            assert(less[i] == cells[i]);
        }
        lemma_count_update(w, h, less, bits, c, v);
        assert(on_grid(w, h, cells[cells.len() - 1]));
        lemma_update_cell(w, h, bits, c, last, v);
        if less.contains(c) {
            let i = choose|i: int| 0 <= i < less.len() && less[i] == c;
            assert(cells[i] == c);
            assert(cells[i] != cells[cells.len() - 1]);
        }
        if cells.contains(c) && c != last {
            let i = choose|i: int| 0 <= i < cells.len() && cells[i] == c;
            assert(less[i] == c);
        }
        assert(cells.contains(last)) by {
            assert(cells[cells.len() - 1] == last);
        }
    }
}

/// A push never lowers the number of boxes in a trap.
proof fn lemma_push_keeps_count(g: Ground, m: SetModel, b: Board, c: Cell, d: int)
    requires
        is_trap(g, m),
        b.w == g.w && b.h == g.h && b.walls == g.walls && b.dead == g.dead,
        b.wf(),
        push_box(b, c, d) is Some,
    ensures
        count_set(m.cells, g.w, b.boxes) <= count_set(
            m.cells,
            g.w,
            (push_box(b, c, d)->0).boxes,
        ),
{
    lemma_push_box(b, c, d);
    let to = neighbor(b.w, b.h, c, d)->0;
    lemma_pos(b.w, b.h, c);
    let mid = b.boxes.update(pos(b.w, c), false);
    lemma_count_update(b.w, b.h, m.cells, b.boxes, c, false);
    lemma_count_update(b.w, b.h, m.cells, mid, to, true);
    lemma_update_cell(b.w, b.h, b.boxes, c, to, false);
    assert((push_box(b, c, d)->0).boxes == moved(b.w, b.boxes, c, to));
    if m.cells.contains(c) {
        let i = choose|i: int| 0 <= i < m.cells.len() && m.cells[i] == c;
        let step = escape_step(g.w, g.h, g.walls, g.dead);
        assert(step(m.cells[i], d) == Some(to));
    }
}

/// Where more cells have one bit than the other, some cell has only the first.
proof fn lemma_surplus(cells: Seq<Cell>, w: u8, a: Seq<bool>, b: Seq<bool>)
    requires
        count_set(cells, w, a) > count_set(cells, w, b),
    ensures
        exists|i: int| 0 <= i < cells.len() && at(a, w, #[trigger] cells[i]) && !at(b, w, cells[i]),
    decreases cells.len(),
{
    let last = cells.len() - 1;
    if at(a, w, cells[last]) && !at(b, w, cells[last]) {
    } else {
        lemma_surplus(cells.drop_last(), w, a, b);
        let i = choose|i: int|
            0 <= i < cells.drop_last().len() && at(a, w, #[trigger] cells.drop_last()[i]) && !at(
                b,
                w,
                cells.drop_last()[i],
            );
        assert(cells[i] == cells.drop_last()[i]);
    }
}

/// Once a trap holds more boxes than its capacity, it does so after any pushes that keep off the
/// dead squares.
pub proof fn law_overflow_is_permanent(g: Ground, m: SetModel, b: Board, pushes: Seq<(Cell, int)>)
    requires
        is_trap(g, m),
        b.w == g.w && b.h == g.h && b.walls == g.walls && b.dead == g.dead,
        b.wf(),
        count_set(m.cells, g.w, b.boxes) > m.capacity,
        push_boxes(b, pushes) is Some,
    ensures
        count_set(m.cells, g.w, (push_boxes(b, pushes)->0).boxes) > m.capacity,
        exists|i: int|
            0 <= i < m.cells.len() && at(
                (push_boxes(b, pushes)->0).boxes,
                g.w,
                #[trigger] m.cells[i],
            ) && !at(g.goals, g.w, m.cells[i]),
{
    lemma_overflow(g, m, b, pushes);
    lemma_surplus(m.cells, g.w, (push_boxes(b, pushes)->0).boxes, g.goals);
}

proof fn lemma_overflow(g: Ground, m: SetModel, b: Board, pushes: Seq<(Cell, int)>)
    requires
        is_trap(g, m),
        b.w == g.w && b.h == g.h && b.walls == g.walls && b.dead == g.dead,
        b.wf(),
        count_set(m.cells, g.w, b.boxes) > m.capacity,
        push_boxes(b, pushes) is Some,
    ensures
        ({
            let after = push_boxes(b, pushes)->0;
            &&& after.w == g.w && after.h == g.h && after.walls == g.walls && after.dead == g.dead
            &&& after.wf()
            &&& count_set(m.cells, g.w, after.boxes) > m.capacity
        }),
    decreases pushes.len(),
{
    if pushes.len() > 0 {
        lemma_overflow(g, m, b, pushes.drop_last());
        let mid = push_boxes(b, pushes.drop_last())->0;
        let (c, d) = pushes.last();
        lemma_push_box(mid, c, d);
        lemma_push_keeps_count(g, m, mid, c, d);
    }
}

} // verus!
