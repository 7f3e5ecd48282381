//! Deadlock sets along walls.
//!
//! A closed edge is a run of floor cells that all lie along a wall on the same side and whose two
//! ends are closed by walls, dead squares or the edge of the grid. A box on such a run can never
//! leave it, so the run can hold no more boxes than it has goals.

use vstd::prelude::*;

use crate::bitplane::BitPlane;
use crate::dead::is_shut;
use crate::deadlock_sets::{
    count_cells, count_set, DeadlockSet, DeadlockSetKind, DeadlockSetRegistry, SetModel,
};
use crate::grid::{at, lemma_pos, on_grid, pos, shut, unmarked, Cell};
use crate::reach::{fits, lemma_cell_stored};

verus! {

/// Walls, goals and dead squares of a grid.
pub ghost struct Ground {
    pub w: u8,
    pub h: u8,
    pub walls: Seq<bool>,
    pub goals: Seq<bool>,
    pub dead: Seq<bool>,
}

/// The ground that three planes describe.
pub open spec fn ground_of(
    w: u8,
    h: u8,
    walls: &BitPlane,
    goals: &BitPlane,
    dead: &BitPlane,
) -> Ground {
    Ground { w, h, walls: walls@, goals: goals@, dead: dead@ }
}

/// A row or column, and the side of it that the wall is on.
pub ghost struct Line {
    pub horizontal: bool,
    pub index: u8,
    pub side: int,
}

/// Cell `k` of a line.
pub open spec fn line_cell(l: Line, k: int) -> Cell {
    if l.horizontal {
        (k as u8, l.index)
    } else {
        (l.index, k as u8)
    }
}

/// Number of cells of a line.
pub open spec fn line_len(g: Ground, l: Line) -> int {
    if l.horizontal {
        g.w as int
    } else {
        g.h as int
    }
}

/// A box cannot stand on the cell: a wall or a dead square.
pub open spec fn barred(g: Ground, c: Cell) -> bool {
    at(g.walls, g.w, c) || at(g.dead, g.w, c)
}

/// Cell `k` of the line is floor along the wall.
pub open spec fn on_edge(g: Ground, l: Line, k: int) -> bool {
    !barred(g, line_cell(l, k)) && shut(g.w, g.h, g.walls, line_cell(l, k), l.side)
}

/// The first cell of the run that ends with cell `e`.
pub open spec fn run_start(g: Ground, l: Line, e: int) -> int
    decreases e,
{
    if e <= 0 || !on_edge(g, l, e - 1) {
        e
    } else {
        run_start(g, l, e - 1)
    }
}

/// Cell `e` is the last of a run.
pub open spec fn run_ends(g: Ground, l: Line, e: int) -> bool {
    on_edge(g, l, e) && (e + 1 >= line_len(g, l) || !on_edge(g, l, e + 1))
}

/// The cells from `s` to `e`.
pub open spec fn run_cells(l: Line, s: int, e: int) -> Seq<Cell> {
    Seq::new((e - s + 1) as nat, |i: int| line_cell(l, s + i))
}

/// Both ends of the run from `s` to `e` are closed.
pub open spec fn run_closed(g: Ground, l: Line, s: int, e: int) -> bool {
    &&& s == 0 || barred(g, line_cell(l, s - 1))
    &&& e >= line_len(g, l) - 1 || barred(g, line_cell(l, e + 1))
}

/// The set that a run gives.
pub open spec fn edge_set(g: Ground, cells: Seq<Cell>) -> SetModel {
    let n = count_set(cells, g.w, g.goals) as int;
    SetModel { cells, goal_count: n, capacity: n, kind: DeadlockSetKind::ClosedEdge }
}

/// The run from `s` to `e` is recorded: it is closed and has a cell without a goal.
pub open spec fn run_counts(g: Ground, l: Line, s: int, e: int) -> bool {
    run_closed(g, l, s, e) && count_set(run_cells(l, s, e), g.w, g.goals) < e - s + 1
}

/// The sets recorded for the runs that end before cell `k` of a line.
pub open spec fn line_sets(g: Ground, l: Line, k: int) -> Seq<SetModel>
    decreases k,
{
    if k <= 0 {
        Seq::empty()
    } else {
        let e = k - 1;
        let s = run_start(g, l, e);
        if run_ends(g, l, e) && run_counts(g, l, s, e) {
            line_sets(g, l, e).push(edge_set(g, run_cells(l, s, e)))
        } else {
            line_sets(g, l, e)
        }
    }
}

/// The sets along both sides of a row or column.
pub open spec fn both_sides(g: Ground, horizontal: bool, index: int) -> Seq<SetModel> {
    let side: int = if horizontal {
        0
    } else {
        2
    };
    let a = Line { horizontal, index: index as u8, side };
    let b = Line { horizontal, index: index as u8, side: side + 1 };
    line_sets(g, a, line_len(g, a)) + line_sets(g, b, line_len(g, b))
}

/// The sets of the first `n` rows or columns.
pub open spec fn lines_sets(g: Ground, horizontal: bool, n: int) -> Seq<SetModel>
    decreases n,
{
    if n <= 0 {
        Seq::empty()
    } else {
        lines_sets(g, horizontal, n - 1) + both_sides(g, horizontal, n - 1)
    }
}

/// All closed-edge sets of a grid: along the rows, then along the columns.
pub open spec fn closed_edge_sets(g: Ground) -> Seq<SetModel> {
    lines_sets(g, true, g.h as int) + lines_sets(g, false, g.w as int)
}

proof fn lemma_run_start(g: Ground, l: Line, e: int)
    requires
        0 <= e,
        on_edge(g, l, e),
    ensures
        0 <= run_start(g, l, e) <= e,
    decreases e,
{
    if e > 0 && on_edge(g, l, e - 1) {
        lemma_run_start(g, l, e - 1);
    }
}

proof fn lemma_line_cell(g: Ground, l: Line, k: int)
    requires
        0 <= k < line_len(g, l),
        if l.horizontal {
            l.index < g.h
        } else {
            l.index < g.w
        },
    ensures
        on_grid(g.w, g.h, line_cell(l, k)),
        0 <= pos(g.w, line_cell(l, k)) < g.w * g.h,
{
    lemma_pos(g.w, g.h, line_cell(l, k));
}

proof fn lemma_line_sets_len(g: Ground, l: Line, k: int)
    requires
        0 <= k,
    ensures
        line_sets(g, l, k).len() <= k,
    decreases k,
{
    if k > 0 {
        lemma_line_sets_len(g, l, k - 1);
    }
}

proof fn lemma_lines_sets_len(g: Ground, horizontal: bool, n: int)
    requires
        0 <= n <= 255,
    ensures
        lines_sets(g, horizontal, n).len() <= 510 * n,
    decreases n,
{
    if n > 0 {
        lemma_lines_sets_len(g, horizontal, n - 1);
        let side: int = if horizontal {
            0
        } else {
            2
        };
        let a = Line { horizontal, index: (n - 1) as u8, side };
        let b = Line { horizontal, index: (n - 1) as u8, side: side + 1 };
        lemma_line_sets_len(g, a, line_len(g, a));
        lemma_line_sets_len(g, b, line_len(g, b));
    }
}

/// A grid has at most 260100 closed-edge sets.
pub proof fn lemma_closed_edge_sets_len(g: Ground)
    ensures
        closed_edge_sets(g).len() <= 260100,
{
    lemma_lines_sets_len(g, true, g.h as int);
    lemma_lines_sets_len(g, false, g.w as int);
}

/// The registry belongs to the grid.
pub open spec fn indexes(r: &DeadlockSetRegistry, w: u8, h: u8) -> bool {
    r.wf() && r.width == w && r.size() == w * h
}

/// Whether a box cannot stand on a cell.
fn is_barred(walls: &BitPlane, dead: &BitPlane, width: u8, height: u8, x: u8, y: u8) -> (r: bool)
    requires
        fits(walls, width, height),
        fits(dead, width, height),
        on_grid(width, height, (x, y)),
    ensures
        r == (at(walls@, width, (x, y)) || at(dead@, width, (x, y))),
{
    proof {
        lemma_cell_stored(walls, width, height, (x, y));
        lemma_cell_stored(dead, width, height, (x, y));
    }
    walls.get(x, y) || dead.get(x, y)
}

/// Cell `k` of a row or column.
fn cell_of_line(horizontal: bool, index: u8, k: u8) -> (r: (u8, u8))
    ensures
        r == line_cell(Line { horizontal, index, side: 0 }, k as int),
{
    if horizontal {
        (k, index)
    } else {
        (index, k)
    }
}

/// Record the run from `s` to `e` of a row or column, if it is closed and has a cell without a
/// goal.
fn try_record_run(
    horizontal: bool,
    index: u8,
    s: u8,
    e: u8,
    walls: &BitPlane,
    goals: &BitPlane,
    dead: &BitPlane,
    width: u8,
    height: u8,
    registry: &mut DeadlockSetRegistry,
    Ghost(side): Ghost<int>,
)
    requires
        fits(walls, width, height),
        fits(goals, width, height),
        fits(dead, width, height),
        indexes(old(registry), width, height),
        run_counts(
            ground_of(width, height, walls, goals, dead),
            Line { horizontal, index, side },
            s as int,
            e as int,
        ) ==> old(registry)@.len() < u32::MAX,
        s <= e,
        if horizontal {
            index < height && e < width
        } else {
            index < width && e < height
        },
    ensures
        indexes(final(registry), width, height),
        ({
            let g = ground_of(width, height, walls, goals, dead);
            let l = Line { horizontal, index, side };
            final(registry)@ == if run_counts(g, l, s as int, e as int) {
                old(registry)@.push(edge_set(g, run_cells(l, s as int, e as int)))
            } else {
                old(registry)@
            }
        }),
{
    let ghost g = ground_of(width, height, walls, goals, dead);
    let ghost l = Line { horizontal, index, side };
    let len: u8 = if horizontal {
        width
    } else {
        height
    };
    let start_closed = s == 0 || {
        let (x, y) = cell_of_line(horizontal, index, s - 1);
        is_barred(walls, dead, width, height, x, y)
    };
    let end_closed = e >= len - 1 || {
        let (x, y) = cell_of_line(horizontal, index, e + 1);
        is_barred(walls, dead, width, height, x, y)
    };
    if !start_closed || !end_closed {
        return ;
    }
    let mut cells: Vec<(u8, u8)> = Vec::new();
    let mut k: u16 = s as u16;
    while k <= e as u16
        invariant
            s <= k <= e + 1,
            l == (Line { horizontal, index, side }),
            cells@ == run_cells(l, s as int, k - 1),
        decreases e + 1 - k,
    {
        cells.push(cell_of_line(horizontal, index, k as u8));
        k += 1;
        assert(cells@ =~= run_cells(l, s as int, k - 1));
    }
    proof {
        assert forall|i: int| 0 <= i < cells@.len() implies pos(width, #[trigger] cells@[i]) < width
            * height by {
            lemma_line_cell(g, l, s + i);
        }
        if cells@.len() > 0 {
            lemma_cell_stored(goals, width, height, cells@[0]);
        }
    }
    let goal_count = count_cells(&cells, goals);
    if goal_count >= cells.len() as u32 {
        return ;
    }
    registry.add(
        DeadlockSet { cells, goal_count, capacity: goal_count, kind: DeadlockSetKind::ClosedEdge },
    );
}

/// Record the closed edges along one side of a row or column.
fn scan_line(
    horizontal: bool,
    index: u8,
    side: usize,
    walls: &BitPlane,
    goals: &BitPlane,
    dead: &BitPlane,
    width: u8,
    height: u8,
    registry: &mut DeadlockSetRegistry,
)
    requires
        fits(walls, width, height),
        fits(goals, width, height),
        fits(dead, width, height),
        indexes(old(registry), width, height),
        side < 4,
        old(registry)@.len() + line_sets(
            ground_of(width, height, walls, goals, dead),
            Line { horizontal, index, side: side as int },
            if horizontal {
                width as int
            } else {
                height as int
            },
        ).len() <= u32::MAX,
        if horizontal {
            index < height
        } else {
            index < width
        },
    ensures
        indexes(final(registry), width, height),
        final(registry)@ == old(registry)@ + line_sets(
            ground_of(width, height, walls, goals, dead),
            Line { horizontal, index, side: side as int },
            if horizontal {
                width as int
            } else {
                height as int
            },
        ),
{
    let ghost g = ground_of(width, height, walls, goals, dead);
    let ghost l = Line { horizontal, index, side: side as int };
    let len: u8 = if horizontal {
        width
    } else {
        height
    };
    let mut start: Option<u8> = None;
    let mut k: u16 = 0;
    assert(line_sets(g, l, -1) =~= Seq::empty());
    assert(line_sets(g, l, 0) =~= Seq::empty());
    while k <= len as u16
        invariant
            k <= len + 1,
            g == ground_of(width, height, walls, goals, dead),
            l == (Line { horizontal, index, side: side as int }),
            len == line_len(g, l),
            fits(walls, width, height),
            fits(goals, width, height),
            fits(dead, width, height),
            side < 4,
            if horizontal {
                index < height
            } else {
                index < width
            },
            indexes(registry, width, height),
            old(registry)@.len() + line_sets(g, l, len as int).len() <= u32::MAX,
            k <= len ==> (start is Some <==> k > 0 && on_edge(g, l, k - 1)),
            k <= len ==> (start matches Some(s) ==> s == run_start(g, l, k - 1)),
            registry@ == old(registry)@ + line_sets(g, l, if k == 0 {
                0
            } else {
                k - 1
            }),
        decreases len + 1 - k,
    {
        let in_run = k < len as u16 && {
            let (x, y) = cell_of_line(horizontal, index, k as u8);
            proof {
                lemma_line_cell(g, l, k as int);
            }
            !is_barred(walls, dead, width, height, x, y) && is_shut(walls, width, height, x, y, side)
        };
        proof {
            assert(in_run == (k < len && on_edge(g, l, k as int)));
            if k > 0 {
                assert(line_sets(g, l, k as int) == {
                    let e = k - 1;
                    let s = run_start(g, l, e);
                    if run_ends(g, l, e) && run_counts(g, l, s, e) {
                        line_sets(g, l, e).push(edge_set(g, run_cells(l, s, e)))
                    } else {
                        line_sets(g, l, e)
                    }
                });
                lemma_line_sets_grow(g, l, k as int, len as int);
            }
        }
        if in_run {
            if start.is_none() {
                start = Some(k as u8);
            }
        } else {
            if let Some(s) = start {
                proof {
                    lemma_run_start(g, l, k - 1);
                }
                let e: u8 = (k - 1) as u8;
                try_record_run(
                    horizontal,
                    index,
                    s,
                    e,
                    walls,
                    goals,
                    dead,
                    width,
                    height,
                    registry,
                    Ghost(side as int),
                );
                start = None;
            }
        }
        proof {
            if k > 0 {
                assert(registry@ =~= old(registry)@ + line_sets(g, l, k as int));
            }
        }
        k += 1;
    }
}

proof fn lemma_line_sets_grow(g: Ground, l: Line, a: int, b: int)
    requires
        0 <= a <= b,
    ensures
        line_sets(g, l, a).len() <= line_sets(g, l, b).len(),
    decreases b,
{
    if a < b {
        lemma_line_sets_grow(g, l, a, b - 1);
    }
}

proof fn lemma_lines_sets_grow(g: Ground, horizontal: bool, a: int, b: int)
    requires
        0 <= a <= b,
    ensures
        lines_sets(g, horizontal, a).len() <= lines_sets(g, horizontal, b).len(),
    decreases b,
{
    if a < b {
        lemma_lines_sets_grow(g, horizontal, a, b - 1);
    }
}

/// Record the closed edges of all rows or of all columns.
fn scan_lines(
    horizontal: bool,
    walls: &BitPlane,
    goals: &BitPlane,
    dead: &BitPlane,
    width: u8,
    height: u8,
    registry: &mut DeadlockSetRegistry,
)
    requires
        fits(walls, width, height),
        fits(goals, width, height),
        fits(dead, width, height),
        indexes(old(registry), width, height),
        old(registry)@.len() + lines_sets(
            ground_of(width, height, walls, goals, dead),
            horizontal,
            if horizontal {
                height as int
            } else {
                width as int
            },
        ).len() <= u32::MAX,
    ensures
        indexes(final(registry), width, height),
        final(registry)@ == old(registry)@ + lines_sets(
            ground_of(width, height, walls, goals, dead),
            horizontal,
            if horizontal {
                height as int
            } else {
                width as int
            },
        ),
{
    let ghost g = ground_of(width, height, walls, goals, dead);
    let n: u8 = if horizontal {
        height
    } else {
        width
    };
    let side: usize = if horizontal {
        0
    } else {
        2
    };
    assert(old(registry)@ + lines_sets(g, horizontal, 0) =~= old(registry)@);
    let mut i: u8 = 0;
    while i < n
        invariant
            i <= n,
            n == (if horizontal {
                height
            } else {
                width
            }),
            side == (if horizontal {
                0int
            } else {
                2
            }),
            g == ground_of(width, height, walls, goals, dead),
            fits(walls, width, height),
            fits(goals, width, height),
            fits(dead, width, height),
            indexes(registry, width, height),
            old(registry)@.len() + lines_sets(g, horizontal, n as int).len() <= u32::MAX,
            registry@ == old(registry)@ + lines_sets(g, horizontal, i as int),
        decreases n - i,
    {
        proof {
            lemma_lines_sets_grow(g, horizontal, i + 1, n as int);
            assert(lines_sets(g, horizontal, i + 1) == lines_sets(g, horizontal, i as int)
                + both_sides(g, horizontal, i as int));
        }
        scan_line(horizontal, i, side, walls, goals, dead, width, height, registry);
        scan_line(horizontal, i, side + 1, walls, goals, dead, width, height, registry);
        assert(registry@ =~= old(registry)@ + lines_sets(g, horizontal, i + 1));
        i += 1;
    }
}

/// Append the closed-edge sets of a grid to a registry: for each row the runs along its upper
/// and then its lower side, then for each column those along its left and its right side.
pub fn compute_closed_edge_sets(
    registry: &mut DeadlockSetRegistry,
    walls: &BitPlane,
    goals: &BitPlane,
    dead: &BitPlane,
    width: u8,
    height: u8,
)
    requires
        fits(walls, width, height),
        fits(goals, width, height),
        fits(dead, width, height),
        indexes(old(registry), width, height),
        old(registry)@.len() + closed_edge_sets(
            ground_of(width, height, walls, goals, dead),
        ).len() <= u32::MAX,
    ensures
        indexes(final(registry), width, height),
        final(registry)@ == old(registry)@ + closed_edge_sets(
            ground_of(width, height, walls, goals, dead),
        ),
{
    let ghost g = ground_of(width, height, walls, goals, dead);
    scan_lines(true, walls, goals, dead, width, height, registry);
    scan_lines(false, walls, goals, dead, width, height, registry);
    assert(registry@ =~= old(registry)@ + closed_edge_sets(g));
}

// ── Laws ──────────────────────────────────────────────────────────────────

/// Cells `s` to `e` of a row or a column, and the side of it that is looked at.
pub ghost struct Run {
    pub horizontal: bool,
    pub index: u8,
    pub first_side: bool,
    pub s: int,
    pub e: int,
}

impl Run {
    /// Column and row of cell `k`.
    pub open spec fn cell(self, k: int) -> (int, int) {
        if self.horizontal {
            (k, self.index as int)
        } else {
            (self.index as int, k)
        }
    }

    /// Column and row of what is beside cell `k`: above or below it in a row, to its left or right
    /// in a column.
    pub open spec fn beside(self, k: int) -> (int, int) {
        let i = if self.first_side {
            self.index - 1
        } else {
            self.index + 1
        };
        if self.horizontal {
            (k, i)
        } else {
            (i, k)
        }
    }

    /// The grid has cell `k`, and it is no wall and no dead square.
    pub open spec fn is_open(self, g: Ground, k: int) -> bool {
        let (x, y) = self.cell(k);
        unmarked(g.w, g.h, g.walls, x, y) && unmarked(g.w, g.h, g.dead, x, y)
    }

    /// A wall or the edge of the grid is beside cell `k`.
    pub open spec fn is_walled(self, g: Ground, k: int) -> bool {
        let (x, y) = self.beside(k);
        !unmarked(g.w, g.h, g.walls, x, y)
    }

    /// The cells of the run.
    pub open spec fn cells(self) -> Seq<Cell> {
        Seq::new(
            (self.e - self.s + 1) as nat,
            |i: int|
                {
                    let (x, y) = self.cell(self.s + i);
                    (x as u8, y as u8)
                },
        )
    }

    /// All cells are open with a wall beside them, the cells before the first and after the last are
    /// not open, and the run has fewer goals than cells.
    pub open spec fn is_closed(self, g: Ground) -> bool {
        &&& self.s <= self.e
        &&& forall|k: int|
            self.s <= k <= self.e ==> #[trigger] self.is_open(g, k) && self.is_walled(g, k)
        &&& !self.is_open(g, self.s - 1) && !self.is_open(g, self.e + 1)
        &&& count_set(self.cells(), g.w, g.goals) < self.e - self.s + 1
    }

    /// The set of the run: there is room for as many boxes as it has goals.
    pub open spec fn set(self, g: Ground) -> SetModel {
        SetModel {
            cells: self.cells(),
            goal_count: count_set(self.cells(), g.w, g.goals) as int,
            capacity: count_set(self.cells(), g.w, g.goals) as int,
            kind: DeadlockSetKind::ClosedEdge,
        }
    }

    spec fn line(self) -> Line {
        Line {
            horizontal: self.horizontal,
            index: self.index,
            side: (if self.horizontal {
                0int
            } else {
                2
            }) + (if self.first_side {
                0int
            } else {
                1
            }),
        }
    }
}

proof fn lemma_run_cell(g: Ground, r: Run, k: int)
    requires
        0 <= k < line_len(g, r.line()),
        if r.horizontal {
            r.index < g.h
        } else {
            r.index < g.w
        },
    ensures
        r.is_open(g, k) <==> !barred(g, line_cell(r.line(), k)),
        r.is_open(g, k) && r.is_walled(g, k) <==> on_edge(g, r.line(), k),
{
}

proof fn lemma_start_is(g: Ground, l: Line, s: int, e: int)
    requires
        0 <= s <= e,
        forall|k: int| s <= k <= e ==> #[trigger] on_edge(g, l, k),
        s == 0 || !on_edge(g, l, s - 1),
    ensures
        run_start(g, l, e) == s,
    decreases e,
{
    if e > s {
        assert(on_edge(g, l, e - 1));
        lemma_start_is(g, l, s, e - 1);
    }
}

proof fn lemma_line_set_stays(g: Ground, l: Line, a: int, b: int, m: SetModel)
    requires
        a <= b,
        line_sets(g, l, a).contains(m),
    ensures
        line_sets(g, l, b).contains(m),
    decreases b - a,
{
    if a < b {
        lemma_line_set_stays(g, l, a, b - 1, m);
        let part = line_sets(g, l, b - 1);
        let i = choose|i: int| 0 <= i < part.len() && part[i] == m;
        if b > 0 {
            assert(line_sets(g, l, b)[i] == m);
        }
    }
}

proof fn lemma_both_sides_stay(g: Ground, horizontal: bool, index: int, n: int, m: SetModel)
    requires
        0 <= index < n,
        both_sides(g, horizontal, index).contains(m),
    ensures
        lines_sets(g, horizontal, n).contains(m),
    decreases n,
{
    let before = lines_sets(g, horizontal, n - 1);
    let own = both_sides(g, horizontal, n - 1);
    if index < n - 1 {
        lemma_both_sides_stay(g, horizontal, index, n - 1, m);
        let i = choose|i: int| 0 <= i < before.len() && before[i] == m;
        assert((before + own)[i] == m);
    } else {
        let i = choose|i: int| 0 <= i < own.len() && own[i] == m;
        assert((before + own)[before.len() + i] == m);
    }
}

/// Every run of a row or a column along a wall that no box can leave is recorded, if it has more
/// cells than goals.
pub proof fn law_closed_runs_are_recorded(g: Ground, r: Run)
    requires
        r.is_closed(g),
    ensures
        closed_edge_sets(g).contains(r.set(g)),
{
    let l = r.line();
    let (s, e) = (r.s, r.e);
    let m = r.set(g);
    assert(r.is_open(g, s));
    assert(r.is_open(g, e));
    assert forall|k: int| s <= k <= e implies #[trigger] on_edge(g, l, k) by {
        assert(r.is_open(g, k));
        assert(r.is_walled(g, k));
        lemma_run_cell(g, r, k);
    }
    if s > 0 {
        lemma_run_cell(g, r, s - 1);
    }
    if e + 1 < line_len(g, l) {
        lemma_run_cell(g, r, e + 1);
    }
    lemma_start_is(g, l, s, e);
    assert(r.cells() =~= run_cells(l, s, e));
    let n = line_len(g, l);
    assert(line_sets(g, l, e + 1).last() == m);
    lemma_line_set_stays(g, l, e + 1, n, m);
    let side: int = if r.horizontal {
        0
    } else {
        2
    };
    let a = Line { horizontal: r.horizontal, index: r.index, side };
    let b = Line { horizontal: r.horizontal, index: r.index, side: side + 1 };
    let (p, q) = (line_sets(g, a, line_len(g, a)), line_sets(g, b, line_len(g, b)));
    let own = both_sides(g, r.horizontal, r.index as int);
    assert(own == p + q);
    let i = if r.first_side {
        assert(l == a);
        choose|i: int| 0 <= i < p.len() && p[i] == m
    } else {
        assert(l == b);
        p.len() + choose|i: int| 0 <= i < q.len() && q[i] == m
    };
    assert(own[i] == m);
    let (rows, columns) = (
        lines_sets(g, true, g.h as int),
        lines_sets(g, false, g.w as int),
    );
    if r.horizontal {
        lemma_both_sides_stay(g, true, r.index as int, g.h as int, m);
        let j = choose|j: int| 0 <= j < rows.len() && rows[j] == m;
        assert((rows + columns)[j] == m);
    } else {
        lemma_both_sides_stay(g, false, r.index as int, g.w as int, m);
        let j = choose|j: int| 0 <= j < columns.len() && columns[j] == m;
        assert((rows + columns)[rows.len() + j] == m);
    }
}

/// The run of a set of a line.
proof fn lemma_set_of_line(g: Ground, r: Run, n: int, i: int) -> (found: Run)
    requires
        0 <= n <= line_len(g, r.line()),
        if r.horizontal {
            r.index < g.h
        } else {
            r.index < g.w
        },
        0 <= i < line_sets(g, r.line(), n).len(),
    ensures
        found.is_closed(g),
        line_sets(g, r.line(), n)[i] == found.set(g),
    decreases n,
{
    let l = r.line();
    let before = line_sets(g, l, n - 1);
    if i < before.len() {
        lemma_set_of_line(g, r, n - 1, i)
    } else {
        let e = n - 1;
        let s = run_start(g, l, e);
        let found = Run { s, e, ..r };
        assert(found.line() == l);
        lemma_run_within(g, l, e);
        assert forall|k: int| s <= k <= e implies #[trigger] found.is_open(g, k)
            && found.is_walled(g, k) by {
            assert(on_edge(g, l, k));
            lemma_run_cell(g, found, k);
        }
        if s > 0 {
            lemma_run_cell(g, found, s - 1);
        }
        if e + 1 < line_len(g, l) {
            lemma_run_cell(g, found, e + 1);
        }
        assert(found.cells() =~= run_cells(l, s, e));
        found
    }
}

proof fn lemma_run_within(g: Ground, l: Line, e: int)
    requires
        0 <= e,
        on_edge(g, l, e),
    ensures
        0 <= run_start(g, l, e) <= e,
        forall|k: int| run_start(g, l, e) <= k <= e ==> #[trigger] on_edge(g, l, k),
    decreases e,
{
    if e > 0 && on_edge(g, l, e - 1) {
        lemma_run_within(g, l, e - 1);
    }
}

proof fn lemma_set_of_lines(g: Ground, horizontal: bool, n: int, i: int) -> (found: Run)
    requires
        0 <= n <= if horizontal {
            g.h as int
        } else {
            g.w as int
        },
        0 <= i < lines_sets(g, horizontal, n).len(),
    ensures
        found.is_closed(g),
        lines_sets(g, horizontal, n)[i] == found.set(g),
    decreases n,
{
    let before = lines_sets(g, horizontal, n - 1);
    if i < before.len() {
        lemma_set_of_lines(g, horizontal, n - 1, i)
    } else {
        let r = Run { horizontal, index: (n - 1) as u8, first_side: true, s: 0, e: 0 };
        let other = Run { first_side: false, ..r };
        let (a, b) = (r.line(), other.line());
        let (p, q) = (line_sets(g, a, line_len(g, a)), line_sets(g, b, line_len(g, b)));
        assert(both_sides(g, horizontal, n - 1) == p + q);
        let k = i - before.len();
        if k < p.len() {
            lemma_set_of_line(g, r, line_len(g, a), k)
        } else {
            lemma_set_of_line(g, other, line_len(g, b), k - p.len())
        }
    }
}

/// Nothing else is recorded: each set is that of such a run.
pub proof fn law_recorded_runs_are_closed(g: Ground, i: int) -> (found: Run)
    requires
        0 <= i < closed_edge_sets(g).len(),
    ensures
        found.is_closed(g),
        closed_edge_sets(g)[i] == found.set(g),
{
    let rows = lines_sets(g, true, g.h as int);
    if i < rows.len() {
        lemma_set_of_lines(g, true, g.h as int, i)
    } else {
        lemma_set_of_lines(g, false, g.w as int, i - rows.len())
    }
}

} // verus!
