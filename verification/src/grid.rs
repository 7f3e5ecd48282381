//! Cells, directions, and walks over a grid.
//!
//! Directions are numbered up, down, left, right.

use vstd::prelude::*;

use crate::bitplane::{cell_count, flat, lemma_flat, lemma_unflat, set_cells};

verus! {

/// A grid cell: column, row.
pub type Cell = (u8, u8);

/// Horizontal offset of direction `d`.
pub open spec fn dir_x(d: int) -> int {
    if d == 2 {
        -1
    } else if d == 3 {
        1
    } else {
        0
    }
}

/// Vertical offset of direction `d`.
pub open spec fn dir_y(d: int) -> int {
    if d == 0 {
        -1
    } else if d == 1 {
        1
    } else {
        0
    }
}

/// The direction that points the other way.
pub open spec fn opposite(d: int) -> int {
    if d == 0 {
        1
    } else if d == 1 {
        0
    } else if d == 2 {
        3
    } else {
        2
    }
}

/// `(x, y)` is a cell of the grid.
pub open spec fn inside(w: u8, h: u8, x: int, y: int) -> bool {
    0 <= x < w && 0 <= y < h
}

/// The cell one step from `c` in direction `d`, if the grid has one.
pub open spec fn neighbor(w: u8, h: u8, c: Cell, d: int) -> Option<Cell> {
    let x = c.0 + dir_x(d);
    let y = c.1 + dir_y(d);
    if inside(w, h, x, y) {
        Some((x as u8, y as u8))
    } else {
        None
    }
}

/// Bit of cell `c` in a plane of width `w`.
pub open spec fn at(bits: Seq<bool>, w: u8, c: Cell) -> bool {
    bits[flat(w as int, c.0 as int, c.1 as int)]
}

/// `c` is a cell of the grid.
pub open spec fn on_grid(w: u8, h: u8, c: Cell) -> bool {
    c.0 < w && c.1 < h
}

/// A wall or the edge of the grid lies beside `c` in direction `d`.
pub open spec fn shut(w: u8, h: u8, walls: Seq<bool>, c: Cell, d: int) -> bool {
    match neighbor(w, h, c, d) {
        Some(n) => at(walls, w, n),
        None => true,
    }
}

/// The cell at a row-major position.
pub open spec fn cell_at(w: u8, i: int) -> Cell {
    ((i % (w as int)) as u8, (i / (w as int)) as u8)
}

/// The row-major position of a cell.
pub open spec fn pos(w: u8, c: Cell) -> int {
    flat(w as int, c.0 as int, c.1 as int)
}

/// A rule that says where a step from a cell in a direction leads, if anywhere.
pub type Step = spec_fn(Cell, int) -> Option<Cell>;

/// The cell that a sequence of directions leads to from `from`, if every step is allowed.
pub open spec fn follow(step: Step, from: Cell, dirs: Seq<int>) -> Option<Cell>
    decreases dirs.len(),
{
    if dirs.len() == 0 {
        Some(from)
    } else {
        match follow(step, from, dirs.drop_last()) {
            Some(m) => if 0 <= dirs.last() < 4 {
                step(m, dirs.last())
            } else {
                None
            },
            None => None,
        }
    }
}

/// Some sequence of allowed steps leads from `from` to `to`.
pub open spec fn reaches(step: Step, from: Cell, to: Cell) -> bool {
    exists|dirs: Seq<int>| #[trigger] follow(step, from, dirs) == Some(to)
}

/// Whether a cell is free of walls and boxes.
pub open spec fn is_free(w: u8, walls: Seq<bool>, boxes: Seq<bool>, c: Cell) -> bool {
    !at(walls, w, c) && !at(boxes, w, c)
}

/// The player's steps: to an adjacent free cell.
pub open spec fn walk_step(w: u8, h: u8, walls: Seq<bool>, boxes: Seq<bool>) -> Step {
    |c: Cell, d: int|
        match neighbor(w, h, c, d) {
            Some(n) => if is_free(w, walls, boxes, n) {
                Some(n)
            } else {
                None
            },
            None => None,
        }
}

/// Horizontal offset of direction `d`.
pub fn dx_of(d: usize) -> (r: i8)
    ensures
        r == dir_x(d as int),
{
    if d == 2 {
        -1
    } else if d == 3 {
        1
    } else {
        0
    }
}

/// Vertical offset of direction `d`.
pub fn dy_of(d: usize) -> (r: i8)
    ensures
        r == dir_y(d as int),
{
    if d == 0 {
        -1
    } else if d == 1 {
        1
    } else {
        0
    }
}

/// Whether signed coordinates lie on the grid.
pub fn in_bounds(width: u8, height: u8, x: i16, y: i16) -> (r: bool)
    ensures
        r == inside(width, height, x as int, y as int),
{
    x >= 0 && y >= 0 && x < width as i16 && y < height as i16
}

/// A coordinate moved by an offset.
pub fn shifted(c: u8, d: i8) -> (r: i16)
    ensures
        r == c + d,
{
    c as i16 + d as i16
}

/// The cell one step from `(x, y)` in direction `d`, if the grid has one.
pub fn step_from(width: u8, height: u8, x: u8, y: u8, d: usize) -> (r: Option<(u8, u8)>)
    ensures
        r == neighbor(width, height, (x, y), d as int),
{
    let nx = shifted(x, dx_of(d));
    let ny = shifted(y, dy_of(d));
    if !in_bounds(width, height, nx, ny) {
        return None;
    }
    Some((nx as u8, ny as u8))
}

/// The direction that points the other way.
pub fn opposite_of(d: usize) -> (r: usize)
    requires
        d < 4,
    ensures
        r == opposite(d as int),
        r < 4,
{
    if d == 0 {
        1
    } else if d == 1 {
        0
    } else if d == 2 {
        3
    } else {
        2
    }
}

/// Positions of a grid and its cells correspond.
pub proof fn lemma_cell_at(w: u8, h: u8, i: int)
    requires
        0 <= i < w * h,
    ensures
        0 < w,
        on_grid(w, h, cell_at(w, i)),
        pos(w, cell_at(w, i)) == i,
{
    if w == 0 {
        assert(w * h == 0) by (nonlinear_arith)
            requires
                w == 0,
        ;
    }
    lemma_unflat(w as int, h as int, i);
}

/// Cells of a grid and their positions correspond.
pub proof fn lemma_pos(w: u8, h: u8, c: Cell)
    requires
        on_grid(w, h, c),
    ensures
        0 <= pos(w, c) < w * h,
        cell_at(w, pos(w, c)) == c,
{
    lemma_flat(w as int, h as int, c.0 as int, c.1 as int);
}

/// The cell at a row-major position.
pub fn cell_of(width: u8, height: u8, i: usize) -> (r: (u8, u8))
    requires
        i < width * height,
    ensures
        r == cell_at(width, i as int),
        on_grid(width, height, r),
        pos(width, r) == i,
{
    proof {
        lemma_cell_at(width, height, i as int);
    }
    let w = width as usize;
    ((i % w) as u8, (i / w) as u8)
}

/// The row-major position of a cell.
pub fn pos_of(width: u8, height: u8, x: u8, y: u8) -> (r: usize)
    requires
        on_grid(width, height, (x, y)),
    ensures
        r == pos(width, (x, y)),
        r < width * height,
{
    proof {
        lemma_pos(width, height, (x, y));
    }
    cell_count(y, width) + x as usize
}

/// What the set cells of a plane are: the cells whose bit is set, each once, by position.
pub proof fn lemma_set_cells(w: u8, h: u8, bits: Seq<bool>, n: nat)
    requires
        n <= w * h,
    ensures
        set_cells(bits, w as int, n).len() <= n,
        forall|k: int|
            0 <= k < set_cells(bits, w as int, n).len() ==> {
                let c = #[trigger] set_cells(bits, w as int, n)[k];
                on_grid(w, h, c) && at(bits, w, c) && pos(w, c) < n
            },
        forall|j: int, k: int|
            0 <= j < k < set_cells(bits, w as int, n).len() ==> pos(
                w,
                #[trigger] set_cells(bits, w as int, n)[j],
            ) < pos(w, #[trigger] set_cells(bits, w as int, n)[k]),
        forall|c: Cell|
            on_grid(w, h, c) && pos(w, c) < n && at(bits, w, c) ==> #[trigger] set_cells(
                bits,
                w as int,
                n,
            ).contains(c),
    decreases n,
{
    if n > 0 {
        let i = n - 1;
        lemma_set_cells(w, h, bits, i as nat);
        lemma_cell_at(w, h, i);
        let before = set_cells(bits, w as int, i as nat);
        let all = set_cells(bits, w as int, n);
        assert forall|c: Cell|
            on_grid(w, h, c) && pos(w, c) < n && at(bits, w, c) implies #[trigger] all.contains(
            c,
        ) by {
            if pos(w, c) < i {
                assert(before.contains(c));
                let k = choose|k: int| 0 <= k < before.len() && before[k] == c;
                assert(all[k] == c);
            } else {
                lemma_pos(w, h, c);
                assert(all[before.len() as int] == c);
            }
        }
    }
}

/// The grid has a cell in column `x` and row `y`, and its bit is set.
pub open spec fn marked(w: u8, h: u8, bits: Seq<bool>, x: int, y: int) -> bool {
    0 <= x < w && 0 <= y < h && bits[y * w + x]
}

/// The grid has a cell in column `x` and row `y`, and its bit is clear.
pub open spec fn unmarked(w: u8, h: u8, bits: Seq<bool>, x: int, y: int) -> bool {
    0 <= x < w && 0 <= y < h && !bits[y * w + x]
}

/// The cells beside a cell, as columns and rows.
pub proof fn law_directions(w: u8, h: u8, c: Cell, d: int)
    requires
        on_grid(w, h, c),
        0 <= d < 4,
    ensures
        ({
            let (x, y) = (c.0 as int, c.1 as int);
            let n = neighbor(w, h, c, d);
            let m = n->0;
            &&& d == 0 ==> (n is Some <==> 1 <= y) && (n is Some ==> m.0 == x && m.1 == y - 1)
            &&& d == 1 ==> (n is Some <==> y + 1 < h) && (n is Some ==> m.0 == x && m.1 == y + 1)
            &&& d == 2 ==> (n is Some <==> 1 <= x) && (n is Some ==> m.0 == x - 1 && m.1 == y)
            &&& d == 3 ==> (n is Some <==> x + 1 < w) && (n is Some ==> m.0 == x + 1 && m.1 == y)
            &&& n is Some ==> neighbor(w, h, m, opposite(d)) == Some(c)
        }),
{
}

} // verus!
