//! Corridor cells that a pushed box need not stop on.

use vstd::prelude::*;

use crate::bitplane::{cell_count, BitPlane};
use crate::grid::{at, cell_at, cell_of, neighbor, on_grid, step_from, unmarked, Cell};
use crate::reach::{fits, lemma_cell_stored};

verus! {

/// A step in direction `d` meets a wall or cannot be made.
pub open spec fn walled(w: u8, h: u8, walls: Seq<bool>, c: Cell, d: int) -> bool {
    match neighbor(w, h, c, d) {
        Some(n) => at(walls, w, n),
        None => true,
    }
}

/// A box that arrives at `c` by a push in direction `d` is in a tunnel:
///   1. `c` is not a wall, not a dead square, and not a goal.
///   2. The two cells beside `c` across `d` are walls or out of bounds.
///   3. The next cell in direction `d` is in bounds, not a wall, and not a dead square.
pub open spec fn is_tunnel(
    w: u8,
    h: u8,
    walls: Seq<bool>,
    goals: Seq<bool>,
    dead: Seq<bool>,
    c: Cell,
    d: int,
) -> bool {
    &&& !at(walls, w, c) && !at(dead, w, c) && !at(goals, w, c)
    &&& if d < 2 {
        walled(w, h, walls, c, 2) && walled(w, h, walls, c, 3)
    } else {
        walled(w, h, walls, c, 0) && walled(w, h, walls, c, 1)
    }
    &&& match neighbor(w, h, c, d) {
        Some(n) => !at(walls, w, n) && !at(dead, w, n),
        None => false,
    }
}

fn is_walled(walls: &BitPlane, width: u8, height: u8, x: u8, y: u8, d: usize) -> (r: bool)
    requires
        fits(walls, width, height),
        on_grid(width, height, (x, y)),
    ensures
        r == walled(width, height, walls@, (x, y), d as int),
{
    match step_from(width, height, x, y, d) {
        Some((nx, ny)) => {
            proof {
                lemma_cell_stored(walls, width, height, (nx, ny));
            }
            walls.get(nx, ny)
        },
        None => true,
    }
}

/// Whether a floor cell without a goal is a tunnel for pushes in direction `d`.
fn continues(
    walls: &BitPlane,
    dead: &BitPlane,
    width: u8,
    height: u8,
    x: u8,
    y: u8,
    d: usize,
    Ghost(goals): Ghost<Seq<bool>>,
) -> (r: bool)
    requires
        fits(walls, width, height),
        fits(dead, width, height),
        on_grid(width, height, (x, y)),
        !at(walls@, width, (x, y)) && !at(dead@, width, (x, y)) && !at(goals, width, (x, y)),
        d < 4,
    ensures
        r == is_tunnel(width, height, walls@, goals, dead@, (x, y), d as int),
{
    match step_from(width, height, x, y, d) {
        Some((nx, ny)) => {
            proof {
                lemma_cell_stored(walls, width, height, (nx, ny));
                lemma_cell_stored(dead, width, height, (nx, ny));
            }
            if walls.get(nx, ny) || dead.get(nx, ny) {
                return false;
            }
        },
        None => {
            return false;
        },
    }
    if d < 2 {
        is_walled(walls, width, height, x, y, 2) && is_walled(walls, width, height, x, y, 3)
    } else {
        is_walled(walls, width, height, x, y, 0) && is_walled(walls, width, height, x, y, 1)
    }
}

/// For each cell and each push direction, whether a box that arrives there is in a tunnel and
/// should be pushed on.
pub fn compute_tunnels(
    walls: &BitPlane,
    goals: &BitPlane,
    dead: &BitPlane,
    width: u8,
    height: u8,
) -> (out: Vec<[bool; 4]>)
    requires
        fits(walls, width, height),
        fits(goals, width, height),
        fits(dead, width, height),
    ensures
        out@.len() == width * height,
        forall|i: int, d: int|
            0 <= i < width * height && 0 <= d < 4 ==> #[trigger] out@[i]@[d] == is_tunnel(
                width,
                height,
                walls@,
                goals@,
                dead@,
                cell_at(width, i),
                d,
            ),
{
    let cells = cell_count(width, height);
    let mut out: Vec<[bool; 4]> = Vec::new();
    let mut i: usize = 0;
    while i < cells
        invariant
            i <= cells,
            cells == width * height,
            fits(walls, width, height),
            fits(goals, width, height),
            fits(dead, width, height),
            out@.len() == i,
            forall|j: int, d: int|
                0 <= j < i && 0 <= d < 4 ==> #[trigger] out@[j]@[d] == is_tunnel(
                    width,
                    height,
                    walls@,
                    goals@,
                    dead@,
                    cell_at(width, j),
                    d,
                ),
        decreases cells - i,
    {
        let (x, y) = cell_of(width, height, i);
        proof {
            lemma_cell_stored(walls, width, height, (x, y));
            lemma_cell_stored(goals, width, height, (x, y));
            lemma_cell_stored(dead, width, height, (x, y));
        }
        if walls.get(x, y) || dead.get(x, y) || goals.get(x, y) {
            out.push([false, false, false, false]);
        } else {
            let ghost g = goals@;
            let up = continues(walls, dead, width, height, x, y, 0, Ghost(g));
            let down = continues(walls, dead, width, height, x, y, 1, Ghost(g));
            let left = continues(walls, dead, width, height, x, y, 2, Ghost(g));
            let right = continues(walls, dead, width, height, x, y, 3, Ghost(g));
            out.push([up, down, left, right]);
        }
        i += 1;
    }
    out
}

/// A tunnel for pushes up or down has walls to its left and right, one for pushes to the left or
/// right has walls above and below, the edge of the grid being as good as a wall. It is floor that
/// is neither dead nor a goal, and so is the next cell, which may be a goal.
pub proof fn law_tunnels_lie_between_walls(
    w: u8,
    h: u8,
    walls: Seq<bool>,
    goals: Seq<bool>,
    dead: Seq<bool>,
    c: Cell,
    d: int,
)
    requires
        on_grid(w, h, c),
        0 <= d < 4,
    ensures
        ({
            let (x, y) = (c.0 as int, c.1 as int);
            let floor = unmarked(w, h, walls, x, y) && unmarked(w, h, goals, x, y) && unmarked(
                w,
                h,
                dead,
                x,
                y,
            );
            let beside = !unmarked(w, h, walls, x - 1, y) && !unmarked(w, h, walls, x + 1, y);
            let across = !unmarked(w, h, walls, x, y - 1) && !unmarked(w, h, walls, x, y + 1);
            let t = is_tunnel(w, h, walls, goals, dead, c, d);
            &&& d == 0 ==> (t <==> floor && beside && unmarked(w, h, walls, x, y - 1) && unmarked(
                w,
                h,
                dead,
                x,
                y - 1,
            ))
            &&& d == 1 ==> (t <==> floor && beside && unmarked(w, h, walls, x, y + 1) && unmarked(
                w,
                h,
                dead,
                x,
                y + 1,
            ))
            &&& d == 2 ==> (t <==> floor && across && unmarked(w, h, walls, x - 1, y) && unmarked(
                w,
                h,
                dead,
                x - 1,
                y,
            ))
            &&& d == 3 ==> (t <==> floor && across && unmarked(w, h, walls, x + 1, y) && unmarked(
                w,
                h,
                dead,
                x + 1,
                y,
            ))
        }),
{
}

} // verus!
