//! Push distances to the goals.

use std::collections::VecDeque;

use vstd::prelude::*;

use crate::bfs::{
    is_least_path, lemma_advance, lemma_begin, lemma_discover, lemma_finished, lemma_path_len,
    lemma_skip, Exploration,
};
use crate::bitplane::{cell_count, set_cells, BitPlane};
use crate::grid::{
    at, follow, lemma_pos, lemma_set_cells, neighbor, on_grid, pos, pos_of, reaches, step_from,
    Cell, Step,
};
use crate::reach::{fits, lemma_cell_stored, lemma_distinct_cells};

verus! {

/// Backward push steps: from a cell to an adjacent floor cell that a box was pushed from, where the
/// cell beyond, which the player pushed from, is floor as well.
pub open spec fn pull_step(w: u8, h: u8, walls: Seq<bool>) -> Step {
    |c: Cell, d: int|
        match neighbor(w, h, c, d) {
            Some(b) => match neighbor(w, h, b, d) {
                Some(p) => if !at(walls, w, b) && !at(walls, w, p) {
                    Some(b)
                } else {
                    None
                },
                None => None,
            },
            None => None,
        }
}

/// `n` is the least number of steps from `from` to `to`.
pub open spec fn is_distance(step: Step, from: Cell, to: Cell, n: int) -> bool {
    &&& exists|dirs: Seq<int>| #[trigger] follow(step, from, dirs) == Some(to) && dirs.len() == n
    &&& forall|dirs: Seq<int>| #[trigger] follow(step, from, dirs) == Some(to) ==> n <= dirs.len()
}

/// `dist` holds the distance of every cell of the grid from `from`, `u32::MAX` for a cell that
/// cannot be reached.
pub open spec fn is_distance_table(
    step: Step,
    w: u8,
    h: u8,
    from: Cell,
    dist: Seq<u32>,
) -> bool {
    &&& dist.len() == w * h
    &&& forall|c: Cell|
        on_grid(w, h, c) && reaches(step, from, c) ==> #[trigger] dist[pos(w, c)] < w * h
            && is_distance(step, from, c, dist[pos(w, c)] as int)
    &&& forall|c: Cell|
        on_grid(w, h, c) && !reaches(step, from, c) ==> #[trigger] dist[pos(w, c)] == u32::MAX
}

/// The table of an exploration: the number of directions to each discovered cell.
spec fn records(x: Exploration, w: u8, h: u8, dist: Seq<u32>) -> bool {
    &&& dist.len() == w * h
    &&& forall|j: int| 0 <= j < x.order.len() ==> on_grid(w, h, #[trigger] x.order[j])
    &&& forall|j: int|
        0 <= j < x.order.len() ==> dist[pos(w, #[trigger] x.order[j])] == x.paths[j].len()
    &&& forall|c: Cell|
        on_grid(w, h, c) && !x.order.contains(c) ==> #[trigger] dist[pos(w, c)] == u32::MAX
}

proof fn lemma_record(
    x: Exploration,
    w: u8,
    h: u8,
    dist: Seq<u32>,
    c: Cell,
    head: int,
    dir: int,
    n: u32,
)
    requires
        records(x, w, h, dist),
        x.order.len() == x.paths.len(),
        on_grid(w, h, c),
        !x.order.contains(c),
        0 <= head < x.order.len(),
        n == x.paths[head].len() + 1,
    ensures
        records(x.add(c, head, dir), w, h, dist.update(pos(w, c), n)),
{
    let y = x.add(c, head, dir);
    let new = dist.update(pos(w, c), n);
    lemma_pos(w, h, c);
    assert forall|j: int| 0 <= j < y.order.len() implies new[pos(w, #[trigger] y.order[j])]
        == y.paths[j].len() by {
        if j < x.order.len() {
            assert(y.order[j] == x.order[j]);
            assert(on_grid(w, h, x.order[j]));
            lemma_pos(w, h, x.order[j]);
            assert(x.order.contains(x.order[j]));
        }
    }
    assert forall|b: Cell| on_grid(w, h, b) && !y.order.contains(b) implies #[trigger] new[pos(
        w,
        b,
    )] == u32::MAX by {
        lemma_pos(w, h, b);
        if x.order.contains(b) {
            let j = choose|j: int| 0 <= j < x.order.len() && x.order[j] == b;
            assert(y.order[j] == b);
        }
        assert(y.order[x.order.len() as int] == c);
    }
    assert forall|j: int| 0 <= j < y.order.len() implies on_grid(w, h, #[trigger] y.order[j]) by {
        if j < x.order.len() {
            assert(y.order[j] == x.order[j]);
        }
    }
}

/// The step backwards from a cell in direction `d`.
fn pull_from(walls: &BitPlane, width: u8, height: u8, x: u8, y: u8, d: usize) -> (r: Option<
    (u8, u8),
>)
    requires
        fits(walls, width, height),
        on_grid(width, height, (x, y)),
        d < 4,
    ensures
        r == pull_step(width, height, walls@)((x, y), d as int),
        r matches Some(b) ==> on_grid(width, height, b),
{
    match step_from(width, height, x, y, d) {
        Some((bx, by)) => match step_from(width, height, bx, by, d) {
            Some((px, py)) => {
                proof {
                    lemma_cell_stored(walls, width, height, (bx, by));
                    lemma_cell_stored(walls, width, height, (px, py));
                }
                if walls.get(bx, by) || walls.get(px, py) {
                    None
                } else {
                    Some((bx, by))
                }
            },
            None => None,
        },
        None => None,
    }
}

/// The distances from one goal.
fn distances_from(walls: &BitPlane, width: u8, height: u8, gx: u8, gy: u8) -> (dist: Vec<u32>)
    requires
        fits(walls, width, height),
        on_grid(width, height, (gx, gy)),
    ensures
        is_distance_table(
            pull_step(width, height, walls@),
            width,
            height,
            (gx, gy),
            dist@,
        ),
{
    let ghost start: Cell = (gx, gy);
    let ghost step: Step = pull_step(width, height, walls@);
    let cells = cell_count(width, height);
    let mut dist: Vec<u32> = vec![u32::MAX; cells];
    let mut queue: VecDeque<(u8, u8)> = VecDeque::new();
    let gi = pos_of(width, height, gx, gy);
    dist[gi] = 0;
    queue.push_back((gx, gy));
    let ghost mut x = Exploration::begin(start);
    let ghost mut head: int = 0;
    proof {
        lemma_begin(step, start);
        assert forall|c: Cell| on_grid(width, height, c) && !x.order.contains(
            c,
        ) implies #[trigger] dist@[pos(width, c)] == u32::MAX by {
            lemma_pos(width, height, c);
            lemma_pos(width, height, start);
            assert(x.order[0] == start);
        }
        assert(queue@ =~= x.order.skip(head));
    }
    loop
        invariant_except_break
            queue@ == x.order.skip(head),
        invariant
            cells == width * height,
            cells <= 65025,
            fits(walls, width, height),
            step == pull_step(width, height, walls@),
            x.inv(step, start, head, 0),
            records(x, width, height, dist@),
        ensures
            head == x.order.len(),
        decreases width * height - head,
    {
        match queue.pop_front() {
            None => {
                break;
            },
            Some((cx, cy)) => {
                proof {
                    assert(x.order[head] == (cx, cy));
                    lemma_distinct_cells(width, height, x.order);
                    lemma_path_len(x, step, start, head, 0, head);
                    assert(queue@ =~= x.order.skip(head + 1));
                    assert(on_grid(width, height, x.order[head]));
                }
                let ci = pos_of(width, height, cx, cy);
                let n = dist[ci];
                let mut d: usize = 0;
                while d < 4
                    invariant
                        d <= 4,
                        cells == width * height,
                        cells <= 65025,
                        fits(walls, width, height),
                        step == pull_step(width, height, walls@),
                        0 <= head < x.order.len(),
                        head < cells,
                        x.order[head] == (cx, cy),
                        n == x.paths[head].len(),
                        n <= head,
                        x.inv(step, start, head, d as int),
                        records(x, width, height, dist@),
                        queue@ == x.order.skip(head + 1),
                    decreases 4 - d,
                {
                    assert(on_grid(width, height, x.order[head]));
                    let next = pull_from(walls, width, height, cx, cy, d);
                    let mut fresh = false;
                    if let Some((bx, by)) = next {
                        let bi = pos_of(width, height, bx, by);
                        proof {
                            if x.order.contains((bx, by)) {
                                let j = choose|j: int|
                                    0 <= j < x.order.len() && x.order[j] == (bx, by);
                                lemma_path_len(x, step, start, head, d as int, j);
                                lemma_distinct_cells(width, height, x.order);
                            }
                        }
                        if dist[bi] == u32::MAX {
                            fresh = true;
                            proof {
                                lemma_discover(x, step, start, head, d as int, (bx, by));
                                lemma_record(
                                    x,
                                    width,
                                    height,
                                    dist@,
                                    (bx, by),
                                    head,
                                    d as int,
                                    (n + 1) as u32,
                                );
                                x = x.add((bx, by), head, d as int);
                            }
                            dist[bi] = n + 1;
                            queue.push_back((bx, by));
                            assert(queue@ =~= x.order.skip(head + 1));
                        }
                    }
                    proof {
                        if !fresh {
                            lemma_skip(x, step, start, head, d as int);
                        }
                    }
                    d += 1;
                }
                proof {
                    lemma_advance(x, step, start, head);
                    head = head + 1;
                }
            },
        }
    }
    proof {
        lemma_distinct_cells(width, height, x.order);
        assert forall|c: Cell| on_grid(width, height, c) && reaches(
            step,
            start,
            c,
        ) implies #[trigger] dist@[pos(width, c)] < width * height && is_distance(
            step,
            start,
            c,
            dist@[pos(width, c)] as int,
        ) by {
            lemma_finished(x, step, start, c);
            let j = choose|j: int| 0 <= j < x.order.len() && x.order[j] == c;
            lemma_path_len(x, step, start, head, 0, j);
            assert(is_least_path(step, start, c, x.paths[j]));
            assert(follow(step, start, x.paths[j]) == Some(c));
        }
        assert forall|c: Cell| on_grid(width, height, c) && !reaches(
            step,
            start,
            c,
        ) implies #[trigger] dist@[pos(width, c)] == u32::MAX by {
            lemma_finished(x, step, start, c);
        }
    }
    dist
}

/// For each goal, in row-major order, the number of backward push steps from it to each cell.
pub fn precompute_goal_distances(walls: &BitPlane, goals: &BitPlane, width: u8, height: u8) -> (out:
    Vec<Vec<u32>>)
    requires
        fits(walls, width, height),
        fits(goals, width, height),
    ensures
        out@.len() == set_cells(goals@, width as int, (width * height) as nat).len(),
        forall|k: int|
            0 <= k < out@.len() ==> is_distance_table(
                pull_step(width, height, walls@),
                width,
                height,
                set_cells(goals@, width as int, (width * height) as nat)[k],
                #[trigger] out@[k]@,
            ),
{
    let targets = goals.iter_set_bits();
    proof {
        lemma_set_cells(width, height, goals@, (width * height) as nat);
    }
    let mut out: Vec<Vec<u32>> = Vec::new();
    let mut k: usize = 0;
    while k < targets.len()
        invariant
            k <= targets@.len(),
            fits(walls, width, height),
            targets@ == set_cells(goals@, width as int, (width * height) as nat),
            forall|j: int| 0 <= j < targets@.len() ==> on_grid(width, height, #[trigger] targets@[j]),
            out@.len() == k,
            forall|j: int|
                0 <= j < k ==> is_distance_table(
                    pull_step(width, height, walls@),
                    width,
                    height,
                    targets@[j],
                    #[trigger] out@[j]@,
                ),
        decreases targets@.len() - k,
    {
        let (gx, gy) = targets[k];
        assert(on_grid(width, height, targets@[k as int]));
        out.push(distances_from(walls, width, height, gx, gy));
        k += 1;
    }
    out
}

} // verus!
