//! Why the estimate that guides the search is a lower bound.
//!
//! Each box of a solved level has come to a goal of its own by pushes of its own. Taken backward,
//! these are steps of the kind that distances count.

use vstd::prelude::*;

use crate::bfs::{is_least_path, lemma_follow_concat, lemma_least_exists};
use crate::closed_edge::Ground;
use crate::deadlock::{law_pushes_keep_the_boxes, law_stray_box_is_no_solution, number};
use crate::distance::{is_distance, pull_step};
use crate::estimate::{box_costs, estimate, push_distance};
use crate::grid::{
    at, follow, lemma_pos, lemma_set_cells, neighbor, on_grid, opposite, pos, reaches, Cell, Step,
};
use crate::level::all_covered;
use crate::matching::{assigns, law_no_assignment_is_cheaper, total, Costs, INFEASIBLE};
use crate::pushes::boxes_of;
use crate::reach::lemma_distinct_cells;
use crate::rules::{lemma_push_box, push_box, push_boxes, Board};
use crate::solver::goals_of;

verus! {

/// The sum of some lengths.
spec fn steps(paths: Seq<Seq<int>>) -> int
    decreases paths.len(),
{
    if paths.len() == 0 {
        0
    } else {
        steps(paths.drop_last()) + paths.last().len()
    }
}

proof fn lemma_steps_update(paths: Seq<Seq<int>>, k: int, path: Seq<int>)
    requires
        0 <= k < paths.len(),
    ensures
        steps(paths.update(k, path)) == steps(paths) - paths[k].len() + path.len(),
    decreases paths.len(),
{
    let last = paths.len() - 1;
    if k == last {
        assert(paths.update(k, path).drop_last() =~= paths.drop_last());
    } else {
        assert(paths.update(k, path).drop_last() =~= paths.drop_last().update(k, path));
        lemma_steps_update(paths.drop_last(), k, path);
    }
}

proof fn lemma_no_steps(paths: Seq<Seq<int>>)
    requires
        forall|k: int| 0 <= k < paths.len() ==> (#[trigger] paths[k]).len() == 0,
    ensures
        steps(paths) == 0,
    decreases paths.len(),
{
    if paths.len() > 0 {
        assert(paths.drop_last().len() < paths.len());
        assert forall|k: int| 0 <= k < paths.drop_last().len() implies (
        #[trigger] paths.drop_last()[k]).len() == 0 by {
            assert(paths[k].len() == 0);
        }
        lemma_no_steps(paths.drop_last());
        assert(paths[paths.len() - 1].len() == 0);
    }
}

/// `cells` are the boxes, in the order of the cells that they started on, and `paths` lead each of
/// them back there.
spec fn tracks(
    g: Ground,
    start: Seq<Cell>,
    boxes: Seq<bool>,
    cells: Seq<Cell>,
    paths: Seq<Seq<int>>,
) -> bool {
    &&& cells.len() == start.len()
    &&& paths.len() == start.len()
    &&& forall|k: int|
        0 <= k < cells.len() ==> on_grid(g.w, g.h, #[trigger] cells[k]) && at(boxes, g.w, cells[k])
    &&& forall|j: int, k: int| 0 <= j < k < cells.len() ==> cells[j] != cells[k]
    &&& forall|c: Cell| on_grid(g.w, g.h, c) && #[trigger] at(boxes, g.w, c) ==> cells.contains(c)
    &&& forall|k: int|
        0 <= k < cells.len() ==> follow(
            pull_step(g.w, g.h, g.walls),
            #[trigger] cells[k],
            paths[k],
        ) == Some(start[k])
}

proof fn lemma_track_start(g: Ground, boxes: Seq<bool>) -> (paths: Seq<Seq<int>>)
    ensures
        tracks(g, boxes_of(g, boxes), boxes, boxes_of(g, boxes), paths),
        steps(paths) == 0,
{
    let start = boxes_of(g, boxes);
    let paths = Seq::new(start.len(), |k: int| Seq::<int>::empty());
    assert(0 <= g.w * g.h) by (nonlinear_arith);
    lemma_set_cells(g.w, g.h, boxes, (g.w * g.h) as nat);
    lemma_no_steps(paths);
    assert forall|j: int, k: int| 0 <= j < k < start.len() implies start[j] != start[k] by {
        assert(pos(g.w, start[j]) < pos(g.w, start[k]));
    }
    assert forall|c: Cell| on_grid(g.w, g.h, c) && #[trigger] at(
        boxes,
        g.w,
        c,
    ) implies start.contains(c) by {
        lemma_pos(g.w, g.h, c);
    }
    paths
}

/// A push, taken backward, is a step that distances count.
proof fn lemma_pull(g: Ground, c: Cell, d: int)
    requires
        0 <= d < 4,
        neighbor(g.w, g.h, c, d) is Some,
        neighbor(g.w, g.h, c, opposite(d)) is Some,
        !at(g.walls, g.w, c),
        !at(g.walls, g.w, neighbor(g.w, g.h, c, opposite(d))->0),
    ensures
        pull_step(g.w, g.h, g.walls)(neighbor(g.w, g.h, c, d)->0, opposite(d)) == Some(c),
{
    let to = neighbor(g.w, g.h, c, d)->0;
    assert(neighbor(g.w, g.h, to, opposite(d)) == Some(c));
}

proof fn lemma_track_push(
    g: Ground,
    start: Seq<Cell>,
    b: Board,
    cells: Seq<Cell>,
    paths: Seq<Seq<int>>,
    c: Cell,
    d: int,
) -> (r: (Seq<Cell>, Seq<Seq<int>>))
    requires
        b.w == g.w && b.h == g.h && b.walls == g.walls,
        b.wf(),
        tracks(g, start, b.boxes, cells, paths),
        push_box(b, c, d) is Some,
    ensures
        tracks(g, start, (push_box(b, c, d)->0).boxes, r.0, r.1),
        steps(r.1) == steps(paths) + 1,
{
    lemma_push_box(b, c, d);
    let after = push_box(b, c, d)->0;
    let step = pull_step(g.w, g.h, g.walls);
    let to = neighbor(g.w, g.h, c, d)->0;
    assert(at(b.boxes, g.w, c));
    let k = choose|k: int| 0 <= k < cells.len() && cells[k] == c;
    let back = seq![opposite(d)];
    let path = back + paths[k];
    let (cells2, paths2) = (cells.update(k, to), paths.update(k, path));
    lemma_pull(g, c, d);
    assert(back.drop_last() =~= Seq::<int>::empty());
    assert(follow(step, to, back) == Some(c)) by {
        assert(follow(step, to, back.drop_last()) == Some(to));
    }
    lemma_follow_concat(step, to, back, paths[k]);
    lemma_steps_update(paths, k, path);
    assert forall|j: int| 0 <= j < cells2.len() implies on_grid(g.w, g.h, #[trigger] cells2[j])
        && at(after.boxes, g.w, cells2[j]) by {
        if j != k {
            assert(on_grid(g.w, g.h, cells[j]));
            assert(cells[j] != cells[k]);
        }
    }
    assert forall|i: int, j: int| 0 <= i < j < cells2.len() implies cells2[i] != cells2[j] by {
        assert(cells[i] != cells[j]);
        assert(at(b.boxes, g.w, cells[i]) && at(b.boxes, g.w, cells[j]));
        assert(!at(b.boxes, g.w, to));
    }
    assert forall|m: Cell| on_grid(g.w, g.h, m) && #[trigger] at(
        after.boxes,
        g.w,
        m,
    ) implies cells2.contains(m) by {
        if m == to {
            assert(cells2[k] == to);
        } else {
            assert(at(b.boxes, g.w, m));
            let j = choose|j: int| 0 <= j < cells.len() && cells[j] == m;
            assert(cells2[j] == m);
        }
    }
    assert forall|j: int| 0 <= j < cells2.len() implies follow(
        step,
        #[trigger] cells2[j],
        paths2[j],
    ) == Some(start[j]) by {
        assert(follow(step, cells[j], paths[j]) == Some(start[j]));
    }
    (cells2, paths2)
}

/// Follow each box through some pushes.
proof fn lemma_track(g: Ground, b: Board, pushes: Seq<(Cell, int)>) -> (r: (
    Seq<Cell>,
    Seq<Seq<int>>,
))
    requires
        b.w == g.w && b.h == g.h && b.walls == g.walls,
        b.wf(),
        push_boxes(b, pushes) is Some,
    ensures
        tracks(g, boxes_of(g, b.boxes), (push_boxes(b, pushes)->0).boxes, r.0, r.1),
        steps(r.1) == pushes.len(),
    decreases pushes.len(),
{
    if pushes.len() == 0 {
        (boxes_of(g, b.boxes), lemma_track_start(g, b.boxes))
    } else {
        let less = pushes.drop_last();
        let (cells, paths) = lemma_track(g, b, less);
        law_pushes_keep_the_boxes(b, less);
        let (c, d) = pushes.last();
        lemma_track_push(
            g,
            boxes_of(g, b.boxes),
            push_boxes(b, less)->0,
            cells,
            paths,
            c,
            d,
        )
    }
}

/// The cell that the first `i` directions lead to.
spec fn waypoint(step: Step, from: Cell, dirs: Seq<int>, i: int) -> Cell {
    follow(step, from, dirs.take(i))->0
}

proof fn lemma_waypoint(g: Ground, from: Cell, dirs: Seq<int>, i: int)
    requires
        on_grid(g.w, g.h, from),
        follow(pull_step(g.w, g.h, g.walls), from, dirs) is Some,
        0 <= i <= dirs.len(),
    ensures
        follow(pull_step(g.w, g.h, g.walls), from, dirs.take(i)) is Some,
        on_grid(g.w, g.h, waypoint(pull_step(g.w, g.h, g.walls), from, dirs, i)),
    decreases i,
{
    let step = pull_step(g.w, g.h, g.walls);
    lemma_follow_concat(step, from, dirs.take(i), dirs.skip(i));
    assert(dirs.take(i) + dirs.skip(i) =~= dirs);
    if i > 0 {
        lemma_waypoint(g, from, dirs, i - 1);
        assert(dirs.take(i).drop_last() =~= dirs.take(i - 1));
    } else {
        assert(dirs.take(0) =~= Seq::<int>::empty());
    }
}

/// A shortest way has fewer steps than the grid has cells.
proof fn lemma_distance_bound(g: Ground, from: Cell, to: Cell, n: int)
    requires
        on_grid(g.w, g.h, from),
        is_distance(pull_step(g.w, g.h, g.walls), from, to, n),
    ensures
        n < g.w * g.h,
{
    let step = pull_step(g.w, g.h, g.walls);
    let dirs = choose|dirs: Seq<int>| #[trigger]
        follow(step, from, dirs) == Some(to) && dirs.len() == n;
    let cells = Seq::new((n + 1) as nat, |i: int| waypoint(step, from, dirs, i));
    assert forall|i: int| 0 <= i < cells.len() implies on_grid(g.w, g.h, #[trigger] cells[i]) by {
        lemma_waypoint(g, from, dirs, i);
    }
    assert forall|i: int, j: int| 0 <= i < j < cells.len() implies cells[i] != cells[j] by {
        lemma_waypoint(g, from, dirs, i);
        lemma_waypoint(g, from, dirs, j);
        if cells[i] == cells[j] {
            let cut = dirs.take(i) + dirs.skip(j);
            lemma_follow_concat(step, from, dirs.take(i), dirs.skip(j));
            lemma_follow_concat(step, from, dirs.take(j), dirs.skip(j));
            assert(dirs.take(j) + dirs.skip(j) =~= dirs);
            assert(follow(step, from, cut) == Some(to));
            assert(cut.len() < n);
        }
    }
    lemma_distinct_cells(g.w, g.h, cells);
}

/// A way of steps that distances count is at least as long as the distance.
proof fn lemma_at_most(g: Ground, goal: Cell, c: Cell, dirs: Seq<int>)
    requires
        on_grid(g.w, g.h, goal),
        follow(pull_step(g.w, g.h, g.walls), goal, dirs) == Some(c),
    ensures
        push_distance(g, goal, c) <= dirs.len(),
        push_distance(g, goal, c) < INFEASIBLE,
{
    let step = pull_step(g.w, g.h, g.walls);
    lemma_least_exists(step, goal, c, dirs);
    let least = choose|least: Seq<int>| is_least_path(step, goal, c, least);
    assert(is_distance(step, goal, c, least.len() as int)) by {
        assert(follow(step, goal, least) == Some(c));
    }
    assert(reaches(step, goal, c));
    let n = choose|n: nat| is_distance(step, goal, c, n as int);
    assert(is_distance(step, goal, c, n as int)) by {
        assert(is_distance(step, goal, c, least.len() as nat as int));
    }
    lemma_distance_bound(g, goal, c, n as int);
    assert(g.w * g.h <= 65025) by (nonlinear_arith)
        requires
            0 <= g.w <= 255,
            0 <= g.h <= 255,
    ;
}

proof fn lemma_total_at_most(c: Costs, a: Seq<int>, paths: Seq<Seq<int>>)
    requires
        a.len() == paths.len(),
        forall|k: int| 0 <= k < a.len() ==> c(k, #[trigger] a[k]) <= paths[k].len(),
    ensures
        total(c, a) <= steps(paths),
    decreases a.len(),
{
    if a.len() > 0 {
        let (a2, paths2) = (a.drop_last(), paths.drop_last());
        assert forall|k: int| 0 <= k < a2.len() implies c(k, #[trigger] a2[k])
            <= paths2[k].len() by {
            assert(c(k, a[k]) <= paths[k].len());
        }
        lemma_total_at_most(c, a2, paths2);
        assert(c(a.len() - 1, a[a.len() - 1]) <= paths[a.len() - 1].len());
    }
}

/// The estimate is a lower bound: pushes that solve a level with no more boxes than goals are at
/// least as many as it says.
pub proof fn law_estimate_is_a_lower_bound(g: Ground, b: Board, pushes: Seq<(Cell, int)>)
    requires
        b.w == g.w && b.h == g.h && b.walls == g.walls,
        b.wf(),
        number(g.w, g.h, b.boxes) <= number(g.w, g.h, g.goals),
        push_boxes(b, pushes) is Some,
        all_covered(g.w, g.h, g.goals, (push_boxes(b, pushes)->0).boxes),
    ensures
        estimate(g, b.boxes) <= pushes.len(),
{
    let after = push_boxes(b, pushes)->0;
    let start = boxes_of(g, b.boxes);
    let goals = goals_of(g);
    let (n, m) = (start.len() as int, goals.len() as int);
    let costs = box_costs(g, b.boxes);
    let (cells, paths) = lemma_track(g, b, pushes);
    law_pushes_keep_the_boxes(b, pushes);
    assert(0 <= g.w * g.h) by (nonlinear_arith);
    lemma_set_cells(g.w, g.h, g.goals, (g.w * g.h) as nat);
    assert forall|k: int| 0 <= k < n implies goals.contains(#[trigger] cells[k]) by {
        if !at(g.goals, g.w, cells[k]) {
            law_stray_box_is_no_solution(g.w, g.h, g.goals, after.boxes, cells[k]);
        }
        lemma_pos(g.w, g.h, cells[k]);
    }
    let a = Seq::new(n as nat, |k: int| choose|j: int| 0 <= j < m && goals[j] == cells[k]);
    assert forall|k: int| 0 <= k < n implies 0 <= #[trigger] a[k] < m && goals[a[k]] == cells[k]
        && costs(k, a[k]) <= paths[k].len() && costs(k, a[k]) < INFEASIBLE by {
        assert(goals.contains(cells[k]));
        let j = choose|j: int| 0 <= j < m && goals[j] == cells[k];
        assert(a[k] == j);
        lemma_at_most(g, cells[k], start[k], paths[k]);
    }
    assert forall|j: int, k: int| 0 <= j < k < n implies a[j] != a[k] by {
        assert(cells[j] != cells[k]);
        assert(goals[a[j]] == cells[j]);
        assert(goals[a[k]] == cells[k]);
    }
    assert(assigns(costs, n, m, a));
    assert forall|i: int, j: int| 0 <= #[trigger] costs(i, j) by {}
    law_no_assignment_is_cheaper(costs, n, m, a);
    lemma_total_at_most(costs, a, paths);
}

} // verus!
