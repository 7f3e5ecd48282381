//! The lower bound that guides the search, and the player's region.

use vstd::prelude::*;

use crate::bfs::{is_least_path, lemma_follow_concat, lemma_follow_push, lemma_least_exists};
use crate::bitplane::{cell_count, BitPlane};
use crate::closed_edge::Ground;
use crate::corral::lemma_region_transitive;
use crate::distance::{is_distance, is_distance_table, pull_step};
use crate::grid::{
    at, cell_at, dir_x, dir_y, follow, is_free, lemma_cell_at, lemma_pos, lemma_set_cells, neighbor,
    on_grid, opposite, pos, pos_of, reaches, unmarked, walk_step, Cell,
};
use crate::level::{all_covered, covers};
use crate::matching::{
    assigns, hungarian_matching, law_matching_cost_is_attained, law_no_assignment_is_cheaper,
    lemma_matching_cost_nonnegative, lemma_same_costs, lemma_too_many_workers, matching_cost, matrix,
    tabulates, total, Costs,
};
use crate::moves::{lemma_stand, stand, stand_of};
use crate::pushes::boxes_of;
use crate::reach::{fits, flood_fill, in_region, lemma_cell_stored};
use crate::solver::{goals_of, Solver};

verus! {

/// Number of pushes from a cell to a goal with no other box in the way, `u32::MAX` if there is
/// no such sequence.
pub open spec fn push_distance(g: Ground, goal: Cell, c: Cell) -> int {
    let step = pull_step(g.w, g.h, g.walls);
    if reaches(step, goal, c) {
        (choose|n: nat| is_distance(step, goal, c, n as int)) as int
    } else {
        u32::MAX as int
    }
}

/// The distance of each box, in row-major order, to each goal.
pub open spec fn box_costs(g: Ground, boxes: Seq<bool>) -> Costs {
    |b: int, k: int| push_distance(g, goals_of(g)[k], boxes_of(g, boxes)[b])
}

/// The least sum of distances over the assignments of the boxes to different goals.
pub open spec fn estimate(g: Ground, boxes: Seq<bool>) -> int {
    if boxes_of(g, boxes).len() == 0 {
        0
    } else {
        matching_cost(
            box_costs(g, boxes),
            boxes_of(g, boxes).len() as int,
            goals_of(g).len() as int,
        )
    }
}

/// `i` is the first position of the player's region.
pub open spec fn is_first(g: Ground, boxes: Seq<bool>, player: Cell, i: int) -> bool {
    &&& 0 <= i < g.w * g.h
    &&& in_region(g.w, g.h, g.walls, boxes, player, cell_at(g.w, i))
    &&& forall|j: int|
        0 <= j < i ==> !in_region(g.w, g.h, g.walls, boxes, player, #[trigger] cell_at(g.w, j))
}

/// The first position of the region of a player at position `p`; `p` itself when it is no free
/// cell.
pub open spec fn normal(g: Ground, boxes: Seq<bool>, p: int) -> int {
    let player = stand(g.w, p);
    if exists|i: int| is_first(g, boxes, player, i) {
        choose|i: int| is_first(g, boxes, player, i)
    } else {
        p
    }
}

/// The distance is the one that a table records.
proof fn lemma_push_distance(g: Ground, goal: Cell, c: Cell, dist: Seq<u32>)
    requires
        is_distance_table(pull_step(g.w, g.h, g.walls), g.w, g.h, goal, dist),
        on_grid(g.w, g.h, c),
    ensures
        push_distance(g, goal, c) == dist[pos(g.w, c)],
{
    let step = pull_step(g.w, g.h, g.walls);
    if reaches(step, goal, c) {
        let n = dist[pos(g.w, c)] as nat;
        assert(is_distance(step, goal, c, n as int));
        let m = choose|m: nat| is_distance(step, goal, c, m as int);
        assert(is_distance(step, goal, c, m as int));
        let a = choose|dirs: Seq<int>| #[trigger]
            follow(step, goal, dirs) == Some(c) && dirs.len() == n;
        let b = choose|dirs: Seq<int>| #[trigger]
            follow(step, goal, dirs) == Some(c) && dirs.len() == m;
        assert(m <= a.len() && n <= b.len());
    }
}

impl Solver {
    /// Whether every goal has a box on it.
    pub fn is_solved(&self, boxes: &BitPlane) -> (r: bool)
        requires
            self.sized(),
            fits(boxes, self.width, self.height),
        ensures
            r == all_covered(self.width, self.height, self.goals@, boxes@),
    {
        covers(&self.goals, boxes, self.width, self.height)
    }

    /// The cost of the cheapest assignment of boxes to different goals.
    pub fn heuristic(&self, boxes: &BitPlane) -> (r: u32)
        requires
            self.wf(),
            fits(boxes, self.width, self.height),
        ensures
            r == estimate(self.ground(), boxes@),
    {
        let (w, h) = (self.width, self.height);
        let ghost g = self.ground();
        let list = boxes.iter_set_bits();
        let cells = cell_count(w, h);
        proof {
            lemma_set_cells(w, h, boxes@, (w * h) as nat);
            lemma_set_cells(w, h, self.goals@, (w * h) as nat);
        }
        let mut box_flats: Vec<usize> = Vec::new();
        let mut k: usize = 0;
        while k < list.len()
            invariant
                k <= list@.len(),
                box_flats@.len() == k,
                forall|j: int| 0 <= j < list@.len() ==> on_grid(w, h, #[trigger] list@[j]),
                forall|j: int|
                    0 <= j < k ==> #[trigger] box_flats@[j] == pos(w, list@[j]) && box_flats@[j] < w
                        * h,
            decreases list@.len() - k,
        {
            let (x, y) = list[k];
            assert(on_grid(w, h, list@[k as int]));
            box_flats.push(pos_of(w, h, x, y));
            k += 1;
        }
        let n_boxes = box_flats.len();
        let n_goals = self.goal_distances.len();
        if n_boxes == 0 {
            return 0;
        }
        let distances = &self.goal_distances;
        let flats = &box_flats;
        proof {
            assert forall|gi: int| 0 <= gi < distances@.len() implies #[trigger] distances@[gi]@.len()
                == w * h by {
                assert(is_distance_table(
                    pull_step(g.w, g.h, g.walls),
                    g.w,
                    g.h,
                    goals_of(g)[gi],
                    distances@[gi]@,
                ));
            }
        }
        let cost_fn = |bi: usize, gi: usize| -> (r: u32)
            requires
                bi < flats@.len(),
                gi < distances@.len(),
                flats@[bi as int] < distances@[gi as int]@.len(),
            ensures
                r == distances@[gi as int]@[flats@[bi as int] as int],
            { distances[gi][flats[bi]] };
        let r = hungarian_matching(n_boxes, n_goals, cost_fn);
        proof {
            let c = box_costs(g, boxes@);
            let n = n_boxes as int;
            let m = n_goals as int;
            if n > m {
                lemma_too_many_workers(c, n, m);
            } else {
                let t = choose|t: Seq<Seq<u32>>| #[trigger]
                    tabulates(cost_fn, n_boxes, n_goals, t) && r == matching_cost(matrix(t), n, m);
                assert forall|i: int, j: int| 0 <= i < n && 0 <= j < m implies #[trigger] matrix(t)(
                    i,
                    j,
                ) == c(i, j) by {
                    let (bi, gi) = (i as usize, j as usize);
                    assert(cost_fn.ensures((bi, gi), t[bi as int][gi as int]));
                    assert(on_grid(w, h, list@[i]));
                    lemma_push_distance(g, goals_of(g)[j], list@[i], distances@[j]@);
                }
                assert forall|i: int, j: int| 0 <= #[trigger] c(i, j) by {}
                lemma_same_costs(matrix(t), c, n, m);
            }
        }
        r
    }

    /// The first position of the player's region.
    pub fn normalise_player(&self, player_pos: u16, boxes: &BitPlane) -> (r: u16)
        requires
            self.sized(),
            fits(boxes, self.width, self.height),
            on_grid(self.width, self.height, stand(self.width, player_pos as int)),
        ensures
            r == normal(self.ground(), boxes@, player_pos as int),
            on_grid(self.width, self.height, stand(self.width, r as int)),
    {
        let (w, h) = (self.width, self.height);
        let ghost g = self.ground();
        let ghost player = stand(w, player_pos as int);
        let (px, py) = stand_of(w, player_pos as usize);
        let reachable = flood_fill(px, py, &self.walls, boxes, w, h);
        let cells = cell_count(w, h);
        let mut i: usize = 0;
        while i < cells
            invariant
                i <= cells,
                cells == w * h,
                cells <= 65025,
                w == self.width,
                h == self.height,
                g == self.ground(),
                fits(&reachable, w, h),
                forall|c: Cell|
                    on_grid(w, h, c) ==> (#[trigger] at(reachable@, w, c) <==> in_region(
                        w,
                        h,
                        self.walls@,
                        boxes@,
                        player,
                        c,
                    )),
                player == stand(w, player_pos as int),
                forall|j: int|
                    0 <= j < i ==> !in_region(
                        w,
                        h,
                        self.walls@,
                        boxes@,
                        player,
                        #[trigger] cell_at(w, j),
                    ),
            decreases cells - i,
        {
            proof {
                lemma_cell_at(w, h, i as int);
                lemma_cell_stored(&reachable, w, h, cell_at(w, i as int));
                assert(at(reachable@, w, cell_at(w, i as int)) == reachable@[i as int]);
            }
            if reachable.get_flat(i) {
                proof {
                    assert(is_first(g, boxes@, player, i as int));
                    let first = choose|j: int| is_first(g, boxes@, player, j);
                    assert(is_first(g, boxes@, player, first));
                    if first < i {
                        assert(!in_region(w, h, self.walls@, boxes@, player, cell_at(w, first)));
                    } else if i < first {
                        assert(!in_region(w, h, self.walls@, boxes@, player, cell_at(w, i as int)));
                    }
                    crate::moves::lemma_stand(w, h, cell_at(w, i as int));
                }
                return i as u16;
            }
            i += 1;
        }
        proof {
            if exists|j: int| is_first(g, boxes@, player, j) {
                let first = choose|j: int| is_first(g, boxes@, player, j);
                assert(!in_region(w, h, self.walls@, boxes@, player, cell_at(w, first)));
            }
        }
        player_pos
    }
}

/// Steps of the player can be taken back.
pub proof fn lemma_walk_back(g: Ground, boxes: Seq<bool>, a: Cell, dirs: Seq<int>)
    requires
        on_grid(g.w, g.h, a),
        is_free(g.w, g.walls, boxes, a),
        follow(walk_step(g.w, g.h, g.walls, boxes), a, dirs) is Some,
    ensures
        ({
            let b = follow(walk_step(g.w, g.h, g.walls, boxes), a, dirs)->0;
            &&& on_grid(g.w, g.h, b)
            &&& is_free(g.w, g.walls, boxes, b)
            &&& reaches(walk_step(g.w, g.h, g.walls, boxes), b, a)
        }),
    decreases dirs.len(),
{
    let step = walk_step(g.w, g.h, g.walls, boxes);
    let b = follow(step, a, dirs)->0;
    let none: Seq<int> = Seq::empty();
    assert(follow(step, a, none) == Some(a));
    if dirs.len() > 0 {
        let (less, d) = (dirs.drop_last(), dirs.last());
        lemma_walk_back(g, boxes, a, less);
        let mid = follow(step, a, less)->0;
        let rest = choose|rest: Seq<int>| #[trigger] follow(step, mid, rest) == Some(a);
        let back = seq![opposite(d)];
        assert(neighbor(g.w, g.h, b, opposite(d)) == Some(mid));
        assert(back.drop_last() =~= none);
        assert(follow(step, b, back.drop_last()) == Some(b));
        assert(follow(step, b, back) == Some(mid));
        lemma_follow_concat(step, b, back, rest);
        assert(follow(step, b, back + rest) == Some(a));
    }
}

/// A region with a cell has a first one.
pub proof fn lemma_first_exists(g: Ground, boxes: Seq<bool>, player: Cell, i: int)
    requires
        0 <= i < g.w * g.h,
        in_region(g.w, g.h, g.walls, boxes, player, cell_at(g.w, i)),
    ensures
        exists|j: int| is_first(g, boxes, player, j),
    decreases i,
{
    if exists|j: int|
        0 <= j < i && in_region(g.w, g.h, g.walls, boxes, player, #[trigger] cell_at(g.w, j)) {
        let j = choose|j: int|
            0 <= j < i && in_region(g.w, g.h, g.walls, boxes, player, #[trigger] cell_at(g.w, j));
        lemma_first_exists(g, boxes, player, j);
    } else {
        assert(is_first(g, boxes, player, i));
    }
}

/// The estimate is not negative.
pub proof fn lemma_estimate_nonnegative(g: Ground, boxes: Seq<bool>)
    ensures
        0 <= estimate(g, boxes),
{
    let costs = box_costs(g, boxes);
    assert forall|i: int, j: int| 0 <= #[trigger] costs(i, j) by {}
    lemma_matching_cost_nonnegative(
        costs,
        boxes_of(g, boxes).len() as int,
        goals_of(g).len() as int,
    );
}

/// From the first cell of its region the player can walk back to a cell.
pub proof fn lemma_normal_leads_back(g: Ground, boxes: Seq<bool>, a: int)
    requires
        on_grid(g.w, g.h, stand(g.w, a)),
        is_free(g.w, g.walls, boxes, stand(g.w, a)),
    ensures
        in_region(g.w, g.h, g.walls, boxes, stand(g.w, normal(g, boxes, a)), stand(g.w, a)),
{
    let p = stand(g.w, a);
    let step = walk_step(g.w, g.h, g.walls, boxes);
    let none: Seq<int> = Seq::empty();
    assert(follow(step, p, none) == Some(p));
    lemma_pos(g.w, g.h, p);
    lemma_first_exists(g, boxes, p, pos(g.w, p));
    let i = choose|i: int| is_first(g, boxes, p, i);
    assert(is_first(g, boxes, p, i));
    lemma_cell_at(g.w, g.h, i);
    lemma_stand(g.w, g.h, cell_at(g.w, i));
    let q = cell_at(g.w, i);
    let dirs = choose|dirs: Seq<int>| #[trigger] follow(step, p, dirs) == Some(q);
    lemma_walk_back(g, boxes, p, dirs);
}

/// Every position that the player can walk to has the normal form of the one that the walk starts
/// from.
pub proof fn law_normal_form_is_shared(g: Ground, boxes: Seq<bool>, a: int, b: int)
    requires
        on_grid(g.w, g.h, stand(g.w, a)),
        in_region(g.w, g.h, g.walls, boxes, stand(g.w, a), stand(g.w, b)),
    ensures
        normal(g, boxes, a) == normal(g, boxes, b),
{
    let (p, q) = (stand(g.w, a), stand(g.w, b));
    let step = walk_step(g.w, g.h, g.walls, boxes);
    let dirs = choose|dirs: Seq<int>| #[trigger] follow(step, p, dirs) == Some(q);
    lemma_walk_back(g, boxes, p, dirs);
    assert forall|c: Cell| #[trigger] in_region(g.w, g.h, g.walls, boxes, p, c) == in_region(
        g.w,
        g.h,
        g.walls,
        boxes,
        q,
        c,
    ) by {
        if in_region(g.w, g.h, g.walls, boxes, p, c) {
            lemma_region_transitive(g.w, g.h, g.walls, boxes, q, p, c);
        }
        if in_region(g.w, g.h, g.walls, boxes, q, c) {
            lemma_region_transitive(g.w, g.h, g.walls, boxes, p, q, c);
        }
    }
    assert forall|i: int| is_first(g, boxes, p, i) == #[trigger] is_first(g, boxes, q, i) by {}
    lemma_pos(g.w, g.h, p);
    lemma_first_exists(g, boxes, p, pos(g.w, p));
    let i = choose|i: int| is_first(g, boxes, p, i);
    assert(is_first(g, boxes, q, i));
    let j = choose|j: int| is_first(g, boxes, q, j);
    assert(is_first(g, boxes, q, j));
    assert(in_region(g.w, g.h, g.walls, boxes, p, cell_at(g.w, i)));
    assert(in_region(g.w, g.h, g.walls, boxes, p, cell_at(g.w, j)));
}

/// The normal form of a position is the least position that the player can walk to.
pub proof fn law_normal_form_is_the_least(g: Ground, boxes: Seq<bool>, a: int, b: int)
    requires
        on_grid(g.w, g.h, stand(g.w, a)),
        is_free(g.w, g.walls, boxes, stand(g.w, a)),
        0 <= b < g.w * g.h,
        in_region(g.w, g.h, g.walls, boxes, stand(g.w, a), stand(g.w, b)),
    ensures
        0 <= normal(g, boxes, a) <= b,
        in_region(g.w, g.h, g.walls, boxes, stand(g.w, a), stand(g.w, normal(g, boxes, a))),
{
    let p = stand(g.w, a);
    lemma_cell_at(g.w, g.h, b);
    lemma_stand(g.w, g.h, cell_at(g.w, b));
    lemma_first_exists(g, boxes, p, b);
    let i = choose|i: int| is_first(g, boxes, p, i);
    assert(is_first(g, boxes, p, i));
    lemma_cell_at(g.w, g.h, i);
    lemma_stand(g.w, g.h, cell_at(g.w, i));
}

/// The distance of a goal is zero on the goal itself and nowhere else, and grows by one at most with
/// each cell that a box is pulled back from it, walls being all that can hinder this.
pub proof fn law_distances_grow_by_single_steps(g: Ground, goal: Cell, c: Cell, d: int)
    requires
        on_grid(g.w, g.h, goal),
        on_grid(g.w, g.h, c),
        0 <= d < 4,
        push_distance(g, goal, c) < u32::MAX,
    ensures
        push_distance(g, goal, goal) == 0,
        push_distance(g, goal, c) == 0 ==> c == goal,
        ({
            let (x, y) = (c.0 + dir_x(d), c.1 + dir_y(d));
            let (px, py) = (x + dir_x(d), y + dir_y(d));
            unmarked(g.w, g.h, g.walls, x, y) && unmarked(g.w, g.h, g.walls, px, py)
                ==> push_distance(g, goal, (x as u8, y as u8)) <= push_distance(g, goal, c) + 1
        }),
{
    let step = pull_step(g.w, g.h, g.walls);
    let none: Seq<int> = Seq::empty();
    assert(follow(step, goal, none) == Some(goal));
    lemma_shortest_way(g, goal, goal, none);
    let p = choose|p: Seq<int>| #[trigger] follow(step, goal, p) == Some(c);
    lemma_shortest_way(g, goal, c, p);
    let n = push_distance(g, goal, c);
    let least = choose|dirs: Seq<int>| #[trigger]
        follow(step, goal, dirs) == Some(c) && dirs.len() == n;
    let (x, y) = (c.0 + dir_x(d), c.1 + dir_y(d));
    let (px, py) = (x + dir_x(d), y + dir_y(d));
    if unmarked(g.w, g.h, g.walls, x, y) && unmarked(g.w, g.h, g.walls, px, py) {
        let to = (x as u8, y as u8);
        assert(step(c, d) == Some(to));
        lemma_follow_push(step, goal, least, d);
        assert(follow(step, goal, least.push(d)) == Some(to));
        lemma_shortest_way(g, goal, to, least.push(d));
    }
}

/// The distance is that of a shortest path.
proof fn lemma_shortest_way(g: Ground, goal: Cell, c: Cell, dirs: Seq<int>)
    requires
        on_grid(g.w, g.h, goal),
        follow(pull_step(g.w, g.h, g.walls), goal, dirs) == Some(c),
    ensures
        is_distance(pull_step(g.w, g.h, g.walls), goal, c, push_distance(g, goal, c)),
        push_distance(g, goal, c) <= dirs.len(),
{
    let step = pull_step(g.w, g.h, g.walls);
    lemma_least_exists(step, goal, c, dirs);
    let least = choose|p: Seq<int>| is_least_path(step, goal, c, p);
    assert(is_distance(step, goal, c, least.len() as int));
    let n = choose|n: nat| is_distance(step, goal, c, n as int);
    assert(is_distance(step, goal, c, n as int));
}

/// The distance of a goal is that of a way of pulls: it is none where there is no such way, and else
/// one of the cells beside is one nearer.
pub proof fn law_distances_are_those_of_ways(g: Ground, goal: Cell, c: Cell) -> (d: int)
    requires
        on_grid(g.w, g.h, goal),
        on_grid(g.w, g.h, c),
        0 < push_distance(g, goal, c) < u32::MAX,
    ensures
        0 <= d < 4,
        unmarked(g.w, g.h, g.walls, c.0 as int, c.1 as int),
        unmarked(g.w, g.h, g.walls, c.0 + dir_x(d), c.1 + dir_y(d)),
        ({
            let (x, y) = (c.0 - dir_x(d), c.1 - dir_y(d));
            &&& 0 <= x < g.w && 0 <= y < g.h
            &&& push_distance(g, goal, (x as u8, y as u8)) == push_distance(g, goal, c) - 1
        }),
{
    let step = pull_step(g.w, g.h, g.walls);
    let p = choose|p: Seq<int>| #[trigger] follow(step, goal, p) == Some(c);
    lemma_shortest_way(g, goal, c, p);
    let n = push_distance(g, goal, c);
    let least = choose|dirs: Seq<int>| #[trigger]
        follow(step, goal, dirs) == Some(c) && dirs.len() == n;
    let d = least.last();
    let from = follow(step, goal, least.drop_last())->0;
    lemma_shortest_way(g, goal, from, least.drop_last());
    let m = push_distance(g, goal, from);
    let less = choose|dirs: Seq<int>| #[trigger]
        follow(step, goal, dirs) == Some(from) && dirs.len() == m;
    lemma_follow_push(step, goal, less, d);
    assert(follow(step, goal, less.push(d)) == Some(c));
    lemma_pulled_on_grid(g, goal, least.drop_last());
    d
}

proof fn lemma_pulled_on_grid(g: Ground, goal: Cell, dirs: Seq<int>)
    requires
        on_grid(g.w, g.h, goal),
        follow(pull_step(g.w, g.h, g.walls), goal, dirs) is Some,
    ensures
        on_grid(g.w, g.h, follow(pull_step(g.w, g.h, g.walls), goal, dirs)->0),
    decreases dirs.len(),
{
    if dirs.len() > 0 {
        lemma_pulled_on_grid(g, goal, dirs.drop_last());
    }
}

/// The estimate is what it takes to bring each box to a goal of its own as cheaply as can be: where
/// that can be done it is the sum of the distances of some such assignment, and no other has a lower
/// sum. Where no goals of their own can be reached, it is half of what 32 bits can say.
pub proof fn law_estimate_is_that_of_a_matching(g: Ground, boxes: Seq<bool>, a: Seq<int>)
    requires
        boxes_of(g, boxes).len() > 0,
        estimate(g, boxes) < u32::MAX,
    ensures
        ({
            let c = |b: int, k: int| push_distance(g, goals_of(g)[k], boxes_of(g, boxes)[b]);
            let (n, m) = (boxes_of(g, boxes).len() as int, goals_of(g).len() as int);
            &&& assigns(c, n, m, a) ==> estimate(g, boxes) <= total(c, a)
            &&& assigns(c, n, m, a) ==> exists|b: Seq<int>| #[trigger]
                assigns(c, n, m, b) && total(c, b) == estimate(g, boxes)
            &&& (forall|b: Seq<int>| !(#[trigger] assigns(c, n, m, b))) ==> estimate(g, boxes)
                == u32::MAX / 2
        }),
{
    let c = box_costs(g, boxes);
    let (n, m) = (boxes_of(g, boxes).len() as int, goals_of(g).len() as int);
    assert(c =~= |b: int, k: int| push_distance(g, goals_of(g)[k], boxes_of(g, boxes)[b]));
    assert forall|i: int, j: int| 0 <= #[trigger] c(i, j) by {}
    if assigns(c, n, m, a) {
        law_no_assignment_is_cheaper(c, n, m, a);
        law_matching_cost_is_attained(c, n, m, a);
    }
}

} // verus!
