//! Pockets of the grid that the player cannot reach.
//!
//! A pocket is closed off by the boxes round it, its fence. When a fence box is deadlocked, the
//! pocket stays closed for good. A pocket with a goal that has no box yet is left alone: a box may
//! still be pushed in.

use vstd::prelude::*;

use crate::bfs::lemma_follow_concat;
use crate::bitplane::{cell_count, BitPlane};
use crate::closed_edge::Ground;
use crate::closed_set::has_cell;
use crate::deadlock_sets::overflows;
use crate::estimate::{is_first, lemma_first_exists, lemma_walk_back};
use crate::freeze::{freezes, is_freeze_deadlock};
use crate::grid::{
    at, cell_at, cell_of, follow, is_free, lemma_cell_at, lemma_pos, neighbor, on_grid, pos, reaches,
    step_from, walk_step, Cell,
};
use crate::moves::{stand, stand_of};
use crate::reach::{
    adjacent, fits, flood_fill, in_region, lemma_cell_stored, lemma_update_cell,
};
use crate::rules::Board;
use crate::solver::{sets_of, Solver};

verus! {

/// The board of a grid with some boxes.
pub open spec fn board(g: Ground, boxes: Seq<bool>) -> Board {
    Board { w: g.w, h: g.h, walls: g.walls, boxes, dead: g.dead }
}

/// The box on `c` overflows a deadlock set or is frozen together with a box off the goals.
pub open spec fn stuck(g: Ground, boxes: Seq<bool>, c: Cell) -> bool {
    overflows(sets_of(g), g.w, boxes, c) || freezes(board(g, boxes), g.goals, c)
}

/// A free cell that the player cannot reach.
pub open spec fn cut_off(g: Ground, boxes: Seq<bool>, player: Cell, c: Cell) -> bool {
    &&& on_grid(g.w, g.h, c)
    &&& is_free(g.w, g.walls, boxes, c)
    &&& !in_region(g.w, g.h, g.walls, boxes, player, c)
}

/// The first cell of a pocket: no cut off cell before it leads to it.
pub open spec fn is_seed(g: Ground, boxes: Seq<bool>, player: Cell, c: Cell) -> bool {
    &&& cut_off(g, boxes, player, c)
    &&& forall|b: Cell| #[trigger]
        cut_off(g, boxes, player, b) && pos(g.w, b) < pos(g.w, c) ==> !in_region(
            g.w,
            g.h,
            g.walls,
            boxes,
            b,
            c,
        )
}

/// The pocket of a seed has a goal without a box.
pub open spec fn has_bare_goal(g: Ground, boxes: Seq<bool>, seed: Cell) -> bool {
    exists|c: Cell| #[trigger]
        at(g.goals, g.w, c) && on_grid(g.w, g.h, c) && !at(boxes, g.w, c) && in_region(
            g.w,
            g.h,
            g.walls,
            boxes,
            seed,
            c,
        )
}

/// The cell next to `c` in direction `d` has a box that is stuck.
pub open spec fn stuck_beside(g: Ground, boxes: Seq<bool>, c: Cell, d: int) -> bool {
    match neighbor(g.w, g.h, c, d) {
        Some(f) => at(boxes, g.w, f) && stuck(g, boxes, f),
        None => false,
    }
}

/// `f` has a box and is next to `c` in direction `d`.
spec fn fence_at(g: Ground, boxes: Seq<bool>, c: Cell, d: int, f: Cell) -> bool {
    0 <= d < 4 && neighbor(g.w, g.h, c, d) == Some(f) && at(boxes, g.w, f)
}

/// `f` has a box next to a cell of the pocket before position `i`, or to the cell there in a
/// direction below `e`.
spec fn fence_before(
    g: Ground,
    boxes: Seq<bool>,
    seed: Cell,
    i: int,
    e: int,
    f: Cell,
) -> bool {
    exists|c: Cell, d: int| #[trigger]
        fence_at(g, boxes, c, d, f) && on_grid(g.w, g.h, c) && in_region(
            g.w,
            g.h,
            g.walls,
            boxes,
            seed,
            c,
        ) && (pos(g.w, c) < i || (pos(g.w, c) == i && d < e))
}

/// A box next to the pocket of a seed is stuck.
pub open spec fn fence_stuck(g: Ground, boxes: Seq<bool>, seed: Cell) -> bool {
    exists|c: Cell, d: int|
        0 <= d < 4 && on_grid(g.w, g.h, c) && in_region(g.w, g.h, g.walls, boxes, seed, c)
            && #[trigger] stuck_beside(g, boxes, c, d)
}

/// The pocket of a seed stays closed.
pub open spec fn is_corral(g: Ground, boxes: Seq<bool>, player: Cell, seed: Cell) -> bool {
    &&& is_seed(g, boxes, player, seed)
    &&& !has_bare_goal(g, boxes, seed)
    &&& fence_stuck(g, boxes, seed)
}

/// Some pocket without a bare goal has a stuck box in its fence.
pub open spec fn corralled(g: Ground, boxes: Seq<bool>, player: Cell) -> bool {
    exists|seed: Cell| #[trigger] is_corral(g, boxes, player, seed)
}

/// What is reached from a reached cell is reached.
pub proof fn lemma_region_transitive(
    w: u8,
    h: u8,
    walls: Seq<bool>,
    boxes: Seq<bool>,
    a: Cell,
    b: Cell,
    c: Cell,
)
    requires
        in_region(w, h, walls, boxes, a, b),
        reaches(walk_step(w, h, walls, boxes), b, c),
    ensures
        in_region(w, h, walls, boxes, a, c),
{
    let step = walk_step(w, h, walls, boxes);
    let p = choose|p: Seq<int>| #[trigger] follow(step, a, p) == Some(b);
    let q = choose|q: Seq<int>| #[trigger] follow(step, b, q) == Some(c);
    lemma_follow_concat(step, a, p, q);
    assert(follow(step, a, p + q) == Some(c));
}

/// A plane that marks the region of a cell.
spec fn marks_region(g: Ground, boxes: Seq<bool>, from: Cell, bits: Seq<bool>) -> bool {
    forall|c: Cell|
        on_grid(g.w, g.h, c) ==> (#[trigger] at(bits, g.w, c) <==> in_region(
            g.w,
            g.h,
            g.walls,
            boxes,
            from,
            c,
        ))
}

/// `c` is in the pocket of a cut off cell before position `i`.
spec fn met(g: Ground, boxes: Seq<bool>, player: Cell, i: int, c: Cell) -> bool {
    exists|b: Cell| #[trigger]
        cut_off(g, boxes, player, b) && pos(g.w, b) < i && in_region(
            g.w,
            g.h,
            g.walls,
            boxes,
            b,
            c,
        )
}

impl Solver {
    /// Whether the box on a cell is stuck.
    fn is_stuck(&self, x: u8, y: u8, boxes: &BitPlane) -> (r: bool)
        requires
            self.wf(),
            fits(boxes, self.width, self.height),
            on_grid(self.width, self.height, (x, y)),
        ensures
            r == stuck(self.ground(), boxes@, (x, y)),
    {
        self.has_set_deadlock(x, y, boxes) || is_freeze_deadlock(
            x,
            y,
            boxes,
            &self.walls,
            &self.goals,
            &self.dead,
        )
    }

    /// Whether a pocket has a goal without a box.
    fn pocket_has_bare_goal(
        &self,
        interior: &BitPlane,
        boxes: &BitPlane,
        Ghost(seed): Ghost<Cell>,
    ) -> (r: bool)
        requires
            self.wf(),
            fits(boxes, self.width, self.height),
            fits(interior, self.width, self.height),
            marks_region(self.ground(), boxes@, seed, interior@),
        ensures
            r == has_bare_goal(self.ground(), boxes@, seed),
    {
        let (w, h) = (self.width, self.height);
        let ghost g = self.ground();
        let cells = cell_count(w, h);
        let mut i: usize = 0;
        while i < cells
            invariant
                i <= cells,
                cells == w * h,
                w == self.width,
                h == self.height,
                g == self.ground(),
                self.wf(),
                fits(boxes, w, h),
                fits(interior, w, h),
                marks_region(g, boxes@, seed, interior@),
                forall|c: Cell| #[trigger]
                    at(g.goals, g.w, c) && on_grid(w, h, c) && pos(w, c) < i && !at(boxes@, w, c)
                        ==> !in_region(w, h, g.walls, boxes@, seed, c),
            decreases cells - i,
        {
            let (x, y) = cell_of(w, h, i);
            proof {
                lemma_cell_stored(interior, w, h, (x, y));
                lemma_cell_stored(&self.goals, w, h, (x, y));
                lemma_cell_stored(boxes, w, h, (x, y));
                assert forall|c: Cell| on_grid(w, h, c) && pos(w, c) == i implies c == (x, y) by {
                    lemma_pos(w, h, c);
                }
                assert(at(interior@, w, (x, y)) <==> in_region(
                    w,
                    h,
                    g.walls,
                    boxes@,
                    seed,
                    (x, y),
                ));
            }
            if interior.get(x, y) && self.goals.get(x, y) && !boxes.get(x, y) {
                assert(at(g.goals, g.w, (x, y)));
                return true;
            }
            i += 1;
        }
        proof {
            assert forall|c: Cell| #[trigger]
                at(g.goals, g.w, c) && on_grid(w, h, c) && !at(boxes@, w, c) implies !in_region(
                w,
                h,
                g.walls,
                boxes@,
                seed,
                c,
            ) by {
                lemma_pos(w, h, c);
            }
        }
        false
    }

    /// The boxes next to a pocket.
    fn fence_of(&self, interior: &BitPlane, boxes: &BitPlane, Ghost(seed): Ghost<Cell>) -> (fence:
        Vec<(u8, u8)>)
        requires
            self.wf(),
            fits(boxes, self.width, self.height),
            fits(interior, self.width, self.height),
            marks_region(self.ground(), boxes@, seed, interior@),
        ensures
            forall|f: Cell| #[trigger]
                fence@.contains(f) <==> fence_before(
                    self.ground(),
                    boxes@,
                    seed,
                    self.width * self.height,
                    0,
                    f,
                ),
            forall|k: int|
                0 <= k < fence@.len() ==> on_grid(self.width, self.height, #[trigger] fence@[k]),
    {
        let (w, h) = (self.width, self.height);
        let ghost g = self.ground();
        let cells = cell_count(w, h);
        let mut fence: Vec<(u8, u8)> = Vec::new();
        let mut i: usize = 0;
        proof {
            assert forall|f: Cell| !(#[trigger] fence_before(g, boxes@, seed, 0, 0, f)) by {
                if fence_before(g, boxes@, seed, 0, 0, f) {
                    let (c, d) = choose|c: Cell, d: int| #[trigger]
                        fence_at(g, boxes@, c, d, f) && on_grid(g.w, g.h, c) && in_region(
                            g.w,
                            g.h,
                            g.walls,
                            boxes@,
                            seed,
                            c,
                        ) && (pos(g.w, c) < 0 || (pos(g.w, c) == 0 && d < 0));
                    lemma_pos(w, h, c);
                }
            }
        }
        while i < cells
            invariant
                i <= cells,
                cells == w * h,
                w == self.width,
                h == self.height,
                g == self.ground(),
                self.wf(),
                fits(boxes, w, h),
                fits(interior, w, h),
                marks_region(g, boxes@, seed, interior@),
                forall|f: Cell| #[trigger]
                    fence@.contains(f) <==> fence_before(g, boxes@, seed, i as int, 0, f),
                forall|k: int| 0 <= k < fence@.len() ==> on_grid(w, h, #[trigger] fence@[k]),
            decreases cells - i,
        {
            let (x, y) = cell_of(w, h, i);
            proof {
                lemma_cell_stored(interior, w, h, (x, y));
                assert(at(interior@, w, (x, y)) <==> in_region(
                    w,
                    h,
                    g.walls,
                    boxes@,
                    seed,
                    (x, y),
                ));
            }
            if interior.get(x, y) {
                let mut d: usize = 0;
                while d < 4
                    invariant
                        d <= 4,
                        w == self.width,
                        h == self.height,
                        g == self.ground(),
                        self.wf(),
                        fits(boxes, w, h),
                        on_grid(w, h, (x, y)),
                        pos(w, (x, y)) == i,
                        in_region(w, h, g.walls, boxes@, seed, (x, y)),
                        forall|f: Cell| #[trigger]
                            fence@.contains(f) <==> fence_before(
                                g,
                                boxes@,
                                seed,
                                i as int,
                                d as int,
                                f,
                            ),
                        forall|k: int|
                            0 <= k < fence@.len() ==> on_grid(w, h, #[trigger] fence@[k]),
                    decreases 4 - d,
                {
                    let ghost before = fence@;
                    if let Some((nx, ny)) = step_from(w, h, x, y, d) {
                        proof {
                            lemma_cell_stored(boxes, w, h, (nx, ny));
                        }
                        if boxes.get(nx, ny) && !has_cell(&fence, nx, ny) {
                            fence.push((nx, ny));
                            assert(fence@.drop_last() =~= before);
                        }
                    }
                    proof {
                        assert forall|f: Cell| #[trigger]
                            fence@.contains(f) <==> fence_before(
                                g,
                                boxes@,
                                seed,
                                i as int,
                                d + 1,
                                f,
                            ) by {
                            lemma_fence_next(g, boxes@, seed, (x, y), i as int, d as int, f);
                            lemma_contains_push(before, fence@, f);
                            assert(before.contains(f) <==> fence_before(
                                g,
                                boxes@,
                                seed,
                                i as int,
                                d as int,
                                f,
                            ));
                        }
                    }
                    d += 1;
                }
            }
            proof {
                assert forall|f: Cell| #[trigger]
                    fence@.contains(f) <==> fence_before(
                        g,
                        boxes@,
                        seed,
                        i + 1,
                        0,
                        f,
                    ) by {
                    lemma_fence_cell(g, boxes@, seed, (x, y), i as int, f);
                }
            }
            i += 1;
        }
        fence
    }

    /// Whether a box of the fence is stuck.
    fn has_stuck_fence(
        &self,
        interior: &BitPlane,
        boxes: &BitPlane,
        Ghost(seed): Ghost<Cell>,
    ) -> (r: bool)
        requires
            self.wf(),
            fits(boxes, self.width, self.height),
            fits(interior, self.width, self.height),
            marks_region(self.ground(), boxes@, seed, interior@),
        ensures
            r == fence_stuck(self.ground(), boxes@, seed),
    {
        let (w, h) = (self.width, self.height);
        let ghost g = self.ground();
        let fence = self.fence_of(interior, boxes, Ghost(seed));
        let mut k: usize = 0;
        while k < fence.len()
            invariant
                k <= fence@.len(),
                w == self.width,
                h == self.height,
                g == self.ground(),
                self.wf(),
                fits(boxes, w, h),
                forall|f: Cell| #[trigger]
                    fence@.contains(f) <==> fence_before(g, boxes@, seed, w * h, 0, f),
                forall|j: int| 0 <= j < fence@.len() ==> on_grid(w, h, #[trigger] fence@[j]),
                forall|j: int| 0 <= j < k ==> !stuck(g, boxes@, #[trigger] fence@[j]),
            decreases fence@.len() - k,
        {
            let (fx, fy) = fence[k];
            assert(on_grid(w, h, fence@[k as int]));
            if self.is_stuck(fx, fy, boxes) {
                proof {
                    assert(fence@.contains(fence@[k as int]));
                    let f = fence@[k as int];
                    let (c, d) = choose|c: Cell, d: int| #[trigger]
                        fence_at(g, boxes@, c, d, f) && on_grid(g.w, g.h, c) && in_region(
                            g.w,
                            g.h,
                            g.walls,
                            boxes@,
                            seed,
                            c,
                        ) && (pos(g.w, c) < w * h || (pos(g.w, c) == w * h && d < 0));
                    assert(stuck_beside(g, boxes@, c, d));
                }
                return true;
            }
            k += 1;
        }
        proof {
            if fence_stuck(g, boxes@, seed) {
                let (c, d) = choose|c: Cell, d: int|
                    0 <= d < 4 && on_grid(g.w, g.h, c) && in_region(
                        g.w,
                        g.h,
                        g.walls,
                        boxes@,
                        seed,
                        c,
                    ) && #[trigger] stuck_beside(g, boxes@, c, d);
                let f = neighbor(g.w, g.h, c, d)->0;
                lemma_pos(w, h, c);
                assert(fence_at(g, boxes@, c, d, f));
                assert(fence_before(g, boxes@, seed, w * h, 0, f));
                assert(fence@.contains(f));
                let j = choose|j: int| 0 <= j < fence@.len() && fence@[j] == f;
                assert(!stuck(g, boxes@, fence@[j]));
            }
        }
        false
    }

    /// Whether the position is a deadlock for the player at `player_flat`: some pocket that the
    /// player cannot reach has no goal without a box, and a stuck box in its fence.
    pub fn corral_prune(&self, player_flat: u16, boxes: &BitPlane) -> (r: bool)
        requires
            self.wf(),
            fits(boxes, self.width, self.height),
            on_grid(self.width, self.height, stand(self.width, player_flat as int)),
        ensures
            r == corralled(self.ground(), boxes@, stand(self.width, player_flat as int)),
    {
        let (w, h) = (self.width, self.height);
        let ghost g = self.ground();
        let ghost player = stand(w, player_flat as int);
        let (px, py) = stand_of(w, player_flat as usize);
        let reachable = flood_fill(px, py, &self.walls, boxes, w, h);
        let mut interior_seen = BitPlane::new(w, h);
        let cells = cell_count(w, h);
        proof {
            assert forall|c: Cell| on_grid(w, h, c) implies (#[trigger] at(interior_seen@, w, c)
                <==> met(g, boxes@, player, 0, c)) by {
                lemma_cell_stored(&interior_seen, w, h, c);
                if met(g, boxes@, player, 0, c) {
                    let b = choose|b: Cell| #[trigger]
                        cut_off(g, boxes@, player, b) && pos(g.w, b) < 0 && in_region(
                            g.w,
                            g.h,
                            g.walls,
                            boxes@,
                            b,
                            c,
                        );
                    lemma_pos(w, h, b);
                }
            }
        }
        let mut i: usize = 0;
        while i < cells
            invariant
                i <= cells,
                cells == w * h,
                w == self.width,
                h == self.height,
                g == self.ground(),
                self.wf(),
                fits(boxes, w, h),
                fits(&reachable, w, h),
                fits(&interior_seen, w, h),
                marks_region(g, boxes@, player, reachable@),
                player == stand(w, player_flat as int),
                forall|c: Cell|
                    on_grid(w, h, c) ==> (#[trigger] at(interior_seen@, w, c) <==> met(
                        g,
                        boxes@,
                        player,
                        i as int,
                        c,
                    )),
                forall|c: Cell|
                    on_grid(w, h, c) && pos(w, c) < i ==> !(#[trigger] is_corral(
                        g,
                        boxes@,
                        player,
                        c,
                    )),
            decreases cells - i,
        {
            let (x, y) = cell_of(w, h, i);
            let ghost c: Cell = (x, y);
            proof {
                lemma_cell_stored(&self.walls, w, h, c);
                lemma_cell_stored(boxes, w, h, c);
                lemma_cell_stored(&reachable, w, h, c);
                lemma_cell_stored(&interior_seen, w, h, c);
                assert(at(reachable@, w, c) <==> in_region(w, h, g.walls, boxes@, player, c));
                assert(at(interior_seen@, w, c) <==> met(g, boxes@, player, i as int, c));
                assert forall|b: Cell| on_grid(w, h, b) && pos(w, b) == i implies b == c by {
                    lemma_pos(w, h, b);
                }
                lemma_seed(g, boxes@, player, c);
            }
            let candidate = !self.walls.get(x, y) && !boxes.get(x, y) && !reachable.get(x, y);
            assert(candidate == cut_off(g, boxes@, player, c));
            if candidate && !interior_seen.get(x, y) {
                assert(is_seed(g, boxes@, player, c));
                let interior = flood_fill(x, y, &self.walls, boxes, w, h);
                if !self.pocket_has_bare_goal(&interior, boxes, Ghost(c))
                    && self.has_stuck_fence(&interior, boxes, Ghost(c)) {
                    assert(is_corral(g, boxes@, player, c));
                    return true;
                }
                let ghost before = interior_seen@;
                merge(&mut interior_seen, &interior, w, h);
                proof {
                    assert forall|b: Cell| on_grid(w, h, b) implies (#[trigger] at(
                        interior_seen@,
                        w,
                        b,
                    ) <==> met(g, boxes@, player, i + 1, b)) by {
                        assert(at(before, w, b) <==> met(g, boxes@, player, i as int, b));
                        assert(at(interior@, w, b) <==> in_region(w, h, g.walls, boxes@, c, b));
                        lemma_met_new(g, boxes@, player, c, b);
                    }
                }
            } else {
                proof {
                    assert forall|b: Cell| on_grid(w, h, b) implies (#[trigger] at(
                        interior_seen@,
                        w,
                        b,
                    ) <==> met(g, boxes@, player, i + 1, b)) by {
                        assert(at(interior_seen@, w, b) <==> met(g, boxes@, player, i as int, b));
                        lemma_met_new(g, boxes@, player, c, b);
                        if candidate {
                            lemma_met_old(g, boxes@, player, c, b);
                        }
                    }
                }
            }
            i += 1;
        }
        proof {
            if corralled(g, boxes@, player) {
                let seed = choose|seed: Cell| #[trigger] is_corral(g, boxes@, player, seed);
                lemma_pos(w, h, seed);
                assert(!is_corral(g, boxes@, player, seed));
            }
        }
        false
    }
}

proof fn lemma_contains_push(before: Seq<Cell>, after: Seq<Cell>, f: Cell)
    ensures
        after == before ==> (after.contains(f) <==> before.contains(f)),
        after.len() == before.len() + 1 && after.drop_last() == before ==> (after.contains(f) <==> (
        before.contains(f) || after.last() == f)),
{
    if after.len() == before.len() + 1 && after.drop_last() == before {
        if after.contains(f) {
            let j = choose|j: int| 0 <= j < after.len() && after[j] == f;
            if j < before.len() {
                assert(before[j] == f);
            }
        }
        if before.contains(f) {
            let j = choose|j: int| 0 <= j < before.len() && before[j] == f;
            assert(after[j] == f);
        }
        if after.last() == f {
            assert(after[after.len() - 1] == f);
        }
    }
}

/// One more direction of a pocket's cell.
proof fn lemma_fence_next(
    g: Ground,
    boxes: Seq<bool>,
    seed: Cell,
    c: Cell,
    i: int,
    d: int,
    f: Cell,
)
    requires
        on_grid(g.w, g.h, c),
        pos(g.w, c) == i,
        in_region(g.w, g.h, g.walls, boxes, seed, c),
        0 <= d < 4,
    ensures
        fence_before(g, boxes, seed, i, d + 1, f) <==> (fence_before(g, boxes, seed, i, d, f)
            || fence_at(g, boxes, c, d, f)),
{
    if fence_before(g, boxes, seed, i, d + 1, f) {
        let (b, e) = choose|b: Cell, e: int| #[trigger]
            fence_at(g, boxes, b, e, f) && on_grid(g.w, g.h, b) && in_region(
                g.w,
                g.h,
                g.walls,
                boxes,
                seed,
                b,
            ) && (pos(g.w, b) < i || (pos(g.w, b) == i && e < d + 1));
        lemma_pos(g.w, g.h, b);
        lemma_pos(g.w, g.h, c);
        assert(fence_at(g, boxes, b, e, f));
    }
    if fence_before(g, boxes, seed, i, d, f) {
        let (b, e) = choose|b: Cell, e: int| #[trigger]
            fence_at(g, boxes, b, e, f) && on_grid(g.w, g.h, b) && in_region(
                g.w,
                g.h,
                g.walls,
                boxes,
                seed,
                b,
            ) && (pos(g.w, b) < i || (pos(g.w, b) == i && e < d));
        assert(fence_at(g, boxes, b, e, f));
    }
}

/// All directions of a cell.
proof fn lemma_fence_cell(
    g: Ground,
    boxes: Seq<bool>,
    seed: Cell,
    c: Cell,
    i: int,
    f: Cell,
)
    requires
        on_grid(g.w, g.h, c),
        pos(g.w, c) == i,
    ensures
        in_region(g.w, g.h, g.walls, boxes, seed, c) ==> (fence_before(
            g,
            boxes,
            seed,
            i + 1,
            0,
            f,
        ) <==> fence_before(g, boxes, seed, i, 4, f)),
        !in_region(g.w, g.h, g.walls, boxes, seed, c) ==> (fence_before(
            g,
            boxes,
            seed,
            i + 1,
            0,
            f,
        ) <==> fence_before(g, boxes, seed, i, 0, f)),
{
    if fence_before(g, boxes, seed, i + 1, 0, f) {
        let (b, e) = choose|b: Cell, e: int| #[trigger]
            fence_at(g, boxes, b, e, f) && on_grid(g.w, g.h, b) && in_region(
                g.w,
                g.h,
                g.walls,
                boxes,
                seed,
                b,
            ) && (pos(g.w, b) < i + 1 || (pos(g.w, b) == i + 1 && e < 0));
        lemma_pos(g.w, g.h, b);
        lemma_pos(g.w, g.h, c);
        assert(fence_at(g, boxes, b, e, f));
    }
    if fence_before(g, boxes, seed, i, 4, f) {
        let (b, e) = choose|b: Cell, e: int| #[trigger]
            fence_at(g, boxes, b, e, f) && on_grid(g.w, g.h, b) && in_region(
                g.w,
                g.h,
                g.walls,
                boxes,
                seed,
                b,
            ) && (pos(g.w, b) < i || (pos(g.w, b) == i && e < 4));
        assert(fence_at(g, boxes, b, e, f));
    }
    if fence_before(g, boxes, seed, i, 0, f) {
        let (b, e) = choose|b: Cell, e: int| #[trigger]
            fence_at(g, boxes, b, e, f) && on_grid(g.w, g.h, b) && in_region(
                g.w,
                g.h,
                g.walls,
                boxes,
                seed,
                b,
            ) && (pos(g.w, b) < i || (pos(g.w, b) == i && e < 0));
        assert(fence_at(g, boxes, b, e, f));
    }
}

/// A cut off cell is a seed unless it was met before.
proof fn lemma_seed(g: Ground, boxes: Seq<bool>, player: Cell, c: Cell)
    requires
        on_grid(g.w, g.h, c),
    ensures
        is_seed(g, boxes, player, c) <==> cut_off(g, boxes, player, c) && !met(
            g,
            boxes,
            player,
            pos(g.w, c),
            c,
        ),
{
}

/// One more cell is considered.
proof fn lemma_met_new(g: Ground, boxes: Seq<bool>, player: Cell, c: Cell, b: Cell)
    requires
        on_grid(g.w, g.h, c),
    ensures
        met(g, boxes, player, pos(g.w, c) + 1, b) <==> (met(g, boxes, player, pos(g.w, c), b) || (
        cut_off(g, boxes, player, c) && in_region(g.w, g.h, g.walls, boxes, c, b))),
{
    let i = pos(g.w, c);
    if met(g, boxes, player, i + 1, b) {
        let a = choose|a: Cell| #[trigger]
            cut_off(g, boxes, player, a) && pos(g.w, a) < i + 1 && in_region(
                g.w,
                g.h,
                g.walls,
                boxes,
                a,
                b,
            );
        lemma_pos(g.w, g.h, a);
        lemma_pos(g.w, g.h, c);
        assert(cut_off(g, boxes, player, a));
    }
    if met(g, boxes, player, i, b) {
        let a = choose|a: Cell| #[trigger]
            cut_off(g, boxes, player, a) && pos(g.w, a) < i && in_region(
                g.w,
                g.h,
                g.walls,
                boxes,
                a,
                b,
            );
        assert(cut_off(g, boxes, player, a));
    }
}

/// What is reached from a cell that was met has been met.
proof fn lemma_met_old(g: Ground, boxes: Seq<bool>, player: Cell, c: Cell, b: Cell)
    ensures
        met(g, boxes, player, pos(g.w, c), c) && in_region(g.w, g.h, g.walls, boxes, c, b) ==> met(
            g,
            boxes,
            player,
            pos(g.w, c),
            b,
        ),
{
    let i = pos(g.w, c);
    if met(g, boxes, player, i, c) && in_region(g.w, g.h, g.walls, boxes, c, b) {
        let a = choose|a: Cell| #[trigger]
            cut_off(g, boxes, player, a) && pos(g.w, a) < i && in_region(
                g.w,
                g.h,
                g.walls,
                boxes,
                a,
                c,
            );
        lemma_region_transitive(g.w, g.h, g.walls, boxes, a, c, b);
        assert(cut_off(g, boxes, player, a));
    }
}

/// Set in a plane what is set in another.
fn merge(plane: &mut BitPlane, other: &BitPlane, width: u8, height: u8)
    requires
        fits(old(plane), width, height),
        fits(other, width, height),
    ensures
        fits(final(plane), width, height),
        forall|c: Cell|
            on_grid(width, height, c) ==> (#[trigger] at(final(plane)@, width, c) <==> (at(
                old(plane)@,
                width,
                c,
            ) || at(other@, width, c))),
{
    let cells = cell_count(width, height);
    let mut i: usize = 0;
    while i < cells
        invariant
            i <= cells,
            cells == width * height,
            fits(plane, width, height),
            fits(old(plane), width, height),
            fits(other, width, height),
            forall|c: Cell|
                on_grid(width, height, c) ==> (#[trigger] at(plane@, width, c) <==> (at(
                    old(plane)@,
                    width,
                    c,
                ) || (at(other@, width, c) && pos(width, c) < i))),
        decreases cells - i,
    {
        let (x, y) = cell_of(width, height, i);
        let ghost before = plane@;
        proof {
            lemma_cell_stored(other, width, height, (x, y));
            lemma_cell_stored(plane, width, height, (x, y));
            assert forall|c: Cell| on_grid(width, height, c) && pos(width, c) == i implies c == (
                x,
                y,
            ) by {
                lemma_pos(width, height, c);
            }
        }
        if other.get(x, y) {
            plane.set(x, y);
            proof {
                assert forall|c: Cell| on_grid(width, height, c) implies #[trigger] at(
                    plane@,
                    width,
                    c,
                ) == (c == (x, y) || at(before, width, c)) by {
                    lemma_update_cell(width, height, before, (x, y), c, true);
                }
            }
        }
        i += 1;
    }
    proof {
        assert forall|c: Cell| on_grid(width, height, c) implies (#[trigger] at(plane@, width, c)
            <==> (at(old(plane)@, width, c) || at(other@, width, c))) by {
            lemma_pos(width, height, c);
        }
    }
}

/// A pocket is found from any of its cells: where the player cannot reach a free cell, the pocket
/// round it has no bare goal, and a stuck box borders the pocket, there is a corral.
pub proof fn law_every_corral_is_found(
    g: Ground,
    boxes: Seq<bool>,
    player: Cell,
    c: Cell,
    inner: Cell,
    b: Cell,
)
    requires
        cut_off(g, boxes, player, c),
        forall|n: Cell|
            on_grid(g.w, g.h, n) && in_region(g.w, g.h, g.walls, boxes, c, n) ==> !(#[trigger] at(
                g.goals,
                g.w,
                n,
            )),
        in_region(g.w, g.h, g.walls, boxes, c, inner),
        on_grid(g.w, g.h, inner),
        on_grid(g.w, g.h, b),
        adjacent(inner, b),
        at(boxes, g.w, b),
        stuck(g, boxes, b),
    ensures
        corralled(g, boxes, player),
{
    let step = walk_step(g.w, g.h, g.walls, boxes);
    let none: Seq<int> = Seq::empty();
    assert(follow(step, c, none) == Some(c));
    lemma_pos(g.w, g.h, c);
    lemma_first_exists(g, boxes, c, pos(g.w, c));
    let i = choose|i: int| is_first(g, boxes, c, i);
    assert(is_first(g, boxes, c, i));
    lemma_cell_at(g.w, g.h, i);
    let seed = cell_at(g.w, i);
    let out = choose|dirs: Seq<int>| #[trigger] follow(step, c, dirs) == Some(seed);
    lemma_walk_back(g, boxes, c, out);
    if in_region(g.w, g.h, g.walls, boxes, player, seed) {
        lemma_region_transitive(g.w, g.h, g.walls, boxes, player, seed, c);
    }
    assert forall|a: Cell| #[trigger]
        cut_off(g, boxes, player, a) && pos(g.w, a) < pos(g.w, seed) implies !in_region(
        g.w,
        g.h,
        g.walls,
        boxes,
        a,
        seed,
    ) by {
        if in_region(g.w, g.h, g.walls, boxes, a, seed) {
            let dirs = choose|dirs: Seq<int>| #[trigger] follow(step, a, dirs) == Some(seed);
            lemma_walk_back(g, boxes, a, dirs);
            lemma_region_transitive(g.w, g.h, g.walls, boxes, c, seed, a);
            lemma_pos(g.w, g.h, a);
            assert(cell_at(g.w, pos(g.w, a)) == a);
        }
    }
    if has_bare_goal(g, boxes, seed) {
        let n = choose|n: Cell| #[trigger]
            at(g.goals, g.w, n) && on_grid(g.w, g.h, n) && !at(boxes, g.w, n) && in_region(
                g.w,
                g.h,
                g.walls,
                boxes,
                seed,
                n,
            );
        lemma_region_transitive(g.w, g.h, g.walls, boxes, c, seed, n);
    }
    let d: int = if inner.1 == b.1 + 1 {
        0
    } else if inner.1 + 1 == b.1 {
        1
    } else if inner.0 == b.0 + 1 {
        2
    } else {
        3
    };
    lemma_region_transitive(g.w, g.h, g.walls, boxes, seed, c, inner);
    assert(neighbor(g.w, g.h, inner, d) == Some(b));
    assert(stuck_beside(g, boxes, inner, d));
    assert(is_corral(g, boxes, player, seed));
}

/// A corral needs all of this: a free cell that the player cannot reach, with no goal round it that
/// lacks a box, and with a stuck box at the border of what can be walked to from there.
pub proof fn law_corral_has_a_stuck_fence(g: Ground, boxes: Seq<bool>, player: Cell) -> (r: (
    Cell,
    Cell,
    Cell,
))
    requires
        corralled(g, boxes, player),
    ensures
        ({
            let (c, inner, b) = r;
            &&& cut_off(g, boxes, player, c)
            &&& forall|n: Cell|
                on_grid(g.w, g.h, n) && in_region(g.w, g.h, g.walls, boxes, c, n) && #[trigger] at(
                    g.goals,
                    g.w,
                    n,
                ) ==> at(boxes, g.w, n)
            &&& on_grid(g.w, g.h, inner) && in_region(g.w, g.h, g.walls, boxes, c, inner)
            &&& on_grid(g.w, g.h, b) && adjacent(inner, b) && at(boxes, g.w, b)
            &&& stuck(g, boxes, b)
        }),
{
    let c = choose|c: Cell| #[trigger] is_corral(g, boxes, player, c);
    let (inner, d) = choose|inner: Cell, d: int|
        0 <= d < 4 && on_grid(g.w, g.h, inner) && in_region(g.w, g.h, g.walls, boxes, c, inner)
            && #[trigger] stuck_beside(g, boxes, inner, d);
    (c, inner, neighbor(g.w, g.h, inner, d)->0)
}

} // verus!
