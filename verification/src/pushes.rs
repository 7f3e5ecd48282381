//! The pushes that can be made in a state of the search.

use vstd::prelude::*;

use crate::bitplane::{lemma_dims, set_cells, BitPlane};
use crate::closed_edge::Ground;
use crate::grid::{
    at, is_free, lemma_pos, lemma_set_cells, neighbor, on_grid, opposite, opposite_of, pos, pos_of,
    step_from, unmarked, Cell,
};
use crate::moves::{sign, stand, stand_of, Push};
use crate::reach::{fits, flood_fill, in_region, lemma_cell_stored};
use crate::solver::Solver;
use crate::tunnel::is_tunnel;

verus! {

/// Cells from `c` to the far end in direction `d`.
pub open spec fn room(c: Cell, d: int) -> int {
    if d == 0 {
        c.1 as int
    } else if d == 1 {
        255 - c.1
    } else if d == 2 {
        c.0 as int
    } else if d == 3 {
        255 - c.0
    } else {
        0
    }
}

/// A box on `c` that came from a push in direction `d` is pushed on: `c` is a tunnel and the next
/// cell is free.
pub open spec fn slides(g: Ground, boxes: Seq<bool>, c: Cell, d: int) -> bool {
    &&& 0 <= d < 4
    &&& is_tunnel(g.w, g.h, g.walls, g.goals, g.dead, c, d)
    &&& match neighbor(g.w, g.h, c, d) {
        Some(n) => !at(g.walls, g.w, n) && !at(boxes, g.w, n),
        None => false,
    }
}

/// Where a box comes to rest that is pushed to `c` in direction `d`, and how many cells it moves
/// on from there.
pub open spec fn slide(g: Ground, boxes: Seq<bool>, c: Cell, d: int) -> (Cell, nat)
    decreases room(c, d),
{
    if slides(g, boxes, c, d) {
        let (end, n) = slide(g, boxes, neighbor(g.w, g.h, c, d)->0, d);
        (end, n + 1)
    } else {
        (c, 0)
    }
}

/// The push of the box at `b` in direction `d`, if the player can reach the cell behind it, the
/// cell before it is free, and the box is not inside a wall. Through tunnels the box is pushed on to
/// the end.
pub open spec fn push_of(
    g: Ground,
    boxes: Seq<bool>,
    player: Cell,
    b: Cell,
    d: int,
) -> Option<Push> {
    match (neighbor(g.w, g.h, b, opposite(d)), neighbor(g.w, g.h, b, d)) {
        (Some(from), Some(to)) => if in_region(g.w, g.h, g.walls, boxes, player, from) && !at(
            g.walls,
            g.w,
            b,
        ) && is_free(g.w, g.walls, boxes, to) {
            let (end, n) = slide(g, boxes, to, d);
            Some(
                Push {
                    from_x: b.0,
                    from_y: b.1,
                    to_x: end.0,
                    to_y: end.1,
                    from_flat: pos(g.w, from) as usize,
                    steps: (n + 1) as u32,
                },
            )
        } else {
            None
        },
        _ => None,
    }
}

/// The pushes of one box in the first `n` directions.
pub open spec fn pushes_of_box(
    g: Ground,
    boxes: Seq<bool>,
    player: Cell,
    b: Cell,
    n: int,
) -> Seq<Push>
    decreases n,
{
    if n <= 0 {
        Seq::empty()
    } else {
        let before = pushes_of_box(g, boxes, player, b, n - 1);
        match push_of(g, boxes, player, b, n - 1) {
            Some(p) => before.push(p),
            None => before,
        }
    }
}

/// The pushes of the first `n` of some boxes.
pub open spec fn pushes_of_boxes(
    g: Ground,
    boxes: Seq<bool>,
    player: Cell,
    list: Seq<Cell>,
    n: int,
) -> Seq<Push>
    decreases n,
{
    if n <= 0 {
        Seq::empty()
    } else {
        pushes_of_boxes(g, boxes, player, list, n - 1) + pushes_of_box(
            g,
            boxes,
            player,
            list[n - 1],
            4,
        )
    }
}

/// The boxes of a grid in row-major order.
pub open spec fn boxes_of(g: Ground, boxes: Seq<bool>) -> Seq<Cell> {
    set_cells(boxes, g.w as int, (g.w * g.h) as nat)
}

/// All pushes: box by box in row-major order, each in the order of the directions.
pub open spec fn all_pushes(g: Ground, boxes: Seq<bool>, player: Cell) -> Seq<Push> {
    pushes_of_boxes(g, boxes, player, boxes_of(g, boxes), boxes_of(g, boxes).len() as int)
}

/// The push of the box at `b` by one cell in direction `d`, if the player can reach the cell behind
/// it, the cell before it is free, and the box is not inside a wall.
pub open spec fn step_of(
    g: Ground,
    boxes: Seq<bool>,
    player: Cell,
    b: Cell,
    d: int,
) -> Option<Push> {
    match (neighbor(g.w, g.h, b, opposite(d)), neighbor(g.w, g.h, b, d)) {
        (Some(from), Some(to)) => if in_region(g.w, g.h, g.walls, boxes, player, from) && !at(
            g.walls,
            g.w,
            b,
        ) && is_free(g.w, g.walls, boxes, to) {
            Some(
                Push {
                    from_x: b.0,
                    from_y: b.1,
                    to_x: to.0,
                    to_y: to.1,
                    from_flat: pos(g.w, from) as usize,
                    steps: 1,
                },
            )
        } else {
            None
        },
        _ => None,
    }
}

/// The first cell's worth of a push.
pub open spec fn first_step(p: Push) -> Push {
    Push { to_x: (p.from_x + p.dx()) as u8, to_y: (p.from_y + p.dy()) as u8, steps: 1, ..p }
}

/// The first `k` pushes, each through a tunnel followed by its first step.
pub open spec fn with_steps(pushes: Seq<Push>, k: int) -> Seq<Push>
    decreases k,
{
    if k <= 0 {
        Seq::empty()
    } else {
        let p = pushes[k - 1];
        let before = with_steps(pushes, k - 1);
        if p.steps > 1 {
            before.push(p).push(first_step(p))
        } else {
            before.push(p)
        }
    }
}

/// The pushes that the search tries: all pushes, and the first steps of those through tunnels,
/// after which a box may have to wait in the tunnel.
pub open spec fn tried_pushes(g: Ground, boxes: Seq<bool>, player: Cell) -> Seq<Push> {
    let pushes = all_pushes(g, boxes, player);
    with_steps(pushes, pushes.len() as int)
}

/// A coordinate moved one on toward another.
fn toward(from: u8, to: u8) -> (r: u8)
    ensures
        r == from + sign(to - from),
{
    if to > from {
        from + 1
    } else if to < from {
        from - 1
    } else {
        from
    }
}

/// The pushes with the first steps of those through tunnels.
pub fn add_steps(pushes: &Vec<Push>) -> (r: Vec<Push>)
    ensures
        r@ == with_steps(pushes@, pushes@.len() as int),
{
    let mut r: Vec<Push> = Vec::new();
    let mut k: usize = 0;
    while k < pushes.len()
        invariant
            k <= pushes@.len(),
            r@ == with_steps(pushes@, k as int),
        decreases pushes@.len() - k,
    {
        let p = pushes[k];
        r.push(p);
        if p.steps > 1 {
            let step = Push {
                from_x: p.from_x,
                from_y: p.from_y,
                to_x: toward(p.from_x, p.to_x),
                to_y: toward(p.from_y, p.to_y),
                from_flat: p.from_flat,
                steps: 1,
            };
            assert(step == first_step(p));
            r.push(step);
        }
        k += 1;
    }
    r
}

/// A state of the search: the boxes, and the player's region by its first cell.
pub struct State {
    pub boxes: BitPlane,
    pub player_norm: u16,
}

impl Solver {
    /// Where a box comes to rest that is pushed to `(x, y)`, and how many cells it moves on.
    fn slide_from(&self, boxes: &BitPlane, x: u8, y: u8, d: usize) -> (r: ((u8, u8), u32))
        requires
            self.wf(),
            fits(boxes, self.width, self.height),
            on_grid(self.width, self.height, (x, y)),
            d < 4,
        ensures
            r.0 == slide(self.ground(), boxes@, (x, y), d as int).0,
            r.1 == slide(self.ground(), boxes@, (x, y), d as int).1,
            r.1 <= room((x, y), d as int),
            on_grid(self.width, self.height, r.0),
        decreases room((x, y), d as int),
    {
        let flat = pos_of(self.width, self.height, x, y);
        proof {
            lemma_pos(self.width, self.height, (x, y));
        }
        if !self.tunnel_data[flat][d] {
            return ((x, y), 0);
        }
        match step_from(self.width, self.height, x, y, d) {
            Some((nx, ny)) => {
                proof {
                    lemma_cell_stored(&self.walls, self.width, self.height, (nx, ny));
                    lemma_cell_stored(boxes, self.width, self.height, (nx, ny));
                }
                if self.walls.get(nx, ny) || boxes.get(nx, ny) {
                    ((x, y), 0)
                } else {
                    let (end, n) = self.slide_from(boxes, nx, ny, d);
                    (end, n + 1)
                }
            },
            None => ((x, y), 0),
        }
    }

    /// The push of one box in one direction.
    fn push_box(
        &self,
        boxes: &BitPlane,
        reachable: &BitPlane,
        x: u8,
        y: u8,
        d: usize,
        Ghost(player): Ghost<Cell>,
    ) -> (r: Option<Push>)
        requires
            self.wf(),
            fits(boxes, self.width, self.height),
            fits(reachable, self.width, self.height),
            forall|c: Cell|
                on_grid(self.width, self.height, c) ==> (#[trigger] at(
                    reachable@,
                    self.width,
                    c,
                ) <==> in_region(self.width, self.height, self.walls@, boxes@, player, c)),
            on_grid(self.width, self.height, (x, y)),
            d < 4,
        ensures
            r == push_of(self.ground(), boxes@, player, (x, y), d as int),
    {
        let (w, h) = (self.width, self.height);
        match (step_from(w, h, x, y, opposite_of(d)), step_from(w, h, x, y, d)) {
            (Some((fx, fy)), Some((tx, ty))) => {
                proof {
                    lemma_cell_stored(reachable, w, h, (fx, fy));
                    lemma_cell_stored(&self.walls, w, h, (x, y));
                    lemma_cell_stored(&self.walls, w, h, (tx, ty));
                    lemma_cell_stored(boxes, w, h, (tx, ty));
                    assert(at(reachable@, w, (fx, fy)) <==> in_region(
                        w,
                        h,
                        self.walls@,
                        boxes@,
                        player,
                        (fx, fy),
                    ));
                }
                if !reachable.get(fx, fy) || self.walls.get(x, y) || self.walls.get(tx, ty)
                    || boxes.get(tx, ty) {
                    None
                } else {
                    let ((ex, ey), n) = self.slide_from(boxes, tx, ty, d);
                    Some(
                        Push {
                            from_x: x,
                            from_y: y,
                            to_x: ex,
                            to_y: ey,
                            from_flat: pos_of(w, h, fx, fy),
                            steps: n + 1,
                        },
                    )
                }
            },
            _ => None,
        }
    }

    /// All pushes that can be made in a state. A push into a tunnel goes on to the tunnel's end.
    pub fn generate_pushes(&self, state: &State) -> (pushes: Vec<Push>)
        requires
            self.wf(),
            fits(&state.boxes, self.width, self.height),
            on_grid(self.width, self.height, stand(self.width, state.player_norm as int)),
        ensures
            pushes@ == all_pushes(
                self.ground(),
                state.boxes@,
                stand(self.width, state.player_norm as int),
            ),
    {
        let (w, h) = (self.width, self.height);
        let ghost g = self.ground();
        let ghost player = stand(w, state.player_norm as int);
        let (px, py) = stand_of(w, state.player_norm as usize);
        let reachable = flood_fill(px, py, &self.walls, &state.boxes, w, h);
        let list = state.boxes.iter_set_bits();
        proof {
            lemma_set_cells(w, h, state.boxes@, (w * h) as nat);
        }
        let mut pushes: Vec<Push> = Vec::new();
        let mut k: usize = 0;
        while k < list.len()
            invariant
                self.wf(),
                w == self.width,
                h == self.height,
                g == self.ground(),
                fits(&state.boxes, w, h),
                fits(&reachable, w, h),
                forall|c: Cell|
                    on_grid(w, h, c) ==> (#[trigger] at(reachable@, w, c) <==> in_region(
                        w,
                        h,
                        self.walls@,
                        state.boxes@,
                        player,
                        c,
                    )),
                forall|j: int| 0 <= j < list@.len() ==> on_grid(w, h, #[trigger] list@[j]),
                k <= list@.len(),
                pushes@ == pushes_of_boxes(g, state.boxes@, player, list@, k as int),
            decreases list@.len() - k,
        {
            let (bx, by) = list[k];
            assert(on_grid(w, h, list@[k as int]));
            let ghost before = pushes@;
            let mut d: usize = 0;
            assert(before + pushes_of_box(g, state.boxes@, player, (bx, by), 0) =~= before);
            while d < 4
                invariant
                    self.wf(),
                    w == self.width,
                    h == self.height,
                    g == self.ground(),
                    fits(&state.boxes, w, h),
                    fits(&reachable, w, h),
                    forall|c: Cell|
                        on_grid(w, h, c) ==> (#[trigger] at(reachable@, w, c) <==> in_region(
                            w,
                            h,
                            self.walls@,
                            state.boxes@,
                            player,
                            c,
                        )),
                    on_grid(w, h, (bx, by)),
                    d <= 4,
                    pushes@ == before + pushes_of_box(
                        g,
                        state.boxes@,
                        player,
                        (bx, by),
                        d as int,
                    ),
                decreases 4 - d,
            {
                let found = self.push_box(&state.boxes, &reachable, bx, by, d, Ghost(player));
                if let Some(p) = found {
                    pushes.push(p);
                }
                d += 1;
                assert(pushes@ =~= before + pushes_of_box(
                    g,
                    state.boxes@,
                    player,
                    (bx, by),
                    d as int,
                ));
            }
            k += 1;
        }
        pushes
    }
}

// ── Laws ──────────────────────────────────────────────────────────────────

/// The column and row that are `k` cells from `c` in direction `d`: up, down, left or right.
pub open spec fn beside(c: Cell, d: int, k: int) -> (int, int) {
    if d == 0 {
        (c.0 as int, c.1 - k)
    } else if d == 1 {
        (c.0 as int, c.1 + k)
    } else if d == 2 {
        (c.0 - k, c.1 as int)
    } else {
        (c.0 + k, c.1 as int)
    }
}

/// The grid has the cell `k` cells from `c` in direction `d`, and it has no wall and no box.
pub open spec fn is_open(g: Ground, boxes: Seq<bool>, c: Cell, d: int, k: int) -> bool {
    let (x, y) = beside(c, d, k);
    unmarked(g.w, g.h, g.walls, x, y) && unmarked(g.w, g.h, boxes, x, y)
}

/// The cell `k` cells from `c` in direction `d` is a tunnel for pushes in that direction.
pub open spec fn is_tunnel_at(g: Ground, c: Cell, d: int, k: int) -> bool {
    let (x, y) = beside(c, d, k);
    is_tunnel(g.w, g.h, g.walls, g.goals, g.dead, (x as u8, y as u8), d)
}

/// There is a box on `b`, not inside a wall, the player can walk to the cell behind it, and the cell
/// before it is open.
pub open spec fn can_push(g: Ground, boxes: Seq<bool>, player: Cell, b: Cell, d: int) -> bool {
    let (x, y) = beside(b, d, -1);
    &&& on_grid(g.w, g.h, b) && at(boxes, g.w, b) && !at(g.walls, g.w, b)
    &&& 0 <= x < g.w && 0 <= y < g.h
    &&& in_region(g.w, g.h, g.walls, boxes, player, (x as u8, y as u8))
    &&& is_open(g, boxes, b, d, 1)
}

/// The push moves the box on `b` in direction `d`, from the cell behind it, through every tunnel
/// that it meets and no farther.
pub open spec fn is_push_of(g: Ground, boxes: Seq<bool>, p: Push, b: Cell, d: int) -> bool {
    let (x, y) = beside(b, d, -1);
    let n = p.steps as int;
    &&& p.from_x == b.0 && p.from_y == b.1
    &&& p.from_flat == y * g.w + x
    &&& n >= 1
    &&& (p.to_x as int, p.to_y as int) == beside(b, d, n)
    &&& forall|k: int|
        1 <= k < n ==> #[trigger] is_tunnel_at(g, b, d, k) && is_open(g, boxes, b, d, k + 1)
    &&& !(is_tunnel_at(g, b, d, n) && is_open(g, boxes, b, d, n + 1))
}

/// The direction of a push.
pub open spec fn dir_of(p: Push) -> int {
    if p.to_y < p.from_y {
        0
    } else if p.to_y > p.from_y {
        1
    } else if p.to_x < p.from_x {
        2
    } else {
        3
    }
}

/// The place of a push in a list by boxes and directions.
pub open spec fn rank(g: Ground, p: Push) -> int {
    4 * pos(g.w, p.from()) + dir_of(p)
}

proof fn lemma_slide_line(g: Ground, boxes: Seq<bool>, c: Cell, d: int)
    requires
        on_grid(g.w, g.h, c),
        0 <= d < 4,
    ensures
        ({
            let end = slide(g, boxes, c, d).0;
            let n = slide(g, boxes, c, d).1 as int;
            &&& (end.0 as int, end.1 as int) == beside(c, d, n)
            &&& on_grid(g.w, g.h, end)
            &&& n <= 255
            &&& forall|k: int|
                0 <= k < n ==> #[trigger] is_tunnel_at(g, c, d, k) && is_open(g, boxes, c, d, k + 1)
            &&& !(is_tunnel_at(g, c, d, n) && is_open(g, boxes, c, d, n + 1))
        }),
    decreases room(c, d),
{
    let end = slide(g, boxes, c, d).0;
    let n = slide(g, boxes, c, d).1 as int;
    assert(beside(c, d, 0) == (c.0 as int, c.1 as int));
    if slides(g, boxes, c, d) {
        let next = neighbor(g.w, g.h, c, d)->0;
        lemma_slide_line(g, boxes, next, d);
        let m = slide(g, boxes, next, d).1 as int;
        assert(n == m + 1);
        assert(is_open(g, boxes, c, d, 1));
        assert forall|k: int| 0 <= k < n implies #[trigger] is_tunnel_at(g, c, d, k) && is_open(
            g,
            boxes,
            c,
            d,
            k + 1,
        ) by {
            if k > 0 {
                assert(beside(c, d, k) == beside(next, d, k - 1));
                assert(0 <= k - 1 < m);
                assert(is_tunnel_at(g, next, d, k - 1));
                assert(is_open(g, boxes, next, d, k - 1 + 1));
                assert(beside(c, d, k + 1) == beside(next, d, k));
            }
        }
        assert(beside(c, d, n) == beside(next, d, n - 1));
        assert(beside(c, d, n + 1) == beside(next, d, n));
    }
}

#[verifier::rlimit(30)]
proof fn lemma_push_of(g: Ground, boxes: Seq<bool>, player: Cell, b: Cell, d: int)
    requires
        on_grid(g.w, g.h, b),
        at(boxes, g.w, b),
        0 <= d < 4,
    ensures
        push_of(g, boxes, player, b, d) is Some <==> can_push(g, boxes, player, b, d),
        push_of(g, boxes, player, b, d) is Some ==> {
            let p = push_of(g, boxes, player, b, d)->0;
            is_push_of(g, boxes, p, b, d) && dir_of(p) == d
        },
{
    if let (Some(from), Some(to)) = (
        neighbor(g.w, g.h, b, opposite(d)),
        neighbor(g.w, g.h, b, d),
    ) {
        lemma_pos(g.w, g.h, from);
        lemma_dims(g.w as int, g.h as int);
        lemma_slide_line(g, boxes, to, d);
        let n = slide(g, boxes, to, d).1 as int;
        assert(beside(b, d, -1) == (from.0 as int, from.1 as int));
        assert(beside(b, d, 1) == (to.0 as int, to.1 as int));
        assert forall|k: int| 1 <= k < n + 1 implies #[trigger] is_tunnel_at(g, b, d, k) && is_open(
            g,
            boxes,
            b,
            d,
            k + 1,
        ) by {
            assert(beside(b, d, k) == beside(to, d, k - 1));
            assert(is_tunnel_at(g, to, d, k - 1));
            assert(is_open(g, boxes, to, d, k - 1 + 1));
            assert(beside(b, d, k + 1) == beside(to, d, k));
        }
        assert(beside(b, d, n + 1) == beside(to, d, n));
        assert(beside(b, d, n + 2) == beside(to, d, n + 1));
    }
}

/// The list of a box holds its pushes in the first directions, by direction.
proof fn lemma_of_box(g: Ground, boxes: Seq<bool>, player: Cell, b: Cell, n: int)
    requires
        on_grid(g.w, g.h, b),
        at(boxes, g.w, b),
        0 <= n <= 4,
    ensures
        ({
            let list = pushes_of_box(g, boxes, player, b, n);
            &&& forall|k: int|
                0 <= k < list.len() ==> {
                    let p = #[trigger] list[k];
                    &&& p.from() == b
                    &&& 0 <= dir_of(p) < n
                    &&& can_push(g, boxes, player, b, dir_of(p))
                    &&& is_push_of(g, boxes, p, b, dir_of(p))
                }
            &&& forall|j: int, k: int|
                0 <= j < k < list.len() ==> dir_of(#[trigger] list[j]) < dir_of(#[trigger] list[k])
            &&& forall|d: int|
                0 <= d < n && #[trigger] can_push(g, boxes, player, b, d) ==> exists|k: int|
                    0 <= k < list.len() && dir_of(#[trigger] list[k]) == d
        }),
    decreases n,
{
    if n > 0 {
        let before = pushes_of_box(g, boxes, player, b, n - 1);
        let list = pushes_of_box(g, boxes, player, b, n);
        lemma_of_box(g, boxes, player, b, n - 1);
        lemma_push_of(g, boxes, player, b, n - 1);
        assert forall|d: int| 0 <= d < n && #[trigger] can_push(
            g,
            boxes,
            player,
            b,
            d,
        ) implies exists|k: int| 0 <= k < list.len() && dir_of(#[trigger] list[k]) == d by {
            if d < n - 1 {
                let k = choose|k: int| 0 <= k < before.len() && dir_of(#[trigger] before[k]) == d;
                assert(list[k] == before[k]);
            } else {
                assert(dir_of(list[before.len() as int]) == d);
            }
        }
    }
}

proof fn lemma_of_boxes(g: Ground, boxes: Seq<bool>, player: Cell, n: int)
    requires
        0 <= n <= boxes_of(g, boxes).len(),
    ensures
        ({
            let list = pushes_of_boxes(g, boxes, player, boxes_of(g, boxes), n);
            &&& forall|k: int|
                0 <= k < list.len() ==> {
                    let p = #[trigger] list[k];
                    &&& boxes_of(g, boxes).take(n).contains(p.from())
                    &&& can_push(g, boxes, player, p.from(), dir_of(p))
                    &&& is_push_of(g, boxes, p, p.from(), dir_of(p))
                }
            &&& forall|j: int, k: int|
                0 <= j < k < list.len() ==> rank(g, #[trigger] list[j]) < rank(
                    g,
                    #[trigger] list[k],
                )
            &&& forall|i: int, d: int|
                0 <= i < n && 0 <= d < 4 && #[trigger] can_push(
                    g,
                    boxes,
                    player,
                    boxes_of(g, boxes)[i],
                    d,
                ) ==> exists|k: int|
                    0 <= k < list.len() && (#[trigger] list[k]).from() == boxes_of(g, boxes)[i]
                        && dir_of(list[k]) == d
        }),
    decreases n,
{
    let all = boxes_of(g, boxes);
    lemma_dims(g.w as int, g.h as int);
    lemma_set_cells(g.w, g.h, boxes, (g.w * g.h) as nat);
    if n > 0 {
        let b = all[n - 1];
        let before = pushes_of_boxes(g, boxes, player, all, n - 1);
        let own = pushes_of_box(g, boxes, player, b, 4);
        let list = before + own;
        let some = all.take(n - 1);
        assert(pushes_of_boxes(g, boxes, player, all, n) == list);
        lemma_of_boxes(g, boxes, player, n - 1);
        assert(on_grid(g.w, g.h, b) && at(boxes, g.w, b));
        lemma_of_box(g, boxes, player, b, 4);
        assert forall|k: int| 0 <= k < list.len() implies {
            let p = #[trigger] list[k];
            &&& all.take(n).contains(p.from())
            &&& can_push(g, boxes, player, p.from(), dir_of(p))
            &&& is_push_of(g, boxes, p, p.from(), dir_of(p))
        } by {
            if k < before.len() {
                let p = before[k];
                assert(some.contains(p.from()));
                let i = choose|i: int| 0 <= i < n - 1 && some[i] == p.from();
                assert(all.take(n)[i] == p.from());
            } else {
                assert(list[k] == own[k - before.len()]);
                assert(all.take(n)[n - 1] == b);
            }
        }
        assert forall|j: int, k: int| 0 <= j < k < list.len() implies rank(g, #[trigger] list[j])
            < rank(g, #[trigger] list[k]) by {
            if k < before.len() {
                assert(list[j] == before[j] && list[k] == before[k]);
            } else if j < before.len() {
                assert(list[j] == before[j] && list[k] == own[k - before.len()]);
                let p = before[j];
                assert(some.contains(p.from()));
                let i = choose|i: int| 0 <= i < n - 1 && some[i] == p.from();
                assert(all[i] == p.from());
                assert(pos(g.w, all[i]) < pos(g.w, all[n - 1]));
            } else {
                assert(list[j] == own[j - before.len()] && list[k] == own[k - before.len()]);
            }
        }
        assert forall|i: int, d: int| 0 <= i < n && 0 <= d < 4 && #[trigger] can_push(
            g,
            boxes,
            player,
            all[i],
            d,
        ) implies exists|k: int|
            0 <= k < list.len() && (#[trigger] list[k]).from() == all[i] && dir_of(list[k])
                == d by {
            if i < n - 1 {
                let k = choose|k: int|
                    0 <= k < before.len() && (#[trigger] before[k]).from() == all[i] && dir_of(
                        before[k],
                    ) == d;
                assert(list[k] == before[k]);
            } else {
                let k = choose|k: int| 0 <= k < own.len() && dir_of(#[trigger] own[k]) == d;
                assert(list[before.len() + k] == own[k]);
            }
        }
    }
}

/// The list of pushes holds every box and direction in which it can be pushed, once, and nothing
/// else: row by row, and for each box up, down, left and right. Each push goes through the tunnels
/// that it meets and no farther.
pub proof fn law_every_push_is_listed(g: Ground, boxes: Seq<bool>, player: Cell)
    ensures
        ({
            let list = all_pushes(g, boxes, player);
            &&& forall|k: int|
                0 <= k < list.len() ==> {
                    let p = #[trigger] list[k];
                    &&& can_push(g, boxes, player, p.from(), dir_of(p))
                    &&& is_push_of(g, boxes, p, p.from(), dir_of(p))
                }
            &&& forall|j: int, k: int|
                0 <= j < k < list.len() ==> rank(g, #[trigger] list[j]) < rank(
                    g,
                    #[trigger] list[k],
                )
            &&& forall|b: Cell, d: int|
                0 <= d < 4 && #[trigger] can_push(g, boxes, player, b, d) ==> exists|k: int|
                    0 <= k < list.len() && (#[trigger] list[k]).from() == b && dir_of(list[k]) == d
        }),
{
    let all = boxes_of(g, boxes);
    let list = all_pushes(g, boxes, player);
    lemma_of_boxes(g, boxes, player, all.len() as int);
    lemma_dims(g.w as int, g.h as int);
    lemma_set_cells(g.w, g.h, boxes, (g.w * g.h) as nat);
    assert forall|b: Cell, d: int| 0 <= d < 4 && #[trigger] can_push(
        g,
        boxes,
        player,
        b,
        d,
    ) implies exists|k: int|
        0 <= k < list.len() && (#[trigger] list[k]).from() == b && dir_of(list[k]) == d by {
        lemma_pos(g.w, g.h, b);
        assert(all.contains(b));
        let i = choose|i: int| 0 <= i < all.len() && all[i] == b;
        assert(can_push(g, boxes, player, all[i], d));
    }
}

/// What the search tries holds every push, and behind each one through a tunnel the push of the same
/// box by a single cell, and nothing else.
pub proof fn law_first_steps_are_tried_too(pushes: Seq<Push>, p: Push)
    ensures
        ({
            let n = pushes.len() as int;
            let before = with_steps(pushes, n);
            let after = with_steps(pushes.push(p), n + 1);
            let step = Push {
                from_x: p.from_x,
                from_y: p.from_y,
                to_x: (if p.to_x > p.from_x {
                    p.from_x + 1
                } else if p.to_x < p.from_x {
                    p.from_x - 1
                } else {
                    p.from_x as int
                }) as u8,
                to_y: (if p.to_y > p.from_y {
                    p.from_y + 1
                } else if p.to_y < p.from_y {
                    p.from_y - 1
                } else {
                    p.from_y as int
                }) as u8,
                from_flat: p.from_flat,
                steps: 1,
            };
            &&& p.steps <= 1 ==> after == before + seq![p]
            &&& p.steps > 1 ==> after == before + seq![p, step]
            &&& with_steps(Seq::empty(), 0).len() == 0
        }),
{
    lemma_same_steps(pushes, p, pushes.len() as int);
}

proof fn lemma_same_steps(pushes: Seq<Push>, p: Push, n: int)
    requires
        0 <= n <= pushes.len(),
    ensures
        with_steps(pushes.push(p), n) == with_steps(pushes, n),
    decreases n,
{
    if n > 0 {
        lemma_same_steps(pushes, p, n - 1);
    }
}

} // verus!
