//! The region that the player can walk to.

use std::collections::VecDeque;

use vstd::prelude::*;

use crate::bfs::{
    lemma_advance, lemma_begin, lemma_discover, lemma_finished, lemma_follow_push, lemma_skip,
    Exploration,
};
use crate::bitplane::{flat, lemma_flat, BitPlane};
use crate::grid::{
    at, follow, is_free, neighbor, on_grid, reaches, step_from, walk_step, Cell, Step,
};

verus! {

/// The player can walk from `start` to `c`.
pub open spec fn in_region(
    w: u8,
    h: u8,
    walls: Seq<bool>,
    boxes: Seq<bool>,
    start: Cell,
    c: Cell,
) -> bool {
    is_free(w, walls, boxes, start) && reaches(walk_step(w, h, walls, boxes), start, c)
}

/// A plane that fits a `w` by `h` grid.
pub open spec fn fits(p: &BitPlane, w: u8, h: u8) -> bool {
    p.wf() && p.width == w && p.height == h
}

/// Distinct numbers below `n` are at most `n`.
pub proof fn lemma_pigeonhole(s: Seq<int>, n: nat)
    requires
        forall|i: int| 0 <= i < s.len() ==> 0 <= #[trigger] s[i] < n,
        forall|i: int, j: int| 0 <= i < j < s.len() ==> s[i] != s[j],
    ensures
        s.len() <= n,
    decreases n,
{
    if n == 0 {
        if s.len() > 0 {
            assert(0 <= s[0] < n);
        }
    } else if exists|k: int| 0 <= k < s.len() && s[k] == n - 1 {
        let k = choose|k: int| 0 <= k < s.len() && s[k] == n - 1;
        let t = s.remove(k);
        assert forall|i: int| 0 <= i < t.len() implies 0 <= #[trigger] t[i] < n - 1 by {
            if i < k {
                assert(t[i] == s[i]);
            } else {
                assert(t[i] == s[i + 1]);
            }
        }
        assert forall|i: int, j: int| 0 <= i < j < t.len() implies t[i] != t[j] by {
            let a = if i < k {
                i
            } else {
                i + 1
            };
            let b = if j < k {
                j
            } else {
                j + 1
            };
            assert(t[i] == s[a] && t[j] == s[b]);
        }
        lemma_pigeonhole(t, (n - 1) as nat);
    } else {
        lemma_pigeonhole(s, (n - 1) as nat);
    }
}

/// Distinct cells of a grid are at most as many as the grid has.
pub proof fn lemma_distinct_cells(w: u8, h: u8, s: Seq<Cell>)
    requires
        forall|i: int| 0 <= i < s.len() ==> on_grid(w, h, #[trigger] s[i]),
        forall|i: int, j: int| 0 <= i < j < s.len() ==> s[i] != s[j],
    ensures
        s.len() <= w * h,
{
    let t = Seq::new(s.len(), |i: int| flat(w as int, s[i].0 as int, s[i].1 as int));
    assert forall|i: int| 0 <= i < t.len() implies 0 <= #[trigger] t[i] < w * h by {
        lemma_flat(w as int, h as int, s[i].0 as int, s[i].1 as int);
    }
    assert forall|i: int, j: int| 0 <= i < j < t.len() implies t[i] != t[j] by {
        lemma_flat(w as int, h as int, s[i].0 as int, s[i].1 as int);
        lemma_flat(w as int, h as int, s[j].0 as int, s[j].1 as int);
        assert(s[i] != s[j]);
    }
    assert(0 <= w * h) by (nonlinear_arith);
    lemma_pigeonhole(t, (w * h) as nat);
}

/// Distinct cells have distinct positions.
pub proof fn lemma_flat_injective(w: u8, h: u8, a: Cell, b: Cell)
    requires
        on_grid(w, h, a),
        on_grid(w, h, b),
        flat(w as int, a.0 as int, a.1 as int) == flat(w as int, b.0 as int, b.1 as int),
    ensures
        a == b,
{
    lemma_flat(w as int, h as int, a.0 as int, a.1 as int);
    lemma_flat(w as int, h as int, b.0 as int, b.1 as int);
}

/// The position of a cell of the grid is one of a plane that fits it.
pub proof fn lemma_cell_stored(p: &BitPlane, w: u8, h: u8, c: Cell)
    requires
        fits(p, w, h),
        on_grid(w, h, c),
    ensures
        0 <= flat(w as int, c.0 as int, c.1 as int) < w * h <= p@.len(),
{
    lemma_flat(w as int, h as int, c.0 as int, c.1 as int);
}

/// Setting the bit of one cell leaves the bits of the other cells.
pub proof fn lemma_update_cell(w: u8, h: u8, bits: Seq<bool>, c: Cell, b: Cell, v: bool)
    requires
        on_grid(w, h, c),
        on_grid(w, h, b),
        w * h <= bits.len(),
    ensures
        at(bits.update(flat(w as int, c.0 as int, c.1 as int), v), w, b) == (if b == c {
            v
        } else {
            at(bits, w, b)
        }),
{
    lemma_flat(w as int, h as int, c.0 as int, c.1 as int);
    lemma_flat(w as int, h as int, b.0 as int, b.1 as int);
    if b != c {
        if flat(w as int, c.0 as int, c.1 as int) == flat(w as int, b.0 as int, b.1 as int) {
            lemma_flat_injective(w, h, b, c);
        }
    }
}

/// The cells marked in `bits` are the discovered ones.
pub open spec fn marks(bits: Seq<bool>, w: u8, h: u8, order: Seq<Cell>) -> bool {
    &&& forall|i: int| 0 <= i < order.len() ==> on_grid(w, h, #[trigger] order[i])
    &&& forall|c: Cell|
        on_grid(w, h, c) ==> (#[trigger] at(bits, w, c) <==> order.contains(c))
    &&& forall|i: int| w * h <= i < bits.len() ==> !(#[trigger] bits[i])
}

/// Marking a newly discovered cell.
pub proof fn lemma_mark(bits: Seq<bool>, w: u8, h: u8, order: Seq<Cell>, c: Cell)
    requires
        marks(bits, w, h, order),
        on_grid(w, h, c),
        w * h <= bits.len(),
    ensures
        marks(bits.update(flat(w as int, c.0 as int, c.1 as int), true), w, h, order.push(c)),
{
    let f = flat(w as int, c.0 as int, c.1 as int);
    let new = bits.update(f, true);
    let o2 = order.push(c);
    lemma_flat(w as int, h as int, c.0 as int, c.1 as int);
    assert forall|b: Cell| on_grid(w, h, b) implies (#[trigger] at(new, w, b) <==> o2.contains(
        b,
    )) by {
        lemma_update_cell(w, h, bits, c, b, true);
        if b == c {
            assert(o2[order.len() as int] == c);
        } else {
            if order.contains(b) {
                let j = choose|j: int| 0 <= j < order.len() && order[j] == b;
                assert(o2[j] == b);
            }
            if o2.contains(b) {
                let j = choose|j: int| 0 <= j < o2.len() && o2[j] == b;
                assert(order[j] == b);
            }
        }
    }
}

/// The cells that the player can walk to from `(start_x, start_y)`.
pub fn flood_fill(
    start_x: u8,
    start_y: u8,
    walls: &BitPlane,
    boxes: &BitPlane,
    width: u8,
    height: u8,
) -> (r: BitPlane)
    requires
        fits(walls, width, height),
        fits(boxes, width, height),
        on_grid(width, height, (start_x, start_y)),
    ensures
        fits(&r, width, height),
        forall|c: Cell|
            on_grid(width, height, c) ==> (#[trigger] at(r@, width, c) <==> in_region(
                width,
                height,
                walls@,
                boxes@,
                (start_x, start_y),
                c,
            )),
        forall|i: int| width * height <= i < r@.len() ==> !(#[trigger] r@[i]),
{
    let ghost start: Cell = (start_x, start_y);
    let ghost step: Step = walk_step(width, height, walls@, boxes@);
    let mut visited = BitPlane::new(width, height);
    let mut queue: VecDeque<(u8, u8)> = VecDeque::new();
    proof {
        lemma_cell_stored(walls, width, height, start);
        lemma_cell_stored(boxes, width, height, start);
        lemma_cell_stored(&visited, width, height, start);
        assert forall|c: Cell| on_grid(width, height, c) implies !(#[trigger] at(
            visited@,
            width,
            c,
        )) by {
            lemma_cell_stored(&visited, width, height, c);
        }
    }
    if walls.get(start_x, start_y) || boxes.get(start_x, start_y) {
        return visited;
    }
    let ghost mut x = Exploration::begin(start);
    let ghost mut head: int = 0;
    proof {
        lemma_begin(step, start);
        assert(marks(visited@, width, height, Seq::<Cell>::empty()));
        lemma_mark(visited@, width, height, Seq::<Cell>::empty(), start);
        assert(Seq::<Cell>::empty().push(start) =~= x.order);
    }
    visited.set(start_x, start_y);
    queue.push_back((start_x, start_y));
    proof {
        assert(queue@ =~= x.order.skip(head));
    }
    loop
        invariant_except_break
            queue@ == x.order.skip(head),
        invariant
            fits(walls, width, height),
            fits(boxes, width, height),
            fits(&visited, width, height),
            step == walk_step(width, height, walls@, boxes@),
            x.inv(step, start, head, 0),
            marks(visited@, width, height, x.order),
        ensures
            head == x.order.len(),
        decreases width * height - head,
    {
        match queue.pop_front() {
            None => {
                break;
            },
            Some((cx, cy)) => {
                proof {
                    assert(x.order[head] == (cx, cy));
                    lemma_distinct_cells(width, height, x.order);
                    assert(queue@ =~= x.order.skip(head + 1));
                }
                let mut d: usize = 0;
                while d < 4
                    invariant
                        d <= 4,
                        fits(walls, width, height),
                        fits(boxes, width, height),
                        fits(&visited, width, height),
                        step == walk_step(width, height, walls@, boxes@),
                        head < x.order.len(),
                        x.order[head] == (cx, cy),
                        x.inv(step, start, head, d as int),
                        marks(visited@, width, height, x.order),
                        queue@ == x.order.skip(head + 1),
                    decreases 4 - d,
                {
                    assert(on_grid(width, height, x.order[head]));
                    let next = step_from(width, height, cx, cy, d);
                    let mut fresh = false;
                    if let Some((nx, ny)) = next {
                        proof {
                            lemma_cell_stored(walls, width, height, (nx, ny));
                            lemma_cell_stored(boxes, width, height, (nx, ny));
                            lemma_cell_stored(&visited, width, height, (nx, ny));
                            assert(at(visited@, width, (nx, ny)) <==> x.order.contains((nx, ny)));
                        }
                        if !(visited.get(nx, ny) || walls.get(nx, ny) || boxes.get(nx, ny)) {
                            fresh = true;
                            proof {
                                lemma_discover(x, step, start, head, d as int, (nx, ny));
                                lemma_mark(visited@, width, height, x.order, (nx, ny));
                                x = x.add((nx, ny), head, d as int);
                            }
                            visited.set(nx, ny);
                            queue.push_back((nx, ny));
                            assert(queue@ =~= x.order.skip(head + 1));
                        }
                    }
                    proof {
                        if !fresh {
                            lemma_skip(x, step, start, head, d as int);
                        }
                    }
                    d += 1;
                }
                proof {
                    lemma_advance(x, step, start, head);
                    head = head + 1;
                }
            },
        }
    }
    proof {
        assert forall|c: Cell| on_grid(width, height, c) implies (#[trigger] at(
            visited@,
            width,
            c,
        ) <==> in_region(width, height, walls@, boxes@, start, c)) by {
            lemma_finished(x, step, start, c);
        }
    }
    visited
}

/// The cells share a side.
pub open spec fn adjacent(a: Cell, b: Cell) -> bool {
    ||| a.0 == b.0 && (a.1 == b.1 + 1 || a.1 + 1 == b.1)
    ||| a.1 == b.1 && (a.0 == b.0 + 1 || a.0 + 1 == b.0)
}

/// The region of a free cell holds the cell, goes on to every free cell beside one of its own, and
/// holds no more than any other set that does so.
pub proof fn law_region_spreads_over_free_cells(
    w: u8,
    h: u8,
    walls: Seq<bool>,
    boxes: Seq<bool>,
    start: Cell,
    s: spec_fn(Cell) -> bool,
)
    requires
        on_grid(w, h, start),
        is_free(w, walls, boxes, start),
        s(start),
        forall|a: Cell, b: Cell|
            s(a) && on_grid(w, h, a) && on_grid(w, h, b) && #[trigger] adjacent(a, b) && is_free(
                w,
                walls,
                boxes,
                b,
            ) ==> s(b),
    ensures
        in_region(w, h, walls, boxes, start, start),
        forall|a: Cell, b: Cell|
            in_region(w, h, walls, boxes, start, a) && on_grid(w, h, b) && #[trigger] adjacent(a, b)
                && is_free(w, walls, boxes, b) ==> in_region(w, h, walls, boxes, start, b),
        forall|c: Cell| #[trigger]
            in_region(w, h, walls, boxes, start, c) ==> s(c) && on_grid(w, h, c) && is_free(
                w,
                walls,
                boxes,
                c,
            ),
{
    let step = walk_step(w, h, walls, boxes);
    let none: Seq<int> = Seq::empty();
    assert(follow(step, start, none) == Some(start));
    assert forall|c: Cell| #[trigger] in_region(w, h, walls, boxes, start, c) implies s(c)
        && on_grid(w, h, c) && is_free(w, walls, boxes, c) by {
        let dirs = choose|dirs: Seq<int>| #[trigger] follow(step, start, dirs) == Some(c);
        lemma_walk_stays(w, h, walls, boxes, start, s, dirs);
    }
    assert forall|a: Cell, b: Cell|
        in_region(w, h, walls, boxes, start, a) && on_grid(w, h, b) && #[trigger] adjacent(a, b)
            && is_free(w, walls, boxes, b) implies in_region(w, h, walls, boxes, start, b) by {
        let dirs = choose|dirs: Seq<int>| #[trigger] follow(step, start, dirs) == Some(a);
        let d: int = if a.1 == b.1 + 1 {
            0
        } else if a.1 + 1 == b.1 {
            1
        } else if a.0 == b.0 + 1 {
            2
        } else {
            3
        };
        lemma_walk_stays(w, h, walls, boxes, start, s, dirs);
        assert(neighbor(w, h, a, d) == Some(b));
        assert(step(a, d) == Some(b));
        lemma_follow_push(step, start, dirs, d);
        assert(follow(step, start, dirs.push(d)) == Some(b));
    }
}

proof fn lemma_walk_stays(
    w: u8,
    h: u8,
    walls: Seq<bool>,
    boxes: Seq<bool>,
    start: Cell,
    s: spec_fn(Cell) -> bool,
    dirs: Seq<int>,
)
    requires
        on_grid(w, h, start),
        is_free(w, walls, boxes, start),
        s(start),
        forall|a: Cell, b: Cell|
            s(a) && on_grid(w, h, a) && on_grid(w, h, b) && #[trigger] adjacent(a, b) && is_free(
                w,
                walls,
                boxes,
                b,
            ) ==> s(b),
        follow(walk_step(w, h, walls, boxes), start, dirs) is Some,
    ensures
        ({
            let c = follow(walk_step(w, h, walls, boxes), start, dirs)->0;
            s(c) && on_grid(w, h, c) && is_free(w, walls, boxes, c)
        }),
    decreases dirs.len(),
{
    let step = walk_step(w, h, walls, boxes);
    if dirs.len() > 0 {
        lemma_walk_stays(w, h, walls, boxes, start, s, dirs.drop_last());
        let a = follow(step, start, dirs.drop_last())->0;
        let b = follow(step, start, dirs)->0;
        assert(neighbor(w, h, a, dirs.last()) == Some(b));
        assert(adjacent(a, b));
    }
}

} // verus!
