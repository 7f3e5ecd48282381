//! Shortest walks of the player.

use std::collections::VecDeque;

use vstd::prelude::*;

use crate::bfs::{
    is_least_path, lemma_advance, lemma_begin, lemma_discover, lemma_finished, lemma_least,
    lemma_skip, not_after, Exploration,
};
use crate::bitplane::{cell_count, BitPlane};
use crate::grid::{
    dir_x, dir_y, dx_of, dy_of, follow, lemma_pos, on_grid, pos, pos_of, reaches, step_from,
    walk_step, Cell, Step,
};
use crate::reach::{fits, lemma_cell_stored, lemma_distinct_cells};

verus! {

/// The offsets of a sequence of directions.
pub open spec fn offsets(dirs: Seq<int>) -> Seq<(i8, i8)> {
    Seq::new(dirs.len(), |i: int| (dir_x(dirs[i]) as i8, dir_y(dirs[i]) as i8))
}

/// The cell at `j` was discovered from the cell recorded as its parent.
spec fn has_parent(
    x: Exploration,
    step: Step,
    w: u8,
    parent: Seq<usize>,
    from_dir: Seq<(i8, i8)>,
    j: int,
) -> bool {
    exists|i: int, e: int| #[trigger]
        x.found_from(step, j, i, e) && 0 <= e < 4 && parent[pos(w, x.order[j])] == pos(
            w,
            x.order[i],
        ) && from_dir[pos(w, x.order[j])] == (dir_x(e) as i8, dir_y(e) as i8)
}

/// The parents recorded for an exploration; `usize::MAX` for cells not discovered.
spec fn links(
    x: Exploration,
    step: Step,
    w: u8,
    h: u8,
    parent: Seq<usize>,
    from_dir: Seq<(i8, i8)>,
) -> bool {
    &&& parent.len() == w * h
    &&& from_dir.len() == w * h
    &&& forall|j: int| 0 <= j < x.order.len() ==> on_grid(w, h, #[trigger] x.order[j])
    &&& forall|j: int|
        0 <= j < x.order.len() ==> parent[pos(w, #[trigger] x.order[j])] < w * h
    &&& forall|j: int|
        1 <= j < x.order.len() ==> #[trigger] has_parent(x, step, w, parent, from_dir, j)
    &&& forall|c: Cell|
        on_grid(w, h, c) && !x.order.contains(c) ==> #[trigger] parent[pos(w, c)] == usize::MAX
}

proof fn lemma_link(
    x: Exploration,
    step: Step,
    w: u8,
    h: u8,
    parent: Seq<usize>,
    from_dir: Seq<(i8, i8)>,
    c: Cell,
    head: int,
    dir: int,
    ci: usize,
)
    requires
        links(x, step, w, h, parent, from_dir),
        x.order.len() == x.paths.len(),
        on_grid(w, h, c),
        !x.order.contains(c),
        0 <= head < x.order.len(),
        0 <= dir < 4,
        step(x.order[head], dir) == Some(c),
        ci == pos(w, x.order[head]),
    ensures
        links(
            x.add(c, head, dir),
            step,
            w,
            h,
            parent.update(pos(w, c), ci),
            from_dir.update(pos(w, c), (dir_x(dir) as i8, dir_y(dir) as i8)),
        ),
{
    let y = x.add(c, head, dir);
    let n = x.order.len() as int;
    let p2 = parent.update(pos(w, c), ci);
    let f2 = from_dir.update(pos(w, c), (dir_x(dir) as i8, dir_y(dir) as i8));
    lemma_pos(w, h, c);
    assert forall|j: int| 0 <= j < n implies on_grid(w, h, #[trigger] x.order[j]) && pos(
        w,
        x.order[j],
    ) != pos(w, c) && 0 <= pos(w, x.order[j]) < w * h by {
        assert(on_grid(w, h, x.order[j]));
        lemma_pos(w, h, x.order[j]);
        assert(x.order.contains(x.order[j]));
    }
    assert(on_grid(w, h, x.order[head]));
    assert forall|j: int| 0 <= j < y.order.len() implies on_grid(w, h, #[trigger] y.order[j])
        && p2[pos(w, y.order[j])] < w * h by {
        if j < n {
            assert(y.order[j] == x.order[j]);
        }
    }
    assert forall|j: int| 1 <= j < y.order.len() implies #[trigger] has_parent(
        y,
        step,
        w,
        p2,
        f2,
        j,
    ) by {
        if j < n {
            assert(has_parent(x, step, w, parent, from_dir, j));
            let (i, e) = choose|i: int, e: int| #[trigger]
                x.found_from(step, j, i, e) && 0 <= e < 4 && parent[pos(w, x.order[j])] == pos(
                    w,
                    x.order[i],
                ) && from_dir[pos(w, x.order[j])] == (dir_x(e) as i8, dir_y(e) as i8);
            assert(y.order[j] == x.order[j]);
            assert(y.found_from(step, j, i, e));
        } else {
            assert(y.found_from(step, j, head, dir));
        }
    }
    assert forall|b: Cell| on_grid(w, h, b) && !y.order.contains(b) implies #[trigger] p2[pos(w, b)]
        == usize::MAX by {
        lemma_pos(w, h, b);
        if x.order.contains(b) {
            let j = choose|j: int| 0 <= j < n && x.order[j] == b;
            assert(y.order[j] == b);
        }
        assert(y.order[n] == c);
    }
}

/// The offsets in reverse order.
fn reversed(path: &Vec<(i8, i8)>) -> (r: Vec<(i8, i8)>)
    ensures
        r@ == path@.reverse(),
{
    let mut r: Vec<(i8, i8)> = Vec::new();
    let mut k: usize = path.len();
    while k > 0
        invariant
            k <= path@.len(),
            r@ == path@.skip(k as int).reverse(),
        decreases k,
    {
        k -= 1;
        r.push(path[k]);
        proof {
            assert(path@.skip(k as int).reverse() =~= path@.skip(k + 1).reverse().push(
                path@[k as int],
            ));
        }
    }
    assert(path@.skip(0) =~= path@);
    r
}

/// The recorded parents followed back from `target` to the start.
fn trace_back(
    parent: &Vec<usize>,
    from_dir: &Vec<(i8, i8)>,
    si: usize,
    ti: usize,
    Ghost(x): Ghost<Exploration>,
    Ghost(step): Ghost<Step>,
    Ghost(w): Ghost<u8>,
    Ghost(h): Ghost<u8>,
    Ghost(last): Ghost<int>,
) -> (r: Vec<(i8, i8)>)
    requires
        links(x, step, w, h, parent@, from_dir@),
        x.order.len() == x.paths.len(),
        forall|i: int, j: int|
            0 <= i < j < x.order.len() ==> #[trigger] x.order[i] != #[trigger] x.order[j],
        x.paths[0] == Seq::<int>::empty(),
        0 <= last < x.order.len(),
        si == pos(w, x.order[0]),
        ti == pos(w, x.order[last]),
    ensures
        r@ == offsets(x.paths[last]),
{
    let mut path: Vec<(i8, i8)> = Vec::new();
    let mut cur = ti;
    let ghost mut j: int = last;
    let ghost mut rest: Seq<int> = Seq::empty();
    assert(x.paths[last] + rest =~= x.paths[last]);
    while cur != si
        invariant
            links(x, step, w, h, parent@, from_dir@),
            x.order.len() == x.paths.len(),
            forall|i: int, l: int|
                0 <= i < l < x.order.len() ==> #[trigger] x.order[i] != #[trigger] x.order[l],
            x.paths[0] == Seq::<int>::empty(),
            0 <= last < x.order.len(),
            si == pos(w, x.order[0]),
            0 <= j < x.order.len(),
            cur == pos(w, x.order[j]),
            x.paths[j] + rest == x.paths[last],
            path@.reverse() == offsets(rest),
        decreases j,
    {
        let ghost i: int;
        let ghost e: int;
        proof {
            assert(on_grid(w, h, x.order[j]));
            lemma_pos(w, h, x.order[j]);
            assert(has_parent(x, step, w, parent@, from_dir@, j));
            let pair = choose|i: int, e: int| #[trigger]
                x.found_from(step, j, i, e) && 0 <= e < 4 && parent@[pos(w, x.order[j])] == pos(
                    w,
                    x.order[i],
                ) && from_dir@[pos(w, x.order[j])] == (dir_x(e) as i8, dir_y(e) as i8);
            i = pair.0;
            e = pair.1;
        }
        let ghost before = path@;
        path.push(from_dir[cur]);
        cur = parent[cur];
        proof {
            let more = seq![e] + rest;
            assert(x.paths[i] + more =~= x.paths[j] + rest);
            assert(path@.reverse() =~= seq![from_dir@[pos(w, x.order[j])]] + before.reverse());
            assert(offsets(more) =~= seq![(dir_x(e) as i8, dir_y(e) as i8)] + offsets(rest));
            rest = more;
            j = i;
        }
    }
    proof {
        assert(on_grid(w, h, x.order[j]));
        assert(on_grid(w, h, x.order[0]));
        lemma_pos(w, h, x.order[j]);
        lemma_pos(w, h, x.order[0]);
        assert(j == 0) by {
            if j > 0 {
                assert(x.order[0] != x.order[j]);
            }
        }
        assert(x.paths[0] + rest =~= rest);
    }
    reversed(&path)
}

/// The steps of the player's walk from `(sx, sy)` to `(tx, ty)` round walls and boxes: of the
/// shortest walks the first in the order of the directions. Empty when the player is already
/// there, or when there is no walk.
pub fn bfs_path(
    sx: u8,
    sy: u8,
    tx: u8,
    ty: u8,
    walls: &BitPlane,
    boxes: &BitPlane,
    width: u8,
    height: u8,
) -> (r: Vec<(i8, i8)>)
    requires
        fits(walls, width, height),
        fits(boxes, width, height),
        on_grid(width, height, (sx, sy)),
        on_grid(width, height, (tx, ty)),
    ensures
        !reaches(walk_step(width, height, walls@, boxes@), (sx, sy), (tx, ty)) ==> r@.len() == 0,
        reaches(walk_step(width, height, walls@, boxes@), (sx, sy), (tx, ty)) ==> exists|
            dirs: Seq<int>,
        | #[trigger]
            is_least_path(walk_step(width, height, walls@, boxes@), (sx, sy), (tx, ty), dirs)
                && r@ == offsets(dirs),
{
    let ghost start: Cell = (sx, sy);
    let ghost target: Cell = (tx, ty);
    let ghost step: Step = walk_step(width, height, walls@, boxes@);
    if sx == tx && sy == ty {
        proof {
            let none: Seq<int> = Seq::empty();
            assert forall|other: Seq<int>| #[trigger]
                follow(step, start, other) == Some(target) implies not_after(none, other) by {
                if other.len() == 0 {
                    assert(other =~= none);
                }
            }
            assert(is_least_path(step, start, target, none));
            assert(offsets(none) =~= Seq::empty());
        }
        return Vec::new();
    }
    let size = cell_count(width, height);
    let si = pos_of(width, height, sx, sy);
    let ti = pos_of(width, height, tx, ty);
    let mut parent: Vec<usize> = vec![usize::MAX; size];
    let mut from_dir: Vec<(i8, i8)> = vec![(0i8, 0i8); size];
    parent[si] = si;
    let mut queue: VecDeque<(u8, u8)> = VecDeque::new();
    queue.push_back((sx, sy));
    let ghost mut x = Exploration::begin(start);
    let ghost mut head: int = 0;
    proof {
        lemma_begin(step, start);
        lemma_pos(width, height, start);
        assert forall|c: Cell| on_grid(width, height, c) && !x.order.contains(
            c,
        ) implies #[trigger] parent@[pos(width, c)] == usize::MAX by {
            lemma_pos(width, height, c);
            assert(x.order[0] == start);
        }
        assert(queue@ =~= x.order.skip(head));
        assert(x.order.contains(target) ==> target == start);
    }
    let mut found = false;
    while !found
        invariant
            size == width * height,
            size <= 65025,
            fits(walls, width, height),
            fits(boxes, width, height),
            step == walk_step(width, height, walls@, boxes@),
            start == (sx, sy),
            target == (tx, ty),
            on_grid(width, height, target),
            si == pos(width, start),
            ti == pos(width, target),
            links(x, step, width, height, parent@, from_dir@),
            !found ==> x.inv(step, start, head, 0),
            !found ==> queue@ == x.order.skip(head),
            !found ==> !x.order.contains(target),
            found ==> arrived(x, step, start, target),
        ensures
            found || head == x.order.len(),
        decreases
                (if found {
                    0int
                } else {
                    1
                }) + width * height - head,
    {
        match queue.pop_front() {
            None => {
                break;
            },
            Some((cx, cy)) => {
                proof {
                    assert(x.order[head] == (cx, cy));
                    lemma_distinct_cells(width, height, x.order);
                    assert(queue@ =~= x.order.skip(head + 1));
                    assert(on_grid(width, height, x.order[head]));
                }
                let ci = pos_of(width, height, cx, cy);
                let mut d: usize = 0;
                while d < 4 && !found
                    invariant
                        d <= 4,
                        size == width * height,
                        size <= 65025,
                        fits(walls, width, height),
                        fits(boxes, width, height),
                        step == walk_step(width, height, walls@, boxes@),
                        start == (sx, sy),
                        target == (tx, ty),
                        on_grid(width, height, target),
                        ti == pos(width, target),
                        0 <= head < x.order.len(),
                        x.order[head] == (cx, cy),
                        ci == pos(width, (cx, cy)),
                        links(x, step, width, height, parent@, from_dir@),
                        !found ==> x.inv(step, start, head, d as int),
                        !found ==> queue@ == x.order.skip(head + 1),
                        !found ==> !x.order.contains(target),
                        found ==> arrived(x, step, start, target),
                    decreases 4 - d,
                {
                    assert(on_grid(width, height, x.order[head]));
                    let next = step_from(width, height, cx, cy, d);
                    let mut fresh = false;
                    if let Some((nx, ny)) = next {
                        let ni = pos_of(width, height, nx, ny);
                        proof {
                            lemma_cell_stored(walls, width, height, (nx, ny));
                            lemma_cell_stored(boxes, width, height, (nx, ny));
                            if x.order.contains((nx, ny)) {
                                let j = choose|j: int|
                                    0 <= j < x.order.len() && x.order[j] == (nx, ny);
                                assert(parent@[pos(width, x.order[j])] < width * height);
                            }
                        }
                        if parent[ni] == usize::MAX && !walls.get(nx, ny) && !boxes.get(nx, ny) {
                            fresh = true;
                            proof {
                                lemma_discover(x, step, start, head, d as int, (nx, ny));
                                lemma_link(
                                    x,
                                    step,
                                    width,
                                    height,
                                    parent@,
                                    from_dir@,
                                    (nx, ny),
                                    head,
                                    d as int,
                                    ci,
                                );
                                lemma_least(x, step, start, head, d as int, (nx, ny));
                                let y = x.add((nx, ny), head, d as int);
                                if (nx, ny) == target {
                                    assert(arrived_at(y, step, start, target, x.order.len() as int));
                                } else {
                                    assert forall|j: int|
                                        0 <= j < y.order.len() implies y.order[j] != target by {
                                        if j < x.order.len() {
                                            assert(x.order.contains(x.order[j]));
                                        }
                                    }
                                }
                                lemma_pos(width, height, (nx, ny));
                                lemma_pos(width, height, target);
                                x = y;
                            }
                            parent[ni] = ci;
                            from_dir[ni] = (dx_of(d), dy_of(d));
                            if ni == ti {
                                found = true;
                            } else {
                                queue.push_back((nx, ny));
                                assert(queue@ =~= x.order.skip(head + 1));
                            }
                        }
                    }
                    proof {
                        if !fresh {
                            lemma_skip(x, step, start, head, d as int);
                        }
                    }
                    d += 1;
                }
                proof {
                    if !found {
                        lemma_advance(x, step, start, head);
                        head = head + 1;
                    }
                }
            },
        }
    }
    if parent[ti] == usize::MAX {
        proof {
            if found {
                let j = choose|j: int| #[trigger] arrived_at(x, step, start, target, j);
                assert(parent@[pos(width, x.order[j])] < width * height);
            }
            lemma_finished(x, step, start, target);
        }
        return Vec::new();
    }
    proof {
        if !found {
            assert(parent@[pos(width, target)] == usize::MAX);
        }
    }
    let ghost j = choose|j: int| #[trigger] arrived_at(x, step, start, target, j);
    trace_back(
        &parent,
        &from_dir,
        si,
        ti,
        Ghost(x),
        Ghost(step),
        Ghost(width),
        Ghost(height),
        Ghost(j),
    )
}

/// The target is the cell discovered at `j`, by the least directions that lead to it.
spec fn arrived_at(x: Exploration, step: Step, start: Cell, target: Cell, j: int) -> bool {
    &&& 0 <= j < x.order.len()
    &&& x.order[j] == target
    &&& is_least_path(step, start, target, x.paths[j])
}

/// The exploration has discovered the target.
spec fn arrived(x: Exploration, step: Step, start: Cell, target: Cell) -> bool {
    &&& x.order.len() == x.paths.len()
    &&& x.order.len() >= 1
    &&& x.order[0] == start
    &&& x.paths[0] == Seq::<int>::empty()
    &&& forall|i: int, j: int|
        0 <= i < j < x.order.len() ==> #[trigger] x.order[i] != #[trigger] x.order[j]
    &&& exists|j: int| #[trigger] arrived_at(x, step, start, target, j)
}

} // verus!
