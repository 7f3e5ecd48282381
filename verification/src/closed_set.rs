//! Deadlock sets of any shape.
//!
//! The closure of a cell holds all cells that a box on it can be pushed to, wherever the player
//! is. A box can never leave such a set, so the set can hold no more boxes than it has goals.

use vstd::prelude::*;

use crate::bfs::{
    discovers, explored, lemma_advance, lemma_begin, lemma_discover, lemma_discovers, lemma_skip,
    Exploration,
};
use crate::bitplane::{cell_count, BitPlane};
use crate::closed_edge::{barred, ground_of, indexes, Ground};
use crate::deadlock_sets::{
    count_cells, count_set, DeadlockSet, DeadlockSetKind, DeadlockSetRegistry, SetModel,
};
use crate::grid::{
    at, cell_at, cell_of, dir_x, dir_y, follow, lemma_cell_at, lemma_pos, neighbor, on_grid,
    opposite, opposite_of, pos, reaches, step_from, unmarked, Cell, Step,
};
use crate::reach::{fits, lemma_cell_stored, lemma_pigeonhole};

verus! {

/// Closures of more cells than this are not recorded.
pub const MAX_CLOSED_SET_SIZE: usize = 8;

/// Steps of a box: to an adjacent cell that is neither wall nor dead square, where the cell on
/// the other side is no wall.
pub open spec fn escape_step(w: u8, h: u8, walls: Seq<bool>, dead: Seq<bool>) -> Step {
    |c: Cell, d: int|
        match (neighbor(w, h, c, d), neighbor(w, h, c, opposite(d))) {
            (Some(to), Some(from)) => if !at(walls, w, to) && !at(dead, w, to) && !at(
                walls,
                w,
                from,
            ) {
                Some(to)
            } else {
                None
            },
            _ => None,
        }
}

/// More cells than a closure may have can be reached from `start`.
pub open spec fn too_many(step: Step, start: Cell) -> bool {
    exists|s: Seq<Cell>| #[trigger] all_reached(step, start, s) && s.len() > MAX_CLOSED_SET_SIZE
}

/// Different cells that can all be reached from `start`.
pub open spec fn all_reached(step: Step, start: Cell, s: Seq<Cell>) -> bool {
    &&& forall|i: int| 0 <= i < s.len() ==> reaches(step, start, #[trigger] s[i])
    &&& forall|i: int, j: int| 0 <= i < j < s.len() ==> s[i] != s[j]
}

/// Different cells among `order` are no more than `order` has.
pub proof fn lemma_no_more(order: Seq<Cell>, s: Seq<Cell>)
    requires
        forall|i: int| 0 <= i < s.len() ==> order.contains(#[trigger] s[i]),
        forall|i: int, j: int| 0 <= i < j < s.len() ==> s[i] != s[j],
    ensures
        s.len() <= order.len(),
{
    let t = Seq::new(s.len(), |i: int| order.index_of(s[i]));
    assert forall|i: int| 0 <= i < t.len() implies 0 <= #[trigger] t[i] < order.len() && order[t[i]]
        == s[i] by {
        assert(order.contains(s[i]));
    }
    assert forall|i: int, j: int| 0 <= i < j < t.len() implies t[i] != t[j] by {
        assert(order[t[i]] == s[i] && order[t[j]] == s[j]);
    }
    lemma_pigeonhole(t, order.len());
}

/// The step of a box from a cell in direction `d`.
fn escape_from(
    walls: &BitPlane,
    dead: &BitPlane,
    width: u8,
    height: u8,
    x: u8,
    y: u8,
    d: usize,
) -> (r: Option<(u8, u8)>)
    requires
        fits(walls, width, height),
        fits(dead, width, height),
        on_grid(width, height, (x, y)),
        d < 4,
    ensures
        r == escape_step(width, height, walls@, dead@)((x, y), d as int),
        r matches Some(c) ==> on_grid(width, height, c),
{
    match (step_from(width, height, x, y, d), step_from(width, height, x, y, opposite_of(d))) {
        (Some((tx, ty)), Some((fx, fy))) => {
            proof {
                lemma_cell_stored(walls, width, height, (tx, ty));
                lemma_cell_stored(dead, width, height, (tx, ty));
                lemma_cell_stored(walls, width, height, (fx, fy));
            }
            if walls.get(tx, ty) || dead.get(tx, ty) || walls.get(fx, fy) {
                None
            } else {
                Some((tx, ty))
            }
        },
        _ => None,
    }
}

/// Whether a cell is among others.
pub fn has_cell(cells: &Vec<(u8, u8)>, x: u8, y: u8) -> (r: bool)
    ensures
        r == cells@.contains((x, y)),
{
    let mut k: usize = 0;
    while k < cells.len()
        invariant
            k <= cells@.len(),
            forall|j: int| 0 <= j < k ==> #[trigger] cells@[j] != (x, y),
        decreases cells@.len() - k,
    {
        if cells[k].0 == x && cells[k].1 == y {
            assert(cells@[k as int] == (x, y));
            return true;
        }
        k += 1;
    }
    false
}

/// The cells that a box on `(sx, sy)` can be pushed to, itself among them, in the order in which
/// they are found; `None` when there are more than `MAX_CLOSED_SET_SIZE`.
pub fn find_min_closure(
    sx: u8,
    sy: u8,
    walls: &BitPlane,
    dead: &BitPlane,
    width: u8,
    height: u8,
) -> (r: Option<Vec<(u8, u8)>>)
    requires
        fits(walls, width, height),
        fits(dead, width, height),
        on_grid(width, height, (sx, sy)),
    ensures
        r is None <==> too_many(escape_step(width, height, walls@, dead@), (sx, sy)),
        r matches Some(cells) ==> discovers(
            escape_step(width, height, walls@, dead@),
            (sx, sy),
            cells@,
        ) && cells@.len() <= MAX_CLOSED_SET_SIZE && forall|i: int|
            0 <= i < cells@.len() ==> on_grid(width, height, #[trigger] cells@[i]),
{
    let ghost start: Cell = (sx, sy);
    let ghost step: Step = escape_step(width, height, walls@, dead@);
    let mut cells: Vec<(u8, u8)> = Vec::new();
    cells.push((sx, sy));
    let mut head: usize = 0;
    let ghost mut x = Exploration::begin(start);
    proof {
        lemma_begin(step, start);
        assert(cells@ =~= x.order);
    }
    while head < cells.len()
        invariant
            fits(walls, width, height),
            fits(dead, width, height),
            step == escape_step(width, height, walls@, dead@),
            start == (sx, sy),
            cells@ == x.order,
            cells@.len() <= MAX_CLOSED_SET_SIZE,
            head <= cells@.len(),
            x.inv(step, start, head as int, 0),
            forall|i: int| 0 <= i < cells@.len() ==> on_grid(width, height, #[trigger] cells@[i]),
        decreases MAX_CLOSED_SET_SIZE - head,
    {
        let (px, py) = cells[head];
        let mut d: usize = 0;
        while d < 4
            invariant
                d <= 4,
                fits(walls, width, height),
                fits(dead, width, height),
                step == escape_step(width, height, walls@, dead@),
                start == (sx, sy),
                cells@ == x.order,
                cells@.len() <= MAX_CLOSED_SET_SIZE,
                head < cells@.len(),
                cells@[head as int] == (px, py),
                x.inv(step, start, head as int, d as int),
                forall|i: int|
                    0 <= i < cells@.len() ==> on_grid(width, height, #[trigger] cells@[i]),
            decreases 4 - d,
        {
            assert(on_grid(width, height, cells@[head as int]));
            let next = escape_from(walls, dead, width, height, px, py, d);
            let mut fresh = false;
            if let Some((tx, ty)) = next {
                if !has_cell(&cells, tx, ty) {
                    fresh = true;
                    proof {
                        lemma_discover(x, step, start, head as int, d as int, (tx, ty));
                        x = x.add((tx, ty), head as int, d as int);
                    }
                    cells.push((tx, ty));
                    if cells.len() > MAX_CLOSED_SET_SIZE {
                        proof {
                            assert forall|i: int| 0 <= i < x.order.len() implies reaches(
                                step,
                                start,
                                #[trigger] x.order[i],
                            ) by {
                                assert(follow(step, start, x.paths[i]) == Some(x.order[i]));
                            }
                            assert(all_reached(step, start, x.order));
                        }
                        return None;
                    }
                }
            }
            proof {
                if !fresh {
                    lemma_skip(x, step, start, head as int, d as int);
                }
            }
            d += 1;
        }
        proof {
            lemma_advance(x, step, start, head as int);
        }
        head += 1;
    }
    proof {
        assert(explored(x.order, x.paths) == x);
        assert(discovers(step, start, cells@));
        lemma_discovers(step, start, cells@);
        if too_many(step, start) {
            let s = choose|s: Seq<Cell>| #[trigger]
                all_reached(step, start, s) && s.len() > MAX_CLOSED_SET_SIZE;
            assert forall|i: int| 0 <= i < s.len() implies cells@.contains(#[trigger] s[i]) by {
                assert(reaches(step, start, s[i]));
            }
            lemma_no_more(cells@, s);
        }
    }
    Some(cells)
}

// ── Sorted closures ───────────────────────────────────────────────────────

/// Order of cells: by column, then by row.
pub open spec fn cell_lt(a: Cell, b: Cell) -> bool {
    a.0 < b.0 || (a.0 == b.0 && a.1 < b.1)
}

/// The cells are in strictly increasing order.
pub open spec fn increasing(s: Seq<Cell>) -> bool {
    forall|i: int, j: int| 0 <= i < j < s.len() ==> cell_lt(#[trigger] s[i], #[trigger] s[j])
}

/// `s` holds, in order, the cells that can be reached from `c`, which are not too many.
pub open spec fn is_sorted_closure(step: Step, c: Cell, s: Seq<Cell>) -> bool {
    &&& s.len() <= MAX_CLOSED_SET_SIZE
    &&& increasing(s)
    &&& forall|b: Cell| s.contains(b) <==> #[trigger] reaches(step, c, b)
}

/// The closure of a cell in order, unless a box cannot stand on the cell or the closure is too
/// large.
pub open spec fn closure_at(g: Ground, c: Cell) -> Option<Seq<Cell>> {
    let step = escape_step(g.w, g.h, g.walls, g.dead);
    if !barred(g, c) && exists|s: Seq<Cell>| is_sorted_closure(step, c, s) {
        Some(choose|s: Seq<Cell>| is_sorted_closure(step, c, s))
    } else {
        None
    }
}

/// The same closure belongs to a cell before position `i`.
pub open spec fn met_before(g: Ground, i: int, s: Seq<Cell>) -> bool {
    exists|j: int| 0 <= j < i && #[trigger] closure_at(g, cell_at(g.w, j)) == Some(s)
}

/// The set that a closure gives.
pub open spec fn closure_set(g: Ground, s: Seq<Cell>) -> SetModel {
    let n = count_set(s, g.w, g.goals) as int;
    SetModel { cells: s, goal_count: n, capacity: n, kind: DeadlockSetKind::GeneralClosed }
}

/// The sets of the closures of the cells before position `n`: each closure once, and only those
/// with a cell without a goal.
pub open spec fn general_sets(g: Ground, n: int) -> Seq<SetModel>
    decreases n,
{
    if n <= 0 {
        Seq::empty()
    } else {
        let before = general_sets(g, n - 1);
        match closure_at(g, cell_at(g.w, n - 1)) {
            Some(s) => if !met_before(g, n - 1, s) && count_set(s, g.w, g.goals) < s.len() {
                before.push(closure_set(g, s))
            } else {
                before
            },
            None => before,
        }
    }
}

/// Two increasing sequences with the same cells are the same.
proof fn lemma_increasing_unique(a: Seq<Cell>, b: Seq<Cell>)
    requires
        increasing(a),
        increasing(b),
        forall|c: Cell| #[trigger] a.contains(c) <==> b.contains(c),
    ensures
        a == b,
    decreases a.len(),
{
    if a.len() == 0 {
        if b.len() > 0 {
            assert(b.contains(b[0]));
            assert(a.contains(b[0]));
        }
        assert(a =~= b);
    } else {
        assert(a.contains(a.last()));
        assert(b.contains(a.last()));
        let i = choose|i: int| 0 <= i < b.len() && b[i] == a.last();
        assert(b.contains(b.last()));
        assert(a.contains(b.last()));
        let j = choose|j: int| 0 <= j < a.len() && a[j] == b.last();
        assert(a.last() == b.last()) by {
            if i < b.len() - 1 {
                assert(cell_lt(b[i], b[b.len() - 1]));
            }
            if j < a.len() - 1 {
                assert(cell_lt(a[j], a[a.len() - 1]));
            }
        }
        let a1 = a.drop_last();
        let b1 = b.drop_last();
        assert forall|c: Cell| #[trigger] a1.contains(c) <==> b1.contains(c) by {
            if a1.contains(c) {
                let k = choose|k: int| 0 <= k < a1.len() && a1[k] == c;
                assert(a[k] == c);
                assert(cell_lt(a[k], a[a.len() - 1]));
                assert(a.contains(c));
                let l = choose|l: int| 0 <= l < b.len() && b[l] == c;
                assert(b1[l] == c);
            }
            if b1.contains(c) {
                let k = choose|k: int| 0 <= k < b1.len() && b1[k] == c;
                assert(b[k] == c);
                assert(cell_lt(b[k], b[b.len() - 1]));
                assert(b.contains(c));
                assert(a.contains(c));
                let l = choose|l: int| 0 <= l < a.len() && a[l] == c;
                assert(a1[l] == c);
            }
        }
        assert(increasing(a1));
        assert(increasing(b1));
        lemma_increasing_unique(a1, b1);
        assert(a =~= a1.push(a.last()));
        assert(b =~= b1.push(b.last()));
    }
}

/// The closure of a cell is the one that was found.
proof fn lemma_closure_at(g: Ground, c: Cell, s: Seq<Cell>)
    requires
        !barred(g, c),
        is_sorted_closure(escape_step(g.w, g.h, g.walls, g.dead), c, s),
    ensures
        closure_at(g, c) == Some(s),
{
    let step = escape_step(g.w, g.h, g.walls, g.dead);
    let t = choose|t: Seq<Cell>| is_sorted_closure(step, c, t);
    assert(is_sorted_closure(step, c, t));
    assert forall|b: Cell| #[trigger] s.contains(b) <==> t.contains(b) by {
        assert(s.contains(b) <==> reaches(step, c, b));
    }
    lemma_increasing_unique(s, t);
}

fn is_cell_less(a: (u8, u8), b: (u8, u8)) -> (r: bool)
    ensures
        r == cell_lt(a, b),
{
    a.0 < b.0 || (a.0 == b.0 && a.1 < b.1)
}

/// Put a cell in its place among cells in order.
fn insert_sorted(cells: &mut Vec<(u8, u8)>, c: (u8, u8))
    requires
        increasing(old(cells)@),
        !old(cells)@.contains(c),
    ensures
        increasing(final(cells)@),
        final(cells)@.len() == old(cells)@.len() + 1,
        forall|b: Cell| #[trigger]
            final(cells)@.contains(b) <==> b == c || old(cells)@.contains(b),
{
    let ghost before = cells@;
    let mut k: usize = 0;
    while k < cells.len() && is_cell_less(cells[k], c)
        invariant
            k <= cells@.len(),
            cells@ == before,
            forall|j: int| 0 <= j < k ==> cell_lt(#[trigger] cells@[j], c),
        decreases cells@.len() - k,
    {
        k += 1;
    }
    proof {
        if k < before.len() {
            assert(before.contains(before[k as int]));
            assert(cell_lt(c, before[k as int]));
            assert forall|j: int| k <= j < before.len() implies cell_lt(c, #[trigger] before[j]) by {
                if k < j {
                    assert(cell_lt(before[k as int], before[j]));
                }
            }
        }
    }
    cells.insert(k, c);
    proof {
        let after = cells@;
        assert(after =~= before.insert(k as int, c));
        assert forall|i: int, j: int| 0 <= i < j < after.len() implies cell_lt(
            #[trigger] after[i],
            #[trigger] after[j],
        ) by {
            let a = if i < k {
                i
            } else {
                i - 1
            };
            let b = if j < k {
                j
            } else {
                j - 1
            };
            if i != k && j != k {
                assert(after[i] == before[a] && after[j] == before[b]);
            } else if i == k {
                assert(after[j] == before[b]);
            } else {
                assert(after[i] == before[a]);
            }
        }
        assert forall|b: Cell| #[trigger] after.contains(b) <==> b == c || before.contains(b) by {
            if after.contains(b) && b != c {
                let i = choose|i: int| 0 <= i < after.len() && after[i] == b;
                if i < k {
                    assert(before[i] == b);
                } else {
                    assert(before[i - 1] == b);
                }
            }
            if b == c {
                assert(after[k as int] == c);
            }
            if before.contains(b) {
                let i = choose|i: int| 0 <= i < before.len() && before[i] == b;
                if i < k {
                    assert(after[i] == b);
                } else {
                    assert(after[i + 1] == b);
                }
            }
        }
    }
}

/// Different cells in order.
fn sorted_cells(cells: &Vec<(u8, u8)>) -> (r: Vec<(u8, u8)>)
    requires
        forall|i: int, j: int| 0 <= i < j < cells@.len() ==> cells@[i] != cells@[j],
    ensures
        increasing(r@),
        r@.len() == cells@.len(),
        forall|c: Cell| #[trigger] r@.contains(c) <==> cells@.contains(c),
{
    let mut r: Vec<(u8, u8)> = Vec::new();
    let mut k: usize = 0;
    while k < cells.len()
        invariant
            k <= cells@.len(),
            forall|i: int, j: int| 0 <= i < j < cells@.len() ==> cells@[i] != cells@[j],
            increasing(r@),
            r@.len() == k,
            forall|c: Cell| #[trigger] r@.contains(c) <==> cells@.take(k as int).contains(c),
        decreases cells@.len() - k,
    {
        let c = cells[k];
        proof {
            let part = cells@.take(k as int);
            let more = cells@.take(k + 1);
            if part.contains(c) {
                let i = choose|i: int| 0 <= i < part.len() && part[i] == c;
                assert(cells@[i] == cells@[k as int]);
            }
            assert forall|b: Cell| #[trigger] more.contains(b) <==> b == c || part.contains(b) by {
                if more.contains(b) {
                    let i = choose|i: int| 0 <= i < more.len() && more[i] == b;
                    if i < k {
                        assert(part[i] == b);
                    }
                }
                if part.contains(b) {
                    let i = choose|i: int| 0 <= i < part.len() && part[i] == b;
                    assert(more[i] == b);
                }
                assert(more[k as int] == c);
            }
            assert(!r@.contains(c));
        }
        insert_sorted(&mut r, c);
        k += 1;
    }
    assert(cells@.take(k as int) =~= cells@);
    r
}

/// The same cells in a list of its own.
fn copy_cells(cells: &Vec<(u8, u8)>) -> (r: Vec<(u8, u8)>)
    ensures
        r@ == cells@,
{
    let mut r: Vec<(u8, u8)> = Vec::new();
    let mut k: usize = 0;
    while k < cells.len()
        invariant
            k <= cells@.len(),
            r@ == cells@.take(k as int),
        decreases cells@.len() - k,
    {
        r.push(cells[k]);
        k += 1;
        assert(cells@.take(k as int) =~= cells@.take(k - 1).push(cells@[k - 1]));
    }
    assert(cells@.take(k as int) =~= cells@);
    r
}

/// Whether two lists hold the same cells in the same order.
fn same_cells(a: &Vec<(u8, u8)>, b: &Vec<(u8, u8)>) -> (r: bool)
    ensures
        r == (a@ == b@),
{
    if a.len() != b.len() {
        return false;
    }
    let mut k: usize = 0;
    while k < a.len()
        invariant
            k <= a@.len(),
            a@.len() == b@.len(),
            forall|j: int| 0 <= j < k ==> a@[j] == b@[j],
        decreases a@.len() - k,
    {
        if a[k].0 != b[k].0 || a[k].1 != b[k].1 {
            assert(a@[k as int] != b@[k as int]);
            return false;
        }
        k += 1;
    }
    assert(a@ =~= b@);
    true
}

/// Whether a list of cells is among others.
fn has_cells(lists: &Vec<Vec<(u8, u8)>>, cells: &Vec<(u8, u8)>) -> (r: bool)
    ensures
        r == exists|j: int| 0 <= j < lists@.len() && #[trigger] lists@[j]@ == cells@,
{
    let mut k: usize = 0;
    while k < lists.len()
        invariant
            k <= lists@.len(),
            forall|j: int| 0 <= j < k ==> #[trigger] lists@[j]@ != cells@,
        decreases lists@.len() - k,
    {
        if same_cells(&lists[k], cells) {
            return true;
        }
        k += 1;
    }
    false
}

/// The lists in `seen` are the closures of the cells before position `i`.
spec fn seen_are(g: Ground, i: int, seen: Seq<Vec<(u8, u8)>>) -> bool {
    forall|s: Seq<Cell>| #[trigger]
        met_before(g, i, s) <==> exists|j: int| 0 <= j < seen.len() && #[trigger] seen[j]@ == s
}

/// The closure of a cell in order.
fn sorted_closure(
    x: u8,
    y: u8,
    walls: &BitPlane,
    dead: &BitPlane,
    width: u8,
    height: u8,
    Ghost(goals): Ghost<Seq<bool>>,
) -> (r: Option<Vec<(u8, u8)>>)
    requires
        fits(walls, width, height),
        fits(dead, width, height),
        on_grid(width, height, (x, y)),
    ensures
        ({
            let g = Ground { w: width, h: height, walls: walls@, goals, dead: dead@ };
            match r {
                Some(s) => closure_at(g, (x, y)) == Some(s@),
                None => closure_at(g, (x, y)) is None,
            }
        }),
        r matches Some(s) ==> s@.len() <= MAX_CLOSED_SET_SIZE && forall|i: int|
            0 <= i < s@.len() ==> on_grid(width, height, #[trigger] s@[i]),
{
    let ghost g = Ground { w: width, h: height, walls: walls@, goals, dead: dead@ };
    let ghost step = escape_step(width, height, walls@, dead@);
    proof {
        lemma_cell_stored(walls, width, height, (x, y));
        lemma_cell_stored(dead, width, height, (x, y));
    }
    if walls.get(x, y) || dead.get(x, y) {
        return None;
    }
    match find_min_closure(x, y, walls, dead, width, height) {
        None => {
            proof {
                if exists|s: Seq<Cell>| is_sorted_closure(step, (x, y), s) {
                    let s = choose|s: Seq<Cell>| is_sorted_closure(step, (x, y), s);
                    let t = choose|t: Seq<Cell>| #[trigger]
                        all_reached(step, (x, y), t) && t.len() > MAX_CLOSED_SET_SIZE;
                    assert forall|i: int| 0 <= i < t.len() implies s.contains(#[trigger] t[i]) by {
                        assert(reaches(step, (x, y), t[i]));
                    }
                    lemma_no_more(s, t);
                }
            }
            None
        },
        Some(cells) => {
            proof {
                lemma_discovers(step, (x, y), cells@);
            }
            let s = sorted_cells(&cells);
            proof {
                assert forall|b: Cell| s@.contains(b) <==> #[trigger] reaches(step, (x, y), b) by {
                    assert(s@.contains(b) <==> cells@.contains(b));
                }
                lemma_closure_at(g, (x, y), s@);
                assert forall|i: int| 0 <= i < s@.len() implies on_grid(
                    width,
                    height,
                    #[trigger] s@[i],
                ) by {
                    assert(s@.contains(s@[i]));
                    let k = choose|k: int| 0 <= k < cells@.len() && cells@[k] == s@[i];
                    assert(on_grid(width, height, cells@[k]));
                }
            }
            Some(s)
        },
    }
}

/// A grid has at most as many of these sets as cells.
pub proof fn lemma_general_sets_len(g: Ground, n: int)
    requires
        0 <= n,
    ensures
        general_sets(g, n).len() <= n,
    decreases n,
{
    if n > 0 {
        lemma_general_sets_len(g, n - 1);
    }
}

proof fn lemma_general_sets_grow(g: Ground, a: int, b: int)
    requires
        0 <= a <= b,
    ensures
        general_sets(g, a).len() <= general_sets(g, b).len(),
    decreases b,
{
    if a < b {
        lemma_general_sets_grow(g, a, b - 1);
    }
}

/// Append the closures of a grid's cells, in row-major order of the cells, to a registry: each
/// closure once, and only those that have a cell without a goal.
pub fn compute_general_closed_sets(
    registry: &mut DeadlockSetRegistry,
    walls: &BitPlane,
    goals: &BitPlane,
    dead: &BitPlane,
    width: u8,
    height: u8,
)
    requires
        fits(walls, width, height),
        fits(goals, width, height),
        fits(dead, width, height),
        indexes(old(registry), width, height),
        old(registry)@.len() + general_sets(
            ground_of(width, height, walls, goals, dead),
            width * height,
        ).len() <= u32::MAX,
    ensures
        indexes(final(registry), width, height),
        final(registry)@ == old(registry)@ + general_sets(
            ground_of(width, height, walls, goals, dead),
            width * height,
        ),
{
    let ghost g = ground_of(width, height, walls, goals, dead);
    let cells = cell_count(width, height);
    let mut seen: Vec<Vec<(u8, u8)>> = Vec::new();
    assert(old(registry)@ + general_sets(g, 0) =~= old(registry)@);
    let mut i: usize = 0;
    while i < cells
        invariant
            i <= cells,
            cells == width * height,
            g == ground_of(width, height, walls, goals, dead),
            fits(walls, width, height),
            fits(goals, width, height),
            fits(dead, width, height),
            indexes(registry, width, height),
            old(registry)@.len() + general_sets(g, cells as int).len() <= u32::MAX,
            registry@ == old(registry)@ + general_sets(g, i as int),
            seen_are(g, i as int, seen@),
        decreases cells - i,
    {
        let (x, y) = cell_of(width, height, i);
        let ghost before = seen@;
        proof {
            lemma_general_sets_grow(g, i + 1, cells as int);
        }
        match sorted_closure(x, y, walls, dead, width, height, Ghost(goals@)) {
            None => {
                proof {
                    assert(general_sets(g, i + 1) == general_sets(g, i as int));
                    lemma_seen_same(g, i as int, seen@);
                }
            },
            Some(s) => {
                if has_cells(&seen, &s) {
                    proof {
                        assert(met_before(g, i as int, s@));
                        assert(general_sets(g, i + 1) == general_sets(g, i as int));
                        lemma_seen_again(g, i as int, seen@, s@);
                    }
                } else {
                    proof {
                        assert(!met_before(g, i as int, s@));
                        assert forall|k: int|
                            0 <= k < s@.len() implies pos(width, #[trigger] s@[k]) < width
                            * height by {
                            lemma_pos(width, height, s@[k]);
                        }
                        lemma_cell_stored(goals, width, height, (x, y));
                    }
                    let goal_count = count_cells(&s, goals);
                    seen.push(copy_cells(&s));
                    proof {
                        assert(seen@.drop_last() =~= before);
                        lemma_seen_new(g, i as int, before, seen@, s@);
                    }
                    if goal_count < s.len() as u32 {
                        registry.add(
                            DeadlockSet {
                                cells: s,
                                goal_count,
                                capacity: goal_count,
                                kind: DeadlockSetKind::GeneralClosed,
                            },
                        );
                    }
                    assert(registry@ =~= old(registry)@ + general_sets(g, i + 1));
                }
            },
        }
        i += 1;
    }
}

proof fn lemma_seen_same(g: Ground, i: int, seen: Seq<Vec<(u8, u8)>>)
    requires
        0 <= i,
        seen_are(g, i, seen),
        closure_at(g, cell_at(g.w, i)) is None,
    ensures
        seen_are(g, i + 1, seen),
{
    assert forall|s: Seq<Cell>| #[trigger] met_before(g, i + 1, s) <==> exists|j: int|
        0 <= j < seen.len() && #[trigger] seen[j]@ == s by {
        assert(met_before(g, i + 1, s) == met_before(g, i, s)) by {
            if met_before(g, i + 1, s) {
                let j = choose|j: int|
                    0 <= j < i + 1 && #[trigger] closure_at(g, cell_at(g.w, j)) == Some(s);
                assert(j < i);
            }
            if met_before(g, i, s) {
                let j = choose|j: int|
                    0 <= j < i && #[trigger] closure_at(g, cell_at(g.w, j)) == Some(s);
                assert(closure_at(g, cell_at(g.w, j)) == Some(s));
            }
        }
    }
}

proof fn lemma_met_more(g: Ground, i: int, s: Seq<Cell>, t: Seq<Cell>)
    requires
        0 <= i,
        closure_at(g, cell_at(g.w, i)) == Some(s),
    ensures
        met_before(g, i + 1, t) <==> t == s || met_before(g, i, t),
{
    if met_before(g, i + 1, t) {
        let j = choose|j: int|
            0 <= j < i + 1 && #[trigger] closure_at(g, cell_at(g.w, j)) == Some(t);
        if j < i {
            assert(met_before(g, i, t));
        }
    }
    if met_before(g, i, t) {
        let j = choose|j: int| 0 <= j < i && #[trigger] closure_at(g, cell_at(g.w, j)) == Some(t);
        assert(closure_at(g, cell_at(g.w, j)) == Some(t));
    }
}

proof fn lemma_seen_again(g: Ground, i: int, seen: Seq<Vec<(u8, u8)>>, s: Seq<Cell>)
    requires
        0 <= i,
        seen_are(g, i, seen),
        closure_at(g, cell_at(g.w, i)) == Some(s),
        met_before(g, i, s),
    ensures
        seen_are(g, i + 1, seen),
{
    assert forall|t: Seq<Cell>| #[trigger] met_before(g, i + 1, t) <==> exists|j: int|
        0 <= j < seen.len() && #[trigger] seen[j]@ == t by {
        lemma_met_more(g, i, s, t);
        assert(met_before(g, i, t) == met_before(g, i + 1, t));
    }
}

proof fn lemma_seen_new(
    g: Ground,
    i: int,
    before: Seq<Vec<(u8, u8)>>,
    seen: Seq<Vec<(u8, u8)>>,
    s: Seq<Cell>,
)
    requires
        0 <= i,
        seen_are(g, i, before),
        closure_at(g, cell_at(g.w, i)) == Some(s),
        seen.len() == before.len() + 1,
        seen.drop_last() == before,
        seen.last()@ == s,
    ensures
        seen_are(g, i + 1, seen),
{
    assert forall|t: Seq<Cell>| #[trigger] met_before(g, i + 1, t) <==> exists|j: int|
        0 <= j < seen.len() && #[trigger] seen[j]@ == t by {
        lemma_met_more(g, i, s, t);
        if met_before(g, i, t) {
            let j = choose|j: int| 0 <= j < before.len() && #[trigger] before[j]@ == t;
            assert(seen[j]@ == t);
        }
        if t == s {
            assert(seen[before.len() as int]@ == t);
        }
        if exists|j: int| 0 <= j < seen.len() && #[trigger] seen[j]@ == t {
            let j = choose|j: int| 0 <= j < seen.len() && #[trigger] seen[j]@ == t;
            if j < before.len() {
                assert(before[j]@ == t);
            }
        }
    }
}

proof fn lemma_met(g: Ground, n: int, i: int)
    requires
        0 <= i < general_sets(g, n).len(),
    ensures
        met_before(g, n, general_sets(g, n)[i].cells),
    decreases n,
{
    let before = general_sets(g, n - 1);
    let s = general_sets(g, n)[i].cells;
    if i < before.len() {
        lemma_met(g, n - 1, i);
        let k = choose|k: int|
            0 <= k < n - 1 && #[trigger] closure_at(g, cell_at(g.w, k)) == Some(s);
        assert(closure_at(g, cell_at(g.w, k)) == Some(s));
    } else {
        assert(closure_at(g, cell_at(g.w, n - 1)) == Some(s));
    }
}

/// No two general closed sets have the same cells.
pub proof fn law_general_sets_differ(g: Ground, n: int, i: int, j: int)
    requires
        0 <= i < j < general_sets(g, n).len(),
    ensures
        general_sets(g, n)[i].cells != general_sets(g, n)[j].cells,
    decreases n,
{
    let before = general_sets(g, n - 1);
    if j < before.len() {
        law_general_sets_differ(g, n - 1, i, j);
    } else {
        lemma_met(g, n - 1, i);
    }
}

/// A box can be pushed from a cell to the next one if that is floor and no dead square, and the cell
/// on the other side of the box is floor, where the player stands.
pub proof fn law_escapes_need_room_on_both_sides(
    w: u8,
    h: u8,
    walls: Seq<bool>,
    dead: Seq<bool>,
    c: Cell,
    d: int,
)
    requires
        on_grid(w, h, c),
        0 <= d < 4,
    ensures
        ({
            let (tx, ty) = (c.0 + dir_x(d), c.1 + dir_y(d));
            let (fx, fy) = (c.0 - dir_x(d), c.1 - dir_y(d));
            let to = escape_step(w, h, walls, dead)(c, d);
            &&& to is Some <==> unmarked(w, h, walls, tx, ty) && unmarked(w, h, dead, tx, ty)
                && unmarked(w, h, walls, fx, fy)
            &&& to is Some ==> to == Some((tx as u8, ty as u8))
        }),
{
}

/// The cells are those that a box on `c` can be pushed to, at most eight, by column and then by row,
/// and they have fewer goals.
pub open spec fn is_small_trap(g: Ground, c: Cell, s: Seq<Cell>) -> bool {
    &&& on_grid(g.w, g.h, c)
    &&& unmarked(g.w, g.h, g.walls, c.0 as int, c.1 as int)
    &&& unmarked(g.w, g.h, g.dead, c.0 as int, c.1 as int)
    &&& s.len() <= 8
    &&& forall|i: int, j: int|
        0 <= i < j < s.len() ==> {
            let (a, b) = (#[trigger] s[i], #[trigger] s[j]);
            a.0 < b.0 || a.0 == b.0 && a.1 < b.1
        }
    &&& forall|b: Cell|
        s.contains(b) <==> #[trigger] reaches(escape_step(g.w, g.h, g.walls, g.dead), c, b)
    &&& count_set(s, g.w, g.goals) < s.len()
}

/// The set of such cells: there is room for as many boxes as it has goals.
pub open spec fn trap_set(g: Ground, s: Seq<Cell>) -> SetModel {
    SetModel {
        cells: s,
        goal_count: count_set(s, g.w, g.goals) as int,
        capacity: count_set(s, g.w, g.goals) as int,
        kind: DeadlockSetKind::GeneralClosed,
    }
}

proof fn lemma_closure_recorded(g: Ground, j: int, n: int, s: Seq<Cell>)
    requires
        0 <= j < n,
        closure_at(g, cell_at(g.w, j)) == Some(s),
        count_set(s, g.w, g.goals) < s.len(),
    ensures
        general_sets(g, n).contains(trap_set(g, s)),
    decreases n,
{
    let m = trap_set(g, s);
    let before = general_sets(g, n - 1);
    let all = general_sets(g, n);
    if j < n - 1 {
        lemma_closure_recorded(g, j, n - 1, s);
        let i = choose|i: int| 0 <= i < before.len() && before[i] == m;
        assert(all[i] == m);
    } else if met_before(g, n - 1, s) {
        let k = choose|k: int| 0 <= k < n - 1 && #[trigger] closure_at(g, cell_at(g.w, k)) == Some(
            s,
        );
        lemma_closure_recorded(g, k, n - 1, s);
        let i = choose|i: int| 0 <= i < before.len() && before[i] == m;
        assert(all[i] == m);
    } else {
        assert(all.last() == m);
    }
}

/// Wherever a box can be pushed to few cells, with too few goals among them for a box on each, they
/// are recorded.
pub proof fn law_small_traps_are_recorded(g: Ground, c: Cell, s: Seq<Cell>)
    requires
        is_small_trap(g, c, s),
    ensures
        general_sets(g, g.w * g.h).contains(trap_set(g, s)),
{
    let step = escape_step(g.w, g.h, g.walls, g.dead);
    assert(increasing(s));
    assert(is_sorted_closure(step, c, s));
    lemma_closure_at(g, c, s);
    lemma_pos(g.w, g.h, c);
    lemma_closure_recorded(g, pos(g.w, c), g.w * g.h, s);
}

proof fn lemma_recorded_closure(g: Ground, n: int, i: int) -> (c: Cell)
    requires
        n <= g.w * g.h,
        0 <= i < general_sets(g, n).len(),
    ensures
        is_small_trap(g, c, general_sets(g, n)[i].cells),
        general_sets(g, n)[i] == trap_set(g, general_sets(g, n)[i].cells),
    decreases n,
{
    let before = general_sets(g, n - 1);
    if i < before.len() {
        lemma_recorded_closure(g, n - 1, i)
    } else {
        let c = cell_at(g.w, n - 1);
        let s = closure_at(g, c)->0;
        let step = escape_step(g.w, g.h, g.walls, g.dead);
        lemma_cell_at(g.w, g.h, n - 1);
        assert(is_sorted_closure(step, c, s));
        assert forall|i: int, j: int| 0 <= i < j < s.len() implies {
            let (a, b) = (#[trigger] s[i], #[trigger] s[j]);
            a.0 < b.0 || a.0 == b.0 && a.1 < b.1
        } by {
            assert(cell_lt(s[i], s[j]));
        }
        c
    }
}

/// Nothing else is recorded.
pub proof fn law_recorded_traps_are_small(g: Ground, i: int) -> (c: Cell)
    requires
        0 <= i < general_sets(g, g.w * g.h).len(),
    ensures
        is_small_trap(g, c, general_sets(g, g.w * g.h)[i].cells),
        general_sets(g, g.w * g.h)[i] == trap_set(g, general_sets(g, g.w * g.h)[i].cells),
{
    lemma_recorded_closure(g, g.w * g.h, i)
}

} // verus!
