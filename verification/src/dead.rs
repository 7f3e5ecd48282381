//! Dead squares: corners, and the corridors that end in them.

use vstd::prelude::*;

use crate::bitplane::{cell_count, BitPlane};
use crate::grid::{
    at, cell_of, lemma_pos, neighbor, on_grid, pos, shut, step_from, unmarked, Cell,
};
use crate::reach::{fits, lemma_cell_stored, lemma_update_cell};

verus! {

/// Neither wall nor goal.
pub open spec fn plain_floor(w: u8, walls: Seq<bool>, goals: Seq<bool>, c: Cell) -> bool {
    !at(walls, w, c) && !at(goals, w, c)
}

/// A floor cell without a goal that is shut on at least one side along both axes.
pub open spec fn is_corner(w: u8, h: u8, walls: Seq<bool>, goals: Seq<bool>, c: Cell) -> bool {
    &&& plain_floor(w, walls, goals, c)
    &&& shut(w, h, walls, c, 2) || shut(w, h, walls, c, 3)
    &&& shut(w, h, walls, c, 0) || shut(w, h, walls, c, 1)
}

/// The cell beside `c` in direction `d` satisfies `dead`.
pub open spec fn beside_dead(
    w: u8,
    h: u8,
    dead: spec_fn(Cell) -> bool,
    c: Cell,
    d: int,
) -> bool {
    match neighbor(w, h, c, d) {
        Some(n) => dead(n),
        None => false,
    }
}

/// A corridor cell next to a dead cell of the corridor.
pub open spec fn spreads(
    w: u8,
    h: u8,
    walls: Seq<bool>,
    goals: Seq<bool>,
    dead: spec_fn(Cell) -> bool,
    c: Cell,
) -> bool {
    &&& plain_floor(w, walls, goals, c)
    &&& {
        ||| {
            &&& shut(w, h, walls, c, 0) && shut(w, h, walls, c, 1)
            &&& beside_dead(w, h, dead, c, 2) || beside_dead(w, h, dead, c, 3)
        }
        ||| {
            &&& shut(w, h, walls, c, 2) && shut(w, h, walls, c, 3)
            &&& beside_dead(w, h, dead, c, 0) || beside_dead(w, h, dead, c, 1)
        }
    }
}

/// `c` is a corner, or is reached from corners by spreading at most `n` times.
pub open spec fn dead_within(
    w: u8,
    h: u8,
    walls: Seq<bool>,
    goals: Seq<bool>,
    n: nat,
    c: Cell,
) -> bool
    decreases n,
{
    if n == 0 {
        is_corner(w, h, walls, goals, c)
    } else {
        ||| dead_within(w, h, walls, goals, (n - 1) as nat, c)
        ||| spreads(
            w,
            h,
            walls,
            goals,
            |b: Cell| dead_within(w, h, walls, goals, (n - 1) as nat, b),
            c,
        )
    }
}

/// `c` is a dead square: in the least set that holds the corners and is closed under spreading.
pub open spec fn is_dead(w: u8, h: u8, walls: Seq<bool>, goals: Seq<bool>, c: Cell) -> bool {
    exists|n: nat| #[trigger] dead_within(w, h, walls, goals, n, c)
}

/// The marked cells of a plane spread to `c`.
spec fn marks_spread(
    w: u8,
    h: u8,
    walls: Seq<bool>,
    goals: Seq<bool>,
    bits: Seq<bool>,
    c: Cell,
) -> bool {
    spreads(w, h, walls, goals, |b: Cell| at(bits, w, b), c)
}

/// Number of clear bits below position `n`.
spec fn clear_below(bits: Seq<bool>, n: nat) -> nat
    decreases n,
{
    if n == 0 {
        0
    } else {
        clear_below(bits, (n - 1) as nat) + if bits[n - 1] {
            0nat
        } else {
            1
        }
    }
}

proof fn lemma_clear_below(bits: Seq<bool>, i: int, n: nat)
    requires
        0 <= i < bits.len(),
        n <= bits.len(),
        !bits[i],
    ensures
        clear_below(bits.update(i, true), n) == clear_below(bits, n) - if i < n {
            1int
        } else {
            0
        },
    decreases n,
{
    if n > 0 {
        lemma_clear_below(bits, i, (n - 1) as nat);
    }
}

/// Spreading is monotone.
proof fn lemma_spreads_more(
    w: u8,
    h: u8,
    walls: Seq<bool>,
    goals: Seq<bool>,
    a: spec_fn(Cell) -> bool,
    b: spec_fn(Cell) -> bool,
    c: Cell,
)
    requires
        spreads(w, h, walls, goals, a, c),
        forall|x: Cell| on_grid(w, h, x) && #[trigger] a(x) ==> b(x),
    ensures
        spreads(w, h, walls, goals, b, c),
{
    assert forall|d: int| 0 <= d < 4 && beside_dead(w, h, a, c, d) implies #[trigger] beside_dead(
        w,
        h,
        b,
        c,
        d,
    ) by {
        if let Some(n) = neighbor(w, h, c, d) {
            assert(a(n));
        }
    }
    assert(beside_dead(w, h, a, c, 0) ==> beside_dead(w, h, b, c, 0));
    assert(beside_dead(w, h, a, c, 1) ==> beside_dead(w, h, b, c, 1));
    assert(beside_dead(w, h, a, c, 2) ==> beside_dead(w, h, b, c, 2));
    assert(beside_dead(w, h, a, c, 3) ==> beside_dead(w, h, b, c, 3));
}

/// A cell that dead squares spread to is one.
proof fn lemma_dead_spreads(w: u8, h: u8, walls: Seq<bool>, goals: Seq<bool>, c: Cell)
    requires
        spreads(w, h, walls, goals, |b: Cell| is_dead(w, h, walls, goals, b), c),
    ensures
        is_dead(w, h, walls, goals, c),
{
    let dead = |b: Cell| is_dead(w, h, walls, goals, b);
    let d = if shut(w, h, walls, c, 0) && shut(w, h, walls, c, 1) && (beside_dead(
        w,
        h,
        dead,
        c,
        2,
    ) || beside_dead(w, h, dead, c, 3)) {
        if beside_dead(w, h, dead, c, 2) {
            2int
        } else {
            3
        }
    } else {
        if beside_dead(w, h, dead, c, 0) {
            0int
        } else {
            1
        }
    };
    let b = neighbor(w, h, c, d)->0;
    let n = choose|n: nat| #[trigger] dead_within(w, h, walls, goals, n, b);
    let part = |x: Cell| dead_within(w, h, walls, goals, n, x);
    assert(beside_dead(w, h, part, c, d));
    assert(dead_within(w, h, walls, goals, n + 1, c));
}

/// A set that holds the corners and is closed under spreading holds every dead square.
proof fn lemma_dead_least(
    w: u8,
    h: u8,
    walls: Seq<bool>,
    goals: Seq<bool>,
    s: spec_fn(Cell) -> bool,
    n: nat,
    c: Cell,
)
    requires
        forall|x: Cell| on_grid(w, h, x) && is_corner(w, h, walls, goals, x) ==> #[trigger] s(x),
        forall|x: Cell| on_grid(w, h, x) && spreads(w, h, walls, goals, s, x) ==> #[trigger] s(x),
        on_grid(w, h, c),
        dead_within(w, h, walls, goals, n, c),
    ensures
        s(c),
    decreases n,
{
    if n > 0 {
        let part = |x: Cell| dead_within(w, h, walls, goals, (n - 1) as nat, x);
        if part(c) {
            lemma_dead_least(w, h, walls, goals, s, (n - 1) as nat, c);
        } else {
            assert forall|x: Cell| on_grid(w, h, x) && #[trigger] part(x) implies s(x) by {
                lemma_dead_least(w, h, walls, goals, s, (n - 1) as nat, x);
            }
            lemma_spreads_more(w, h, walls, goals, part, s, c);
        }
    }
}

/// Whether a wall or the edge of the grid lies beside a cell.
pub fn is_shut(walls: &BitPlane, width: u8, height: u8, x: u8, y: u8, d: usize) -> (r: bool)
    requires
        fits(walls, width, height),
        on_grid(width, height, (x, y)),
        d < 4,
    ensures
        r == shut(width, height, walls@, (x, y), d as int),
{
    match step_from(width, height, x, y, d) {
        Some((nx, ny)) => {
            proof {
                lemma_cell_stored(walls, width, height, (nx, ny));
            }
            walls.get(nx, ny)
        },
        None => true,
    }
}

/// Whether the cell beside a cell is marked dead.
fn is_beside_dead(dead: &BitPlane, width: u8, height: u8, x: u8, y: u8, d: usize) -> (r: bool)
    requires
        fits(dead, width, height),
        on_grid(width, height, (x, y)),
        d < 4,
    ensures
        r == beside_dead(width, height, |b: Cell| at(dead@, width, b), (x, y), d as int),
{
    match step_from(width, height, x, y, d) {
        Some((nx, ny)) => {
            proof {
                lemma_cell_stored(dead, width, height, (nx, ny));
            }
            dead.get(nx, ny)
        },
        None => false,
    }
}

/// Whether the marked cells spread to a cell.
fn spreads_to(
    walls: &BitPlane,
    goals: &BitPlane,
    dead: &BitPlane,
    width: u8,
    height: u8,
    x: u8,
    y: u8,
) -> (r: bool)
    requires
        fits(walls, width, height),
        fits(goals, width, height),
        fits(dead, width, height),
        on_grid(width, height, (x, y)),
    ensures
        r == marks_spread(width, height, walls@, goals@, dead@, (x, y)),
{
    proof {
        lemma_cell_stored(walls, width, height, (x, y));
        lemma_cell_stored(goals, width, height, (x, y));
    }
    if walls.get(x, y) || goals.get(x, y) {
        return false;
    }
    if is_shut(walls, width, height, x, y, 0) && is_shut(
        walls,
        width,
        height,
        x,
        y,
        1,
    ) && (is_beside_dead(dead, width, height, x, y, 2) || is_beside_dead(
        dead,
        width,
        height,
        x,
        y,
        3,
    )) {
        return true;
    }
    is_shut(walls, width, height, x, y, 2) && is_shut(walls, width, height, x, y, 3)
        && (is_beside_dead(dead, width, height, x, y, 0) || is_beside_dead(
        dead,
        width,
        height,
        x,
        y,
        1,
    ))
}

/// All bits that a plane marks are dead squares of the grid.
spec fn only_dead(bits: Seq<bool>, w: u8, h: u8, walls: Seq<bool>, goals: Seq<bool>) -> bool {
    &&& forall|c: Cell|
        on_grid(w, h, c) && #[trigger] at(bits, w, c) ==> is_dead(w, h, walls, goals, c)
    &&& forall|i: int| w * h <= i < bits.len() ==> !(#[trigger] bits[i])
}

/// Marking one more dead square.
proof fn lemma_mark_dead(
    bits: Seq<bool>,
    w: u8,
    h: u8,
    walls: Seq<bool>,
    goals: Seq<bool>,
    c: Cell,
)
    requires
        only_dead(bits, w, h, walls, goals),
        w * h <= bits.len(),
        on_grid(w, h, c),
        is_dead(w, h, walls, goals, c),
    ensures
        only_dead(bits.update(pos(w, c), true), w, h, walls, goals),
        forall|b: Cell|
            on_grid(w, h, b) && at(bits, w, b) ==> #[trigger] at(
                bits.update(pos(w, c), true),
                w,
                b,
            ),
        at(bits.update(pos(w, c), true), w, c),
{
    lemma_pos(w, h, c);
    let new = bits.update(pos(w, c), true);
    assert forall|b: Cell| on_grid(w, h, b) implies #[trigger] at(new, w, b) == (b == c || at(
        bits,
        w,
        b,
    )) by {
        lemma_update_cell(w, h, bits, c, b, true);
    }
}

/// The corners of a grid without a goal: a box that is pushed there is lost.
pub fn compute_corners(walls: &BitPlane, goals: &BitPlane, width: u8, height: u8) -> (dead: BitPlane)
    requires
        fits(walls, width, height),
        fits(goals, width, height),
    ensures
        fits(&dead, width, height),
        forall|c: Cell|
            on_grid(width, height, c) ==> (#[trigger] at(dead@, width, c) <==> is_corner(
                width,
                height,
                walls@,
                goals@,
                c,
            )),
        forall|i: int| width * height <= i < dead@.len() ==> !(#[trigger] dead@[i]),
{
    let mut dead = BitPlane::new(width, height);
    let cells = cell_count(width, height);
    proof {
        assert forall|c: Cell| on_grid(width, height, c) implies !(#[trigger] at(
            dead@,
            width,
            c,
        )) by {
            lemma_cell_stored(&dead, width, height, c);
        }
    }
    let mut i: usize = 0;
    while i < cells
        invariant
            i <= cells,
            cells == width * height,
            fits(walls, width, height),
            fits(goals, width, height),
            fits(&dead, width, height),
            forall|c: Cell|
                on_grid(width, height, c) ==> (#[trigger] at(dead@, width, c) <==> pos(width, c) < i
                    && is_corner(width, height, walls@, goals@, c)),
            forall|j: int| width * height <= j < dead@.len() ==> !(#[trigger] dead@[j]),
        decreases cells - i,
    {
        let (x, y) = cell_of(width, height, i);
        proof {
            lemma_cell_stored(walls, width, height, (x, y));
            lemma_cell_stored(goals, width, height, (x, y));
            lemma_cell_stored(&dead, width, height, (x, y));
            assert forall|c: Cell| on_grid(width, height, c) && pos(width, c) == i implies c == (
                x,
                y,
            ) by {
                lemma_pos(width, height, c);
            }
        }
        if !(walls.get(x, y) || goals.get(x, y)) {
            let blocked_h = is_shut(walls, width, height, x, y, 2) || is_shut(
                walls,
                width,
                height,
                x,
                y,
                3,
            );
            let blocked_v = is_shut(walls, width, height, x, y, 0) || is_shut(
                walls,
                width,
                height,
                x,
                y,
                1,
            );
            if blocked_h && blocked_v {
                proof {
                    assert forall|c: Cell| on_grid(width, height, c) implies #[trigger] at(
                        dead@.update(pos(width, (x, y)), true),
                        width,
                        c,
                    ) == (c == (x, y) || at(dead@, width, c)) by {
                        lemma_update_cell(width, height, dead@, (x, y), c, true);
                    }
                }
                dead.set(x, y);
            }
        }
        i += 1;
    }
    proof {
        assert forall|c: Cell| on_grid(width, height, c) implies #[trigger] pos(width, c)
            < cells by {
            lemma_pos(width, height, c);
        }
    }
    dead
}

/// Mark the cells that the marked ones spread to, in one pass over the grid. Gives whether a
/// cell was marked.
fn spread_once(
    walls: &BitPlane,
    goals: &BitPlane,
    dead: &mut BitPlane,
    width: u8,
    height: u8,
) -> (changed: bool)
    requires
        fits(walls, width, height),
        fits(goals, width, height),
        fits(old(dead), width, height),
        only_dead(old(dead)@, width, height, walls@, goals@),
    ensures
        fits(final(dead), width, height),
        only_dead(final(dead)@, width, height, walls@, goals@),
        forall|c: Cell|
            on_grid(width, height, c) && at(old(dead)@, width, c) ==> #[trigger] at(
                final(dead)@,
                width,
                c,
            ),
        changed ==> clear_below(final(dead)@, (width * height) as nat) < clear_below(
            old(dead)@,
            (width * height) as nat,
        ),
        !changed ==> final(dead)@ == old(dead)@,
        !changed ==> forall|c: Cell|
            on_grid(width, height, c) && #[trigger] marks_spread(
                width,
                height,
                walls@,
                goals@,
                final(dead)@,
                c,
            ) ==> at(final(dead)@, width, c),
{
    let cells = cell_count(width, height);
    let ghost before = dead@;
    let mut changed = false;
    let mut i: usize = 0;
    while i < cells
        invariant
            i <= cells,
            cells == width * height,
            fits(walls, width, height),
            fits(goals, width, height),
            fits(dead, width, height),
            only_dead(dead@, width, height, walls@, goals@),
            before == old(dead)@,
            before.len() == dead@.len(),
            forall|c: Cell|
                on_grid(width, height, c) && at(before, width, c) ==> #[trigger] at(
                    dead@,
                    width,
                    c,
                ),
            changed ==> clear_below(dead@, cells as nat) < clear_below(before, cells as nat),
            !changed ==> dead@ == before,
            !changed ==> forall|c: Cell|
                on_grid(width, height, c) && pos(width, c) < i && #[trigger] marks_spread(
                    width,
                    height,
                    walls@,
                    goals@,
                    dead@,
                    c,
                ) ==> at(dead@, width, c),
        decreases cells - i,
    {
        let (x, y) = cell_of(width, height, i);
        proof {
            lemma_cell_stored(dead, width, height, (x, y));
            assert forall|c: Cell| on_grid(width, height, c) && pos(width, c) == i implies c == (
                x,
                y,
            ) by {
                lemma_pos(width, height, c);
            }
        }
        if !dead.get(x, y) && spreads_to(walls, goals, dead, width, height, x, y) {
            proof {
                let marked = |b: Cell| at(dead@, width, b);
                let truly = |b: Cell| is_dead(width, height, walls@, goals@, b);
                assert forall|b: Cell| on_grid(width, height, b) && #[trigger] marked(
                    b,
                ) implies truly(b) by {
                    assert(at(dead@, width, b));
                }
                lemma_spreads_more(width, height, walls@, goals@, marked, truly, (x, y));
                lemma_dead_spreads(width, height, walls@, goals@, (x, y));
                lemma_mark_dead(dead@, width, height, walls@, goals@, (x, y));
                lemma_clear_below(dead@, i as int, cells as nat);
            }
            dead.set(x, y);
            changed = true;
        }
        i += 1;
    }
    proof {
        if !changed {
            assert forall|c: Cell|
                on_grid(width, height, c) && #[trigger] marks_spread(
                    width,
                    height,
                    walls@,
                    goals@,
                    dead@,
                    c,
                ) implies at(dead@, width, c) by {
                lemma_pos(width, height, c);
            }
        }
    }
    changed
}

/// The dead squares of a grid: the corners without a goal, and every corridor cell without a
/// goal that is next to a dead square of the corridor. A corridor may lead on to a goal, so a box
/// on such a cell need not be lost; the solver keeps boxes off the corners alone.
pub fn compute_dead_squares(walls: &BitPlane, goals: &BitPlane, width: u8, height: u8) -> (dead:
    BitPlane)
    requires
        fits(walls, width, height),
        fits(goals, width, height),
    ensures
        fits(&dead, width, height),
        forall|c: Cell|
            on_grid(width, height, c) ==> (#[trigger] at(dead@, width, c) <==> is_dead(
                width,
                height,
                walls@,
                goals@,
                c,
            )),
        forall|i: int| width * height <= i < dead@.len() ==> !(#[trigger] dead@[i]),
{
    let mut dead = compute_corners(walls, goals, width, height);
    proof {
        assert forall|c: Cell| on_grid(width, height, c) && #[trigger] at(
            dead@,
            width,
            c,
        ) implies is_dead(width, height, walls@, goals@, c) by {
            assert(dead_within(width, height, walls@, goals@, 0, c));
        }
    }
    let mut changed = true;
    while changed
        invariant
            fits(walls, width, height),
            fits(goals, width, height),
            fits(&dead, width, height),
            only_dead(dead@, width, height, walls@, goals@),
            forall|c: Cell|
                on_grid(width, height, c) && is_corner(width, height, walls@, goals@, c)
                    ==> #[trigger] at(dead@, width, c),
            !changed ==> forall|c: Cell|
                on_grid(width, height, c) && #[trigger] marks_spread(
                    width,
                    height,
                    walls@,
                    goals@,
                    dead@,
                    c,
                ) ==> at(dead@, width, c),
        decreases
                (if changed {
                    1int
                } else {
                    0
                }) + clear_below(dead@, (width * height) as nat),
    {
        changed = spread_once(walls, goals, &mut dead, width, height);
    }
    proof {
        let marked = |b: Cell| at(dead@, width, b);
        assert forall|c: Cell| on_grid(width, height, c) && is_dead(
            width,
            height,
            walls@,
            goals@,
            c,
        ) implies #[trigger] at(dead@, width, c) by {
            let n = choose|n: nat| #[trigger] dead_within(width, height, walls@, goals@, n, c);
            assert forall|x: Cell|
                on_grid(width, height, x) && is_corner(
                    width,
                    height,
                    walls@,
                    goals@,
                    x,
                ) implies #[trigger] marked(x) by {
                assert(at(dead@, width, x));
            }
            assert forall|x: Cell|
                on_grid(width, height, x) && spreads(
                    width,
                    height,
                    walls@,
                    goals@,
                    marked,
                    x,
                ) implies #[trigger] marked(x) by {
                assert(marks_spread(width, height, walls@, goals@, dead@, x));
            }
            lemma_dead_least(width, height, walls@, goals@, marked, n, c);
            assert(marked(c));
        }
    }
    dead
}

/// A corner is floor without a goal that has a wall to the left or right and one above or below,
/// the edge of the grid being as good as a wall.
pub proof fn law_corners_have_walls_on_two_sides(
    w: u8,
    h: u8,
    walls: Seq<bool>,
    goals: Seq<bool>,
    c: Cell,
)
    requires
        on_grid(w, h, c),
    ensures
        ({
            let (x, y) = (c.0 as int, c.1 as int);
            is_corner(w, h, walls, goals, c) <==> {
                &&& unmarked(w, h, walls, x, y) && unmarked(w, h, goals, x, y)
                &&& !unmarked(w, h, walls, x - 1, y) || !unmarked(w, h, walls, x + 1, y)
                &&& !unmarked(w, h, walls, x, y - 1) || !unmarked(w, h, walls, x, y + 1)
            }
        }),
{
}

/// The two cells are the next ones to either side of `c` in its row, or in its column.
pub open spec fn next_to(c: Cell, n: Cell, horizontal: bool) -> bool {
    if horizontal {
        c.1 == n.1 && (c.0 == n.0 + 1 || c.0 + 1 == n.0)
    } else {
        c.0 == n.0 && (c.1 == n.1 + 1 || c.1 + 1 == n.1)
    }
}

/// `c` is floor without a goal between two walls, and `n` is next to it along the corridor.
pub open spec fn in_corridor(
    w: u8,
    h: u8,
    walls: Seq<bool>,
    goals: Seq<bool>,
    c: Cell,
    n: Cell,
) -> bool {
    let (x, y) = (c.0 as int, c.1 as int);
    &&& unmarked(w, h, walls, x, y) && unmarked(w, h, goals, x, y)
    &&& {
        ||| {
            &&& next_to(c, n, true)
            &&& !unmarked(w, h, walls, x, y - 1) && !unmarked(w, h, walls, x, y + 1)
        }
        ||| {
            &&& next_to(c, n, false)
            &&& !unmarked(w, h, walls, x - 1, y) && !unmarked(w, h, walls, x + 1, y)
        }
    }
}

/// The dead squares are the corners and, from there on, each cell of a corridor without goals next
/// to a dead square of the corridor. There are no others: any set with the corners that goes on in
/// this way holds them all.
pub proof fn law_dead_squares_spread_along_corridors(
    w: u8,
    h: u8,
    walls: Seq<bool>,
    goals: Seq<bool>,
    s: spec_fn(Cell) -> bool,
    c: Cell,
    n: Cell,
)
    requires
        on_grid(w, h, c),
        on_grid(w, h, n),
        forall|b: Cell| on_grid(w, h, b) && is_corner(w, h, walls, goals, b) ==> #[trigger] s(b),
        forall|b: Cell, m: Cell|
            on_grid(w, h, b) && on_grid(w, h, m) && s(m) && #[trigger] in_corridor(
                w,
                h,
                walls,
                goals,
                b,
                m,
            ) ==> s(b),
    ensures
        is_corner(w, h, walls, goals, c) ==> is_dead(w, h, walls, goals, c),
        is_dead(w, h, walls, goals, n) && in_corridor(w, h, walls, goals, c, n) ==> is_dead(
            w,
            h,
            walls,
            goals,
            c,
        ),
        is_dead(w, h, walls, goals, c) ==> s(c) && plain_floor(w, walls, goals, c),
{
    if is_corner(w, h, walls, goals, c) {
        assert(dead_within(w, h, walls, goals, 0, c));
    }
    let dead = |b: Cell| is_dead(w, h, walls, goals, b);
    if dead(n) && in_corridor(w, h, walls, goals, c, n) {
        let d: int = if c.1 == n.1 + 1 {
            0
        } else if c.1 + 1 == n.1 {
            1
        } else if c.0 == n.0 + 1 {
            2
        } else {
            3
        };
        assert(neighbor(w, h, c, d) == Some(n));
        assert(beside_dead(w, h, dead, c, d));
        lemma_dead_spreads(w, h, walls, goals, c);
    }
    if dead(c) {
        let k = choose|k: nat| #[trigger] dead_within(w, h, walls, goals, k, c);
        lemma_dead_floor(w, h, walls, goals, k, c);
        assert forall|b: Cell|
            on_grid(w, h, b) && spreads(w, h, walls, goals, s, b) implies #[trigger] s(b) by {
            let d: int = if shut(w, h, walls, b, 0) && shut(w, h, walls, b, 1) && beside_dead(
                w,
                h,
                s,
                b,
                2,
            ) {
                2
            } else if shut(w, h, walls, b, 0) && shut(w, h, walls, b, 1) && beside_dead(
                w,
                h,
                s,
                b,
                3,
            ) {
                3
            } else if beside_dead(w, h, s, b, 0) {
                0
            } else {
                1
            };
            let m = neighbor(w, h, b, d)->0;
            assert(beside_dead(w, h, s, b, d));
            assert(in_corridor(w, h, walls, goals, b, m));
        }
        lemma_dead_least(w, h, walls, goals, s, k, c);
    }
}

proof fn lemma_dead_floor(w: u8, h: u8, walls: Seq<bool>, goals: Seq<bool>, n: nat, c: Cell)
    requires
        dead_within(w, h, walls, goals, n, c),
    ensures
        plain_floor(w, walls, goals, c),
    decreases n,
{
    if n > 0 && dead_within(w, h, walls, goals, (n - 1) as nat, c) {
        lemma_dead_floor(w, h, walls, goals, (n - 1) as nat, c);
    }
}

} // verus!
