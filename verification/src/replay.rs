//! Why the pushes of the search can be played.

use vstd::prelude::*;

use crate::bfs::{is_least_path, lemma_follow_push, lemma_least_exists};
use crate::closed_edge::Ground;
use crate::corral::lemma_region_transitive;
use crate::estimate::{is_first, law_normal_form_is_shared, normal};
use crate::grid::{
    at, cell_at, follow, is_free, lemma_cell_at, lemma_pos, neighbor, on_grid, opposite, pos,
    walk_step, Cell,
};
use crate::moves::{
    boxes_after, lemma_stand, lemma_walk_dirs, moves_for, player_after, stand, walk_letters, Push,
};
use crate::pushes::{beside, first_step, is_open, push_of, room, slide, slides, step_of};
use crate::reach::in_region;
use crate::rules::{
    lemma_moved, lemma_play_concat, lemma_play_letter, letter, moved, play, step_player, Position,
};

verus! {

/// Playing a walk takes the player along it.
proof fn lemma_play_walk(
    w: u8,
    h: u8,
    walls: Seq<bool>,
    boxes: Seq<bool>,
    from: Cell,
    dirs: Seq<int>,
)
    requires
        follow(walk_step(w, h, walls, boxes), from, dirs) is Some,
    ensures
        play(w, h, walls, Position { player: from, boxes }, walk_letters(dirs)) == Some(
            Position { player: follow(walk_step(w, h, walls, boxes), from, dirs)->0, boxes },
        ),
    decreases dirs.len(),
{
    let p = Position { player: from, boxes };
    if dirs.len() > 0 {
        lemma_play_walk(w, h, walls, boxes, from, dirs.drop_last());
        assert(walk_letters(dirs).drop_last() =~= walk_letters(dirs.drop_last()));
        let q = Position {
            player: follow(walk_step(w, h, walls, boxes), from, dirs.drop_last())->0,
            boxes,
        };
        lemma_play_letter(w, h, walls, q, dirs.last(), false);
    } else {
        assert(walk_letters(dirs).len() == 0);
    }
}

/// Where the player ends who follows a box from `c` to where it comes to rest, `p` being the cell
/// behind `c`.
spec fn slide_player(g: Ground, boxes: Seq<bool>, p: Cell, c: Cell, d: int) -> Cell
    decreases room(c, d),
{
    if slides(g, boxes, c, d) {
        slide_player(g, boxes, c, neighbor(g.w, g.h, c, d)->0, d)
    } else {
        p
    }
}

/// How far `n` steps in direction `d` go to the right.
spec fn shift_x(d: int, n: int) -> int {
    if d == 2 {
        -n
    } else if d == 3 {
        n
    } else {
        0
    }
}

/// How far `n` steps in direction `d` go down.
spec fn shift_y(d: int, n: int) -> int {
    if d == 0 {
        -n
    } else if d == 1 {
        n
    } else {
        0
    }
}

/// Where a sliding box comes to rest.
proof fn lemma_slide(g: Ground, boxes: Seq<bool>, p: Cell, c: Cell, d: int)
    requires
        0 <= d < 4,
        neighbor(g.w, g.h, p, d) == Some(c),
        on_grid(g.w, g.h, p),
    ensures
        ({
            let (end, n) = slide(g, boxes, c, d);
            let q = slide_player(g, boxes, p, c, d);
            &&& end.0 == c.0 + shift_x(d, n as int)
            &&& end.1 == c.1 + shift_y(d, n as int)
            &&& n <= room(c, d)
            &&& on_grid(g.w, g.h, end)
            &&& on_grid(g.w, g.h, q)
            &&& neighbor(g.w, g.h, q, d) == Some(end)
            &&& n > 0 ==> !at(g.walls, g.w, end) && !at(boxes, g.w, end)
        }),
    decreases room(c, d),
{
    if slides(g, boxes, c, d) {
        lemma_slide(g, boxes, c, neighbor(g.w, g.h, c, d)->0, d);
    }
}

/// Boxes after two moves of one box.
proof fn lemma_moved_twice(w: u8, h: u8, boxes: Seq<bool>, b: Cell, c: Cell, to: Cell)
    requires
        on_grid(w, h, b),
        on_grid(w, h, c),
        on_grid(w, h, to),
        w * h <= boxes.len(),
        b != c,
        !at(boxes, w, c),
    ensures
        moved(w, moved(w, boxes, b, c), c, to) == moved(w, boxes, b, to),
{
    lemma_pos(w, h, b);
    lemma_pos(w, h, c);
    lemma_pos(w, h, to);
    assert(moved(w, moved(w, boxes, b, c), c, to) =~= moved(w, boxes, b, to));
}

/// Playing the pushes of a sliding box.
proof fn lemma_play_slide(g: Ground, boxes: Seq<bool>, b: Cell, p: Cell, c: Cell, d: int)
    requires
        0 <= d < 4,
        g.w * g.h <= boxes.len(),
        on_grid(g.w, g.h, b),
        neighbor(g.w, g.h, p, d) == Some(c),
        on_grid(g.w, g.h, p),
        !at(g.walls, g.w, c),
        !at(boxes, g.w, c),
        at(boxes, g.w, b),
    ensures
        ({
            let (end, n) = slide(g, boxes, c, d);
            play(
                g.w,
                g.h,
                g.walls,
                Position { player: p, boxes: moved(g.w, boxes, b, c) },
                Seq::new(n, |i: int| letter(d, true)),
            ) == Some(
                Position {
                    player: slide_player(g, boxes, p, c, d),
                    boxes: moved(g.w, boxes, b, end),
                },
            )
        }),
    decreases room(c, d),
{
    let (end, n) = slide(g, boxes, c, d);
    let now = Position { player: p, boxes: moved(g.w, boxes, b, c) };
    let letters = Seq::new(n, |i: int| letter(d, true));
    if slides(g, boxes, c, d) {
        let to = neighbor(g.w, g.h, c, d)->0;
        lemma_moved(g.w, g.h, boxes, b, c, c);
        lemma_moved(g.w, g.h, boxes, b, c, to);
        lemma_moved_twice(g.w, g.h, boxes, b, c, to);
        let next = Position { player: c, boxes: moved(g.w, boxes, b, to) };
        assert(step_player(g.w, g.h, g.walls, now, d, true) == Some(next));
        lemma_play_letter(g.w, g.h, g.walls, now, d, true);
        lemma_play_slide(g, boxes, b, c, to, d);
        let one = seq![letter(d, true)];
        let rest = Seq::new((n - 1) as nat, |i: int| letter(d, true));
        assert(one.drop_last() =~= Seq::empty());
        assert(play(g.w, g.h, g.walls, now, one.drop_last()) == Some(now));
        assert(play(g.w, g.h, g.walls, now, one) == Some(next));
        lemma_play_concat(g.w, g.h, g.walls, now, one, rest);
        assert(one + rest =~= letters);
    } else {
        assert(letters =~= Seq::empty());
    }
}

/// The player can walk back from where a slide ends.
proof fn lemma_walk_back(
    g: Ground,
    boxes: Seq<bool>,
    b: Cell,
    p: Cell,
    c: Cell,
    d: int,
    end: Cell,
)
    requires
        0 <= d < 4,
        g.w * g.h <= boxes.len(),
        on_grid(g.w, g.h, b),
        neighbor(g.w, g.h, p, d) == Some(c),
        on_grid(g.w, g.h, p),
        !at(g.walls, g.w, c),
        !at(boxes, g.w, c),
        at(boxes, g.w, b),
        end == slide(g, boxes, c, d).0,
        is_free(g.w, g.walls, moved(g.w, boxes, b, end), p),
    ensures
        in_region(
            g.w,
            g.h,
            g.walls,
            moved(g.w, boxes, b, end),
            slide_player(g, boxes, p, c, d),
            p,
        ),
    decreases room(c, d),
{
    let after = moved(g.w, boxes, b, end);
    let step = walk_step(g.w, g.h, g.walls, after);
    if slides(g, boxes, c, d) {
        let to = neighbor(g.w, g.h, c, d)->0;
        lemma_slide(g, boxes, c, to, d);
        lemma_moved(g.w, g.h, boxes, b, end, c);
        lemma_walk_back(g, boxes, b, c, to, d, end);
        let q = slide_player(g, boxes, p, c, d);
        let dirs = choose|dirs: Seq<int>| #[trigger] follow(step, q, dirs) == Some(c);
        lemma_follow_push(step, q, dirs, opposite(d));
        assert(follow(step, q, dirs.push(opposite(d))) == Some(p));
    } else {
        let none: Seq<int> = Seq::empty();
        assert(follow(step, p, none) == Some(p));
    }
}

/// The player's region by one cell is within the region by another.
spec fn region_within(g: Ground, boxes: Seq<bool>, a: Cell, b: Cell) -> bool {
    forall|c: Cell| #[trigger]
        in_region(g.w, g.h, g.walls, boxes, a, c) ==> in_region(g.w, g.h, g.walls, boxes, b, c)
}

/// The first cell of a region leads nowhere else than the cells that it was found from.
proof fn lemma_normal(g: Ground, boxes: Seq<bool>, i: int)
    ensures
        region_within(g, boxes, stand(g.w, normal(g, boxes, i)), stand(g.w, i)),
{
    let player = stand(g.w, i);
    if exists|j: int| is_first(g, boxes, player, j) {
        let j = choose|j: int| is_first(g, boxes, player, j);
        assert(is_first(g, boxes, player, j));
        lemma_cell_at(g.w, g.h, j);
        lemma_stand(g.w, g.h, cell_at(g.w, j));
        let first = stand(g.w, j);
        assert forall|c: Cell| #[trigger]
            in_region(g.w, g.h, g.walls, boxes, first, c) implies in_region(
            g.w,
            g.h,
            g.walls,
            boxes,
            player,
            c,
        ) by {
            lemma_region_transitive(g.w, g.h, g.walls, boxes, player, first, c);
        }
    }
}

/// The pushes lead from the first position to boxes `boxes` with the player in the region of
/// position `player`, and can be played.
pub open spec fn playable(
    g: Ground,
    start: Position,
    path: Seq<Push>,
    boxes: Seq<bool>,
    player: int,
) -> bool {
    let now = player_after(start.player, path);
    &&& boxes_after(g.w, start.boxes, path) == boxes
    &&& boxes.len() == start.boxes.len()
    &&& play(
        g.w,
        g.h,
        g.walls,
        start,
        moves_for(g.w, g.h, g.walls, start.player, start.boxes, path),
    ) == Some(Position { player: now, boxes })
    &&& forall|c: Cell| #[trigger]
        in_region(g.w, g.h, g.walls, boxes, stand(g.w, player), c) ==> in_region(
            g.w,
            g.h,
            g.walls,
            boxes,
            now,
            c,
        )
}

/// No pushes yet.
pub proof fn lemma_playable_start(g: Ground, boxes: Seq<bool>, i: int)
    ensures
        playable(
            g,
            Position { player: stand(g.w, i), boxes },
            Seq::empty(),
            boxes,
            normal(g, boxes, i),
        ),
{
    lemma_normal(g, boxes, i);
}

/// What a push of the search looks like.
pub proof fn lemma_push_shape(g: Ground, boxes: Seq<bool>, player: Cell, b: Cell, d: int)
    requires
        on_grid(g.w, g.h, b),
        0 <= d < 4,
        push_of(g, boxes, player, b, d) is Some,
    ensures
        ({
            let push = push_of(g, boxes, player, b, d)->0;
            &&& push.on(g.w, g.h)
            &&& push.from() == b
            &&& push.steps <= 256
            &&& push.from_flat < g.w * g.h
            &&& stand(g.w, push.from_flat as int) == neighbor(g.w, g.h, b, opposite(d))->0
            &&& push.letters() == Seq::new(push.steps as nat, |i: int| letter(d, true))
            &&& !at(boxes, g.w, push.to())
            &&& !at(g.walls, g.w, push.to())
        }),
{
    let from = neighbor(g.w, g.h, b, opposite(d))->0;
    let to = neighbor(g.w, g.h, b, d)->0;
    assert(on_grid(g.w, g.h, b));
    lemma_slide(g, boxes, b, to, d);
    lemma_pos(g.w, g.h, from);
    lemma_stand(g.w, g.h, from);
    crate::bitplane::lemma_dims(g.w as int, g.h as int);
    let push = push_of(g, boxes, player, b, d)->0;
    assert(push.letters() =~= Seq::new(push.steps as nat, |i: int| letter(d, true)));
}

/// One more push.
#[verifier::rlimit(30)]
pub proof fn lemma_playable_push(
    g: Ground,
    start: Position,
    path: Seq<Push>,
    boxes: Seq<bool>,
    player: int,
    b: Cell,
    d: int,
)
    requires
        playable(g, start, path, boxes, player),
        g.w * g.h <= boxes.len(),
        on_grid(g.w, g.h, b),
        at(boxes, g.w, b),
        0 <= d < 4,
        push_of(g, boxes, stand(g.w, player), b, d) is Some,
    ensures
        ({
            let push = push_of(g, boxes, stand(g.w, player), b, d)->0;
            let after = moved(g.w, boxes, b, push.to());
            playable(g, start, path.push(push), after, normal(g, after, push.from_flat as int))
        }),
{
    let push = push_of(g, boxes, stand(g.w, player), b, d)->0;
    let now = player_after(start.player, path);
    let from = neighbor(g.w, g.h, b, opposite(d))->0;
    let to = neighbor(g.w, g.h, b, d)->0;
    let (end, n) = slide(g, boxes, to, d);
    assert(on_grid(g.w, g.h, b));
    lemma_slide(g, boxes, b, to, d);
    let after = moved(g.w, boxes, b, end);
    let behind = slide_player(g, boxes, b, to, d);
    lemma_pos(g.w, g.h, from);
    lemma_stand(g.w, g.h, from);
    assert(push.from_flat == pos(g.w, from)) by {
        crate::bitplane::lemma_dims(g.w as int, g.h as int);
    }
    assert(push.behind() == behind);
    // The walk to the cell behind the box.
    let step = walk_step(g.w, g.h, g.walls, boxes);
    assert(in_region(g.w, g.h, g.walls, boxes, now, from));
    let any = choose|any: Seq<int>| #[trigger] follow(step, now, any) == Some(from);
    lemma_least_exists(step, now, from, any);
    let dirs = choose|dirs: Seq<int>| is_least_path(step, now, from, dirs);
    lemma_walk_dirs(g.w, g.h, g.walls, boxes, now, from, dirs);
    lemma_play_walk(g.w, g.h, g.walls, boxes, now, dirs);
    let walked = Position { player: from, boxes };
    // The push itself.
    let pushed = Position { player: b, boxes: moved(g.w, boxes, b, to) };
    assert(neighbor(g.w, g.h, from, d) == Some(b));
    assert(step_player(g.w, g.h, g.walls, walked, d, true) == Some(pushed));
    lemma_play_letter(g.w, g.h, g.walls, walked, d, true);
    lemma_play_slide(g, boxes, b, b, to, d);
    let one = seq![letter(d, true)];
    let rest = Seq::new(n, |i: int| letter(d, true));
    assert(one.drop_last() =~= Seq::empty());
    assert(play(g.w, g.h, g.walls, walked, one.drop_last()) == Some(walked));
    lemma_play_concat(g.w, g.h, g.walls, walked, one, rest);
    assert(push.letters() =~= one + rest);
    // All moves together.
    let longer = path.push(push);
    assert(longer.drop_last() =~= path);
    let before = moves_for(g.w, g.h, g.walls, start.player, start.boxes, path);
    lemma_play_concat(g.w, g.h, g.walls, start, before, walk_letters(dirs));
    lemma_play_concat(
        g.w,
        g.h,
        g.walls,
        start,
        before + walk_letters(dirs),
        push.letters(),
    );
    // The boxes.
    lemma_moved(g.w, g.h, boxes, b, end, b);
    lemma_moved(g.w, g.h, boxes, b, end, from);
    // The player's region.
    assert(is_free(g.w, g.walls, boxes, from)) by {
        lemma_region_free(g.w, g.h, g.walls, boxes, now, from);
    }
    lemma_walk_back(g, boxes, b, b, to, d, end);
    let wide = walk_step(g.w, g.h, g.walls, after);
    let back = choose|back: Seq<int>| #[trigger] follow(wide, behind, back) == Some(b);
    lemma_follow_push(wide, behind, back, opposite(d));
    assert(follow(wide, behind, back.push(opposite(d))) == Some(from));
    assert(in_region(g.w, g.h, g.walls, after, behind, from));
    lemma_normal(g, after, push.from_flat as int);
    let next = normal(g, after, push.from_flat as int);
    assert forall|c: Cell| #[trigger]
        in_region(g.w, g.h, g.walls, after, stand(g.w, next), c) implies in_region(
        g.w,
        g.h,
        g.walls,
        after,
        behind,
        c,
    ) by {
        assert(in_region(g.w, g.h, g.walls, after, from, c));
        lemma_region_transitive(g.w, g.h, g.walls, after, behind, from, c);
    }
}

/// Cells of a region are free.
proof fn lemma_region_free(w: u8, h: u8, walls: Seq<bool>, boxes: Seq<bool>, a: Cell, c: Cell)
    requires
        in_region(w, h, walls, boxes, a, c),
    ensures
        is_free(w, walls, boxes, c),
{
    let step = walk_step(w, h, walls, boxes);
    let dirs = choose|dirs: Seq<int>| #[trigger] follow(step, a, dirs) == Some(c);
    if dirs.len() > 0 {
        assert(follow(step, a, dirs.drop_last()) is Some);
    }
}

/// After a push the cell that the box was on and the cell that the player pushed from are in one
/// region, and have the same normal form.
pub proof fn law_player_follows_the_box(
    g: Ground,
    boxes: Seq<bool>,
    player: Cell,
    b: Cell,
    d: int,
)
    requires
        g.w * g.h <= boxes.len(),
        on_grid(g.w, g.h, b),
        at(boxes, g.w, b),
        0 <= d < 4,
        push_of(g, boxes, player, b, d) is Some,
    ensures
        ({
            let push = push_of(g, boxes, player, b, d)->0;
            let after = moved(g.w, boxes, b, push.to());
            normal(g, after, push.from_flat as int) == normal(g, after, pos(g.w, b))
        }),
{
    let push = push_of(g, boxes, player, b, d)->0;
    let from = neighbor(g.w, g.h, b, opposite(d))->0;
    let to = neighbor(g.w, g.h, b, d)->0;
    let end = push.to();
    let after = moved(g.w, boxes, b, end);
    assert(on_grid(g.w, g.h, b));
    lemma_slide(g, boxes, b, to, d);
    lemma_push_shape(g, boxes, player, b, d);
    lemma_region_free(g.w, g.h, g.walls, boxes, player, from);
    lemma_moved(g.w, g.h, boxes, b, end, from);
    lemma_moved(g.w, g.h, boxes, b, end, b);
    lemma_stand(g.w, g.h, b);
    let step = walk_step(g.w, g.h, g.walls, after);
    assert(neighbor(g.w, g.h, from, d) == Some(b));
    let none: Seq<int> = Seq::empty();
    lemma_follow_push(step, from, none, d);
    assert(follow(step, from, none.push(d)) == Some(b));
    law_normal_form_is_shared(g, after, push.from_flat as int, pos(g.w, b));
}

// ── Single steps ──────────────────────────────────────────────────────────

/// The grid with a goal on every cell, so that no cell is a tunnel.
spec fn without_tunnels(g: Ground) -> Ground {
    Ground { goals: Seq::new(0x1_0000, |i: int| true), ..g }
}

/// A push by one cell is what a push is where there are no tunnels.
proof fn lemma_step_of(g: Ground, boxes: Seq<bool>, player: Cell, b: Cell, d: int)
    requires
        0 <= d < 4,
    ensures
        step_of(g, boxes, player, b, d) == push_of(without_tunnels(g), boxes, player, b, d),
{
    if let Some(to) = neighbor(g.w, g.h, b, d) {
        let u = without_tunnels(g);
        lemma_pos(g.w, g.h, to);
        crate::bitplane::lemma_dims(g.w as int, g.h as int);
        assert(at(u.goals, u.w, to));
        assert(!slides(u, boxes, to, d));
    }
}

/// The normal form does not depend on the goals.
proof fn lemma_normal_without_tunnels(g: Ground, boxes: Seq<bool>, i: int)
    ensures
        normal(without_tunnels(g), boxes, i) == normal(g, boxes, i),
{
    let u = without_tunnels(g);
    let player = stand(g.w, i);
    assert forall|j: int| is_first(u, boxes, player, j) == #[trigger] is_first(
        g,
        boxes,
        player,
        j,
    ) by {}
    if exists|j: int| is_first(g, boxes, player, j) {
        let j = choose|j: int| is_first(g, boxes, player, j);
        assert(is_first(u, boxes, player, j));
        let k = choose|k: int| is_first(u, boxes, player, k);
        assert(is_first(u, boxes, player, k));
        assert(is_first(g, boxes, player, k));
        assert(in_region(g.w, g.h, g.walls, boxes, player, cell_at(g.w, j)));
        assert(in_region(g.w, g.h, g.walls, boxes, player, cell_at(g.w, k)));
    } else {
        assert forall|j: int| !is_first(u, boxes, player, j) by {
            assert(!is_first(g, boxes, player, j));
        }
    }
}

/// The first step of a push is a push by one cell, and so is a push by one cell.
pub proof fn lemma_first_step(g: Ground, boxes: Seq<bool>, player: Cell, b: Cell, d: int)
    requires
        on_grid(g.w, g.h, b),
        0 <= d < 4,
        push_of(g, boxes, player, b, d) is Some,
    ensures
        ({
            let p = push_of(g, boxes, player, b, d)->0;
            &&& step_of(g, boxes, player, b, d) == Some(first_step(p))
            &&& p.steps >= 1
            &&& p.steps == 1 ==> p == first_step(p)
        }),
{
    let to = neighbor(g.w, g.h, b, d)->0;
    assert(on_grid(g.w, g.h, b));
    lemma_slide(g, boxes, b, to, d);
}

/// A push that the search tries: of one of the boxes in some direction.
pub open spec fn is_push(
    g: Ground,
    boxes: Seq<bool>,
    player: Cell,
    p: Push,
    b: Cell,
    d: int,
) -> bool {
    &&& on_grid(g.w, g.h, b)
    &&& at(boxes, g.w, b)
    &&& 0 <= d < 4
    &&& push_of(g, boxes, player, b, d) == Some(p) || step_of(g, boxes, player, b, d) == Some(p)
}

/// What a push that the search tries looks like.
pub proof fn lemma_tried_shape(
    g: Ground,
    boxes: Seq<bool>,
    player: Cell,
    p: Push,
    b: Cell,
    d: int,
)
    requires
        is_push(g, boxes, player, p, b, d),
    ensures
        p.on(g.w, g.h),
        p.from() == b,
        1 <= p.steps <= 256,
        p.from_flat < g.w * g.h,
        p.letters() == Seq::new(p.steps as nat, |i: int| letter(d, true)),
        !at(boxes, g.w, p.to()),
        !at(g.walls, g.w, p.to()),
{
    if push_of(g, boxes, player, b, d) == Some(p) {
        lemma_push_shape(g, boxes, player, b, d);
        lemma_first_step(g, boxes, player, b, d);
    } else {
        lemma_step_of(g, boxes, player, b, d);
        lemma_push_shape(without_tunnels(g), boxes, player, b, d);
    }
}

/// One more push that the search tries.
pub proof fn lemma_playable_tried(
    g: Ground,
    start: Position,
    path: Seq<Push>,
    boxes: Seq<bool>,
    player: int,
    p: Push,
    b: Cell,
    d: int,
)
    requires
        playable(g, start, path, boxes, player),
        g.w * g.h <= boxes.len(),
        is_push(g, boxes, stand(g.w, player), p, b, d),
    ensures
        ({
            let after = moved(g.w, boxes, b, p.to());
            playable(g, start, path.push(p), after, normal(g, after, p.from_flat as int))
        }),
{
    if push_of(g, boxes, stand(g.w, player), b, d) == Some(p) {
        lemma_playable_push(g, start, path, boxes, player, b, d);
    } else {
        let u = without_tunnels(g);
        let after = moved(g.w, boxes, b, p.to());
        lemma_step_of(g, boxes, stand(g.w, player), b, d);
        assert(playable(u, start, path, boxes, player));
        lemma_playable_push(u, start, path, boxes, player, b, d);
        lemma_normal_without_tunnels(g, after, p.from_flat as int);
        assert(playable(u, start, path.push(p), after, normal(g, after, p.from_flat as int)));
    }
}

// ── Moves for any pushes ──────────────────────────────────────────────────

/// The cell `k` cells from `c` in direction `d`.
spec fn cell_beside(c: Cell, d: int, k: int) -> Cell {
    (beside(c, d, k).0 as u8, beside(c, d, k).1 as u8)
}

/// The push moves a box `n` cells in direction `d` over open cells, and the player can walk to the
/// cell behind the box.
pub open spec fn can_be_played(
    g: Ground,
    boxes: Seq<bool>,
    player: Cell,
    p: Push,
    d: int,
    n: int,
) -> bool {
    let (x, y) = beside(p.from(), d, -1);
    &&& 0 <= d < 4 && n >= 1
    &&& on_grid(g.w, g.h, p.from()) && at(boxes, g.w, p.from()) && !at(g.walls, g.w, p.from())
    &&& forall|k: int| 1 <= k <= n ==> #[trigger] is_open(g, boxes, p.from(), d, k)
    &&& (p.to_x as int, p.to_y as int) == beside(p.from(), d, n)
    &&& 0 <= x < g.w && 0 <= y < g.h
    &&& p.from_flat == y * g.w + x
    &&& in_region(g.w, g.h, g.walls, boxes, player, (x as u8, y as u8))
}

/// Pushing a box along a line.
#[verifier::rlimit(30)]
proof fn lemma_play_line(g: Ground, boxes: Seq<bool>, player: Cell, p: Push, d: int, n: int, k: int)
    requires
        can_be_played(g, boxes, player, p, d, n),
        g.w * g.h <= boxes.len(),
        0 <= k <= n,
    ensures
        ({
            let b = p.from();
            play(
                g.w,
                g.h,
                g.walls,
                Position { player: cell_beside(b, d, -1), boxes },
                Seq::new(k as nat, |i: int| letter(d, true)),
            ) == Some(
                Position {
                    player: cell_beside(b, d, k - 1),
                    boxes: if k == 0 {
                        boxes
                    } else {
                        moved(g.w, boxes, b, cell_beside(b, d, k))
                    },
                },
            )
        }),
    decreases k,
{
    let b = p.from();
    let first = Position { player: cell_beside(b, d, -1), boxes };
    let letters = Seq::new(k as nat, |i: int| letter(d, true));
    if k > 0 {
        lemma_play_line(g, boxes, player, p, d, n, k - 1);
        let less = Seq::new((k - 1) as nat, |i: int| letter(d, true));
        assert(letters.drop_last() =~= less);
        let now = play(g.w, g.h, g.walls, first, less)->0;
        let (c, to) = (cell_beside(b, d, k - 1), cell_beside(b, d, k));
        assert(is_open(g, boxes, b, d, k));
        assert(beside(b, d, 0) == (b.0 as int, b.1 as int));
        if k > 1 {
            assert(is_open(g, boxes, b, d, k - 1));
        }
        assert(on_grid(g.w, g.h, c) && on_grid(g.w, g.h, to));
        assert(neighbor(g.w, g.h, now.player, d) == Some(c));
        assert(neighbor(g.w, g.h, c, d) == Some(to));
        if k > 1 {
            lemma_moved(g.w, g.h, boxes, b, c, c);
            lemma_moved(g.w, g.h, boxes, b, c, to);
            lemma_moved_twice(g.w, g.h, boxes, b, c, to);
        }
        lemma_play_letter(g.w, g.h, g.walls, now, d, true);
        assert(letters.last() == letter(d, true));
    } else {
        assert(letters =~= Seq::empty());
    }
}

/// The moves for some pushes make them: whatever the pushes are, as long as each moves a box over
/// open cells from a cell that the player can walk to, the player can make all the moves, stands
/// behind the last box after them, and the boxes are where the pushes put them.
pub proof fn law_moves_make_the_pushes(
    g: Ground,
    start: Position,
    path: Seq<Push>,
    dirs: Seq<int>,
    lengths: Seq<int>,
)
    requires
        g.w * g.h <= start.boxes.len(),
        dirs.len() >= path.len(),
        lengths.len() >= path.len(),
        forall|k: int|
            0 <= k < path.len() ==> can_be_played(
                g,
                boxes_after(g.w, start.boxes, #[trigger] path.take(k)),
                player_after(start.player, path.take(k)),
                path[k],
                dirs[k],
                lengths[k],
            ),
    ensures
        play(
            g.w,
            g.h,
            g.walls,
            start,
            moves_for(g.w, g.h, g.walls, start.player, start.boxes, path),
        ) == Some(
            Position {
                player: player_after(start.player, path),
                boxes: boxes_after(g.w, start.boxes, path),
            },
        ),
        boxes_after(g.w, start.boxes, path).len() == start.boxes.len(),
    decreases path.len(),
{
    if path.len() > 0 {
        let m = path.len() - 1;
        let before = path.drop_last();
        assert forall|k: int| 0 <= k < before.len() implies can_be_played(
            g,
            boxes_after(g.w, start.boxes, #[trigger] before.take(k)),
            player_after(start.player, before.take(k)),
            before[k],
            dirs[k],
            lengths[k],
        ) by {
            assert(before.take(k) =~= path.take(k));
        }
        law_moves_make_the_pushes(g, start, before, dirs, lengths);
        assert(path.take(m) =~= before);
        let boxes = boxes_after(g.w, start.boxes, before);
        let player = player_after(start.player, before);
        let (p, d, n) = (path.last(), dirs[m], lengths[m]);
        assert(can_be_played(g, boxes, player, p, d, n));
        let b = p.from();
        let from = cell_beside(b, d, -1);
        lemma_stand(g.w, g.h, from);
        assert(stand(g.w, p.from_flat as int) == from);
        let step = walk_step(g.w, g.h, g.walls, boxes);
        let way = choose|way: Seq<int>| #[trigger] follow(step, player, way) == Some(from);
        lemma_least_exists(step, player, from, way);
        let least = choose|w: Seq<int>| is_least_path(step, player, from, w);
        lemma_walk_dirs(g.w, g.h, g.walls, boxes, player, from, least);
        lemma_play_walk(g.w, g.h, g.walls, boxes, player, least);
        lemma_play_line(g, boxes, player, p, d, n, n);
        assert(p.letters() =~= Seq::new(n as nat, |i: int| letter(d, true)));
        let done = moves_for(g.w, g.h, g.walls, start.player, start.boxes, before);
        let walk = walk_letters(least);
        lemma_play_concat(g.w, g.h, g.walls, start, done + walk, p.letters());
        lemma_play_concat(g.w, g.h, g.walls, start, done, walk);
        assert(is_open(g, boxes, b, d, n));
        assert(p.behind() == cell_beside(b, d, n - 1));
        lemma_moved(g.w, g.h, boxes, b, p.to(), b);
    }
}

} // verus!
