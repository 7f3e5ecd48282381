//! The push list of a result is that of its moves.

use vstd::prelude::*;

use crate::closed_edge::Ground;
use crate::exhaustive::{lemma_run_heap, lemma_with_children, total_steps};
use crate::frontier::{
    lemma_without_first, lemma_without_first_holds, without_first, NodeModel,
};
use crate::grid::{at, on_grid, Cell};
use crate::moves::{boxes_after, moves_for, player_after, size, stand, Push};
use crate::push_count::{lemma_counted_moves, lemma_run_counted, pushes_in};
use crate::pushes::tried_pushes;
use crate::replay::{
    is_push, lemma_playable_start, lemma_playable_tried, lemma_tried_shape, playable,
};
use crate::rules::{letter, moved, play, Position};
use crate::search::{
    begin, child, finds, is_goal_state, is_result, lemma_tried, push_bytes, run, SolverResult,
};

verus! {

/// The cell that push `k` of a list takes a box from.
pub open spec fn listed_from(list: Seq<u8>, k: int) -> Cell {
    (list[4 * k], list[4 * k + 1])
}

/// The cell that push `k` of a list takes a box to.
pub open spec fn listed_to(list: Seq<u8>, k: int) -> Cell {
    (list[4 * k + 2], list[4 * k + 3])
}

/// The boxes after the first `k` pushes of a list are made.
pub open spec fn pushed(w: u8, boxes: Seq<bool>, list: Seq<u8>, k: int) -> Seq<bool>
    decreases k,
{
    if k <= 0 {
        boxes
    } else {
        moved(w, pushed(w, boxes, list, k - 1), listed_from(list, k - 1), listed_to(list, k - 1))
    }
}

/// Number of cells that the first `k` pushes of a list move boxes.
pub open spec fn listed_steps(list: Seq<u8>, k: int) -> int
    decreases k,
{
    if k <= 0 {
        0
    } else {
        let (from, to) = (listed_from(list, k - 1), listed_to(list, k - 1));
        listed_steps(list, k - 1) + size(to.0 - from.0) + size(to.1 - from.1)
    }
}

/// Push `k` of a list takes a box that is there along a row or a column to a vacant cell.
pub open spec fn can_be_made(g: Ground, boxes: Seq<bool>, list: Seq<u8>, k: int) -> bool {
    let (from, to) = (listed_from(list, k), listed_to(list, k));
    &&& on_grid(g.w, g.h, from) && at(boxes, g.w, from)
    &&& on_grid(g.w, g.h, to) && !at(boxes, g.w, to) && !at(g.walls, g.w, to)
    &&& from != to
    &&& from.0 == to.0 || from.1 == to.1
}

/// Playing the first `i` moves pushes boxes by `n` cells, and leaves them so.
pub open spec fn moves_lead_to(
    g: Ground,
    start: Position,
    moves: Seq<char>,
    i: int,
    n: int,
    boxes: Seq<bool>,
) -> bool {
    &&& 0 <= i <= moves.len()
    &&& pushes_in(moves.take(i)) == n
    &&& match play(g.w, g.h, g.walls, start, moves.take(i)) {
        Some(q) => q.boxes == boxes,
        None => false,
    }
}

/// The first `k` pushes of the list leave the boxes as the moves up to some point do, by as many
/// single pushes.
pub open spec fn keeps_pace(
    g: Ground,
    start: Position,
    moves: Seq<char>,
    list: Seq<u8>,
    k: int,
) -> bool {
    exists|i: int| #[trigger]
        moves_lead_to(
            g,
            start,
            moves,
            i,
            listed_steps(list, k),
            pushed(g.w, start.boxes, list, k),
        )
}

/// The bytes of push `k`.
proof fn lemma_push_bytes(path: Seq<Push>, k: int)
    requires
        0 <= k < path.len(),
    ensures
        push_bytes(path).len() == 4 * path.len(),
        listed_from(push_bytes(path), k) == path[k].from(),
        listed_to(push_bytes(path), k) == path[k].to(),
    decreases path.len(),
{
    let less = path.drop_last();
    lemma_push_bytes_len(less);
    if k < less.len() {
        lemma_push_bytes(less, k);
        assert(less[k] == path[k]);
    }
}

proof fn lemma_push_bytes_len(path: Seq<Push>)
    ensures
        push_bytes(path).len() == 4 * path.len(),
    decreases path.len(),
{
    if path.len() > 0 {
        lemma_push_bytes_len(path.drop_last());
    }
}

/// Making the first `k` pushes of the bytes of some pushes makes these pushes.
proof fn lemma_pushed(w: u8, boxes: Seq<bool>, path: Seq<Push>, k: int)
    requires
        0 <= k <= path.len(),
    ensures
        pushed(w, boxes, push_bytes(path), k) == boxes_after(w, boxes, path.take(k)),
    decreases k,
{
    if k > 0 {
        lemma_pushed(w, boxes, path, k - 1);
        lemma_push_bytes(path, k - 1);
        assert(path.take(k).drop_last() =~= path.take(k - 1));
    }
}

/// Push `p` takes a box that is there along a row or a column to a vacant cell.
spec fn is_straight(g: Ground, boxes: Seq<bool>, p: Push) -> bool {
    &&& on_grid(g.w, g.h, p.from()) && at(boxes, g.w, p.from())
    &&& on_grid(g.w, g.h, p.to()) && !at(boxes, g.w, p.to()) && !at(g.walls, g.w, p.to())
    &&& p.from() != p.to()
    &&& p.from_x == p.to_x || p.from_y == p.to_y
    &&& p.steps == size(p.to_x - p.from_x) + size(p.to_y - p.from_y)
}

/// Every prefix of the pushes can be played, and leaves the boxes as the pushes do.
spec fn is_trail(g: Ground, start: Position, path: Seq<Push>) -> bool {
    &&& forall|k: int|
        0 <= k <= path.len() ==> #[trigger] prefix_plays(g, start, path.take(k))
    &&& forall|k: int|
        0 <= k < path.len() ==> is_straight(
            g,
            boxes_after(g.w, start.boxes, path.take(k)),
            #[trigger] path[k],
        )
}

spec fn prefix_plays(g: Ground, start: Position, path: Seq<Push>) -> bool {
    let moves = moves_for(g.w, g.h, g.walls, start.player, start.boxes, path);
    &&& play(g.w, g.h, g.walls, start, moves) == Some(
        Position {
            player: player_after(start.player, path),
            boxes: boxes_after(g.w, start.boxes, path),
        },
    )
    &&& pushes_in(moves) == total_steps(path)
}

/// A push that the search tries goes straight.
proof fn lemma_straight(g: Ground, boxes: Seq<bool>, player: Cell, p: Push, b: Cell, d: int)
    requires
        is_push(g, boxes, player, p, b, d),
    ensures
        is_straight(g, boxes, p),
{
    lemma_tried_shape(g, boxes, player, p, b, d);
    let n = p.letters().len();
    assert(n == p.steps);
    assert(p.letters()[0] == letter(d, true));
}

proof fn lemma_run_trail(g: Ground, boxes: Seq<bool>, player: int, k: nat, n: NodeModel)
    requires
        g.w * g.h <= boxes.len(),
        run(g, begin(g, boxes, player), k) is Some,
        (run(g, begin(g, boxes, player), k)->0).frontier.contains(n),
    ensures
        ({
            let start = Position { player: stand(g.w, player), boxes };
            &&& playable(g, start, n.path, n.boxes, n.player)
            &&& is_trail(g, start, n.path)
            &&& n.cost == total_steps(n.path)
        }),
    decreases k,
{
    let first = begin(g, boxes, player);
    let start = Position { player: stand(g.w, player), boxes };
    if k == 0 {
        assert(first.frontier[0] == n);
        lemma_playable_start(g, boxes, player);
        assert forall|j: int| 0 <= j <= n.path.len() implies #[trigger] prefix_plays(
            g,
            start,
            n.path.take(j),
        ) by {
            assert(n.path.take(j) =~= n.path);
        }
    } else {
        let before = (k - 1) as nat;
        let m = run(g, first, before)->0;
        let t = m.frontier[0];
        let waiting = without_first(m.frontier);
        let pushes = tried_pushes(g, t.boxes, stand(g.w, t.player));
        lemma_run_heap(g, boxes, player, before);
        lemma_without_first(m.frontier);
        lemma_without_first_holds(m.frontier, n);
        lemma_with_children(g, waiting, t, pushes, pushes.len() as int);
        assert(m.frontier.contains(t));
        lemma_run_trail(g, boxes, player, before, t);
        if m.frontier.contains(n) {
            lemma_run_trail(g, boxes, player, before, n);
        } else {
            let j = choose|j: int|
                0 <= j < pushes.len() && n == #[trigger] child(g, t, pushes[j]);
            let p = pushes[j];
            let from = stand(g.w, t.player);
            lemma_tried(g, t.boxes, from, j);
            let (b, d) = choose|b: Cell, d: int| #[trigger] is_push(g, t.boxes, from, p, b, d);
            lemma_tried_shape(g, t.boxes, from, p, b, d);
            lemma_straight(g, t.boxes, from, p, b, d);
            lemma_playable_tried(g, start, t.path, t.boxes, t.player, p, b, d);
            lemma_run_counted(g, boxes, player, k, n);
            lemma_counted_moves(g.w, g.h, g.walls, start.player, boxes, n.path, n.cost);
            assert(n.path.drop_last() =~= t.path);
            assert(total_steps(n.path) == n.cost);
            lemma_trail_more(g, start, t.path, p);
        }
    }
}

/// One more push on a trail.
proof fn lemma_trail_more(g: Ground, start: Position, path: Seq<Push>, p: Push)
    requires
        is_trail(g, start, path),
        prefix_plays(g, start, path.push(p)),
        is_straight(g, boxes_after(g.w, start.boxes, path), p),
    ensures
        is_trail(g, start, path.push(p)),
        total_steps(path.push(p)) == total_steps(path) + p.steps,
{
    let more = path.push(p);
    assert(more.drop_last() =~= path);
    assert forall|k: int| 0 <= k <= more.len() implies #[trigger] prefix_plays(
        g,
        start,
        more.take(k),
    ) by {
        if k < more.len() {
            assert(more.take(k) =~= path.take(k));
        } else {
            assert(more.take(k) =~= more);
        }
    }
    assert forall|k: int| 0 <= k < more.len() implies is_straight(
        g,
        boxes_after(g.w, start.boxes, more.take(k)),
        #[trigger] more[k],
    ) by {
        if k < path.len() {
            assert(more.take(k) =~= path.take(k));
            assert(more[k] == path[k]);
        } else {
            assert(more.take(k) =~= path);
        }
    }
}

/// The moves of the first pushes come first among the moves of all.
proof fn lemma_moves_prefix(
    w: u8,
    h: u8,
    walls: Seq<bool>,
    start: Cell,
    boxes: Seq<bool>,
    path: Seq<Push>,
    k: int,
)
    requires
        0 <= k <= path.len(),
    ensures
        ({
            let all = moves_for(w, h, walls, start, boxes, path);
            let part = moves_for(w, h, walls, start, boxes, path.take(k));
            part.len() <= all.len() && all.take(part.len() as int) == part
        }),
    decreases path.len() - k,
{
    let all = moves_for(w, h, walls, start, boxes, path);
    let part = moves_for(w, h, walls, start, boxes, path.take(k));
    if k == path.len() {
        assert(path.take(k) =~= path);
        assert(all.take(all.len() as int) =~= all);
    } else {
        lemma_moves_prefix(w, h, walls, start, boxes, path, k + 1);
        assert(path.take(k + 1).drop_last() =~= path.take(k));
        let longer = moves_for(w, h, walls, start, boxes, path.take(k + 1));
        assert(longer.take(part.len() as int) =~= part);
        assert(all.take(part.len() as int) =~= all.take(longer.len() as int).take(
            part.len() as int,
        ));
    }
}

/// The push list of a solution is that of its moves, push by push and in order. Each push takes a
/// box that the pushes before it have left there, the first pushes leave the boxes as the moves up
/// to some point do, by as many single pushes, and all of them leave a box on every goal.
pub proof fn law_push_list_is_that_of_the_moves(
    g: Ground,
    boxes: Seq<bool>,
    player: int,
    limit: int,
    r: &SolverResult,
)
    requires
        g.w * g.h <= boxes.len(),
        is_result(g, boxes, player, limit, r),
    ensures
        r.pushes@.len() % 4 == 0,
        forall|k: int|
            0 <= k < r.pushes@.len() / 4 ==> #[trigger] can_be_made(
                g,
                pushed(g.w, boxes, r.pushes@, k),
                r.pushes@,
                k,
            ),
        forall|k: int|
            0 <= k <= r.pushes@.len() / 4 ==> #[trigger] keeps_pace(
                g,
                Position { player: stand(g.w, player), boxes },
                r.moves@,
                r.pushes@,
                k,
            ),
        listed_steps(r.pushes@, r.pushes@.len() as int / 4) == pushes_in(r.moves@),
        r.solved ==> is_goal_state(
            g,
            pushed(g.w, boxes, r.pushes@, r.pushes@.len() as int / 4),
        ),
{
    if !is_goal_state(g, boxes) && r.solved {
        let (k, n) = choose|k: nat, n: NodeModel| #[trigger]
            finds(g, begin(g, boxes, player), limit, k, n) && r.push_count == n.cost
                % 0x1_0000_0000 && r.pushes@ == push_bytes(n.path) && r.moves@ == moves_for(
                g.w,
                g.h,
                g.walls,
                stand(g.w, player),
                boxes,
                n.path,
            );
        lemma_found_list(g, boxes, player, limit, k, n);
    } else {
        let start = Position { player: stand(g.w, player), boxes };
        lemma_empty_list(g, start, r.moves@, r.pushes@);
    }
}

/// The list of a solution that is found.
proof fn lemma_found_list(
    g: Ground,
    boxes: Seq<bool>,
    player: int,
    limit: int,
    k: nat,
    n: NodeModel,
)
    requires
        g.w * g.h <= boxes.len(),
        finds(g, begin(g, boxes, player), limit, k, n),
    ensures
        ({
            let start = Position { player: stand(g.w, player), boxes };
            let list = push_bytes(n.path);
            let moves = moves_for(g.w, g.h, g.walls, stand(g.w, player), boxes, n.path);
            let m = n.path.len() as int;
            &&& list.len() == 4 * m
            &&& forall|j: int|
                0 <= j < m ==> #[trigger] can_be_made(g, pushed(g.w, boxes, list, j), list, j)
            &&& forall|j: int| 0 <= j <= m ==> #[trigger] keeps_pace(g, start, moves, list, j)
            &&& listed_steps(list, m) == pushes_in(moves)
            &&& is_goal_state(g, pushed(g.w, boxes, list, m))
        }),
{
    let start = Position { player: stand(g.w, player), boxes };
    let s = run(g, begin(g, boxes, player), k)->0;
    let m = n.path.len() as int;
    assert(s.frontier.contains(s.frontier[0]));
    lemma_run_trail(g, boxes, player, k, n);
    lemma_listed(g, start, n.path);
    assert(n.path.take(m) =~= n.path);
    lemma_pushed(g.w, boxes, n.path, m);
    lemma_listed_steps(g, start, n.path, m);
    assert(prefix_plays(g, start, n.path.take(m)));
}

/// Without moves and pushes all is as at the start.
proof fn lemma_empty_list(g: Ground, start: Position, moves: Seq<char>, list: Seq<u8>)
    requires
        moves.len() == 0,
        list.len() == 0,
    ensures
        keeps_pace(g, start, moves, list, 0),
        pushed(g.w, start.boxes, list, 0) == start.boxes,
        listed_steps(list, 0) == 0,
        pushes_in(moves) == 0,
{
    assert(moves.take(0) =~= moves);
    assert(play(g.w, g.h, g.walls, start, moves) == Some(start));
    assert(pushed(g.w, start.boxes, list, 0) == start.boxes);
    assert(listed_steps(list, 0) == 0);
    assert(moves_lead_to(
        g,
        start,
        moves,
        0,
        listed_steps(list, 0),
        pushed(g.w, start.boxes, list, 0),
    ));
}

proof fn lemma_listed_steps(g: Ground, start: Position, path: Seq<Push>, k: int)
    requires
        is_trail(g, start, path),
        0 <= k <= path.len(),
    ensures
        listed_steps(push_bytes(path), k) == total_steps(path.take(k)),
    decreases k,
{
    if k > 0 {
        lemma_listed_steps(g, start, path, k - 1);
        lemma_push_bytes(path, k - 1);
        assert(path.take(k).drop_last() =~= path.take(k - 1));
        assert(is_straight(g, boxes_after(g.w, start.boxes, path.take(k - 1)), path[k - 1]));
    }
}

/// The list of a trail.
proof fn lemma_listed(g: Ground, start: Position, path: Seq<Push>)
    requires
        is_trail(g, start, path),
    ensures
        push_bytes(path).len() == 4 * path.len(),
        forall|k: int|
            0 <= k < path.len() ==> #[trigger] can_be_made(
                g,
                pushed(g.w, start.boxes, push_bytes(path), k),
                push_bytes(path),
                k,
            ),
        forall|k: int|
            0 <= k <= path.len() ==> #[trigger] keeps_pace(
                g,
                start,
                moves_for(g.w, g.h, g.walls, start.player, start.boxes, path),
                push_bytes(path),
                k,
            ),
{
    let list = push_bytes(path);
    let moves = moves_for(g.w, g.h, g.walls, start.player, start.boxes, path);
    lemma_push_bytes_len(path);
    assert forall|k: int| 0 <= k < path.len() implies #[trigger] can_be_made(
        g,
        pushed(g.w, start.boxes, list, k),
        list,
        k,
    ) by {
        lemma_pushed(g.w, start.boxes, path, k);
        lemma_push_bytes(path, k);
        assert(is_straight(g, boxes_after(g.w, start.boxes, path.take(k)), path[k]));
    }
    assert forall|k: int| 0 <= k <= path.len() implies #[trigger] keeps_pace(
        g,
        start,
        moves,
        list,
        k,
    ) by {
        lemma_pushed(g.w, start.boxes, path, k);
        lemma_listed_steps(g, start, path, k);
        lemma_moves_prefix(g.w, g.h, g.walls, start.player, start.boxes, path, k);
        assert(prefix_plays(g, start, path.take(k)));
        let part = moves_for(g.w, g.h, g.walls, start.player, start.boxes, path.take(k));
        assert(moves_lead_to(
            g,
            start,
            moves,
            part.len() as int,
            listed_steps(list, k),
            pushed(g.w, start.boxes, list, k),
        ));
    }
}

} // verus!
