//! The number of pushes that a search reports is that of the moves it finds.

use vstd::prelude::*;

use crate::closed_edge::Ground;
use crate::exhaustive::{lemma_run_heap, lemma_with_children};
use crate::frontier::{
    lemma_without_first, lemma_without_first_holds, without_first, NodeModel,
};
use crate::grid::Cell;
use crate::moves::{boxes_after, moves_for, player_after, stand, walk_dirs, walk_letters, Push};
use crate::pushes::tried_pushes;
use crate::replay::{is_push, lemma_tried_shape};
use crate::rules::letter;
use crate::search::{
    begin, child, finds, is_goal_state, is_result, lemma_tried, run, SolverResult,
};

verus! {

/// Number of pushes among some moves.
pub open spec fn pushes_in(moves: Seq<char>) -> nat
    decreases moves.len(),
{
    if moves.len() == 0 {
        0
    } else {
        let c = moves.last();
        pushes_in(moves.drop_last()) + if c == 'U' || c == 'D' || c == 'L' || c == 'R' {
            1nat
        } else {
            0
        }
    }
}

proof fn lemma_pushes_in_concat(a: Seq<char>, b: Seq<char>)
    ensures
        pushes_in(a + b) == pushes_in(a) + pushes_in(b),
    decreases b.len(),
{
    if b.len() == 0 {
        assert(a + b =~= a);
    } else {
        assert((a + b).drop_last() =~= a + b.drop_last());
        lemma_pushes_in_concat(a, b.drop_last());
    }
}

proof fn lemma_pushes_in_walk(dirs: Seq<int>)
    ensures
        pushes_in(walk_letters(dirs)) == 0,
    decreases dirs.len(),
{
    if dirs.len() > 0 {
        lemma_pushes_in_walk(dirs.drop_last());
        assert(walk_letters(dirs).drop_last() =~= walk_letters(dirs.drop_last()));
    }
}

proof fn lemma_pushes_in_push(n: nat, d: int)
    ensures
        pushes_in(Seq::new(n, |i: int| letter(d, true))) == n,
    decreases n,
{
    if n > 0 {
        lemma_pushes_in_push((n - 1) as nat, d);
        assert(Seq::new(n, |i: int| letter(d, true)).drop_last() =~= Seq::new(
            (n - 1) as nat,
            |i: int| letter(d, true),
        ));
    }
}

/// The steps of some pushes, each of which has a letter for every step.
pub open spec fn counted(path: Seq<Push>, cost: int) -> bool
    decreases path.len(),
{
    if path.len() == 0 {
        cost == 0
    } else {
        &&& pushes_in(path.last().letters()) == path.last().steps
        &&& counted(path.drop_last(), cost - path.last().steps)
    }
}

/// The pushes among the moves of some pushes.
pub proof fn lemma_counted_moves(
    w: u8,
    h: u8,
    walls: Seq<bool>,
    start: Cell,
    boxes: Seq<bool>,
    path: Seq<Push>,
    cost: int,
)
    requires
        counted(path, cost),
    ensures
        pushes_in(moves_for(w, h, walls, start, boxes, path)) == cost,
    decreases path.len(),
{
    if path.len() > 0 {
        let less = path.drop_last();
        let last = path.last();
        lemma_counted_moves(w, h, walls, start, boxes, less, cost - last.steps);
        let dirs = walk_dirs(
            w,
            h,
            walls,
            boxes_after(w, boxes, less),
            player_after(start, less),
            stand(w, last.from_flat as int),
        );
        let before = moves_for(w, h, walls, start, boxes, less);
        lemma_pushes_in_walk(dirs);
        lemma_pushes_in_concat(before, walk_letters(dirs));
        lemma_pushes_in_concat(before + walk_letters(dirs), last.letters());
    }
}

/// A push of the search has a letter for every step.
proof fn lemma_push_counted(g: Ground, boxes: Seq<bool>, player: Cell, k: int)
    requires
        0 <= k < tried_pushes(g, boxes, player).len(),
    ensures
        ({
            let p = tried_pushes(g, boxes, player)[k];
            pushes_in(p.letters()) == p.steps
        }),
{
    let p = tried_pushes(g, boxes, player)[k];
    lemma_tried(g, boxes, player, k);
    let (b, d) = choose|b: Cell, d: int| #[trigger] is_push(g, boxes, player, p, b, d);
    lemma_tried_shape(g, boxes, player, p, b, d);
    lemma_pushes_in_push(p.steps as nat, d);
}

/// The cost of a waiting node is that of its pushes.
pub proof fn lemma_run_counted(g: Ground, boxes: Seq<bool>, player: int, k: nat, n: NodeModel)
    requires
        run(g, begin(g, boxes, player), k) is Some,
        (run(g, begin(g, boxes, player), k)->0).frontier.contains(n),
    ensures
        counted(n.path, n.cost),
    decreases k,
{
    let start = begin(g, boxes, player);
    if k > 0 {
        let before = (k - 1) as nat;
        let m = run(g, start, before)->0;
        let t = m.frontier[0];
        let waiting = without_first(m.frontier);
        let pushes = tried_pushes(g, t.boxes, stand(g.w, t.player));
        lemma_run_heap(g, boxes, player, before);
        lemma_without_first(m.frontier);
        lemma_without_first_holds(m.frontier, n);
        lemma_with_children(g, waiting, t, pushes, pushes.len() as int);
        assert(m.frontier.contains(t));
        lemma_run_counted(g, boxes, player, before, t);
        if m.frontier.contains(n) {
            lemma_run_counted(g, boxes, player, before, n);
        } else {
            let j = choose|j: int|
                0 <= j < pushes.len() && n == #[trigger] child(g, t, pushes[j]);
            lemma_push_counted(g, t.boxes, stand(g.w, t.player), j);
            assert(n.path.drop_last() =~= t.path);
        }
    }
}

/// The number of pushes in a result is that of the pushes among its moves, as far as it fits 32
/// bits.
pub proof fn law_push_count_is_that_of_the_moves(
    g: Ground,
    boxes: Seq<bool>,
    player: int,
    limit: int,
    r: &SolverResult,
)
    requires
        is_result(g, boxes, player, limit, r),
    ensures
        r.push_count == pushes_in(r.moves@) % 0x1_0000_0000,
{
    if !is_goal_state(g, boxes) && r.solved {
        let start = begin(g, boxes, player);
        let (k, n) = choose|k: nat, n: NodeModel| #[trigger]
            finds(g, start, limit, k, n) && r.push_count == n.cost % 0x1_0000_0000 && r.moves@
                == moves_for(g.w, g.h, g.walls, stand(g.w, player), boxes, n.path);
        let s = run(g, start, k)->0;
        assert(s.frontier.contains(s.frontier[0]));
        lemma_run_counted(g, boxes, player, k, n);
        lemma_counted_moves(g.w, g.h, g.walls, stand(g.w, player), boxes, n.path, n.cost);
    }
}

} // verus!
