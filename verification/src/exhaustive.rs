//! What a search keeps: whatever pushes lead to from an expanded state is expanded or waits, at no
//! higher cost than by these pushes.

use vstd::prelude::*;

use crate::closed_edge::Ground;
use crate::corral::{board, corralled};
use crate::deadlock_sets::overflows;
use crate::estimate::{estimate, normal};
use crate::freeze::freezes;
use crate::frontier::{
    inserted, is_heap, lemma_inserted, lemma_inserted_holds, lemma_without_first,
    lemma_without_first_holds, without_first, NodeModel,
};
use crate::grid::at;
use crate::moves::{boxes_after, moves_for, stand, Push};
use crate::pushes::{boxes_of, tried_pushes};
use crate::rules::moved;
use crate::search::{
    after, begin, child, fails, finds, is_goal_state, is_result, is_settled, push_bytes, root, run,
    state_of, survives, with_children, Search, SolverResult,
};
use crate::solver::{goals_of, sets_of};
use crate::table::StateModel;

verus! {

/// The push can be made in the state, and is not seen to lead into a deadlock.
pub open spec fn allows(g: Ground, s: StateModel, p: Push) -> bool {
    &&& tried_pushes(g, s.boxes, stand(g.w, s.player)).contains(p)
    &&& survives(g, s.boxes, p)
}

/// The state that a push leads to.
pub open spec fn next_state(g: Ground, s: StateModel, p: Push) -> StateModel {
    let boxes = moved(g.w, s.boxes, p.from(), p.to());
    StateModel { boxes, player: normal(g, boxes, p.from_flat as int) }
}

/// The state before the first push.
pub open spec fn first_state(g: Ground, boxes: Seq<bool>, player: int) -> StateModel {
    StateModel { boxes, player: normal(g, boxes, player) }
}

/// The state after a sequence of pushes, if each of them is allowed.
pub open spec fn push_states(g: Ground, s: StateModel, pushes: Seq<Push>) -> Option<StateModel>
    decreases pushes.len(),
{
    if pushes.len() == 0 {
        Some(s)
    } else {
        match push_states(g, s, pushes.drop_last()) {
            Some(m) => if allows(g, m, pushes.last()) {
                Some(next_state(g, m, pushes.last()))
            } else {
                None
            },
            None => None,
        }
    }
}

/// Number of cells that some pushes move boxes.
pub open spec fn total_steps(pushes: Seq<Push>) -> int
    decreases pushes.len(),
{
    if pushes.len() == 0 {
        0
    } else {
        total_steps(pushes.drop_last()) + pushes.last().steps
    }
}

/// A node with the state waits, with an estimate of at most `bound`.
pub open spec fn waits_within(s: Search, a: StateModel, bound: int) -> bool {
    exists|n: NodeModel| s.frontier.contains(n) && #[trigger] state_of(n) == a && n.f <= bound
}

/// The state was expanded with an estimate of at most `bound`.
pub open spec fn expanded_within(s: Search, a: StateModel, bound: int) -> bool {
    s.visited.contains_key(a) && s.visited[a] <= bound
}

/// The state was expanded, or a node with it waits.
spec fn seen_within(s: Search, a: StateModel, bound: int) -> bool {
    expanded_within(s, a, bound) || waits_within(s, a, bound)
}

/// The estimate for the state that a push leads to from an expanded one.
spec fn bound_after(g: Ground, s: Search, a: StateModel, p: Push) -> int {
    s.visited[a] - estimate(g, a.boxes) + p.steps + estimate(g, next_state(g, a, p).boxes)
}

/// The waiting nodes are a heap, each with its estimate; every state that an allowed push from an
/// expanded state leads to is seen, and no expanded state is a solution.
spec fn is_closed(g: Ground, s: Search) -> bool {
    &&& is_heap(s.frontier)
    &&& forall|n: NodeModel| #[trigger]
        s.frontier.contains(n) ==> n.f == n.cost + estimate(g, n.boxes) && 0 <= n.cost
    &&& forall|a: StateModel, p: Push|
        s.visited.contains_key(a) && #[trigger] allows(g, a, p) ==> seen_within(
            s,
            next_state(g, a, p),
            bound_after(g, s, a, p),
        )
    &&& forall|a: StateModel| #[trigger]
        s.visited.contains_key(a) ==> !is_goal_state(g, a.boxes)
}

/// Which nodes wait after an expansion.
pub proof fn lemma_with_children(
    g: Ground,
    waiting: Seq<NodeModel>,
    n: NodeModel,
    pushes: Seq<Push>,
    k: int,
)
    requires
        is_heap(waiting),
        0 <= k <= pushes.len(),
    ensures
        is_heap(with_children(g, waiting, n, pushes, k)),
        forall|m: NodeModel| #[trigger]
            waiting.contains(m) ==> with_children(g, waiting, n, pushes, k).contains(m),
        forall|j: int|
            0 <= j < k && survives(g, n.boxes, pushes[j]) ==> with_children(
                g,
                waiting,
                n,
                pushes,
                k,
            ).contains(#[trigger] child(g, n, pushes[j])),
        forall|m: NodeModel| #[trigger]
            with_children(g, waiting, n, pushes, k).contains(m) ==> waiting.contains(m) || exists|
                j: int,
            |
                0 <= j < k && m == #[trigger] child(g, n, pushes[j]) && survives(
                    g,
                    n.boxes,
                    pushes[j],
                ),
    decreases k,
{
    if k > 0 {
        lemma_with_children(g, waiting, n, pushes, k - 1);
        let before = with_children(g, waiting, n, pushes, k - 1);
        let all = with_children(g, waiting, n, pushes, k);
        let c = child(g, n, pushes[k - 1]);
        if survives(g, n.boxes, pushes[k - 1]) {
            lemma_inserted(before, c);
            assert forall|m: NodeModel| #[trigger]
                inserted(before, c).contains(m) <==> m == c || before.contains(m) by {
                lemma_inserted_holds(before, c, m);
            }
        }
        assert forall|m: NodeModel| #[trigger] all.contains(m) implies waiting.contains(m)
            || exists|j: int|
            0 <= j < k && m == #[trigger] child(g, n, pushes[j]) && survives(
                g,
                n.boxes,
                pushes[j],
            ) by {
            if before.contains(m) {
                if !waiting.contains(m) {
                    let j = choose|j: int|
                        0 <= j < k - 1 && m == #[trigger] child(g, n, pushes[j]) && survives(
                            g,
                            n.boxes,
                            pushes[j],
                        );
                    assert(m == child(g, n, pushes[j]));
                }
            } else {
                assert(m == child(g, n, pushes[k - 1]));
            }
        }
        assert forall|j: int| 0 <= j < k && survives(g, n.boxes, pushes[j]) implies all.contains(
            #[trigger] child(g, n, pushes[j]),
        ) by {
            if j < k - 1 {
                assert(before.contains(child(g, n, pushes[j])));
            }
        }
    }
}

/// A waiting node that is not taken goes on waiting.
proof fn lemma_still_waits(g: Ground, s: Search, m: NodeModel)
    requires
        is_heap(s.frontier),
        s.frontier.len() > 0,
        s.frontier.contains(m),
        m != s.frontier[0],
    ensures
        after(g, s).frontier.contains(m),
{
    let n = s.frontier[0];
    let waiting = without_first(s.frontier);
    let pushes = tried_pushes(g, n.boxes, stand(g.w, n.player));
    lemma_without_first(s.frontier);
    lemma_without_first_holds(s.frontier, m);
    lemma_with_children(g, waiting, n, pushes, pushes.len() as int);
}

/// Taking a node keeps what was seen.
proof fn lemma_still_seen(g: Ground, s: Search, a: StateModel, bound: int)
    requires
        is_heap(s.frontier),
        s.frontier.len() > 0,
        seen_within(s, a, bound),
    ensures
        seen_within(after(g, s), a, bound),
{
    let t = after(g, s);
    if waits_within(s, a, bound) {
        let m = choose|m: NodeModel|
            s.frontier.contains(m) && #[trigger] state_of(m) == a && m.f <= bound;
        if m != s.frontier[0] {
            lemma_still_waits(g, s, m);
            assert(state_of(m) == a);
            assert(waits_within(t, a, bound));
        } else {
            assert(expanded_within(t, a, bound));
        }
    } else {
        assert(expanded_within(t, a, bound));
    }
}

/// Taking a node that is no solution keeps the search closed.
proof fn lemma_taken(g: Ground, s: Search)
    requires
        is_closed(g, s),
        s.frontier.len() > 0,
        !is_goal_state(g, s.frontier[0].boxes),
    ensures
        is_closed(g, after(g, s)),
{
    let n = s.frontier[0];
    let t = after(g, s);
    let waiting = without_first(s.frontier);
    let pushes = tried_pushes(g, n.boxes, stand(g.w, n.player));
    lemma_without_first(s.frontier);
    lemma_with_children(g, waiting, n, pushes, pushes.len() as int);
    assert(s.frontier.contains(n));
    assert forall|m: NodeModel| #[trigger] t.frontier.contains(m) implies m.f == m.cost + estimate(
        g,
        m.boxes,
    ) && 0 <= m.cost by {
        if waiting.contains(m) {
            lemma_without_first_holds(s.frontier, m);
        }
    }
    assert forall|a: StateModel, p: Push|
        t.visited.contains_key(a) && #[trigger] allows(g, a, p) implies seen_within(
        t,
        next_state(g, a, p),
        bound_after(g, t, a, p),
    ) by {
        let b = next_state(g, a, p);
        if !is_settled(s, n) && a == state_of(n) {
            let j = choose|j: int| 0 <= j < pushes.len() && pushes[j] == p;
            let c = child(g, n, pushes[j]);
            assert(t.frontier.contains(c));
            assert(state_of(c) == b);
            assert(c.f == bound_after(g, t, a, p));
        } else {
            assert(seen_within(s, b, bound_after(g, s, a, p)));
            lemma_still_seen(g, s, b, bound_after(g, s, a, p));
        }
    }
    assert forall|a: StateModel| #[trigger] t.visited.contains_key(a) implies !is_goal_state(
        g,
        a.boxes,
    ) by {
        assert(s.visited.contains_key(a) || a == state_of(n));
    }
}

proof fn lemma_run_closed(g: Ground, boxes: Seq<bool>, player: int, k: nat)
    requires
        run(g, begin(g, boxes, player), k) is Some,
    ensures
        ({
            let s = run(g, begin(g, boxes, player), k)->0;
            &&& is_closed(g, s)
            &&& seen_within(s, first_state(g, boxes, player), estimate(g, boxes))
        }),
    decreases k,
{
    let start = begin(g, boxes, player);
    if k == 0 {
        let r = root(g, boxes, player);
        assert(start.frontier[0] == r);
        assert(start.frontier.contains(r));
        assert(state_of(r) == first_state(g, boxes, player));
        assert(waits_within(start, first_state(g, boxes, player), estimate(g, boxes)));
    } else {
        lemma_run_closed(g, boxes, player, (k - 1) as nat);
        let m = run(g, start, (k - 1) as nat)->0;
        lemma_taken(g, m);
        lemma_still_seen(g, m, first_state(g, boxes, player), estimate(g, boxes));
    }
}

/// The waiting nodes of a search are a heap.
pub proof fn lemma_run_heap(g: Ground, boxes: Seq<bool>, player: int, k: nat)
    requires
        run(g, begin(g, boxes, player), k) is Some,
    ensures
        is_heap((run(g, begin(g, boxes, player), k)->0).frontier),
{
    lemma_run_closed(g, boxes, player, k);
}

/// A waiting node has its cost, which is not negative, and the estimate for its boxes.
pub proof fn lemma_run_estimates(g: Ground, boxes: Seq<bool>, player: int, k: nat, n: NodeModel)
    requires
        run(g, begin(g, boxes, player), k) is Some,
        (run(g, begin(g, boxes, player), k)->0).frontier.contains(n),
    ensures
        n.f == n.cost + estimate(g, n.boxes),
        0 <= n.cost,
{
    lemma_run_closed(g, boxes, player, k);
}

/// A node waits with the state after the first `i` of some pushes, and an estimate no higher than
/// by these pushes.
pub open spec fn waits_at(
    g: Ground,
    s: Search,
    first: StateModel,
    pushes: Seq<Push>,
    i: int,
) -> bool {
    match push_states(g, first, pushes.take(i)) {
        Some(a) => waits_within(s, a, total_steps(pushes.take(i)) + estimate(g, a.boxes)),
        None => false,
    }
}

/// The states after the first pushes are expanded, up to one that waits.
proof fn lemma_expanded_up_to(
    g: Ground,
    s: Search,
    first: StateModel,
    pushes: Seq<Push>,
    i: int,
)
    requires
        is_closed(g, s),
        seen_within(s, first, estimate(g, first.boxes)),
        0 <= i <= pushes.len(),
        push_states(g, first, pushes.take(i)) is Some,
        forall|j: int| 0 <= j <= i ==> !#[trigger] waits_at(g, s, first, pushes, j),
    ensures
        ({
            let a = push_states(g, first, pushes.take(i))->0;
            expanded_within(s, a, total_steps(pushes.take(i)) + estimate(g, a.boxes))
        }),
    decreases i,
{
    assert(!waits_at(g, s, first, pushes, i));
    if i == 0 {
        assert(pushes.take(0) =~= Seq::<Push>::empty());
    } else {
        assert(pushes.take(i).drop_last() =~= pushes.take(i - 1));
        lemma_expanded_up_to(g, s, first, pushes, i - 1);
        let m = push_states(g, first, pushes.take(i - 1))->0;
        let p = pushes.take(i).last();
        assert(allows(g, m, p));
        assert(seen_within(s, next_state(g, m, p), bound_after(g, s, m, p)));
    }
}

/// As long as no solution is taken, some node waits whose state is on the way of pushes that solve
/// the level, with an estimate no higher than by these pushes.
pub proof fn lemma_waits_on_the_way(
    g: Ground,
    boxes: Seq<bool>,
    player: int,
    k: nat,
    pushes: Seq<Push>,
) -> (i: int)
    requires
        run(g, begin(g, boxes, player), k) is Some,
        push_states(g, first_state(g, boxes, player), pushes) is Some,
        is_goal_state(g, (push_states(g, first_state(g, boxes, player), pushes)->0).boxes),
    ensures
        0 <= i <= pushes.len(),
        waits_at(
            g,
            run(g, begin(g, boxes, player), k)->0,
            first_state(g, boxes, player),
            pushes,
            i,
        ),
{
    let s = run(g, begin(g, boxes, player), k)->0;
    let first = first_state(g, boxes, player);
    let n = pushes.len() as int;
    lemma_run_closed(g, boxes, player, k);
    assert(pushes.take(n) =~= pushes);
    if forall|j: int| 0 <= j <= n ==> !#[trigger] waits_at(g, s, first, pushes, j) {
        lemma_expanded_up_to(g, s, first, pushes, n);
        assert(s.visited.contains_key(push_states(g, first, pushes)->0));
    }
    choose|j: int| 0 <= j <= n && #[trigger] waits_at(g, s, first, pushes, j)
}

/// A search that ends without a solution has used up its limit, or no pushes solve the level that
/// are not seen to lead into a deadlock.
pub proof fn law_exhausted_search_misses_nothing(
    g: Ground,
    boxes: Seq<bool>,
    player: int,
    limit: int,
    r: &SolverResult,
    pushes: Seq<Push>,
)
    requires
        is_result(g, boxes, player, limit, r),
        !r.solved,
        push_states(g, first_state(g, boxes, player), pushes) is Some,
        is_goal_state(g, (push_states(g, first_state(g, boxes, player), pushes)->0).boxes),
    ensures
        0 <= limit,
        run(g, begin(g, boxes, player), limit as nat) is Some,
{
    let start = begin(g, boxes, player);
    let k = choose|k: nat| #[trigger] fails(g, start, limit, k);
    let s = run(g, start, k)->0;
    let i = lemma_waits_on_the_way(g, boxes, player, k, pushes);
    assert(waits_at(g, s, first_state(g, boxes, player), pushes, i));
}

// ── Limits ────────────────────────────────────────────────────────────────

/// A search goes no further than to a solution or the last waiting node.
proof fn lemma_run_stops(g: Ground, start: Search, j: nat, k: nat)
    requires
        run(g, start, k) is Some,
        j < k,
    ensures
        run(g, start, j) is Some,
        (run(g, start, j)->0).frontier.len() > 0,
        !is_goal_state(g, (run(g, start, j)->0).frontier[0].boxes),
    decreases k,
{
    if j < k - 1 {
        lemma_run_stops(g, start, j, (k - 1) as nat);
    }
}

/// A larger limit keeps a solution that was found.
pub proof fn law_larger_limit_finds_the_same(
    g: Ground,
    start: Search,
    n: int,
    m: int,
    k: nat,
    node: NodeModel,
)
    requires
        finds(g, start, n, k, node),
        n <= m,
    ensures
        finds(g, start, m, k, node),
{
}

/// A result without a solution is empty, and without a single node only a level that is solved from
/// the start has a result, which takes no moves.
pub proof fn law_result_without_search_is_empty(
    g: Ground,
    boxes: Seq<bool>,
    player: int,
    limit: int,
    r: &SolverResult,
)
    requires
        is_result(g, boxes, player, limit, r),
    ensures
        !r.solved || limit <= 0 ==> r.push_count == 0 && r.pushes@.len() == 0 && r.moves@.len() == 0,
        limit <= 0 ==> (r.solved <==> is_goal_state(g, boxes)),
        is_goal_state(g, boxes) ==> r.solved,
{
}

/// A result that is solved stays as it is with a larger limit, and the result for a limit is only
/// one.
pub proof fn law_larger_limit_keeps_the_result(
    g: Ground,
    boxes: Seq<bool>,
    player: int,
    n: int,
    m: int,
    a: &SolverResult,
    b: &SolverResult,
)
    requires
        n <= m,
        is_result(g, boxes, player, n, a),
        is_result(g, boxes, player, m, b),
        a.solved || n == m,
    ensures
        a.solved == b.solved,
        a.push_count == b.push_count,
        a.pushes@ == b.pushes@,
        a.moves@ == b.moves@,
{
    let start = begin(g, boxes, player);
    if !is_goal_state(g, boxes) {
        if a.solved {
            let (i, x) = choose|i: nat, x: NodeModel| #[trigger]
                finds(g, start, n, i, x) && a.push_count == x.cost % 0x1_0000_0000 && a.pushes@
                    == push_bytes(x.path) && a.moves@ == moves_for(
                    g.w,
                    g.h,
                    g.walls,
                    stand(g.w, player),
                    boxes,
                    x.path,
                );
            lemma_result_found(g, boxes, player, m, b, i, x);
        } else if b.solved {
            let (i, x) = choose|i: nat, x: NodeModel| #[trigger] finds(g, start, m, i, x);
            lemma_result_found(g, boxes, player, n, a, i, x);
        } else {
            assert(a.pushes@ =~= b.pushes@);
            assert(a.moves@ =~= b.moves@);
        }
    } else {
        assert(a.pushes@ =~= b.pushes@);
        assert(a.moves@ =~= b.moves@);
    }
}

/// Where a solution is found within the limit, the result is that one.
proof fn lemma_result_found(
    g: Ground,
    boxes: Seq<bool>,
    player: int,
    limit: int,
    r: &SolverResult,
    i: nat,
    x: NodeModel,
)
    requires
        !is_goal_state(g, boxes),
        is_result(g, boxes, player, limit, r),
        finds(g, begin(g, boxes, player), limit, i, x),
    ensures
        r.solved,
        r.push_count == x.cost % 0x1_0000_0000,
        r.pushes@ == push_bytes(x.path),
        r.moves@ == moves_for(
            g.w,
            g.h,
            g.walls,
            stand(g.w, player),
            boxes,
            x.path,
        ),
{
    let start = begin(g, boxes, player);
    if r.solved {
        let (j, y) = choose|j: nat, y: NodeModel| #[trigger]
            finds(g, start, limit, j, y) && r.push_count == y.cost % 0x1_0000_0000 && r.pushes@
                == push_bytes(y.path) && r.moves@ == moves_for(
                g.w,
                g.h,
                g.walls,
                stand(g.w, player),
                boxes,
                y.path,
            );
        if i < j {
            lemma_run_stops(g, start, i, j);
        } else if j < i {
            lemma_run_stops(g, start, j, i);
        }
    } else {
        let j = choose|j: nat| #[trigger] fails(g, start, limit, j);
        if i < j {
            lemma_run_stops(g, start, i, j);
        } else if j < i {
            lemma_run_stops(g, start, j, i);
        }
    }
}

/// After `k` steps of a search a waiting node has at most `k` pushes, its boxes are where these put
/// them, and it waits by the cells that boxes were pushed and the estimate for what is left. With no
/// more boxes than goals its last push has led into no deadlock: not onto a dead square, not over
/// the capacity of a set, not into a frozen group, and not to a corral.
pub proof fn law_waiting_nodes_are_no_deadlocks(
    g: Ground,
    boxes: Seq<bool>,
    player: int,
    k: nat,
    n: NodeModel,
)
    requires
        run(g, begin(g, boxes, player), k) is Some,
        (run(g, begin(g, boxes, player), k)->0).frontier.contains(n),
    ensures
        n.path.len() <= k,
        n.boxes == boxes_after(g.w, boxes, n.path),
        n.f == total_steps(n.path) + estimate(g, n.boxes),
        n.path.len() > 0 && boxes_of(g, boxes_after(g.w, boxes, n.path.drop_last())).len()
            <= goals_of(g).len() ==> {
            let p = n.path.last();
            &&& !at(g.dead, g.w, p.to())
            &&& !overflows(sets_of(g), g.w, n.boxes, p.to())
            &&& !freezes(board(g, n.boxes), g.goals, p.to())
            &&& !corralled(g, n.boxes, stand(g.w, p.from_flat as int))
        },
    decreases k,
{
    let start = begin(g, boxes, player);
    lemma_run_estimates(g, boxes, player, k, n);
    lemma_run_costs(g, boxes, player, k, n);
    if k > 0 {
        let before = (k - 1) as nat;
        let m = run(g, start, before)->0;
        let t = m.frontier[0];
        let waiting = without_first(m.frontier);
        let pushes = tried_pushes(g, t.boxes, stand(g.w, t.player));
        lemma_run_heap(g, boxes, player, before);
        lemma_without_first(m.frontier);
        lemma_without_first_holds(m.frontier, n);
        lemma_with_children(g, waiting, t, pushes, pushes.len() as int);
        assert(m.frontier.contains(t));
        law_waiting_nodes_are_no_deadlocks(g, boxes, player, before, t);
        if m.frontier.contains(n) {
            law_waiting_nodes_are_no_deadlocks(g, boxes, player, before, n);
        } else {
            let j = choose|j: int|
                0 <= j < pushes.len() && n == #[trigger] child(g, t, pushes[j]) && survives(
                    g,
                    t.boxes,
                    pushes[j],
                );
            assert(n.path.drop_last() =~= t.path);
        }
    }
}

/// The cost of a waiting node is the number of cells that its pushes move boxes.
proof fn lemma_run_costs(g: Ground, boxes: Seq<bool>, player: int, k: nat, n: NodeModel)
    requires
        run(g, begin(g, boxes, player), k) is Some,
        (run(g, begin(g, boxes, player), k)->0).frontier.contains(n),
    ensures
        n.cost == total_steps(n.path),
    decreases k,
{
    let start = begin(g, boxes, player);
    if k > 0 {
        let before = (k - 1) as nat;
        let m = run(g, start, before)->0;
        let t = m.frontier[0];
        let waiting = without_first(m.frontier);
        let pushes = tried_pushes(g, t.boxes, stand(g.w, t.player));
        lemma_run_heap(g, boxes, player, before);
        lemma_without_first(m.frontier);
        lemma_without_first_holds(m.frontier, n);
        lemma_with_children(g, waiting, t, pushes, pushes.len() as int);
        assert(m.frontier.contains(t));
        lemma_run_costs(g, boxes, player, before, t);
        if m.frontier.contains(n) {
            lemma_run_costs(g, boxes, player, before, n);
        } else {
            let j = choose|j: int|
                0 <= j < pushes.len() && n == #[trigger] child(g, t, pushes[j]);
            assert(n.path.drop_last() =~= t.path);
        }
    }
}

/// The list of pushes has four numbers for each.
proof fn lemma_push_bytes_len(path: Seq<Push>)
    ensures
        push_bytes(path).len() == 4 * path.len(),
    decreases path.len(),
{
    if path.len() > 0 {
        lemma_push_bytes_len(path.drop_last());
    }
}

/// A search takes the nodes one by one up to its limit: a solution that it finds lists fewer pushes
/// than that, or the level was solved from the start.
pub proof fn law_search_keeps_its_limit(
    g: Ground,
    boxes: Seq<bool>,
    player: int,
    limit: int,
    r: &SolverResult,
)
    requires
        is_result(g, boxes, player, limit, r),
        !is_goal_state(g, boxes),
        r.solved,
    ensures
        0 < r.pushes@.len() < 4 * limit,
        r.pushes@.len() % 4 == 0,
{
    let start = begin(g, boxes, player);
    let (k, n) = choose|k: nat, n: NodeModel| #[trigger]
        finds(g, start, limit, k, n) && r.push_count == n.cost % 0x1_0000_0000 && r.pushes@
            == push_bytes(n.path) && r.moves@ == moves_for(
            g.w,
            g.h,
            g.walls,
            stand(g.w, player),
            boxes,
            n.path,
        );
    let s = run(g, start, k)->0;
    assert(s.frontier.contains(s.frontier[0]));
    law_waiting_nodes_are_no_deadlocks(g, boxes, player, k, n);
    lemma_push_bytes_len(n.path);
    if n.path.len() == 0 {
        assert(n.boxes == boxes);
    }
}

/// What was expanded stays expanded, at no higher estimate.
proof fn lemma_visited_stays(g: Ground, start: Search, j: nat, k: nat, a: StateModel, f: int)
    requires
        j <= k,
        run(g, start, k) is Some,
        run(g, start, j) is Some,
        (run(g, start, j)->0).visited.contains_key(a),
        (run(g, start, j)->0).visited[a] <= f,
    ensures
        (run(g, start, k)->0).visited.contains_key(a),
        (run(g, start, k)->0).visited[a] <= f,
    decreases k,
{
    if j < k {
        lemma_visited_stays(g, start, j, (k - 1) as nat, a, f);
    }
}

/// No state is expanded twice, unless a better way to it was found: a node that is taken after
/// another one with the same boxes and the same region of the player, at no lower estimate, adds
/// nothing.
pub proof fn law_no_state_is_expanded_twice(g: Ground, start: Search, j: nat, k: nat)
    requires
        j < k,
        run(g, start, k + 1) is Some,
        run(g, start, k) is Some,
        run(g, start, j) is Some,
        ({
            let first = (run(g, start, j)->0).frontier[0];
            let later = (run(g, start, k)->0).frontier[0];
            first.boxes == later.boxes && first.player == later.player && first.f <= later.f
        }),
    ensures
        (run(g, start, k + 1)->0).frontier == without_first((run(g, start, k)->0).frontier),
{
    let first = (run(g, start, j)->0).frontier[0];
    lemma_run_before(g, start, j + 1, k);
    lemma_visited_stays(g, start, j + 1, k, state_of(first), first.f);
}

proof fn lemma_run_before(g: Ground, start: Search, j: nat, k: nat)
    requires
        j <= k,
        run(g, start, k) is Some,
    ensures
        run(g, start, j) is Some,
    decreases k,
{
    if j < k {
        lemma_run_before(g, start, j, (k - 1) as nat);
    }
}

} // verus!
