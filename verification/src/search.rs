//! Best-first search over pushes.
//!
//! The search takes a waiting node of least estimate, and adds the nodes that one push leads to,
//! unless its state was expanded before with an estimate at most as high. Of several nodes with the
//! same estimate it takes the one that a binary heap has first.
//!
//! Pushes that are seen to lead into a deadlock are left out, unless there are more boxes than
//! goals: then a box may be lost.

use vstd::prelude::*;

use crate::bitplane::BitPlane;
use crate::closed_edge::Ground;
use crate::corral::{board, corralled};
use crate::deadlock_sets::overflows;
use crate::estimate::{estimate, normal};
use crate::freeze::{freezes, is_freeze_deadlock};
use crate::frontier::{all_items, inserted, without_first, Frontier, Node, NodeModel};
use crate::grid::{at, lemma_set_cells, on_grid, Cell};
use crate::level::{all_covered, SokobanLevel};
use crate::moves::{moves_for, reconstruct_moves, stand, Push};
use crate::pushes::{
    add_steps, all_pushes, boxes_of, push_of, pushes_of_box, pushes_of_boxes, tried_pushes, with_steps,
    State,
};
use crate::reach::{fits, lemma_cell_stored};
use crate::replay::{
    is_push, lemma_first_step, lemma_playable_start, lemma_playable_tried, lemma_tried_shape,
    playable,
};
use crate::rules::{moved, play, Position};
use crate::solver::{goals_of, sets_of, Solver};
use crate::table::{StateModel, Table};

verus! {

/// What a search has come to.
pub struct SolverResult {
    pub solved: bool,
    pub push_count: u32,
    /// The pushes, four numbers each: column and row from and to which the box is pushed.
    pub pushes: Vec<u8>,
    /// The whole solution: lower case letters for the player's walks, upper case for pushes.
    pub moves: String,
}

impl SolverResult {
    pub fn solved(&self) -> (r: bool)
        ensures
            r == self.solved,
    {
        self.solved
    }

    pub fn push_count(&self) -> (r: u32)
        ensures
            r == self.push_count,
    {
        self.push_count
    }

    /// The pushes as `[from_x, from_y, to_x, to_y, ...]`.
    pub fn pushes(&self) -> (r: Vec<u8>)
        ensures
            r@ == self.pushes@,
    {
        let r = self.pushes.clone();
        assert(r@ =~= self.pushes@);
        r
    }

    /// The moves in letters: u/U up, d/D down, l/L left, r/R right. Empty when unsolved.
    pub fn moves(&self) -> (r: String)
        ensures
            r@ == self.moves@,
    {
        self.moves.clone()
    }
}

// ── The search as a whole ─────────────────────────────────────────────────

/// There are more boxes than goals, so that a box may be left over.
pub open spec fn is_crowded(g: Ground, boxes: Seq<bool>) -> bool {
    boxes_of(g, boxes).len() > goals_of(g).len()
}

/// A push leads to boxes that are seen to be a deadlock, if every box is needed.
pub open spec fn leads_to_deadlock(g: Ground, boxes: Seq<bool>, p: Push) -> bool {
    let after = moved(g.w, boxes, p.from(), p.to());
    ||| at(g.dead, g.w, p.to())
    ||| overflows(sets_of(g), g.w, after, p.to())
    ||| freezes(board(g, after), g.goals, p.to())
    ||| corralled(g, after, stand(g.w, p.from_flat as int))
}

/// A push that is not seen to lead into a deadlock.
pub open spec fn survives(g: Ground, boxes: Seq<bool>, p: Push) -> bool {
    is_crowded(g, boxes) || !leads_to_deadlock(g, boxes, p)
}

/// The node that a push leads to.
pub open spec fn child(g: Ground, n: NodeModel, p: Push) -> NodeModel {
    let after = moved(g.w, n.boxes, p.from(), p.to());
    NodeModel {
        f: n.cost + p.steps + estimate(g, after),
        cost: n.cost + p.steps,
        boxes: after,
        player: normal(g, after, p.from_flat as int),
        path: n.path.push(p),
    }
}

/// The waiting nodes with those that the first `k` of some pushes lead to.
pub open spec fn with_children(
    g: Ground,
    waiting: Seq<NodeModel>,
    n: NodeModel,
    pushes: Seq<Push>,
    k: int,
) -> Seq<NodeModel>
    decreases k,
{
    if k <= 0 {
        waiting
    } else {
        let before = with_children(g, waiting, n, pushes, k - 1);
        if survives(g, n.boxes, pushes[k - 1]) {
            inserted(before, child(g, n, pushes[k - 1]))
        } else {
            before
        }
    }
}

/// The waiting nodes with those that one push leads to from a node.
pub open spec fn expanded(g: Ground, waiting: Seq<NodeModel>, n: NodeModel) -> Seq<NodeModel> {
    let pushes = tried_pushes(g, n.boxes, stand(g.w, n.player));
    with_children(g, waiting, n, pushes, pushes.len() as int)
}

/// The nodes that wait, in a heap, and the estimates with which states were expanded.
pub ghost struct Search {
    pub frontier: Seq<NodeModel>,
    pub visited: Map<StateModel, int>,
}

/// The first node.
pub open spec fn root(g: Ground, boxes: Seq<bool>, player: int) -> NodeModel {
    NodeModel {
        f: estimate(g, boxes),
        cost: 0,
        boxes,
        player: normal(g, boxes, player),
        path: Seq::empty(),
    }
}

/// The search before its first step.
pub open spec fn begin(g: Ground, boxes: Seq<bool>, player: int) -> Search {
    Search { frontier: seq![root(g, boxes, player)], visited: Map::empty() }
}

/// The state of a node.
pub open spec fn state_of(n: NodeModel) -> StateModel {
    StateModel { boxes: n.boxes, player: n.player }
}

/// The state was expanded before with an estimate at most as high.
pub open spec fn is_settled(s: Search, n: NodeModel) -> bool {
    s.visited.contains_key(state_of(n)) && s.visited[state_of(n)] <= n.f
}

/// The search after the first waiting node is taken.
pub open spec fn after(g: Ground, s: Search) -> Search {
    let n = s.frontier[0];
    let waiting = without_first(s.frontier);
    if is_settled(s, n) {
        Search { frontier: waiting, visited: s.visited }
    } else {
        Search {
            frontier: expanded(g, waiting, n),
            visited: s.visited.insert(state_of(n), n.f),
        }
    }
}

/// Every goal has a box.
pub open spec fn is_goal_state(g: Ground, boxes: Seq<bool>) -> bool {
    all_covered(g.w, g.h, g.goals, boxes)
}

/// The search after `k` nodes are taken, if so many come to wait and none is a solution.
pub open spec fn run(g: Ground, s: Search, k: nat) -> Option<Search>
    decreases k,
{
    if k == 0 {
        Some(s)
    } else {
        match run(g, s, (k - 1) as nat) {
            Some(m) => if m.frontier.len() > 0 && !is_goal_state(g, m.frontier[0].boxes) {
                Some(after(g, m))
            } else {
                None
            },
            None => None,
        }
    }
}

/// After `k` nodes, less than `limit`, the next to be taken is the solution `n`.
pub open spec fn finds(g: Ground, start: Search, limit: int, k: nat, n: NodeModel) -> bool {
    match run(g, start, k) {
        Some(s) => k < limit && s.frontier.len() > 0 && s.frontier[0] == n && is_goal_state(
            g,
            n.boxes,
        ),
        None => false,
    }
}

/// A search ends without a solution after `k` nodes: these are `limit`, or no node waits.
pub open spec fn fails(g: Ground, start: Search, limit: int, k: nat) -> bool {
    match run(g, start, k) {
        Some(s) => k == limit || (k < limit && s.frontier.len() == 0),
        None => false,
    }
}

/// The pushes in four numbers each.
pub open spec fn push_bytes(path: Seq<Push>) -> Seq<u8>
    decreases path.len(),
{
    if path.len() == 0 {
        Seq::empty()
    } else {
        let p = path.last();
        push_bytes(path.drop_last()) + seq![p.from_x, p.from_y, p.to_x, p.to_y]
    }
}

/// The result is that of a search from the given boxes and player's position.
pub open spec fn is_result(
    g: Ground,
    boxes: Seq<bool>,
    player: int,
    limit: int,
    r: &SolverResult,
) -> bool {
    if is_goal_state(g, boxes) {
        &&& r.solved
        &&& r.push_count == 0
        &&& r.pushes@.len() == 0
        &&& r.moves@.len() == 0
    } else if r.solved {
        exists|k: nat, n: NodeModel| #[trigger]
            finds(g, begin(g, boxes, player), limit, k, n) && r.push_count == n.cost
                % 0x1_0000_0000 && r.pushes@ == push_bytes(n.path) && r.moves@ == moves_for(
                g.w,
                g.h,
                g.walls,
                stand(g.w, player),
                boxes,
                n.path,
            )
    } else {
        &&& exists|k: nat| #[trigger] fails(g, begin(g, boxes, player), limit, k)
        &&& r.push_count == 0
        &&& r.pushes@.len() == 0
        &&& r.moves@.len() == 0
    }
}

/// The moves can be played from the first position, and put a box on every goal.
pub open spec fn is_solution(g: Ground, boxes: Seq<bool>, player: int, moves: Seq<char>) -> bool {
    match play(g.w, g.h, g.walls, Position { player: stand(g.w, player), boxes }, moves) {
        Some(p) => is_goal_state(g, p.boxes),
        None => false,
    }
}

// ── Nodes ─────────────────────────────────────────────────────────────────

/// A node that the search can work on.
spec fn node_ok(g: Ground, start: Position, limit: int, n: Node) -> bool {
    &&& fits(&n.state.boxes, g.w, g.h)
    &&& on_grid(g.w, g.h, stand(g.w, n.state.player_norm as int))
    &&& n.cost <= limit
    &&& forall|k: int| 0 <= k < n.path@.len() ==> (#[trigger] n.path@[k]).on(g.w, g.h)
    &&& playable(g, start, n.path@, n.state.boxes@, n.state.player_norm as int)
}

spec fn ok(g: Ground, start: Position, limit: int) -> spec_fn(Node) -> bool {
    |n: Node| node_ok(g, start, limit, n)
}

/// Every push in the list is a push of a box.
proof fn lemma_push_of_box(g: Ground, boxes: Seq<bool>, player: Cell, b: Cell, n: int, k: int)
    requires
        0 <= n <= 4,
        0 <= k < pushes_of_box(g, boxes, player, b, n).len(),
    ensures
        exists|d: int|
            0 <= d < 4 && #[trigger] push_of(g, boxes, player, b, d) == Some(
                pushes_of_box(g, boxes, player, b, n)[k],
            ),
    decreases n,
{
    if n > 0 {
        let before = pushes_of_box(g, boxes, player, b, n - 1);
        if k < before.len() {
            lemma_push_of_box(g, boxes, player, b, n - 1, k);
        } else {
            assert(push_of(g, boxes, player, b, n - 1) == Some(
                pushes_of_box(g, boxes, player, b, n)[k],
            ));
        }
    }
}

/// Every push in the list of all boxes is a push of one of them.
proof fn lemma_push_of_boxes(
    g: Ground,
    boxes: Seq<bool>,
    player: Cell,
    list: Seq<Cell>,
    n: int,
    k: int,
)
    requires
        0 <= n <= list.len(),
        forall|j: int|
            0 <= j < list.len() ==> on_grid(g.w, g.h, #[trigger] list[j]) && at(boxes, g.w, list[j]),
        0 <= k < pushes_of_boxes(g, boxes, player, list, n).len(),
    ensures
        exists|b: Cell, d: int|
            {
                &&& on_grid(g.w, g.h, b)
                &&& at(boxes, g.w, b)
                &&& 0 <= d < 4
                &&& #[trigger] push_of(g, boxes, player, b, d) == Some(
                    pushes_of_boxes(g, boxes, player, list, n)[k],
                )
            },
    decreases n,
{
    if n > 0 {
        let before = pushes_of_boxes(g, boxes, player, list, n - 1);
        let all = pushes_of_boxes(g, boxes, player, list, n);
        if k < before.len() {
            lemma_push_of_boxes(g, boxes, player, list, n - 1, k);
            assert(all[k] == before[k]);
        } else {
            let b = list[n - 1];
            lemma_push_of_box(g, boxes, player, b, 4, k - before.len());
            let p = pushes_of_box(g, boxes, player, b, 4)[k - before.len()];
            let d = choose|d: int|
                0 <= d < 4 && #[trigger] push_of(g, boxes, player, b, d) == Some(p);
            assert(all[k] == p);
            assert(push_of(g, boxes, player, b, d) == Some(all[k]));
        }
    }
}

proof fn lemma_with_steps(g: Ground, boxes: Seq<bool>, player: Cell, n: int, k: int)
    requires
        0 <= n <= all_pushes(g, boxes, player).len(),
        0 <= k < with_steps(all_pushes(g, boxes, player), n).len(),
    ensures
        exists|b: Cell, d: int| #[trigger]
            is_push(g, boxes, player, with_steps(all_pushes(g, boxes, player), n)[k], b, d),
    decreases n,
{
    let pushes = all_pushes(g, boxes, player);
    let before = with_steps(pushes, n - 1);
    let list = boxes_of(g, boxes);
    if k < before.len() {
        lemma_with_steps(g, boxes, player, n - 1, k);
        assert(with_steps(pushes, n)[k] == before[k]);
    } else {
        let p = pushes[n - 1];
        assert(0 <= g.w * g.h) by (nonlinear_arith);
        lemma_set_cells(g.w, g.h, boxes, (g.w * g.h) as nat);
        lemma_push_of_boxes(g, boxes, player, list, list.len() as int, n - 1);
        let (b, d) = choose|b: Cell, d: int|
            {
                &&& on_grid(g.w, g.h, b)
                &&& at(boxes, g.w, b)
                &&& 0 <= d < 4
                &&& #[trigger] push_of(g, boxes, player, b, d) == Some(p)
            };
        lemma_first_step(g, boxes, player, b, d);
        assert(is_push(g, boxes, player, with_steps(pushes, n)[k], b, d));
    }
}

/// Every push that the search tries is a push of a box.
pub proof fn lemma_tried(g: Ground, boxes: Seq<bool>, player: Cell, k: int)
    requires
        0 <= k < tried_pushes(g, boxes, player).len(),
    ensures
        exists|b: Cell, d: int| #[trigger]
            is_push(g, boxes, player, tried_pushes(g, boxes, player)[k], b, d),
{
    lemma_with_steps(g, boxes, player, all_pushes(g, boxes, player).len() as int, k);
}

/// The same pushes in a list of its own, with one more.
fn extended(path: &Vec<Push>, push: Push) -> (r: Vec<Push>)
    ensures
        r@ == path@.push(push),
{
    let mut r: Vec<Push> = Vec::new();
    let mut k: usize = 0;
    while k < path.len()
        invariant
            k <= path@.len(),
            r@ == path@.take(k as int),
        decreases path@.len() - k,
    {
        r.push(path[k]);
        k += 1;
        assert(path@.take(k as int) =~= path@.take(k - 1).push(path@[k - 1]));
    }
    assert(path@.take(k as int) =~= path@);
    r.push(push);
    r
}

/// The pushes in four numbers each.
fn flatten(path: &Vec<Push>) -> (r: Vec<u8>)
    ensures
        r@ == push_bytes(path@),
{
    let mut r: Vec<u8> = Vec::new();
    let mut k: usize = 0;
    assert(path@.take(0) =~= Seq::<Push>::empty());
    while k < path.len()
        invariant
            k <= path@.len(),
            r@ == push_bytes(path@.take(k as int)),
        decreases path@.len() - k,
    {
        let p = path[k];
        let ghost before = r@;
        r.push(p.from_x);
        r.push(p.from_y);
        r.push(p.to_x);
        r.push(p.to_y);
        k += 1;
        proof {
            assert(path@.take(k as int).drop_last() =~= path@.take(k - 1));
            assert(r@ =~= before + seq![p.from_x, p.from_y, p.to_x, p.to_y]);
        }
    }
    assert(path@.take(k as int) =~= path@);
    r
}

impl Solver {
    /// The boxes after a push, unless the push is seen to lead into a deadlock. With more boxes than
    /// goals a box may be lost, and nothing is seen as a deadlock.
    fn try_push(&self, boxes: &BitPlane, push: &Push) -> (r: Option<BitPlane>)
        requires
            self.wf(),
            fits(boxes, self.width, self.height),
            push.on(self.width, self.height),
            push.from_flat <= u16::MAX,
        ensures
            match r {
                Some(new_boxes) => {
                    &&& survives(self.ground(), boxes@, *push)
                    &&& fits(&new_boxes, self.width, self.height)
                    &&& new_boxes@ == moved(self.width, boxes@, push.from(), push.to())
                },
                None => !survives(self.ground(), boxes@, *push),
            },
    {
        let (w, h) = (self.width, self.height);
        proof {
            lemma_cell_stored(&self.dead, w, h, push.to());
            lemma_cell_stored(boxes, w, h, push.from());
            lemma_cell_stored(boxes, w, h, push.to());
        }
        let mut new_boxes = boxes.clone();
        new_boxes.clear(push.from_x, push.from_y);
        new_boxes.set(push.to_x, push.to_y);
        if boxes.iter_set_bits().len() > self.goal_distances.len() {
            return Some(new_boxes);
        }
        if self.dead.get(push.to_x, push.to_y) {
            return None;
        }
        if self.has_set_deadlock(push.to_x, push.to_y, &new_boxes) {
            return None;
        }
        if is_freeze_deadlock(
            push.to_x,
            push.to_y,
            &new_boxes,
            &self.walls,
            &self.goals,
            &self.dead,
        ) {
            return None;
        }
        if self.corral_prune(push.from_flat as u16, &new_boxes) {
            return None;
        }
        Some(new_boxes)
    }

    /// Add the nodes that one push leads to.
    fn expand(
        &self,
        node: &Node,
        frontier: &mut Frontier,
        Ghost(start): Ghost<Position>,
        Ghost(limit): Ghost<int>,
    )
        requires
            self.wf(),
            limit <= 0x100_0000_0000,
            node_ok(self.ground(), start, limit, *node),
            all_items(old(frontier).items@, ok(self.ground(), start, limit + 256)),
        ensures
            final(frontier)@ == expanded(self.ground(), old(frontier)@, node@),
            all_items(final(frontier).items@, ok(self.ground(), start, limit + 256)),
    {
        let (w, h) = (self.width, self.height);
        let ghost g = self.ground();
        let ghost boxes = node.state.boxes@;
        let ghost player = stand(w, node.state.player_norm as int);
        let pushes = add_steps(&self.generate_pushes(&node.state));
        proof {
            crate::bitplane::lemma_dims(w as int, h as int);
        }
        let mut k: usize = 0;
        while k < pushes.len()
            invariant
                self.wf(),
                w == self.width,
                h == self.height,
                w * h <= 65025,
                g == self.ground(),
                boxes == node.state.boxes@,
                player == stand(w, node.state.player_norm as int),
                pushes@ == tried_pushes(g, boxes, player),
                limit <= 0x100_0000_0000,
                node_ok(g, start, limit, *node),
                all_items(frontier.items@, ok(g, start, limit + 256)),
                k <= pushes@.len(),
                frontier@ == with_children(g, old(frontier)@, node@, pushes@, k as int),
            decreases pushes@.len() - k,
        {
            let push = pushes[k];
            let ghost b: Cell;
            let ghost d: int;
            proof {
                lemma_tried(g, boxes, player, k as int);
                let pair = choose|b: Cell, d: int| #[trigger]
                    is_push(g, boxes, player, push, b, d);
                b = pair.0;
                d = pair.1;
                lemma_tried_shape(g, boxes, player, push, b, d);
            }
            if let Some(new_boxes) = self.try_push(&node.state.boxes, &push) {
                let player_norm = self.normalise_player(push.from_flat as u16, &new_boxes);
                let cost: u64 = node.cost + push.steps as u64;
                let f: u64 = cost + self.heuristic(&new_boxes) as u64;
                let path = extended(&node.path, push);
                proof {
                    lemma_cell_stored(&node.state.boxes, w, h, b);
                    lemma_playable_tried(
                        g,
                        start,
                        node.path@,
                        boxes,
                        node.state.player_norm as int,
                        push,
                        b,
                        d,
                    );
                }
                let next = Node { f, cost, state: State { boxes: new_boxes, player_norm }, path };
                proof {
                    assert forall|j: int| 0 <= j < next.path@.len() implies (
                    #[trigger] next.path@[j]).on(g.w, g.h) by {
                        if j < node.path@.len() {
                            assert(next.path@[j] == node.path@[j]);
                        }
                    }
                    assert(node_ok(g, start, limit + 256, next));
                    assert(ok(g, start, limit + 256)(next));
                    assert(next@ == child(g, node@, push));
                }
                frontier.push(next);
            }
            k += 1;
        }
    }

    /// The result for a node that is a solution.
    fn result_of(&self, level: &SokobanLevel, node: &Node, Ghost(limit): Ghost<int>) -> (r:
        SolverResult)
        requires
            self.wf(),
            level.wf(),
            level.width == self.width,
            level.height == self.height,
            on_grid(self.width, self.height, stand(self.width, level.player_pos as int)),
            node_ok(
                self.ground(),
                Position {
                    player: stand(self.width, level.player_pos as int),
                    boxes: level.boxes@,
                },
                limit,
                *node,
            ),
            is_goal_state(self.ground(), node@.boxes),
        ensures
            r.solved,
            r.push_count == node@.cost % 0x1_0000_0000,
            r.pushes@ == push_bytes(node@.path),
            r.moves@ == moves_for(
                self.width,
                self.height,
                self.walls@,
                stand(self.width, level.player_pos as int),
                level.boxes@,
                node@.path,
            ),
            is_solution(self.ground(), level.boxes@, level.player_pos as int, r.moves@),
    {
        let pushes = flatten(&node.path);
        let moves = reconstruct_moves(
            level.player_pos,
            &level.boxes,
            &node.path,
            self.width,
            &self.walls,
        );
        let cost = node.cost;
        let push_count = cost as u32;
        assert(push_count == cost % 0x1_0000_0000) by (bit_vector)
            requires
                push_count == cost as u32,
        ;
        SolverResult { solved: true, push_count, pushes, moves }
    }

    /// Search for a solution of the level among at most `max_nodes` nodes. `solved` is false when
    /// there is none or the limit is hit.
    pub fn solve(&self, level: &SokobanLevel, max_nodes: u32) -> (r: SolverResult)
        requires
            self.wf(),
            level.wf(),
            level.width == self.width,
            level.height == self.height,
            on_grid(self.width, self.height, stand(self.width, level.player_pos as int)),
        ensures
            is_result(
                self.ground(),
                level.boxes@,
                level.player_pos as int,
                max_nodes as int,
                &r,
            ),
            r.solved ==> is_solution(
                self.ground(),
                level.boxes@,
                level.player_pos as int,
                r.moves@,
            ),
    {
        let ghost g = self.ground();
        let ghost boxes = level.boxes@;
        let ghost player = level.player_pos as int;
        let ghost start = Position { player: stand(self.width, player), boxes };
        if self.is_solved(&level.boxes) {
            let r = SolverResult {
                solved: true,
                push_count: 0,
                pushes: Vec::new(),
                moves: String::new(),
            };
            proof {
                assert(play(g.w, g.h, g.walls, start, r.moves@) == Some(start));
            }
            return r;
        }
        let player_norm = self.normalise_player(level.player_pos, &level.boxes);
        let h0 = self.heuristic(&level.boxes);
        let first = Node {
            f: h0 as u64,
            cost: 0,
            state: State { boxes: level.boxes.clone(), player_norm },
            path: Vec::new(),
        };
        let mut visited = Table::new();
        let mut frontier = Frontier::new();
        let ghost s0 = begin(g, boxes, player);
        proof {
            lemma_playable_start(g, boxes, player);
            assert(first.path@ =~= Seq::empty());
            assert(first@ == root(g, boxes, player));
            assert(ok(g, start, 0)(first));
            assert(all_items(frontier.items@, ok(g, start, 0)));
        }
        frontier.push(first);
        let mut explored: u32 = 0;
        proof {
            assert(all_items(frontier.items@, ok(g, start, 0)));
            assert(frontier@ =~= s0.frontier);
            assert(visited@ =~= s0.visited);
        }
        while explored < max_nodes
            invariant
                self.wf(),
                level.wf(),
                level.width == self.width,
                level.height == self.height,
                on_grid(self.width, self.height, stand(self.width, level.player_pos as int)),
                g == self.ground(),
                boxes == level.boxes@,
                player == level.player_pos,
                start == (Position { player: stand(self.width, player), boxes }),
                !is_goal_state(g, boxes),
                s0 == begin(g, boxes, player),
                explored <= max_nodes,
                visited.wf(),
                run(g, s0, explored as nat) == Some(
                    Search { frontier: frontier@, visited: visited@ },
                ),
                all_items(frontier.items@, ok(g, start, 256 * explored)),
            decreases max_nodes - explored,
        {
            let ghost s = Search { frontier: frontier@, visited: visited@ };
            let ghost items = frontier.items@;
            match frontier.pop() {
                None => {
                    proof {
                        assert(fails(g, s0, max_nodes as int, explored as nat));
                    }
                    return SolverResult {
                        solved: false,
                        push_count: 0,
                        pushes: Vec::new(),
                        moves: String::new(),
                    };
                },
                Some(node) => {
                    proof {
                        let i = choose|i: int| 0 <= i < items.len() && #[trigger] items[i] == node;
                        assert(ok(g, start, 256 * explored)(items[i]));
                        assert(node_ok(g, start, 256 * explored, node));
                        assert(all_items(frontier.items@, ok(g, start, 256 * explored)));
                    }
                    if self.is_solved(&node.state.boxes) {
                        proof {
                            assert(finds(g, s0, max_nodes as int, explored as nat, node@));
                        }
                        return self.result_of(level, &node, Ghost(256 * explored));
                    }
                    let ghost n = node@;
                    proof {
                        assert(run(g, s0, (explored + 1) as nat) == Some(after(g, s)));
                        lemma_items_more(
                            frontier.items@,
                            g,
                            start,
                            256 * explored,
                            256 * explored + 256,
                        );
                    }
                    let settled = match visited.get(&node.state.boxes, node.state.player_norm) {
                        Some(best) => best <= node.f,
                        None => false,
                    };
                    assert(settled == is_settled(s, n));
                    if !settled {
                        self.expand(&node, &mut frontier, Ghost(start), Ghost(256 * explored));
                        visited.insert(node.state.boxes, node.state.player_norm, node.f);
                    }
                    explored += 1;
                },
            }
        }
        proof {
            assert(fails(g, s0, max_nodes as int, explored as nat));
        }
        SolverResult { solved: false, push_count: 0, pushes: Vec::new(), moves: String::new() }
    }
}

proof fn lemma_items_more(items: Seq<Node>, g: Ground, start: Position, a: int, b: int)
    requires
        all_items(items, ok(g, start, a)),
        a <= b,
    ensures
        all_items(items, ok(g, start, b)),
{
    assert forall|i: int| 0 <= i < items.len() implies ok(g, start, b)(#[trigger] items[i]) by {
        assert(ok(g, start, a)(items[i]));
    }
}

} // verus!
