//! The solver and what it works out before a search.

use vstd::prelude::*;

use crate::bitplane::{set_cells, BitPlane};
use crate::closed_edge::{
    closed_edge_sets, compute_closed_edge_sets, indexes, lemma_closed_edge_sets_len, Ground,
};
use crate::closed_set::{compute_general_closed_sets, general_sets, lemma_general_sets_len};
use crate::dead::{compute_corners, is_corner};
use crate::deadlock_sets::{overflows, report, DeadlockSetRegistry, SetModel};
use crate::distance::{is_distance_table, precompute_goal_distances, pull_step};
use crate::grid::{at, cell_at, on_grid, Cell};
use crate::level::SokobanLevel;
use crate::reach::fits;
use crate::tunnel::{compute_tunnels, is_tunnel};

verus! {

/// A solver for one level.
pub struct Solver {
    pub width: u8,
    pub height: u8,
    pub walls: BitPlane,
    pub goals: BitPlane,
    /// The squares that no box is pushed to: the corners without a goal.
    pub dead: BitPlane,
    /// For each goal the number of pushes from each cell.
    pub goal_distances: Vec<Vec<u32>>,
    /// For each cell and push direction, whether a box that arrives there is pushed on.
    pub tunnel_data: Vec<[bool; 4]>,
    /// The closed-edge and general-closed sets.
    pub deadlock_sets: DeadlockSetRegistry,
}

/// The deadlock sets of a grid.
pub open spec fn sets_of(g: Ground) -> Seq<SetModel> {
    closed_edge_sets(g) + general_sets(g, g.w * g.h)
}

/// The goals of a grid in row-major order.
pub open spec fn goals_of(g: Ground) -> Seq<Cell> {
    set_cells(g.goals, g.w as int, (g.w * g.h) as nat)
}

/// The squares that no box is pushed to are the corners without a goal.
pub open spec fn keeps_corners(g: Ground) -> bool {
    forall|c: Cell|
        on_grid(g.w, g.h, c) ==> (#[trigger] at(g.dead, g.w, c) <==> is_corner(
            g.w,
            g.h,
            g.walls,
            g.goals,
            c,
        ))
}

impl Solver {
    /// The grid that the solver knows.
    pub open spec fn ground(&self) -> Ground {
        Ground {
            w: self.width,
            h: self.height,
            walls: self.walls@,
            goals: self.goals@,
            dead: self.dead@,
        }
    }

    /// The planes fit the grid.
    pub open spec fn sized(&self) -> bool {
        &&& fits(&self.walls, self.width, self.height)
        &&& fits(&self.goals, self.width, self.height)
        &&& fits(&self.dead, self.width, self.height)
    }

    /// The solver knows the corners, goal distances, tunnels and deadlock sets of its grid.
    pub open spec fn wf(&self) -> bool {
        let g = self.ground();
        &&& self.sized()
        &&& keeps_corners(g)
        &&& self.goal_distances@.len() == goals_of(g).len()
        &&& forall|k: int|
            0 <= k < self.goal_distances@.len() ==> is_distance_table(
                pull_step(g.w, g.h, g.walls),
                g.w,
                g.h,
                goals_of(g)[k],
                #[trigger] self.goal_distances@[k]@,
            )
        &&& self.tunnel_data@.len() == g.w * g.h
        &&& forall|i: int, d: int|
            0 <= i < g.w * g.h && 0 <= d < 4 ==> #[trigger] self.tunnel_data@[i]@[d] == is_tunnel(
                g.w,
                g.h,
                g.walls,
                g.goals,
                g.dead,
                cell_at(g.w, i),
                d,
            )
        &&& indexes(&self.deadlock_sets, g.w, g.h)
        &&& self.deadlock_sets@ == sets_of(g)
    }

    /// Prepare to solve a level: find its corners, goal distances, tunnels and deadlock sets.
    pub fn new(level: &SokobanLevel) -> (r: Solver)
        requires
            level.wf(),
        ensures
            r.wf(),
            r.width == level.width,
            r.height == level.height,
            r.walls@ == level.walls@,
            r.goals@ == level.goals@,
    {
        let (width, height) = (level.width, level.height);
        let dead = compute_corners(&level.walls, &level.goals, width, height);
        let goal_distances = precompute_goal_distances(&level.walls, &level.goals, width, height);
        let tunnel_data = compute_tunnels(&level.walls, &level.goals, &dead, width, height);
        let mut deadlock_sets = DeadlockSetRegistry::new(width, height);
        let ghost g = Ground {
            w: width,
            h: height,
            walls: level.walls@,
            goals: level.goals@,
            dead: dead@,
        };
        proof {
            lemma_closed_edge_sets_len(g);
            crate::bitplane::lemma_dims(width as int, height as int);
            lemma_general_sets_len(g, width * height);
        }
        compute_closed_edge_sets(
            &mut deadlock_sets,
            &level.walls,
            &level.goals,
            &dead,
            width,
            height,
        );
        compute_general_closed_sets(
            &mut deadlock_sets,
            &level.walls,
            &level.goals,
            &dead,
            width,
            height,
        );
        assert(deadlock_sets@ =~= sets_of(g));
        Solver {
            width,
            height,
            walls: level.walls.clone(),
            goals: level.goals.clone(),
            dead,
            goal_distances,
            tunnel_data,
            deadlock_sets,
        }
    }

    /// A report on the deadlock sets: their number, the largest number of sets that a cell
    /// belongs to, and how many cells belong to how many sets.
    pub fn set_diagnostics(&self) -> (out: String)
        requires
            self.wf(),
        ensures
            out@ == report(self.deadlock_sets@.len() as int, self.deadlock_sets.memberships()),
    {
        self.deadlock_sets.diagnostics()
    }

    /// Whether the box at `(to_x, to_y)` overflows a deadlock set. `boxes` already holds it.
    pub fn has_set_deadlock(&self, to_x: u8, to_y: u8, boxes: &BitPlane) -> (r: bool)
        requires
            self.wf(),
            fits(boxes, self.width, self.height),
            on_grid(self.width, self.height, (to_x, to_y)),
        ensures
            r == overflows(sets_of(self.ground()), self.width, boxes@, (to_x, to_y)),
    {
        proof {
            crate::grid::lemma_pos(self.width, self.height, (to_x, to_y));
        }
        self.deadlock_sets.has_overflow_deadlock(to_x, to_y, boxes)
    }
}

} // verus!
