use sokoban_utils::bitplane::BitPlane;
use sokoban_utils::closed_edge::compute_closed_edge_sets;
use sokoban_utils::closed_set::{compute_general_closed_sets, find_min_closure};
use sokoban_utils::dead::{compute_corners, compute_dead_squares};
use sokoban_utils::deadlock_sets::{DeadlockSet, DeadlockSetKind, DeadlockSetRegistry};
use sokoban_utils::freeze::is_freeze_deadlock;
use sokoban_utils::{SokobanLevel, Solver};

fn read(xsb: &str) -> (SokobanLevel, Solver) {
    let level = SokobanLevel::from_xsb(xsb).expect("parse");
    let solver = Solver::new(&level);
    (level, solver)
}

/// Run the freeze check using a solver's planes.
fn freeze(solver: &Solver, boxes: &BitPlane, x: u8, y: u8) -> bool {
    is_freeze_deadlock(x, y, boxes, &solver.walls, &solver.goals, &solver.dead)
}

// ── Corrals ───────────────────────────────────────────────────────────────

#[test]
fn corral_prune_detects_deadlock() {
    let level = SokobanLevel::from_xsb("#######\n#@$   #\n#######").expect("parse");
    let solver = Solver::new(&level);
    assert!(
        solver.corral_prune(level.player_pos, &level.boxes),
        "expected deadlocked corral to be pruned",
    );
}

#[test]
fn corral_prune_skips_bare_goal() {
    let level = SokobanLevel::from_xsb("#######\n#@$.  #\n#######").expect("parse");
    let solver = Solver::new(&level);
    assert!(
        !solver.corral_prune(level.player_pos, &level.boxes),
        "expected bare-goal corral to be left unpruned",
    );
}

#[test]
fn an_open_room_has_no_corral() {
    let (level, solver) = read("######\n#    #\n# @$ #\n#   .#\n######");
    assert!(!solver.corral_prune(level.player_pos, &level.boxes));
}

// ── Frozen boxes ──────────────────────────────────────────────────────────

#[test]
fn freeze_corner_is_deadlock() {
    let level = SokobanLevel::from_xsb("####\n#$ #\n#  #\n####").expect("parse");
    let solver = Solver::new(&level);
    assert!(
        freeze(&solver, &level.boxes, 1, 1),
        "a non-goal box in a wall corner must be a freeze deadlock",
    );
}

#[test]
fn freeze_corner_on_goal_is_ok() {
    let level = SokobanLevel::from_xsb("####\n#* #\n#  #\n####").expect("parse");
    let solver = Solver::new(&level);
    assert!(
        !freeze(&solver, &level.boxes, 1, 1),
        "a frozen box that sits on a goal must NOT be reported as a deadlock",
    );
}

#[test]
fn freeze_recursive_pair_is_deadlock() {
    let level = SokobanLevel::from_xsb("#####\n#$$ #\n#####").expect("parse");
    let solver = Solver::new(&level);
    assert!(
        freeze(&solver, &level.boxes, 2, 1),
        "box blocked via a fully-frozen neighbour must be a freeze deadlock",
    );
}

#[test]
fn freeze_not_fooled_by_slidable_neighbour() {
    let level = SokobanLevel::from_xsb("######\n#. $ #\n#. $##\n#  @ #\n######").expect("parse");
    let solver = Solver::new(&level);
    // Sanity: the slidable neighbour A itself is not frozen.
    assert!(
        !freeze(&solver, &level.boxes, 3, 1),
        "neighbour A can slide horizontally, so it is not frozen",
    );
    // The actual regression guard: B must not be a false freeze deadlock.
    assert!(
        !freeze(&solver, &level.boxes, 3, 2),
        "B must not be reported frozen — its neighbour can slide away",
    );
}

#[test]
fn a_square_of_boxes_freezes() {
    let (level, solver) = read("######\n#    #\n# $$ #\n# $$ #\n#@  .#\n######");
    for (x, y) in [(2, 2), (3, 2), (2, 3), (3, 3)] {
        assert!(freeze(&solver, &level.boxes, x, y));
    }
    let (level, solver) = read("######\n#    #\n# ** #\n# ** #\n#@   #\n######");
    assert!(!freeze(&solver, &level.boxes, 2, 2));
    let (level, solver) = read("######\n#    #\n# ** #\n# *$ #\n#@  .#\n######");
    assert!(freeze(&solver, &level.boxes, 2, 2));
}

#[test]
fn a_box_in_the_open_is_not_frozen() {
    let (level, solver) = read("#####\n#   #\n# $ #\n#@ .#\n#####");
    assert!(!freeze(&solver, &level.boxes, 2, 2));
}

#[test]
fn a_chain_of_boxes_that_can_be_undone_is_not_frozen() {
    let (level, solver) = read("#####\n#*  #\n#*$ #\n# $$#\n#** #\n#####");
    for (x, y) in level.boxes.iter_set_bits() {
        assert!(!freeze(&solver, &level.boxes, x, y));
    }
}

#[test]
fn a_frozen_box_elsewhere_does_not_count() {
    let (level, solver) = read("######\n#*   #\n#    #\n#@ .$#\n######");
    assert!(!freeze(&solver, &level.boxes, 1, 1));
    assert!(freeze(&solver, &level.boxes, 4, 3));
}

// ── Dead squares ──────────────────────────────────────────────────────────

fn dead_squares(xsb: &str) -> Vec<(u8, u8)> {
    let level = SokobanLevel::from_xsb(xsb).expect("parse");
    compute_dead_squares(&level.walls, &level.goals, level.width, level.height).iter_set_bits()
}

#[test]
fn corners_without_a_goal_are_dead() {
    assert_eq!(
        dead_squares("#####\n#   #\n#   #\n#  .#\n#####"),
        vec![(1, 1), (3, 1), (1, 3)],
    );
}

#[test]
fn the_solver_keeps_boxes_off_corners_alone() {
    let (level, solver) = read("#######\n#@$   #\n#######");
    assert_eq!(solver.dead.iter_set_bits(), vec![(1, 1), (5, 1)]);
    assert_eq!(
        compute_corners(&level.walls, &level.goals, 7, 3).iter_set_bits(),
        vec![(1, 1), (5, 1)],
    );
}

#[test]
fn corridors_that_end_in_a_corner_are_dead_up_to_a_goal() {
    assert_eq!(dead_squares("#######\n#@$   #\n#######"), vec![(1, 1), (2, 1), (3, 1), (4, 1), (5, 1)]);
    assert_eq!(dead_squares("######\n#@$ .#\n######"), vec![(1, 1), (2, 1), (3, 1)]);
    assert_eq!(dead_squares("###\n# #\n#.#\n# #\n###"), vec![(1, 1), (1, 3)]);
}

// ── Deadlock sets ─────────────────────────────────────────────────────────

#[test]
fn a_registry_counts_boxes_against_capacity() {
    let mut registry = DeadlockSetRegistry::new(4, 2);
    let first = DeadlockSet {
        cells: vec![(0, 0), (1, 0), (2, 0)],
        goal_count: 1,
        capacity: 1,
        kind: DeadlockSetKind::ClosedEdge,
    };
    let second = DeadlockSet {
        cells: vec![(2, 0), (2, 1)],
        goal_count: 0,
        capacity: 0,
        kind: DeadlockSetKind::GeneralClosed,
    };
    assert_eq!(registry.add(first), 0);
    assert_eq!(registry.add(second), 1);
    assert_eq!(registry.membership[2], vec![0, 1]);
    assert_eq!(registry.membership[6], vec![1]);
    let mut boxes = BitPlane::new(4, 2);
    boxes.set(0, 0);
    assert!(!registry.has_overflow_deadlock(0, 0, &boxes));
    boxes.set(1, 0);
    assert!(registry.has_overflow_deadlock(0, 0, &boxes));
    assert!(registry.has_overflow_deadlock(1, 0, &boxes));
    // A cell without a box counts as the sets it is in do.
    assert!(registry.has_overflow_deadlock(2, 0, &boxes));
    assert!(!registry.has_overflow_deadlock(3, 0, &boxes));
    assert!(!registry.has_overflow_deadlock(2, 1, &boxes));
}

#[test]
fn diagnostics_list_memberships() {
    let mut registry = DeadlockSetRegistry::new(3, 1);
    assert_eq!(
        registry.diagnostics(),
        "deadlock sets: 0  |  max memberships per cell: 0\n  histogram (memberships → cell count):\n    0  → 3\n    >0  → 0\n",
    );
    for _ in 0..12 {
        registry.add(DeadlockSet {
            cells: vec![(1, 0)],
            goal_count: 0,
            capacity: 0,
            kind: DeadlockSetKind::Dynamic,
        });
    }
    assert_eq!(
        registry.diagnostics(),
        "deadlock sets: 12  |  max memberships per cell: 12\n  histogram (memberships → cell count):\n    0  → 2\n    1  → 0\n    2  → 0\n    3  → 0\n    4  → 0\n    5  → 0\n    6  → 0\n    7  → 0\n    8  → 0\n    9  → 0\n    10  → 0\n    >10  → 1\n",
    );
}

#[test]
fn a_solver_reports_its_sets() {
    let (_, solver) = read("#####\n#@$.#\n#####");
    assert_eq!(
        solver.set_diagnostics(),
        "deadlock sets: 3  |  max memberships per cell: 3\n  histogram (memberships → cell count):\n    0  → 13\n    1  → 0\n    2  → 0\n    3  → 2\n    >3  → 0\n",
    );
}

#[test]
fn a_corridor_without_goals_holds_no_box() {
    let (level, solver) = read("#######\n#@$   #\n#######");
    assert!(solver.has_set_deadlock(2, 1, &level.boxes));
    let set = &solver.deadlock_sets.sets[0];
    assert_eq!(set.cells, vec![(2, 1), (3, 1), (4, 1)]);
    assert_eq!(set.capacity, 0);
}

fn edge_sets(xsb: &str) -> Vec<(Vec<(u8, u8)>, u32)> {
    let level = SokobanLevel::from_xsb(xsb).expect("parse");
    let dead = compute_dead_squares(&level.walls, &level.goals, level.width, level.height);
    let mut registry = DeadlockSetRegistry::new(level.width, level.height);
    compute_closed_edge_sets(
        &mut registry,
        &level.walls,
        &level.goals,
        &dead,
        level.width,
        level.height,
    );
    registry.sets.into_iter().map(|s| (s.cells, s.capacity)).collect()
}

#[test]
fn a_run_along_a_wall_between_walls_is_a_set() {
    // Goals in the upper corners keep the top row alive; the lower corners are dead.
    let sets = edge_sets("######\n#.  .#\n#    #\n#    #\n######");
    assert_eq!(
        sets,
        vec![
            (vec![(1, 1), (2, 1), (3, 1), (4, 1)], 2),
            (vec![(2, 3), (3, 3)], 0),
            (vec![(1, 1), (1, 2)], 1),
            (vec![(4, 1), (4, 2)], 1),
        ],
    );
    // Where every cell has a goal there is no limit.
    assert_eq!(edge_sets("####\n#..#\n####"), vec![]);
}

#[test]
fn a_box_too_many_along_a_wall_is_a_deadlock() {
    let (_, solver) = read("######\n#.  .#\n#    #\n#  @ #\n######");
    let mut boxes = BitPlane::new(6, 5);
    boxes.set(1, 1);
    boxes.set(2, 1);
    assert!(!solver.has_set_deadlock(2, 1, &boxes));
    boxes.set(3, 1);
    assert!(solver.has_set_deadlock(3, 1, &boxes));
    assert!(!solver.has_set_deadlock(3, 2, &boxes));
}

#[test]
fn a_closure_is_all_that_a_box_can_be_pushed_to() {
    let level = SokobanLevel::from_xsb("######\n#.  .#\n#    #\n#  @ #\n######").expect("parse");
    let dead = compute_dead_squares(&level.walls, &level.goals, 6, 5);
    let mut row = find_min_closure(2, 1, &level.walls, &dead, 6, 5).unwrap();
    row.sort();
    assert_eq!(row, vec![(1, 1), (2, 1), (3, 1), (4, 1)]);
    assert_eq!(find_min_closure(1, 1, &level.walls, &dead, 6, 5).unwrap(), vec![(1, 1)]);
    // From the middle a box can be pushed to more than eight cells.
    assert!(find_min_closure(2, 2, &level.walls, &dead, 6, 5).is_none());
}

#[test]
fn closures_are_registered_once() {
    let level = SokobanLevel::from_xsb("######\n#.  .#\n#    #\n#  @ #\n######").expect("parse");
    let dead = compute_dead_squares(&level.walls, &level.goals, 6, 5);
    let mut registry = DeadlockSetRegistry::new(6, 5);
    compute_general_closed_sets(&mut registry, &level.walls, &level.goals, &dead, 6, 5);
    let rows: Vec<usize> =
        (0..registry.sets.len()).filter(|&i| registry.sets[i].cells.contains(&(2, 1))).collect();
    assert_eq!(rows.len(), 1);
    assert_eq!(registry.sets[rows[0]].capacity, 2);
    for i in 0..registry.sets.len() {
        for j in 0..i {
            assert_ne!(registry.sets[i].cells, registry.sets[j].cells);
        }
        assert!(registry.sets[i].kind == DeadlockSetKind::GeneralClosed);
    }
}

#[test]
fn closures_are_within_the_sets_of_their_cells() {
    let level = SokobanLevel::from_xsb("########\n#.   . #\n#   #  #\n# .    #\n#  #@ .#\n########")
        .expect("parse");
    let solver = Solver::new(&level);
    let mut checked = 0;
    for set in &solver.deadlock_sets.sets {
        for &(x, y) in &set.cells {
            let closure = find_min_closure(x, y, &level.walls, &solver.dead, 8, 6).unwrap();
            assert!(closure.iter().all(|c| set.cells.contains(c)));
            checked += 1;
        }
    }
    assert!(checked > 0);
}

#[test]
fn a_long_run_along_a_wall_is_found_by_the_scan_alone() {
    let xsb = "############\n#.        .#\n#          #\n#    @     #\n############";
    let level = SokobanLevel::from_xsb(xsb).expect("parse");
    let sets = edge_sets(xsb);
    assert_eq!(sets[0].0.len(), 10);
    let dead = compute_dead_squares(&level.walls, &level.goals, 12, 5);
    assert!(find_min_closure(5, 1, &level.walls, &dead, 12, 5).is_none());
}

#[test]
fn a_box_off_the_goals_leaves_a_level_unsolved() {
    let (level, solver) = read("######\n#@*$.#\n######");
    assert!(!solver.is_solved(&level.boxes));
    // With more boxes than goals a box may be left over.
    let (level, solver) = read("######\n#@*$ #\n######");
    assert!(solver.is_solved(&level.boxes));
}
