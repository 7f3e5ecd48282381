use sokoban_utils::bitplane::BitPlane;
use sokoban_utils::distance::precompute_goal_distances;
use sokoban_utils::frontier::{Frontier, Node};
use sokoban_utils::moves::{reconstruct_moves, Push};
use sokoban_utils::pushes::State;
use sokoban_utils::reach::flood_fill;
use sokoban_utils::table::Table;
use sokoban_utils::tunnel::compute_tunnels;
use sokoban_utils::walk::bfs_path;
use sokoban_utils::{SokobanLevel, Solver};
use std::collections::{HashMap, VecDeque};

fn read(xsb: &str) -> (SokobanLevel, Solver) {
    let level = SokobanLevel::from_xsb(xsb).expect("parse");
    let solver = Solver::new(&level);
    (level, solver)
}

/// Play the moves. The boxes at the end, and the number of pushes.
fn replay(level: &SokobanLevel, moves: &str) -> (BitPlane, u32) {
    let (w, h) = (level.width as i32, level.height as i32);
    let mut boxes = level.boxes.clone();
    let mut pushes = 0;
    let (mut x, mut y) = (level.player_pos as i32 % w, level.player_pos as i32 / w);
    for c in moves.chars() {
        let (dx, dy) = match c.to_ascii_lowercase() {
            'u' => (0, -1),
            'd' => (0, 1),
            'l' => (-1, 0),
            'r' => (1, 0),
            _ => panic!("no such move"),
        };
        x += dx;
        y += dy;
        assert!(0 <= x && x < w && 0 <= y && y < h);
        assert!(!level.walls.get(x as u8, y as u8));
        let pushed = boxes.get(x as u8, y as u8);
        assert_eq!(pushed, c.is_ascii_uppercase());
        if pushed {
            let (bx, by) = ((x + dx) as u8, (y + dy) as u8);
            assert!(!level.walls.get(bx, by) && !boxes.get(bx, by));
            boxes.clear(x as u8, y as u8);
            boxes.set(bx, by);
            pushes += 1;
        }
    }
    (boxes, pushes)
}

/// Solve the level and play what was found.
fn solve(xsb: &str) -> (u32, String) {
    let (level, solver) = read(xsb);
    let result = solver.solve(&level, 100_000);
    assert!(result.solved(), "no solution for\n{xsb}");
    let (boxes, pushes) = replay(&level, &result.moves());
    assert!(solver.is_solved(&boxes));
    assert_eq!(pushes, result.push_count());
    (result.push_count(), result.moves())
}

// ── Searching ─────────────────────────────────────────────────────────────

#[test]
fn a_push_beside_the_goal_solves() {
    let (level, solver) = read("#######\n#     #\n# @$. #\n#     #\n#######");
    let result = solver.solve(&level, 10);
    assert!(result.solved());
    assert_eq!(result.push_count(), 1);
    assert_eq!(result.pushes(), vec![3, 2, 4, 2]);
    assert_eq!(result.moves(), "R");
}

#[test]
fn a_solved_level_needs_no_moves() {
    let (level, solver) = read("#####\n#@* #\n#####");
    let result = solver.solve(&level, 0);
    assert!(result.solved());
    assert_eq!(result.push_count(), 0);
    assert!(result.pushes().is_empty());
    assert_eq!(result.moves(), "");
}

#[test]
fn the_limit_ends_a_search() {
    let (level, solver) = read("#######\n#     #\n# @$. #\n#     #\n#######");
    for (limit, solved) in [(0, false), (1, false), (2, true)] {
        let result = solver.solve(&level, limit);
        assert_eq!(result.solved(), solved);
    }
    let result = solver.solve(&level, 1);
    assert_eq!(result.push_count(), 0);
    assert!(result.pushes().is_empty());
    assert_eq!(result.moves(), "");
}

#[test]
fn a_level_without_a_solution_stays_unsolved() {
    for xsb in ["####\n#$ #\n#@.#\n####", "#######\n#. @$ #\n#######", "  #####\n###   #\n# $@. #\n#######"] {
        let (level, solver) = read(xsb);
        let result = solver.solve(&level, 1000);
        assert!(!result.solved());
        assert_eq!(result.push_count(), 0);
        assert!(result.pushes().is_empty());
        assert_eq!(result.moves(), "");
    }
}

#[test]
fn a_box_is_pushed_along_a_corridor_to_its_goal() {
    assert_eq!(solve("########\n#@$ .  #\n########"), (2, "RR".to_string()));
    assert_eq!(solve("#######\n#@ $ .#\n#######"), (2, "rRR".to_string()));
    assert_eq!(solve("######\n#@$ .#\n######"), (2, "RR".to_string()));
}

#[test]
fn a_box_too_many_may_be_lost() {
    let (pushes, moves) = solve("######\n#@$  #\n### ##\n###$##\n###.##\n######");
    assert_eq!((pushes, moves.as_str()), (3, "RRdD"));
}

#[test]
fn a_box_may_wait_in_a_tunnel() {
    // Not solved by pushing boxes through the tunnels at once.
    let xsb = "#######\n##   .#\n### # #\n#  $  #\n# $. @#\n#######";
    let (level, _) = read(xsb);
    let (pushes, _) = solve(xsb);
    assert_eq!(Some(pushes), fewest_pushes(&level));
}

/// The fewest pushes that solve a level, by trying all moves.
fn fewest_pushes(level: &SokobanLevel) -> Option<u32> {
    let w = level.width as usize;
    let walls: Vec<bool> = (0..level.walls.len()).map(|i| level.walls.get_flat(i)).collect();
    let goals: Vec<bool> = (0..level.goals.len()).map(|i| level.goals.get_flat(i)).collect();
    let boxes: Vec<bool> = (0..level.boxes.len()).map(|i| level.boxes.get_flat(i)).collect();
    let start = (boxes, level.player_pos as usize);
    let mut best: HashMap<(Vec<bool>, usize), u32> = HashMap::new();
    let mut queue = VecDeque::new();
    best.insert(start.clone(), 0);
    queue.push_back((start, 0u32));
    while let Some((state, n)) = queue.pop_front() {
        if best[&state] < n {
            continue;
        }
        let (boxes, player) = &state;
        if (0..goals.len()).all(|i| !goals[i] || boxes[i]) {
            return Some(n);
        }
        for step in [1i64, -1, w as i64, -(w as i64)] {
            let next = (*player as i64 + step) as usize;
            if walls[next] {
                continue;
            }
            let mut after = boxes.clone();
            let mut cost = n;
            if boxes[next] {
                let to = (next as i64 + step) as usize;
                if walls[to] || boxes[to] {
                    continue;
                }
                after[next] = false;
                after[to] = true;
                cost += 1;
            }
            let state = (after, next);
            if best.get(&state).map_or(true, |&b| cost < b) {
                best.insert(state.clone(), cost);
                if cost == n {
                    queue.push_front((state, cost));
                } else {
                    queue.push_back((state, cost));
                }
            }
        }
    }
    None
}

/// A grid of walls and floor with a player, boxes and as many goals.
fn random_level(next: &mut impl FnMut(usize) -> usize, w: usize, h: usize, n: usize) -> String {
    let mut rows = vec![vec!['#'; w]; h];
    for row in rows.iter_mut().take(h - 1).skip(1) {
        for c in row.iter_mut().take(w - 1).skip(1) {
            if next(6) > 0 {
                *c = ' ';
            }
        }
    }
    let mut put = |c: char| loop {
        let (x, y) = (1 + next(w - 2), 1 + next(h - 2));
        if c == '@' || rows[y][x] == ' ' || rows[y][x] == '#' {
            rows[y][x] = c;
            return;
        }
    };
    for _ in 0..n {
        put('.');
    }
    for _ in 0..n {
        put('$');
    }
    put('@');
    rows.iter().map(|r| r.iter().collect::<String>()).collect::<Vec<String>>().join("\n")
}

#[test]
fn solutions_have_the_fewest_pushes_of_all() {
    let mut seed: u64 = 7;
    let mut next = move |n: usize| {
        seed = seed.wrapping_mul(6364136223846793005).wrapping_add(1442695040888963407);
        (seed >> 33) as usize % n
    };
    let mut solved = 0;
    for i in 0..1500 {
        let xsb = random_level(&mut next, 6 + i % 3, 6 + i % 2, 1 + i % 3);
        let (level, solver) = read(&xsb);
        let result = solver.solve(&level, 1_000_000);
        let fewest = fewest_pushes(&level);
        assert_eq!(result.solved(), fewest.is_some(), "{xsb}");
        if let Some(n) = fewest {
            assert_eq!(result.push_count(), n, "{xsb}");
            let (boxes, pushes) = replay(&level, &result.moves());
            assert!(solver.is_solved(&boxes));
            assert_eq!(pushes, n);
            solved += 1;
        }
    }
    assert!(solved > 50);
}

#[test]
fn a_larger_limit_keeps_what_was_found() {
    let (level, solver) = read("#######\n#.   .#\n# $ $ #\n#  @  #\n#     #\n#######");
    let all = solver.solve(&level, 1_000_000);
    assert!(all.solved());
    let mut found = false;
    for limit in 0..400 {
        let result = solver.solve(&level, limit);
        assert!(result.solved() || !found);
        if result.solved() {
            found = true;
            assert_eq!(result.push_count(), all.push_count());
            assert_eq!(result.pushes(), all.pushes());
            assert_eq!(result.moves(), all.moves());
        }
    }
}

#[test]
fn solutions_can_be_played() {
    assert_eq!(solve("#####\n#@$.#\n#####"), (1, "R".to_string()));
    solve("########\n#      #\n# $@ . #\n#      #\n########");
    solve("########\n#      #\n# .$$. #\n#  @   #\n#      #\n########");
    solve("#########\n#   #   #\n# $   . #\n#@  #   #\n#########");
    solve("#######\n#.   .#\n# $ $ #\n#  @  #\n# $ $ #\n#.   .#\n#######");
    solve("########\n#   #  #\n# $@$..#\n#   #  #\n########");
}

#[test]
fn fewest_pushes_are_found_in_the_open() {
    let (pushes, moves) = solve("#########\n#       #\n#  @    #\n#   $   #\n#     . #\n#       #\n#########");
    assert_eq!(pushes, 3);
    assert_eq!(moves.chars().filter(|c| c.is_ascii_uppercase()).count(), 3);
}

// ── The estimate ──────────────────────────────────────────────────────────

#[test]
fn the_estimate_is_the_cheapest_assignment() {
    let (level, solver) = read("#########\n#       #\n#  @    #\n#   $   #\n#     . #\n#       #\n#########");
    assert_eq!(solver.heuristic(&level.boxes), 3);
    let (level, solver) = read("#########\n#       #\n# .$ $. #\n#  @    #\n#########");
    assert_eq!(solver.heuristic(&level.boxes), 2);
    let (_, solver) = read("####\n#@.#\n####");
    assert_eq!(solver.heuristic(&BitPlane::new(4, 3)), 0);
}

#[test]
fn a_push_against_a_wall_counts_in_the_estimate() {
    let (level, solver) = read("#####\n#@$.#\n#####");
    assert_eq!(solver.heuristic(&level.boxes), 1);
}

#[test]
fn more_boxes_than_goals_have_no_assignment() {
    let (level, solver) = read("#######\n#     #\n# $ $ #\n# @ . #\n#     #\n#######");
    assert_eq!(solver.heuristic(&level.boxes), u32::MAX / 2);
}

#[test]
fn distances_count_backward_pushes() {
    let level = SokobanLevel::from_xsb("######\n#    #\n#  . #\n#    #\n######").expect("parse");
    let tables = precompute_goal_distances(&level.walls, &level.goals, 6, 5);
    assert_eq!(tables.len(), 1);
    let at = |x: usize, y: usize| tables[0][y * 6 + x];
    assert_eq!(at(3, 2), 0);
    assert_eq!(at(2, 2), 1);
    // A box by a wall cannot be pushed off it.
    assert_eq!(at(1, 2), u32::MAX);
    assert_eq!(at(4, 2), u32::MAX);
    assert_eq!(at(3, 1), u32::MAX);
    assert_eq!(at(0, 0), u32::MAX);
}

#[test]
fn a_box_is_one_push_from_a_goal_by_a_wall() {
    let level = SokobanLevel::from_xsb("#####\n#  .#\n#####").expect("parse");
    let tables = precompute_goal_distances(&level.walls, &level.goals, 5, 3);
    assert_eq!(tables.len(), 1);
    assert_eq!(tables[0].len(), 15);
    assert_eq!(tables[0][8], 0);
    assert_eq!(tables[0][7], 1);
    assert_eq!(tables[0][6], u32::MAX);
}

// ── The player's region ───────────────────────────────────────────────────

#[test]
fn the_player_is_normalised_to_the_first_cell_of_its_region() {
    let (level, solver) = read("#######\n#  #  #\n#  $  #\n#@ #  #\n#######");
    for (x, y) in [(1u16, 1u16), (2, 1), (1, 3), (2, 3)] {
        assert_eq!(solver.normalise_player(y * 7 + x, &level.boxes), 8);
    }
    assert_eq!(solver.normalise_player(3 * 7 + 5, &level.boxes), 7 + 4);
    // A position on a box stays as it is.
    assert_eq!(solver.normalise_player(2 * 7 + 3, &level.boxes), 2 * 7 + 3);
}

#[test]
fn a_region_ends_at_walls_and_boxes() {
    let level = SokobanLevel::from_xsb("#######\n#  #  #\n#  $  #\n#@ #  #\n#######").expect("parse");
    let region = flood_fill(1, 3, &level.walls, &level.boxes, 7, 5);
    assert_eq!(region.iter_set_bits(), vec![(1, 1), (2, 1), (1, 2), (2, 2), (1, 3), (2, 3)]);
    let nothing = flood_fill(3, 2, &level.walls, &level.boxes, 7, 5);
    assert!(nothing.iter_set_bits().is_empty());
}

#[test]
fn walks_are_shortest_and_prefer_up_down_left_right() {
    let level = SokobanLevel::from_xsb("#####\n#   #\n#   #\n#   #\n#####").expect("parse");
    let walk = |a: (u8, u8), b: (u8, u8)| {
        bfs_path(a.0, a.1, b.0, b.1, &level.walls, &level.boxes, 5, 5)
    };
    assert_eq!(walk((1, 1), (1, 1)), vec![]);
    assert_eq!(walk((1, 1), (3, 2)), vec![(0, 1), (1, 0), (1, 0)]);
    assert_eq!(walk((3, 3), (1, 2)), vec![(0, -1), (-1, 0), (-1, 0)]);
    assert_eq!(walk((1, 1), (0, 0)), vec![]);
}

// ── Pushes ────────────────────────────────────────────────────────────────

const ROOMS: &str = "#########\n#   #   #\n#@ $   .#\n#   #   #\n#########";

#[test]
fn a_passage_between_walls_is_a_tunnel() {
    let (level, solver) = read(ROOMS);
    let tunnels = compute_tunnels(&level.walls, &level.goals, &solver.dead, 9, 5);
    assert_eq!(tunnels[2 * 9 + 4], [false, false, true, true]);
    assert_eq!(tunnels[2 * 9 + 3], [false, false, false, false]);
    assert_eq!(tunnels.len(), 45);
}

#[test]
fn a_box_is_pushed_through_a_tunnel_at_once() {
    let (level, solver) = read(ROOMS);
    let pushes = solver.generate_pushes(&State { boxes: level.boxes, player_norm: level.player_pos });
    let seen: Vec<(u8, u8, u8, u8, usize, u32)> = pushes
        .iter()
        .map(|p| (p.from_x, p.from_y, p.to_x, p.to_y, p.from_flat, p.steps))
        .collect();
    assert_eq!(
        seen,
        vec![(3, 2, 3, 1, 30, 1), (3, 2, 3, 3, 12, 1), (3, 2, 5, 2, 20, 2)],
    );
}

#[test]
fn moves_hold_a_letter_for_every_cell() {
    let (level, _) = read(ROOMS);
    let push = Push { from_x: 3, from_y: 2, to_x: 5, to_y: 2, from_flat: 20, steps: 2 };
    let moves = reconstruct_moves(level.player_pos, &level.boxes, &vec![push], 9, &level.walls);
    assert_eq!(moves, "rRR");
    let up = Push { from_x: 3, from_y: 2, to_x: 3, to_y: 1, from_flat: 30, steps: 1 };
    let moves = reconstruct_moves(level.player_pos, &level.boxes, &vec![up], 9, &level.walls);
    assert_eq!(moves, "drrU");
    let (boxes, pushes) = replay(&level, "drrU");
    assert_eq!((boxes.iter_set_bits(), pushes), (vec![(3, 1)], 1));
}

// ── Frontier and table ────────────────────────────────────────────────────

fn node(f: u64, cost: u64) -> Node {
    Node { f, cost, state: State { boxes: BitPlane::new(2, 2), player_norm: 0 }, path: vec![] }
}

#[test]
fn nodes_come_out_by_estimate() {
    let mut frontier = Frontier::new();
    assert!(frontier.pop().is_none());
    let mut seed: u64 = 99;
    let mut sorted = vec![];
    for i in 0..500 {
        seed = seed.wrapping_mul(6364136223846793005).wrapping_add(1442695040888963407);
        let f = (seed >> 33) % 50;
        sorted.push(f);
        frontier.push(node(f, i));
    }
    sorted.sort();
    let mut costs = vec![];
    for f in sorted {
        let n = frontier.pop().unwrap();
        assert_eq!(n.f, f);
        costs.push(n.cost);
    }
    assert!(frontier.pop().is_none());
    costs.sort();
    assert_eq!(costs, (0..500).collect::<Vec<u64>>());
}

#[test]
fn states_are_found_again() {
    let mut table = Table::new();
    let mut boxes = BitPlane::new(3, 3);
    boxes.set(1, 1);
    assert_eq!(table.get(&boxes, 4), None);
    table.insert(boxes.clone(), 4, 10);
    table.insert(boxes.clone(), 5, 11);
    assert_eq!(table.get(&boxes, 4), Some(10));
    assert_eq!(table.get(&boxes, 5), Some(11));
    table.insert(boxes.clone(), 4, 7);
    assert_eq!(table.get(&boxes, 4), Some(7));
    boxes.set(2, 2);
    assert_eq!(table.get(&boxes, 4), None);
}

#[test]
fn the_player_is_in_the_region_that_the_box_left() {
    let (level, solver) = read("#######\n#  #  #\n#@ $  #\n#  #  #\n#######");
    let pushes = solver.generate_pushes(&State {
        boxes: level.boxes.clone(),
        player_norm: level.player_pos,
    });
    assert_eq!(pushes.len(), 1);
    let push = pushes[0];
    let mut boxes = level.boxes.clone();
    boxes.clear(push.from_x, push.from_y);
    boxes.set(push.to_x, push.to_y);
    let old = push.from_y as u16 * 7 + push.from_x as u16;
    assert_eq!(
        solver.normalise_player(push.from_flat as u16, &boxes),
        solver.normalise_player(old, &boxes),
    );
}

#[test]
fn wide_and_high_levels_are_solved() {
    let edge = "#".repeat(200);
    let gap = " ".repeat(150);
    let row = format!("#{gap}@$  .{}#", " ".repeat(200 - 157));
    let (pushes, moves) = solve(&format!("{edge}\n{row}\n{edge}"));
    assert_eq!((pushes, moves.as_str()), (3, "RRR"));
    let mut rows = vec!["#####".to_string(), "#@  #".to_string()];
    for _ in 0..180 {
        rows.push("#   #".to_string());
    }
    rows.push("# $ #".to_string());
    rows.push("#   #".to_string());
    rows.push("# . #".to_string());
    rows.push("#   #".to_string());
    rows.push("#####".to_string());
    let (pushes, _) = solve(&rows.join("\n"));
    assert_eq!(pushes, 2);
}

#[test]
fn a_box_inside_a_wall_stays_there() {
    let mut level = SokobanLevel::from_xsb("######\n#@  .#\n######").expect("parse");
    level.walls.set(2, 1);
    level.boxes.set(2, 1);
    let solver = Solver::new(&level);
    let state = State { boxes: level.boxes.clone(), player_norm: level.player_pos };
    assert!(solver.generate_pushes(&state).is_empty());
    assert!(!solver.solve(&level, 1000).solved());
}
