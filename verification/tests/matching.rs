use sokoban_utils::matching::hungarian_matching;

#[test]
fn hungarian_zero_workers() {
    assert_eq!(hungarian_matching(0, 0, |_, _| 0u32), 0);
    assert_eq!(hungarian_matching(0, 3, |_, _| 5u32), 0);
}

#[test]
fn hungarian_single_pair() {
    assert_eq!(hungarian_matching(1, 1, |_, _| 7u32), 7);
}

#[test]
fn hungarian_single_infeasible() {
    // The only goal is unreachable.
    assert_eq!(hungarian_matching(1, 1, |_, _| u32::MAX), u32::MAX / 2);
}

#[test]
fn hungarian_more_goals_than_boxes() {
    // 1 box, 3 goals: cheapest is goal 1 (cost 2).
    let costs = [10u32, 2, 8];
    assert_eq!(hungarian_matching(1, 3, |_, gi| costs[gi]), 2);
}

/// The matching gives the true optimum, which is higher than the sum of the boxes' cheapest goals:
/// box 0 to goal 0 and box 1 to goal 1, 1 + 3.
#[test]
fn hungarian_tighter_than_greedy() {
    let costs = [[1u32, 10], [2u32, 3]];
    let result = hungarian_matching(2, 2, |bi, gi| costs[bi][gi]);
    assert_eq!(result, 4);

    // Confirm greedy underestimates (it would return 3).
    let greedy: u32 = costs.iter().map(|row| *row.iter().min().unwrap()).sum();
    assert_eq!(greedy, 3);
    assert!(result > greedy);
}

#[test]
fn hungarian_3x3_known_optimum() {
    // The six matchings cost 20, 10, 20, 7, 18 and 15.
    let costs = [[3u32, 4, 5], [7u32, 8, 1], [2u32, 6, 9]];
    assert_eq!(hungarian_matching(3, 3, |bi, gi| costs[bi][gi]), 7);
}

#[test]
fn hungarian_identity_matrix() {
    // n×n identity: optimal is the diagonal, cost = 0 * n.
    // Use costs: diagonal = 0, off-diagonal = 100.
    let n = 5usize;
    let result = hungarian_matching(n, n, |bi, gi| if bi == gi { 0 } else { 100 });
    assert_eq!(result, 0);
}

#[test]
fn hungarian_all_equal() {
    // All costs equal → any matching is optimal; total = n * cost.
    let result = hungarian_matching(4, 4, |_, _| 6u32);
    assert_eq!(result, 24);
}

#[test]
fn hungarian_workers_exceed_jobs_infeasible() {
    assert_eq!(hungarian_matching(3, 2, |_, _| 1u32), u32::MAX / 2);
}

/// The cheapest assignment of the workers from `i` on to jobs that are not taken, by trying all.
fn cheapest(costs: &[Vec<u32>], i: usize, taken: &mut Vec<bool>) -> Option<u64> {
    if i == costs.len() {
        return Some(0);
    }
    let mut best = None;
    for j in 0..taken.len() {
        if !taken[j] && costs[i][j] < u32::MAX / 2 {
            taken[j] = true;
            if let Some(rest) = cheapest(costs, i + 1, taken) {
                let sum = rest + costs[i][j] as u64;
                if best.map_or(true, |b| sum < b) {
                    best = Some(sum);
                }
            }
            taken[j] = false;
        }
    }
    best
}

#[test]
fn the_matching_is_the_cheapest_of_all() {
    let mut seed: u64 = 12345;
    let mut next = move |n: u64| {
        seed = seed.wrapping_mul(6364136223846793005).wrapping_add(1442695040888963407);
        (seed >> 33) % n
    };
    for _ in 0..400 {
        let n = 1 + next(5) as usize;
        let m = n + next(3) as usize;
        let costs: Vec<Vec<u32>> = (0..n)
            .map(|_| {
                (0..m).map(|_| if next(4) == 0 { u32::MAX } else { next(30) as u32 }).collect()
            })
            .collect();
        let found = hungarian_matching(n, m, |i, j| costs[i][j]);
        match cheapest(&costs, 0, &mut vec![false; m]) {
            Some(best) => assert_eq!(found as u64, best),
            None => assert_eq!(found, u32::MAX / 2),
        }
    }
}

#[test]
fn a_sum_past_32_bits_counts_as_the_largest_number() {
    assert_eq!(hungarian_matching(3, 3, |_, _| 2_000_000_000), u32::MAX);
    assert_eq!(hungarian_matching(2, 2, |_, _| 2_000_000_000), 4_000_000_000);
}

#[test]
fn a_cost_of_half_the_range_is_infeasible() {
    assert_eq!(hungarian_matching(1, 1, |_, _| u32::MAX / 2 - 1), u32::MAX / 2 - 1);
    assert_eq!(hungarian_matching(1, 2, |_, j| if j == 0 { u32::MAX / 2 } else { 9 }), 9);
}
