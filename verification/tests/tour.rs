use ebc_2024::errors::SolveError;
use ebc_2024::tour::{find_full_path, Edge};

fn edge(to: usize, dist: usize, last: u32, crossed: u32) -> Edge {
    Edge { to, dist, last, crossed }
}

#[test]
fn single_adjacent_waypoint_costs_two() {
    // A start waypoint and one herb one step away: out and back is 2.
    let em = vec![vec![edge(1, 1, 0b10, 0b10)], vec![edge(0, 1, 0b01, 0b01)]];
    let r = find_full_path(&em, 0, 0b11, 0b01, 0);
    assert_eq!(r, Ok(2));
}

#[test]
fn zero_required_waypoints_costs_zero() {
    // Nothing left to collect: the tour is over before it starts.
    let em = vec![vec![edge(0, 1, 0b1, 0b1)]];
    let r = find_full_path(&em, 0, 0b1, 0b1, 0);
    assert_eq!(r, Ok(0));
}

#[test]
fn base_distance_is_returned_for_trivial_tour() {
    let em = vec![vec![]];
    let r = find_full_path(&em, 0, 0b1, 0b1, 2);
    assert_eq!(r, Ok(2));
}

#[test]
fn unreachable_waypoints_are_unsolved() {
    // Two waypoints with no edges at all: the search exhausts its queue.
    let em = vec![vec![], vec![], vec![]];
    let r = find_full_path(&em, 0, 0b111, 0b001, 0);
    assert_eq!(r, Err(SolveError::Unsolved));
}

#[test]
fn tour_search_is_deterministic() {
    let em = vec![
        vec![edge(1, 3, 0b010, 0b010), edge(2, 4, 0b100, 0b100)],
        vec![edge(0, 3, 0b001, 0b001), edge(2, 2, 0b100, 0b100)],
        vec![edge(0, 4, 0b001, 0b001), edge(1, 2, 0b010, 0b010)],
    ];
    let r1 = find_full_path(&em, 0, 0b111, 0b001, 0);
    let r2 = find_full_path(&em, 0, 0b111, 0b001, 0);
    assert_eq!(r1, r2);
    assert_eq!(r1, Ok(9));
}

fn corner_map() -> Vec<Vec<Edge>> {
    // Start in the middle of an open square, four waypoints at its corners.
    // Distances are grid distances of a 3x3 open block with the start at the
    // center: 2 to each corner, 2 between corners along a side, 4 across.
    let b = [0b00001u32, 0b00010, 0b00100, 0b01000, 0b10000];
    let mut em = Vec::new();
    for fm in 0..5usize {
        let mut row = Vec::new();
        for to in 0..5usize {
            if to == fm {
                continue;
            }
            let d = if fm == 0 || to == 0 {
                2
            } else {
                // corners 1,2,3,4 arranged around the square in order
                let diff = (fm as i64 - to as i64).rem_euclid(4);
                if diff == 2 { 4 } else { 2 }
            };
            row.push(edge(to, d, b[to], b[to]));
        }
        em.push(row);
    }
    em
}

#[test]
fn four_corners_match_brute_force() {
    let em = corner_map();
    let r = find_full_path(&em, 0, 0b11111, 0b00001, 0).unwrap();
    // Brute force over all visiting orders of the four corners.
    let mut best = usize::MAX;
    let corners = [1usize, 2, 3, 4];
    let mut perm = corners;
    // enumerate permutations by index arithmetic
    for a in 0..4 {
        for bb in 0..4 {
            if bb == a {
                continue;
            }
            for c in 0..4 {
                if c == a || c == bb {
                    continue;
                }
                let d = 6 - a - bb - c;
                perm = [corners[a], corners[bb], corners[c], corners[d]];
                let mut cost = 0usize;
                let mut at = 0usize;
                for &p in perm.iter() {
                    cost += dist(&em, at, p);
                    at = p;
                }
                cost += dist(&em, at, 0);
                if cost < best {
                    best = cost;
                }
            }
        }
    }
    assert_eq!(r, best);
}

fn dist(em: &Vec<Vec<Edge>>, from: usize, to: usize) -> usize {
    for e in em[from].iter() {
        if e.to == to {
            return e.dist;
        }
    }
    panic!("missing edge");
}

#[test]
fn lower_bound_holds_for_sample_map() {
    let em = corner_map();
    let r = find_full_path(&em, 0, 0b11111, 0b00001, 0).unwrap();
    // The result is at least the round trip to the nearest waypoint.
    assert!(r >= 2 + 2);
}
