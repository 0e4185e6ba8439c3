use drencher::baseline::{Heuristic, ModCount, Random};
use drencher::board::Board;
use drencher::color::Color;
use drencher::exact::Exact;
use drencher::graph::{generate_graph, get_island};
use drencher::solver::{check_solution, Solver};
use std::collections::{HashSet, VecDeque};

fn board_of(size: u8, tags: &[u64]) -> Board {
    let mut n: u64 = 0;
    for &t in tags.iter().rev() {
        n = n * 6 + t;
    }
    Board::permutation(size, n)
}

fn tags(b: &Board) -> Vec<u8> {
    let mut out = Vec::new();
    for y in 0..b.size() {
        for x in 0..b.size() {
            out.push(b.at(x, y).tag);
        }
    }
    out
}

fn replays_to_uniform(b: &Board, moves: &[Color]) -> bool {
    let mut b = b.clone();
    for &c in moves {
        b.drench(c);
    }
    b.is_drenched()
}

/// Length of a shortest solution, by breadth-first search over boards.
fn brute_force_len(b: &Board) -> usize {
    let mut seen = HashSet::new();
    let mut queue = VecDeque::new();
    seen.insert(tags(b));
    queue.push_back((b.clone(), 0usize));
    while let Some((cur, depth)) = queue.pop_front() {
        if cur.is_drenched() {
            return depth;
        }
        for t in 0..6u8 {
            let mut next = cur.clone();
            next.drench(Color::new(t));
            if seen.insert(tags(&next)) {
                queue.push_back((next, depth + 1));
            }
        }
    }
    unreachable!()
}

#[test]
fn graph_of_four_distinct_colors_is_a_cycle() {
    let b = board_of(2, &[0, 1, 2, 3]);
    let g = generate_graph(&b).unwrap();
    assert_eq!(g.len(), 4);
    for node in &g.nodes {
        assert_eq!(node.adjacent.len(), 2);
    }
    // Diagonal cells do not touch: (0,0) and (1,1) are nodes 0 and 3.
    assert!(!g.nodes[0].adjacent.contains(3));
    assert!(!g.nodes[1].adjacent.contains(2));
    for i in 0..4u8 {
        for j in g.nodes[i as usize].adjacent.members() {
            assert!(g.nodes[j as usize].adjacent.contains(i));
        }
    }
}

#[test]
fn graph_of_uniform_board_has_one_node() {
    for size in 1..=16u8 {
        let g = generate_graph(&Board::uniform(size)).unwrap();
        assert_eq!(g.len(), 1);
        assert!(g.nodes[0].adjacent.is_empty());
    }
}

#[test]
fn graph_node_zero_is_top_left_island() {
    let b = board_of(3, &[4, 4, 1, 2, 4, 1, 2, 2, 1]);
    let g = generate_graph(&b).unwrap();
    assert_eq!(g.len(), 3);
    assert_eq!(g.nodes[0].color.tag, 4);
    assert_eq!(g.nodes[0].adjacent.len(), 2);
}

#[test]
fn graph_with_too_many_islands_is_refused() {
    // A random board of 1600 cells has far more than 256 islands.
    let b = Board::deterministic_random(40, 3);
    assert!(generate_graph(&b).is_none());
    assert_eq!(Exact.solve(b), Err(vec![]));
}

#[test]
fn island_of_a_middle_cell() {
    let b = board_of(3, &[1, 0, 1, 0, 0, 0, 1, 0, 1]);
    let (mut island, mut border) = get_island(&b, (1, 1));
    island.sort();
    border.sort();
    assert_eq!(island, vec![(0, 1), (1, 0), (1, 1), (1, 2), (2, 1)]);
    assert_eq!(border, vec![(0, 0), (0, 2), (2, 0), (2, 2)]);
}

#[test]
fn checkerboard_takes_two_moves() {
    let b = board_of(2, &[0, 1, 1, 0]);
    let sol = Exact.solve(b.clone()).unwrap();
    assert_eq!(sol.len(), 2);
    assert!(replays_to_uniform(&b, &sol));
}

#[test]
fn uniform_board_gives_empty_solution() {
    for size in 1..=5u8 {
        assert_eq!(Exact.solve(Board::uniform(size)), Ok(vec![]));
    }
    assert_eq!(Exact.solve(Board::permutation(3, 0)), Ok(vec![]));
}

#[test]
fn exact_solutions_drench_the_board() {
    for id in 0..20u64 {
        let b = Board::deterministic_random(6, id);
        let sol = Exact.solve(b.clone()).unwrap();
        assert!(replays_to_uniform(&b, &sol));
    }
}

#[test]
fn exact_is_minimal_on_small_boards() {
    for n in 0..1296u64 {
        let b = Board::permutation(2, n);
        let sol = Exact.solve(b.clone()).unwrap();
        assert_eq!(sol.len(), brute_force_len(&b), "board {}", n);
    }
    for n in (0..10_000_000u64).step_by(99_991) {
        let b = Board::permutation(3, n);
        let sol = Exact.solve(b.clone()).unwrap();
        assert_eq!(sol.len(), brute_force_len(&b), "board {}", n);
    }
    for id in 0..10u64 {
        let b = Board::deterministic_random(4, id);
        let sol = Exact.solve(b.clone()).unwrap();
        assert_eq!(sol.len(), brute_force_len(&b), "board {}", id);
    }
}

#[test]
fn pruning_keeps_solution_length() {
    for id in 0..10u64 {
        let b = Board::deterministic_random(5, id);
        let pruned = Exact.solve_with(b.clone(), true).unwrap();
        let full = Exact.solve_with(b.clone(), false).unwrap();
        assert_eq!(pruned.len(), full.len());
        assert!(replays_to_uniform(&b, &full));
    }
}

#[test]
fn check_solution_accepts_and_refuses() {
    let b = board_of(2, &[0, 1, 1, 0]);
    let good = vec![Color::new(1), Color::new(0)];
    assert_eq!(check_solution(b.clone(), good.clone()), Ok(good));
    let bad = vec![Color::new(1)];
    assert_eq!(check_solution(b, bad.clone()), Err(bad));
}

#[test]
fn baselines_drench_when_they_succeed() {
    for id in 0..5u64 {
        let b = Board::deterministic_random(6, id);
        let h = Heuristic.solve(b.clone()).unwrap();
        assert!(replays_to_uniform(&b, &h));
        let m = ModCount.solve(b.clone()).unwrap();
        assert!(replays_to_uniform(&b, &m));
        let ex = Exact.solve(b.clone()).unwrap();
        assert!(h.len() >= ex.len());
        assert!(m.len() >= ex.len());
        match Random.solve(b.clone()) {
            Ok(r) => assert!(replays_to_uniform(&b, &r)),
            Err(r) => assert_eq!(r.len(), 1000),
        }
    }
}

#[test]
fn mod_count_cycles_colors() {
    // 1 1
    // 1 3 : colors 0, 1, 2 and 3 are played in turn until one color is left.
    let b = board_of(2, &[1, 1, 1, 3]);
    let m = ModCount.solve(b).unwrap();
    let tags: Vec<u8> = m.iter().map(|c| c.tag).collect();
    assert_eq!(tags, vec![0, 1, 2, 3]);
}

#[test]
fn heuristic_picks_most_common_border_color() {
    // 0 1 1
    // 2 1 1
    // 2 1 1 : the border holds one cell of color 1 and one of color 2; the
    // tie goes to the lower tag.
    let b = board_of(3, &[0, 1, 1, 2, 1, 1, 2, 1, 1]);
    let h = Heuristic.solve(b).unwrap();
    assert_eq!(h[0].tag, 1);
}

#[test]
fn solvers_do_not_print() {
    assert!(!Exact.prints_output());
    assert!(!Heuristic.prints_output());
}

#[test]
fn heuristic_and_mod_count_finish_large_boards() {
    for id in 0..3u64 {
        let b = Board::deterministic_random(14, id);
        let h = Heuristic.solve(b.clone()).unwrap();
        assert!(replays_to_uniform(&b, &h));
        assert!(h.len() <= 14 * 14);
        let m = ModCount.solve(b.clone()).unwrap();
        assert!(replays_to_uniform(&b, &m));
    }
}

#[test]
fn exact_on_a_board_with_few_islands_beyond_sixteen() {
    // A 20 x 20 board of one color has a single island and needs no move.
    assert_eq!(Exact.solve(Board::uniform(20)), Ok(vec![]));
}

#[test]
fn exact_moves_are_game_colors() {
    for id in 0..5u64 {
        let sol = Exact.solve(Board::deterministic_random(5, id)).unwrap();
        assert!(sol.iter().all(|c| c.tag < 6));
    }
}

#[test]
fn random_walk_stops_at_the_first_drenching_move() {
    let b = Board::deterministic_random(3, 7);
    if let Ok(s) = Random.solve(b.clone()) {
        for k in 0..s.len() {
            assert!(!replays_to_uniform(&b, &s[..k]));
        }
        assert!(replays_to_uniform(&b, &s));
    }
}

#[test]
fn baselines_stop_at_the_first_drenching_move() {
    let b = Board::deterministic_random(5, 4);
    for s in [Heuristic.solve(b.clone()).unwrap(), ModCount.solve(b.clone()).unwrap()] {
        for k in 0..s.len() {
            assert!(!replays_to_uniform(&b, &s[..k]));
        }
    }
}
