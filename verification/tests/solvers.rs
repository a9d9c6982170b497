use egypt::bfs::BfsSolver;
use egypt::board::Board;
use egypt::genetic::{
    comes_before, cross, insert_rising, make_child, operation_of, weights_of_operations, Drawn,
    GeneticSolver, Operation,
};
use egypt::genome::{BoardState, Candidate};
use egypt::ida::IdaSolver;
use egypt::util::verify_solution;
use egypt::Solver;

const ONE_MOVE: &str = "\
1 1
########
#......#
#......#
#......#
0..<...0
#......#
#......#
########
";

const TWO_ROWS: &str = "\
1 1
########
#......#
#......#
#......#
0..<...0
#......#
1..<...1
########
";

const TEN_MOVES: &str = "\
1 1
########
#.1..1.#
#.>....#
#......#
0..<...0
#......#
#...^..#
########
";

const STUCK: &str = "\
1 1
########
#......#
#..1...#
#......#
#..<...#
#......#
#......#
########
";

#[test]
fn bfs_finds_every_shortest_solution() {
    let mut solver = BfsSolver::new(1_000_000);
    let board = Board::from_str(ONE_MOVE).unwrap();
    assert_eq!(vec![vec![35]], solver.solve(&board).unwrap());
    let board = Board::from_str(TWO_ROWS).unwrap();
    assert_eq!(vec![vec![35, 51], vec![51, 35]], solver.solve(&board).unwrap());
    let board = Board::from_str(TEN_MOVES).unwrap();
    let mut sols = solver.solve(&board).unwrap();
    sols.sort();
    assert_eq!(
        vec![vec![18, 19, 52, 44, 35, 34, 34, 4, 5, 6], vec![52, 44, 35, 34, 34, 10, 11, 12, 13, 14]],
        sols
    );
}

#[test]
fn bfs_of_a_solved_board_is_the_empty_solution() {
    let mut solver = BfsSolver::new(100);
    let mut board = Board::from_str(ONE_MOVE).unwrap();
    board.move_(35);
    assert_eq!(vec![Vec::<u8>::new()], solver.solve(&board).unwrap());
}

#[test]
fn bfs_fails_when_nothing_is_left_to_look_at() {
    let mut solver = BfsSolver::new(100);
    let board = Board::from_str(STUCK).unwrap();
    let err = solver.solve(&board).unwrap_err();
    assert!(err.solutions().is_empty());
    // neither solved nor stuck, but no rotator to select
    let board = Board::from_str(
        "1 1\n########\n#......#\n#.3..3.#\n#......#\n#......#\n#......#\n#......#\n########\n",
    )
    .unwrap();
    assert!(!board.is_solved() && !board.is_stuck() && board.moves().is_empty());
    let err = solver.solve(&board).unwrap_err();
    assert!(err.solutions().is_empty());
}

#[test]
fn bfs_gives_up_when_the_queue_outgrows_the_ceiling() {
    let mut solver = BfsSolver::new(1);
    let board = Board::from_str(TWO_ROWS).unwrap();
    let err = solver.solve(&board).unwrap_err();
    assert!(err.solutions().is_empty());
    let mut solver = BfsSolver::new(10);
    let board = Board::from_str(TWO_ROWS).unwrap();
    assert_eq!(vec![vec![35, 51], vec![51, 35]], solver.solve(&board).unwrap());
}

#[test]
fn bfs_failure_carries_the_solutions_found_so_far() {
    let mut solver = BfsSolver::new(100_000);
    let board = Board::from_str(TEN_MOVES).unwrap();
    let err = solver.solve(&board).unwrap_err();
    assert_eq!(vec![vec![18, 19, 52, 44, 35, 34, 34, 4, 5, 6]], err.solutions().to_vec());
}

#[test]
fn ida_failure_carries_the_solutions_found_so_far() {
    let board = Board::from_str(TWO_ROWS).unwrap();
    let mut solver = IdaSolver::new(2, 3);
    let err = solver.solve(&board).unwrap_err();
    assert_eq!(vec![vec![35, 51]], err.solutions().to_vec());
    let mut solver = IdaSolver::new(2, 2);
    let err = solver.solve(&board).unwrap_err();
    assert!(err.solutions().is_empty());
    let mut solver = IdaSolver::new(2, 7);
    assert_eq!(vec![vec![35, 51], vec![51, 35]], solver.solve(&board).unwrap());
}

#[test]
fn test_bfs_iddfs_ida() {
    let mut solver_bfs = BfsSolver::new(1_000_000);
    let mut solver_ida = IdaSolver::new(0, 1_000_000_000_000_000_000);
    for text in [ONE_MOVE, TWO_ROWS, TEN_MOVES] {
        let board = Board::from_str(text).unwrap();
        let mut sols_bfs = solver_bfs.solve(&board).unwrap();
        sols_bfs.sort();
        let mut sols_ida = solver_ida.solve(&board).unwrap();
        sols_ida.sort();
        assert_eq!(sols_bfs, sols_ida);
        for sol in &sols_ida {
            assert!(verify_solution(&board, sol));
        }
    }
}

#[test]
fn lower_bound_never_exceeds_the_moves_left() {
    let mut solver = BfsSolver::new(1_000_000);
    for text in [ONE_MOVE, TWO_ROWS, TEN_MOVES] {
        let board = Board::from_str(text).unwrap();
        for sol in solver.solve(&board).unwrap() {
            let mut cur = board.clone();
            for (d, &to) in sol.iter().enumerate() {
                assert!(!cur.is_stuck());
                assert!(cur.least_to_solve() as usize <= sol.len() - d);
                cur.move_(to);
            }
            assert!(cur.is_solved());
        }
    }
}

#[test]
fn ida_with_a_high_first_bound_finds_longer_solutions_too() {
    let board = Board::from_str(TWO_ROWS).unwrap();
    let mut solver = IdaSolver::new(2, 1_000_000);
    let mut sols = solver.solve(&board).unwrap();
    sols.sort();
    assert_eq!(vec![vec![35, 51], vec![51, 35]], sols);
    let one = Board::from_str(ONE_MOVE).unwrap();
    let mut solver = IdaSolver::new(3, 1_000_000);
    assert_eq!(vec![vec![35]], solver.solve(&one).unwrap());
}

#[test]
fn ida_gives_up_when_a_round_overruns_the_ceiling() {
    let board = Board::from_str(TEN_MOVES).unwrap();
    let mut solver = IdaSolver::new(0, 3);
    let err = solver.solve(&board).unwrap_err();
    assert!(err.solutions().is_empty());
}

#[test]
fn genetic_search_solves_the_one_move_board() {
    let board = Board::from_str(ONE_MOVE).unwrap();
    let mut solver = GeneticSolver::new(4, 2);
    let sols = solver.solve(&board).unwrap();
    assert_eq!(vec![vec![35]], sols);
}

#[test]
fn genetic_search_returns_only_solutions() {
    let board = Board::from_str(TWO_ROWS).unwrap();
    let mut solver = GeneticSolver::new(6, 3);
    let sols = solver.solve(&board).unwrap();
    let mut sorted = sols.clone();
    sorted.sort();
    sorted.dedup();
    assert_eq!(sorted, sols);
    for sol in &sols {
        assert!(verify_solution(&board, sol));
        assert!(1 <= sol.len() && sol.len() <= 6);
    }
    let stuck = Board::from_str(STUCK).unwrap();
    let mut solver = GeneticSolver::new(3, 1);
    assert_eq!(Vec::<Vec<u8>>::new(), solver.solve(&stuck).unwrap());
}

#[test]
fn a_candidate_plays_its_genome() {
    let board = Board::from_str(TWO_ROWS).unwrap();
    // the legal moves are 35 and 51, in this order, and then 34 and 51
    let c = Candidate::new(&board, vec![0, 1, 9], 4);
    assert_eq!(BoardState::Solved, c.state);
    assert_eq!(2, c.rotate);
    assert_eq!(7, c.step);
    assert_eq!(100000 - 200 - 7, c.score);
    assert_eq!(vec![35, 51], c.to_solution(&board));
    assert_eq!(vec![0, 1], c.extract(2));
    let c = Candidate::new(&board, vec![3], 4);
    assert_eq!(BoardState::Playing, c.state);
    assert_eq!(1, c.rotate);
    assert_eq!(7, c.step);
    assert_eq!(10000 + 150 - 8000 * 4 / 16, c.score);
    assert_eq!(vec![51], c.to_solution(&board));
    let stuck = Board::from_str(STUCK).unwrap();
    let c = Candidate::new(&stuck, vec![1, 2, 3], 1);
    assert_eq!(BoardState::Stuck, c.state);
    assert_eq!(0, c.rotate);
    assert_eq!(0, c.step);
    assert_eq!(1000 - 800, c.score);
    assert_eq!(Vec::<u8>::new(), c.to_solution(&stuck));
}

#[test]
fn fitness_by_outcome() {
    let board = Board::from_str(TWO_ROWS).unwrap();
    assert_eq!(100000 - 300 - 17, Candidate::evaluate(&board, BoardState::Solved, 3, 17, 4));
    assert_eq!(0, Candidate::evaluate(&board, BoardState::Solved, 1000, 1, 4));
    assert_eq!(1000 + 450 - 800, Candidate::evaluate(&board, BoardState::Stuck, 3, 17, 4));
    assert_eq!(1000 + 450 - 800 * 16 / 36, Candidate::evaluate(&board, BoardState::NoMove, 3, 17, 6));
    assert_eq!(10000 + 450 - 8000 * 16 / 36, Candidate::evaluate(&board, BoardState::Playing, 3, 17, 6));
}

#[test]
fn a_drawn_number_stands_for_an_operation() {
    assert_eq!(Operation::Copy, operation_of(0));
    assert_eq!(Operation::Crossover, operation_of(1));
    assert_eq!(Operation::Mutate, operation_of(2));
    assert_eq!(Operation::Mutate, operation_of(7));
    assert_eq!(vec![9, 90, 1], weights_of_operations());
}

#[test]
fn a_child_is_made_of_what_was_drawn() {
    let board = Board::from_str(TWO_ROWS).unwrap();
    let cands = vec![
        Candidate::new(&board, vec![1, 2, 3, 4, 5], 4),
        Candidate::new(&board, vec![6, 7, 8, 9, 10], 4),
        Candidate::new(&board, vec![11, 12, 13, 14, 15], 4),
    ];
    let drawn = |op, first, second, start, end, place, gene| Drawn { op, first, second, start, end, place, gene };
    // a copy takes the first parent, cut to the length
    assert_eq!(vec![6, 7, 8, 9], make_child(&cands, 4, &drawn(0, 1, 2, 1, 3, 2, 99)));
    assert_eq!(vec![11, 12, 13, 14, 15], make_child(&cands, 5, &drawn(0, 2, 0, 0, 0, 0, 0)));
    // a crossing takes the genes between the two places from the second parent
    assert_eq!(vec![1, 12, 13, 4], make_child(&cands, 4, &drawn(1, 0, 2, 1, 3, 2, 99)));
    assert_eq!(vec![6, 7, 3, 4, 5], make_child(&cands, 5, &drawn(1, 0, 1, 0, 2, 0, 0)));
    // a mutation replaces one gene
    assert_eq!(vec![1, 2, 99, 4], make_child(&cands, 4, &drawn(2, 0, 2, 1, 3, 2, 99)));
    assert_eq!(vec![6, 7, 8, 9, 0], make_child(&cands, 5, &drawn(5, 1, 0, 0, 0, 4, 0)));
    // genomes without genes stay as they are
    assert_eq!(Vec::<u8>::new(), make_child(&cands, 0, &drawn(1, 0, 1, 0, 0, 0, 0)));
    assert_eq!(Vec::<u8>::new(), make_child(&cands, 0, &drawn(2, 0, 0, 0, 0, 0, 7)));
}

#[test]
fn genetic_search_keeps_within_the_genome_length() {
    let board = Board::from_str(ONE_MOVE).unwrap();
    for max_len in [1u32, 2, 5] {
        let mut solver = GeneticSolver::new(max_len, 1);
        let sols = solver.solve(&board).unwrap();
        assert_eq!(vec![vec![35]], sols);
    }
    let mut solver = GeneticSolver::new(0, 1);
    assert_eq!(Vec::<Vec<u8>>::new(), solver.solve(&board).unwrap());
    let mut solved = board.clone();
    solved.move_(35);
    let mut solver = GeneticSolver::new(3, 1);
    assert_eq!(vec![Vec::<u8>::new()], solver.solve(&solved).unwrap());
}

#[test]
fn crossing_takes_the_middle_from_the_second_genome() {
    let a = vec![1, 2, 3, 4, 5];
    let b = vec![6, 7, 8, 9, 10];
    assert_eq!(vec![1, 7, 8, 4, 5], cross(&a, &b, 1, 3));
    assert_eq!(vec![6, 7, 8, 9, 10], cross(&a, &b, 0, 5));
    assert_eq!(vec![1, 2, 3, 4, 10], cross(&a, &b, 4, 5));
}

#[test]
fn solutions_are_kept_in_dictionary_order() {
    assert!(comes_before(&vec![1, 2], &vec![1, 3]));
    assert!(comes_before(&vec![1, 2], &vec![1, 2, 0]));
    assert!(comes_before(&vec![], &vec![0]));
    assert!(!comes_before(&vec![1, 2], &vec![1, 2]));
    assert!(!comes_before(&vec![2], &vec![1, 9]));
    let mut list: Vec<Vec<u8>> = Vec::new();
    for s in [vec![5, 1], vec![2], vec![5, 1], vec![2, 0], vec![]] {
        insert_rising(&mut list, s);
    }
    assert_eq!(vec![vec![], vec![2], vec![2, 0], vec![5, 1]], list);
}
