use egypt::board::Board;
use egypt::text::ParseError;
use egypt::util::{
    is_legal, optimize_solution, parse_solution, solutions_with_step, step_of_solution, verify_solution,
    Queue,
};

const TWO_ROWS: &str = "\
1 1
########
#......#
#......#
#......#
0..<...0
#......#
1..<...1
########
";

#[test]
fn test_parse_solution() {
    assert_eq!(vec![0, 1, 2, 3], parse_solution("0 1 2 3").unwrap());
    assert_eq!(vec![3, 5, 2, 7], parse_solution("  3 5  2  7  # foobar  ").unwrap());
}

#[test]
fn parse_solution_edges() {
    assert_eq!(Vec::<u8>::new(), parse_solution("").unwrap());
    assert_eq!(Vec::<u8>::new(), parse_solution("   # 1 2 3").unwrap());
    assert_eq!(vec![255, 0, 7], parse_solution("255\t000 007").unwrap());
    assert_eq!(vec![12], parse_solution("12#34").unwrap());
    assert_eq!(Err(ParseError::BadInteger), parse_solution("256"));
    assert_eq!(Err(ParseError::BadInteger), parse_solution("1 x 2"));
    assert_eq!(Err(ParseError::BadInteger), parse_solution("-1"));
    assert_eq!(Err(ParseError::BadInteger), parse_solution("99999999999999999999999"));
}

#[test]
fn queue_is_first_in_first_out() {
    let mut q: Queue<u8> = Queue::new();
    assert!(q.is_empty());
    assert_eq!(0, q.len());
    assert_eq!(None, q.pop());
    q.push(3);
    q.push(1);
    q.push(2);
    assert_eq!(3, q.len());
    assert!(!q.is_empty());
    assert_eq!(Some(3), q.pop());
    assert_eq!(Some(1), q.pop());
    q.push(9);
    assert_eq!(Some(2), q.pop());
    assert_eq!(Some(9), q.pop());
    assert_eq!(None, q.pop());
    let mut r: Queue<u32> = Queue::with_capacity(16);
    r.push(5);
    r.push(6);
    r.clear();
    assert!(r.is_empty());
    assert_eq!(0, r.len());
}

#[test]
fn verify_solution_follows_the_moves() {
    let board = Board::from_str(TWO_ROWS).unwrap();
    assert!(verify_solution(&board, &[35, 51]));
    assert!(verify_solution(&board, &[51, 35]));
    assert!(!verify_solution(&board, &[35]));
    assert!(!verify_solution(&board, &[]));
    assert!(!verify_solution(&board, &[35, 35]));
    assert!(!verify_solution(&board, &[0, 35, 51]));
    // solved before the last move
    assert!(verify_solution(&board, &[35, 51, 77]));
    // the rotator of the first row has moved to cell 34
    assert!(!verify_solution(&board, &[35, 34]));
    assert!(!verify_solution(&board, &[35, 35, 51]));
}

#[test]
fn legal_sequences_are_told_from_others() {
    let board = Board::from_str(TWO_ROWS).unwrap();
    assert!(is_legal(&board, &[]));
    assert!(is_legal(&board, &[35, 51]));
    assert!(is_legal(&board, &[35, 34, 33, 51, 50]));
    assert!(!is_legal(&board, &[34]));
    assert!(!is_legal(&board, &[35, 35]));
    assert!(!is_legal(&board, &[35, 51, 51]));
}

#[test]
fn steps_of_a_solution_are_added_up() {
    let board = Board::from_str(TWO_ROWS).unwrap();
    assert_eq!(0, step_of_solution(&board, &[]));
    assert_eq!(5, step_of_solution(&board, &[35]));
    assert_eq!(7, step_of_solution(&board, &[35, 51]));
    assert_eq!(9, step_of_solution(&board, &[51, 35]));
}

#[test]
fn solutions_are_listed_by_moves_and_steps() {
    let board = Board::from_str(TWO_ROWS).unwrap();
    let sols = vec![vec![51, 35], vec![35, 51], vec![35]];
    let listed = solutions_with_step(&board, &sols);
    assert_eq!(vec![(vec![35], 5), (vec![35, 51], 7), (vec![51, 35], 9)], listed);
    assert_eq!(Vec::<(Vec<u8>, u32)>::new(), solutions_with_step(&board, &[]));
}

#[test]
fn needless_moves_are_taken_out() {
    let board = Board::from_str(TWO_ROWS).unwrap();
    // nothing can be taken out of a shortest solution
    assert_eq!(vec![vec![35, 51]], optimize_solution(&board, &[35, 51]));
    // a sequence that does not solve the board stays as it is
    assert_eq!(vec![vec![35]], optimize_solution(&board, &[35]));
    assert_eq!(vec![Vec::<u8>::new()], optimize_solution(&board, &[]));
    // a move behind the solution is needless
    assert_eq!(vec![vec![35, 51]], optimize_solution(&board, &[35, 51, 50]));
    // and so is a move in its middle that erases nothing
    assert_eq!(vec![vec![35, 51]], optimize_solution(&board, &[35, 34, 51]));
    // what is left has one length, solves the board, and does so no longer
    // with one more move taken out
    let left = optimize_solution(&board, &[35, 34, 33, 51, 50]);
    assert!(!left.is_empty());
    for s in &left {
        assert_eq!(left[0].len(), s.len());
        assert!(verify_solution(&board, s));
        for j in 0..s.len() {
            let mut t = s.clone();
            t.remove(j);
            assert!(!verify_solution(&board, &t));
        }
    }
    assert_eq!(vec![vec![35, 51]; 3], left);
}
