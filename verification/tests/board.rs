use egypt::board::Board;
use egypt::text::ParseError;

const SAMPLE: &str = "\
1 1
#######4
#010...#
#.<1.^2#
#.2.1..#
3......#
#.v..>.3
#......v
#######4
";

const ONE_MOVE: &str = "\
1 1
########
#......#
#......#
#......#
0..<...0
#......#
#......#
########
";

#[test]
fn test_board() {
    assert_eq!(27, Board::xy2idx(3, 3));
    assert_eq!((1, 5), Board::idx2xy(41));

    let board_str = SAMPLE;
    let board: Board = board_str.parse().unwrap();
    assert_eq!(board_str, board.to_string());

    assert_eq!(9, board.pos);
    assert_eq!(vec![18, 21, 42, 45, 55], board.moves());
    assert_eq!([2, 3, 2, 2, 2, 0, 0, 0, 0], board.counts());
    assert!(!board.is_solved());
    assert!(!board.is_stuck());
    assert_eq!(Some(7), board.calc_step(17, 45));
    assert_eq!(4, board.least_to_solve());

    {
        let mut board = board.clone();
        board.move_(Board::xy2idx(5, 2));
        assert_eq!(
            Board::from_str(
                "\
5 2
#####.#4
#010.^.#
#.<1..2#
#.2.1..#
3....>.#
#.v....3
#....#.v
#######4
"
            )
            .unwrap(),
            board
        );
        assert!(!board.is_stuck());
    }

    {
        let mut board = board.clone();
        board.move_(Board::xy2idx(2, 5));
        println!("{}", board.to_string());
        assert_eq!(
            Board::from_str(
                "\
2 5
#######4
#0#0...#
#....^2#
#.<.1..#
3.2....#
#....>.3
#.v....v
##.####4
"
            )
            .unwrap(),
            board
        );
        assert!(board.is_stuck());
    }

    {
        let mut board = board.clone();
        board.move_(Board::xy2idx(2, 2));
        println!("{}", board.to_string());
        assert_eq!(
            Board::from_str(
                "\
2 2
#######4
#0.0...#
.<..^2##
#.2.1..#
3......#
#.v..>.3
#......v
#######4
"
            )
            .unwrap(),
            board
        );
        assert!(board.is_stuck());
    }

    {
        let mut board = board.clone();
        board.move_(Board::xy2idx(5, 5));
        println!("{}", board.to_string());
        assert_eq!(
            Board::from_str(
                "\
5 5
#######4
#010...#
#.<1.^2#
#.2.1..#
.......#
.#.v..>.
#......v
#######4
"
            )
            .unwrap(),
            board
        );
        assert!(!board.is_stuck());
    }

    {
        let mut board = board.clone();
        board.move_(Board::xy2idx(7, 6));
        println!("{}", board.to_string());
        assert_eq!(
            Board::from_str(
                "\
7 6
#######.
#010....
#.<1.^2#
#.2.1..#
3......#
#.v..>.#
#......3
#######v
"
            )
            .unwrap(),
            board
        );
    }

    let board = Board::from_str(ONE_MOVE).unwrap();
    assert_eq!(1, board.least_to_solve());
}

#[test]
fn one_move_board_is_solved_by_its_rotator() {
    let board = Board::from_str(ONE_MOVE).unwrap();
    assert_eq!(1, board.least_to_solve());
    assert!(board.moves().contains(&35));
    assert_eq!(vec![35], board.moves());
    let mut after = board.clone();
    after.move_(35);
    assert!(after.is_solved());
    assert_eq!(35, after.pos);
    assert_eq!([0; 9], after.counts());
    assert_eq!(
        "3 4\n########\n#......#\n#......#\n#......#\n..<.....\n#......#\n#......#\n########\n",
        after.to_string()
    );
}

#[test]
fn quiet_move_keeps_the_counts() {
    let board = Board::from_str(
        "1 1\n########\n#......#\n#..1...#\n#......#\n#..<...#\n#......#\n#...1..#\n########\n",
    )
    .unwrap();
    let before = board.counts();
    let mut after = board.clone();
    after.move_(35);
    assert_eq!(before, after.counts());
    assert_eq!(35, after.pos);
    assert_eq!(
        "3 4\n########\n#......#\n#..1...#\n#......#\n..<...##\n#......#\n#...1..#\n########\n",
        after.to_string()
    );
}

#[test]
fn a_piece_between_two_partners_takes_both() {
    let board = Board::from_str(
        "1 1\n########\n#......#\n#.2.2..#\n#..2^..#\n#......#\n#......#\n#......#\n########\n",
    )
    .unwrap();
    assert_eq!(vec![28], board.moves());
    let mut after = board.clone();
    after.move_(28);
    assert_eq!(
        "4 3\n####.###\n#...2..#\n#.2.^..#\n#..2...#\n#......#\n#......#\n#...#..#\n########\n",
        after.to_string()
    );
    assert_eq!([0, 0, 3, 0, 0, 0, 0, 0, 0], after.counts());
}

#[test]
fn a_shift_erases_the_pairs_it_forms_beside_the_line() {
    // the seam of the column holds no pair, but the piece that moves up
    // meets its partner in the next column
    let board = Board::from_str(
        "1 1\n########\n#......#\n#..2...#\n#...2..#\n#......#\n#...^..#\n#......#\n########\n",
    )
    .unwrap();
    assert_eq!(vec![44], board.moves());
    assert_eq!([0, 0, 2, 0, 0, 0, 0, 0, 0], board.counts());
    let mut after = board.clone();
    after.move_(44);
    assert_eq!(
        "4 5\n####.###\n#......#\n#......#\n#......#\n#...^..#\n#......#\n#...#..#\n########\n",
        after.to_string()
    );
    assert!(after.is_solved());
}

#[test]
fn a_board_says_whether_it_can_be_written() {
    let board = Board::from_str(SAMPLE).unwrap();
    assert!(board.is_writable());
    assert_eq!(64, board.size());
    let mut cells = [0x7fu8; 64];
    cells[5] = 0x10;
    assert!(!Board::new(0, &cells).is_writable());
    cells[5] = 9;
    assert!(Board::new(0, &cells).is_writable());
    assert!(!Board::new(64, &cells).is_writable());
}

#[test]
fn pieces_leave_in_company() {
    let board = Board::from_str(SAMPLE).unwrap();
    for to in board.moves() {
        let mut after = board.clone();
        after.move_(to);
        let (before, now) = (board.counts(), after.counts());
        for k in 0..9 {
            assert!(now[k] == before[k] || now[k] + 2 <= before[k]);
        }
    }
}

#[test]
fn pieces_never_come_back() {
    let board = Board::from_str(SAMPLE).unwrap();
    let total = |b: &Board| b.counts().iter().map(|&n| n as u32).sum::<u32>();
    let mut cur = board.clone();
    let mut left = total(&cur);
    for _ in 0..6 {
        let moves = cur.moves();
        if moves.is_empty() {
            break;
        }
        cur.move_(moves[moves.len() - 1]);
        let now = total(&cur);
        assert!(now <= left);
        left = now;
    }
}

#[test]
fn a_stuck_board_stays_stuck() {
    let board = Board::from_str(
        "1 1\n########\n#......#\n#..1...#\n#......#\n#..<...#\n#......#\n#......#\n########\n",
    )
    .unwrap();
    assert!(board.is_stuck());
    assert!(!board.is_solved());
    let mut cur = board.clone();
    for _ in 0..5 {
        let moves = cur.moves();
        assert_eq!(1, moves.len());
        cur.move_(moves[0]);
        assert!(cur.is_stuck());
        assert!(!cur.is_solved());
    }
}

#[test]
fn neighbours_are_listed_in_rising_order() {
    assert_eq!(vec![1, 8], Board::adjacent(0));
    assert_eq!(vec![1, 8, 10, 17], Board::adjacent(9));
    assert_eq!(vec![55, 62], Board::adjacent(63));
    assert_eq!(vec![8, 10], Board::adjacent_h(9));
    assert_eq!(vec![6], Board::adjacent_h(7));
    assert_eq!(vec![1, 17], Board::adjacent_v(9));
    assert_eq!(vec![48], Board::adjacent_v(56));
}

#[test]
fn steps_are_counted_along_the_shortest_way() {
    let board = Board::from_str(SAMPLE).unwrap();
    assert_eq!(Some(7), board.calc_step(17, 45));
    assert_eq!(Some(1), board.calc_step(17, 18));
    assert_eq!(Some(2), board.calc_step(9, 9));
    assert_eq!(None, board.calc_step(9, 0));
    let one = Board::from_str(ONE_MOVE).unwrap();
    assert_eq!(Some(5), one.calc_step(9, 35));
    assert_eq!(Some(4), one.calc_step(9, 32));
    assert_eq!(None, one.calc_step(9, 0));
}

#[test]
fn new_board_holds_the_given_cells() {
    let mut cells = [0x7fu8; 64];
    cells[3] = 0x82;
    cells[0] = 4;
    cells[7] = 4;
    let board = Board::new(10, &cells);
    assert_eq!(10, board.pos);
    assert_eq!(4, board.cell(0));
    assert_eq!(0x82, board.cell(3));
    assert_eq!(0x7f, board.cell(5));
    assert_eq!([0, 0, 0, 0, 2, 0, 0, 0, 0], board.counts());
    let copy = board.clone();
    assert_eq!(board, copy);
    let mut moved = board.clone();
    moved.move_(3);
    assert_ne!(board, moved);
    assert!(moved.is_solved());
    assert_eq!(board.to_bytes(), copy.to_bytes());
}

#[test]
fn board_text_round_trip() {
    let board = Board::from_str(SAMPLE).unwrap();
    assert_eq!(SAMPLE, board.to_string());
    assert_eq!(SAMPLE.as_bytes(), &board.to_bytes()[..]);
    let again = Board::from_str(&board.to_string()).unwrap();
    assert_eq!(board, again);
    let nine = "0 0\n9.......\n........\n........\n........\n........\n........\n........\n........\n";
    let b = Board::from_str(nine).unwrap();
    assert_eq!(nine, b.to_string());
    assert_eq!([0; 9], b.counts());
    assert!(b.is_solved());
}

#[test]
fn board_text_may_space_its_first_line_freely() {
    let loose = " 01\t 1 \n#######4\n#010...#\n#.<1.^2#\n#.2.1..#\n3......#\n#.v..>.3\n#......v\n#######4";
    let board = Board::from_str(loose).unwrap();
    assert_eq!(SAMPLE, board.to_string());
}

#[test]
fn board_text_errors() {
    let rows = "########\n#......#\n#......#\n#......#\n0..<...0\n#......#\n#......#\n########\n";
    assert_eq!(Err(ParseError::LineCount), Board::from_str("1 1").map(|b| b.pos));
    assert_eq!(Err(ParseError::LineCount), Board::from_str("").map(|b| b.pos));
    assert_eq!(Err(ParseError::BadInteger), Board::from_str(&format!("1\n{}", rows)).map(|b| b.pos));
    assert_eq!(Err(ParseError::BadInteger), Board::from_str(&format!("1 2 3\n{}", rows)).map(|b| b.pos));
    assert_eq!(Err(ParseError::BadInteger), Board::from_str(&format!("x 1\n{}", rows)).map(|b| b.pos));
    assert_eq!(Err(ParseError::BadInteger), Board::from_str(&format!("8 1\n{}", rows)).map(|b| b.pos));
    assert_eq!(Err(ParseError::BadInteger), Board::from_str(&format!("1 300\n{}", rows)).map(|b| b.pos));
    assert_eq!(Err(ParseError::LineCount), Board::from_str(&format!("1 1\n{}extra\n", rows)).map(|b| b.pos));
    assert_eq!(Err(ParseError::LineCount), Board::from_str(&format!("1 1\n{}", &rows[9..])).map(|b| b.pos));
    assert_eq!(
        Err(ParseError::LineCount),
        Board::from_str(&format!("1 1\n{}", rows.replacen("#......#", "#.....#", 1))).map(|b| b.pos)
    );
    assert_eq!(
        Err(ParseError::BadCharacter),
        Board::from_str(&format!("1 1\n{}", rows.replacen("<", "x", 1))).map(|b| b.pos)
    );
    assert_eq!(Ok(9), Board::from_str(&format!("1 1\n{}", rows)).map(|b| b.pos));
    assert_eq!(Ok(63), Board::from_str(&format!("7 7\n{}", rows)).map(|b| b.pos));
    assert!("1 1".parse::<Board>().is_err());
}
