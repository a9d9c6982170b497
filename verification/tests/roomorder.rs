use egypt::roomorder::{calc_step, solve, Point, Problem};
use egypt::text::ParseError;

const PLAN: &str = "\
2....0.
..s....
3......
..14...
......5
";

#[test]
fn test_point() {
    let a = Point::new(0, 0);
    let b = Point::new(3, 7);
    let c = Point::new(8, 3);

    assert_eq!(0, a.distance(&a));
    assert_eq!(0, b.distance(&b));
    assert_eq!(0, c.distance(&c));

    assert_eq!(10, a.distance(&b));
    assert_eq!(10, b.distance(&a));
    assert_eq!(9, b.distance(&c));
    assert_eq!(9, c.distance(&b));
    assert_eq!(11, c.distance(&a));
    assert_eq!(11, a.distance(&c));
}

#[test]
fn test_problem() {
    let problem_str = PLAN;
    let problem: Problem = Problem::from_str(problem_str).unwrap();
    assert_eq!(problem_str, problem.to_string());
}

#[test]
fn plan_is_read_cell_by_cell() {
    let problem = Problem::from_str(PLAN).unwrap();
    assert_eq!(Point::new(2, 1), problem.start);
    assert_eq!(
        vec![
            Point::new(5, 0),
            Point::new(2, 3),
            Point::new(0, 0),
            Point::new(0, 2),
            Point::new(3, 3),
            Point::new(6, 4)
        ],
        problem.rooms
    );
}

#[test]
fn plan_errors() {
    assert_eq!(Err(ParseError::LineCount), Problem::from_str("").map(|p| p.start));
    assert_eq!(Err(ParseError::LineCount), Problem::from_str(&PLAN[8..]).map(|p| p.start));
    assert_eq!(Err(ParseError::BadCharacter), Problem::from_str(&PLAN.replace("5", "6")).map(|p| p.start));
    assert_eq!(Err(ParseError::Missing), Problem::from_str(&PLAN.replace("s", ".")).map(|p| p.start));
    assert_eq!(Err(ParseError::Missing), Problem::from_str(&PLAN.replace("4", ".")).map(|p| p.start));
    assert_eq!(Ok(Point::new(2, 1)), Problem::from_str(PLAN.trim_end()).map(|p| p.start));
    // a mark that stands twice counts where it stands last
    assert_eq!(Ok(Point::new(5, 4)), Problem::from_str(&PLAN.replace("....5", "...s5")).map(|p| p.start));
}

#[test]
fn plans_are_checked() {
    let problem = Problem::from_str(PLAN).unwrap();
    assert!(problem.is_wf());
    assert!(problem.is_spread());
    let mut rooms = problem.rooms.clone();
    rooms[3] = rooms[1];
    let twice = Problem { start: problem.start, rooms };
    assert!(twice.is_wf());
    assert!(!twice.is_spread());
    let mut rooms = problem.rooms.clone();
    rooms[0] = problem.start;
    assert!(!Problem { start: problem.start, rooms }.is_spread());
    let mut rooms = problem.rooms.clone();
    rooms[5] = Point::new(7, 0);
    assert!(!Problem { start: problem.start, rooms }.is_wf());
    let mut rooms = problem.rooms.clone();
    rooms.pop();
    assert!(!Problem { start: problem.start, rooms }.is_wf());
    assert!(!Problem { start: Point::new(0, -1), rooms: problem.rooms.clone() }.is_wf());
}

#[test]
fn round_trip_steps() {
    let problem = Problem::from_str(PLAN).unwrap();
    assert_eq!(32, calc_step(&problem, &[0, 1, 2, 3, 4, 5]));
    assert_eq!(22, calc_step(&problem, &[0, 5, 4, 1, 3, 2]));
    assert_eq!(8, calc_step(&problem, &[0]));
}

#[test]
fn shortest_round_trips() {
    let problem = Problem::from_str(PLAN).unwrap();
    let (orders, steps) = solve(&problem);
    assert_eq!(22, steps);
    assert_eq!(
        vec![
            vec![0, 5, 4, 1, 3, 2],
            vec![1, 4, 5, 0, 2, 3],
            vec![2, 3, 1, 4, 5, 0],
            vec![3, 2, 0, 5, 4, 1]
        ],
        orders
    );
}
