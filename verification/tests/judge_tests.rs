use patrol::judge::input::{parse_input_data, InputError};
use patrol::judge::output::{parse_output_data, OutputError};
use patrol::judge::score::{combine_walls, compute_score_details, has_wall, plan_cost};

const INSTANCE: &str = "2 1 2 3\n0\n0\n00\n";
const PLAN: &str = "2\n2 0 0 R\nF 0 R 1\nR 0 R 0\n2 1 0 R\nF 0 R 1\nR 0 R 0\n0\n0\n00\n";

#[test]
fn reading_an_instance() {
    let d = parse_input_data(INSTANCE).unwrap();
    assert_eq!((d.n, d.ak, d.am, d.aw), (2, 1, 2, 3));
    assert_eq!(d.wall_v, vec![vec!['0'], vec!['0']]);
    assert_eq!(d.wall_h, vec![vec!['0', '0']]);
}

#[test]
fn instance_errors() {
    assert_eq!(parse_input_data("").err(), Some(InputError::MissingN));
    assert_eq!(parse_input_data("x").err(), Some(InputError::ParseN));
    assert_eq!(parse_input_data("2").err(), Some(InputError::MissingAk));
    assert_eq!(parse_input_data("2 a").err(), Some(InputError::ParseAk));
    assert_eq!(parse_input_data("2 1 2").err(), Some(InputError::MissingAw));
    assert_eq!(parse_input_data("2 1 2 3\n00\n0\n00").err(), Some(InputError::WallVLength(2, 1)));
    assert_eq!(parse_input_data("2 1 2 3\n0\n").err(), Some(InputError::MissingWallV));
    assert_eq!(parse_input_data("2 1 2 3\n0\n0").err(), Some(InputError::MissingWallH));
    assert_eq!(parse_input_data("2 1 2 3\n0\n0\n0").err(), Some(InputError::WallHLength(1, 2)));
    assert_eq!(parse_input_data("0 1 2 3 x").err(), Some(InputError::WallHLength(1, 0)));
}

#[test]
fn reading_a_plan() {
    let d = parse_input_data(INSTANCE).unwrap();
    let o = parse_output_data(&d, PLAN).unwrap();
    assert_eq!(o.robots.len(), 2);
    let r = &o.robots[1];
    assert_eq!((r.m, r.i, r.j, r.d), (2, 1, 0, 1));
    assert_eq!(r.a0, vec!['F', 'R']);
    assert_eq!(r.b0, vec![0, 0]);
    assert_eq!(r.a1, vec!['R', 'R']);
    assert_eq!(r.b1, vec![1, 0]);
}

#[test]
fn plan_errors() {
    let d = parse_input_data(INSTANCE).unwrap();
    let err = |t: &str| parse_output_data(&d, t).err();
    assert_eq!(err(""), Some(OutputError::MissingK));
    assert_eq!(err("k"), Some(OutputError::ParseK));
    assert_eq!(err("0"), Some(OutputError::KOutOfRange(0)));
    assert_eq!(err("5"), Some(OutputError::KOutOfRange(5)));
    assert_eq!(err("1 17 0 0 R"), Some(OutputError::MOutOfRange(17)));
    assert_eq!(err("1\n1 0 0 X\n"), Some(OutputError::InvalidDirection('X')));
    assert_eq!(err("1\n1 0 0 R\nQ 0 R 0"), Some(OutputError::InvalidA0('Q')));
    assert_eq!(err("1\n1 0 0 R\nF 1 R 0"), Some(OutputError::B0OutOfRange(1)));
    assert_eq!(err("1\n1 0 0 R\nF 0 F 0"), Some(OutputError::InvalidA1('F')));
    assert_eq!(err("1\n1 0 0 R\nF 0 R"), Some(OutputError::MissingB1));
    assert_eq!(err("1\n1 0 0 R\nR 0 R 0\n0\n"), Some(OutputError::MissingWallV));
    assert_eq!(err("1\n1 0 0 R\nR 0 R 0\n00\n0\n00"), Some(OutputError::WallVLength(2)));
    assert_eq!(err("1\n1 0 0 R\nR 0 R 0\n0\n0\n000"), Some(OutputError::WallHLength(3)));
}

#[test]
fn walls_of_instance_and_plan_together() {
    let d = parse_input_data("2 1 2 3\n1\n0\n00\n").unwrap();
    let o = parse_output_data(&d, "1\n1 0 0 R\nR 0 R 0\n0\n1\n01\n").unwrap();
    let (v, h) = combine_walls(&d, &o).unwrap();
    assert_eq!(v, vec![vec![1u8], vec![1u8]]);
    assert_eq!(h, vec![vec![0u8, 1u8]]);
    assert!(has_wall(&v, &h, 0, 0, 1));
    assert!(has_wall(&v, &h, 0, 1, 3));
    assert!(!has_wall(&v, &h, 0, 0, 2));
    assert!(has_wall(&v, &h, 0, 1, 2));
    assert!(has_wall(&v, &h, 0, 0, 0));
    assert!(has_wall(&v, &h, 1, 1, 1));
}

#[test]
fn every_cell_patrolled_by_two_sweepers() {
    let d = parse_input_data(INSTANCE).unwrap();
    let o = parse_output_data(&d, PLAN).unwrap();
    let (v, h) = combine_walls(&d, &o).unwrap();
    let det = compute_score_details(&d, &o, &v, &h).unwrap();
    assert_eq!(det.num, 4);
    assert_eq!(det.checked, vec![vec![true, true], vec![true, true]]);
    assert_eq!(det.routes.len(), 2);
    assert_eq!(det.routes[0].head, vec![(0, 0)]);
    assert_eq!(det.routes[0].tail, vec![(0, 0), (0, 1), (0, 1), (0, 1), (0, 0), (0, 0), (0, 0)]);
    let c = plan_cost(&d, &o).unwrap();
    assert_eq!((c.k, c.m_total, c.w, c.v_cost, c.base), (2, 4, 0, 9, 11));
}

#[test]
fn a_spinning_robot_patrols_one_cell() {
    let d = parse_input_data(INSTANCE).unwrap();
    let o = parse_output_data(&d, "1\n1 1 1 U\nR 0 R 0\n0\n0\n01\n").unwrap();
    let (v, h) = combine_walls(&d, &o).unwrap();
    let det = compute_score_details(&d, &o, &v, &h).unwrap();
    assert_eq!(det.num, 1);
    assert_eq!(det.checked, vec![vec![false, false], vec![false, true]]);
    assert_eq!(det.routes[0].head, vec![(1, 1)]);
    assert_eq!(det.routes[0].tail, vec![(1, 1), (1, 1), (1, 1), (1, 1), (1, 1)]);
    let c = plan_cost(&d, &o).unwrap();
    assert_eq!((c.k, c.m_total, c.w, c.v_cost, c.base), (1, 1, 1, 5, 11));
}

#[test]
fn robot_off_the_board_is_refused() {
    let d = parse_input_data(INSTANCE).unwrap();
    let o = parse_output_data(&d, "1\n1 5 0 U\nR 0 R 0\n0\n0\n00\n").unwrap();
    let (v, h) = combine_walls(&d, &o).unwrap();
    assert!(compute_score_details(&d, &o, &v, &h).is_none());
}

#[test]
fn cost_overflow_is_refused() {
    let d = parse_input_data("2 9223372036854775807 2 3\n0\n0\n00\n").unwrap();
    let o = parse_output_data(&d, PLAN).unwrap();
    assert!(plan_cost(&d, &o).is_none());
}

#[test]
fn non_ascii_wall_lines_cannot_be_combined() {
    let d = parse_input_data("3 1 2 3\né\n00\n00\n000\n000\n").unwrap();
    let o = parse_output_data(&d, "1\n1 0 0 R\nR 0 R 0\n00\n00\n00\n000\n000\n").unwrap();
    assert!(combine_walls(&d, &o).is_none());
}

#[test]
fn more_instance_errors() {
    assert_eq!(parse_input_data("2 1").err(), Some(InputError::MissingAm));
    assert_eq!(parse_input_data("2 1 z").err(), Some(InputError::ParseAm));
    assert_eq!(parse_input_data("2 1 2 -").err(), Some(InputError::ParseAw));
    assert_eq!(parse_input_data("-2 1 2 3").err(), Some(InputError::ParseN));
}

#[test]
fn more_plan_errors() {
    let d = parse_input_data(INSTANCE).unwrap();
    let err = |t: &str| parse_output_data(&d, t).err();
    assert_eq!(err("1"), Some(OutputError::MissingM));
    assert_eq!(err("1 x"), Some(OutputError::ParseM));
    assert_eq!(err("1 1"), Some(OutputError::MissingI));
    assert_eq!(err("1 1 -1"), Some(OutputError::ParseI));
    assert_eq!(err("1 1 0"), Some(OutputError::MissingJ));
    assert_eq!(err("1 1 0 y"), Some(OutputError::ParseJ));
    assert_eq!(err("1 1 0 0"), Some(OutputError::MissingD));
    assert_eq!(err("1\n1 0 0 R\n"), Some(OutputError::MissingA0));
    assert_eq!(err("1\n1 0 0 R\nF"), Some(OutputError::MissingB0));
    assert_eq!(err("1\n1 0 0 R\nF x"), Some(OutputError::ParseB0));
    assert_eq!(err("1\n1 0 0 R\nF 0"), Some(OutputError::MissingA1));
    assert_eq!(err("1\n1 0 0 R\nF 0 R x"), Some(OutputError::ParseB1));
    assert_eq!(err("1\n1 0 0 R\nF 0 R 1"), Some(OutputError::B1OutOfRange(1)));
    assert_eq!(err("1\n1 0 0 R\nR 0 R 0\n0\n0\n"), Some(OutputError::MissingWallH));
    assert_eq!(err("1 0 0 0 R"), Some(OutputError::MOutOfRange(0)));
}

#[test]
fn only_the_first_character_of_a_letter_token_counts() {
    let d = parse_input_data(INSTANCE).unwrap();
    let o = parse_output_data(&d, "1\n1 0 0 Rx\nFz 0 Ry 0\n0\n0\n00\n").unwrap();
    assert_eq!(o.robots[0].d, 1);
    assert_eq!(o.robots[0].a0, vec!['F']);
    assert_eq!(o.robots[0].a1, vec!['R']);
}

#[test]
fn patrol_verdict() {
    assert_eq!(patrol::judge::score::patrol_error(16, 4), None);
    assert_eq!(
        patrol::judge::score::patrol_error(13, 4),
        Some("Not all cells are patrolled: 13/16".to_string())
    );
}

#[test]
fn error_messages() {
    assert_eq!(InputError::MissingN.message(), "Missing N");
    assert_eq!(InputError::ParseAw.message(), "Parse error AW");
    assert_eq!(InputError::WallVLength(2, 1).message(), "Invalid wall_v length: 2 (expected 1)");
    assert_eq!(InputError::WallHLength(10, 20).message(), "Invalid wall_h length: 10 (expected 20)");
    assert_eq!(OutputError::KOutOfRange(0).message(), "K out of range: 0");
    assert_eq!(OutputError::InvalidDirection('X').message(), "Invalid direction: X");
    assert_eq!(OutputError::InvalidA0('Q').message(), "Invalid action a0: Q");
    assert_eq!(OutputError::InvalidA1('F').message(), "Invalid action a1: F");
    assert_eq!(OutputError::B1OutOfRange(123).message(), "b1 out of range: 123");
    assert_eq!(OutputError::MissingWallH.message(), "Missing output wall_h line");
    assert_eq!(OutputError::WallVLength(7).message(), "Invalid output wall_v length: 7");
    assert_eq!(OutputError::ParseB0.message(), "Parse error b0");
}
