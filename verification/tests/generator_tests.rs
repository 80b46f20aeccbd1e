use patrol::generator::{add_horizontal_segment, add_vertical_segment, gen_input, has_wall_char, is_connected};
use patrol::judge::input::parse_input_data;

fn zeros(count: usize, width: usize) -> Vec<Vec<char>> {
    vec![vec!['0'; width]; count]
}

#[test]
fn unknown_problem_kind() {
    assert_eq!(gen_input(1, "D"), Err("Invalid problem id: D".to_string()));
    assert_eq!(gen_input(1, ""), Err("Invalid problem id: ".to_string()));
}

#[test]
fn generated_instances_read_back() {
    for (seed, kind) in [(0u64, "A"), (1, "B"), (2, "C"), (12345, "B")] {
        let text = gen_input(seed, kind).unwrap();
        let lines: Vec<&str> = text.lines().collect();
        assert_eq!(lines.len(), 40);
        let d = parse_input_data(&text).unwrap();
        assert_eq!(d.n, 20);
        match kind {
            "A" => assert_eq!((d.ak, d.am, d.aw), (0, 1, 1000)),
            "C" => assert_eq!((d.ak, d.am, d.aw), (1000, 1, 1000)),
            _ => {
                assert_eq!(d.ak, 1000);
                assert!((1..=10).contains(&d.am) && (1..=10).contains(&d.aw));
            }
        }
        assert!(d.wall_v.iter().all(|r| r.len() == 19 && r.iter().all(|&c| c == '0' || c == '1')));
        assert!(d.wall_h.iter().all(|r| r.len() == 20 && r.iter().all(|&c| c == '0' || c == '1')));
        assert!(is_connected(&d.wall_v, &d.wall_h));
        assert!(text.ends_with('\n'));
    }
}

#[test]
fn same_seed_same_instance() {
    assert_eq!(gen_input(99, "B"), gen_input(99, "B"));
}

#[test]
fn walls_and_connectivity() {
    let mut v = zeros(3, 2);
    let mut h = zeros(2, 3);
    assert!(is_connected(&v, &h));
    add_vertical_segment(&mut v, 0, 5, 2, 0);
    assert_eq!(v, vec![vec!['1', '0'], vec!['1', '0'], vec!['1', '0']]);
    assert!(has_wall_char(&v, &h, 1, 0, 1));
    assert!(!is_connected(&v, &h));
    let mut v2 = zeros(3, 2);
    add_vertical_segment(&mut v2, 1, 1, 1, 1);
    assert_eq!(v2, vec![vec!['0', '0'], vec!['0', '1'], vec!['0', '0']]);
    add_horizontal_segment(&mut h, 1, 5, 0, 1, 3);
    assert_eq!(h, vec![vec!['0', '1', '1'], vec!['0', '0', '0']]);
    assert!(has_wall_char(&v2, &h, 1, 2, 0));
    assert!(has_wall_char(&v2, &h, 0, 0, 3));
    assert!(!has_wall_char(&v2, &h, 0, 0, 2));
    assert!(is_connected(&v2, &h));
    add_horizontal_segment(&mut h, 0, 1, 1, 0, 3);
    assert_eq!(h[1], vec!['1', '0', '0']);
    assert!(is_connected(&v2, &h));
    add_horizontal_segment(&mut h, 1, 5, 1, 0, 3);
    assert_eq!(h[1], vec!['1', '1', '1']);
    assert!(!is_connected(&v2, &h));
}

#[test]
fn walls_of_drawn_segments() {
    let (v, h) = patrol::generator::walls_from_segments(20, &vec![(0, 5, 2, 3), (1, 6, 17, 18)], &vec![(1, 15, 18, 10), (0, 5, 0, 7)]);
    for i in 0..20 {
        for j in 0..19 {
            let want = (j == 3 && i <= 2) || (j == 18 && i >= 17);
            assert_eq!(v[i][j], if want { '1' } else { '0' });
        }
    }
    for i in 0..19 {
        for j in 0..20 {
            let want = (i == 18 && j >= 10) || (i == 0 && (3..=7).contains(&j));
            assert_eq!(h[i][j], if want { '1' } else { '0' });
        }
    }
}

#[test]
fn instance_of_drawn_segments() {
    let closed = patrol::generator::build_instance(1000, 3, 4, &vec![(1, 15, 0, 0), (1, 15, 15, 0)], &vec![(0, 5, 0, 0)]);
    assert_eq!(closed, None);
    let open = patrol::generator::build_instance(1000, 3, 4, &vec![(0, 5, 2, 3)], &vec![(1, 15, 18, 10)]).unwrap();
    let d = parse_input_data(&open).unwrap();
    assert_eq!((d.n, d.ak, d.am, d.aw), (20, 1000, 3, 4));
    assert_eq!(d.wall_v[0][3], '1');
    assert_eq!(d.wall_h[18][19], '1');
    assert_eq!(d.wall_h[18][9], '0');
}

#[test]
fn seeds_give_different_instances() {
    assert_ne!(gen_input(1, "A"), gen_input(2, "A"));
    assert_ne!(gen_input(5, "B"), gen_input(6, "B"));
    assert!(gen_input(3, "C").is_ok());
}
