use patrol::enumerate::{
    action_char, all_positions, best_coverage, enumerate, grid_rows_ok, has_wall_ahead, parse_grid, positions_for,
    refine_top, sample_positions, simulate, total_best_coverage, turn_left, turn_right,
};

fn empty_grid() -> (Vec<Vec<bool>>, Vec<Vec<bool>>) {
    (vec![vec![false; 19]; 20], vec![vec![false; 20]; 19])
}

#[test]
fn turning() {
    assert_eq!(turn_right(0), 1);
    assert_eq!(turn_right(3), 0);
    assert_eq!(turn_left(0), 3);
    assert_eq!(turn_left(2), 1);
    for d in 0..4 {
        assert_eq!(turn_left(turn_right(d)), d);
        assert_eq!(turn_right(turn_left(d)), d);
        assert_eq!(turn_right(turn_right(turn_right(turn_right(d)))), d);
    }
}

#[test]
fn walls_ahead_on_a_grid() {
    let (mut v, mut h) = empty_grid();
    v[3][4] = true;
    h[5][6] = true;
    assert!(has_wall_ahead(&v, &h, 3, 4, 1));
    assert!(has_wall_ahead(&v, &h, 3, 5, 3));
    assert!(has_wall_ahead(&v, &h, 5, 6, 2));
    assert!(has_wall_ahead(&v, &h, 6, 6, 0));
    assert!(!has_wall_ahead(&v, &h, 6, 6, 2));
    assert!(has_wall_ahead(&v, &h, 0, 0, 0));
    assert!(has_wall_ahead(&v, &h, 19, 19, 1));
}

#[test]
fn cover_of_small_automata() {
    let (v, h) = empty_grid();
    assert_eq!(simulate(&v, &h, &[(0, 0, 1, 0)], 9, 9, 0), 76);
    assert_eq!(simulate(&v, &h, &[(1, 0, 1, 0)], 9, 9, 0), 1);
    assert_eq!(simulate(&v, &h, &[(0, 1, 1, 1), (1, 0, 1, 0)], 0, 0, 1), 4);
}

#[test]
fn listing_every_automaton() {
    let one = enumerate(1);
    assert_eq!(one.len(), 6);
    assert_eq!(one[0], vec![(0, 0, 1, 0)]);
    assert_eq!(one[1], vec![(0, 0, 2, 0)]);
    assert_eq!(one[5], vec![(2, 0, 2, 0)]);
    let two = enumerate(2);
    assert_eq!(two.len(), 576);
    let mut sorted = two.clone();
    sorted.sort();
    sorted.dedup();
    assert_eq!(sorted.len(), 576);
    for a in &two {
        assert_eq!(a.len(), 2);
        for e in a {
            assert!(e.0 <= 2 && e.1 < 2 && (e.2 == 1 || e.2 == 2) && e.3 < 2);
        }
    }
    assert_eq!(enumerate(0), vec![Vec::<(u8, usize, u8, usize)>::new()]);
}

#[test]
fn action_letters_with_unknown() {
    assert_eq!(action_char(0), 'F');
    assert_eq!(action_char(1), 'R');
    assert_eq!(action_char(2), 'L');
    assert_eq!(action_char(7), '?');
}

#[test]
fn reading_a_grid() {
    let mut text = String::from("20 1 2 3\n");
    text.push_str("  0100000000000000000 \r\n");
    for _ in 1..20 {
        text.push_str(&"0".repeat(19));
        text.push('\n');
    }
    text.push_str("1");
    for _ in 0..18 {
        text.push('\n');
    }
    let (v, h) = parse_grid(&text);
    assert_eq!(v.len(), 20);
    assert_eq!(h.len(), 19);
    assert_eq!(v[0].len(), 19);
    assert!(v[0][1]);
    assert!(!v[0][0]);
    assert_eq!(h[0], vec![true]);
    assert!(h[18].is_empty());
    assert!(!grid_rows_ok(&v, &h));
    let (ev, eh) = empty_grid();
    assert!(grid_rows_ok(&ev, &eh));
}

#[test]
fn starting_points() {
    let s = sample_positions();
    assert_eq!(s.len(), 400);
    assert_eq!(s[0], (0, 0, 0));
    assert_eq!(s[4], (0, 2, 0));
    assert_eq!(s[41], (2, 0, 1));
    assert_eq!(s[399], (18, 18, 3));
    let a = all_positions();
    assert_eq!(a.len(), 1600);
    assert_eq!(a[85], (1, 1, 1));
    assert_eq!(a[1599], (19, 19, 3));
}

#[test]
fn best_cover_over_grids() {
    let (v, h) = empty_grid();
    let positions = vec![(9, 9, 0), (0, 0, 1)];
    assert_eq!(best_coverage(&v, &h, &[(0, 0, 1, 0)], &positions), 76);
    assert_eq!(best_coverage(&v, &h, &[(0, 0, 1, 0)], &[]), 0);
    let grids = vec![empty_grid(), empty_grid()];
    assert_eq!(total_best_coverage(&grids, &[(0, 0, 1, 0)], &positions), 152);
    assert_eq!(total_best_coverage(&grids, &[(1, 0, 1, 0)], &positions), 2);
}

#[test]
fn efficiency_cut() {
    assert!(patrol::enumerate::efficient_enough(6, 2, 1));
    assert!(!patrol::enumerate::efficient_enough(5, 2, 1));
    assert!(patrol::enumerate::efficient_enough(27, 3, 3));
    assert!(!patrol::enumerate::efficient_enough(26, 3, 3));
    assert!(!patrol::enumerate::efficient_enough(0, 0, 0));
    assert!(patrol::enumerate::efficient_enough(usize::MAX, 1, usize::MAX / 3));
    assert!(!patrol::enumerate::efficient_enough(usize::MAX, usize::MAX, usize::MAX));
}

#[test]
fn ranking_by_total() {
    let totals = vec![5, 9, 5, 2, 9, 7];
    let keep = vec![true, true, true, false, true, true];
    assert_eq!(patrol::enumerate::rank_desc(&totals, &keep), vec![1, 4, 5, 0, 2]);
    assert_eq!(patrol::enumerate::rank_desc(&vec![], &vec![]), Vec::<usize>::new());
    assert_eq!(patrol::enumerate::rank_desc(&vec![3, 3, 3], &vec![true, false, true]), vec![0, 2]);
}

#[test]
fn positions_by_number_of_states() {
    assert_eq!(positions_for(1), all_positions());
    assert_eq!(positions_for(2), all_positions());
    assert_eq!(positions_for(3), sample_positions());
    assert_eq!(positions_for(4).len(), 400);
}

#[test]
fn refining_the_top_candidates() {
    let grids = vec![empty_grid()];
    let automata: Vec<Vec<(u8, usize, u8, usize)>> = vec![vec![(1, 0, 1, 0)], vec![(0, 0, 1, 0)]];
    let results = vec![(5, 0), (3, 1)];
    assert_eq!(refine_top(&grids, &automata, &results), vec![(76, 1), (1, 0)]);
    assert_eq!(refine_top(&grids, &automata, &vec![]), Vec::<(usize, usize)>::new());
    let many: Vec<(usize, usize)> = (0..150).map(|i| (9, i % 2)).collect();
    let expected: Vec<(usize, usize)> = (0..100).map(|i| (0, i % 2)).collect();
    assert_eq!(refine_top(&[], &automata, &many), expected);
}
