use patrol::cover::{col_segments, cover_plan_text, row_segments, seg_cost, solve_cover, wall_marks, CoverPlan};
use patrol::judge::input::parse_input_data;
use patrol::judge::output::parse_output_data;
use patrol::judge::score::{combine_walls, compute_score_details};

fn covered(plan: &CoverPlan, i: usize, j: usize) -> bool {
    let by_row = plan
        .row_segs
        .iter()
        .zip(plan.row_selected.iter())
        .any(|(&(r, s, e), &sel)| sel && r == i && s <= j && j <= e);
    let by_col = plan
        .col_segs
        .iter()
        .zip(plan.col_selected.iter())
        .any(|(&(c, s, e), &sel)| sel && c == j && s <= i && i <= e);
    by_row || by_col
}

fn cost(plan: &CoverPlan) -> i64 {
    let mut c = 0;
    for (k, &(_, s, e)) in plan.row_segs.iter().enumerate() {
        if plan.row_selected[k] {
            c += seg_cost(s, e);
        }
    }
    for (k, &(_, s, e)) in plan.col_segs.iter().enumerate() {
        if plan.col_selected[k] {
            c += seg_cost(s, e);
        }
    }
    c
}

fn instance_text(n: usize, v: &[Vec<bool>], h: &[Vec<bool>]) -> String {
    let mut t = format!("{} 1 1 1\n", n);
    for row in v {
        t.extend(row.iter().map(|&b| if b { '1' } else { '0' }));
        t.push('\n');
    }
    for row in h {
        t.extend(row.iter().map(|&b| if b { '1' } else { '0' }));
        t.push('\n');
    }
    t
}

#[test]
fn marks_of_a_line() {
    assert_eq!(wall_marks("0101"), vec![false, true, false, true]);
    assert_eq!(wall_marks(""), Vec::<bool>::new());
}

#[test]
fn runs_of_rows_and_columns() {
    let v = vec![vec![true], vec![false]];
    let h = vec![vec![false, false]];
    let (rs, rid) = row_segments(&v, &h, 2);
    assert_eq!(rs, vec![(0, 0, 0), (0, 1, 1), (1, 0, 1)]);
    assert_eq!(rid, vec![0, 1, 2, 2]);
    let (cs, cid) = col_segments(&v, &h, 2);
    assert_eq!(cs, vec![(0, 0, 1), (1, 0, 1)]);
    assert_eq!(cid, vec![0, 1, 0, 1]);
    let h2 = vec![vec![false, true]];
    let (cs2, cid2) = col_segments(&v, &h2, 2);
    assert_eq!(cs2, vec![(0, 0, 1), (1, 0, 0), (1, 1, 1)]);
    assert_eq!(cid2, vec![0, 1, 0, 2]);
}

#[test]
fn run_costs() {
    assert_eq!(seg_cost(3, 3), 1);
    assert_eq!(seg_cost(0, 4), 2);
}

#[test]
fn cover_of_an_open_board() {
    let v = vec![vec![false; 2]; 3];
    let h = vec![vec![false; 3]; 2];
    let plan = solve_cover(3, &v, &h);
    for i in 0..3 {
        for j in 0..3 {
            assert!(covered(&plan, i, j));
        }
    }
    assert_eq!(cost(&plan), 6);
}

#[test]
fn cover_of_a_board_with_a_wall() {
    let v = vec![vec![true], vec![false]];
    let h = vec![vec![false, false]];
    let plan = solve_cover(2, &v, &h);
    for i in 0..2 {
        for j in 0..2 {
            assert!(covered(&plan, i, j));
        }
    }
    assert_eq!(cost(&plan), 4);
}

#[test]
fn text_of_a_chosen_plan() {
    let plan = CoverPlan {
        row_segs: vec![(0, 0, 0), (0, 1, 1), (1, 0, 1)],
        row_selected: vec![true, false, true],
        col_segs: vec![(0, 0, 1), (1, 0, 1)],
        col_selected: vec![false, true],
    };
    let text = cover_plan_text(2, &plan);
    assert_eq!(text, "3\n1 0 0 R\nR 0 R 0\n2 1 0 R\nF 0 R 1\nR 0 R 0\n2 0 1 D\nF 0 R 1\nR 0 R 0\n0\n0\n00\n");
}

#[test]
fn solver_plans_patrol_every_cell() {
    let boards: Vec<(usize, Vec<Vec<bool>>, Vec<Vec<bool>>)> = vec![
        (3, vec![vec![false; 2]; 3], vec![vec![false; 3]; 2]),
        (2, vec![vec![true], vec![false]], vec![vec![false, false]]),
        (
            4,
            vec![vec![false, true, false], vec![false, false, false], vec![true, false, true], vec![false, false, false]],
            vec![vec![true, false, false, true], vec![false, true, false, false], vec![false, false, true, false]],
        ),
    ];
    for (n, v, h) in boards {
        let plan = solve_cover(n, &v, &h);
        let text = cover_plan_text(n, &plan);
        let input = parse_input_data(&instance_text(n, &v, &h)).unwrap();
        let out = parse_output_data(&input, &text).unwrap();
        let (cv, ch) = combine_walls(&input, &out).unwrap();
        let det = compute_score_details(&input, &out, &cv, &ch).unwrap();
        assert_eq!(det.num, n * n);
    }
}

#[test]
fn chosen_cover_is_cheapest() {
    let n = 4;
    let v = vec![vec![false, true, false], vec![false, false, false], vec![true, false, true], vec![false, false, false]];
    let h = vec![vec![true, false, false, true], vec![false, true, false, false], vec![false, false, true, false]];
    let plan = solve_cover(n, &v, &h);
    let p = plan.row_segs.len();
    let q = plan.col_segs.len();
    assert!(p + q <= 20);
    let mut best = i64::MAX;
    for mask in 0u32..(1u32 << (p + q)) {
        let other = CoverPlan {
            row_segs: plan.row_segs.clone(),
            row_selected: (0..p).map(|k| mask >> k & 1 == 1).collect(),
            col_segs: plan.col_segs.clone(),
            col_selected: (0..q).map(|k| mask >> (p + k) & 1 == 1).collect(),
        };
        let covers = (0..n).all(|i| (0..n).all(|j| covered(&other, i, j)));
        if covers {
            best = best.min(cost(&other));
        }
    }
    assert_eq!(cost(&plan), best);
}

#[test]
fn single_cell_plan_has_empty_wall_lines() {
    let v = vec![vec![]];
    let h: Vec<Vec<bool>> = vec![];
    let plan = solve_cover(1, &v, &h);
    let text = cover_plan_text(1, &plan);
    assert_eq!(text, "1\n1 0 0 R\nR 0 R 0\n\n");
    let input = parse_input_data("1 1 1 1\n\n").err();
    assert_eq!(input, Some(patrol::judge::input::InputError::MissingWallV));
}
