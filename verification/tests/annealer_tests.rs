use patrol::annealer::automata::{action_char, is_auto_set_valid, is_auto_table_valid, predefined_seed_sets};
use patrol::annealer::board::{has_wall, parse_board, Board};
use patrol::annealer::eval::{best_dir_for_automaton, eval_all, eval_boards, merge_stats, EvalStats};
use patrol::annealer::output::{readable_text, solution_text};
use patrol::annealer::pool::{all_possible_entries, build_row_pool, build_slot_pool, update_elites, Elite};
use patrol::annealer::random::{crossover_auto_set, mutate, mutate_many, rand_range, random_auto_set, random_entry, xorshift64};
use patrol::annealer::sim::simulate;
use patrol::annealer::{AutoEntry, AutoSet, AutoTable};
use patrol::judge::input::parse_input_data;
use patrol::judge::output::parse_output_data;
use patrol::judge::score::{combine_walls, compute_score_details};

fn empty_board() -> Board {
    Board { v: [[false; 19]; 20], h: [[false; 20]; 19] }
}

const PERIMETER: AutoEntry = (0, 0, 1, 0);
const SPIN: AutoEntry = (1, 0, 1, 0);

fn table_of(e: AutoEntry) -> AutoTable {
    [e; 6]
}

fn set_of(e: AutoEntry) -> AutoSet {
    [table_of(e); 6]
}

fn cycle_table() -> AutoTable {
    let mut t = [(0u8, 0usize, 1u8, 0usize); 6];
    for s in 0..6 {
        t[s] = (0, (s + 1) % 6, 1, (s + 1) % 6);
    }
    t
}

fn row_ok(e: &AutoEntry) -> bool {
    e.0 < 3 && e.1 < 6 && (e.2 == 1 || e.2 == 2) && e.3 < 6
}

fn set_ok(a: &AutoSet) -> bool {
    a.iter().all(|t| t.iter().all(row_ok))
}

fn run(board: &Board, t: &AutoTable, r: usize, c: usize, d: usize) -> usize {
    let mut visited = [-1i32; 9600];
    let mut touched = Vec::new();
    let mut history = Vec::new();
    let res = simulate(board, t, r, c, d, &mut visited, &mut touched, &mut history);
    assert!(visited.iter().all(|&x| x == -1));
    res
}

fn stats_tuple(s: &EvalStats) -> (usize, usize, usize, usize, usize, usize, usize) {
    (s.total, s.full, s.near_399, s.near_398, s.near_395, s.near_380, s.min_cover)
}

#[test]
fn xorshift_sequence() {
    let mut seed = 1u64;
    assert_eq!(xorshift64(&mut seed), 129);
    assert_eq!(seed, 129);
    assert_eq!(xorshift64(&mut seed), 16417);
    assert_eq!(xorshift64(&mut seed), 2113673);
    let mut seed = 42u64;
    assert_eq!(rand_range(&mut seed, 100), 8);
    assert_eq!(seed, 5408);
}

#[test]
fn board_parsing_and_walls() {
    let mut text = String::from("20 0 1 1000\n");
    for i in 0..20 {
        let mut line = String::from("0".repeat(19));
        if i == 0 {
            line.replace_range(0..1, "1");
        }
        text.push_str(&line);
        text.push('\n');
    }
    for i in 0..19 {
        let mut line = String::from("0".repeat(20));
        if i == 18 {
            line.replace_range(19..20, "1");
        }
        text.push_str(&line);
        text.push('\n');
    }
    let b = parse_board(&text);
    assert!(b.v[0][0]);
    assert!(!b.v[0][1]);
    assert!(b.h[18][19]);
    assert!(has_wall(&b, 0, 0, 1));
    assert!(has_wall(&b, 0, 1, 3));
    assert!(!has_wall(&b, 1, 0, 1));
    assert!(has_wall(&b, 0, 5, 0));
    assert!(has_wall(&b, 18, 19, 2));
    assert!(has_wall(&b, 19, 19, 0));
    assert!(!has_wall(&b, 5, 5, 2));
}

#[test]
fn short_lines_mean_no_wall() {
    let b = parse_board("header\n1\n");
    assert!(b.v[0][0]);
    assert!(!b.v[0][1]);
    assert!(!b.v[1][0]);
}

#[test]
fn robot_along_the_border() {
    let b = empty_board();
    assert_eq!(run(&b, &table_of(PERIMETER), 9, 9, 0), 76);
    assert_eq!(run(&b, &table_of(PERIMETER), 9, 9, 1), 76);
    assert_eq!(run(&b, &table_of(SPIN), 9, 9, 2), 1);
}

#[test]
fn evaluation_of_a_set() {
    let boards = vec![empty_board(), empty_board()];
    let st = eval_all(&boards, &set_of(PERIMETER), 9, 9);
    assert_eq!(stats_tuple(&st), (152, 0, 0, 0, 0, 0, 76));
    let none: Vec<Board> = Vec::new();
    assert_eq!(stats_tuple(&eval_all(&none, &set_of(PERIMETER), 9, 9)), (0, 0, 0, 0, 0, 0, 0));
}

#[test]
fn split_evaluations_merge_to_the_whole() {
    let mut walled = empty_board();
    walled.v[9][9] = true;
    let boards = vec![empty_board(), walled, empty_board()];
    let set = set_of(PERIMETER);
    let whole = eval_all(&boards, &set, 9, 9);
    let left = eval_boards(&boards, &set, 9, 9, 0, 1);
    let right = eval_boards(&boards, &set, 9, 9, 1, 3);
    assert_eq!(stats_tuple(&merge_stats(&left, &right)), stats_tuple(&whole));
}

#[test]
fn best_direction_is_the_first_maximum() {
    let boards = vec![empty_board()];
    assert_eq!(best_dir_for_automaton(&table_of(PERIMETER), &boards, 9, 9), 0);
    assert_eq!(best_dir_for_automaton(&table_of(SPIN), &boards, 9, 9), 0);
}

#[test]
fn table_reachability() {
    assert!(!is_auto_table_valid(&table_of(SPIN)));
    assert!(is_auto_table_valid(&cycle_table()));
    assert!(!is_auto_set_valid(&set_of(SPIN)));
    assert!(is_auto_set_valid(&[cycle_table(); 6]));
}

#[test]
fn action_letters() {
    assert_eq!(action_char(0), 'F');
    assert_eq!(action_char(1), 'R');
    assert_eq!(action_char(2), 'L');
}

#[test]
fn catalogue_of_rows() {
    let all = all_possible_entries();
    assert_eq!(all.len(), 216);
    assert_eq!(all[0], (0, 0, 1, 0));
    assert_eq!(all[1], (0, 0, 1, 1));
    assert_eq!(all[215], (2, 5, 2, 5));
    assert!(all.iter().all(row_ok));
    assert!(all.windows(2).all(|w| w[0] < w[1]));
}

#[test]
fn random_rows_and_sets_are_well_formed() {
    let mut seed = 12345u64;
    for _ in 0..50 {
        assert!(row_ok(&random_entry(&mut seed)));
    }
    let a = random_auto_set(&mut seed);
    assert!(set_ok(&a));
    assert!(is_auto_set_valid(&a));
    let m = mutate(&a, &mut seed);
    assert!(set_ok(&m));
    assert!(is_auto_set_valid(&m));
    let mm = mutate_many(&a, &mut seed, 5);
    assert!(is_auto_set_valid(&mm));
    let b = random_auto_set(&mut seed);
    let c = crossover_auto_set(&a, &b, &mut seed);
    assert!(set_ok(&c));
    assert!(is_auto_set_valid(&c));
}

#[test]
fn same_seed_same_set() {
    let mut s1 = 777u64;
    let mut s2 = 777u64;
    assert_eq!(random_auto_set(&mut s1), random_auto_set(&mut s2));
    assert_eq!(s1, s2);
}

#[test]
fn no_predefined_sets() {
    assert!(predefined_seed_sets().is_empty());
}

fn elite(set: AutoSet, total: usize, full: usize, combined: usize) -> Elite {
    Elite {
        set,
        stats: EvalStats { total, full, near_399: 0, near_398: 0, near_395: 0, near_380: 0, min_cover: 0 },
        combined,
    }
}

#[test]
fn elites_sorted_and_capped() {
    let mut elites: Vec<Elite> = Vec::new();
    update_elites(&mut elites, elite(set_of(SPIN), 5, 0, 5));
    update_elites(&mut elites, elite(set_of(PERIMETER), 10, 0, 10));
    assert_eq!(elites.iter().map(|e| e.combined).collect::<Vec<_>>(), vec![10, 5]);
    update_elites(&mut elites, elite(set_of(SPIN), 10, 1, 10));
    assert_eq!(elites.len(), 2);
    assert_eq!(elites[0].stats.full, 1);
    assert_eq!(elites[0].set, set_of(SPIN));
    update_elites(&mut elites, elite(set_of(PERIMETER), 10, 0, 10));
    assert_eq!(elites[0].stats.full, 1);
    for c in 20..30 {
        update_elites(&mut elites, elite(set_of(PERIMETER), c, 0, c));
    }
    assert_eq!(elites.len(), 8);
    assert_eq!(elites[0].combined, 29);
    assert_eq!(elites[7].combined, 22);
}

#[test]
fn pools_of_rows() {
    let elites = vec![elite(set_of(SPIN), 1, 0, 1)];
    let seeds: Vec<AutoSet> = vec![set_of(PERIMETER)];
    assert_eq!(build_row_pool(&elites, &seeds), vec![PERIMETER, SPIN]);
    let slots = build_slot_pool(&elites, &seeds);
    assert_eq!(slots.len(), 6);
    assert_eq!(slots[3][4], vec![PERIMETER, SPIN]);
}

#[test]
fn answer_text_of_a_set() {
    let boards = vec![empty_board()];
    let text = solution_text(&set_of(SPIN), &boards, 9, 9);
    let mut expected = String::from("6\n");
    for _ in 0..6 {
        expected.push_str("6 9 9 U\n");
        for _ in 0..6 {
            expected.push_str("R 0 R 0\n");
        }
    }
    for _ in 0..20 {
        expected.push_str(&"0".repeat(19));
        expected.push('\n');
    }
    for _ in 0..19 {
        expected.push_str(&"0".repeat(20));
        expected.push('\n');
    }
    assert_eq!(text, expected);
}

#[test]
fn readable_listing_of_a_set() {
    let boards = vec![empty_board()];
    let text = readable_text(&set_of(SPIN), &boards, 9, 9);
    assert!(text.starts_with("// ---- Best AutoSet (Rust 定数形式) ----\nconst AUTO_0: [(u8, usize, u8, usize); 6] = [(1, 0, 1, 0), (1, 0, 1, 0)"));
    assert!(text.contains("// Automaton 5:\n//   state 0: no_wall=(R, next=0)  wall=(R, next=0)\n"));
    assert!(text.contains("AUTOMATA_COPYABLE_BEGIN\nPATTERN 0\n1\n6 9 9 U\nR 0 R 0\n"));
    assert!(text.ends_with("R 0 R 0\nAUTOMATA_COPYABLE_END\n"));
    assert!(text.contains("R 0 R 0\n\nPATTERN 1\n"));
}

#[test]
fn answer_text_reads_back_as_a_plan() {
    let boards = vec![empty_board()];
    let set = [cycle_table(), table_of(SPIN), table_of(PERIMETER), cycle_table(), table_of(SPIN), table_of((2, 3, 2, 5))];
    let text = solution_text(&set, &boards, 9, 9);
    let mut instance = String::from("20 0 1 1000\n");
    for _ in 0..20 {
        instance.push_str(&"0".repeat(19));
        instance.push('\n');
    }
    for _ in 0..19 {
        instance.push_str(&"0".repeat(20));
        instance.push('\n');
    }
    let input = parse_input_data(&instance).unwrap();
    let plan = parse_output_data(&input, &text).unwrap();
    assert_eq!(plan.robots.len(), 6);
    for (k, robot) in plan.robots.iter().enumerate() {
        assert_eq!((robot.m, robot.i, robot.j), (6, 9, 9));
        for s in 0..6 {
            assert_eq!(robot.a0[s], action_char(set[k][s].0));
            assert_eq!(robot.b0[s], set[k][s].1);
            assert_eq!(robot.a1[s], action_char(set[k][s].2));
            assert_eq!(robot.b1[s], set[k][s].3);
        }
    }
}

#[test]
fn judge_counts_what_the_search_finds() {
    let mut board = empty_board();
    for i in 3..15 {
        board.v[i][12] = true;
        board.h[7][i] = true;
    }
    board.v[9][4] = true;
    let mut instance = String::from("20 0 1 1000\n");
    for i in 0..20 {
        instance.extend((0..19).map(|j| if board.v[i][j] { '1' } else { '0' }));
        instance.push('\n');
    }
    for i in 0..19 {
        instance.extend((0..20).map(|j| if board.h[i][j] { '1' } else { '0' }));
        instance.push('\n');
    }
    let input = parse_input_data(&instance).unwrap();
    for table in [cycle_table(), table_of(PERIMETER), table_of((2, 3, 2, 5)), table_of(SPIN)] {
        for d in 0..4usize {
            let mut plan = format!("1\n6 9 9 {}\n", ['U', 'R', 'D', 'L'][d]);
            for e in table.iter() {
                plan.push_str(&format!("{} {} {} {}\n", action_char(e.0), e.1, action_char(e.2), e.3));
            }
            for _ in 0..20 {
                plan.push_str(&"0".repeat(19));
                plan.push('\n');
            }
            for _ in 0..19 {
                plan.push_str(&"0".repeat(20));
                plan.push('\n');
            }
            let out = parse_output_data(&input, &plan).unwrap();
            let (cv, ch) = combine_walls(&input, &out).unwrap();
            let det = compute_score_details(&input, &out, &cv, &ch).unwrap();
            assert_eq!(det.num, run(&board, &table, 9, 9, d));
        }
    }
}

#[test]
fn elites_never_share_a_score_pair() {
    let mut elites: Vec<Elite> = Vec::new();
    let mut seed = 7u64;
    for _ in 0..200 {
        let total = rand_range(&mut seed, 6);
        let combined = rand_range(&mut seed, 6);
        let full = rand_range(&mut seed, 3);
        update_elites(&mut elites, elite(set_of(SPIN), total, full, combined));
        for a in 0..elites.len() {
            for b in a + 1..elites.len() {
                let same = elites[a].combined == elites[b].combined && elites[a].stats.total == elites[b].stats.total;
                assert!(!same);
            }
        }
        assert!(elites.len() <= 8);
    }
}

#[test]
fn stats_of_many_chunks_merge_to_one_pass() {
    let mut boards = Vec::new();
    for k in 0..7 {
        let mut b = empty_board();
        for i in 0..(k * 2) {
            b.v[i][5 + k % 3] = true;
            b.h[10][i] = true;
        }
        boards.push(b);
    }
    let set = [cycle_table(), table_of(SPIN), table_of(PERIMETER), cycle_table(), table_of(SPIN), table_of((2, 3, 2, 5))];
    let whole = eval_all(&boards, &set, 9, 9);
    let cuts = [0usize, 0, 2, 3, 3, 7];
    let mut acc = eval_boards(&boards, &set, 9, 9, 0, 0);
    for w in cuts.windows(2) {
        acc = merge_stats(&acc, &eval_boards(&boards, &set, 9, 9, w[0], w[1]));
    }
    assert_eq!(stats_tuple(&acc), stats_tuple(&whole));
}

#[test]
fn the_two_simulations_agree() {
    let mut board = empty_board();
    for i in 2..17 {
        board.v[i][8] = true;
        board.h[12][i] = true;
    }
    let v: Vec<Vec<bool>> = (0..20).map(|i| board.v[i].to_vec()).collect();
    let h: Vec<Vec<bool>> = (0..19).map(|i| board.h[i].to_vec()).collect();
    for table in [cycle_table(), table_of(PERIMETER), table_of((2, 3, 2, 5)), table_of((0, 1, 2, 4))] {
        for (r, c, d) in [(9usize, 9usize, 0usize), (0, 0, 1), (19, 3, 2), (5, 12, 3)] {
            let e = patrol::enumerate::simulate(&v, &h, &table, r, c, d);
            assert_eq!(e, run(&board, &table, r, c, d));
        }
    }
}

#[test]
fn mutation_of_a_set_with_unknown_actions() {
    let mut seed = 4242u64;
    let mut a = random_auto_set(&mut seed);
    a[0][0].0 = 7;
    let m = mutate(&a, &mut seed);
    assert!(is_auto_set_valid(&m) || m == a);
    let mm = mutate_many(&a, &mut seed, 3);
    assert!(mm.iter().all(|t| t.iter().all(|e| e.1 < 6 && e.3 < 6)));
}
