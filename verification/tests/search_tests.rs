use patrol::annealer::automata::is_auto_set_valid;
use patrol::annealer::board::Board;
use patrol::annealer::eval::{eval_all, EvalStats};
use patrol::annealer::pool::{all_possible_entries, Elite};
use patrol::annealer::random::random_auto_set;
use patrol::annealer::search::{
    anneal_score, anneal_trials, combined_score, improve_slot, is_better, local_candidate, pick_pair, propose_candidate,
    refine_slot, restart_candidate, stagnation_secs, within_budget,
};
use patrol::annealer::{AutoEntry, AutoSet};

fn stats(total: usize, full: usize, n399: usize, n398: usize, n395: usize, n380: usize, min: usize) -> EvalStats {
    EvalStats { total, full, near_399: n399, near_398: n398, near_395: n395, near_380: n380, min_cover: min }
}

fn empty_board() -> Board {
    Board { v: [[false; 19]; 20], h: [[false; 20]; 19] }
}

fn set_ok(a: &AutoSet) -> bool {
    a.iter().all(|t| t.iter().all(|e| e.0 < 3 && e.1 < 6 && (e.2 == 1 || e.2 == 2) && e.3 < 6))
}

fn differing_rows(a: &AutoSet, b: &AutoSet) -> usize {
    let mut n = 0;
    for k in 0..6 {
        for s in 0..6 {
            if a[k][s] != b[k][s] {
                n += 1;
            }
        }
    }
    n
}

#[test]
fn strict_score() {
    assert_eq!(combined_score(&stats(5, 1, 0, 0, 0, 0, 0)), 1_000_000_000_005);
    assert_eq!(combined_score(&stats(7, 0, 1, 2, 3, 4, 5)), 1_000_000_000 + 20_000_000 + 300_000 + 20_000 + 1_000 + 7);
}

#[test]
fn annealing_score() {
    assert_eq!(anneal_score(&stats(100, 2, 3, 0, 0, 0, 0), 60_000, 800), 2 * 60_000 + 3 * 800 + 100);
    assert_eq!(anneal_score(&stats(0, 0, 0, 0, 0, 0, 0), 1, 1), 0);
}

#[test]
fn stagnation_limits() {
    assert_eq!(stagnation_secs(false, 10), 10);
    assert_eq!(stagnation_secs(false, 40), 15);
    assert_eq!(stagnation_secs(false, 50), 30);
    assert_eq!(stagnation_secs(true, 39), 90);
    assert_eq!(stagnation_secs(true, 45), 120);
    assert_eq!(stagnation_secs(true, 60), 480);
}

#[test]
fn comparing_candidates() {
    let best = stats(100, 3, 4, 0, 0, 0, 0);
    assert!(is_better(false, &stats(0, 4, 0, 0, 0, 0, 0), 0, &best, 99));
    assert!(is_better(false, &stats(0, 3, 0, 0, 0, 0, 0), 100, &best, 99));
    assert!(!is_better(false, &stats(0, 3, 0, 0, 0, 0, 0), 99, &best, 99));
    assert!(is_better(true, &stats(0, 3, 5, 0, 0, 0, 0), 0, &best, 99));
    assert!(is_better(true, &stats(101, 3, 4, 0, 0, 0, 0), 0, &best, 99));
    assert!(!is_better(true, &stats(100, 3, 4, 0, 0, 0, 0), 1000, &best, 99));
}

#[test]
fn pairs_are_distinct() {
    let mut seed = 3u64;
    for len in 2..20 {
        let (i, j) = pick_pair(&mut seed, len);
        assert!(i < len && j < len && i != j);
    }
}

#[test]
fn budget_of_boards() {
    assert!(within_budget(0));
    assert!(within_budget(1000));
    assert!(!within_budget(usize::MAX));
}

fn elites_of(sets: &[AutoSet]) -> Vec<Elite> {
    sets.iter().map(|&set| Elite { set, stats: stats(0, 0, 0, 0, 0, 0, 0), combined: 0 }).collect()
}

#[test]
fn proposals_are_well_formed() {
    let mut seed = 2024u64;
    let a = random_auto_set(&mut seed);
    let b = random_auto_set(&mut seed);
    let c = random_auto_set(&mut seed);
    let elites = elites_of(&[b, c]);
    for _ in 0..20 {
        let p = propose_candidate(&a, &b, &elites, &mut seed);
        assert!(set_ok(&p));
        let r = restart_candidate(55, &elites, &a, &mut seed);
        assert!(set_ok(&r));
        let r2 = restart_candidate(3, &elites, &a, &mut seed);
        assert!(set_ok(&r2));
    }
    let single = elites_of(&[c]);
    let r = restart_candidate(60, &single, &a, &mut seed);
    assert!(set_ok(&r));
    assert!(is_auto_set_valid(&r));
}

#[test]
fn same_seed_same_proposal() {
    let mut seed = 5u64;
    let a = random_auto_set(&mut seed);
    let elites = elites_of(&[a]);
    let mut s1 = 77u64;
    let mut s2 = 77u64;
    assert_eq!(propose_candidate(&a, &a, &elites, &mut s1), propose_candidate(&a, &a, &elites, &mut s2));
    assert_eq!(s1, s2);
}

#[test]
fn trials_keep_the_best_scored() {
    let boards = vec![empty_board()];
    let mut seed = 11u64;
    let a = random_auto_set(&mut seed);
    let st = eval_all(&boards, &a, 9, 9);
    let elites = elites_of(&[a]);
    let (set, s, score) = anneal_trials(&a, &st, &a, &elites, &boards, 9, 9, 60_000, 800, 3, &mut seed);
    let again = eval_all(&boards, &set, 9, 9);
    assert_eq!((s.total, s.full, s.min_cover), (again.total, again.full, again.min_cover));
    assert_eq!(score, anneal_score(&s, 60_000, 800));
    let (same, _, none) = anneal_trials(&a, &st, &a, &elites, &boards, 9, 9, 60_000, 800, 0, &mut seed);
    assert_eq!(same, a);
    assert_eq!(none, i64::MIN);
}

#[test]
fn slot_improvement_never_worsens() {
    let boards = vec![empty_board()];
    let mut seed = 19u64;
    let a = random_auto_set(&mut seed);
    let st = eval_all(&boards, &a, 9, 9);
    let cmb = combined_score(&st);
    let all = all_possible_entries();
    let none: Vec<AutoEntry> = Vec::new();
    let (row, rst, rc) = improve_slot(&a, &st, cmb, 2, 3, &all, &none, &boards, 9, 9);
    assert!(rst.full > st.full || (rst.full == st.full && rc >= cmb));
    if row == a[2][3] {
        assert_eq!(rc, cmb);
    } else {
        let mut b = a;
        b[2][3] = row;
        assert!(is_auto_set_valid(&b));
        let bs = eval_all(&boards, &b, 9, 9);
        assert_eq!(combined_score(&bs), rc);
    }
    let (set, rs, rcmb) = refine_slot(&a, &st, cmb, 1, 1, &all, 10, false, &boards, 9, 9, &mut seed);
    assert!(rs.full >= st.full);
    assert_eq!(combined_score(&eval_all(&boards, &set, 9, 9)), rcmb);
    assert!(differing_rows(&set, &a) <= 1);
}

#[test]
fn local_proposals_change_few_rows() {
    let mut seed = 31u64;
    let a = random_auto_set(&mut seed);
    let pool = all_possible_entries();
    for final_mode in [false, true] {
        for _ in 0..20 {
            let c = local_candidate(&a, &pool, final_mode, &mut seed);
            assert!(set_ok(&c));
            assert!(differing_rows(&c, &a) <= if final_mode { 2 } else { 3 });
        }
    }
}
