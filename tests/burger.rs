use rust_notes::burger::{BurgerProblem, BurgerSolution};
use std::collections::HashMap;

fn solve(m: u32, n: u32, t: u32) -> BurgerSolution {
    BurgerProblem { m, n, t }.solve()
}

fn sol(completed_units: u32, deficit: u32) -> BurgerSolution {
    BurgerSolution { completed_units, deficit }
}

/// The most blocks that fill `r` exactly, found by trying every combination.
fn brute_exact(m: u32, n: u32, r: u32) -> Option<u32> {
    let mut best: Option<u32> = None;
    let max_a = if m == 0 { 0 } else { r / m };
    for a in 0..=max_a {
        let rest = r - a * m;
        let b = if n == 0 {
            if rest == 0 { Some(0) } else { None }
        } else if rest % n == 0 {
            Some(rest / n)
        } else {
            None
        };
        if let Some(b) = b {
            let k = a + b;
            if best.map_or(true, |x| k > x) {
                best = Some(k);
            }
        }
    }
    best
}

#[test]
fn zero_budget_is_empty_for_any_lengths() {
    for (m, n) in [(4, 2), (5, 3), (0, 0), (0, 7), (7, 0), (1, 1), (u32::MAX, 3)] {
        assert_eq!(solve(m, n, 0), sol(0, 0));
    }
}

#[test]
fn lengths_four_and_two() {
    assert_eq!(solve(4, 2, 0), sol(0, 0));
    assert_eq!(solve(4, 2, 2), sol(1, 0));
    assert_eq!(solve(4, 2, 6), sol(3, 0));
    assert_eq!(solve(4, 2, 54), sol(27, 0));
}

#[test]
fn lengths_five_and_three_gap() {
    assert_eq!(solve(5, 3, 1), sol(0, 1));
}

#[test]
fn zero_lengths_leave_the_whole_budget() {
    assert_eq!(solve(0, 0, 5), sol(0, 5));
}

#[test]
fn one_zero_length_uses_only_the_other() {
    assert_eq!(solve(0, 3, 7), sol(2, 1));
    assert_eq!(solve(3, 0, 9), sol(3, 0));
}

#[test]
fn odd_budget_falls_back_by_one() {
    assert_eq!(solve(4, 2, 7), sol(3, 1));
    assert_eq!(solve(4, 2, 1), sol(0, 1));
}

#[test]
fn lengths_longer_than_budget() {
    assert_eq!(solve(10, 20, 9), sol(0, 9));
}

#[test]
fn feasible_budgets_take_the_most_blocks() {
    for (m, n) in [(4, 2), (5, 3), (3, 2), (7, 5), (6, 6), (1, 9)] {
        for t in 0..60 {
            if let Some(k) = brute_exact(m, n, t) {
                assert_eq!(solve(m, n, t), sol(k, 0), "lengths {} {} budget {}", m, n, t);
            }
        }
    }
}

#[test]
fn infeasible_budgets_fall_back_to_the_largest_feasible() {
    for (m, n) in [(4, 2), (5, 3), (7, 5), (6, 9), (0, 4)] {
        for t in 0..60 {
            if brute_exact(m, n, t).is_none() {
                let s = solve(m, n, t);
                assert!(s.deficit > 0);
                let filled = t - s.deficit;
                assert_eq!(brute_exact(m, n, filled), Some(s.completed_units));
                for r in filled + 1..=t {
                    assert_eq!(brute_exact(m, n, r), None);
                }
            }
        }
    }
}

#[test]
fn units_grow_with_budget_when_one_length_divides_the_other() {
    for (m, n) in [(4, 2), (2, 6), (3, 3), (0, 5), (0, 0)] {
        let mut last = 0;
        for t in 0..80 {
            let s = solve(m, n, t);
            assert!(s.completed_units >= last, "lengths {} {} budget {}", m, n, t);
            last = s.completed_units;
        }
    }
}

#[test]
fn units_can_drop_when_budget_grows() {
    assert_eq!(solve(5, 3, 9), sol(3, 0));
    assert_eq!(solve(5, 3, 10), sol(2, 0));
}

#[test]
fn exact_solve_fills_cache() {
    let mut cache: HashMap<u32, Option<u32>> = HashMap::new();
    let p = BurgerProblem { m: 5, n: 3, t: 11 };
    assert_eq!(p.solve_exactly_with_cache(&mut cache), Some(3));
    assert_eq!(cache.get(&11), Some(&Some(3)));
    assert_eq!(cache.get(&6), Some(&Some(2)));
    assert_eq!(cache.get(&1), Some(&None));
    let q = BurgerProblem { m: 5, n: 3, t: 7 };
    assert_eq!(q.solve_exactly_with_cache(&mut cache), None);
    assert_eq!(cache.get(&7), Some(&None));
}

#[test]
fn exact_solve_reuses_cache() {
    let mut cache: HashMap<u32, Option<u32>> = HashMap::new();
    let p = BurgerProblem { m: 4, n: 2, t: 8 };
    assert_eq!(p.solve_exactly_with_cache(&mut cache), Some(4));
    let again = p.solve_exactly_with_cache(&mut cache);
    assert_eq!(again, Some(4));
    assert_eq!(BurgerProblem { m: 4, n: 2, t: 0 }.solve_exactly_with_cache(&mut cache), Some(0));
}

#[test]
fn large_lengths_do_not_overflow() {
    assert_eq!(solve(u32::MAX, u32::MAX - 1, u32::MAX), sol(1, 0));
    assert_eq!(solve(u32::MAX, 1, 30), sol(30, 0));
}
