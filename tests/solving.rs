use std::collections::HashSet;
use std::time::{Duration, Instant};
use traps::exhaustive::brute_force_solve;
use traps::puzzle::TrapsPuzzle;
use traps::solver::naive_solve;

fn skip_set(inds: &[usize]) -> HashSet<usize> {
    inds.iter().copied().collect()
}

/// A small linear congruential generator, enough to vary test inputs.
struct Lcg(u64);

impl Lcg {
    fn next_in(&mut self, lo: usize, hi: usize) -> usize {
        self.0 = self.0.wrapping_mul(6364136223846793005).wrapping_add(1442695040888963407);
        lo + ((self.0 >> 33) as usize) % (hi - lo)
    }
}

#[test]
fn brute_force_solver_works() {
    let puzzle = TrapsPuzzle {
        base_dmgs: vec![8, 2, 5, 15, 11, 2, 8],
        k: 5,
    };

    assert_eq!(brute_force_solve(&puzzle), 9);
}

#[test]
fn naive_and_brute_agree_single_easy() {
    let puzzle = TrapsPuzzle {
        base_dmgs: vec![8, 2, 5, 15, 11, 2, 8],
        k: 5,
    };

    assert_eq!(brute_force_solve(&puzzle), naive_solve(&puzzle));
}

#[test]
fn naive_and_brute_agree_single_hard() {
    let puzzle = TrapsPuzzle {
        base_dmgs: vec![3, 4, 4, 1],
        k: 3,
    };

    assert_eq!(brute_force_solve(&puzzle), naive_solve(&puzzle));
}

fn naive_and_brute_force_agree(n: usize, k: usize, test_count: usize, rng: &mut Lcg) {
    let mut puzzle = TrapsPuzzle {
        base_dmgs: vec![0; n],
        k: k,
    };

    for _ in 0..test_count {
        for i in 0..n {
            puzzle.base_dmgs[i] = rng.next_in(1, n + 1);
        }
        assert_eq!(brute_force_solve(&puzzle), naive_solve(&puzzle));
    }
}

#[test]
fn naive_and_brute_agree_many() {
    let mut rng = Lcg(7);
    for n in 1..10 {
        for k in 1..n {
            naive_and_brute_force_agree(n, k, 1000, &mut rng);
        }
    }
}

#[test]
fn naive_big_puzzle_finishes_fast() {
    let n = 200000;
    let k = 21786;

    let mut puzzle = TrapsPuzzle {
        base_dmgs: vec![0; n],
        k: k,
    };

    let mut rng = Lcg(12345);
    for i in 0..n {
        puzzle.base_dmgs[i] = rng.next_in(1, n + 1);
    }

    let start_time = Instant::now();
    naive_solve(&puzzle);
    let solve_duration = Instant::now() - start_time;
    println!("Big puzzle solve time: {:?}", solve_duration);
    assert!(solve_duration < Duration::from_secs(1));
}

#[test]
fn evaluator_without_skips_is_plain_sum() {
    let puzzle = TrapsPuzzle {
        base_dmgs: vec![1, 2, 3],
        k: 0,
    };
    assert_eq!(puzzle.dmg_from_skip_inds(&skip_set(&[])), 6);
}

#[test]
fn evaluator_bonus_applies_after_skip() {
    let puzzle = TrapsPuzzle {
        base_dmgs: vec![1, 2, 3],
        k: 1,
    };
    assert_eq!(puzzle.dmg_from_skip_inds(&skip_set(&[0])), 7);
    assert_eq!(puzzle.dmg_from_skip_inds(&skip_set(&[1])), 5);
    assert_eq!(puzzle.dmg_from_skip_inds(&skip_set(&[2])), 3);
}

#[test]
fn evaluator_skipping_everything_costs_nothing() {
    let puzzle = TrapsPuzzle {
        base_dmgs: vec![5, 9, 4],
        k: 3,
    };
    assert_eq!(puzzle.dmg_from_skip_inds(&skip_set(&[0, 1, 2])), 0);
}

#[test]
fn second_fixture_value() {
    let puzzle = TrapsPuzzle {
        base_dmgs: vec![3, 4, 4, 1],
        k: 3,
    };
    // skipping 1, 2 and 3 leaves only the first trap, before any bonus
    assert_eq!(naive_solve(&puzzle), 3);
    assert_eq!(brute_force_solve(&puzzle), 3);
}

#[test]
fn greedy_on_first_fixture() {
    let puzzle = TrapsPuzzle {
        base_dmgs: vec![8, 2, 5, 15, 11, 2, 8],
        k: 5,
    };
    assert_eq!(naive_solve(&puzzle), 9);
}

#[test]
fn no_skips_gives_plain_sum() {
    let puzzle = TrapsPuzzle {
        base_dmgs: vec![4, 0, 7, 2],
        k: 0,
    };
    assert_eq!(naive_solve(&puzzle), 13);
    assert_eq!(brute_force_solve(&puzzle), 13);
}

#[test]
fn all_skipped_gives_zero() {
    let puzzle = TrapsPuzzle {
        base_dmgs: vec![4, 100, 7, 2, 9],
        k: 5,
    };
    assert_eq!(naive_solve(&puzzle), 0);
    assert_eq!(brute_force_solve(&puzzle), 0);
}

#[test]
fn single_trap_puzzles() {
    let skip = TrapsPuzzle { base_dmgs: vec![42], k: 1 };
    let keep = TrapsPuzzle { base_dmgs: vec![42], k: 0 };
    assert_eq!(naive_solve(&skip), 0);
    assert_eq!(naive_solve(&keep), 42);
}

#[test]
fn equal_scores_still_skip_exactly_k() {
    // every position has the same score, so only the tie-break decides
    let puzzle = TrapsPuzzle {
        base_dmgs: vec![5, 4, 3, 2, 1],
        k: 2,
    };
    assert_eq!(naive_solve(&puzzle), brute_force_solve(&puzzle));
    assert_eq!(naive_solve(&puzzle), 12);
}

#[test]
fn repeated_solves_agree() {
    let puzzle = TrapsPuzzle {
        base_dmgs: vec![6, 1, 6, 1, 6, 1, 6],
        k: 3,
    };
    let first = naive_solve(&puzzle);
    for _ in 0..10 {
        assert_eq!(naive_solve(&puzzle), first);
    }
}

#[test]
fn large_damages_accepted_when_the_sum_fits() {
    let puzzle = TrapsPuzzle {
        base_dmgs: vec![usize::MAX - 10, 1, 1, 1, 1],
        k: 0,
    };
    assert!(puzzle.is_valid());
    assert_eq!(naive_solve(&puzzle), usize::MAX - 6);
}
