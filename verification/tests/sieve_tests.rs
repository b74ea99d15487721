use prime_gen::bitmap::CompositeBitmap;
use prime_gen::segmented::{
    count_primes, count_segmented, generate_primes, generate_segmented, window_width_for,
    DEFAULT_WINDOW,
};
use prime_gen::sieve::{
    marking_tasks, SievePlan, SieveStep,
    sieve_of_eratosthenes, sieve_window, BarrierSchedule, MarkTask, FIRST_BARRIER,
};

fn is_prime_by_trial_division(n: u64) -> bool {
    if n < 2 {
        return false;
    }
    let mut d = 2u64;
    while d * d <= n {
        if n % d == 0 {
            return false;
        }
        d += 1;
    }
    true
}

fn primes_by_trial_division(n: u64) -> Vec<u64> {
    (0..=n).filter(|&v| is_prime_by_trial_division(v)).collect()
}

fn coprime_to_30(v: u64) -> bool {
    v % 2 != 0 && v % 3 != 0 && v % 5 != 0
}

#[test]
fn nothing_below_two() {
    assert_eq!(generate_primes(0), Vec::<u64>::new());
    assert_eq!(generate_primes(1), Vec::<u64>::new());
    assert_eq!(count_primes(0), 0);
    assert_eq!(count_primes(1), 0);
}

#[test]
fn literal_results() {
    assert_eq!(generate_primes(2), vec![2]);
    assert_eq!(generate_primes(10), vec![2, 3, 5, 7]);
    assert_eq!(generate_primes(30), vec![2, 3, 5, 7, 11, 13, 17, 19, 23, 29]);
    assert_eq!(count_primes(100), 25);
}

#[test]
fn bounds_among_the_seed_primes_give_their_prefix() {
    assert_eq!(generate_primes(3), vec![2, 3]);
    assert_eq!(generate_primes(4), vec![2, 3]);
    assert_eq!(generate_primes(5), vec![2, 3, 5]);
    assert_eq!(generate_primes(6), vec![2, 3, 5]);
    assert_eq!(generate_primes(7), vec![2, 3, 5, 7]);
    assert_eq!(sieve_of_eratosthenes(5), vec![2, 3, 5]);
    assert_eq!(sieve_of_eratosthenes(6), vec![2, 3, 5]);
}

#[test]
fn primes_up_to_the_square_root_are_kept() {
    assert_eq!(
        sieve_of_eratosthenes(100),
        vec![
            2, 3, 5, 7, 11, 13, 17, 19, 23, 29, 31, 37, 41, 43, 47, 53, 59, 61, 67, 71, 73, 79,
            83, 89, 97
        ]
    );
}

#[test]
fn every_bound_up_to_3000_matches_trial_division() {
    for n in 0u64..=3000 {
        assert_eq!(generate_primes(n), primes_by_trial_division(n));
        assert_eq!(sieve_of_eratosthenes(n), primes_by_trial_division(n));
    }
}

#[test]
fn bound_100000_matches_trial_division() {
    let reference = primes_by_trial_division(100_000);
    assert_eq!(generate_primes(100_000), reference);
    assert_eq!(sieve_of_eratosthenes(100_000), reference);
    let mut n = 3001u64;
    while n <= 100_000 {
        let expected: Vec<u64> = reference.iter().copied().filter(|&p| p <= n).collect();
        assert_eq!(generate_primes(n), expected);
        n += 997;
    }
}

#[test]
fn squares_of_primes_are_struck_out() {
    for p in [7u64, 11, 13, 31, 97, 251] {
        let primes = sieve_of_eratosthenes(p * p);
        assert!(!primes.contains(&(p * p)));
        assert_eq!(primes, primes_by_trial_division(p * p));
        assert_eq!(sieve_of_eratosthenes(p * p - 1), primes_by_trial_division(p * p - 1));
    }
}

#[test]
fn count_is_the_length_of_the_list() {
    for n in (0u64..400).chain([1000, 4999, 65_535, 65_536, 70_000, 200_000]) {
        assert_eq!(count_primes(n), generate_primes(n).len() as u64);
    }
}

#[test]
fn known_counts() {
    assert_eq!(count_primes(1_000), 168);
    assert_eq!(count_primes(10_000), 1_229);
    assert_eq!(count_primes(100_000), 9_592);
    assert_eq!(count_primes(1_000_000), 78_498);
    assert_eq!(count_primes(10_000_000), 664_579);
}

#[test]
fn repeated_calls_give_the_same_list() {
    for n in [0u64, 29, 30, 1000, 65_536, 123_456] {
        let first = generate_primes(n);
        let second = generate_primes(n);
        assert_eq!(first, second);
    }
}

#[test]
fn window_width_does_not_change_the_result() {
    let n = 1_000_000u64;
    let whole = generate_segmented(n, n);
    assert_eq!(whole.len(), 78_498);
    for width in [1_000u64, 1_024, 4_099, 65_535, 999_999] {
        assert_eq!(generate_segmented(n, width), whole);
        assert_eq!(count_segmented(n, width), 78_498);
    }
}

#[test]
fn narrowest_admitted_window() {
    // 316 is the integer square root of 100000
    let reference = primes_by_trial_division(100_000);
    assert_eq!(generate_segmented(100_000, 316), reference);
    assert_eq!(generate_segmented(48, 6), primes_by_trial_division(48));
    assert_eq!(generate_segmented(35, 5), primes_by_trial_division(35));
    assert_eq!(generate_segmented(8, 2), vec![2, 3, 5, 7]);
    assert_eq!(generate_segmented(0, 0), Vec::<u64>::new());
}

#[test]
fn last_window_is_clipped_to_the_bound() {
    // windows (1000, 2000], (2000, 3000], (3000, 3001]
    assert_eq!(generate_segmented(3001, 1000), primes_by_trial_division(3001));
    assert_eq!(*generate_segmented(3001, 1000).last().unwrap(), 3001);
    assert_eq!(generate_segmented(3000, 1000), primes_by_trial_division(3000));
}

#[test]
fn window_holds_the_primes_between_its_ends() {
    let base = generate_primes(1_000);
    let found = sieve_window(&base, 999_000, 1_000_000);
    let expected: Vec<u64> =
        (999_001u64..=1_000_000).filter(|&v| is_prime_by_trial_division(v)).collect();
    assert_eq!(found, expected);
}

#[test]
fn window_leaves_its_lower_end_out_and_takes_its_upper_end_in() {
    let base = generate_primes(100);
    assert_eq!(sieve_window(&base, 101, 113), vec![103, 107, 109, 113]);
    assert_eq!(sieve_window(&base, 113, 113), Vec::<u64>::new());
    assert_eq!(sieve_window(&base, 5, 30), vec![7, 11, 13, 17, 19, 23, 29]);
}

#[test]
fn window_far_up() {
    let base = generate_primes(1_000_100);
    let low = 1_000_000_000_000u64;
    let found = sieve_window(&base, low, low + 1_000);
    assert_eq!(found.len(), 37);
    assert_eq!(&found[..3], &[1_000_000_000_039, 1_000_000_000_061, 1_000_000_000_063]);
    for v in (low + 1)..=(low + 1_000) {
        let composite = base.iter().any(|&p| v % p == 0);
        assert_eq!(found.contains(&v), !composite);
    }
}

#[test]
fn bitmap_starts_clear() {
    let bitmap = CompositeBitmap::new(6, 100);
    assert_eq!(bitmap.low(), 6);
    assert_eq!(bitmap.high(), 100);
    for v in 7u64..=100 {
        if coprime_to_30(v) {
            assert!(!bitmap.is_marked(v));
        }
    }
    let mut survivors = Vec::new();
    bitmap.harvest(&mut survivors);
    let expected: Vec<u64> = (7u64..=100).filter(|&v| coprime_to_30(v)).collect();
    assert_eq!(survivors, expected);
}

#[test]
fn marking_strikes_the_multiples_from_the_square_on() {
    let mut bitmap = CompositeBitmap::new(6, 200);
    bitmap.mark_multiples(7);
    for v in 7u64..=200 {
        if coprime_to_30(v) {
            assert_eq!(bitmap.is_marked(v), v % 7 == 0 && v >= 49);
        }
    }
    bitmap.mark_multiples(11);
    bitmap.mark_multiples(13);
    let mut survivors = vec![2, 3, 5];
    bitmap.harvest(&mut survivors);
    assert_eq!(survivors, primes_by_trial_division(200));
}

#[test]
fn marking_in_a_window_starts_at_its_lower_end() {
    let mut bitmap = CompositeBitmap::new(100, 200);
    bitmap.mark_multiples(7);
    let marked: Vec<u64> =
        (101u64..=200).filter(|&v| coprime_to_30(v) && bitmap.is_marked(v)).collect();
    assert_eq!(marked, vec![119, 133, 161]);
    bitmap.mark_multiples(11);
    bitmap.mark_multiples(13);
    let mut survivors = Vec::new();
    bitmap.harvest(&mut survivors);
    let expected: Vec<u64> = (101u64..=200).filter(|&v| is_prime_by_trial_division(v)).collect();
    assert_eq!(survivors, expected);
}

#[test]
fn marking_a_prime_whose_square_lies_above_the_window_changes_nothing() {
    let mut bitmap = CompositeBitmap::new(6, 100);
    bitmap.mark_multiples(11);
    for v in 7u64..=100 {
        if coprime_to_30(v) {
            assert!(!bitmap.is_marked(v));
        }
    }
}

#[test]
fn marking_twice_is_marking_once() {
    let mut once = CompositeBitmap::new(6, 1000);
    once.mark_multiples(7);
    let mut twice = CompositeBitmap::new(6, 1000);
    twice.mark_multiples(7);
    twice.mark_multiples(7);
    let mut left = Vec::new();
    once.harvest(&mut left);
    let mut right = Vec::new();
    twice.harvest(&mut right);
    assert_eq!(left, right);
}

#[test]
fn marking_near_the_largest_bound_does_not_overflow() {
    let low = u64::MAX - 1_000;
    let mut bitmap = CompositeBitmap::new(low, u64::MAX);
    bitmap.mark_multiples(7);
    bitmap.mark_multiples(4_294_967_291);
    for v in (low + 1)..=u64::MAX {
        if coprime_to_30(v) {
            let struck = v % 7 == 0 || v % 4_294_967_291 == 0;
            assert_eq!(bitmap.is_marked(v), struck);
        }
    }
}

#[test]
fn harvest_appends_behind_what_the_list_holds() {
    let mut bitmap = CompositeBitmap::new(6, 60);
    bitmap.mark_multiples(7);
    let mut list = vec![100, 200];
    bitmap.harvest(&mut list);
    assert_eq!(list, vec![100, 200, 7, 11, 13, 17, 19, 23, 29, 31, 37, 41, 43, 47, 53, 59]);
}

#[test]
fn mark_task_never_signals_stop() {
    let mut bitmap = CompositeBitmap::new(6, 100);
    let task = MarkTask { prime: 7 };
    assert!(!task.run(&mut bitmap));
    assert!(bitmap.is_marked(49));
    assert!(bitmap.is_marked(77));
    assert!(bitmap.is_marked(91));
    assert!(!bitmap.is_marked(7));
}

#[test]
fn barrier_schedule_squares_its_threshold() {
    let mut schedule = BarrierSchedule::new();
    assert_eq!(FIRST_BARRIER, 36);
    assert_eq!(schedule.threshold(), 36);
    assert!(!schedule.due(7));
    assert!(!schedule.due(36));
    assert!(schedule.due(37));
    schedule.raise();
    assert_eq!(schedule.threshold(), 1_296);
    assert!(!schedule.due(37));
    schedule.raise();
    assert_eq!(schedule.threshold(), 1_679_616);
    schedule.raise();
    assert_eq!(schedule.threshold(), 2_821_109_907_456);
    schedule.raise();
    assert_eq!(schedule.threshold(), u64::MAX);
    schedule.raise();
    assert_eq!(schedule.threshold(), u64::MAX);
}

#[test]
fn window_width_reaches_the_square_root() {
    assert_eq!(DEFAULT_WINDOW, 65_535);
    assert_eq!(window_width_for(0), 65_535);
    assert_eq!(window_width_for(4_294_967_295), 65_535);
    assert_eq!(window_width_for(4_294_967_296), 131_071);
    assert_eq!(window_width_for(1_000_000_000_000), 1_048_575);
    assert_eq!(window_width_for(u64::MAX), 4_294_967_295);
    for n in [0u64, 1, 4_294_967_296, 1 << 40, (1 << 62) + 12345, u64::MAX] {
        let width = window_width_for(n) as u128;
        assert!((width + 1) * (width + 1) > n as u128);
    }
}

fn plan_steps(n: u64) -> Vec<SieveStep> {
    let mut plan = SievePlan::new(n);
    let mut steps = Vec::new();
    loop {
        let step = plan.next_step();
        let done = matches!(step, SieveStep::Done);
        steps.push(step);
        if done {
            return steps;
        }
    }
}

fn candidates(steps: &[SieveStep]) -> Vec<u64> {
    let mut out = Vec::new();
    for step in steps {
        if let SieveStep::Candidate(p) = step {
            out.push(*p);
        }
    }
    out
}

#[test]
fn plan_is_done_at_once_below_49() {
    let steps = plan_steps(48);
    assert_eq!(steps.len(), 1);
    assert!(matches!(steps[0], SieveStep::Done));
}

#[test]
fn plan_hands_out_seven_for_49() {
    let steps = plan_steps(49);
    assert_eq!(steps.len(), 2);
    assert!(matches!(steps[0], SieveStep::Candidate(7)));
    assert!(matches!(steps[1], SieveStep::Done));
}

#[test]
fn plan_asks_for_a_barrier_beyond_the_threshold() {
    let steps = plan_steps(2000);
    assert_eq!(candidates(&steps), vec![7, 11, 13, 17, 19, 23, 29, 31, 37, 41, 43]);
    assert_eq!(steps.len(), 13);
    assert!(matches!(steps[7], SieveStep::Candidate(31)));
    assert!(matches!(steps[8], SieveStep::Barrier));
    assert!(matches!(steps[9], SieveStep::Candidate(37)));
    assert!(matches!(steps[12], SieveStep::Done));
}

#[test]
fn plan_barriers_grow_rare() {
    let steps = plan_steps(4_000_000);
    let expected: Vec<u64> = (7u64..=2000).filter(|&v| coprime_to_30(v)).collect();
    assert_eq!(candidates(&steps), expected);
    let barriers: Vec<usize> = (0..steps.len())
        .filter(|&i| matches!(steps[i], SieveStep::Barrier))
        .collect();
    assert_eq!(barriers.len(), 2);
    assert!(matches!(steps[barriers[0] + 1], SieveStep::Candidate(37)));
    assert!(matches!(steps[barriers[1] + 1], SieveStep::Candidate(1297)));
}

#[test]
fn marking_tasks_are_the_base_primes_up_to_the_square_root() {
    let base = generate_primes(100);
    let primes_of = |high: u64| -> Vec<u64> {
        marking_tasks(&base, high).iter().map(|task| task.prime).collect()
    };
    assert_eq!(primes_of(48), Vec::<u64>::new());
    assert_eq!(primes_of(49), vec![7]);
    assert_eq!(primes_of(120), vec![7]);
    assert_eq!(primes_of(121), vec![7, 11]);
    assert_eq!(
        primes_of(10_000),
        vec![
            7, 11, 13, 17, 19, 23, 29, 31, 37, 41, 43, 47, 53, 59, 61, 67, 71, 73, 79, 83, 89, 97
        ]
    );
}

#[test]
fn running_the_marking_tasks_sieves_the_window() {
    let base = generate_primes(200);
    let mut bitmap = CompositeBitmap::new(20_000, 30_000);
    for task in marking_tasks(&base, 30_000) {
        assert!(!task.run(&mut bitmap));
    }
    let mut found = Vec::new();
    bitmap.harvest(&mut found);
    let expected: Vec<u64> =
        (20_001u64..=30_000).filter(|&v| is_prime_by_trial_division(v)).collect();
    assert_eq!(found, expected);
}

#[test]
fn entry_points_stand_at_the_crate_root() {
    assert_eq!(prime_gen::generate_primes(20), vec![2, 3, 5, 7, 11, 13, 17, 19]);
    assert_eq!(prime_gen::count_primes(20), 8);
}
