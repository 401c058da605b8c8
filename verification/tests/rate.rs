use sender::rate::{sender_count, worker_sleep};

fn reference(n: usize, tps: usize) -> u64 {
    (1_000f64 * (n as f64 / tps as f64)) as u64
}

#[test]
fn sender_count_defaults_to_the_target() {
    assert_eq!(sender_count(None, 700), 700);
    assert_eq!(sender_count(Some(12), 700), 12);
    assert_eq!(sender_count(Some(0), 700), 0);
}

#[test]
fn worker_sleep_is_one_second_at_one_sender_per_tps() {
    for n in [1usize, 3, 1000, 3001, 9_007_199_254_740_993, usize::MAX] {
        assert_eq!(worker_sleep(n, n), 1000);
    }
}

#[test]
fn worker_sleep_of_whole_multiples() {
    assert_eq!(worker_sleep(5000, 1000), 5000);
    assert_eq!(worker_sleep(21, 7), 3000);
}

#[test]
fn worker_sleep_rounds_as_f64_does() {
    assert_eq!(worker_sleep(1, 3), 333);
    assert_eq!(worker_sleep(2, 3), 666);
    for tps in 1..600usize {
        for n in 0..600usize {
            assert_eq!(worker_sleep(n, tps), reference(n, tps), "{} {}", n, tps);
        }
    }
}

#[test]
fn worker_sleep_differs_from_the_integer_quotient() {
    // 1000 * (n / tps) in `f64` arithmetic can fall just short of a whole number.
    let mut found = 0u32;
    for tps in 1..600usize {
        for n in 0..600usize {
            if worker_sleep(n, tps) != (1000 * n / tps) as u64 {
                found += 1;
            }
        }
    }
    assert!(found > 0);
}

#[test]
fn worker_sleep_of_pseudo_random_counts() {
    let mut state = 0x9e37_79b9_7f4a_7c15u64;
    let mut draw = || {
        state ^= state << 13;
        state ^= state >> 7;
        state ^= state << 17;
        state
    };
    for _ in 0..200_000 {
        let n = (draw() >> (draw() % 64)) as usize;
        let tps = (draw() >> (draw() % 64)) as usize;
        assert_eq!(worker_sleep(n, tps), reference(n, tps), "{} {}", n, tps);
    }
}

#[test]
fn worker_sleep_at_the_edges() {
    assert_eq!(worker_sleep(0, 0), 0);
    assert_eq!(worker_sleep(0, 5), 0);
    assert_eq!(worker_sleep(1, 0), u64::MAX);
    assert_eq!(worker_sleep(usize::MAX, 1), u64::MAX);
    assert_eq!(worker_sleep(1, usize::MAX), 0);
    for n in [1usize, 2, usize::MAX - 1024, usize::MAX] {
        for tps in [0usize, 1, 2, 3, usize::MAX - 1024, usize::MAX] {
            assert_eq!(worker_sleep(n, tps), reference(n, tps));
        }
    }
}

#[test]
fn senders_meet_the_target_within_a_millisecond() {
    for tps in [1u128, 7, 999, 1000, 3001, 1_000_003, 1 << 60] {
        for n in [1u128, 2, 10, 6_000, 123_457, 4_503_599_627_370] {
            let ms = worker_sleep(n as usize, tps as usize) as u128;
            assert!(ms * tps <= 1000 * n);
            assert!(1000 * n <= (ms + 1) * tps);
        }
    }
    // A thousand times this many senders is beyond what the promise covers.
    let ms = worker_sleep(5_193_494_027_498, 1173) as u128;
    assert!(ms * 1173 > 1000 * 5_193_494_027_498);
}
