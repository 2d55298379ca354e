use decompression::decay::{fraction_remaining, STEPS_PER_HALVING, STEP_BITS, UNIT};
use decompression::measures::Minutes;

fn exact_share(elapsed: u64, half_time: u64) -> f64 {
    (-(elapsed as f64) / (half_time as f64)).exp2()
}

fn share(elapsed: u64, half_time: u64) -> f64 {
    fraction_remaining(Minutes(elapsed), Minutes(half_time)) as f64 / UNIT as f64
}

#[test]
fn unit_is_two_to_the_sixty_two() {
    assert_eq!(UNIT, 1u64 << 62);
    assert_eq!(STEPS_PER_HALVING, 1u64 << STEP_BITS);
}

#[test]
fn everything_remains_after_no_time() {
    assert_eq!(fraction_remaining(Minutes(0), Minutes(5_000_000)), UNIT);
    assert_eq!(fraction_remaining(Minutes(0), Minutes(1)), UNIT);
    assert_eq!(fraction_remaining(Minutes(0), Minutes(u64::MAX)), UNIT);
}

#[test]
fn half_remains_after_one_half_time() {
    assert_eq!(fraction_remaining(Minutes(5_000_000), Minutes(5_000_000)), UNIT / 2);
    assert_eq!(fraction_remaining(Minutes(1), Minutes(1)), UNIT / 2);
    assert_eq!(fraction_remaining(Minutes(u64::MAX), Minutes(u64::MAX)), UNIT / 2);
}

#[test]
fn whole_half_times_halve_again_and_again() {
    assert_eq!(fraction_remaining(Minutes(10_000_000), Minutes(5_000_000)), UNIT / 4);
    assert_eq!(fraction_remaining(Minutes(15_000_000), Minutes(5_000_000)), UNIT / 8);
    assert_eq!(fraction_remaining(Minutes(62), Minutes(1)), 1);
    assert_eq!(fraction_remaining(Minutes(310_000_000), Minutes(5_000_000)), 1);
}

#[test]
fn nothing_remains_after_sixty_three_half_times() {
    assert_eq!(fraction_remaining(Minutes(63), Minutes(1)), 0);
    assert_eq!(fraction_remaining(Minutes(315_000_000), Minutes(5_000_000)), 0);
    assert_eq!(fraction_remaining(Minutes(u64::MAX), Minutes(1)), 0);
}

#[test]
fn half_a_half_time_leaves_the_root_of_one_half() {
    let left = fraction_remaining(Minutes(2_500_000), Minutes(5_000_000));
    assert_eq!(left, 3_260_954_456_333_195_553);
    assert!((left as f64 / UNIT as f64 - 0.5f64.sqrt()).abs() < 1e-15);
}

#[test]
fn a_quarter_of_a_half_time_leaves_the_fourth_root_of_one_half() {
    let left = fraction_remaining(Minutes(1_250_000), Minutes(5_000_000));
    assert_eq!(left, 3_877_950_241_171_266_237);
    assert!((left as f64 / UNIT as f64 - 0.5f64.sqrt().sqrt()).abs() < 1e-15);
}

#[test]
fn shares_of_uneven_times() {
    assert_eq!(fraction_remaining(Minutes(3), Minutes(7)), 3_426_469_543_732_893_626);
    assert_eq!(fraction_remaining(Minutes(9), Minutes(2)), 203_809_653_520_824_722);
    assert_eq!(
        fraction_remaining(Minutes(30_000_000), Minutes(120_000_000)),
        3_877_950_241_171_266_237
    );
    assert_eq!(
        fraction_remaining(Minutes(7_000_000), Minutes(5_000_000)),
        1_747_502_224_531_501_084
    );
}

#[test]
fn a_very_short_time_leaves_everything() {
    assert_eq!(fraction_remaining(Minutes(1), Minutes(u64::MAX)), UNIT);
}

#[test]
fn share_follows_the_exponential() {
    let half_times: [u64; 6] = [5_000_000, 10_000_000, 20_000_000, 40_000_000, 80_000_000, 120_000_000];
    for half_time in half_times {
        let mut elapsed: u64 = 0;
        while elapsed <= 600_000_000 {
            let difference = share(elapsed, half_time) - exact_share(elapsed, half_time);
            assert!(difference.abs() < 1e-9, "{} {} {}", elapsed, half_time, difference);
            elapsed += 1_234_567;
        }
    }
}

#[test]
fn share_follows_the_exponential_for_odd_ratios() {
    let cases: [(u64, u64); 5] =
        [(1, 3), (123_456_789, 987_654_321), (2, 3), (999_999, 1_000_000), (1_000_001, 1_000_000)];
    for (elapsed, half_time) in cases {
        let difference = share(elapsed, half_time) - exact_share(elapsed, half_time);
        assert!(difference.abs() < 1e-9, "{} {} {}", elapsed, half_time, difference);
    }
}

#[test]
fn share_never_grows_with_time() {
    let mut before = UNIT;
    let mut elapsed: u64 = 0;
    while elapsed < 50_000_000 {
        let now = fraction_remaining(Minutes(elapsed), Minutes(7_000_000));
        assert!(now <= before);
        before = now;
        elapsed += 99_991;
    }
}

#[test]
fn one_more_half_time_halves_the_share() {
    let cases: [(u64, u64); 4] = [(0, 9), (4, 9), (1_234_567, 5_000_000), (77_000_000, 40_000_000)];
    for (elapsed, half_time) in cases {
        let before = fraction_remaining(Minutes(elapsed), Minutes(half_time));
        let after = fraction_remaining(Minutes(elapsed + half_time), Minutes(half_time));
        assert_eq!(after, before / 2);
    }
}
