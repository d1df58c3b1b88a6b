use evm_bench::time::{mean, Duration, MAX_NANOS};

#[test]
fn average_of_three_durations() {
    let durations =
        vec![Duration::from_millis(10), Duration::from_millis(20), Duration::from_millis(30)];
    assert_eq!(mean(&durations), Duration::from_millis(20));
}

#[test]
fn average_of_no_durations_is_zero() {
    assert_eq!(mean(&vec![]), Duration::zero());
    assert_eq!(mean(&vec![]).as_nanos(), 0);
}

#[test]
fn average_is_cut_off_to_whole_nanoseconds() {
    let durations = vec![Duration::from_micros(1), Duration::from_micros(2)];
    assert_eq!(mean(&durations).as_nanos(), 1_500);
    let durations = vec![Duration::from_nanos(1), Duration::from_nanos(1), Duration::from_nanos(3)];
    assert_eq!(mean(&durations).as_nanos(), 1);
    let durations = vec![Duration::from_nanos(2), Duration::from_nanos(2), Duration::from_nanos(4)];
    assert_eq!(mean(&durations).as_nanos(), 2);
}

#[test]
fn average_of_the_longest_durations_does_not_overflow() {
    let longest = Duration::try_from_nanos(MAX_NANOS).unwrap();
    let durations = vec![longest; 1000];
    assert_eq!(mean(&durations), longest);
}

#[test]
fn units_of_a_duration() {
    assert_eq!(Duration::from_nanos(7).as_nanos(), 7);
    assert_eq!(Duration::from_micros(7).as_nanos(), 7_000);
    assert_eq!(Duration::from_millis(7).as_nanos(), 7_000_000);
    assert_eq!(Duration::from_secs(7).as_nanos(), 7_000_000_000);
    assert_eq!(Duration::from_micros(u64::MAX).as_nanos(), u64::MAX as u128 * 1000);
    let d = Duration::new(3, 250_000_000).unwrap();
    assert_eq!(d.as_nanos(), 3_250_000_000);
    assert_eq!(d.as_millis(), 3_250);
    assert_eq!(d.as_secs(), 3);
    assert_eq!(d.subsec_nanos(), 250_000_000);
}

#[test]
fn durations_have_a_longest_one() {
    assert_eq!(Duration::new(u64::MAX, 999_999_999).unwrap().as_nanos(), MAX_NANOS);
    assert_eq!(Duration::new(u64::MAX, 1_000_000_000), None);
    assert_eq!(Duration::new(0, u32::MAX).unwrap().as_nanos(), u32::MAX as u128);
    assert_eq!(Duration::try_from_nanos(MAX_NANOS + 1), None);
    let longest = Duration::try_from_nanos(MAX_NANOS).unwrap();
    assert_eq!(longest.as_secs(), u64::MAX);
    assert_eq!(longest.checked_add(&Duration::from_nanos(1)), None);
    assert_eq!(longest.checked_add(&Duration::zero()), Some(longest));
    assert_eq!(
        Duration::from_secs(1).checked_add(&Duration::from_millis(500)),
        Duration::new(1, 500_000_000)
    );
    assert!(Duration::from_millis(999).shorter_than(&Duration::from_secs(1)));
    assert!(!Duration::from_secs(1).shorter_than(&Duration::from_secs(1)));
}
