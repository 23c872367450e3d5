use cshim::clock::mach_absolute_time;
use cshim::clock::mach_timebase_info;
use cshim::clock::ticks_of_millis;
use cshim::clock::Clock;
use cshim::clock::TimebaseInfo;

#[test]
fn unit_descriptor_is_one_over_one() {
    let mut info = TimebaseInfo { numer: 77, denom: 99 };
    let ret = mach_timebase_info(&mut info);
    assert_eq!(ret, 0);
    assert_eq!(info.numer, 1);
    assert_eq!(info.denom, 1);
}

#[test]
fn consecutive_reads_are_nondecreasing() {
    let clock = Clock::new();
    let r1 = clock.now();
    let r2 = clock.now();
    let r3 = mach_absolute_time(&clock);
    assert!(r1 >= 0);
    assert!(r1 <= r2);
    assert!(r2 <= r3);
}

#[test]
fn millisecond_ticks_clamp_to_signed_range() {
    assert_eq!(ticks_of_millis(0), 0);
    assert_eq!(ticks_of_millis(123456), 123456);
    assert_eq!(ticks_of_millis(i64::MAX as u128), i64::MAX);
    assert_eq!(ticks_of_millis(u128::MAX), i64::MAX);
}
