use chrono::DateTime;
use chrono::NaiveDate;
use chrono::TimeDelta;
use loago::now;
use loago::Timestamp;

fn at(seconds: i64, nanos: u32) -> Timestamp {
    Timestamp::new(seconds, nanos).unwrap()
}

fn chrono_span(now: (i64, u32), then: (i64, u32)) -> TimeDelta {
    let later = DateTime::from_timestamp(now.0, now.1).unwrap().naive_utc();
    let earlier = DateTime::from_timestamp(then.0, then.1).unwrap().naive_utc();
    later.signed_duration_since(earlier)
}

fn stated_nanos(now: (i64, u32), then: (i64, u32)) -> i128 {
    let now_second = now.0.rem_euclid(86_400);
    let then_second = then.0.rem_euclid(86_400);
    let leap: i128 = if now_second > then_second && then.1 >= 1_000_000_000 {
        1
    } else if now_second < then_second && now.1 >= 1_000_000_000 {
        -1
    } else {
        0
    };
    (now.0 as i128 - then.0 as i128 + leap) * 1_000_000_000 + (now.1 as i128 - then.1 as i128)
}

fn sample_moments() -> Vec<(i64, u32)> {
    vec![
        (0, 0),
        (0, 999_999_999),
        (59, 1_000_000_000),
        (59, 1_999_999_999),
        (60, 0),
        (86_399, 1_500_000_000),
        (86_400, 0),
        (86_399, 0),
        (-1, 0),
        (-1, 1_000_000_000),
        (-1, 999_999_999),
        (-86_400, 0),
        (-86_401, 1_250_000_000),
        (1_703_030_400, 0),
        (1_679_270_400, 123_456_789),
        (1_435_708_799, 1_500_000_000),
        (1_435_708_800, 0),
        (1_435_712_400, 0),
        (-8_334_601_228_800, 0),
        (8_210_266_876_799, 1_999_999_999),
        (8_210_266_876_799, 0),
    ]
}

#[test]
fn calendar_limits() {
    assert!(Timestamp::new(-8_334_601_228_800, 0).is_some());
    assert!(Timestamp::new(-8_334_601_228_801, 0).is_none());
    assert!(Timestamp::new(8_210_266_876_799, 1_999_999_999).is_some());
    assert!(Timestamp::new(8_210_266_876_800, 0).is_none());
    assert!(Timestamp::new(i64::MIN, 0).is_none());
    assert!(Timestamp::new(i64::MAX, 0).is_none());
    assert!(Timestamp::new(0, 1_000_000_000).is_none());
    assert!(Timestamp::new(59, 1_000_000_000).is_some());
    assert!(Timestamp::new(-1, 1_000_000_000).is_some());
    assert!(Timestamp::new(-2, 1_000_000_000).is_none());
    assert!(Timestamp::new(59, 2_000_000_000).is_none());
    assert!(Timestamp::new(59, u32::MAX).is_none());
}

#[test]
fn calendar_limits_are_those_of_chrono() {
    let seconds = [
        -8_334_601_228_801,
        -8_334_601_228_800,
        -8_334_601_228_799,
        -61,
        -60,
        -2,
        -1,
        0,
        58,
        59,
        60,
        119,
        8_210_266_876_798,
        8_210_266_876_799,
        8_210_266_876_800,
    ];
    let nanos = [0, 1, 999_999_999, 1_000_000_000, 1_999_999_999, 2_000_000_000];
    for second in seconds {
        for nano in nanos {
            assert_eq!(
                Timestamp::new(second, nano).is_some(),
                DateTime::from_timestamp(second, nano).is_some(),
                "{second} {nano}"
            );
        }
    }
    let first = NaiveDate::MIN.and_hms_opt(0, 0, 0).unwrap().and_utc();
    assert_eq!(first.timestamp(), -8_334_601_228_800);
    let last = NaiveDate::MAX.and_hms_opt(23, 59, 59).unwrap().and_utc();
    assert_eq!(last.timestamp(), 8_210_266_876_799);
}

#[test]
fn timestamp_gives_its_parts_back() {
    let moment = at(1_679_270_400, 123_456_789);
    assert_eq!(moment.seconds(), 1_679_270_400);
    assert_eq!(moment.subsec_nanos(), 123_456_789);
    let leap = at(59, 1_500_000_000);
    assert_eq!(leap.seconds(), 59);
    assert_eq!(leap.subsec_nanos(), 1_500_000_000);
}

#[test]
fn elapsed_between_two_days() {
    let span = at(1_703_030_400, 0).elapsed_since(&at(1_679_270_400, 0));
    assert_eq!(span.num_days(), 275);
    assert_eq!(span.num_hours(), 275 * 24);
    assert_eq!(span.num_minutes(), 275 * 24 * 60);
    assert_eq!(span.num_seconds(), 275 * 86_400);
    assert_eq!(span.subsec_nanos(), 0);
}

#[test]
fn elapsed_is_negative_for_a_later_moment() {
    let span = at(0, 0).elapsed_since(&at(86_400 + 3_600 + 60 + 1, 500_000_000));
    assert_eq!(span.num_days(), -1);
    assert_eq!(span.num_hours(), -25);
    assert_eq!(span.num_minutes(), -1_501);
    assert_eq!(span.num_seconds(), -90_061);
    assert_eq!(span.subsec_nanos(), -500_000_000);
}

#[test]
fn elapsed_rounds_toward_zero() {
    let almost = at(86_399, 999_999_999).elapsed_since(&at(0, 0));
    assert_eq!(almost.num_days(), 0);
    assert_eq!(almost.num_hours(), 23);
    let back = at(0, 0).elapsed_since(&at(86_399, 999_999_999));
    assert_eq!(back.num_days(), 0);
    assert_eq!(back.num_hours(), -23);
    assert_eq!(back.num_seconds(), -86_399);
    assert_eq!(back.subsec_nanos(), -999_999_999);
    let below = at(0, 0).elapsed_since(&at(0, 1));
    assert_eq!(below.num_seconds(), 0);
    assert_eq!(below.subsec_nanos(), -1);
}

#[test]
fn elapsed_counts_a_leap_second_once() {
    let leap = (1_435_708_799, 1_500_000_000);
    let before = (1_435_708_799 - 3_599, 0);
    let after = (1_435_708_800 + 3_600, 0);
    let since = at(leap.0, leap.1).elapsed_since(&at(before.0, before.1));
    assert_eq!((since.num_seconds(), since.subsec_nanos()), (3_600, 500_000_000));
    let until = at(after.0, after.1).elapsed_since(&at(leap.0, leap.1));
    assert_eq!((until.num_seconds(), until.subsec_nanos()), (3_599, 500_000_000));
    let minute = at(120, 0).elapsed_since(&at(59, 1_500_000_000));
    assert_eq!((minute.num_seconds(), minute.subsec_nanos()), (60, 500_000_000));
    let next_day = at(86_400, 0).elapsed_since(&at(86_399, 1_500_000_000));
    assert_eq!((next_day.num_seconds(), next_day.subsec_nanos()), (0, -500_000_000));
}

#[test]
fn elapsed_is_what_chrono_subtracts() {
    let moments = sample_moments();
    for now in &moments {
        for then in &moments {
            let ours = at(now.0, now.1).elapsed_since(&at(then.0, then.1));
            let theirs = chrono_span(*now, *then);
            assert_eq!(ours.num_seconds(), theirs.num_seconds(), "{now:?} {then:?}");
            assert_eq!(ours.subsec_nanos(), theirs.subsec_nanos(), "{now:?} {then:?}");
            assert_eq!(ours.num_minutes(), theirs.num_minutes(), "{now:?} {then:?}");
            assert_eq!(ours.num_hours(), theirs.num_hours(), "{now:?} {then:?}");
            assert_eq!(ours.num_days(), theirs.num_days(), "{now:?} {then:?}");
        }
    }
}

#[test]
fn elapsed_is_what_the_formula_states() {
    let moments = sample_moments();
    for now in &moments {
        for then in &moments {
            let ours = at(now.0, now.1).elapsed_since(&at(then.0, then.1));
            let total = ours.num_seconds() as i128 * 1_000_000_000 + ours.subsec_nanos() as i128;
            assert_eq!(total, stated_nanos(*now, *then), "{now:?} {then:?}");
            let seconds = ours.num_seconds();
            let nanos = ours.subsec_nanos();
            assert!(-1_000_000_000 < nanos && nanos < 1_000_000_000);
            assert!(seconds <= 0 || nanos >= 0);
            assert!(seconds >= 0 || nanos <= 0);
        }
    }
}

#[test]
fn shorter_than_goes_by_length() {
    let moments = sample_moments();
    let base = at(0, 0);
    for one in &moments {
        for other in &moments {
            let left = at(one.0, one.1).elapsed_since(&base);
            let right = at(other.0, other.1).elapsed_since(&base);
            let by_length = stated_nanos(*one, (0, 0)) < stated_nanos(*other, (0, 0));
            assert_eq!(left.shorter_than(&right), by_length, "{one:?} {other:?}");
        }
    }
}

#[test]
fn now_is_a_moment_of_these_days() {
    let before = now();
    let after = now();
    assert!(before.seconds() > 1_700_000_000);
    assert!(before.subsec_nanos() < 1_000_000_000);
    assert!(!after.elapsed_since(&before).shorter_than(&before.elapsed_since(&before)));
    assert_eq!(after.elapsed_since(&before).num_days(), 0);
    assert_eq!(Timestamp::new(before.seconds(), before.subsec_nanos()), Some(before));
}
