use vulture::time::ParseSecondOfDayError;
use vulture::{Duration, SecondOfDay, Transfers, TryFromSignedDurationError};

#[test]
fn second_of_day_display_is_hms() {
    assert_eq!(SecondOfDay::hms(9, 30, 0).to_string(), "09:30:00");
    assert_eq!(SecondOfDay::hms(0, 0, 0).to_string(), "00:00:00");
    assert_eq!(SecondOfDay::hms(25, 30, 5).to_string(), "25:30:05");
}

#[test]
fn second_of_day_from_str_round_trips() {
    for s in ["00:00:00", "09:30:00", "23:59:59", "25:30:05"] {
        let parsed: SecondOfDay = s.parse().expect("parses");
        assert_eq!(parsed.to_string(), s, "round-trip {s}");
    }
}

#[test]
fn second_of_day_from_str_accepts_hh_mm() {
    let s: SecondOfDay = "09:30".parse().expect("parses");
    assert_eq!(s, SecondOfDay::hms(9, 30, 0));
}

#[test]
fn second_of_day_from_str_rejects_garbage() {
    assert!(matches!(
        "9:30:".parse::<SecondOfDay>(),
        Err(ParseSecondOfDayError::BadField(_))
    ));
    assert!(matches!(
        "abc".parse::<SecondOfDay>(),
        Err(ParseSecondOfDayError::BadFormat(_))
    ));
    assert!(matches!(
        "09:30:00:00".parse::<SecondOfDay>(),
        Err(ParseSecondOfDayError::BadFormat(_))
    ));
    assert!(matches!(
        "09:60:00".parse::<SecondOfDay>(),
        Err(ParseSecondOfDayError::OutOfRange(60))
    ));
    assert!(matches!(
        "09:30:99".parse::<SecondOfDay>(),
        Err(ParseSecondOfDayError::OutOfRange(99))
    ));
}

#[test]
fn second_of_day_hour_overflow_is_a_bad_field() {
    assert!(matches!(
        "99999999:00:00".parse::<SecondOfDay>(),
        Err(ParseSecondOfDayError::BadField(_))
    ));
}

#[test]
fn second_of_day_accessors() {
    let s = SecondOfDay::hms(1, 2, 3);
    assert_eq!(s.as_secs(), 3723);
    assert_eq!(s.as_hms(), (1, 2, 3));
    assert_eq!(SecondOfDay::from_secs(3723), s);
}

#[test]
fn second_of_day_arithmetic_saturates() {
    assert_eq!(SecondOfDay(u32::MAX).plus(Duration(5)), SecondOfDay(u32::MAX));
    assert_eq!(SecondOfDay(10).minus(Duration(20)), SecondOfDay(0));
    assert_eq!(SecondOfDay(10).since(SecondOfDay(4)), Duration(6));
    assert_eq!(SecondOfDay(4).since(SecondOfDay(10)), Duration(0));
    assert_eq!(Duration(u32::MAX).plus(Duration(1)), Duration(u32::MAX));
}

#[test]
fn second_of_day_every_steps() {
    let v = SecondOfDay::every(SecondOfDay(0), SecondOfDay(10), 4);
    assert_eq!(v, vec![SecondOfDay(0), SecondOfDay(4), SecondOfDay(8)]);
}

#[test]
fn duration_from_whole_secs() {
    assert_eq!(Duration::from_whole_secs(60), Ok(Duration(60)));
    assert_eq!(
        Duration::from_whole_secs(-1),
        Err(TryFromSignedDurationError::Negative)
    );
    assert_eq!(
        Duration::from_whole_secs(i64::from(u32::MAX) + 1),
        Err(TryFromSignedDurationError::Overflow)
    );
}

#[test]
fn transfers_round_trip() {
    assert_eq!(Transfers::new(3).get(), 3);
    assert_eq!(Transfers::new(3).to_string(), "3");
    assert_eq!(Duration::from_secs(42).to_string(), "42");
}

#[test]
fn second_of_day_jiff_time_round_trip() {
    let t = jiff::civil::Time::new(9, 30, 5, 0).unwrap();
    let s = SecondOfDay::from_civil_time(t);
    assert_eq!(s, SecondOfDay::hms(9, 30, 5));
    let back = s.to_civil_time().unwrap();
    assert_eq!(back, t);
}

#[test]
fn jiff_time_subseconds_truncated() {
    let t = jiff::civil::Time::new(9, 30, 5, 999_999_999).unwrap();
    let s = SecondOfDay::from_civil_time(t);
    assert_eq!(s, SecondOfDay::hms(9, 30, 5));
}

#[test]
fn second_of_day_after_midnight_is_unrepresentable_as_jiff_time() {
    let s = SecondOfDay::hms(25, 30, 0);
    assert!(s.to_civil_time().is_err());
}

#[test]
fn duration_to_signed_duration_total() {
    let d = Duration::from_secs(60);
    let sd = d.to_signed();
    assert_eq!(sd.as_secs(), 60);
}

#[test]
fn signed_duration_to_duration_truncates_subseconds() {
    let sd = jiff::SignedDuration::new(60, 999_999_999);
    let d = Duration::from_signed(sd).unwrap();
    assert_eq!(d, Duration::from_secs(60));
}

#[test]
fn signed_duration_negative_rejected() {
    let sd = jiff::SignedDuration::from_secs(-1);
    assert_eq!(
        Duration::from_signed(sd),
        Err(TryFromSignedDurationError::Negative)
    );
}

#[test]
fn signed_duration_overflow_rejected() {
    let sd = jiff::SignedDuration::from_secs(i64::from(u32::MAX) + 1);
    assert_eq!(
        Duration::from_signed(sd),
        Err(TryFromSignedDurationError::Overflow)
    );
}

#[test]
fn jiff_time_last_second_of_day_round_trips() {
    let s = SecondOfDay(86_399);
    let t = s.to_civil_time().unwrap();
    assert_eq!(SecondOfDay::from_civil_time(t), s);
    assert!(SecondOfDay(86_400).to_civil_time().is_err());
}

#[test]
fn signed_duration_negative_subsecond_rejected() {
    let sd = jiff::SignedDuration::new(0, -500_000_000);
    assert_eq!(
        Duration::from_signed(sd),
        Err(TryFromSignedDurationError::Negative)
    );
}

#[test]
fn duration_to_signed_has_no_subseconds() {
    let sd = Duration::from_secs(7).to_signed();
    assert_eq!(sd.as_secs(), 7);
    assert_eq!(sd.subsec_nanos(), 0);
}

#[test]
fn jiff_time_components_give_second_of_day() {
    let t = jiff::civil::Time::new(13, 7, 42, 0).unwrap();
    assert_eq!(SecondOfDay::from_civil_time(t), SecondOfDay(13 * 3600 + 7 * 60 + 42));
    let back = SecondOfDay(13 * 3600 + 7 * 60 + 42).to_civil_time().unwrap();
    assert_eq!((back.hour(), back.minute(), back.second()), (13, 7, 42));
}

#[test]
fn time_operators_saturate() {
    assert_eq!(SecondOfDay(10) + Duration(5), SecondOfDay(15));
    assert_eq!(SecondOfDay(u32::MAX - 1) + Duration(5), SecondOfDay(u32::MAX));
    assert_eq!(SecondOfDay(30) - SecondOfDay(10), Duration(20));
    assert_eq!(SecondOfDay(10) - SecondOfDay(30), Duration(0));
    assert_eq!(SecondOfDay(30) - Duration(10), SecondOfDay(20));
    assert_eq!(SecondOfDay(10) - Duration(30), SecondOfDay(0));
    assert_eq!(Duration(7) + Duration(8), Duration(15));
    assert_eq!(Duration(u32::MAX) + Duration(1), Duration(u32::MAX));
}

#[test]
fn integer_conversions_wrap_and_unwrap() {
    assert_eq!(SecondOfDay::from(42u32), SecondOfDay(42));
    assert_eq!(Duration::from(42u32), Duration(42));
    assert_eq!(Transfers::from(3u8), Transfers(3));
    assert_eq!(vulture::StopIdx::from(7u32), vulture::StopIdx(7));
    assert_eq!(u32::from(vulture::StopIdx(7)), 7);
    assert_eq!(u32::from(vulture::RouteIdx(8)), 8);
    assert_eq!(vulture::TripIdx::from(9u32), vulture::TripIdx(9));
}

#[test]
fn jiff_conversions_through_std_traits() {
    let t = jiff::civil::Time::new(1, 2, 3, 0).unwrap();
    assert_eq!(SecondOfDay::from(t), SecondOfDay(3723));
    assert_eq!(Duration::try_from(jiff::SignedDuration::from_secs(90)), Ok(Duration(90)));
    assert_eq!(
        Duration::try_from(jiff::SignedDuration::from_secs(-1)),
        Err(TryFromSignedDurationError::Negative)
    );
}
