use cantina_feed::time::{
    format_remaining, now, parse_date, parse_date_or, time_left, Instant, NANOS_PER_DAY,
    NANOS_PER_HOUR, NANOS_PER_MINUTE,
};

#[test]
fn ended_when_end_equals_now() {
    let t = Instant { secs: 1_717_200_000, nanos: 0 };
    assert_eq!(time_left(t, t), "Ended");
}

#[test]
fn ended_when_end_is_past() {
    let end = Instant { secs: 1_717_199_999, nanos: 999_999_999 };
    let at = Instant { secs: 1_717_200_000, nanos: 0 };
    assert_eq!(time_left(end, at), "Ended");
}

#[test]
fn zero_span_reads_ended() {
    assert_eq!(format_remaining(0), "Ended");
}

#[test]
fn leap_second_orders_before_next_second() {
    let leap = Instant { secs: 1_483_228_799, nanos: 1_500_000_000 };
    let next = Instant { secs: 1_483_228_800, nanos: 200_000_000 };
    assert!(leap.nanos_since_epoch() < next.nanos_since_epoch());
    assert_eq!(leap.nanos_since_epoch(), 1_483_228_799_999_999_999);
    assert_eq!(
        parse_date_or("2016-12-31T23:59:60.5Z", next),
        Instant { secs: 1_483_228_799, nanos: 1_500_000_000 }
    );
}

#[test]
fn ninety_minutes_left() {
    assert_eq!(format_remaining(90 * NANOS_PER_MINUTE), "1h 30m left");
}

#[test]
fn days_hours_minutes_left() {
    let d = 2 * NANOS_PER_DAY + 3 * NANOS_PER_HOUR + 5 * NANOS_PER_MINUTE;
    assert_eq!(format_remaining(d), "2 days 3h 5m left");
}

#[test]
fn minutes_only_and_truncation() {
    assert_eq!(format_remaining(1), "0m left");
    assert_eq!(format_remaining(59 * 1_000_000_000), "0m left");
    assert_eq!(format_remaining(7 * NANOS_PER_MINUTE + 59 * 1_000_000_000), "7m left");
}

#[test]
fn whole_day_shows_zero_units() {
    assert_eq!(format_remaining(NANOS_PER_DAY), "1 days 0h 0m left");
}

#[test]
fn time_left_through_instants() {
    let at = Instant { secs: 1_717_200_000, nanos: 0 };
    let end = Instant { secs: 1_717_200_000 + 3_600 + 60, nanos: 500 };
    assert_eq!(time_left(end, at), "1h 1m left");
}

#[test]
fn parses_rfc3339_in_utc() {
    let fallback = Instant { secs: 0, nanos: 0 };
    assert_eq!(
        parse_date_or("2024-06-01T00:00:00Z", fallback),
        Instant { secs: 1_717_200_000, nanos: 0 }
    );
    assert_eq!(
        parse_date_or("2024-06-01T02:00:00.25+02:00", fallback),
        Instant { secs: 1_717_200_000, nanos: 250_000_000 }
    );
}

#[test]
fn malformed_date_falls_back() {
    let fallback = Instant { secs: 42, nanos: 7 };
    assert_eq!(parse_date_or("not a date", fallback), fallback);
    assert_eq!(parse_date_or("", fallback), fallback);
}

#[test]
fn malformed_date_without_fallback_reads_clock() {
    let before = now();
    let got = parse_date("garbage");
    assert!(got.secs >= before.secs);
    assert_eq!(parse_date("1970-01-01T00:00:10Z"), Instant { secs: 10, nanos: 0 });
}

#[test]
fn nanos_since_epoch_combines_parts() {
    let t = Instant { secs: -2, nanos: 5 };
    assert_eq!(t.nanos_since_epoch(), -1_999_999_995);
}
