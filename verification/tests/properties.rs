use wall_clock::text::ParseError;
use wall_clock::WallClockTime;

#[test]
fn accessors_recover_components() {
    let t = WallClockTime::new_with_micros(23, 59, 59, 999_999);
    assert_eq!(t.hour(), 23);
    assert_eq!(t.minute(), 59);
    assert_eq!(t.second(), 59);
    assert_eq!(t.microsecond(), 999_999);

    let m = WallClockTime::new_with_micros(0, 0, 0, 0);
    assert_eq!(m.hour(), 0);
    assert_eq!(m.minute(), 0);
    assert_eq!(m.second(), 0);
    assert_eq!(m.microsecond(), 0);

    let o = WallClockTime::new_midnight_offset(86_399, 1);
    assert_eq!(o.hour(), 23);
    assert_eq!(o.minute(), 59);
    assert_eq!(o.second(), 59);
    assert_eq!(o.microsecond(), 1);
}

#[test]
fn format_parse_round_trip() {
    let samples = [
        WallClockTime::new(0, 0, 0),
        WallClockTime::new(9, 30, 0),
        WallClockTime::new_with_micros(18, 30, 1, 345_678),
        WallClockTime::new_with_micros(23, 59, 59, 999_999),
        WallClockTime::new_with_micros(12, 0, 0, 1),
    ];
    for t in samples {
        assert_eq!(WallClockTime::parse(&t.format()), Ok(t));
    }
}

#[test]
fn canonical_form_omits_zero_fraction() {
    assert_eq!(WallClockTime::new(16, 0, 0).format(), "16:00:00");
    assert_eq!(
        WallClockTime::new_with_micros(17, 15, 30, 600_000).format(),
        "17:15:30.600000"
    );
    assert_eq!(WallClockTime::new(0, 0, 0).format(), "00:00:00");
    assert_eq!(
        WallClockTime::new_with_micros(0, 0, 0, 1).format(),
        "00:00:00.000001"
    );
}

#[test]
fn parse_accepts_both_forms() {
    assert_eq!(
        WallClockTime::parse("09:30:00"),
        Ok(WallClockTime::new(9, 30, 0))
    );
    assert_eq!(
        WallClockTime::parse("18:30:01.345678"),
        Ok(WallClockTime::new_with_micros(18, 30, 1, 345_678))
    );
}

#[test]
fn parse_is_permissive_about_digit_counts() {
    assert_eq!(
        WallClockTime::parse("009:30:00"),
        Ok(WallClockTime::new(9, 30, 0))
    );
    assert_eq!(
        WallClockTime::parse("9:5:7"),
        Ok(WallClockTime::new(9, 5, 7))
    );
    // a short fraction names that literal microsecond count, not tenths
    assert_eq!(
        WallClockTime::parse("18:30:01.1"),
        Ok(WallClockTime::new_with_micros(18, 30, 1, 1))
    );
}

#[test]
fn parse_rejects_malformed_input() {
    assert_eq!(
        WallClockTime::parse("1.2.3"),
        Err(ParseError::TooManySeparators)
    );
    assert_eq!(WallClockTime::parse("9:30"), Err(ParseError::InvalidHms));
    assert_eq!(
        WallClockTime::parse("ab:30:00"),
        Err(ParseError::InvalidHours)
    );
    assert_eq!(WallClockTime::parse(""), Err(ParseError::InvalidHms));
    assert_eq!(
        WallClockTime::parse("9:30:00:00"),
        Err(ParseError::InvalidHms)
    );
    assert_eq!(
        WallClockTime::parse("09:aa:00"),
        Err(ParseError::InvalidMinutes)
    );
    assert_eq!(
        WallClockTime::parse("09:30:"),
        Err(ParseError::InvalidSeconds)
    );
    assert_eq!(
        WallClockTime::parse("09:30:00.abc"),
        Err(ParseError::InvalidMicroseconds)
    );
    assert_eq!(
        WallClockTime::parse("09:30:00."),
        Err(ParseError::InvalidMicroseconds)
    );
    // the fraction is examined before the clock segment
    assert_eq!(
        WallClockTime::parse("ab:30:00.xyz"),
        Err(ParseError::InvalidMicroseconds)
    );
    assert_eq!(
        WallClockTime::parse("9-30-00.12"),
        Err(ParseError::InvalidHms)
    );
}

#[test]
fn parse_rejects_out_of_range_fields() {
    assert_eq!(
        WallClockTime::parse("24:00:00"),
        Err(ParseError::InvalidHours)
    );
    assert_eq!(
        WallClockTime::parse("09:60:00"),
        Err(ParseError::InvalidMinutes)
    );
    assert_eq!(
        WallClockTime::parse("09:30:60"),
        Err(ParseError::InvalidSeconds)
    );
    assert_eq!(
        WallClockTime::parse("09:30:00.1000000"),
        Err(ParseError::InvalidMicroseconds)
    );
    assert_eq!(
        WallClockTime::parse("99999999999999999999:00:00"),
        Err(ParseError::InvalidHours)
    );
}

#[test]
fn parse_errors_carry_messages() {
    assert_eq!(
        ParseError::TooManySeparators.message(),
        "Only one `.` allowed in wall-clock times"
    );
    assert_eq!(ParseError::InvalidMicroseconds.message(), "Invalid microseconds");
    assert_eq!(ParseError::InvalidHms.message(), "Invalid HH:MM:SS specified");
    assert_eq!(ParseError::InvalidHours.message(), "Invalid HH");
    assert_eq!(ParseError::InvalidMinutes.message(), "Invalid MM");
    assert_eq!(ParseError::InvalidSeconds.message(), "Invalid SS");
}

#[test]
fn ordering_is_chronological() {
    assert!(WallClockTime::new(9, 0, 0) < WallClockTime::new(9, 0, 1));
    assert!(WallClockTime::new(9, 0, 1) < WallClockTime::new(10, 0, 0));
    assert!(
        WallClockTime::new_with_micros(9, 0, 0, 1) > WallClockTime::new(9, 0, 0)
    );
    assert!(WallClockTime::new(9, 0, 0) == WallClockTime::new(9, 0, 0));
    assert!(
        WallClockTime::new(23, 59, 59) < WallClockTime::new_with_micros(23, 59, 59, 999_999)
    );
}

#[test]
fn midnight_offset_codec_round_trips() {
    let samples = [
        WallClockTime::new(0, 0, 0),
        WallClockTime::new(12, 0, 0),
        WallClockTime::new_with_micros(23, 59, 59, 999_999),
    ];
    for t in samples {
        let offset = t.to_midnight_micros();
        assert_eq!(WallClockTime::from_midnight_micros(offset), t);
    }
    assert_eq!(WallClockTime::new(12, 0, 0).to_midnight_micros(), 43_200_000_000);
    assert_eq!(
        WallClockTime::new_with_micros(23, 59, 59, 999_999).to_midnight_micros(),
        86_399_999_999
    );
    assert_eq!(WallClockTime::new(0, 0, 0).to_midnight_micros(), 0);
}

#[test]
fn default_is_midnight() {
    assert_eq!(WallClockTime::default(), WallClockTime::new(0, 0, 0));
}

#[test]
fn wire_form_matches_canonical_text() {
    // the structured-serialization adapter writes exactly the canonical text
    assert_eq!(WallClockTime::new(9, 30, 0).format(), "09:30:00");
    assert_eq!(
        WallClockTime::new_with_micros(15, 30, 45, 123_456).format(),
        "15:30:45.123456"
    );
    assert_eq!(
        WallClockTime::parse("15:30:45.123456"),
        Ok(WallClockTime::new_with_micros(15, 30, 45, 123_456))
    );
}
