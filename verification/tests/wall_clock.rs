use wall_clock::text::ParseError;
use wall_clock::WallClockTime;

#[test]
fn test_hours() {
    assert!(WallClockTime::new(9, 30, 0).hour() == 9);
    assert!(WallClockTime::new(16, 0, 0).hour() == 16);
    assert!(WallClockTime::new(17, 15, 30).hour() == 17);
}

#[test]
fn test_minutes() {
    assert!(WallClockTime::new(9, 30, 0).minute() == 30);
    assert!(WallClockTime::new(16, 0, 0).minute() == 0);
    assert!(WallClockTime::new(17, 15, 30).minute() == 15);
}

#[test]
fn test_seconds() {
    assert!(WallClockTime::new(16, 0, 0).second() == 0);
    assert!(WallClockTime::new(17, 15, 30).second() == 30);
}

#[test]
fn test_micros() {
    assert!(WallClockTime::new_with_micros(9, 30, 0, 0).microsecond() == 0);
    assert!(WallClockTime::new_with_micros(17, 15, 30, 600_000).microsecond() == 600_000);
}

#[test]
fn test_display() {
    assert!(WallClockTime::new(16, 0, 0).format() == "16:00:00");
    assert!(WallClockTime::new(17, 15, 30).format() == "17:15:30");
    assert!(WallClockTime::new_with_micros(17, 15, 30, 600_000).format() == "17:15:30.600000");
}

#[test]
fn test_parse() -> Result<(), ParseError> {
    assert!("09:30:00".parse::<WallClockTime>()? == WallClockTime::new(9, 30, 0));
    assert!("17:15:30".parse::<WallClockTime>()? == WallClockTime::new(17, 15, 30));
    assert!(
        "18:30:01.345678".parse::<WallClockTime>()?
            == WallClockTime::new_with_micros(18, 30, 1, 345_678)
    );
    Ok(())
}
