use backlight::brightness::BrightnessSpec;
use backlight::content::format_value;
use backlight::content::parse_content;
use backlight::device::GenericBacklight;

#[test]
fn specparser_accept() {
    assert_eq!(BrightnessSpec::from_str("42"), Ok(BrightnessSpec::Absolute(42)));
    assert_eq!(BrightnessSpec::from_str("+4"), Ok(BrightnessSpec::Relative(4)));
    assert_eq!(BrightnessSpec::from_str("-4"), Ok(BrightnessSpec::Relative(-4)));
    assert_eq!(BrightnessSpec::from_str("99%"), Ok(BrightnessSpec::Percentage(99)));
    assert_eq!(BrightnessSpec::from_str("+58%"), Ok(BrightnessSpec::RelativePercentage(58)));
    assert_eq!(BrightnessSpec::from_str("-03%"), Ok(BrightnessSpec::RelativePercentage(-3)));
}

#[test]
fn specparser_reject() {
    assert_eq!(BrightnessSpec::from_str("deadbeef"), Err(()));
    assert_eq!(BrightnessSpec::from_str("+34foo"), Err(()));
    assert_eq!(BrightnessSpec::from_str("+1337wat%"), Err(()));
    assert_eq!(BrightnessSpec::from_str("0xcaffeebabe"), Err(()));
    assert_eq!(BrightnessSpec::from_str("3.14159"), Err(()));
}

#[test]
fn relative_doesnt_underflow() {
    assert_eq!(BrightnessSpec::from_str("-100").unwrap().apply(20, 0, 100), 0)
}

#[test]
fn specparser_edges() {
    assert_eq!(BrightnessSpec::from_str(""), Err(()));
    assert_eq!(BrightnessSpec::from_str("%"), Err(()));
    assert_eq!(BrightnessSpec::from_str("+"), Err(()));
    assert_eq!(BrightnessSpec::from_str("+%"), Err(()));
    assert_eq!(BrightnessSpec::from_str("+-3"), Err(()));
    assert_eq!(BrightnessSpec::from_str(" 42"), Err(()));
    assert_eq!(BrightnessSpec::from_str("42 "), Err(()));
    assert_eq!(BrightnessSpec::from_str("4 2"), Err(()));
}

#[test]
fn specparser_payload_bounds() {
    assert_eq!(
        BrightnessSpec::from_str("4294967295"),
        Ok(BrightnessSpec::Absolute(u32::MAX))
    );
    assert_eq!(BrightnessSpec::from_str("4294967296"), Err(()));
    assert_eq!(
        BrightnessSpec::from_str("-2147483648"),
        Ok(BrightnessSpec::Relative(i32::MIN))
    );
    assert_eq!(BrightnessSpec::from_str("-2147483649"), Err(()));
    assert_eq!(
        BrightnessSpec::from_str("+2147483647"),
        Ok(BrightnessSpec::Relative(i32::MAX))
    );
    assert_eq!(BrightnessSpec::from_str("+2147483648"), Err(()));
    assert_eq!(
        BrightnessSpec::from_str("+2147483647%"),
        Ok(BrightnessSpec::RelativePercentage(i32::MAX))
    );
    assert_eq!(BrightnessSpec::from_str("+2147483648%"), Err(()));
}

#[test]
fn specparser_leading_zeros() {
    assert_eq!(BrightnessSpec::from_str("007"), Ok(BrightnessSpec::Absolute(7)));
    assert_eq!(BrightnessSpec::from_str("-0"), Ok(BrightnessSpec::Relative(0)));
}

#[test]
fn default_is_noop() {
    assert_eq!(BrightnessSpec::default(), BrightnessSpec::Relative(0));
    assert_eq!(BrightnessSpec::default().apply(42, 1, 100), 42);
}

#[test]
fn absolute_overrides_and_clamps() {
    assert_eq!(BrightnessSpec::Absolute(42).apply(7, 1, 100), 42);
    assert_eq!(BrightnessSpec::Absolute(500).apply(7, 1, 100), 100);
    assert_eq!(BrightnessSpec::Absolute(0).apply(7, 1, 100), 1);
}

#[test]
fn relative_moves_and_clamps() {
    assert_eq!(BrightnessSpec::Relative(10).apply(20, 0, 100), 30);
    assert_eq!(BrightnessSpec::Relative(-10).apply(20, 0, 100), 10);
    assert_eq!(BrightnessSpec::Relative(1000).apply(20, 0, 100), 100);
    assert_eq!(BrightnessSpec::Relative(i32::MIN).apply(100, 1, u32::MAX), 1);
    assert_eq!(BrightnessSpec::Relative(i32::MAX).apply(u32::MAX, 1, u32::MAX), u32::MAX);
}

#[test]
fn percentage_interpolates() {
    assert_eq!(BrightnessSpec::Percentage(50).apply(7, 0, 100), 50);
    assert_eq!(BrightnessSpec::Percentage(0).apply(7, 0, 100), 0);
    assert_eq!(BrightnessSpec::Percentage(100).apply(7, 0, 100), 100);
    // 10 + 50 * (90 - 10) / 100 = 50
    assert_eq!(BrightnessSpec::Percentage(50).apply(7, 10, 90), 50);
    // truncating division: 10 + 33 * 80 / 100 = 10 + 26 = 36
    assert_eq!(BrightnessSpec::Percentage(33).apply(7, 10, 90), 36);
    // values above 100 are not rejected, only clamped
    assert_eq!(BrightnessSpec::Percentage(200).apply(7, 0, 100), 100);
}

#[test]
fn relative_percentage_zero_is_noop() {
    assert_eq!(BrightnessSpec::RelativePercentage(0).apply(42, 1, 100), 42);
    assert_eq!(BrightnessSpec::RelativePercentage(0).apply(0, 1, 100), 1);
    assert_eq!(BrightnessSpec::RelativePercentage(0).apply(500, 1, 100), 100);
}

#[test]
fn relative_percentage_steps_by_at_least_one() {
    // 5 * 101 / 100 rounds down to 5; the +1 floor keeps it moving
    assert_eq!(BrightnessSpec::RelativePercentage(1).apply(5, 0, 100), 6);
    assert_eq!(BrightnessSpec::RelativePercentage(-1).apply(5, 0, 100), 4);
    // plain scaling once it outruns the +-1 floor
    assert_eq!(BrightnessSpec::RelativePercentage(50).apply(10, 0, 100), 15);
    assert_eq!(BrightnessSpec::RelativePercentage(-50).apply(10, 0, 100), 5);
    // at zero, the downward step underflows conceptually and clamps to min
    assert_eq!(BrightnessSpec::RelativePercentage(-10).apply(0, 0, 100), 0);
    assert_eq!(BrightnessSpec::RelativePercentage(-200).apply(10, 0, 100), 0);
    assert_eq!(BrightnessSpec::RelativePercentage(200).apply(60, 0, 100), 100);
}

#[test]
fn apply_stays_in_bounds_at_extremes() {
    assert_eq!(
        BrightnessSpec::RelativePercentage(i32::MAX).apply(u32::MAX, 0, u32::MAX),
        u32::MAX
    );
    assert_eq!(
        BrightnessSpec::RelativePercentage(i32::MIN).apply(u32::MAX, 3, u32::MAX),
        3
    );
    assert_eq!(BrightnessSpec::Percentage(u32::MAX).apply(0, 0, u32::MAX), u32::MAX);
}

#[test]
fn content_parses_device_files() {
    assert_eq!(parse_content("1234"), Ok(1234));
    assert_eq!(parse_content("1234\n"), Ok(1234));
    assert_eq!(parse_content("  42 \n"), Ok(42));
    assert_eq!(parse_content("\t7\r\n"), Ok(7));
    assert_eq!(parse_content("007"), Ok(7));
    assert_eq!(parse_content("4294967295\n"), Ok(u32::MAX));
}

#[test]
fn content_rejects_bad_files() {
    assert_eq!(parse_content(""), Err(()));
    assert_eq!(parse_content("\n"), Err(()));
    assert_eq!(parse_content("12a"), Err(()));
    assert_eq!(parse_content("4 2"), Err(()));
    assert_eq!(parse_content("-5"), Err(()));
    assert_eq!(parse_content("4294967296\n"), Err(()));
}

#[test]
fn format_writes_decimal_digits() {
    assert_eq!(format_value(0), vec!['0']);
    assert_eq!(format_value(7), vec!['7']);
    assert_eq!(format_value(42), vec!['4', '2']);
    assert_eq!(format_value(100), vec!['1', '0', '0']);
    assert_eq!(
        format_value(u32::MAX),
        vec!['4', '2', '9', '4', '9', '6', '7', '2', '9', '5']
    );
}

#[test]
fn format_then_parse_round_trips() {
    for v in [0u32, 1, 9, 10, 99, 12345, u32::MAX] {
        let text: String = format_value(v).into_iter().collect();
        assert_eq!(parse_content(&text), Ok(v));
    }
}

#[test]
fn device_keeps_its_name() {
    let b = GenericBacklight::new(String::from("intel_backlight"));
    assert_eq!(b.path, "intel_backlight");
}
