use rag_core::timestamp::{iso8601_to_timestamp, timestamp_to_iso8601};

#[test]
fn epoch_reads_as_zero() {
    assert_eq!(iso8601_to_timestamp("1970-01-01T00:00:00"), Some(0));
    assert_eq!(iso8601_to_timestamp("1970-01-02T00:00:01"), Some(86_401));
}

#[test]
fn dates_are_read_field_by_field() {
    assert_eq!(iso8601_to_timestamp("2024-01-15T10:30:00"), Some(1_705_314_600));
    assert_eq!(iso8601_to_timestamp("2000-01-01T00:00:00"), Some(946_684_800));
    assert_eq!(iso8601_to_timestamp("1969-12-31T23:59:59"), Some(-1));
    assert_eq!(iso8601_to_timestamp("+2024-1-15T10:30:0"), Some(1_705_314_600));
}

#[test]
fn leap_day_of_the_year_itself_is_counted() {
    assert_eq!(iso8601_to_timestamp("2024-02-29T00:00:00"), Some(1_709_164_800));
    assert_eq!(iso8601_to_timestamp("2024-03-01T00:00:00"), Some(1_709_251_200));
    assert_eq!(iso8601_to_timestamp("2024-12-31T23:59:59"), Some(1_735_689_599));
    assert_eq!(iso8601_to_timestamp("2023-03-01T00:00:00"), Some(1_677_628_800));
    assert_eq!(iso8601_to_timestamp("2000-03-01T00:00:00"), Some(951_868_800));
    assert_eq!(iso8601_to_timestamp("2100-03-01T00:00:00"), Some(4_107_542_400));
    assert_eq!(iso8601_to_timestamp("9999-12-31T23:59:59"), Some(253_402_300_799));
}

#[test]
fn fields_are_not_range_checked_beyond_the_month() {
    assert_eq!(iso8601_to_timestamp("1970-01-32T00:00:00"), Some(31 * 86_400));
    assert_eq!(iso8601_to_timestamp("1970-01-01T25:61:61"), Some(25 * 3600 + 61 * 60 + 61));
    assert_eq!(iso8601_to_timestamp("1970-01-00T00:00:00"), Some(-86_400));
}

#[test]
fn any_of_the_separators_splits() {
    assert_eq!(iso8601_to_timestamp("1970:01T02-00-00:05"), Some(86_405));
}

#[test]
fn malformed_dates_give_nothing() {
    assert_eq!(iso8601_to_timestamp(""), None);
    assert_eq!(iso8601_to_timestamp("2024-01-15"), None);
    assert_eq!(iso8601_to_timestamp("2024-01-15T10:30"), None);
    assert_eq!(iso8601_to_timestamp("2024-01-15T10:30:00:00"), None);
    assert_eq!(iso8601_to_timestamp("2024-13-15T10:30:00"), None);
    assert_eq!(iso8601_to_timestamp("2024-00-15T10:30:00"), None);
    assert_eq!(iso8601_to_timestamp("2024-01-15T10:30:00Z"), None);
    assert_eq!(iso8601_to_timestamp("20x4-01-15T10:30:00"), None);
    assert_eq!(iso8601_to_timestamp("2024--15T10:30:00"), None);
    assert_eq!(iso8601_to_timestamp("2024-01-15 10:30:00"), None);
    assert_eq!(iso8601_to_timestamp("2147483648-01-15T10:30:00"), None);
    assert_eq!(iso8601_to_timestamp("2024-01-4294967296T10:30:00"), None);
    assert_eq!(iso8601_to_timestamp("2024-01-+T10:30:00"), None);
}

#[test]
fn largest_fields_are_read() {
    assert!(iso8601_to_timestamp("2147483647-12-4294967295T4294967295:4294967295:4294967295").is_some());
}

#[test]
fn timestamps_are_written_as_dates() {
    assert_eq!(timestamp_to_iso8601(0), "1970-01-01T00:00:00");
    assert_eq!(timestamp_to_iso8601(86_399), "1970-01-01T23:59:59");
    assert_eq!(timestamp_to_iso8601(1_705_314_600), "2024-01-15T10:30:00");
    assert_eq!(timestamp_to_iso8601(951_782_400), "2000-02-29T00:00:00");
    assert_eq!(timestamp_to_iso8601(1_709_251_200), "2024-03-01T00:00:00");
    assert_eq!(timestamp_to_iso8601(4_102_444_799), "2099-12-31T23:59:59");
    assert_eq!(timestamp_to_iso8601(253_402_300_800), "10000-01-01T00:00:00");
}

#[test]
fn timestamps_before_the_epoch_are_dates_before_1970() {
    assert_eq!(timestamp_to_iso8601(-1), "1969-12-31T23:59:59");
    assert_eq!(timestamp_to_iso8601(-86_400), "1969-12-31T00:00:00");
    assert_eq!(timestamp_to_iso8601(-57_974_400), "1968-03-01T00:00:00");
    assert_eq!(timestamp_to_iso8601(-58_060_800), "1968-02-29T00:00:00");
    assert_eq!(timestamp_to_iso8601(-2_203_891_200), "1900-03-01T00:00:00");
    assert_eq!(timestamp_to_iso8601(-62_167_219_200), "0000-01-01T00:00:00");
    assert_eq!(timestamp_to_iso8601(-62_167_219_201), "-001-12-31T23:59:59");
}

#[test]
fn dates_before_1970_are_read() {
    assert_eq!(iso8601_to_timestamp("1968-03-01T00:00:00"), Some(-57_974_400));
    assert_eq!(iso8601_to_timestamp("1968-02-29T00:00:00"), Some(-58_060_800));
    assert_eq!(iso8601_to_timestamp("1900-03-01T00:00:00"), Some(-2_203_891_200));
    assert_eq!(iso8601_to_timestamp("1600-03-01T00:00:00"), Some(-11_670_912_000));
    assert_eq!(iso8601_to_timestamp("0001-01-01T00:00:00"), Some(-62_135_596_800));
    assert_eq!(iso8601_to_timestamp("0000-01-01T00:00:00"), Some(-62_167_219_200));
}

#[test]
fn written_timestamps_read_back() {
    let mut ts: i64 = -62_167_219_200;
    while ts < 253_402_300_800 {
        assert_eq!(iso8601_to_timestamp(&timestamp_to_iso8601(ts)), Some(ts), "{}", ts);
        ts += 86_400 * 97 + 3_661 * 7;
    }
    for ts in [0i64, 1, 86_399, 951_782_400, 1_709_164_800, 1_709_251_200, 253_402_300_799] {
        assert_eq!(iso8601_to_timestamp(&timestamp_to_iso8601(ts)), Some(ts));
    }
}

#[test]
fn read_dates_are_written_back() {
    for date in [
        "0000-01-01T00:00:00",
        "0004-02-29T23:59:59",
        "1600-02-29T00:00:00",
        "1900-02-28T23:59:59",
        "1969-12-31T23:59:59",
        "1970-01-01T00:00:00",
        "1999-12-31T23:59:59",
        "2000-02-29T12:00:00",
        "2024-02-29T00:00:00",
        "2024-03-01T00:00:00",
        "2024-12-31T23:59:59",
        "2100-02-28T01:02:03",
        "2100-03-01T00:00:00",
        "9999-12-31T23:59:59",
    ] {
        let ts = iso8601_to_timestamp(date).unwrap();
        assert_eq!(timestamp_to_iso8601(ts), date);
    }
}
