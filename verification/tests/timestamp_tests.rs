use anything::timestamp::{bytes_to_fields, bytes_to_time, fields_to_bytes, fields_valid};
use chrono::TimeZone;

/// Packs the given calendar values the way the on-disk layout does,
/// independently of the library's own encoder.
fn pack(year: u16, month: u8, day: u8, hour: u8, minute: u8, second: u8) -> (u8, u8, u8, u8) {
    let b1 = (second / 2) | ((minute & 0x07) << 5);
    let b2 = (minute >> 3) | (hour << 3);
    let b3 = day | ((month & 0x07) << 5);
    let b4 = (month >> 3) | (((year - 1980) as u8) << 1);
    (b1, b2, b3, b4)
}

#[test]
fn scenario_decodes_to_utc_instant() {
    let (b1, b2, b3, b4) = pack(2023, 6, 15, 10, 30, 0);
    let t = bytes_to_time(b1, b2, b3, b4, 0, 0);
    assert_eq!(t, 1686825000);
    let expected = chrono::Utc
        .with_ymd_and_hms(2023, 6, 15, 10, 30, 0)
        .unwrap()
        .timestamp();
    assert_eq!(t, expected);
}

#[test]
fn scenario_month_thirteen_decodes_to_sentinel() {
    let (b1, b2, b3, b4) = pack(2023, 13, 1, 0, 0, 0);
    assert_eq!(bytes_to_time(b1, b2, b3, b4, 0, 0), 0);
}

#[test]
fn epoch_matches_calendar_across_dates() {
    let cases = [
        (1980u16, 1u8, 1u8, 0u8, 0u8, 0u8),
        (1999, 12, 31, 23, 59, 58),
        (2000, 2, 29, 12, 0, 0),
        (2024, 2, 29, 6, 30, 2),
        (2100, 3, 1, 1, 2, 4),
        (2107, 12, 31, 23, 59, 58),
    ];
    for &(y, mo, d, h, mi, s) in cases.iter() {
        let (b1, b2, b3, b4) = pack(y, mo, d, h, mi, s);
        let expected = chrono::Utc
            .with_ymd_and_hms(y as i32, mo as u32, d as u32, h as u32, mi as u32, s as u32)
            .unwrap()
            .timestamp();
        assert_eq!(bytes_to_time(b1, b2, b3, b4, 0, 0), expected);
    }
}

#[test]
fn utc_offset_shifts_the_instant() {
    let (b1, b2, b3, b4) = pack(2023, 6, 15, 10, 30, 0);
    // Offset byte: valid bit plus 4 quarter hours east.
    let east = bytes_to_time(b1, b2, b3, b4, 0, 0x80 | 4);
    assert_eq!(east, 1686825000 - 3600);
    // Valid bit, sign bit, magnitude 16: 16 - 64 quarter hours, i.e.
    // 12 hours west.
    let west = bytes_to_time(b1, b2, b3, b4, 0, 0x80 | 0x40 | 0x10);
    assert_eq!(west, 1686825000 + 43200);
}

#[test]
fn millisecond_increment_carries_into_seconds() {
    let (b1, b2, b3, b4) = pack(2023, 6, 15, 10, 30, 2);
    // 150 ten-millisecond steps: 1.5 seconds, so one carried second.
    let dt = bytes_to_fields(b1, b2, b3, b4, 150, 0);
    assert_eq!(dt.second, 3);
    assert_eq!(dt.millisecond, 500);
    let t = bytes_to_time(b1, b2, b3, b4, 150, 0);
    assert_eq!(t, 1686825003);
}

#[test]
fn day_outside_month_decodes_to_sentinel() {
    let (b1, b2, b3, b4) = pack(2023, 4, 31, 0, 0, 0);
    assert_eq!(bytes_to_time(b1, b2, b3, b4, 0, 0), 0);
    let (b1, b2, b3, b4) = pack(2023, 2, 29, 0, 0, 0);
    assert_eq!(bytes_to_time(b1, b2, b3, b4, 0, 0), 0);
}

#[test]
fn round_trip_reproduces_raw_bytes() {
    let cases = [
        (pack(2023, 6, 15, 10, 30, 0), 0u8, 0x80u8),
        (pack(1980, 1, 1, 0, 0, 0), 0, 0x80),
        (pack(2107, 12, 31, 23, 59, 58), 199, 0x80 | 0x3F),
        (pack(1999, 8, 7, 6, 5, 4), 150, 0x80 | 0x40 | 0x10),
        (pack(2024, 2, 29, 17, 45, 30), 99, 0x80 | 0x40),
    ];
    for &((b1, b2, b3, b4), b_ms, b_tz) in cases.iter() {
        let dt = bytes_to_fields(b1, b2, b3, b4, b_ms, b_tz);
        let back = fields_to_bytes(&dt);
        assert_eq!(back, (b1, b2, b3, b4, b_ms, b_tz));
    }
}

#[test]
fn validity_follows_the_calendar() {
    let ok = bytes_to_fields(0, 0, 33, 0, 0, 0);
    assert!(fields_valid(&ok));
    let bad_day = bytes_to_fields(0, 0, 0, 0, 0, 0);
    assert!(!fields_valid(&bad_day));
}
